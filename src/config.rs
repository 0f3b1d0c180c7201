use vstd::prelude::*;

use crate::argument_parser::{
    self, command_groups, flag_groups, groups_valid, strings_view, ArgumentMapping,
};

verus! {

pub enum OutputMethod {
    File(String),
    Stdout,
}

pub struct Config {
    pub input_file_name: Option<String>,
    pub output: OutputMethod,
    pub lib: Vec<String>,
    pub help_mode: bool,
}

impl Config {
    /// No input, output to `a.marie`, no libraries.
    pub fn default() -> (r: Config)
        ensures
            r.input_file_name is None,
            r.output matches OutputMethod::File(f) && f@ == "a.marie"@,
            r.lib@.len() == 0,
            !r.help_mode,
    {
        Config {
            input_file_name: None,
            output: OutputMethod::File("a.marie".to_owned()),
            lib: Vec::new(),
            help_mode: false,
        }
    }
}

pub open spec fn flag_of(letter: char) -> Seq<char> {
    seq!['-', letter]
}

/// A flag with as many values as it takes: `-l` one or more, `-o` one, `-s` none.
pub open spec fn group_ok(g: (Seq<char>, Seq<Seq<char>>)) -> bool {
    &&& (g.0 == flag_of('l') ==> g.1.len() >= 1)
    &&& (g.0 == flag_of('o') ==> g.1.len() == 1)
    &&& (g.0 == flag_of('s') ==> g.1.len() == 0)
}

pub open spec fn has_flag(gs: Seq<(Seq<char>, Seq<Seq<char>>)>, letter: char, n: int) -> bool {
    exists|k: int| 0 <= k < n && (#[trigger] gs[k]).0 == flag_of(letter)
}

/// What the groups so far make of the configuration.
pub open spec fn config_fits(c: Config, gs: Seq<(Seq<char>, Seq<Seq<char>>)>, n: int) -> bool {
    &&& forall|k: int| 0 <= k < n ==> group_ok(#[trigger] gs[k])
    &&& forall|k: int|
        0 <= k < n && (#[trigger] gs[k]).0 == flag_of('l') ==> strings_view(c.lib@) == gs[k].1
    &&& !has_flag(gs, 'l', n) ==> c.lib@.len() == 0
    &&& !has_flag(gs, 'o', n) && !has_flag(gs, 's', n) ==> (c.output matches OutputMethod::File(
        f,
    ) && f@ == "a.marie"@)
    &&& forall|k: int|
        0 <= k < n && (#[trigger] gs[k]).0 == flag_of('o') && !has_flag(gs, 's', n) ==> (
        c.output matches OutputMethod::File(f) && seq![f@] == gs[k].1)
    &&& has_flag(gs, 's', n) && !has_flag(gs, 'o', n) ==> c.output is Stdout
    &&& forall|k: int, j: int|
        0 <= k < n && 0 <= j < n && (#[trigger] gs[k]).0 == flag_of('o') && (#[trigger] gs[j]).0
            == flag_of('s') ==> if k < j {
            c.output is Stdout
        } else {
            c.output matches OutputMethod::File(f) && seq![f@] == gs[k].1
        }
    &&& !c.help_mode
}

/// The flags that the command line knows: `-l`, `-o` and `-s`.
pub open spec fn config_mappers() -> Seq<ArgumentMapping> {
    seq![ArgumentMapping { letter: 'l' }, ArgumentMapping { letter: 'o' }, ArgumentMapping { letter: 's' }]
}

/// Reads the command line: an optional input path, `-l` with one or more
/// library paths, `-o` with one output path, `-s` for standard output.
pub fn parse_arguments(args: &[String]) -> (r: Result<Config, String>)
    ensures
        r matches Ok(c) ==> (c.input_file_name is Some <==> args@.len() > 0
            && !argument_parser::starts_with_dash(args@[0]@)),
        r matches Ok(c) ==> (c.input_file_name matches Some(n) ==> n@ == args@[0]@),
        r matches Ok(c) ==> config_fits(c, command_groups(args@), command_groups(args@).len() as int),
        r is Ok <==> groups_valid(command_groups(args@), config_mappers()) && forall|k: int|
            0 <= k < command_groups(args@).len() ==> group_ok(#[trigger] command_groups(args@)[k]),
{
    let mut mappers: Vec<ArgumentMapping> = Vec::new();
    mappers.push(ArgumentMapping::new('l'));
    mappers.push(ArgumentMapping::new('o'));
    mappers.push(ArgumentMapping::new('s'));
    assert(mappers@ =~= config_mappers());
    let parsed = argument_parser::parse_arguments(args, &mappers)?;
    let ghost gs = command_groups(args@);
    assert(gs == flag_groups(strings_view(args@), if parsed.main is Some { 1 } else { 0 }));
    let mut config = Config::default();
    config.input_file_name = parsed.main;
    let mut k: usize = 0;
    proof {
        reveal_strlit("a.marie");
    }
    while k < parsed.flags.len()
        invariant
            config.input_file_name == parsed.main,
            k <= parsed.flags@.len(),
            gs.len() == parsed.flags@.len(),
            gs == command_groups(args@),
            mappers@ == seq![ArgumentMapping { letter: 'l' }, ArgumentMapping { letter: 'o' }, ArgumentMapping { letter: 's' }],
            forall|m: int| 0 <= m < parsed.flags@.len() ==> (#[trigger] parsed.flags@[m]).0 < 3,
            forall|m: int, j: int|
                0 <= m < j < parsed.flags@.len() ==> (#[trigger] parsed.flags@[m]).0
                    != (#[trigger] parsed.flags@[j]).0,
            forall|m: int|
                0 <= m < gs.len() ==> gs[m].0 == flag_of(mappers@[(#[trigger] parsed.flags@[m]).0 as int].letter)
                    && gs[m].1 == strings_view(parsed.flags@[m].1@),
            config_fits(config, gs, k as int),
        decreases parsed.flags@.len() - k,
    {
        let ghost before = config;
        let (which, values) = (parsed.flags[k].0, &parsed.flags[k].1);
        let ghost g = gs[k as int];
        assert(g.0 == flag_of(mappers@[which as int].letter));
        assert(flag_of('l') != flag_of('o') && flag_of('l') != flag_of('s') && flag_of('o') != flag_of('s')) by {
            assert(flag_of('l')[1] != flag_of('o')[1]);
            assert(flag_of('l')[1] != flag_of('s')[1]);
            assert(flag_of('o')[1] != flag_of('s')[1]);
        };
        // a letter comes once: no earlier group has it
        assert(forall|m: int| 0 <= m < k ==> (#[trigger] gs[m]).0 != g.0) by {
            assert forall|m: int| 0 <= m < k implies (#[trigger] gs[m]).0 != g.0 by {
                assert(parsed.flags@[m].0 != parsed.flags@[k as int].0);
                assert(gs[m].0[1] == mappers@[parsed.flags@[m].0 as int].letter);
            };
        };
        let ghost before = config;
        if which == 0 {
            if values.len() < 1 {
                assert(g.1.len() == values@.len());
                assert(!group_ok(gs[k as int]));
                assert(!group_ok(command_groups(args@)[k as int]));
                return Err("after -l, specify at least one lib file".to_owned());
            }
            config.lib = values.clone();
        } else if which == 1 {
            if values.len() != 1 {
                assert(g.1.len() == values@.len());
                assert(!group_ok(gs[k as int]));
                assert(!group_ok(command_groups(args@)[k as int]));
                return Err("o argument takes exactly one value".to_owned());
            }
            config.output = OutputMethod::File(values[0].clone());
            assert(seq![values@[0]@] =~= strings_view(values@));
        } else {
            if values.len() != 0 {
                assert(g.1.len() == values@.len());
                assert(!group_ok(gs[k as int]));
                assert(!group_ok(command_groups(args@)[k as int]));
                return Err("s argument takes no values ".to_owned());
            }
            config.output = OutputMethod::Stdout;
        }
        proof {
            assert(group_ok(g));
            assert forall|letter: char| #[trigger] has_flag(gs, letter, k + 1) == (has_flag(gs, letter, k as int) || g.0 == flag_of(letter)) by {
                if has_flag(gs, letter, k + 1) {
                    let m = choose|m: int| 0 <= m < k + 1 && (#[trigger] gs[m]).0 == flag_of(letter);
                    if m < k {
                        assert(has_flag(gs, letter, k as int));
                    }
                }
                if has_flag(gs, letter, k as int) {
                    let m = choose|m: int| 0 <= m < k && (#[trigger] gs[m]).0 == flag_of(letter);
                    assert(0 <= m < k + 1);
                }
                if g.0 == flag_of(letter) {
                    assert(gs[k as int].0 == flag_of(letter));
                }
            };
        }
        k += 1;
    }
    Ok(config)
}

} // verus!
