use vstd::prelude::*;

use crate::string_builder::{chars_of, collapse, push};

verus! {

/// A flag `-<letter>` that the command line may hold once.
#[derive(Debug, Clone, Copy, PartialEq, Eq, Structural)]
pub struct ArgumentMapping {
    pub letter: char,
}

impl ArgumentMapping {
    pub fn new(letter: char) -> (r: ArgumentMapping)
        ensures
            r.letter == letter,
    {
        ArgumentMapping { letter }
    }
}

pub open spec fn starts_with_dash(s: Seq<char>) -> bool {
    s.len() > 0 && s[0] == '-'
}

/// The command line, read: the main argument where the first one does not
/// start with `-`, then each flag given (by its index among the mappers)
/// with the values that follow it up to the next `-`.
pub struct ParsedArguments {
    pub main: Option<String>,
    pub flags: Vec<(usize, Vec<String>)>,
}

fn starts_with_dash_exec(s: &String) -> (r: bool)
    ensures
        r == starts_with_dash(s@),
{
    let chars = chars_of(s.as_str());
    chars.len() > 0 && chars[0] == '-'
}

pub open spec fn strings_view(v: Seq<String>) -> Seq<Seq<char>> {
    v.map_values(|s: String| s@)
}

/// The first position from `j` on whose argument starts with `-`, or the end.
pub open spec fn next_dash(args: Seq<Seq<char>>, j: int) -> int
    decreases args.len() - j,
{
    if 0 <= j < args.len() && !starts_with_dash(args[j]) {
        next_dash(args, j + 1)
    } else {
        j
    }
}

proof fn lemma_next_dash(args: Seq<Seq<char>>, j: int)
    requires
        0 <= j <= args.len(),
    ensures
        j <= next_dash(args, j) <= args.len(),
    decreases args.len() - j,
{
    if j < args.len() && !starts_with_dash(args[j]) {
        lemma_next_dash(args, j + 1);
    }
}

/// From position `i` on: each flag with the arguments that follow it up to
/// the next one that starts with `-`.
pub open spec fn flag_groups(args: Seq<Seq<char>>, i: int) -> Seq<(Seq<char>, Seq<Seq<char>>)>
    decreases args.len() - i,
    via flag_groups_decreases
{
    if i < 0 || i >= args.len() {
        Seq::empty()
    } else {
        let e = next_dash(args, i + 1);
        seq![(args[i], args.subrange(i + 1, e))] + flag_groups(args, e)
    }
}

#[via_fn]
proof fn flag_groups_decreases(args: Seq<Seq<char>>, i: int) {
    if 0 <= i < args.len() {
        lemma_next_dash(args, i + 1);
    }
}

/// The groups that the read flags stand for.
pub open spec fn groups_of(mappers: Seq<ArgumentMapping>, flags: Seq<(usize, Vec<String>)>) -> Seq<
    (Seq<char>, Seq<Seq<char>>),
> {
    flags.map_values(
        |f: (usize, Vec<String>)| (seq!['-', mappers[f.0 as int].letter], strings_view(f.1@)),
    )
}

/// A flag head: `-` and the letter of one of the mappers.
pub open spec fn head_ok(h: Seq<char>, mappers: Seq<ArgumentMapping>) -> bool {
    h.len() == 2 && h[0] == '-' && exists|k: int| 0 <= k < mappers.len() && (#[trigger] mappers[k]).letter == h[1]
}

/// Every flag is known and none comes twice.
pub open spec fn groups_valid(gs: Seq<(Seq<char>, Seq<Seq<char>>)>, mappers: Seq<ArgumentMapping>) -> bool {
    &&& forall|k: int| 0 <= k < gs.len() ==> head_ok((#[trigger] gs[k]).0, mappers)
    &&& forall|k: int, j: int| 0 <= k < j < gs.len() ==> (#[trigger] gs[k]).0 != (#[trigger] gs[j]).0
}

/// The command line's main argument is present: the first one, where it does
/// not start with `-`.
pub open spec fn has_main(a: Seq<Seq<char>>) -> bool {
    a.len() > 0 && !starts_with_dash(a[0])
}

/// The flags of a command line, each with its values.
pub open spec fn command_groups(args: Seq<String>) -> Seq<(Seq<char>, Seq<Seq<char>>)> {
    let a = strings_view(args);
    flag_groups(
        a,
        if has_main(a) {
            1
        } else {
            0
        },
    )
}

/// Splits the command line into the main argument and flags with their
/// values; a flag must be `-` and one known letter, and may not repeat.
pub fn parse_arguments(args: &[String], mappers: &Vec<ArgumentMapping>) -> (r: Result<
    ParsedArguments,
    String,
>)
    ensures
        r is Ok <==> groups_valid(command_groups(args@), mappers@),
        r matches Ok(p) ==> {
            &&& (p.main is Some <==> args@.len() > 0 && !starts_with_dash(args@[0]@))
            &&& (p.main matches Some(m) ==> m@ == args@[0]@)
            &&& forall|k: int| 0 <= k < p.flags@.len() ==> (#[trigger] p.flags@[k]).0 < mappers@.len()
            &&& forall|k: int, j: int|
                0 <= k < j < p.flags@.len() ==> (#[trigger] p.flags@[k]).0 != (#[trigger] p.flags@[j]).0
            &&& {
                let groups = flag_groups(
                    strings_view(args@),
                    if p.main is Some {
                        1
                    } else {
                        0
                    },
                );
                &&& groups.len() == p.flags@.len()
                &&& forall|k: int|
                    0 <= k < groups.len() ==> groups[k].0 == seq![
                        '-',
                        mappers@[(#[trigger] p.flags@[k]).0 as int].letter,
                    ] && groups[k].1 == strings_view(p.flags@[k].1@)
            }
        },
{
    let mut result = ParsedArguments { main: None, flags: Vec::new() };
    if args.len() == 0 {
        return Ok(result);
    }
    let has_main_arg = !starts_with_dash_exec(&args[0]);
    if has_main_arg {
        result.main = Some(args[0].clone());
    }
    let start_index: usize = if has_main_arg {
        1
    } else {
        0
    };
    let mut already_done: Vec<bool> = Vec::new();
    let mut m: usize = 0;
    while m < mappers.len()
        invariant
            already_done@.len() == m,
            m <= mappers@.len(),
            forall|j: int| 0 <= j < m ==> !already_done@[j],
        decreases mappers@.len() - m,
    {
        already_done.push(false);
        m += 1;
    }
    let ghost a = strings_view(args@);
    let mut i = start_index;
    assert(groups_of(mappers@, result.flags@) =~= Seq::empty());
    assert(flag_groups(a, start_index as int) =~= groups_of(mappers@, result.flags@) + flag_groups(
        a,
        start_index as int,
    ));
    while i < args.len()
        invariant
            start_index <= i <= args@.len(),
            a == strings_view(args@),
            start_index == (if result.main is Some {
                1usize
            } else {
                0usize
            }),
            flag_groups(a, start_index as int) == groups_of(mappers@, result.flags@) + flag_groups(
                a,
                i as int,
            ),
            already_done@.len() == mappers@.len(),
            result.main is Some <==> args@.len() > 0 && !starts_with_dash(args@[0]@),
            result.main matches Some(m) ==> m@ == args@[0]@,
            forall|k: int| 0 <= k < result.flags@.len() ==> (#[trigger] result.flags@[k]).0 < mappers@.len()
                && already_done@[result.flags@[k].0 as int],
            forall|k: int, j: int|
                0 <= k < j < result.flags@.len() ==> (#[trigger] result.flags@[k]).0 != (#[trigger] result.flags@[j]).0,
            forall|x: int| 0 <= x < mappers@.len() && #[trigger] already_done@[x] ==> exists|k: int|
                0 <= k < result.flags@.len() && (#[trigger] result.flags@[k]).0 == x,
            forall|k: int, e: int|
                0 <= k < result.flags@.len() && 0 <= e < (#[trigger] result.flags@[k]).0 ==> (#[trigger] mappers@[e]).letter
                    != mappers@[result.flags@[k].0 as int].letter,
            groups_valid(groups_of(mappers@, result.flags@), mappers@),
            command_groups(args@) == flag_groups(a, start_index as int),
        decreases args@.len() - i,
    {
        let ghost gp = groups_of(mappers@, result.flags@);
        proof {
            assert(flag_groups(a, i as int)[0].0 == a[i as int]);
            assert((gp + flag_groups(a, i as int))[gp.len() as int] == flag_groups(a, i as int)[0]);
        }
        let chars = chars_of(args[i].as_str());
        if chars.len() != 2 || chars[0] != '-' {
            assert(!head_ok(a[i as int], mappers@));
            return Err("Argument passing doesn't follow format \"-{letter}content\" ".to_owned());
        }
        let mut e: usize = 0;
        while e < mappers.len() && mappers[e].letter != chars[1]
            invariant
                e <= mappers@.len(),
                chars@.len() == 2,
                forall|e2: int| 0 <= e2 < e ==> (#[trigger] mappers@[e2]).letter != chars@[1],
            decreases mappers@.len() - e,
        {
            e += 1;
        }
        let found: Option<usize> = if e < mappers.len() {
            Some(e)
        } else {
            None
        };
        assert(args@[i as int]@ == chars@);
        let el_index = match found {
            Some(x) => x,
            None => {
                assert(!head_ok(a[i as int], mappers@));
                let mut msg: Vec<char> = Vec::new();
                push(&mut msg, "Unknown argument kind : ");
                push(&mut msg, args[i].as_str());
                return Err(collapse(msg));
            },
        };
        if already_done[el_index] {
            proof {
                let k = choose|k: int| 0 <= k < result.flags@.len() && (#[trigger] result.flags@[k]).0 == el_index;
                assert(gp[k].0 == seq!['-', mappers@[el_index as int].letter]);
                assert(a[i as int] =~= seq!['-', mappers@[el_index as int].letter]);
                let g = gp + flag_groups(a, i as int);
                assert(g[k] == gp[k]);
                assert(g[k].0 == g[gp.len() as int].0);
            }
            let mut msg: Vec<char> = Vec::new();
            push(&mut msg, "Specified twice: ");
            push(&mut msg, args[i].as_str());
            return Err(collapse(msg));
        }
        already_done.set(el_index, true);
        let mut values: Vec<String> = Vec::new();
        let mut j = i + 1;
        proof {
            lemma_next_dash(a, i + 1);
            assert(mappers@[el_index as int].letter == chars@[1]);
            assert(args@[i as int]@ =~= seq!['-', mappers@[el_index as int].letter]);
        }
        while j < args.len() && !starts_with_dash_exec(&args[j])
            invariant
                i < j <= args@.len(),
                a == strings_view(args@),
                next_dash(a, i + 1) == next_dash(a, j as int),
                strings_view(values@) =~= a.subrange(i + 1, j as int),
                el_index < mappers@.len(),
                args@[i as int]@ == seq!['-', mappers@[el_index as int].letter],
            decreases args@.len() - j,
        {
            let v = args[j].clone();
            assert(v@ == a[j as int]);
            let ghost old_values = values@;
            values.push(v);
            assert(strings_view(values@) =~= strings_view(old_values).push(v@));
            assert(a.subrange(i + 1, j + 1) =~= a.subrange(i + 1, j as int).push(a[j as int]));
            j += 1;
        }
        let ghost before = result.flags@;
        proof {
            assert(j == next_dash(a, i + 1));
        }
        result.flags.push((el_index, values));
        proof {
            assert(groups_of(mappers@, result.flags@) =~= groups_of(mappers@, before) + seq![
                (seq!['-', mappers@[el_index as int].letter], strings_view(values@)),
            ]);
            let e = j as int;
            assert(flag_groups(a, i as int) == seq![(a[i as int], a.subrange(i + 1, e))]
                + flag_groups(a, e));
            assert(groups_of(mappers@, before) + flag_groups(a, i as int) =~= groups_of(
                mappers@,
                result.flags@,
            ) + flag_groups(a, e));
        }
        proof {
            let gn = groups_of(mappers@, result.flags@);
            assert forall|x: int| 0 <= x < mappers@.len() && #[trigger] already_done@[x] implies exists|k: int|
                0 <= k < result.flags@.len() && (#[trigger] result.flags@[k]).0 == x by {
                if x == el_index {
                    assert(result.flags@[before.len() as int].0 == x);
                } else {
                    let k = choose|k: int| 0 <= k < before.len() && (#[trigger] before[k]).0 == x;
                    assert(result.flags@[k] == before[k]);
                }
            };
            assert forall|k: int, e: int|
                0 <= k < result.flags@.len() && 0 <= e < (#[trigger] result.flags@[k]).0 implies (#[trigger] mappers@[e]).letter
                    != mappers@[result.flags@[k].0 as int].letter by {
                if k < before.len() {
                    assert(result.flags@[k] == before[k]);
                }
            };
            assert forall|k: int| 0 <= k < gn.len() implies head_ok((#[trigger] gn[k]).0, mappers@) by {
                assert(mappers@[result.flags@[k].0 as int].letter == gn[k].0[1]);
            };
            assert forall|k: int, l: int| 0 <= k < l < gn.len() implies (#[trigger] gn[k]).0 != (#[trigger] gn[l]).0 by {
                let x = result.flags@[k].0;
                let y = result.flags@[l].0;
                if l < before.len() {
                    assert(result.flags@[k] == before[k]);
                    assert(result.flags@[l] == before[l]);
                    assert(gn[k] == gp[k]);
                    assert(gn[l] == gp[l]);
                } else {
                    assert(result.flags@[k] == before[k]);
                    assert(x != y);
                    if x < y {
                        assert(mappers@[x as int].letter != mappers@[y as int].letter);
                    } else {
                        assert(mappers@[y as int].letter != mappers@[x as int].letter);
                    }
                    assert(gn[k].0[1] != gn[l].0[1]);
                }
            };
        }
        proof {
            assert forall|k: int| 0 <= k < result.flags@.len() implies (#[trigger] result.flags@[k]).0
                < mappers@.len() && already_done@[result.flags@[k].0 as int] by {
                if k < before.len() {
                    assert(result.flags@[k] == before[k]);
                }
            };
            assert forall|k: int, l: int|
                0 <= k < l < result.flags@.len() implies (#[trigger] result.flags@[k]).0
                != (#[trigger] result.flags@[l]).0 by {
                if l < before.len() {
                    assert(result.flags@[k] == before[k]);
                    assert(result.flags@[l] == before[l]);
                } else {
                    assert(result.flags@[k] == before[k]);
                }
            };
        }
        i = j;
    }
    proof {
        assert(flag_groups(a, i as int) =~= Seq::empty());
        assert(groups_of(mappers@, result.flags@) + flag_groups(a, i as int) =~= groups_of(
            mappers@,
            result.flags@,
        ));
    }
    Ok(result)
}

} // verus!
