use vstd::prelude::*;

use crate::lexer::{lines_of, split_lines};
use crate::string_builder::{chars_of, collapse};

verus! {

/// The position of the first `*`.
pub open spec fn first_star(s: Seq<char>) -> Option<int>
    decreases s.len(),
{
    if s.len() == 0 {
        None
    } else {
        match first_star(s.drop_last()) {
            Some(i) => Some(i),
            None => if s.last() == '*' {
                Some(s.len() - 1)
            } else {
                None
            },
        }
    }
}

/// A splice can be made: one side is empty, or the host has a `*`.
pub open spec fn can_splice(code: Seq<char>, lib: Seq<char>) -> bool {
    code.len() == 0 || lib.len() == 0 || first_star(code) is Some
}

/// The host with its first `*` replaced by the guest; an empty side gives the other.
pub open spec fn splice(code: Seq<char>, lib: Seq<char>) -> Seq<char> {
    if code.len() == 0 {
        lib
    } else if lib.len() == 0 {
        code
    } else {
        let i = first_star(code).unwrap();
        code.subrange(0, i) + lib + code.subrange(i + 1, code.len() as int)
    }
}

/// The libraries folded from the last: each one spliced into the next.
pub open spec fn merged_libs(libs: Seq<Seq<char>>) -> Seq<char>
    decreases libs.len(),
{
    if libs.len() == 0 {
        Seq::empty()
    } else {
        splice(merged_libs(libs.drop_first()), libs[0])
    }
}

pub open spec fn libs_ok(libs: Seq<Seq<char>>) -> bool
    decreases libs.len(),
{
    libs.len() == 0 || (libs_ok(libs.drop_first()) && can_splice(
        merged_libs(libs.drop_first()),
        libs[0],
    ))
}

pub open spec fn merge_ok(code: Seq<char>, libs: Seq<Seq<char>>) -> bool {
    libs_ok(libs) && can_splice(code, merged_libs(libs))
}

pub open spec fn strs_view(v: Seq<&str>) -> Seq<Seq<char>> {
    v.map_values(|s: &str| s@)
}

proof fn lemma_first_star(s: Seq<char>)
    ensures
        first_star(s) matches Some(i) ==> 0 <= i < s.len() && s[i] == '*' && forall|k: int|
            0 <= k < i ==> s[k] != '*',
        first_star(s) is None ==> forall|k: int| 0 <= k < s.len() ==> s[k] != '*',
    decreases s.len(),
{
    if s.len() > 0 {
        lemma_first_star(s.drop_last());
        assert forall|k: int| 0 <= k < s.len() - 1 implies s.drop_last()[k] == s[k] by {};
    }
}

fn find_star(s: &Vec<char>) -> (r: Option<usize>)
    ensures
        r matches Some(i) ==> first_star(s@) == Some(i as int),
        r is None ==> first_star(s@) is None,
{
    let mut i: usize = 0;
    while i < s.len()
        invariant
            i <= s@.len(),
            forall|k: int| 0 <= k < i ==> s@[k] != '*',
        decreases s@.len() - i,
    {
        if s[i] == '*' {
            proof {
                lemma_first_star(s@);
                if let Some(j) = first_star(s@) {
                    assert(j == i);
                }
            }
            return Some(i);
        }
        i += 1;
    }
    proof {
        lemma_first_star(s@);
    }
    None
}

fn splice_chars(code: &Vec<char>, lib: &Vec<char>) -> (r: Option<Vec<char>>)
    ensures
        r is Some == can_splice(code@, lib@),
        r matches Some(v) ==> v@ == splice(code@, lib@),
{
    if code.len() == 0 {
        return Some(lib.clone());
    }
    if lib.len() == 0 {
        return Some(code.clone());
    }
    let i = find_star(code)?;
    proof {
        lemma_first_star(code@);
    }
    let mut r: Vec<char> = Vec::new();
    let mut k: usize = 0;
    while k < i
        invariant
            k <= i < code@.len(),
            r@ == code@.subrange(0, k as int),
        decreases i - k,
    {
        r.push(code[k]);
        assert(code@.subrange(0, k + 1) =~= code@.subrange(0, k as int).push(code@[k as int]));
        k += 1;
    }
    let mut k: usize = 0;
    while k < lib.len()
        invariant
            k <= lib@.len(),
            r@ == code@.subrange(0, i as int) + lib@.subrange(0, k as int),
        decreases lib@.len() - k,
    {
        r.push(lib[k]);
        assert(lib@.subrange(0, k + 1) =~= lib@.subrange(0, k as int).push(lib@[k as int]));
        assert(r@ =~= code@.subrange(0, i as int) + lib@.subrange(0, k + 1));
        k += 1;
    }
    assert(lib@.subrange(0, k as int) =~= lib@);
    let mut k: usize = i + 1;
    while k < code.len()
        invariant
            i + 1 <= k <= code@.len(),
            r@ == code@.subrange(0, i as int) + lib@ + code@.subrange(i + 1, k as int),
        decreases code@.len() - k,
    {
        r.push(code[k]);
        assert(r@ =~= code@.subrange(0, i as int) + lib@ + code@.subrange(i + 1, k + 1));
        k += 1;
    }
    Some(r)
}

/// Replaces the first `*` of `code` with `lib_code`; an empty side gives the other.
pub fn merge_single(code: &str, lib_code: &str) -> (r: String)
    requires
        can_splice(code@, lib_code@),
    ensures
        r@ == splice(code@, lib_code@),
{
    let c = chars_of(code);
    let l = chars_of(lib_code);
    match splice_chars(&c, &l) {
        Some(v) => collapse(v),
        None => unreached(),
    }
}

/// Folds the libraries from the last into one, then splices that into `code`;
/// `None` where some host on the way has no `*` to replace.
pub fn merge_checked(code: &str, lib_codes: &Vec<&str>) -> (r: Option<String>)
    ensures
        r is Some == merge_ok(code@, strs_view(lib_codes@)),
        r matches Some(s) ==> s@ == splice(code@, merged_libs(strs_view(lib_codes@))),
{
    let ghost libs = strs_view(lib_codes@);
    let mut acc: Vec<char> = Vec::new();
    let mut i: usize = lib_codes.len();
    assert(libs.subrange(i as int, libs.len() as int) =~= Seq::<Seq<char>>::empty());
    while i > 0
        invariant
            i <= lib_codes@.len(),
            libs == strs_view(lib_codes@),
            libs_ok(libs.subrange(i as int, libs.len() as int)),
            acc@ == merged_libs(libs.subrange(i as int, libs.len() as int)),
        decreases i,
    {
        i -= 1;
        let lib = chars_of(lib_codes[i]);
        let ghost rest = libs.subrange(i + 1, libs.len() as int);
        assert(libs.subrange(i as int, libs.len() as int).drop_first() =~= rest);
        assert(libs.subrange(i as int, libs.len() as int)[0] == lib@);
        match splice_chars(&acc, &lib) {
            Some(v) => {
                acc = v;
            },
            None => {
                proof {
                    lemma_libs_ok_suffix(libs, i as int);
                }
                return None;
            },
        }
    }
    assert(libs.subrange(0, libs.len() as int) =~= libs);
    let c = chars_of(code);
    match splice_chars(&c, &acc) {
        Some(v) => Some(collapse(v)),
        None => None,
    }
}

/// Where a suffix of the libraries cannot be folded, neither can the whole.
proof fn lemma_libs_ok_suffix(libs: Seq<Seq<char>>, i: int)
    requires
        0 <= i < libs.len(),
        !libs_ok(libs.subrange(i, libs.len() as int)),
    ensures
        !libs_ok(libs),
    decreases i,
{
    if i > 0 {
        assert(libs.subrange(i - 1, libs.len() as int).drop_first() =~= libs.subrange(
            i,
            libs.len() as int,
        ));
        lemma_libs_ok_suffix(libs, i - 1);
    } else {
        assert(libs.subrange(0, libs.len() as int) =~= libs);
    }
}

/// Puts the libraries into `code`, see `merge_checked`.
pub fn merge(code: &str, lib_codes: &Vec<&str>) -> (r: String)
    requires
        merge_ok(code@, strs_view(lib_codes@)),
    ensures
        r@ == splice(code@, merged_libs(strs_view(lib_codes@))),
{
    match merge_checked(code, lib_codes) {
        Some(s) => s,
        None => unreached(),
    }
}

/// The number of lines of a text, as `str::lines` counts them.
pub fn line_count(t: &str) -> (r: usize)
    ensures
        r == lines_of(t@).len(),
{
    let chars = chars_of(t);
    split_lines(&chars).len()
}

/// The line (from 1) of the main source that an error at line `err_line`
/// (from 0) of the merged source points at: each library takes the place of
/// the `*` line and adds its own lines but one. It may fall below 1 for an
/// error inside a library.
pub fn reported_line(err_line: usize, lib_codes: &Vec<&str>) -> (r: i128)
    requires
        // a vector of string slices never holds this many
        lib_codes@.len() < 0x800_0000_0000_0000,
    ensures
        r == err_line + 1 - lib_offset(strs_view(lib_codes@)),
{
    let mut sum: i128 = 0;
    let mut k: usize = 0;
    while k < lib_codes.len()
        invariant
            k <= lib_codes@.len(),
            lib_codes@.len() < 0x800_0000_0000_0000,
            sum == lines_sum(strs_view(lib_codes@), k as int),
            -(k as int) <= sum <= k * 0x1_0000_0000_0000_0000,
        decreases lib_codes@.len() - k,
    {
        let n = line_count(lib_codes[k]);
        proof {
            assert(k * 0x1_0000_0000_0000_0000 + n <= (k + 1) * 0x1_0000_0000_0000_0000)
                by (nonlinear_arith)
                requires
                    n < 0x1_0000_0000_0000_0000,
            ;
            assert((k + 1) * 0x1_0000_0000_0000_0000 <= 0x800_0000_0000_0000 * 0x1_0000_0000_0000_0000)
                by (nonlinear_arith)
                requires
                    k + 1 <= 0x800_0000_0000_0000,
            ;
        }
        sum = sum + (n as i128) - 1;
        k += 1;
    }
    let offset: i128 = if lib_codes.len() == 0 {
        0
    } else {
        sum + 1
    };
    err_line as i128 + 1 - offset
}

/// The lines, but one, of the first `n` libraries.
pub open spec fn lines_sum(libs: Seq<Seq<char>>, n: int) -> int
    decreases n,
{
    if n <= 0 {
        0
    } else {
        lines_sum(libs, n - 1) + lines_of(libs[n - 1]).len() - 1
    }
}

pub open spec fn lib_offset(libs: Seq<Seq<char>>) -> int {
    if libs.len() == 0 {
        0
    } else {
        lines_sum(libs, libs.len() as int) + 1
    }
}

/// The number of `*` characters.
pub open spec fn star_count(s: Seq<char>) -> nat
    decreases s.len(),
{
    if s.len() == 0 {
        0
    } else {
        star_count(s.drop_last()) + if s.last() == '*' {
            1nat
        } else {
            0nat
        }
    }
}

proof fn lemma_star_count_concat(a: Seq<char>, b: Seq<char>)
    ensures
        star_count(a + b) == star_count(a) + star_count(b),
    decreases b.len(),
{
    if b.len() == 0 {
        assert(a + b =~= a);
    } else {
        lemma_star_count_concat(a, b.drop_last());
        assert((a + b).drop_last() =~= a + b.drop_last());
    }
}

/// A splice of a guest that is not empty into a host with a `*` takes that
/// one `*` away and adds the guest's.
pub proof fn lemma_splice_stars(code: Seq<char>, lib: Seq<char>)
    requires
        first_star(code) is Some,
        lib.len() > 0,
    ensures
        star_count(splice(code, lib)) + 1 == star_count(code) + star_count(lib),
{
    lemma_first_star(code);
    {
        let i = first_star(code).unwrap();
        let pre = code.subrange(0, i);
        let post = code.subrange(i + 1, code.len() as int);
        assert(code =~= pre + seq!['*'] + post);
        lemma_star_count_concat(pre + seq!['*'], post);
        lemma_star_count_concat(pre, seq!['*']);
        lemma_star_count_concat(pre + lib, post);
        lemma_star_count_concat(pre, lib);
        assert(star_count(seq!['*']) == 1) by {
            assert(seq!['*'].drop_last() =~= Seq::<char>::empty());
            assert(star_count(Seq::<char>::empty()) == 0);
            assert(seq!['*'].last() == '*');
        };
    }
}

pub open spec fn stars_of_libs(libs: Seq<Seq<char>>) -> nat
    decreases libs.len(),
{
    if libs.len() == 0 {
        0
    } else {
        star_count(libs[0]) + stars_of_libs(libs.drop_first())
    }
}

pub open spec fn all_nonempty(libs: Seq<Seq<char>>) -> bool {
    forall|k: int| 0 <= k < libs.len() ==> (#[trigger] libs[k]).len() > 0
}

proof fn lemma_merged_libs_stars(libs: Seq<Seq<char>>)
    requires
        libs.len() > 0,
        libs_ok(libs),
        all_nonempty(libs),
    ensures
        star_count(merged_libs(libs)) + libs.len() == stars_of_libs(libs) + 1,
        merged_libs(libs).len() > 0,
    decreases libs.len(),
{
    let rest = libs.drop_first();
    if rest.len() == 0 {
        assert(merged_libs(rest) =~= Seq::<char>::empty());
        assert(merged_libs(libs) == libs[0]);
        assert(stars_of_libs(rest) == 0);
        assert(libs[0].len() > 0);
    } else {
        assert(all_nonempty(rest)) by {
            assert forall|k: int| 0 <= k < rest.len() implies (#[trigger] rest[k]).len() > 0 by {
                assert(rest[k] == libs[k + 1]);
            };
        };
        assert(libs_ok(rest));
        lemma_merged_libs_stars(rest);
        assert(libs[0].len() > 0);
        assert(can_splice(merged_libs(rest), libs[0]));
        lemma_splice_stars(merged_libs(rest), libs[0]);
        lemma_first_star(merged_libs(rest));
        let i = first_star(merged_libs(rest)).unwrap();
        assert(merged_libs(libs).len() > 0) by {
            assert(merged_libs(libs).len() == merged_libs(rest).len() - 1 + libs[0].len());
        };
    }
}

/// Splicing libraries keeps the count of `*`: where main holds one `*` and
/// no library is empty, the merged text holds the libraries' `*`s but one
/// for each library that hosts the one before it.
pub proof fn lemma_merge_stars(code: Seq<char>, libs: Seq<Seq<char>>)
    requires
        merge_ok(code, libs),
        star_count(code) == 1,
        libs.len() > 0,
        all_nonempty(libs),
    ensures
        star_count(splice(code, merged_libs(libs))) + libs.len() == stars_of_libs(libs) + 1,
{
    lemma_merged_libs_stars(libs);
    assert(code.len() > 0) by {
        if code.len() == 0 {
            assert(star_count(code) == 0);
        }
    };
    assert(first_star(code) is Some);
    lemma_splice_stars(code, merged_libs(libs));
}

} // verus!
