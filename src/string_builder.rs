use vstd::prelude::*;

verus! {

/// Relies on `FromIterator<&char>` for `String`: the characters, in order.
#[verifier::external_body]
fn string_from_chars(v: &[char]) -> (r: String)
    ensures
        r@ == v@,
{
    String::from_iter(v)
}

/// The characters of a string, in order.
pub(crate) fn chars_of(s: &str) -> (r: Vec<char>)
    ensures
        r@ == s@,
{
    broadcast use vstd::string::group_string_axioms;

    let mut it = s.chars();
    let mut r: Vec<char> = Vec::new();
    let ghost total = s@;
    assert(vstd::std_specs::iter::IteratorSpec::remaining(&it) == total);
    loop
        invariant
            total == s@,
            vstd::std_specs::iter::IteratorSpec::obeys_prophetic_iter_laws(&it),
            r@.len() <= total.len(),
            r@ == total.subrange(0, r@.len() as int),
            vstd::std_specs::iter::IteratorSpec::remaining(&it) == total.subrange(
                r@.len() as int,
                total.len() as int,
            ),
        decreases total.len() - r@.len(),
    {
        match it.next() {
            Some(c) => {
                assert(total.subrange(r@.len() as int, total.len() as int).drop_first() =~= total.subrange(
                    r@.len() as int + 1,
                    total.len() as int,
                ));
                r.push(c);
                assert(r@ =~= total.subrange(0, r@.len() as int));
            },
            None => {
                assert(r@ =~= total);
                return r;
            },
        }
    }
}

/// Turns a sequence of characters into a string.
pub fn collapse(v: Vec<char>) -> (r: String)
    ensures
        r@ == v@,
{
    string_from_chars(v.as_slice())
}

} // verus!

verus! {

/// The decimal digits of a natural number.
pub open spec fn nat_text(n: nat) -> Seq<char>
    decreases n,
{
    if n < 10 {
        seq![digit_char(n)]
    } else {
        nat_text(n / 10) + seq![digit_char(n % 10)]
    }
}

pub open spec fn digit_char(d: nat) -> char {
    if d == 0 {
        '0'
    } else if d == 1 {
        '1'
    } else if d == 2 {
        '2'
    } else if d == 3 {
        '3'
    } else if d == 4 {
        '4'
    } else if d == 5 {
        '5'
    } else if d == 6 {
        '6'
    } else if d == 7 {
        '7'
    } else if d == 8 {
        '8'
    } else {
        '9'
    }
}

/// The decimal text of an integer, with a leading `-` when negative.
pub open spec fn int_text(n: int) -> Seq<char> {
    if n < 0 {
        seq!['-'] + nat_text((-n) as nat)
    } else {
        nat_text(n as nat)
    }
}

/// Appends the characters of `v`.
pub fn push(builder: &mut Vec<char>, v: &str)
    ensures
        final(builder)@ == old(builder)@ + v@,
{
    let chars = chars_of(v);
    let ghost start = builder@;
    let mut i: usize = 0;
    while i < chars.len()
        invariant
            i <= chars@.len(),
            chars@ == v@,
            builder@ == start + chars@.subrange(0, i as int),
        decreases chars@.len() - i,
    {
        builder.push(chars[i]);
        assert(chars@.subrange(0, i + 1) =~= chars@.subrange(0, i as int).push(chars@[i as int]));
        i += 1;
    }
    assert(chars@.subrange(0, i as int) =~= chars@);
}

/// Appends the characters of `v` and a line feed.
pub fn push_line(builder: &mut Vec<char>, v: &str)
    ensures
        final(builder)@ == old(builder)@ + v@ + seq!['\n'],
{
    push(builder, v);
    builder.push('\n');
}

/// The character of a decimal digit.
pub fn char_of_digit(d: u64) -> (r: char)
    requires
        d < 10,
    ensures
        r == digit_char(d as nat),
{
    match d {
        0 => '0',
        1 => '1',
        2 => '2',
        3 => '3',
        4 => '4',
        5 => '5',
        6 => '6',
        7 => '7',
        8 => '8',
        _ => '9',
    }
}

/// Appends the decimal text of `n`.
pub fn push_nat(builder: &mut Vec<char>, n: u64)
    ensures
        final(builder)@ == old(builder)@ + nat_text(n as nat),
    decreases n,
{
    if n >= 10 {
        push_nat(builder, n / 10);
    }
    builder.push(char_of_digit(n % 10));
    proof {
        if n < 10 {
            assert(n % 10 == n);
        }
    }
    assert(final(builder)@ =~= old(builder)@ + nat_text(n as nat));
}

/// Appends the decimal text of `n`.
pub fn push_int(builder: &mut Vec<char>, n: i64)
    ensures
        final(builder)@ == old(builder)@ + int_text(n as int),
{
    if n < 0 {
        builder.push('-');
        let m: u64 = if n == i64::MIN {
            9223372036854775808u64
        } else {
            (-n) as u64
        };
        push_nat(builder, m);
        assert(final(builder)@ =~= old(builder)@ + int_text(n as int));
    } else {
        push_nat(builder, n as u64);
    }
}

} // verus!

verus! {

/// The number of line feeds in a text.
pub open spec fn count_nl(s: Seq<char>) -> nat
    decreases s.len(),
{
    if s.len() == 0 {
        0
    } else {
        count_nl(s.drop_last()) + if s.last() == '\n' {
            1nat
        } else {
            0nat
        }
    }
}

pub proof fn lemma_count_nl_concat(a: Seq<char>, b: Seq<char>)
    ensures
        count_nl(a + b) == count_nl(a) + count_nl(b),
    decreases b.len(),
{
    if b.len() == 0 {
        assert(a + b =~= a);
    } else {
        lemma_count_nl_concat(a, b.drop_last());
        assert((a + b).drop_last() =~= a + b.drop_last());
    }
}

/// A count that stops at the largest machine word.
pub open spec fn capped(n: nat) -> usize {
    if n >= usize::MAX {
        usize::MAX
    } else {
        n as usize
    }
}

/// The line feeds of `t`, counted.
pub fn count_lines(t: &str) -> (r: usize)
    ensures
        r == capped(count_nl(t@)),
{
    let chars = chars_of(t);
    let mut i: usize = 0;
    let mut n: usize = 0;
    while i < chars.len()
        invariant
            i <= chars@.len(),
            chars@ == t@,
            n == capped(count_nl(chars@.subrange(0, i as int))),
        decreases chars@.len() - i,
    {
        assert(chars@.subrange(0, i + 1).drop_last() =~= chars@.subrange(0, i as int));
        if chars[i] == '\n' {
            n = n.saturating_add(1);
        }
        i += 1;
    }
    assert(chars@.subrange(0, i as int) =~= chars@);
    n
}

/// Text under construction, with the number of its line feeds.
pub struct Builder(pub Vec<char>, pub usize);

impl Builder {
    pub open spec fn wf(&self) -> bool {
        self.1 == capped(count_nl(self.0@))
    }

    pub open spec fn text(&self) -> Seq<char> {
        self.0@
    }

    pub fn new() -> (r: Builder)
        ensures
            r.wf(),
            r.text().len() == 0,
    {
        Builder(Vec::new(), 0)
    }

    /// The number of line feeds so far.
    pub fn count(&self) -> (r: usize)
        requires
            self.wf(),
        ensures
            r == capped(count_nl(self.text())),
    {
        self.1
    }

    pub fn push(&mut self, t: &str)
        requires
            old(self).wf(),
        ensures
            final(self).wf(),
            final(self).text() == old(self).text() + t@,
    {
        let n = count_lines(t);
        self.1 = self.1.saturating_add(n);
        push(&mut self.0, t);
        proof {
            lemma_count_nl_concat(old(self).0@, t@);
        }
    }

    /// Appends `t` and a line feed; an empty `t` adds nothing.
    pub fn push_line_smart(&mut self, t: &str)
        requires
            old(self).wf(),
        ensures
            final(self).wf(),
            final(self).text() == if t@.len() == 0 {
                old(self).text()
            } else {
                old(self).text() + t@ + seq!['\n']
            },
    {
        if t.unicode_len() == 0 {
            return;
        }
        let n = count_lines(t);
        self.1 = self.1.saturating_add(n).saturating_add(1);
        push_line(&mut self.0, t);
        proof {
            lemma_count_nl_concat(old(self).0@, t@);
            lemma_count_nl_concat(old(self).0@ + t@, seq!['\n']);
            assert(count_nl(seq!['\n']) == 1) by {
                assert(seq!['\n'].drop_last() =~= Seq::<char>::empty());
                assert(count_nl(Seq::<char>::empty()) == 0);
                assert(seq!['\n'].last() == '\n');
            };
        }
    }

    pub fn collapse(self) -> (r: String)
        ensures
            r@ == self.text(),
    {
        collapse(self.0)
    }

    /// The text without its trailing line feeds.
    pub fn collapse_flat(self) -> (r: String)
        ensures
            r@ == strip_nl(self.text()),
    {
        let mut v = self.0;
        while v.len() > 0 && v[v.len() - 1] == '\n'
            invariant
                strip_nl(self.0@) == strip_nl(v@),
            decreases v@.len(),
        {
            v.pop();
        }
        collapse(v)
    }
}

/// A text without its trailing line feeds.
pub open spec fn strip_nl(s: Seq<char>) -> Seq<char>
    decreases s.len(),
{
    if s.len() > 0 && s.last() == '\n' {
        strip_nl(s.drop_last())
    } else {
        s
    }
}

/// Stripping keeps a prefix and drops only line feeds.
pub proof fn lemma_strip_nl(s: Seq<char>)
    ensures
        strip_nl(s).len() <= s.len(),
        strip_nl(s) == s.subrange(0, strip_nl(s).len() as int),
        forall|k: int| strip_nl(s).len() <= k < s.len() ==> s[k] == '\n',
    decreases s.len(),
{
    if s.len() > 0 && s.last() == '\n' {
        lemma_strip_nl(s.drop_last());
        assert(s.drop_last().subrange(0, strip_nl(s).len() as int) =~= s.subrange(
            0,
            strip_nl(s).len() as int,
        ));
        assert forall|k: int| strip_nl(s).len() <= k < s.len() implies s[k] == '\n' by {
            if k < s.len() - 1 {
                assert(s.drop_last()[k] == s[k]);
            }
        };
    } else {
        assert(s.subrange(0, s.len() as int) =~= s);
    }
}

/// Appends the decimal text of `n`.
pub fn push_nat128(builder: &mut Vec<char>, n: u128)
    ensures
        final(builder)@ == old(builder)@ + nat_text(n as nat),
    decreases n,
{
    if n >= 10 {
        push_nat128(builder, n / 10);
    }
    builder.push(char_of_digit((n % 10) as u64));
    proof {
        if n < 10 {
            assert(n % 10 == n);
        }
    }
    assert(final(builder)@ =~= old(builder)@ + nat_text(n as nat));
}

/// Appends the decimal text of `n`.
pub fn push_int128(builder: &mut Vec<char>, n: i128)
    requires
        n > i128::MIN,
    ensures
        final(builder)@ == old(builder)@ + int_text(n as int),
{
    if n < 0 {
        builder.push('-');
        push_nat128(builder, (-n) as u128);
        assert(final(builder)@ =~= old(builder)@ + int_text(n as int));
    } else {
        push_nat128(builder, n as u128);
    }
}

} // verus!
