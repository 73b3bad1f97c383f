//! Character-level text helpers: the few string operations the renderer,
//! the painters, and the splicers need, each stated over the text's
//! characters.

use vstd::prelude::*;
use vstd::string::StringExecFns;

verus! {

/// `String::push`: the string gains `c` at its end, nothing else changing.
#[verifier::external_body]
pub(crate) fn push_char(s: &mut String, c: char)
    ensures
        final(s)@ == old(s)@.push(c),
{
    s.push(c);
}

/// The characters of `s`, in order.
pub fn chars_of(s: &str) -> (out: Vec<char>)
    ensures
        out@ == s@,
{
    let mut out: Vec<char> = Vec::new();
    for c in it: s.chars()
        invariant
            out@ == it.seq().take(it.index() as int),
            it.seq() == s@,
    {
        out.push(c);
    }
    out
}

/// Append a string slice.
pub fn push_str(s: &mut String, t: &str)
    ensures
        final(s)@ == old(s)@ + t@,
{
    s.append(t);
}

/// Append a run of characters.
pub fn push_chars(s: &mut String, t: &[char])
    ensures
        final(s)@ == old(s)@ + t@,
{
    let ghost start = s@;
    let mut i: usize = 0;
    while i < t.len()
        invariant
            i <= t@.len(),
            s@ == start + t@.take(i as int),
        decreases t.len() - i,
    {
        push_char(s, t[i]);
        i = i + 1;
        assert(s@ =~= start + t@.take(i as int));
    }
    assert(t@.take(i as int) =~= t@);
}

/// A `String` holding exactly `t`.
pub fn string_of(t: &[char]) -> (s: String)
    ensures
        s@ == t@,
{
    let mut s = String::new();
    push_chars(&mut s, t);
    assert(Seq::<char>::empty() + t@ =~= t@);
    s
}

/// The characters `t[from..to]`.
pub fn slice_chars(t: &[char], from: usize, to: usize) -> (out: Vec<char>)
    requires
        from <= to <= t@.len(),
    ensures
        out@ == t@.subrange(from as int, to as int),
{
    let mut out: Vec<char> = Vec::new();
    let mut i = from;
    while i < to
        invariant
            from <= i <= to,
            to <= t@.len(),
            out@ == t@.subrange(from as int, i as int),
        decreases to - i,
    {
        out.push(t[i]);
        i = i + 1;
        assert(out@ =~= t@.subrange(from as int, i as int));
    }
    out
}

/// Whether `s` begins with `p`.
pub open spec fn has_prefix(s: Seq<char>, p: Seq<char>) -> bool {
    p.len() <= s.len() && s.take(p.len() as int) == p
}

/// Whether `t` begins with `p`.
pub fn starts_with(t: &[char], p: &[char]) -> (r: bool)
    ensures
        r == has_prefix(t@, p@),
{
    if p.len() > t.len() {
        return false;
    }
    let mut i: usize = 0;
    while i < p.len()
        invariant
            i <= p@.len(),
            p@.len() <= t@.len(),
            forall|k: int| 0 <= k < i ==> t@[k] == p@[k],
        decreases p.len() - i,
    {
        if t[i] != p[i] {
            proof {
                assert(t@.take(p@.len() as int)[i as int] != p@[i as int]);
            }
            return false;
        }
        i = i + 1;
    }
    assert(t@.take(p@.len() as int) =~= p@);
    true
}

/// Whether `p` occurs in `s` at position `i`.
pub open spec fn occurs_at(s: Seq<char>, p: Seq<char>, i: int) -> bool {
    0 <= i && i + p.len() <= s.len() && s.subrange(i, i + p.len()) == p
}

/// The first position at or after `from` where `p` occurs in `s`.
pub open spec fn find_from(s: Seq<char>, p: Seq<char>, from: int) -> Option<int>
    decreases s.len() + 1 - from,
{
    if from < 0 || from + p.len() > s.len() {
        None
    } else if occurs_at(s, p, from) {
        Some(from)
    } else {
        find_from(s, p, from + 1)
    }
}

/// The first position where `p` occurs in `s`.
pub open spec fn find_first(s: Seq<char>, p: Seq<char>) -> Option<int> {
    find_from(s, p, 0)
}

/// A position `find_from` reports leaves room for the whole pattern.
pub proof fn lemma_found_fits(s: Seq<char>, p: Seq<char>, from: int)
    ensures
        find_from(s, p, from) matches Some(i) ==> from <= i && i + p.len() <= s.len(),
    decreases s.len() + 1 - from,
{
    if !(from < 0 || from + p.len() > s.len()) && !occurs_at(s, p, from) {
        lemma_found_fits(s, p, from + 1);
    }
}

/// The first position where `p` occurs in `t`.
pub fn find(t: &[char], p: &[char]) -> (r: Option<usize>)
    ensures
        r matches Some(i) ==> find_first(t@, p@) == Some(i as int) && i + p@.len() <= t@.len(),
        r is None ==> find_first(t@, p@) is None,
{
    let mut i: usize = 0;
    while i <= t.len() && p.len() <= t.len() - i
        invariant
            i <= t@.len() + 1,
            find_first(t@, p@) == find_from(t@, p@, i as int),
        decreases t.len() + 1 - i,
    {
        let mut j: usize = 0;
        let mut matched = true;
        while j < p.len()
            invariant
                j <= p@.len(),
                i + p@.len() <= t@.len(),
                matched == (forall|k: int| 0 <= k < j ==> t@[i + k] == p@[k]),
            decreases p.len() - j,
        {
            let n = t.len();
            assert(i + j < n);
            if t[i + j] != p[j] {
                matched = false;
            }
            j = j + 1;
        }
        if matched {
            assert(t@.subrange(i as int, i + p@.len()) =~= p@);
            return Some(i);
        } else {
            proof {
                let k = choose|k: int| 0 <= k < p@.len() && t@[i + k] != p@[k];
                assert(t@.subrange(i as int, i + p@.len())[k] != p@[k]);
            }
        }
        i = i + 1;
    }
    None
}

/// Whether `c` is white space — the Unicode `White_Space` property, as
/// `char::is_whitespace` reads it.
pub open spec fn is_space(c: char) -> bool {
    ||| c == ' '
    ||| c == '\t'
    ||| c == '\n'
    ||| c == '\u{0B}'
    ||| c == '\u{0C}'
    ||| c == '\r'
    ||| c == '\u{85}'
    ||| c == '\u{A0}'
    ||| c == '\u{1680}'
    ||| ('\u{2000}' <= c && c <= '\u{200A}')
    ||| c == '\u{2028}'
    ||| c == '\u{2029}'
    ||| c == '\u{202F}'
    ||| c == '\u{205F}'
    ||| c == '\u{3000}'
}

/// Whether `c` is white space.
pub fn whitespace(c: char) -> (r: bool)
    ensures
        r == is_space(c),
{
    c == ' ' || c == '\t' || c == '\n' || c == '\u{0B}' || c == '\u{0C}' || c == '\r' || c
        == '\u{85}' || c == '\u{A0}' || c == '\u{1680}' || ('\u{2000}' <= c && c <= '\u{200A}')
        || c == '\u{2028}' || c == '\u{2029}' || c == '\u{202F}' || c == '\u{205F}' || c
        == '\u{3000}'
}

/// The first character of `s` that is not white space.
pub open spec fn first_non_space(s: Seq<char>) -> Option<char>
    decreases s.len(),
{
    if s.len() == 0 {
        None
    } else if is_space(s[0]) {
        first_non_space(s.drop_first())
    } else {
        Some(s[0])
    }
}

/// The first character of `t` that is not white space.
pub fn first_non_space_of(t: &[char]) -> (r: Option<char>)
    ensures
        r == first_non_space(t@),
{
    let mut i: usize = 0;
    proof {
        assert(t@.skip(0) =~= t@);
    }
    while i < t.len()
        invariant
            i <= t@.len(),
            first_non_space(t@) == first_non_space(t@.skip(i as int)),
        decreases t.len() - i,
    {
        proof {
            assert(t@.skip(i as int).drop_first() =~= t@.skip(i + 1));
        }
        if !whitespace(t[i]) {
            return Some(t[i]);
        }
        i = i + 1;
    }
    None
}

/// `s` without its trailing white space.
pub open spec fn trim_end(s: Seq<char>) -> Seq<char>
    decreases s.len(),
{
    if s.len() > 0 && is_space(s.last()) {
        trim_end(s.drop_last())
    } else {
        s
    }
}

/// `t` without its trailing white space.
pub fn trim_end_of(t: &[char]) -> (out: Vec<char>)
    ensures
        out@ == trim_end(t@),
{
    let mut end = t.len();
    proof {
        assert(t@.take(end as int) =~= t@);
    }
    while end > 0 && whitespace(t[end - 1])
        invariant
            end <= t@.len(),
            trim_end(t@) == trim_end(t@.take(end as int)),
        decreases end,
    {
        proof {
            assert(t@.take(end as int).drop_last() =~= t@.take(end - 1));
        }
        end = end - 1;
    }
    slice_chars(t, 0, end)
}

/// The position of the first newline in `s`, or its length when it has none.
pub open spec fn line_end(s: Seq<char>) -> int
    decreases s.len(),
{
    if s.len() == 0 {
        0
    } else if s[0] == '\n' {
        0
    } else {
        1 + line_end(s.drop_first())
    }
}

pub proof fn lemma_line_end(s: Seq<char>)
    ensures
        0 <= line_end(s) <= s.len(),
        line_end(s) < s.len() ==> s[line_end(s)] == '\n',
        forall|k: int| 0 <= k < line_end(s) ==> s[k] != '\n',
    decreases s.len(),
{
    if s.len() > 0 && s[0] != '\n' {
        lemma_line_end(s.drop_first());
        assert forall|k: int| 0 <= k < line_end(s) implies s[k] != '\n' by {
            if k > 0 {
                assert(s.drop_first()[k - 1] == s[k]);
            }
        }
    }
}

/// The position of the first newline in `t` at or after `from`, or `t`'s
/// length when there is none.
pub fn line_end_from(t: &[char], from: usize) -> (e: usize)
    requires
        from <= t@.len(),
    ensures
        from <= e <= t@.len(),
        e == from + line_end(t@.skip(from as int)),
{
    let mut e = from;
    proof {
        lemma_line_end(t@.skip(from as int));
    }
    while e < t.len() && t[e] != '\n'
        invariant
            from <= e <= t@.len(),
            line_end(t@.skip(from as int)) == (e - from) + line_end(t@.skip(e as int)),
        decreases t.len() - e,
    {
        proof {
            assert(t@.skip(e as int).drop_first() =~= t@.skip(e + 1));
        }
        e = e + 1;
    }
    e
}

/// The decimal digit `d`.
pub open spec fn digit(d: nat) -> char {
    seq!['0', '1', '2', '3', '4', '5', '6', '7', '8', '9'][d as int]
}

/// The decimal numeral of `n`, without leading zeros.
pub open spec fn decimal(n: nat) -> Seq<char>
    decreases n,
{
    if n < 10 {
        seq![digit(n)]
    } else {
        decimal(n / 10).push(digit(n % 10))
    }
}

/// The decimal numeral of `n`.
pub fn decimal_of(n: usize) -> (out: Vec<char>)
    ensures
        out@ == decimal(n as nat),
    decreases n,
{
    let digits = vec!['0', '1', '2', '3', '4', '5', '6', '7', '8', '9'];
    proof {
        assert(digits@ =~= seq!['0', '1', '2', '3', '4', '5', '6', '7', '8', '9']);
    }
    if n < 10 {
        let out = vec![digits[n]];
        proof {
            assert(out@ =~= seq![digit(n as nat)]);
        }
        out
    } else {
        let mut out = decimal_of(n / 10);
        out.push(digits[n % 10]);
        out
    }
}

} // verus!
