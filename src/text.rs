//! Characters of strings, and strings built from characters.
use vstd::prelude::*;

verus! {

/// The characters of `s`, in order.
pub fn chars_of(s: &str) -> (r: Vec<char>)
    ensures
        r@ == s@,
{
    let mut r: Vec<char> = Vec::new();
    for c in it: s.chars()
        invariant
            r@ == it.seq().subrange(0, it.index() as int),
    {
        r.push(c);
    }
    r
}

/// The characters of each string.
pub open spec fn char_rows(rows: Seq<Vec<char>>) -> Seq<Seq<char>> {
    rows.map_values(|r: Vec<char>| r@)
}

/// The pieces of `s` between occurrences of `sep`. Where `max` is positive,
/// at most `max` pieces: the last one keeps the rest of `s`, separators
/// included. A `max` of zero sets no bound.
pub open spec fn split_limited(s: Seq<char>, sep: char, max: int) -> Seq<Seq<char>>
    decreases s.len(),
{
    if s.len() == 0 {
        seq![Seq::<char>::empty()]
    } else {
        let front = split_limited(s.drop_last(), sep, max);
        if s.last() == sep && (max <= 0 || front.len() < max) {
            front.push(Seq::empty())
        } else {
            front.update(front.len() - 1, front.last().push(s.last()))
        }
    }
}

/// The pieces of `s` between occurrences of `sep`.
pub open spec fn split_on(s: Seq<char>, sep: char) -> Seq<Seq<char>> {
    split_limited(s, sep, 0)
}

/// The pieces of `cs` between occurrences of `sep`, at most `max` of them
/// where `max` is not zero.
pub fn split_chars(cs: &Vec<char>, sep: char, max: usize) -> (r: Vec<Vec<char>>)
    ensures
        char_rows(r@) == split_limited(cs@, sep, max as int),
{
    let mut parts: Vec<Vec<char>> = Vec::new();
    let mut current: Vec<char> = Vec::new();
    let mut i: usize = 0;
    assert(char_rows(parts@).push(current@) =~= split_limited(cs@.subrange(0, 0), sep, max as int));
    while i < cs.len()
        invariant
            i <= cs.len(),
            parts.len() < i + 1,
            char_rows(parts@).push(current@) == split_limited(cs@.subrange(0, i as int), sep, max as int),
        decreases cs.len() - i,
    {
        let ghost prefix = cs@.subrange(0, i + 1);
        assert(prefix.drop_last() =~= cs@.subrange(0, i as int));
        let ghost front = split_limited(cs@.subrange(0, i as int), sep, max as int);
        assert(front.len() == parts.len() + 1);
        let c = cs[i];
        if c == sep && (max == 0 || parts.len() + 1 < max) {
            let ghost before = char_rows(parts@);
            parts.push(current);
            current = Vec::new();
            assert(char_rows(parts@) =~= before.push(front.last()));
            assert(char_rows(parts@).push(current@) =~= front.push(Seq::empty()));
        } else {
            current.push(c);
            assert(char_rows(parts@).push(current@) =~= front.update(
                front.len() - 1,
                front.last().push(c),
            ));
        }
        i += 1;
    }
    assert(cs@.subrange(0, cs.len() as int) =~= cs@);
    let ghost before = char_rows(parts@);
    parts.push(current);
    assert(char_rows(parts@) =~= before.push(current@));
    parts
}

/// Relies on `String::push`: appends one character.
#[verifier::external_body]
fn push_char(s: &mut String, c: char)
    ensures
        final(s)@ == old(s)@.push(c),
{
    s.push(c)
}

/// The string of the characters `cs`.
pub fn string_of(cs: &Vec<char>) -> (r: String)
    ensures
        r@ == cs@,
{
    let mut r = String::new();
    let mut i: usize = 0;
    while i < cs.len()
        invariant
            i <= cs.len(),
            r@ == cs@.subrange(0, i as int),
        decreases cs.len() - i,
    {
        push_char(&mut r, cs[i]);
        i += 1;
        assert(r@ =~= cs@.subrange(0, i as int));
    }
    assert(cs@.subrange(0, cs.len() as int) =~= cs@);
    r
}

/// `c` has the Unicode White_Space property, the whitespace that
/// `str::trim` removes.
pub open spec fn is_white_space(c: char) -> bool {
    let u = c as u32;
    (0x9 <= u <= 0xd) || u == 0x20 || u == 0x85 || u == 0xa0 || u == 0x1680 || (0x2000 <= u
        <= 0x200a) || u == 0x2028 || u == 0x2029 || u == 0x202f || u == 0x205f || u == 0x3000
}

/// `s` without its leading whitespace.
pub open spec fn trim_start(s: Seq<char>) -> Seq<char>
    decreases s.len(),
{
    if s.len() > 0 && is_white_space(s[0]) {
        trim_start(s.drop_first())
    } else {
        s
    }
}

/// `s` without its trailing whitespace.
pub open spec fn trim_end(s: Seq<char>) -> Seq<char>
    decreases s.len(),
{
    if s.len() > 0 && is_white_space(s.last()) {
        trim_end(s.drop_last())
    } else {
        s
    }
}

/// `s` without its leading and trailing whitespace.
pub open spec fn trimmed(s: Seq<char>) -> Seq<char> {
    trim_end(trim_start(s))
}

/// Relies on `str::trim`: removes leading and trailing characters with the
/// Unicode White_Space property.
#[verifier::external_body]
fn trim_string(s: &String) -> (r: String)
    ensures
        r@ == trimmed(s@),
{
    s.trim().to_string()
}

/// The characters `cs`, trimmed, as a string.
pub fn trimmed_string(cs: &Vec<char>) -> (r: String)
    ensures
        r@ == trimmed(cs@),
{
    let s = string_of(cs);
    trim_string(&s)
}

} // verus!
