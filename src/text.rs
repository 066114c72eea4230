use vstd::prelude::*;

verus! {

/// Relies on `str::chars` collected into a `Vec`: the characters of the string, in order.
#[verifier::external_body]
pub(crate) fn chars_of(s: &str) -> (r: Vec<char>)
    ensures
        r@ == s@,
{
    s.chars().collect()
}

/// Relies on collecting characters into a `String` (`FromIterator<&char>`): the same characters.
#[verifier::external_body]
pub(crate) fn string_from_chars(v: &Vec<char>) -> (r: String)
    ensures
        r@ == v@,
{
    v.iter().collect()
}

/// The decimal digit of `d`, for `0 <= d < 10`.
pub open spec fn digit_char(d: int) -> char {
    if d == 0 {
        '0'
    } else if d == 1 {
        '1'
    } else if d == 2 {
        '2'
    } else if d == 3 {
        '3'
    } else if d == 4 {
        '4'
    } else if d == 5 {
        '5'
    } else if d == 6 {
        '6'
    } else if d == 7 {
        '7'
    } else if d == 8 {
        '8'
    } else {
        '9'
    }
}

/// Decimal text of a natural number, without leading zeros.
pub open spec fn nat_text(n: nat) -> Seq<char>
    decreases n,
{
    if n < 10 {
        seq![digit_char(n as int)]
    } else {
        nat_text(n / 10).push(digit_char((n % 10) as int))
    }
}

/// Decimal text of an integer, with a leading `-` when it is negative.
pub open spec fn int_text(i: int) -> Seq<char> {
    if i < 0 {
        seq!['-'] + nat_text((-i) as nat)
    } else {
        nat_text(i as nat)
    }
}

/// Relies on `i64`'s `Display` (through `to_string`): its decimal text.
#[verifier::external_body]
pub(crate) fn i64_text(i: i64) -> (r: String)
    ensures
        r@ == int_text(i as int),
{
    i.to_string()
}

/// Relies on `usize`'s `Display` (through `to_string`): its decimal text.
#[verifier::external_body]
pub(crate) fn usize_text(u: usize) -> (r: String)
    ensures
        r@ == int_text(u as int),
{
    u.to_string()
}

/// A Unicode scalar value: a code point that is not a surrogate.
pub open spec fn is_scalar_code(v: int) -> bool {
    0 <= v <= 0x10FFFF && !(0xD800 <= v <= 0xDFFF)
}

/// The code point of a character.
pub open spec fn char_code(c: char) -> int {
    c as int
}

/// The character whose code point is `v`.
pub open spec fn code_char(v: int) -> char {
    choose|c: char| #[trigger] char_code(c) == v
}

/// Relies on `char::from_u32`: `Some` exactly for Unicode scalar values,
/// holding the character with that code point.
#[verifier::external_body]
pub(crate) fn char_from_code(v: u32) -> (r: Option<char>)
    ensures
        r is Some <==> is_scalar_code(v as int),
        r matches Some(c) ==> c as int == v as int,
{
    char::from_u32(v)
}

/// `"true"` or `"false"`.
pub open spec fn bool_text(b: bool) -> Seq<char> {
    if b {
        seq!['t', 'r', 'u', 'e']
    } else {
        seq!['f', 'a', 'l', 's', 'e']
    }
}

pub(crate) fn bool_string(b: bool) -> (r: String)
    ensures
        r@ == bool_text(b),
{
    let v: Vec<char> = if b {
        vec!['t', 'r', 'u', 'e']
    } else {
        vec!['f', 'a', 'l', 's', 'e']
    };
    proof {
        assert(v@ =~= bool_text(b));
    }
    string_from_chars(&v)
}

/// The segments of `s` between the dots, from position `i` on, where `cur`
/// holds the part of the current segment already read.
pub open spec fn split_from(s: Seq<char>, i: int, cur: Seq<char>) -> Seq<Seq<char>>
    decreases s.len() - i,
{
    if i < 0 || i >= s.len() {
        seq![cur]
    } else if s[i] == '.' {
        seq![cur] + split_from(s, i + 1, seq![])
    } else {
        split_from(s, i + 1, cur.push(s[i]))
    }
}

/// The dot-separated segments of a dotted path; empty segments are kept.
pub open spec fn split_dots(s: Seq<char>) -> Seq<Seq<char>> {
    split_from(s, 0, seq![])
}

/// The views of a sequence of strings.
pub open spec fn strings_view(v: Seq<String>) -> Seq<Seq<char>> {
    v.map_values(|s: String| s@)
}

proof fn lemma_split_nonempty(s: Seq<char>, i: int, cur: Seq<char>)
    ensures
        split_from(s, i, cur).len() >= 1,
    decreases s.len() - i,
{
    if i < 0 || i >= s.len() {
    } else if s[i] == '.' {
        lemma_split_nonempty(s, i + 1, seq![]);
    } else {
        lemma_split_nonempty(s, i + 1, cur.push(s[i]));
    }
}

/// Splits a dotted path at every `.`; `"a..b"` gives `"a"`, `""`, `"b"`.
pub fn split_path(path: &str) -> (r: Vec<Vec<char>>)
    ensures
        r@.len() == split_dots(path@).len(),
        r@.len() >= 1,
        forall|j: int| 0 <= j < r@.len() ==> #[trigger] r@[j]@ == split_dots(path@)[j],
{
    proof {
        lemma_split_nonempty(path@, 0, seq![]);
    }
    let s = chars_of(path);
    let mut out: Vec<Vec<char>> = Vec::new();
    let mut cur: Vec<char> = Vec::new();
    let mut i: usize = 0;
    while i < s.len()
        invariant
            i <= s@.len(),
            s@ == path@,
            split_dots(s@) == out@.map_values(|v: Vec<char>| v@) + split_from(s@, i as int, cur@),
        decreases s@.len() - i,
    {
        if s[i] == '.' {
            let ghost before = out@.map_values(|v: Vec<char>| v@);
            out.push(cur);
            proof {
                assert(out@.map_values(|v: Vec<char>| v@) =~= before.push(cur@));
                assert(before + (seq![cur@] + split_from(s@, i + 1, seq![])) =~= before.push(cur@) + split_from(s@, i + 1, seq![]));
            }
            cur = Vec::new();
            proof {
                assert(cur@ =~= seq![]);
            }
        } else {
            cur.push(s[i]);
        }
        i = i + 1;
    }
    let ghost before = out@.map_values(|v: Vec<char>| v@);
    out.push(cur);
    proof {
        assert(out@.map_values(|v: Vec<char>| v@) =~= before + seq![cur@]);
        assert(split_dots(path@) =~= out@.map_values(|v: Vec<char>| v@));
    }
    out
}

pub(crate) fn chars_equal(a: &Vec<char>, b: &Vec<char>) -> (r: bool)
    ensures
        r == (a@ == b@),
{
    if a.len() != b.len() {
        return false;
    }
    let mut i: usize = 0;
    while i < a.len()
        invariant
            a@.len() == b@.len(),
            i <= a@.len(),
            forall|j: int| 0 <= j < i ==> a@[j] == b@[j],
        decreases a@.len() - i,
    {
        if a[i] != b[i] {
            return false;
        }
        i = i + 1;
    }
    assert(a@ =~= b@);
    true
}

} // verus!
