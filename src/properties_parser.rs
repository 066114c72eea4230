use vstd::prelude::*;

use crate::model::{records_view, Record};
use crate::text::{char_code, char_from_code, chars_of, code_char, is_scalar_code, string_from_chars};

verus! {

/// A `.properties` text that the grammar could not account for, with the
/// character offset where parsing stopped.
#[derive(Clone, Copy, Debug, PartialEq, Eq)]
pub struct ParseError {
    pub offset: usize,
}

/// Horizontal whitespace: space, tab and form feed.
pub open spec fn is_blank(c: char) -> bool {
    c == ' ' || c == '\t' || c == '\x0c'
}

/// Characters that end a key.
pub open spec fn ends_key(c: char) -> bool {
    c == ':' || c == '=' || c == '\n' || c == '\r' || is_blank(c)
}

/// Characters that end a value.
pub open spec fn ends_value(c: char) -> bool {
    c == '\n' || c == '\r'
}

/// Length of the line terminator (`\r\n`, `\r` or `\n`) that starts at `i`, or 0.
pub open spec fn eol_len(s: Seq<char>, i: int) -> int {
    if 0 <= i < s.len() && s[i] == '\r' {
        if i + 1 < s.len() && s[i + 1] == '\n' {
            2
        } else {
            1
        }
    } else if 0 <= i < s.len() && s[i] == '\n' {
        1
    } else {
        0
    }
}

/// The character that an escape `\c` stands for.
pub open spec fn unescape(c: char) -> char {
    if c == 't' {
        '\t'
    } else if c == 'n' {
        '\n'
    } else if c == 'f' {
        '\x0c'
    } else if c == 'r' {
        '\r'
    } else {
        c
    }
}

/// The value of a hexadecimal digit, or -1.
pub open spec fn hex_value(c: char) -> int {
    if '0' <= c <= '9' {
        c as int - '0' as int
    } else if 'a' <= c <= 'f' {
        c as int - 'a' as int + 10
    } else if 'A' <= c <= 'F' {
        c as int - 'A' as int + 10
    } else {
        -1
    }
}

/// The code point written by the four hex digits of a `\uXXXX` escape whose
/// backslash is at `k`, or -1 when they are not four hex digits.
pub open spec fn unicode_code(s: Seq<char>, k: int) -> int {
    if 0 <= k && k + 5 < s.len() && hex_value(s[k + 2]) >= 0 && hex_value(s[k + 3]) >= 0
        && hex_value(s[k + 4]) >= 0 && hex_value(s[k + 5]) >= 0 {
        hex_value(s[k + 2]) * 4096 + hex_value(s[k + 3]) * 256 + hex_value(s[k + 4]) * 16
            + hex_value(s[k + 5])
    } else {
        -1
    }
}

/// Position after the whitespace and line continuations that start at `i`.
pub open spec fn skip_filler(s: Seq<char>, i: int) -> int
    decreases s.len() - i,
{
    if i < 0 || i >= s.len() {
        i
    } else if is_blank(s[i]) {
        skip_filler(s, i + 1)
    } else if s[i] == '\\' && eol_len(s, i + 1) > 0 {
        skip_filler(s, i + 1 + eol_len(s, i + 1))
    } else {
        i
    }
}

/// Position just after the end of the line on which `i` stands.
pub open spec fn line_end(s: Seq<char>, i: int) -> int
    decreases s.len() - i,
{
    if i < 0 || i >= s.len() {
        i
    } else if eol_len(s, i) > 0 {
        i + eol_len(s, i)
    } else {
        line_end(s, i + 1)
    }
}

/// Puts `c` in front of the text of a successful scan.
pub open spec fn cons_text(c: char, r: Result<(Seq<char>, int), int>) -> Result<(Seq<char>, int), int> {
    match r {
        Ok((t, p)) => Ok((seq![c] + t, p)),
        Err(e) => Err(e),
    }
}

/// Puts `a` in front of the text of a successful scan.
pub open spec fn prefix_text(a: Seq<char>, r: Result<(Seq<char>, int), int>) -> Result<(Seq<char>, int), int> {
    match r {
        Ok((t, p)) => Ok((a + t, p)),
        Err(e) => Err(e),
    }
}

/// Scans a key (`key` true) or a value from `k`: the unescaped text and the
/// position where it ends, or the offset of an escape that cannot be read.
/// `fresh` is true just after a line continuation, where indentation is dropped.
pub open spec fn scan_text(s: Seq<char>, k: int, key: bool, fresh: bool) -> Result<(Seq<char>, int), int>
    decreases s.len() - k,
{
    if k < 0 || k >= s.len() {
        Ok((seq![], k))
    } else if fresh && is_blank(s[k]) {
        scan_text(s, k + 1, key, true)
    } else if s[k] == '\\' {
        if eol_len(s, k + 1) > 0 {
            scan_text(s, k + 1 + eol_len(s, k + 1), key, true)
        } else if k + 1 >= s.len() {
            Err(k)
        } else if s[k + 1] == 'u' {
            if k + 5 < s.len() && is_scalar_code(unicode_code(s, k)) {
                cons_text(code_char(unicode_code(s, k)), scan_text(s, k + 6, key, false))
            } else {
                Err(k)
            }
        } else {
            cons_text(unescape(s[k + 1]), scan_text(s, k + 2, key, false))
        }
    } else if (key && ends_key(s[k])) || (!key && ends_value(s[k])) {
        Ok((seq![], k))
    } else {
        cons_text(s[k], scan_text(s, k + 1, key, false))
    }
}

/// Position after the separator between a key ending at `p` and its value.
pub open spec fn value_start(s: Seq<char>, p: int) -> int {
    let q = skip_filler(s, p);
    if 0 <= q < s.len() && (s[q] == ':' || s[q] == '=') {
        skip_filler(s, q + 1)
    } else {
        q
    }
}

/// The logical line that starts at `i`: the record it holds, if any, and the
/// position of the next line; or the offset where it cannot be parsed.
pub open spec fn line_at(s: Seq<char>, i: int) -> Result<(Option<(Seq<char>, Seq<char>)>, int), int> {
    let j = skip_filler(s, i);
    if j >= s.len() {
        Ok((None, j))
    } else if eol_len(s, j) > 0 {
        Ok((None, j + eol_len(s, j)))
    } else if s[j] == '#' || s[j] == '!' {
        Ok((None, line_end(s, j)))
    } else {
        match scan_text(s, j, true, false) {
            Err(e) => Err(e),
            Ok((k, p)) => if k.len() == 0 {
                Err(j)
            } else {
                match scan_text(s, value_start(s, p), false, false) {
                    Err(e) => Err(e),
                    Ok((v, r)) => Ok((Some((k, v)), r + eol_len(s, r))),
                }
            },
        }
    }
}

/// The records of the text from position `i` on, in source order.
pub open spec fn parse_from(s: Seq<char>, i: int) -> Result<Seq<(Seq<char>, Seq<char>)>, int>
    decreases s.len() - i,
{
    if i < 0 || i >= s.len() {
        Ok(seq![])
    } else {
        match line_at(s, i) {
            Err(e) => Err(e),
            Ok((rec, next)) => if next <= i || next > s.len() {
                Err(i)
            } else {
                match parse_from(s, next) {
                    Err(e) => Err(e),
                    Ok(rest) => Ok(
                        match rec {
                            Some(r) => seq![r] + rest,
                            None => rest,
                        },
                    ),
                }
            },
        }
    }
}

/// The records of a whole `.properties` text, or the offset of the failure.
pub open spec fn properties_of(s: Seq<char>) -> Result<Seq<(Seq<char>, Seq<char>)>, int> {
    parse_from(s, 0)
}

/// Puts `a` in front of a successful record list.
pub open spec fn prefix_records(
    a: Seq<(Seq<char>, Seq<char>)>,
    r: Result<Seq<(Seq<char>, Seq<char>)>, int>,
) -> Result<Seq<(Seq<char>, Seq<char>)>, int> {
    match r {
        Ok(t) => Ok(a + t),
        Err(e) => Err(e),
    }
}

proof fn lemma_prefix_cons(a: Seq<char>, c: char, r: Result<(Seq<char>, int), int>)
    ensures
        prefix_text(a, cons_text(c, r)) == prefix_text(a.push(c), r),
{
    match r {
        Ok((t, p)) => {
            assert(a + (seq![c] + t) =~= a.push(c) + t);
        },
        Err(e) => {},
    }
}

/// A key that the simple `key=value` form writes unescaped: not empty, not
/// starting a comment, without separators, whitespace, line breaks or
/// backslashes.
pub open spec fn plain_key(k: Seq<char>) -> bool {
    &&& k.len() > 0
    &&& k[0] != '#' && k[0] != '!'
    &&& forall|i: int| 0 <= i < k.len() ==> !ends_key(#[trigger] k[i]) && k[i] != '\\'
}

/// A value that the simple `key=value` form writes unescaped: without line
/// breaks or backslashes, and not starting with whitespace.
pub open spec fn plain_value(v: Seq<char>) -> bool {
    &&& (v.len() > 0 ==> !is_blank(v[0]))
    &&& forall|i: int| 0 <= i < v.len() ==> !ends_value(#[trigger] v[i]) && v[i] != '\\'
}

/// `key=value` and a newline.
pub open spec fn property_line(r: (Seq<char>, Seq<char>)) -> Seq<char> {
    r.0 + seq!['='] + r.1 + seq!['\n']
}

/// The records written one `key=value` line each, in order.
pub open spec fn properties_text(recs: Seq<(Seq<char>, Seq<char>)>) -> Seq<char>
    decreases recs.len(),
{
    if recs.len() == 0 {
        seq![]
    } else {
        property_line(recs[0]) + properties_text(recs.drop_first())
    }
}

proof fn lemma_scan_plain(s: Seq<char>, p: int, n: int, key: bool)
    requires
        0 <= p,
        0 <= n,
        p + n < s.len(),
        forall|j: int|
            p <= j < p + n ==> s[j] != '\\' && !(if key {
                ends_key(#[trigger] s[j])
            } else {
                ends_value(s[j])
            }),
        s[p + n] != '\\',
        if key {
            ends_key(s[p + n])
        } else {
            ends_value(s[p + n])
        },
    ensures
        scan_text(s, p, key, false) == Ok::<(Seq<char>, int), int>((s.subrange(p, p + n), p + n)),
    decreases n,
{
    if n == 0 {
        assert(s.subrange(p, p) =~= seq![]);
    } else {
        lemma_scan_plain(s, p + 1, n - 1, key);
        assert(seq![s[p]] + s.subrange(p + 1, p + n) =~= s.subrange(p, p + n));
    }
}

proof fn lemma_line_plain(s: Seq<char>, p: int, r: (Seq<char>, Seq<char>))
    requires
        plain_key(r.0),
        plain_value(r.1),
        0 <= p,
        p + property_line(r).len() <= s.len(),
        s.subrange(p, p + property_line(r).len()) == property_line(r),
    ensures
        line_at(s, p) == Ok::<(Option<(Seq<char>, Seq<char>)>, int), int>(
            (Some(r), p + property_line(r).len()),
        ),
{
    let k = r.0;
    let v = r.1;
    let l = property_line(r);
    let kl = k.len() as int;
    let vl = v.len() as int;
    assert forall|j: int| 0 <= j < l.len() implies s[p + j] == #[trigger] l[j] by {
        assert(s.subrange(p, p + l.len())[j] == s[p + j]);
    }
    assert forall|j: int| 0 <= j < kl implies s[p + j] == #[trigger] k[j] by {
        assert(l[j] == k[j]);
    }
    assert(l[kl] == '=');
    assert(s[p + kl] == '=');
    assert forall|j: int| 0 <= j < vl implies s[p + kl + 1 + j] == #[trigger] v[j] by {
        assert(l[kl + 1 + j] == v[j]);
    }
    assert(l[kl + 1 + vl] == '\n');
    assert(s[p + kl + 1 + vl] == '\n');
    assert(s[p] == k[0]);
    assert forall|j: int| p <= j < p + kl implies s[j] != '\\' && !ends_key(#[trigger] s[j]) by {
        assert(s[p + (j - p)] == k[j - p]);
    }
    lemma_scan_plain(s, p, kl, true);
    assert(s.subrange(p, p + kl) =~= k);
    let q = p + kl + 1;
    assert forall|j: int| q <= j < q + vl implies s[j] != '\\' && !ends_value(#[trigger] s[j]) by {
        assert(s[p + kl + 1 + (j - q)] == v[j - q]);
    }
    lemma_scan_plain(s, q, vl, false);
    assert(s.subrange(q, q + vl) =~= v);
    if vl > 0 {
        assert(s[q] == v[0]);
    }
    assert(skip_filler(s, p + kl) == p + kl);
    assert(skip_filler(s, q) == q);
    assert(value_start(s, p + kl) == q);
    assert(eol_len(s, q + vl) == 1);
}

proof fn lemma_round_trip_from(s: Seq<char>, p: int, recs: Seq<(Seq<char>, Seq<char>)>)
    requires
        0 <= p <= s.len(),
        s.subrange(p, s.len() as int) == properties_text(recs),
        forall|i: int| 0 <= i < recs.len() ==> plain_key(#[trigger] recs[i].0) && plain_value(recs[i].1),
    ensures
        parse_from(s, p) == Ok::<Seq<(Seq<char>, Seq<char>)>, int>(recs),
    decreases recs.len(),
{
    if recs.len() == 0 {
        assert(s.subrange(p, s.len() as int).len() == 0);
        assert(recs =~= seq![]);
    } else {
        let l = property_line(recs[0]);
        let rest = recs.drop_first();
        let t = s.subrange(p, s.len() as int);
        assert(t == l + properties_text(rest));
        assert(s.subrange(p, p + l.len()) =~= l) by {
            assert forall|j: int| 0 <= j < l.len() implies s.subrange(p, p + l.len())[j] == l[j] by {
                assert(t[j] == s[p + j]);
                assert(t[j] == l[j]);
            }
        }
        assert(plain_key(recs[0].0) && plain_value(recs[0].1));
        lemma_line_plain(s, p, recs[0]);
        assert(s.subrange(p + l.len(), s.len() as int) =~= properties_text(rest)) by {
            assert forall|j: int| 0 <= j < properties_text(rest).len() implies s.subrange(
                p + l.len(),
                s.len() as int,
            )[j] == properties_text(rest)[j] by {
                assert(t[l.len() + j] == s[p + l.len() + j]);
                assert(t[l.len() + j] == properties_text(rest)[j]);
            }
        }
        assert forall|i: int| 0 <= i < rest.len() implies plain_key(#[trigger] rest[i].0) && plain_value(
            rest[i].1,
        ) by {
            assert(rest[i] == recs[i + 1]);
        }
        lemma_round_trip_from(s, p + l.len(), rest);
        assert(seq![recs[0]] + rest =~= recs);
    }
}

/// Writing records as plain `key=value` lines and parsing the text back gives
/// the same records in the same order.
pub proof fn lemma_properties_round_trip(recs: Seq<(Seq<char>, Seq<char>)>)
    requires
        forall|i: int| 0 <= i < recs.len() ==> plain_key(#[trigger] recs[i].0) && plain_value(recs[i].1),
    ensures
        properties_of(properties_text(recs)) == Ok::<Seq<(Seq<char>, Seq<char>)>, int>(recs),
{
    let s = properties_text(recs);
    assert(s.subrange(0, s.len() as int) =~= s);
    lemma_round_trip_from(s, 0, recs);
}

proof fn lemma_keys_nonempty_from(s: Seq<char>, i: int)
    ensures
        parse_from(s, i) is Ok ==> forall|j: int|
            0 <= j < parse_from(s, i)->Ok_0.len() ==> (#[trigger] parse_from(s, i)->Ok_0[j]).0.len() > 0,
    decreases s.len() - i,
{
    if 0 <= i < s.len() {
        match line_at(s, i) {
            Err(_) => {},
            Ok((rec, next)) => {
                if !(next <= i || next > s.len()) {
                    lemma_keys_nonempty_from(s, next);
                    if parse_from(s, next) is Ok {
                        let rest = parse_from(s, next)->Ok_0;
                        let all = parse_from(s, i)->Ok_0;
                        match rec {
                            Some(r) => {
                                assert(all == seq![r] + rest);
                                assert forall|j: int| 0 <= j < all.len() implies (#[trigger] all[j]).0.len() > 0 by {
                                    if j > 0 {
                                        assert(all[j] == rest[j - 1]);
                                    }
                                }
                            },
                            None => {},
                        }
                    }
                }
            },
        }
    }
}

/// Every record that a successful parse yields has a non-empty key.
pub proof fn lemma_parsed_keys_nonempty(s: Seq<char>)
    ensures
        properties_of(s) is Ok ==> forall|j: int|
            0 <= j < properties_of(s)->Ok_0.len() ==> (#[trigger] properties_of(s)->Ok_0[j]).0.len() > 0,
{
    lemma_keys_nonempty_from(s, 0);
}

fn eol_at(s: &Vec<char>, i: usize) -> (r: usize)
    ensures
        r as int == eol_len(s@, i as int),
{
    if i < s.len() && s[i] == '\r' {
        if i + 1 < s.len() && s[i + 1] == '\n' {
            2
        } else {
            1
        }
    } else if i < s.len() && s[i] == '\n' {
        1
    } else {
        0
    }
}

fn blank(c: char) -> (r: bool)
    ensures
        r == is_blank(c),
{
    c == ' ' || c == '\t' || c == '\x0c'
}

fn skip_filler_at(s: &Vec<char>, i: usize) -> (r: usize)
    requires
        i <= s@.len(),
    ensures
        r as int == skip_filler(s@, i as int),
        i <= r <= s@.len(),
{
    let mut k = i;
    while k < s.len()
        invariant
            i <= k <= s@.len(),
            skip_filler(s@, i as int) == skip_filler(s@, k as int),
        decreases s@.len() - k,
    {
        if blank(s[k]) {
            k = k + 1;
        } else if s[k] == '\\' && eol_at(s, k + 1) > 0 {
            k = k + 1 + eol_at(s, k + 1);
        } else {
            return k;
        }
    }
    k
}

fn line_end_at(s: &Vec<char>, i: usize) -> (r: usize)
    requires
        i <= s@.len(),
    ensures
        r as int == line_end(s@, i as int),
        i <= r <= s@.len(),
{
    let mut k = i;
    while k < s.len()
        invariant
            i <= k <= s@.len(),
            line_end(s@, i as int) == line_end(s@, k as int),
        decreases s@.len() - k,
    {
        let e = eol_at(s, k);
        if e > 0 {
            return k + e;
        }
        k = k + 1;
    }
    k
}

fn hex_at(c: char) -> (r: Option<u32>)
    ensures
        match r {
            Some(v) => hex_value(c) == v as int && v < 16,
            None => hex_value(c) == -1,
        },
{
    if '0' <= c && c <= '9' {
        Some(c as u32 - '0' as u32)
    } else if 'a' <= c && c <= 'f' {
        Some(c as u32 - 'a' as u32 + 10)
    } else if 'A' <= c && c <= 'F' {
        Some(c as u32 - 'A' as u32 + 10)
    } else {
        None
    }
}

/// The character of a `\uXXXX` escape whose backslash is at `k`.
fn unicode_at(s: &Vec<char>, k: usize) -> (r: Option<char>)
    requires
        k + 1 < s@.len(),
    ensures
        match r {
            Some(c) => k + 5 < s@.len() && is_scalar_code(unicode_code(s@, k as int)) && c == code_char(
                unicode_code(s@, k as int),
            ),
            None => !(k + 5 < s@.len() && is_scalar_code(unicode_code(s@, k as int))),
        },
{
    if s.len() - k <= 5 {
        return None;
    }
    let d0 = hex_at(s[k + 2]);
    let d1 = hex_at(s[k + 3]);
    let d2 = hex_at(s[k + 4]);
    let d3 = hex_at(s[k + 5]);
    match (d0, d1, d2, d3) {
        (Some(a), Some(b), Some(c), Some(d)) => {
            let v: u32 = a * 4096 + b * 256 + c * 16 + d;
            match char_from_code(v) {
                Some(ch) => {
                    proof {
                        let code = unicode_code(s@, k as int);
                        assert(code == v as int);
                        let w = code_char(code);
                        assert(ch as int == code);
                        assert(char_code(ch) == code);
                        assert(w as int == code);
                    }
                    Some(ch)
                },
                None => None,
            }
        },
        _ => None,
    }
}

fn unescape_char(c: char) -> (r: char)
    ensures
        r == unescape(c),
{
    if c == 't' {
        '\t'
    } else if c == 'n' {
        '\n'
    } else if c == 'f' {
        '\x0c'
    } else if c == 'r' {
        '\r'
    } else {
        c
    }
}

/// Scans a key or a value from `start`: the text with escapes and line
/// continuations resolved, and the position where it ends.
fn scan_text_at(s: &Vec<char>, start: usize, key: bool) -> (r: Result<(Vec<char>, usize), usize>)
    requires
        start <= s@.len(),
    ensures
        match r {
            Ok((t, p)) => scan_text(s@, start as int, key, false) == Ok::<(Seq<char>, int), int>((t@, p as int))
                && start <= p <= s@.len(),
            Err(e) => scan_text(s@, start as int, key, false) == Err::<(Seq<char>, int), int>(e as int),
        },
{
    let mut acc: Vec<char> = Vec::new();
    let mut k = start;
    let mut fresh = false;
    while k < s.len()
        invariant
            start <= k <= s@.len(),
            scan_text(s@, start as int, key, false) == prefix_text(acc@, scan_text(s@, k as int, key, fresh)),
        decreases s@.len() - k,
    {
        let c = s[k];
        if fresh && blank(c) {
            k = k + 1;
        } else if c == '\\' {
            let e = eol_at(s, k + 1);
            if e > 0 {
                k = k + 1 + e;
                fresh = true;
            } else if k + 1 >= s.len() {
                return Err(k);
            } else if s[k + 1] == 'u' {
                match unicode_at(s, k) {
                    Some(u) => {
                        proof {
                            lemma_prefix_cons(acc@, u, scan_text(s@, k + 6, key, false));
                        }
                        acc.push(u);
                        k = k + 6;
                        fresh = false;
                    },
                    None => {
                        return Err(k);
                    },
                }
            } else {
                let u = unescape_char(s[k + 1]);
                proof {
                    lemma_prefix_cons(acc@, u, scan_text(s@, k + 2, key, false));
                }
                acc.push(u);
                k = k + 2;
                fresh = false;
            }
        } else if (key && (c == ':' || c == '=' || c == '\n' || c == '\r' || blank(c))) || (!key && (c
            == '\n' || c == '\r')) {
            proof {
                assert(acc@ + seq![] =~= acc@);
            }
            return Ok((acc, k));
        } else {
            proof {
                lemma_prefix_cons(acc@, c, scan_text(s@, k + 1, key, false));
            }
            acc.push(c);
            k = k + 1;
            fresh = false;
        }
    }
    proof {
        assert(acc@ + seq![] =~= acc@);
    }
    Ok((acc, k))
}

fn value_start_at(s: &Vec<char>, p: usize) -> (r: usize)
    requires
        p <= s@.len(),
    ensures
        r as int == value_start(s@, p as int),
        r <= s@.len(),
{
    let q = skip_filler_at(s, p);
    if q < s.len() && (s[q] == ':' || s[q] == '=') {
        skip_filler_at(s, q + 1)
    } else {
        q
    }
}

/// Parses the logical line that starts at `i`.
fn line_at_pos(s: &Vec<char>, i: usize) -> (r: Result<(Option<Record>, usize), usize>)
    requires
        i <= s@.len(),
    ensures
        match r {
            Ok((None, n)) => line_at(s@, i as int) == Ok::<(Option<(Seq<char>, Seq<char>)>, int), int>(
                (None, n as int),
            ),
            Ok((Some(rec), n)) => line_at(s@, i as int) == Ok::<
                (Option<(Seq<char>, Seq<char>)>, int),
                int,
            >((Some(rec@), n as int)),
            Err(e) => line_at(s@, i as int) == Err::<(Option<(Seq<char>, Seq<char>)>, int), int>(
                e as int,
            ),
        },
{
    let j = skip_filler_at(s, i);
    if j >= s.len() {
        return Ok((None, j));
    }
    let e = eol_at(s, j);
    if e > 0 {
        return Ok((None, j + e));
    }
    if s[j] == '#' || s[j] == '!' {
        return Ok((None, line_end_at(s, j)));
    }
    match scan_text_at(s, j, true) {
        Err(e) => Err(e),
        Ok((k, p)) => {
            if k.len() == 0 {
                return Err(j);
            }
            let q = value_start_at(s, p);
            match scan_text_at(s, q, false) {
                Err(e) => Err(e),
                Ok((v, r)) => {
                    let key = string_from_chars(&k);
                    let value = string_from_chars(&v);
                    Ok((Some(Record { key, value }), r + eol_at(s, r)))
                },
            }
        },
    }
}

/// Parses `.properties` text into its records, in source order, duplicates kept.
/// Blank and comment lines give no record; escapes and line continuations are
/// resolved. Fails with the offset of a line that the grammar cannot read (an
/// empty key, a `\u` escape without four hex digits naming a Unicode
/// scalar value, a backslash at the very end).
pub fn parse_properties(text: &str) -> (r: Result<Vec<Record>, ParseError>)
    ensures
        match r {
            Ok(v) => properties_of(text@) == Ok::<Seq<(Seq<char>, Seq<char>)>, int>(records_view(v@)),
            Err(e) => properties_of(text@) == Err::<Seq<(Seq<char>, Seq<char>)>, int>(e.offset as int),
        },
{
    let s = chars_of(text);
    let mut out: Vec<Record> = Vec::new();
    let mut i: usize = 0;
    proof {
        assert(records_view(out@) =~= seq![]);
        match properties_of(s@) {
            Ok(t) => { assert(seq![] + t =~= t); },
            Err(_) => {},
        }
    }
    while i < s.len()
        invariant
            i <= s@.len(),
            s@ == text@,
            properties_of(s@) == prefix_records(records_view(out@), parse_from(s@, i as int)),
        decreases s@.len() - i,
    {
        match line_at_pos(&s, i) {
            Err(e) => {
                return Err(ParseError { offset: e });
            },
            Ok((rec, next)) => {
                if next <= i || next > s.len() {
                    return Err(ParseError { offset: i });
                }
                match rec {
                    Some(r) => {
                        proof {
                            let rest = parse_from(s@, next as int);
                            match rest {
                                Ok(t) => {
                                    assert(records_view(out@) + (seq![r@] + t) =~= records_view(out@.push(r)) + t);
                                },
                                Err(_) => {},
                            }
                        }
                        out.push(r);
                    },
                    None => {},
                }
                i = next;
            },
        }
    }
    proof {
        assert(records_view(out@) + seq![] =~= records_view(out@));
    }
    Ok(out)
}

} // verus!
