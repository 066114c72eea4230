use vstd::prelude::*;

use crate::text::{chars_of, string_from_chars};

verus! {

/// Index of the last `.` among the first `i` characters of `f`, or -1.
pub open spec fn last_dot(f: Seq<char>, i: int) -> int
    decreases i,
{
    if i <= 0 {
        -1
    } else if f[i - 1] == '.' {
        i - 1
    } else {
        last_dot(f, i - 1)
    }
}

/// `f` with its final extension replaced by `csv` (or `.csv` appended when
/// it has none).
pub open spec fn destination(f: Seq<char>) -> Seq<char> {
    let d = last_dot(f, f.len() as int);
    let base = if d < 0 {
        f
    } else {
        f.subrange(0, d)
    };
    base + seq!['.', 'c', 's', 'v']
}

/// The name of the CSV file that the records of `filename` are written to.
pub fn generate_destination(filename: &str) -> (r: String)
    ensures
        r@ == destination(filename@),
{
    let f = chars_of(filename);
    let mut i: usize = f.len();
    while i > 0 && f[i - 1] != '.'
        invariant
            i <= f@.len(),
            f@ == filename@,
            last_dot(f@, f@.len() as int) == last_dot(f@, i as int),
        decreases i,
    {
        i = i - 1;
    }
    let end: usize = if i == 0 {
        f.len()
    } else {
        i - 1
    };
    let mut out: Vec<char> = Vec::new();
    let mut k: usize = 0;
    while k < end
        invariant
            k <= end <= f@.len(),
            out@ == f@.subrange(0, k as int),
        decreases end - k,
    {
        out.push(f[k]);
        k = k + 1;
        assert(out@ =~= f@.subrange(0, k as int));
    }
    out.push('.');
    out.push('c');
    out.push('s');
    out.push('v');
    proof {
        assert(f@.subrange(0, f@.len() as int) =~= f@);
        assert(out@ =~= destination(filename@));
    }
    string_from_chars(&out)
}

} // verus!
