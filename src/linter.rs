use vstd::prelude::*;

use crate::config::Configuration;
use crate::model::{records_view, Record};
use crate::text::{chars_equal, split_dots, split_path, string_from_chars, strings_view};

verus! {

/// The format shared by every file of a batch.
#[derive(Clone, Copy, Debug, PartialEq, Eq, Structural)]
pub enum Filetype {
    Yaml,
    Properties,
}

/// Why a batch of files has no single supported format.
#[derive(Clone, Debug)]
pub enum FileTypeError {
    NoFiles,
    Inconsistent,
    /// Every file has this extension, which no parser reads.
    Unsupported(String),
}

/// The text after the last `.` of a file name (the whole name without a dot).
pub open spec fn extension(f: Seq<char>) -> Seq<char> {
    split_dots(f).last()
}

/// Every file has the extension of the first.
pub open spec fn same_extension(files: Seq<String>) -> bool {
    forall|i: int| 0 <= i < files.len() ==> #[trigger] extension(files[i]@) == extension(files[0]@)
}

pub open spec fn properties_word() -> Seq<char> {
    seq!['p', 'r', 'o', 'p', 'e', 'r', 't', 'i', 'e', 's']
}

pub open spec fn yaml_word() -> Seq<char> {
    seq!['y', 'a', 'm', 'l']
}

fn extension_of(f: &String) -> (r: Vec<char>)
    ensures
        r@ == extension(f@),
{
    let mut segs = split_path(f.as_str());
    let ghost all = segs@;
    match segs.pop() {
        Some(last) => {
            assert(last@ == split_dots(f@)[all.len() - 1]);
            last
        },
        None => Vec::new(),
    }
}

/// The format of a batch: the extension that all its files share, when it is
/// `properties` or `yaml`.
pub fn fetch_file_types(config: &Configuration) -> (r: Result<Filetype, FileTypeError>)
    ensures
        config.files@.len() == 0 ==> r matches Err(FileTypeError::NoFiles),
        config.files@.len() > 0 && !same_extension(config.files@) ==> r matches Err(
            FileTypeError::Inconsistent,
        ),
        config.files@.len() > 0 && same_extension(config.files@) ==> {
            let e = extension(config.files@[0]@);
            if e == properties_word() {
                r matches Ok(Filetype::Properties)
            } else if e == yaml_word() {
                r matches Ok(Filetype::Yaml)
            } else {
                r matches Err(FileTypeError::Unsupported(u)) && u@ == e
            }
        },
{
    let files = &config.files;
    if files.len() == 0 {
        return Err(FileTypeError::NoFiles);
    }
    let first = extension_of(&files[0]);
    let mut i: usize = 1;
    while i < files.len()
        invariant
            1 <= i <= files@.len(),
            files@ == config.files@,
            first@ == extension(files@[0]@),
            forall|j: int| 0 <= j < i ==> #[trigger] extension(files@[j]@) == extension(files@[0]@),
        decreases files@.len() - i,
    {
        let e = extension_of(&files[i]);
        if !chars_equal(&e, &first) {
            assert(extension(files@[i as int]@) != extension(files@[0]@));
            assert(!same_extension(config.files@));
            return Err(FileTypeError::Inconsistent);
        }
        i = i + 1;
    }
    let properties: Vec<char> = vec!['p', 'r', 'o', 'p', 'e', 'r', 't', 'i', 'e', 's'];
    let yaml: Vec<char> = vec!['y', 'a', 'm', 'l'];
    proof {
        assert(properties@ =~= properties_word());
        assert(yaml@ =~= yaml_word());
    }
    if chars_equal(&first, &properties) {
        Ok(Filetype::Properties)
    } else if chars_equal(&first, &yaml) {
        Ok(Filetype::Yaml)
    } else {
        Err(FileTypeError::Unsupported(string_from_chars(&first)))
    }
}

/// A key that some files of a batch have and others lack.
#[derive(Clone, Debug)]
pub struct Outlier {
    pub key: String,
    /// The files that have the key, in batch order.
    pub present_in: Vec<String>,
    /// The files that lack the key, in batch order.
    pub missing_from: Vec<String>,
}

impl View for Outlier {
    type V = (Seq<char>, Seq<Seq<char>>, Seq<Seq<char>>);

    open spec fn view(&self) -> (Seq<char>, Seq<Seq<char>>, Seq<Seq<char>>) {
        (self.key@, strings_view(self.present_in@), strings_view(self.missing_from@))
    }
}

/// The file names of a batch, in order.
pub open spec fn batch_files(b: Seq<(String, Vec<String>)>) -> Seq<Seq<char>> {
    b.map_values(|e: (String, Vec<String>)| e.0@)
}

/// The keys of each file of a batch, in order.
pub open spec fn batch_keys(b: Seq<(String, Vec<String>)>) -> Seq<Seq<Seq<char>>> {
    b.map_values(|e: (String, Vec<String>)| strings_view(e.1@))
}

/// `acc` extended by the first `j` keys of `ks` that it does not hold yet.
pub open spec fn add_keys(acc: Seq<Seq<char>>, ks: Seq<Seq<char>>, j: int) -> Seq<Seq<char>>
    decreases j,
{
    if j <= 0 {
        acc
    } else {
        let a = add_keys(acc, ks, j - 1);
        if a.contains(ks[j - 1]) {
            a
        } else {
            a.push(ks[j - 1])
        }
    }
}

/// The distinct keys of the first `f` files, in order of first appearance.
pub open spec fn index_keys(per: Seq<Seq<Seq<char>>>, f: int) -> Seq<Seq<char>>
    decreases f,
{
    if f <= 0 {
        seq![]
    } else {
        add_keys(index_keys(per, f - 1), per[f - 1], per[f - 1].len() as int)
    }
}

/// The first `f` files that have key `k` (`present`) or lack it, in order.
pub open spec fn files_with(
    files: Seq<Seq<char>>,
    per: Seq<Seq<Seq<char>>>,
    k: Seq<char>,
    f: int,
    present: bool,
) -> Seq<Seq<char>>
    decreases f,
{
    if f <= 0 {
        seq![]
    } else {
        let a = files_with(files, per, k, f - 1, present);
        if per[f - 1].contains(k) == present {
            a.push(files[f - 1])
        } else {
            a
        }
    }
}

/// The outliers among the first `i` of `keys`, in that order.
pub open spec fn outliers_upto(
    files: Seq<Seq<char>>,
    per: Seq<Seq<Seq<char>>>,
    keys: Seq<Seq<char>>,
    i: int,
) -> Seq<(Seq<char>, Seq<Seq<char>>, Seq<Seq<char>>)>
    decreases i,
{
    if i <= 0 {
        seq![]
    } else {
        let a = outliers_upto(files, per, keys, i - 1);
        let k = keys[i - 1];
        let w = files_with(files, per, k, files.len() as int, true);
        if w.len() < files.len() {
            a.push((k, w, files_with(files, per, k, files.len() as int, false)))
        } else {
            a
        }
    }
}

/// The outliers of a batch: each key that fewer than all files have, in order
/// of first appearance, with the files that have it and those that lack it.
pub open spec fn outliers_spec(b: Seq<(String, Vec<String>)>) -> Seq<(Seq<char>, Seq<Seq<char>>, Seq<Seq<char>>)> {
    let keys = index_keys(batch_keys(b), b.len() as int);
    outliers_upto(batch_files(b), batch_keys(b), keys, keys.len() as int)
}

/// The views of a sequence of outliers.
pub open spec fn outliers_view(v: Seq<Outlier>) -> Seq<(Seq<char>, Seq<Seq<char>>, Seq<Seq<char>>)> {
    v.map_values(|o: Outlier| o@)
}

fn contains_string(v: &Vec<String>, s: &String) -> (r: bool)
    ensures
        r == strings_view(v@).contains(s@),
{
    let mut i: usize = 0;
    while i < v.len()
        invariant
            i <= v@.len(),
            forall|j: int| 0 <= j < i ==> #[trigger] v@[j]@ != s@,
        decreases v@.len() - i,
    {
        if v[i] == *s {
            assert(strings_view(v@)[i as int] == s@);
            return true;
        }
        i = i + 1;
    }
    assert forall|j: int| 0 <= j < strings_view(v@).len() implies strings_view(v@)[j] != s@ by {
        assert(v@[j]@ != s@);
    }
    false
}

fn push_string(v: &mut Vec<String>, s: String)
    ensures
        strings_view(final(v)@) == strings_view(old(v)@).push(s@),
{
    v.push(s);
    assert(strings_view(v@) =~= strings_view(old(v)@).push(s@));
}

/// Every key that some file of the batch has, once each, in order of first
/// appearance.
fn key_index(batch: &Vec<(String, Vec<String>)>) -> (r: Vec<String>)
    ensures
        strings_view(r@) == index_keys(batch_keys(batch@), batch@.len() as int),
{
    let ghost per = batch_keys(batch@);
    let mut idx: Vec<String> = Vec::new();
    let mut f: usize = 0;
    proof {
        assert(strings_view(idx@) =~= seq![]);
    }
    while f < batch.len()
        invariant
            f <= batch@.len(),
            per == batch_keys(batch@),
            strings_view(idx@) == index_keys(per, f as int),
        decreases batch@.len() - f,
    {
        let keys = &batch[f].1;
        assert(per[f as int] == strings_view(keys@));
        let mut j: usize = 0;
        while j < keys.len()
            invariant
                f < batch@.len(),
                per == batch_keys(batch@),
                keys == &batch@[f as int].1,
                j <= keys@.len(),
                per[f as int] == strings_view(keys@),
                strings_view(idx@) == add_keys(index_keys(per, f as int), per[f as int], j as int),
            decreases keys@.len() - j,
        {
            if !contains_string(&idx, &keys[j]) {
                push_string(&mut idx, keys[j].clone());
            }
            j = j + 1;
        }
        f = f + 1;
    }
    idx
}

/// The files of the batch that have key `k` and those that lack it.
fn split_files(batch: &Vec<(String, Vec<String>)>, k: &String) -> (r: (Vec<String>, Vec<String>))
    ensures
        strings_view(r.0@) == files_with(
            batch_files(batch@),
            batch_keys(batch@),
            k@,
            batch@.len() as int,
            true,
        ),
        strings_view(r.1@) == files_with(
            batch_files(batch@),
            batch_keys(batch@),
            k@,
            batch@.len() as int,
            false,
        ),
{
    let ghost files = batch_files(batch@);
    let ghost per = batch_keys(batch@);
    let mut with: Vec<String> = Vec::new();
    let mut without: Vec<String> = Vec::new();
    let mut f: usize = 0;
    proof {
        assert(strings_view(with@) =~= seq![]);
        assert(strings_view(without@) =~= seq![]);
    }
    while f < batch.len()
        invariant
            f <= batch@.len(),
            files == batch_files(batch@),
            per == batch_keys(batch@),
            strings_view(with@) == files_with(files, per, k@, f as int, true),
            strings_view(without@) == files_with(files, per, k@, f as int, false),
        decreases batch@.len() - f,
    {
        assert(per[f as int] == strings_view(batch@[f as int].1@));
        assert(files[f as int] == batch@[f as int].0@);
        if contains_string(&batch[f].1, k) {
            push_string(&mut with, batch[f].0.clone());
        } else {
            push_string(&mut without, batch[f].0.clone());
        }
        f = f + 1;
    }
    (with, without)
}

/// The outliers of a batch of (file, keys) pairs: each key that some but not
/// all files have, in order of first appearance, with the files that have it
/// and those that lack it, both in batch order.
pub fn lint_keys(batch: &Vec<(String, Vec<String>)>) -> (r: Vec<Outlier>)
    ensures
        outliers_view(r@) == outliers_spec(batch@),
{
    let ghost files = batch_files(batch@);
    let ghost per = batch_keys(batch@);
    let keys = key_index(batch);
    let ghost kv = strings_view(keys@);
    let mut out: Vec<Outlier> = Vec::new();
    let mut i: usize = 0;
    proof {
        assert(outliers_view(out@) =~= seq![]);
        assert(files.len() == batch@.len());
    }
    while i < keys.len()
        invariant
            i <= keys@.len(),
            files == batch_files(batch@),
            per == batch_keys(batch@),
            files.len() == batch@.len(),
            kv == strings_view(keys@),
            kv == index_keys(per, batch@.len() as int),
            outliers_view(out@) == outliers_upto(files, per, kv, i as int),
        decreases keys@.len() - i,
    {
        let (with, without) = split_files(batch, &keys[i]);
        assert(kv[i as int] == keys@[i as int]@);
        if with.len() < batch.len() {
            let o = Outlier { key: keys[i].clone(), present_in: with, missing_from: without };
            let ghost before = out@;
            out.push(o);
            assert(outliers_view(out@) =~= outliers_view(before).push(o@));
        }
        i = i + 1;
    }
    out
}

/// Linting the same batch twice gives the same outliers: the result depends
/// only on the file names and their keys, and each list of files that lack a
/// key follows the batch order.
pub proof fn lemma_lint_repeatable(
    b1: Seq<(String, Vec<String>)>,
    b2: Seq<(String, Vec<String>)>,
    r1: Seq<Outlier>,
    r2: Seq<Outlier>,
)
    requires
        batch_files(b1) == batch_files(b2),
        batch_keys(b1) == batch_keys(b2),
        outliers_view(r1) == outliers_spec(b1),
        outliers_view(r2) == outliers_spec(b2),
    ensures
        outliers_view(r1) == outliers_view(r2),
        forall|i: int|
            0 <= i < r1.len() ==> strings_view((#[trigger] r1[i]).missing_from@) == files_with(
                batch_files(b1),
                batch_keys(b1),
                r1[i].key@,
                b1.len() as int,
                false,
            ),
{
    assert(b1.len() == batch_files(b1).len());
    assert(b2.len() == batch_files(b2).len());
    assert forall|i: int|
        0 <= i < r1.len() implies strings_view((#[trigger] r1[i]).missing_from@) == files_with(
        batch_files(b1),
        batch_keys(b1),
        r1[i].key@,
        b1.len() as int,
        false,
    ) by {
        let keys = index_keys(batch_keys(b1), b1.len() as int);
        lemma_outliers_missing(batch_files(b1), batch_keys(b1), keys, keys.len() as int);
        assert(outliers_view(r1)[i] == r1[i]@);
    }
}

proof fn lemma_outliers_missing(
    files: Seq<Seq<char>>,
    per: Seq<Seq<Seq<char>>>,
    keys: Seq<Seq<char>>,
    i: int,
)
    ensures
        forall|j: int|
            0 <= j < outliers_upto(files, per, keys, i).len() ==> (#[trigger] outliers_upto(
                files,
                per,
                keys,
                i,
            )[j]).2 == files_with(files, per, outliers_upto(files, per, keys, i)[j].0, files.len() as int, false),
    decreases i,
{
    if i > 0 {
        lemma_outliers_missing(files, per, keys, i - 1);
        let a = outliers_upto(files, per, keys, i - 1);
        let o = outliers_upto(files, per, keys, i);
        assert forall|j: int| 0 <= j < o.len() implies (#[trigger] o[j]).2 == files_with(
            files,
            per,
            o[j].0,
            files.len() as int,
            false,
        ) by {
            if j < a.len() {
                assert(o[j] == a[j]);
            }
        }
    }
}

proof fn lemma_add_keys_contains(acc: Seq<Seq<char>>, ks: Seq<Seq<char>>, j: int, k: Seq<char>)
    requires
        0 <= j <= ks.len(),
    ensures
        add_keys(acc, ks, j).contains(k) <==> (acc.contains(k) || exists|m: int|
            0 <= m < j && #[trigger] ks[m] == k),
    decreases j,
{
    if j > 0 {
        lemma_add_keys_contains(acc, ks, j - 1, k);
        let a = add_keys(acc, ks, j - 1);
        let x = ks[j - 1];
        if !a.contains(x) {
            let b = a.push(x);
            if b.contains(k) {
                let idx = choose|idx: int| 0 <= idx < b.len() && b[idx] == k;
                if idx < a.len() {
                    assert(a[idx] == k);
                } else {
                    assert(ks[j - 1] == k);
                }
            }
            if a.contains(k) {
                let idx = choose|idx: int| 0 <= idx < a.len() && a[idx] == k;
                assert(b[idx] == k);
            }
            if x == k {
                assert(b[a.len() as int] == k);
            }
        }
        if exists|m: int| 0 <= m < j && #[trigger] ks[m] == k {
            let m = choose|m: int| 0 <= m < j && #[trigger] ks[m] == k;
            if m == j - 1 {
                if a.contains(x) {
                    assert(a.contains(k));
                }
            }
        }
    }
}

proof fn lemma_index_keys_contains(per: Seq<Seq<Seq<char>>>, f: int, k: Seq<char>)
    requires
        0 <= f <= per.len(),
    ensures
        index_keys(per, f).contains(k) <==> exists|g: int| 0 <= g < f && (#[trigger] per[g]).contains(k),
    decreases f,
{
    if f > 0 {
        lemma_index_keys_contains(per, f - 1, k);
        let ks = per[f - 1];
        lemma_add_keys_contains(index_keys(per, f - 1), ks, ks.len() as int, k);
        if ks.contains(k) {
            let m = choose|m: int| 0 <= m < ks.len() && ks[m] == k;
            assert(ks[m] == k);
        }
        if exists|m: int| 0 <= m < ks.len() && #[trigger] ks[m] == k {
            assert(ks.contains(k));
        }
        if exists|g: int| 0 <= g < f && (#[trigger] per[g]).contains(k) {
            let g = choose|g: int| 0 <= g < f && (#[trigger] per[g]).contains(k);
            if g < f - 1 {
                assert(index_keys(per, f - 1).contains(k));
            }
        }
    }
}

proof fn lemma_files_with_len(files: Seq<Seq<char>>, per: Seq<Seq<Seq<char>>>, k: Seq<char>, f: int)
    requires
        0 <= f <= per.len(),
    ensures
        files_with(files, per, k, f, true).len() + files_with(files, per, k, f, false).len() == f,
        files_with(files, per, k, f, false).len() > 0 <==> exists|g: int|
            0 <= g < f && !(#[trigger] per[g]).contains(k),
        files_with(files, per, k, f, true).len() > 0 <==> exists|g: int|
            0 <= g < f && (#[trigger] per[g]).contains(k),
    decreases f,
{
    if f > 0 {
        lemma_files_with_len(files, per, k, f - 1);
        if exists|g: int| 0 <= g < f && !(#[trigger] per[g]).contains(k) {
            let g = choose|g: int| 0 <= g < f && !(#[trigger] per[g]).contains(k);
            if g < f - 1 {
                assert(files_with(files, per, k, f - 1, false).len() > 0);
            }
        }
        if exists|g: int| 0 <= g < f && (#[trigger] per[g]).contains(k) {
            let g = choose|g: int| 0 <= g < f && (#[trigger] per[g]).contains(k);
            if g < f - 1 {
                assert(files_with(files, per, k, f - 1, true).len() > 0);
            }
        }
        if files_with(files, per, k, f - 1, false).len() > 0 {
            let g = choose|g: int| 0 <= g < f - 1 && !(#[trigger] per[g]).contains(k);
            assert(0 <= g < f && !per[g].contains(k));
        }
        if files_with(files, per, k, f - 1, true).len() > 0 {
            let g = choose|g: int| 0 <= g < f - 1 && (#[trigger] per[g]).contains(k);
            assert(0 <= g < f && per[g].contains(k));
        }
        assert(per[f - 1].contains(k) || !per[f - 1].contains(k));
    }
}

/// Whether `k` is the key of one of the outliers.
pub open spec fn lists_key(o: Seq<(Seq<char>, Seq<Seq<char>>, Seq<Seq<char>>)>, k: Seq<char>) -> bool {
    exists|j: int| 0 <= j < o.len() && (#[trigger] o[j]).0 == k
}

proof fn lemma_outliers_upto_keys(
    files: Seq<Seq<char>>,
    per: Seq<Seq<Seq<char>>>,
    keys: Seq<Seq<char>>,
    i: int,
    k: Seq<char>,
)
    requires
        0 <= i <= keys.len(),
    ensures
        lists_key(outliers_upto(files, per, keys, i), k) <==> (keys.subrange(0, i).contains(k)
            && files_with(files, per, k, files.len() as int, true).len() < files.len()),
    decreases i,
{
    if i > 0 {
        lemma_outliers_upto_keys(files, per, keys, i - 1, k);
        let a = outliers_upto(files, per, keys, i - 1);
        let o = outliers_upto(files, per, keys, i);
        let x = keys[i - 1];
        let pre = keys.subrange(0, i - 1);
        let cur = keys.subrange(0, i);
        assert(cur =~= pre.push(x));
        if lists_key(a, k) {
            let j = choose|j: int| 0 <= j < a.len() && (#[trigger] a[j]).0 == k;
            assert(o[j] == a[j]);
        }
        if lists_key(o, k) {
            let j = choose|j: int| 0 <= j < o.len() && (#[trigger] o[j]).0 == k;
            if j < a.len() {
                assert(o[j] == a[j]);
                assert(lists_key(a, k));
            } else {
                assert(x == k);
                assert(cur[i - 1] == k);
            }
        }
        if cur.contains(k) {
            let m = choose|m: int| 0 <= m < cur.len() && cur[m] == k;
            if m < i - 1 {
                assert(pre[m] == k);
            }
        }
        if pre.contains(k) {
            let m = choose|m: int| 0 <= m < pre.len() && pre[m] == k;
            assert(cur[m] == k);
        }
        if x == k && files_with(files, per, k, files.len() as int, true).len() < files.len() {
            assert(o[a.len() as int].0 == k);
        }
        if x == k {
            assert(cur[i - 1] == k);
        }
    }
}

/// A key is reported as an outlier exactly when some file of the batch has
/// it and some file lacks it.
pub proof fn lemma_outlier_iff_some_but_not_all(b: Seq<(String, Vec<String>)>, k: Seq<char>)
    ensures
        lists_key(outliers_spec(b), k) <==> ((exists|g: int|
            0 <= g < b.len() && (#[trigger] batch_keys(b)[g]).contains(k)) && (exists|g: int|
            0 <= g < b.len() && !(#[trigger] batch_keys(b)[g]).contains(k))),
{
    let files = batch_files(b);
    let per = batch_keys(b);
    let keys = index_keys(per, b.len() as int);
    assert(files.len() == b.len() && per.len() == b.len());
    lemma_outliers_upto_keys(files, per, keys, keys.len() as int, k);
    assert(keys.subrange(0, keys.len() as int) =~= keys);
    lemma_index_keys_contains(per, b.len() as int, k);
    lemma_files_with_len(files, per, k, b.len() as int);
}

/// The keys of records, in order.
pub fn record_keys(records: &Vec<Record>) -> (r: Vec<String>)
    ensures
        r@.len() == records@.len(),
        forall|i: int| 0 <= i < r@.len() ==> #[trigger] r@[i]@ == records_view(records@)[i].0,
{
    let mut out: Vec<String> = Vec::new();
    let mut i: usize = 0;
    while i < records.len()
        invariant
            i <= records@.len(),
            out@.len() == i,
            forall|j: int| 0 <= j < i ==> #[trigger] out@[j]@ == records_view(records@)[j].0,
        decreases records@.len() - i,
    {
        out.push(records[i].key.clone());
        i = i + 1;
    }
    out
}

} // verus!
