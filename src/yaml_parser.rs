use vstd::prelude::*;

use crate::model::Record;
use crate::text::{
    bool_string, bool_text, chars_equal, chars_of, i64_text, int_text, split_dots, split_path, string_from_chars, strings_view,
    usize_text,
};

verus! {

/// One node of a YAML document. Collections refer to their members by their
/// index in the tree's arena; a hash holds (key, value) index pairs in
/// document order.
#[derive(Clone, Debug)]
pub enum YamlNode {
    Null,
    Bool(bool),
    Int(i64),
    Real(String),
    Str(String),
    /// An alias, known by its anchor's id; it reads as that id, not as the
    /// anchored value.
    Alias(usize),
    Array(Vec<usize>),
    Hash(Vec<(usize, usize)>),
}

/// A YAML document stored as an arena of nodes: every node refers only to
/// nodes of smaller index, so the tree has no cycles.
#[derive(Clone, Debug)]
pub struct YamlTree {
    pub nodes: Vec<YamlNode>,
    pub root: usize,
}

/// Why a subtree does not collapse to one scalar.
#[derive(Clone, Copy, Debug, PartialEq, Eq)]
pub enum Ambiguity {
    /// A null, or an empty array or hash.
    NoValue,
    MultipleElements,
    MultipleKeys,
}

/// A dotted path that cannot be resolved to one string.
#[derive(Clone, Debug)]
pub enum ResolveError {
    /// The named segment does not index into the node reached so far.
    BadValue(String),
    Ambiguous(Ambiguity),
}

/// The mathematical counterpart of `ResolveError`.
pub enum ResolveFailure {
    BadValue(Seq<char>),
    Ambiguous(Ambiguity),
}

impl View for ResolveError {
    type V = ResolveFailure;

    open spec fn view(&self) -> ResolveFailure {
        match self {
            ResolveError::BadValue(s) => ResolveFailure::BadValue(s@),
            ResolveError::Ambiguous(a) => ResolveFailure::Ambiguous(*a),
        }
    }
}

/// Every member index of node `i` is smaller than `i`.
pub open spec fn node_wf(nodes: Seq<YamlNode>, i: int) -> bool {
    match nodes[i] {
        YamlNode::Array(v) => forall|j: int| 0 <= j < v@.len() ==> #[trigger] v@[j] < i,
        YamlNode::Hash(h) => forall|j: int| 0 <= j < h@.len() ==> #[trigger] h@[j].0 < i && h@[j].1 < i,
        _ => true,
    }
}

impl YamlTree {
    /// The root exists and every node refers only to earlier nodes.
    pub open spec fn wf(&self) -> bool {
        &&& self.root < self.nodes@.len()
        &&& forall|i: int| 0 <= i < self.nodes@.len() ==> #[trigger] node_wf(self.nodes@, i)
    }
}

/// The text of a scalar as the resolver and the enumerator print it; `None`
/// for a null or a collection.
pub open spec fn scalar_text(n: YamlNode) -> Option<Seq<char>> {
    match n {
        YamlNode::Bool(b) => Some(bool_text(b)),
        YamlNode::Int(i) => Some(int_text(i as int)),
        YamlNode::Real(s) => Some(s@),
        YamlNode::Str(s) => Some(s@),
        YamlNode::Alias(a) => Some(int_text(a as int)),
        _ => None,
    }
}

/// Collapses node `n` to one string: a scalar gives its text, a one-element
/// array or a one-entry hash gives the collapse of its only member.
pub open spec fn collapse(nodes: Seq<YamlNode>, n: int) -> Result<Seq<char>, Ambiguity>
    decreases n,
{
    if n < 0 || n >= nodes.len() {
        Err(Ambiguity::NoValue)
    } else {
        match nodes[n] {
            YamlNode::Array(v) => if v@.len() == 0 {
                Err(Ambiguity::NoValue)
            } else if v@.len() > 1 {
                Err(Ambiguity::MultipleElements)
            } else if v@[0] < n {
                collapse(nodes, v@[0] as int)
            } else {
                Err(Ambiguity::NoValue)
            },
            YamlNode::Hash(h) => if h@.len() == 0 {
                Err(Ambiguity::NoValue)
            } else if h@.len() > 1 {
                Err(Ambiguity::MultipleKeys)
            } else if h@[0].1 < n {
                collapse(nodes, h@[0].1 as int)
            } else {
                Err(Ambiguity::NoValue)
            },
            YamlNode::Null => Err(Ambiguity::NoValue),
            _ => Ok(scalar_text(nodes[n])->Some_0),
        }
    }
}

/// Whether node `k` is a string equal to `seg`.
pub open spec fn is_str_key(nodes: Seq<YamlNode>, k: int, seg: Seq<char>) -> bool {
    0 <= k < nodes.len() && nodes[k] is Str && nodes[k]->Str_0@ == seg
}

/// The value of the first entry from `j` on whose key is the string `seg`.
pub open spec fn find_entry(nodes: Seq<YamlNode>, h: Seq<(usize, usize)>, seg: Seq<char>, j: int) -> Option<int>
    decreases h.len() - j,
{
    if j < 0 || j >= h.len() {
        None
    } else if is_str_key(nodes, h[j].0 as int, seg) {
        Some(h[j].1 as int)
    } else {
        find_entry(nodes, h, seg, j + 1)
    }
}

/// Indexes node `n` by the string key `seg`: only a hash can be indexed.
pub open spec fn index_node(nodes: Seq<YamlNode>, n: int, seg: Seq<char>) -> Option<int> {
    if 0 <= n < nodes.len() && nodes[n] is Hash {
        find_entry(nodes, nodes[n]->Hash_0@, seg, 0)
    } else {
        None
    }
}

/// The node reached from `n` by the segments of `path` from `i` on, or the
/// first segment that misses.
pub open spec fn walk(nodes: Seq<YamlNode>, n: int, path: Seq<Seq<char>>, i: int) -> Result<int, Seq<char>>
    decreases path.len() - i,
{
    if i < 0 || i >= path.len() {
        Ok(n)
    } else {
        match index_node(nodes, n, path[i]) {
            None => Err(path[i]),
            Some(m) => walk(nodes, m, path, i + 1),
        }
    }
}

/// Resolves a sequence of path segments from node `n` to one string.
pub open spec fn resolve_segments(nodes: Seq<YamlNode>, n: int, path: Seq<Seq<char>>) -> Result<Seq<char>, ResolveFailure> {
    match walk(nodes, n, path, 0) {
        Err(seg) => Err(ResolveFailure::BadValue(seg)),
        Ok(m) => match collapse(nodes, m) {
            Ok(t) => Ok(t),
            Err(a) => Err(ResolveFailure::Ambiguous(a)),
        },
    }
}

/// Resolves a dotted path from the root of the tree.
pub open spec fn resolve_spec(tree: YamlTree, path: Seq<char>) -> Result<Seq<char>, ResolveFailure> {
    resolve_segments(tree.nodes@, tree.root as int, split_dots(path))
}

/// The text of a scalar node.
fn scalar_string(node: &YamlNode) -> (r: String)
    requires
        scalar_text(*node) is Some,
    ensures
        r@ == scalar_text(*node)->Some_0,
{
    match node {
        YamlNode::Bool(b) => bool_string(*b),
        YamlNode::Int(i) => i64_text(*i),
        YamlNode::Real(s) => s.clone(),
        YamlNode::Str(s) => s.clone(),
        YamlNode::Alias(a) => usize_text(*a),
        _ => String::new(),
    }
}

fn collapse_node(tree: &YamlTree, n: usize) -> (r: Result<String, Ambiguity>)
    requires
        tree.wf(),
        n < tree.nodes@.len(),
    ensures
        match r {
            Ok(s) => collapse(tree.nodes@, n as int) == Ok::<Seq<char>, Ambiguity>(s@),
            Err(a) => collapse(tree.nodes@, n as int) == Err::<Seq<char>, Ambiguity>(a),
        },
    decreases n,
{
    let node = &tree.nodes[n];
    assert(node_wf(tree.nodes@, n as int));
    match node {
        YamlNode::Array(v) => {
            if v.len() == 0 {
                Err(Ambiguity::NoValue)
            } else if v.len() > 1 {
                Err(Ambiguity::MultipleElements)
            } else {
                collapse_node(tree, v[0])
            }
        },
        YamlNode::Hash(h) => {
            if h.len() == 0 {
                Err(Ambiguity::NoValue)
            } else if h.len() > 1 {
                Err(Ambiguity::MultipleKeys)
            } else {
                assert(h@[0].0 < n && h@[0].1 < n);
                collapse_node(tree, h[0].1)
            }
        },
        YamlNode::Null => Err(Ambiguity::NoValue),
        _ => Ok(scalar_string(node)),
    }
}

fn index_at(tree: &YamlTree, n: usize, seg: &Vec<char>) -> (r: Option<usize>)
    requires
        tree.wf(),
        n < tree.nodes@.len(),
    ensures
        match r {
            Some(m) => index_node(tree.nodes@, n as int, seg@) == Some(m as int) && m < n,
            None => index_node(tree.nodes@, n as int, seg@) is None,
        },
{
    assert(node_wf(tree.nodes@, n as int));
    match &tree.nodes[n] {
        YamlNode::Hash(h) => {
            let mut j: usize = 0;
            while j < h.len()
                invariant
                    tree.wf(),
                    n < tree.nodes@.len(),
                    tree.nodes@[n as int] == YamlNode::Hash(*h),
                    node_wf(tree.nodes@, n as int),
                    j <= h@.len(),
                    find_entry(tree.nodes@, h@, seg@, 0) == find_entry(tree.nodes@, h@, seg@, j as int),
                decreases h@.len() - j,
            {
                let (k, v) = h[j];
                assert(h@[j as int].0 < n && h@[j as int].1 < n);
                let hit = match &tree.nodes[k] {
                    YamlNode::Str(s) => {
                        let c = chars_of(s.as_str());
                        chars_equal(&c, seg)
                    },
                    _ => false,
                };
                if hit {
                    return Some(v);
                }
                j = j + 1;
            }
            None
        },
        _ => None,
    }
}

/// Resolves a dotted path from the root: each segment indexes a hash by a
/// string key, then the node reached collapses to one string.
pub fn resolve(tree: &YamlTree, path: &str) -> (r: Result<String, ResolveError>)
    requires
        tree.wf(),
    ensures
        match r {
            Ok(s) => resolve_spec(*tree, path@) == Ok::<Seq<char>, ResolveFailure>(s@),
            Err(e) => resolve_spec(*tree, path@) == Err::<Seq<char>, ResolveFailure>(e@),
        },
{
    let segs = split_path(path);
    let ghost p = split_dots(path@);
    let mut n = tree.root;
    let mut i: usize = 0;
    while i < segs.len()
        invariant
            tree.wf(),
            n < tree.nodes@.len(),
            i <= segs@.len(),
            p == split_dots(path@),
            segs@.len() == p.len(),
            forall|j: int| 0 <= j < segs@.len() ==> #[trigger] segs@[j]@ == p[j],
            walk(tree.nodes@, tree.root as int, p, 0) == walk(tree.nodes@, n as int, p, i as int),
        decreases segs@.len() - i,
    {
        match index_at(tree, n, &segs[i]) {
            None => {
                assert(segs@[i as int]@ == p[i as int]);
                let bad = string_from_chars(&segs[i]);
                return Err(ResolveError::BadValue(bad));
            },
            Some(m) => {
                n = m;
            },
        }
        i = i + 1;
    }
    match collapse_node(tree, n) {
        Ok(s) => Ok(s),
        Err(a) => Err(ResolveError::Ambiguous(a)),
    }
}

/// Builds one record from a key and the value resolved for it.
pub fn handle_result(key: String, value: String) -> (r: Record)
    ensures
        r@ == (key@, value@),
{
    Record { key, value }
}

/// Resolves every dotted key against the document, in order: a record of the
/// key and its value where it resolves, the reason where it does not.
pub fn resolve_keys(tree: &YamlTree, keys: &Vec<String>) -> (r: Vec<Result<Record, ResolveError>>)
    requires
        tree.wf(),
    ensures
        r@.len() == keys@.len(),
        forall|i: int|
            0 <= i < keys@.len() ==> match #[trigger] r@[i] {
                Ok(rec) => rec@.0 == keys@[i]@ && resolve_spec(*tree, keys@[i]@) == Ok::<
                    Seq<char>,
                    ResolveFailure,
                >(rec@.1),
                Err(e) => resolve_spec(*tree, keys@[i]@) == Err::<Seq<char>, ResolveFailure>(e@),
            },
{
    let mut out: Vec<Result<Record, ResolveError>> = Vec::new();
    let mut i: usize = 0;
    while i < keys.len()
        invariant
            tree.wf(),
            i <= keys@.len(),
            out@.len() == i,
            forall|j: int|
                0 <= j < i ==> match #[trigger] out@[j] {
                    Ok(rec) => rec@.0 == keys@[j]@ && resolve_spec(*tree, keys@[j]@) == Ok::<
                        Seq<char>,
                        ResolveFailure,
                    >(rec@.1),
                    Err(e) => resolve_spec(*tree, keys@[j]@) == Err::<Seq<char>, ResolveFailure>(e@),
                },
        decreases keys@.len() - i,
    {
        let key = &keys[i];
        match resolve(tree, key.as_str()) {
            Ok(v) => out.push(Ok(handle_result(key.clone(), v))),
            Err(e) => out.push(Err(e)),
        }
        i = i + 1;
    }
    out
}

/// Number of members of a collection node; 0 for a scalar.
pub open spec fn members_len(nodes: Seq<YamlNode>, n: int) -> int {
    if 0 <= n < nodes.len() {
        match nodes[n] {
            YamlNode::Array(v) => v@.len() as int,
            YamlNode::Hash(h) => h@.len() as int,
            _ => 0,
        }
    } else {
        0
    }
}

/// The text of a hash key as a path segment: scalars other than aliases;
/// `None` for keys that cannot name a segment (null, alias, collection).
pub open spec fn key_text(nodes: Seq<YamlNode>, k: int) -> Option<Seq<char>> {
    if 0 <= k < nodes.len() {
        match nodes[k] {
            YamlNode::Bool(_) | YamlNode::Int(_) | YamlNode::Real(_) | YamlNode::Str(_) => scalar_text(
                nodes[k],
            ),
            _ => None,
        }
    } else {
        None
    }
}

/// `prefix.key`, or `key` alone at the top of the document.
pub open spec fn join_path(prefix: Seq<char>, key: Seq<char>) -> Seq<char> {
    if prefix.len() == 0 {
        key
    } else {
        prefix + seq!['.'] + key
    }
}

/// The dotted paths of the leaves under node `n`, depth first, for the
/// members of `n` from the `j`-th on. Array members share their parent's
/// path; hash entries extend it by their key; a leaf under an empty path
/// gives nothing.
pub open spec fn leaf_paths(nodes: Seq<YamlNode>, n: int, j: int, prefix: Seq<char>) -> Seq<Seq<char>>
    decreases n, members_len(nodes, n) - j,
{
    if n < 0 || n >= nodes.len() {
        seq![]
    } else {
        match nodes[n] {
            YamlNode::Array(v) => if j < 0 || j >= v@.len() {
                seq![]
            } else if 0 <= v@[j] < n {
                leaf_paths(nodes, v@[j] as int, 0, prefix) + leaf_paths(nodes, n, j + 1, prefix)
            } else {
                leaf_paths(nodes, n, j + 1, prefix)
            },
            YamlNode::Hash(h) => if j < 0 || j >= h@.len() {
                seq![]
            } else if 0 <= h@[j].1 < n && key_text(nodes, h@[j].0 as int) is Some {
                leaf_paths(
                    nodes,
                    h@[j].1 as int,
                    0,
                    join_path(prefix, key_text(nodes, h@[j].0 as int)->Some_0),
                ) + leaf_paths(nodes, n, j + 1, prefix)
            } else {
                leaf_paths(nodes, n, j + 1, prefix)
            },
            _ => if prefix.len() > 0 {
                seq![prefix]
            } else {
                seq![]
            },
        }
    }
}

/// Appends `p` unless it equals the last element.
pub open spec fn push_distinct(acc: Seq<Seq<char>>, p: Seq<char>) -> Seq<Seq<char>> {
    if acc.len() > 0 && acc.last() == p {
        acc
    } else {
        acc.push(p)
    }
}

/// Appends the elements of `s` one by one, each unless it equals the last.
pub open spec fn push_all_distinct(acc: Seq<Seq<char>>, s: Seq<Seq<char>>) -> Seq<Seq<char>>
    decreases s.len(),
{
    if s.len() == 0 {
        acc
    } else {
        push_all_distinct(push_distinct(acc, s[0]), s.drop_first())
    }
}

/// Every leaf path of the document, with consecutive repeats removed.
pub open spec fn yaml_keys_spec(tree: YamlTree) -> Seq<Seq<char>> {
    push_all_distinct(seq![], leaf_paths(tree.nodes@, tree.root as int, 0, seq![]))
}

proof fn lemma_push_all_concat(acc: Seq<Seq<char>>, a: Seq<Seq<char>>, b: Seq<Seq<char>>)
    ensures
        push_all_distinct(acc, a + b) == push_all_distinct(push_all_distinct(acc, a), b),
    decreases a.len(),
{
    if a.len() == 0 {
        assert(a + b =~= b);
    } else {
        assert((a + b).drop_first() =~= a.drop_first() + b);
        assert((a + b)[0] == a[0]);
        lemma_push_all_concat(push_distinct(acc, a[0]), a.drop_first(), b);
    }
}

fn join_chars(prefix: &Vec<char>, key: &Vec<char>) -> (r: Vec<char>)
    ensures
        r@ == join_path(prefix@, key@),
{
    let mut out: Vec<char> = Vec::new();
    let mut i: usize = 0;
    while i < prefix.len()
        invariant
            i <= prefix@.len(),
            out@ == prefix@.subrange(0, i as int),
        decreases prefix@.len() - i,
    {
        out.push(prefix[i]);
        i = i + 1;
        assert(out@ =~= prefix@.subrange(0, i as int));
    }
    if prefix.len() > 0 {
        out.push('.');
    }
    let ghost base = out@;
    let mut k: usize = 0;
    while k < key.len()
        invariant
            k <= key@.len(),
            out@ == base + key@.subrange(0, k as int),
        decreases key@.len() - k,
    {
        out.push(key[k]);
        k = k + 1;
        assert(out@ =~= base + key@.subrange(0, k as int));
    }
    assert(key@.subrange(0, key@.len() as int) =~= key@);
    assert(prefix@.subrange(0, prefix@.len() as int) =~= prefix@);
    assert(out@ =~= join_path(prefix@, key@));
    out
}

fn key_chars(tree: &YamlTree, k: usize) -> (r: Option<Vec<char>>)
    requires
        k < tree.nodes@.len(),
    ensures
        match r {
            Some(c) => key_text(tree.nodes@, k as int) == Some(c@),
            None => key_text(tree.nodes@, k as int) is None,
        },
{
    match &tree.nodes[k] {
        YamlNode::Bool(b) => {
            let s = bool_string(*b);
            Some(chars_of(s.as_str()))
        },
        YamlNode::Int(i) => {
            let s = i64_text(*i);
            Some(chars_of(s.as_str()))
        },
        YamlNode::Real(s) => Some(chars_of(s.as_str())),
        YamlNode::Str(s) => Some(chars_of(s.as_str())),
        _ => None,
    }
}

/// Appends the leaf paths under node `n` to `list`, each unless it repeats
/// the last one.
fn lint_yaml_tree(tree: &YamlTree, n: usize, prefix: &Vec<char>, list: &mut Vec<String>)
    requires
        tree.wf(),
        n < tree.nodes@.len(),
    ensures
        strings_view(final(list)@) == push_all_distinct(
            strings_view(old(list)@),
            leaf_paths(tree.nodes@, n as int, 0, prefix@),
        ),
    decreases n,
{
    let ghost start = strings_view(list@);
    assert(node_wf(tree.nodes@, n as int));
    match &tree.nodes[n] {
        YamlNode::Array(v) => {
            let mut j: usize = 0;
            while j < v.len()
                invariant
                    tree.wf(),
                    n < tree.nodes@.len(),
                    tree.nodes@[n as int] == YamlNode::Array(*v),
                    node_wf(tree.nodes@, n as int),
                    j <= v@.len(),
                    push_all_distinct(start, leaf_paths(tree.nodes@, n as int, 0, prefix@))
                        == push_all_distinct(
                        strings_view(list@),
                        leaf_paths(tree.nodes@, n as int, j as int, prefix@),
                    ),
                decreases v@.len() - j,
            {
                let c = v[j];
                assert(c < n);
                proof {
                    lemma_push_all_concat(
                        strings_view(list@),
                        leaf_paths(tree.nodes@, c as int, 0, prefix@),
                        leaf_paths(tree.nodes@, n as int, j + 1, prefix@),
                    );
                }
                lint_yaml_tree(tree, c, prefix, list);
                j = j + 1;
            }
            assert(leaf_paths(tree.nodes@, n as int, j as int, prefix@) =~= seq![]);
        },
        YamlNode::Hash(h) => {
            let mut j: usize = 0;
            while j < h.len()
                invariant
                    tree.wf(),
                    n < tree.nodes@.len(),
                    tree.nodes@[n as int] == YamlNode::Hash(*h),
                    node_wf(tree.nodes@, n as int),
                    j <= h@.len(),
                    push_all_distinct(start, leaf_paths(tree.nodes@, n as int, 0, prefix@))
                        == push_all_distinct(
                        strings_view(list@),
                        leaf_paths(tree.nodes@, n as int, j as int, prefix@),
                    ),
                decreases h@.len() - j,
            {
                let (k, c) = h[j];
                assert(k < n && c < n);
                match key_chars(tree, k) {
                    Some(kc) => {
                        let path = join_chars(prefix, &kc);
                        proof {
                            lemma_push_all_concat(
                                strings_view(list@),
                                leaf_paths(tree.nodes@, c as int, 0, path@),
                                leaf_paths(tree.nodes@, n as int, j + 1, prefix@),
                            );
                        }
                        lint_yaml_tree(tree, c, &path, list);
                    },
                    None => {},
                }
                j = j + 1;
            }
            assert(leaf_paths(tree.nodes@, n as int, j as int, prefix@) =~= seq![]);
        },
        _ => {
            if prefix.len() > 0 {
                let p = string_from_chars(prefix);
                let ghost before = list@;
                let repeat = list.len() > 0 && list[list.len() - 1] == p;
                if !repeat {
                    list.push(p);
                }
                proof {
                    assert(strings_view(list@) =~= push_distinct(strings_view(before), prefix@));
                    assert(leaf_paths(tree.nodes@, n as int, 0, prefix@) =~= seq![prefix@]);
                    assert(seq![prefix@].drop_first() =~= seq![]);
                    let pd = push_distinct(strings_view(before), prefix@);
                    assert(push_all_distinct(pd, seq![]) == pd);
                    assert(push_all_distinct(strings_view(before), seq![prefix@]) == pd);
                }
            } else {
                assert(leaf_paths(tree.nodes@, n as int, 0, prefix@) =~= seq![]);
            }
        },
    }
}

/// The dotted path of every leaf of the document, depth first, with
/// consecutive repeats removed.
pub fn yaml_keys(tree: &YamlTree) -> (r: Vec<String>)
    requires
        tree.wf(),
    ensures
        strings_view(r@) == yaml_keys_spec(*tree),
{
    let mut list: Vec<String> = Vec::new();
    let prefix: Vec<char> = Vec::new();
    proof {
        assert(strings_view(list@) =~= seq![]);
        assert(prefix@ =~= seq![]);
    }
    lint_yaml_tree(tree, tree.root, &prefix, &mut list);
    list
}

} // verus!
