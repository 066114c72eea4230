use config_parser::yaml_parser::{resolve, resolve_keys, yaml_keys, Ambiguity, ResolveError, YamlNode, YamlTree};

/// Builds a tree node by node; each call returns the new node's index.
struct Builder {
    nodes: Vec<YamlNode>,
}

impl Builder {
    fn new() -> Self {
        Builder { nodes: Vec::new() }
    }
    fn add(&mut self, n: YamlNode) -> usize {
        self.nodes.push(n);
        self.nodes.len() - 1
    }
    fn s(&mut self, t: &str) -> usize {
        self.add(YamlNode::Str(t.to_string()))
    }
    fn i(&mut self, v: i64) -> usize {
        self.add(YamlNode::Int(v))
    }
    fn hash(&mut self, entries: Vec<(&str, usize)>) -> usize {
        let mut h = Vec::new();
        for (k, v) in entries {
            let kn = self.s(k);
            h.push((kn, v));
        }
        self.add(YamlNode::Hash(h))
    }
    fn tree(self, root: usize) -> YamlTree {
        YamlTree { nodes: self.nodes, root }
    }
}

/// `root: {a: 1, b: 2}`
fn root_ab() -> YamlTree {
    let mut b = Builder::new();
    let one = b.i(1);
    let two = b.i(2);
    let inner = b.hash(vec![("a", one), ("b", two)]);
    let root = b.hash(vec![("root", inner)]);
    b.tree(root)
}

fn list_of(values: &[i64]) -> YamlTree {
    let mut b = Builder::new();
    let items: Vec<usize> = values.iter().map(|v| b.i(*v)).collect();
    let arr = b.add(YamlNode::Array(items));
    let root = b.hash(vec![("list", arr)]);
    b.tree(root)
}

#[test]
fn ambiguous_hash_path() {
    let t = root_ab();
    assert!(matches!(resolve(&t, "root"), Err(ResolveError::Ambiguous(Ambiguity::MultipleKeys))));
    assert_eq!(resolve(&t, "root.a").unwrap(), "1");
    assert_eq!(resolve(&t, "root.b").unwrap(), "2");
}

#[test]
fn single_element_array_collapses() {
    assert_eq!(resolve(&list_of(&[5]), "list").unwrap(), "5");
    assert!(matches!(
        resolve(&list_of(&[5, 6]), "list"),
        Err(ResolveError::Ambiguous(Ambiguity::MultipleElements))
    ));
    assert!(matches!(resolve(&list_of(&[]), "list"), Err(ResolveError::Ambiguous(Ambiguity::NoValue))));
}

#[test]
fn missing_segment_is_bad_value() {
    let t = root_ab();
    match resolve(&t, "root.c") {
        Err(ResolveError::BadValue(seg)) => assert_eq!(seg, "c"),
        other => panic!("unexpected {:?}", other),
    }
    match resolve(&t, "root.a.deeper") {
        Err(ResolveError::BadValue(seg)) => assert_eq!(seg, "deeper"),
        other => panic!("unexpected {:?}", other),
    }
}

#[test]
fn arrays_are_not_indexed_by_position() {
    match resolve(&list_of(&[5, 6]), "list.0") {
        Err(ResolveError::BadValue(seg)) => assert_eq!(seg, "0"),
        other => panic!("unexpected {:?}", other),
    }
}

#[test]
fn single_entry_hash_collapses_through_levels() {
    let mut b = Builder::new();
    let leaf = b.add(YamlNode::Real("2.50".to_string()));
    let arr = b.add(YamlNode::Array(vec![leaf]));
    let inner = b.hash(vec![("x", arr)]);
    let root = b.hash(vec![("top", inner)]);
    let t = b.tree(root);
    assert_eq!(resolve(&t, "top").unwrap(), "2.50");
}

#[test]
fn scalar_kinds_as_text() {
    let mut b = Builder::new();
    let t_ = b.add(YamlNode::Bool(true));
    let f_ = b.add(YamlNode::Bool(false));
    let n_ = b.i(-42);
    let a_ = b.add(YamlNode::Alias(7));
    let z_ = b.add(YamlNode::Null);
    let root = b.hash(vec![("t", t_), ("f", f_), ("n", n_), ("a", a_), ("z", z_)]);
    let t = b.tree(root);
    assert_eq!(resolve(&t, "t").unwrap(), "true");
    assert_eq!(resolve(&t, "f").unwrap(), "false");
    assert_eq!(resolve(&t, "n").unwrap(), "-42");
    assert_eq!(resolve(&t, "a").unwrap(), "7");
    assert!(matches!(resolve(&t, "z"), Err(ResolveError::Ambiguous(Ambiguity::NoValue))));
}

#[test]
fn resolve_keys_per_key() {
    let t = root_ab();
    let keys = vec!["root.a".to_string(), "root".to_string(), "nope".to_string()];
    let r = resolve_keys(&t, &keys);
    assert_eq!(r.len(), 3);
    let first = r[0].as_ref().unwrap();
    assert_eq!(first.key, "root.a");
    assert_eq!(first.value, "1");
    assert!(matches!(r[1], Err(ResolveError::Ambiguous(_))));
    assert!(matches!(r[2], Err(ResolveError::BadValue(_))));
}

#[test]
fn leaf_paths_of_nested_document() {
    // security: {auth: {id: a, secret: b}}, url: x, list: [1, {k: 2}], 3: y
    let mut b = Builder::new();
    let a = b.s("a");
    let s = b.s("b");
    let auth = b.hash(vec![("id", a), ("secret", s)]);
    let sec = b.hash(vec![("auth", auth)]);
    let x = b.s("x");
    let one = b.i(1);
    let two = b.i(2);
    let k = b.hash(vec![("k", two)]);
    let list = b.add(YamlNode::Array(vec![one, k]));
    let y = b.s("y");
    let three = b.i(3);
    let mut h = Vec::new();
    for (name, v) in [("security", sec), ("url", x), ("list", list)] {
        let kn = b.s(name);
        h.push((kn, v));
    }
    h.push((three, y));
    let root = b.add(YamlNode::Hash(h));
    let t = b.tree(root);
    assert_eq!(yaml_keys(&t), vec!["security.auth.id", "security.auth.secret", "url", "list", "list.k", "3"]);
}

#[test]
fn array_members_share_one_path() {
    assert_eq!(yaml_keys(&list_of(&[1, 2, 3])), vec!["list"]);
}

#[test]
fn repeats_only_removed_when_consecutive() {
    // a: [1], b: 2, a: [3] cannot occur in one hash, so use nested arrays:
    // top: [ {p: 1}, {q: 1}, {p: 2} ]
    let mut b = Builder::new();
    let v1 = b.i(1);
    let first_p = b.hash(vec![("p", v1)]);
    let v2 = b.i(1);
    let q = b.hash(vec![("q", v2)]);
    let v3 = b.i(2);
    let last_p = b.hash(vec![("p", v3)]);
    let arr = b.add(YamlNode::Array(vec![first_p, q, last_p]));
    let root = b.hash(vec![("top", arr)]);
    let t = b.tree(root);
    assert_eq!(yaml_keys(&t), vec!["top.p", "top.q", "top.p"]);
}

#[test]
fn scalar_document_has_no_paths() {
    let mut b = Builder::new();
    let root = b.s("just text");
    assert!(yaml_keys(&b.tree(root)).is_empty());
}

#[test]
fn null_and_collection_keys_skipped() {
    let mut b = Builder::new();
    let v = b.i(1);
    let nk = b.add(YamlNode::Null);
    let w = b.i(2);
    let ak = b.add(YamlNode::Array(vec![]));
    let u = b.i(3);
    let ok = b.s("ok");
    let root = b.add(YamlNode::Hash(vec![(nk, v), (ak, w), (ok, u)]));
    assert_eq!(yaml_keys(&b.tree(root)), vec!["ok"]);
}
