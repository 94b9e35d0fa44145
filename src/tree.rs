use vstd::prelude::*;

use crate::ancestry::{lemma_attach_well_formed, well_formed};
use crate::node::{forest_model, lemma_forest_model_index, root_model, Node, NodeModel, NodeType};
use crate::parse::{split_on_slash, split_slash, string_views};
use crate::search::{
    first_index, first_match, lemma_first_index, lemma_first_match_concat,
    lemma_preorder_forest_split, preorder, preorder_forest,
};

verus! {

/// A tree of paths, empty until the first insertion creates its root.
pub struct Tree {
    pub root: Option<Node>,
}

impl View for Tree {
    type V = Option<NodeModel>;

    open spec fn view(&self) -> Option<NodeModel> {
        match self.root {
            Some(r) => Some(r@),
            None => None,
        }
    }
}

/// The nodes of a tree in pre-order; none for an empty tree.
pub open spec fn tree_nodes(t: Option<NodeModel>) -> Seq<NodeModel> {
    match t {
        Some(r) => preorder(r),
        None => Seq::empty(),
    }
}

/// Holds of a node with the given name.
pub open spec fn named(name: Seq<char>) -> spec_fn(NodeModel) -> bool {
    |m: NodeModel| m.name == name
}

/// Holds of a node with the given path.
pub open spec fn at_path(path: Seq<char>) -> spec_fn(NodeModel) -> bool {
    |m: NodeModel| m.path == path
}

/// Holds of a node at the given depth.
pub open spec fn at_depth(depth: nat) -> spec_fn(NodeModel) -> bool {
    |m: NodeModel| m.depth == depth
}

/// The model of an optional node.
pub open spec fn option_model(r: Option<Node>) -> Option<NodeModel> {
    match r {
        Some(n) => Some(n@),
        None => None,
    }
}

/// `n` with `c` attached by descent: where `c` is one level below `n` it becomes
/// `n`'s last child; otherwise the descent goes on into the first child named as
/// the component of `c`'s path at index `n`'s depth. None where no such child exists.
pub open spec fn attach(n: NodeModel, c: NodeModel) -> Option<NodeModel>
    decreases n,
{
    if c.depth == n.depth + 1 {
        Some(NodeModel { children: n.children.push(c), ..n })
    } else {
        let parts = split_slash(c.path);
        if n.depth < parts.len() {
            let i = first_index(n.children, named(parts[n.depth as int]));
            if 0 <= i < n.children.len() {
                match attach(n.children[i], c) {
                    Some(m) => Some(NodeModel { children: n.children.update(i, m), ..n }),
                    None => None,
                }
            } else {
                None
            }
        } else {
            None
        }
    }
}

/// The tree after inserting `c`, and whether `c` was attached; a missing root is
/// created first, and a node that cannot be attached leaves the tree as it was.
pub open spec fn insert_outcome(t: Option<NodeModel>, c: NodeModel) -> (NodeModel, bool) {
    let r = match t {
        Some(r) => r,
        None => root_model(),
    };
    match attach(r, c) {
        Some(m) => (m, true),
        None => (r, false),
    }
}

/// What a search looks for.
enum Criterion {
    Name(String),
    Path(String),
    Depth(u64),
}

impl Criterion {
    spec fn pred(&self) -> spec_fn(NodeModel) -> bool {
        match self {
            Criterion::Name(s) => named(s@),
            Criterion::Path(p) => at_path(p@),
            Criterion::Depth(d) => at_depth(*d as nat),
        }
    }

    fn holds(&self, n: &Node) -> (r: bool)
        ensures
            r == (self.pred())(n@),
    {
        match self {
            Criterion::Name(s) => n.name == *s,
            Criterion::Path(p) => n.path == *p,
            Criterion::Depth(d) => n.depth == *d,
        }
    }
}

/// A node that does not match heads a listing whose match is the rest's.
proof fn lemma_first_match_skip_head(n: NodeModel, rest: Seq<NodeModel>, p: spec_fn(NodeModel) -> bool)
    requires
        !p(n),
    ensures
        first_match(seq![n] + rest, p) == first_match(rest, p),
{
    lemma_first_match_concat(seq![n], rest, p);
    assert(first_index(seq![n].drop_first(), p) == -1);
}

/// Where a node attaches, it keeps its kind, name, depth and path.
pub proof fn lemma_attach_keeps_fields(n: NodeModel, c: NodeModel)
    requires
        attach(n, c) is Some,
    ensures
        attach(n, c)->0.kind == n.kind,
        attach(n, c)->0.name == n.name,
        attach(n, c)->0.depth == n.depth,
        attach(n, c)->0.path == n.path,
{
}

/// Attaching a node twice: where the first insertion attached it, so does the second.
proof fn lemma_attach_again(n: NodeModel, c: NodeModel)
    requires
        attach(n, c) is Some,
    ensures
        attach(attach(n, c)->0, c) is Some,
    decreases n,
{
    if c.depth != n.depth + 1 {
        let parts = split_slash(c.path);
        let p = named(parts[n.depth as int]);
        let i = first_index(n.children, p);
        let ci = n.children[i];
        let m = attach(n, c)->0;
        lemma_attach_again(ci, c);
        lemma_attach_keeps_fields(ci, c);
        lemma_first_index(n.children, p);
        assert forall|j: int| 0 <= j < m.children.len() && j < i implies !p(#[trigger] m.children[j]) by {
            assert(m.children[j] == n.children[j]);
        }
        crate::search::lemma_first_index_unique(m.children, p, i);
    }
}

/// Where `c` attaches and no node of `n`'s subtree has `c`'s name, the first node
/// in pre-order with that name is `c`.
proof fn lemma_attach_found(n: NodeModel, c: NodeModel)
    requires
        attach(n, c) is Some,
        first_match(preorder(n), named(c.name)) is None,
    ensures
        first_match(preorder(attach(n, c)->0), named(c.name)) == Some(c),
    decreases n,
{
    let p = named(c.name);
    let m = attach(n, c)->0;
    lemma_first_match_concat(seq![n], preorder_forest(n.children), p);
    assert(first_index(seq![n], p) == 0 ==> p(n));
    lemma_first_index(seq![n], p);
    assert(seq![n][0] == n);
    lemma_first_match_skip_head(m, preorder_forest(m.children), p);
    assert(first_index(preorder(c), p) == 0);
    if c.depth == n.depth + 1 {
        let cs = m.children;
        assert(cs.subrange(0, cs.len() - 1) =~= n.children);
        lemma_first_match_concat(preorder_forest(n.children), preorder(c), p);
    } else {
        let parts = split_slash(c.path);
        let i = first_index(n.children, named(parts[n.depth as int]));
        let cs = n.children;
        let ms = m.children;
        lemma_preorder_forest_split(cs, i);
        lemma_preorder_forest_split(ms, i);
        assert(ms.take(i) =~= cs.take(i));
        assert(ms.skip(i + 1) =~= cs.skip(i + 1));
        let a = preorder_forest(cs.take(i));
        lemma_first_match_concat(a + preorder(cs[i]), preorder_forest(cs.skip(i + 1)), p);
        lemma_first_match_concat(a, preorder(cs[i]), p);
        lemma_attach_found(cs[i], c);
        lemma_first_match_concat(a + preorder(ms[i]), preorder_forest(ms.skip(i + 1)), p);
        lemma_first_match_concat(a, preorder(ms[i]), p);
    }
}

/// The root an insertion starts from: the tree's own, or a new one.
pub open spec fn start_root(t: Option<NodeModel>) -> NodeModel {
    match t {
        Some(r) => r,
        None => root_model(),
    }
}

/// Inserting a node that gets attached, under a name no node of the tree had
/// before, makes that node the one a search by its name finds, with its path.
pub proof fn lemma_inserted_node_found_by_name(t: Option<NodeModel>, c: NodeModel)
    requires
        insert_outcome(t, c).1,
        first_match(preorder(start_root(t)), named(c.name)) is None,
    ensures
        first_match(tree_nodes(Some(insert_outcome(t, c).0)), named(c.name)) == Some(c),
        first_match(tree_nodes(Some(insert_outcome(t, c).0)), named(c.name))->0.path == c.path,
{
    lemma_attach_found(start_root(t), c);
}

/// Attaching a node adds its whole subtree to the pre-order listing.
proof fn lemma_attach_count(n: NodeModel, c: NodeModel)
    requires
        attach(n, c) is Some,
    ensures
        preorder(attach(n, c)->0).len() == preorder(n).len() + preorder(c).len(),
    decreases n,
{
    let m = attach(n, c)->0;
    let cs = n.children;
    let ms = m.children;
    if c.depth == n.depth + 1 {
        assert(ms.subrange(0, ms.len() - 1) =~= cs);
    } else {
        let parts = split_slash(c.path);
        let i = first_index(cs, named(parts[n.depth as int]));
        lemma_preorder_forest_split(cs, i);
        lemma_preorder_forest_split(ms, i);
        assert(ms.take(i) =~= cs.take(i));
        assert(ms.skip(i + 1) =~= cs.skip(i + 1));
        lemma_attach_count(cs[i], c);
    }
}

/// Insertion does not merge equal paths: inserting again a node that was attached
/// attaches it once more, and the tree then holds both copies.
pub proof fn lemma_insert_twice_attaches_twice(t: Option<NodeModel>, c: NodeModel)
    requires
        insert_outcome(t, c).1,
    ensures
        insert_outcome(Some(insert_outcome(t, c).0), c).1,
        tree_nodes(Some(insert_outcome(Some(insert_outcome(t, c).0), c).0)).len() == preorder(
            start_root(t),
        ).len() + 2 * preorder(c).len(),
{
    let r = start_root(t);
    lemma_attach_again(r, c);
    lemma_attach_count(r, c);
    lemma_attach_count(attach(r, c)->0, c);
}

/// A tree is well formed when it is empty, or its root is a directory at depth 0
/// below which every node stands one level below its parent.
pub open spec fn tree_well_formed(t: Option<NodeModel>) -> bool {
    match t {
        Some(r) => r.depth == 0 && r.kind == NodeType::Directory() && well_formed(r),
        None => true,
    }
}

impl Tree {
    /// An empty tree.
    pub fn new() -> (t: Tree)
        ensures
            t@ is None,
            tree_well_formed(t@),
    {
        Tree { root: None }
    }

    /// Attaches `node` by descent from the root, creating the root first where
    /// the tree is empty; tells whether `node` was attached.
    pub fn insert(&mut self, node: Node) -> (attached: bool)
        ensures
            final(self)@ == Some(insert_outcome(old(self)@, node@).0),
            attached == insert_outcome(old(self)@, node@).1,
            tree_well_formed(old(self)@) && well_formed(node@) ==> tree_well_formed(final(self)@),
    {
        proof {
            assert(well_formed(root_model()));
            if attach(start_root(old(self)@), node@) is Some {
                lemma_attach_keeps_fields(start_root(old(self)@), node@);
                if tree_well_formed(old(self)@) && well_formed(node@) {
                    lemma_attach_well_formed(start_root(old(self)@), node@);
                }
            }
        }
        let mut root = match self.root.take() {
            Some(r) => r,
            None => Node::new_root(),
        };
        let attached = Tree::insert_recursive(&mut root, node);
        self.root = Some(root);
        attached
    }

    /// The first node in pre-order with the given name, copied out of the tree.
    pub fn find_by_name(&self, name: String) -> (r: Option<Node>)
        ensures
            option_model(r) == first_match(tree_nodes(self@), named(name@)),
    {
        self.find_first(&Criterion::Name(name))
    }

    /// The first node in pre-order with the given path, copied out of the tree.
    pub fn find_by_path(&self, path: String) -> (r: Option<Node>)
        ensures
            option_model(r) == first_match(tree_nodes(self@), at_path(path@)),
    {
        self.find_first(&Criterion::Path(path))
    }

    /// The first node in pre-order at the given depth, copied out of the tree.
    pub fn find_by_depth(&self, depth: u64) -> (r: Option<Node>)
        ensures
            option_model(r) == first_match(tree_nodes(self@), at_depth(depth as nat)),
    {
        self.find_first(&Criterion::Depth(depth))
    }

    /// The first node in pre-order that meets `key`.
    fn find_first(&self, key: &Criterion) -> (r: Option<Node>)
        ensures
            option_model(r) == first_match(tree_nodes(self@), key.pred()),
    {
        match &self.root {
            Some(root) => Tree::find_in(root, key),
            None => None,
        }
    }

    /// The first node of `node`'s subtree in pre-order that meets `key`.
    fn find_in(node: &Node, key: &Criterion) -> (r: Option<Node>)
        ensures
            option_model(r) == first_match(preorder(node@), key.pred()),
        decreases node,
    {
        let ghost p = key.pred();
        let ghost cs = node@.children;
        proof {
            lemma_forest_model_index(node.children@);
        }
        if key.holds(node) {
            assert(first_index(preorder(node@), p) == 0);
            return Some(node.clone());
        }
        proof {
            lemma_first_match_skip_head(node@, preorder_forest(cs), p);
            assert(cs.take(0) =~= Seq::<NodeModel>::empty());
        }
        let n = node.children.len();
        let mut i: usize = 0;
        while i < n
            invariant
                n == node.children@.len(),
                n == cs.len(),
                cs == node@.children,
                i <= n,
                p == key.pred(),
                forall|j: int| 0 <= j < n ==> #[trigger] cs[j] == node.children@[j]@,
                first_match(preorder(node@), p) == first_match(preorder_forest(cs), p),
                first_match(preorder_forest(cs.take(i as int)), p) is None,
            decreases n - i,
        {
            proof {
                broadcast use vstd::std_specs::vec::axiom_vec_index_decreases;
                assert(decreases_to!(node => node.children));
            }
            let found = Tree::find_in(&node.children[i], key);
            proof {
                lemma_preorder_forest_split(cs, i as int);
                lemma_first_match_concat(preorder_forest(cs.take(i as int)), preorder(cs[i as int]), p);
                lemma_first_match_concat(
                    preorder_forest(cs.take(i as int)) + preorder(cs[i as int]),
                    preorder_forest(cs.skip(i + 1)),
                    p,
                );
            }
            if found.is_some() {
                return found;
            }
            i += 1;
        }
        assert(cs.take(n as int) =~= cs);
        None
    }

    /// Attaches `child` below `node` by descent; tells whether it was attached.
    fn insert_recursive(node: &mut Node, child: Node) -> (attached: bool)
        ensures
            match attach(old(node)@, child@) {
                Some(m) => attached && final(node)@ == m,
                None => !attached && final(node)@ == old(node)@,
            },
        decreases old(node)@,
    {
        proof {
            lemma_forest_model_index(node.children@);
        }
        if child.depth > node.depth && child.depth - node.depth == 1 {
            let ghost before = node.children@;
            node.children.push(child);
            proof {
                assert(node.children@.subrange(0, node.children@.len() - 1) =~= before);
            }
            return true;
        }
        let parts = split_on_slash(child.path.as_str());
        if node.depth >= parts.len() as u64 {
            return false;
        }
        let key = &parts[node.depth as usize];
        let ghost p = named(key@);
        proof {
            assert(string_views(parts@)[node.depth as int] == key@);
        }
        let n = node.children.len();
        let mut i: usize = 0;
        while i < n
            invariant
                n == node.children@.len(),
                i <= n,
                node@ == old(node)@,
                node@.children.len() == n,
                p == named(key@),
                forall|j: int| 0 <= j < n ==> #[trigger] node@.children[j] == node.children@[j]@,
                forall|j: int| 0 <= j < i ==> !p(#[trigger] node@.children[j]),
            ensures
                i < n ==> p(node@.children[i as int]),
            decreases n - i,
        {
            if node.children[i].name == *key {
                break;
            }
            i += 1;
        }
        if i == n {
            proof {
                crate::search::lemma_first_index_unique(node@.children, p, -1);
            }
            return false;
        }
        proof {
            crate::search::lemma_first_index_unique(node@.children, p, i as int);
        }
        let ghost old_children = node.children@;
        let attached = Tree::insert_recursive(&mut node.children[i], child);
        proof {
            lemma_forest_model_index(node.children@);
            lemma_forest_model_index(old_children);
            if attached {
                assert(forest_model(node.children@) =~= forest_model(old_children).update(
                    i as int,
                    node.children@[i as int]@,
                ));
            } else {
                assert(forest_model(node.children@) =~= forest_model(old_children));
            }
        }
        attached
    }
}

} // verus!
