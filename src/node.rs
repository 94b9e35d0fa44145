use vstd::prelude::*;

verus! {

/// Where a node came from: the line as it was given, and its length in characters.
#[derive(Clone, Debug)]
pub struct NodeData {
    pub default_path: String,
    pub length: u64,
}

/// Whether a node stands for a file or a directory.
#[derive(Clone, Copy, Debug, PartialEq, Eq, Structural)]
pub enum NodeType {
    File(),
    Directory(),
}

/// One vertex of the tree; it owns its children, kept in insertion order.
#[derive(Debug)]
pub struct Node {
    pub node_type: NodeType,
    pub data: NodeData,
    pub depth: u64,
    pub path: String,
    pub name: String,
    pub children: Vec<Node>,
}

/// The mathematical value of a node and of its whole subtree.
pub ghost struct NodeModel {
    pub kind: NodeType,
    pub depth: nat,
    pub path: Seq<char>,
    pub name: Seq<char>,
    pub original_path: Seq<char>,
    pub original_length: nat,
    pub children: Seq<NodeModel>,
}

/// The model of a node: its fields, with the children's models in order.
pub open spec fn node_model(n: Node) -> NodeModel
    decreases n, 1nat,
{
    NodeModel {
        kind: n.node_type,
        depth: n.depth as nat,
        path: n.path@,
        name: n.name@,
        original_path: n.data.default_path@,
        original_length: n.data.length as nat,
        children: forest_model(n.children@),
    }
}

/// The models of a list of nodes, in the same order.
pub open spec fn forest_model(cs: Seq<Node>) -> Seq<NodeModel>
    decreases cs, 0nat,
{
    if cs.len() == 0 {
        Seq::empty()
    } else {
        forest_model(cs.subrange(0, cs.len() - 1)).push(node_model(cs[cs.len() - 1]))
    }
}

impl View for Node {
    type V = NodeModel;

    open spec fn view(&self) -> NodeModel {
        node_model(*self)
    }
}

/// The synthetic node every non-empty tree starts from.
pub open spec fn root_model() -> NodeModel {
    NodeModel {
        kind: NodeType::Directory(),
        depth: 0,
        path: "/"@,
        name: "root"@,
        original_path: "/"@,
        original_length: 1,
        children: Seq::empty(),
    }
}

/// A node without children, with the given fields.
pub open spec fn leaf_model(
    kind: NodeType,
    data: NodeData,
    depth: u64,
    path: Seq<char>,
    name: Seq<char>,
) -> NodeModel {
    NodeModel {
        kind,
        depth: depth as nat,
        path,
        name,
        original_path: data.default_path@,
        original_length: data.length as nat,
        children: Seq::empty(),
    }
}

/// The models of a list of nodes keep its length and hold each node's model at its index.
pub proof fn lemma_forest_model_index(cs: Seq<Node>)
    ensures
        forest_model(cs).len() == cs.len(),
        forall|i: int| 0 <= i < cs.len() ==> #[trigger] forest_model(cs)[i] == node_model(cs[i]),
    decreases cs.len(),
{
    if cs.len() > 0 {
        lemma_forest_model_index(cs.subrange(0, cs.len() - 1));
    }
}

/// Lists of nodes with the same model at each index have the same models.
pub proof fn lemma_forest_model_pointwise(a: Seq<Node>, b: Seq<Node>)
    requires
        a.len() == b.len(),
        forall|i: int| 0 <= i < a.len() ==> node_model(#[trigger] a[i]) == node_model(b[i]),
    ensures
        forest_model(a) == forest_model(b),
{
    lemma_forest_model_index(a);
    lemma_forest_model_index(b);
    assert(forest_model(a) =~= forest_model(b));
}

impl Node {
    /// The root directory: depth 0, path "/", name "root", no children.
    pub fn new_root() -> (r: Node)
        ensures
            r@ == root_model(),
    {
        let r = Node {
            node_type: NodeType::Directory(),
            data: NodeData { default_path: String::from_str("/"), length: 1 },
            depth: 0,
            path: String::from_str("/"),
            name: String::from_str("root"),
            children: Vec::new(),
        };
        assert(forest_model(r.children@) =~= Seq::<NodeModel>::empty());
        r
    }

    /// A file node with the given fields and no children.
    pub fn new_file(data: NodeData, depth: u64, path: String, name: String) -> (r: Node)
        ensures
            r@ == leaf_model(NodeType::File(), data, depth, path@, name@),
    {
        Node { node_type: NodeType::File(), data, depth, path, name, children: Vec::new() }
    }

    /// A directory node with the given fields and no children.
    pub fn new_directory(data: NodeData, depth: u64, path: String, name: String) -> (r: Node)
        ensures
            r@ == leaf_model(NodeType::Directory(), data, depth, path@, name@),
    {
        Node { node_type: NodeType::Directory(), data, depth, path, name, children: Vec::new() }
    }

    /// The node's distance from the root.
    pub fn depth(&self) -> (r: u64)
        ensures
            r == self.depth,
            r as nat == self@.depth,
    {
        self.depth
    }

    /// A copy of the node's name.
    pub fn name(&self) -> (r: String)
        ensures
            r@ == self@.name,
    {
        self.name.clone()
    }

    /// A copy of the node's path.
    pub fn path(&self) -> (r: String)
        ensures
            r@ == self@.path,
    {
        self.path.clone()
    }
}

impl Clone for Node {
    /// A deep copy: the same fields and a copy of every child, in order.
    fn clone(&self) -> (r: Node)
        ensures
            r@ == self@,
        decreases self,
    {
        let mut children: Vec<Node> = Vec::new();
        let n = self.children.len();
        let mut i: usize = 0;
        while i < n
            invariant
                n == self.children@.len(),
                i <= n,
                children@.len() == i,
                forall|j: int| 0 <= j < i ==> node_model(#[trigger] children@[j]) == node_model(self.children@[j]),
            decreases n - i,
        {
            proof {
                broadcast use vstd::std_specs::vec::axiom_vec_index_decreases;
                assert(decreases_to!(self => self.children));
            }
            let c = self.children[i].clone();
            children.push(c);
            i += 1;
        }
        proof {
            lemma_forest_model_pointwise(children@, self.children@);
        }
        Node {
            node_type: self.node_type,
            data: NodeData {
                default_path: self.data.default_path.clone(),
                length: self.data.length,
            },
            depth: self.depth,
            path: self.path.clone(),
            name: self.name.clone(),
            children,
        }
    }
}

} // verus!
