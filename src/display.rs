use vstd::prelude::*;

use crate::node::{lemma_forest_model_index, Node, NodeModel, NodeType};
use crate::parse::string_views;
use crate::tree::Tree;

verus! {

/// The decimal digits, in order.
pub open spec fn digits() -> Seq<char> {
    seq!['0', '1', '2', '3', '4', '5', '6', '7', '8', '9']
}

/// The decimal numeral of `n`, without leading zeros.
pub open spec fn decimal(n: nat) -> Seq<char>
    decreases n,
{
    if n < 10 {
        seq![digits()[n as int]]
    } else {
        decimal(n / 10).push(digits()[(n % 10) as int])
    }
}

/// Two spaces for each level of depth.
pub open spec fn indent(depth: nat) -> Seq<char>
    decreases depth,
{
    if depth == 0 {
        Seq::empty()
    } else {
        indent((depth - 1) as nat) + seq![' ', ' ']
    }
}

/// The lines that describe one node: kind and name, then for a directory the
/// number of children, then path and depth; each indented by the node's depth.
pub open spec fn node_lines(n: NodeModel) -> Seq<Seq<char>> {
    let ds = indent(n.depth);
    match n.kind {
        NodeType::File() => seq![
            ds + "File: "@ + n.name,
            ds + " Path: "@ + n.path,
            ds + " Depth: "@ + decimal(n.depth),
        ],
        NodeType::Directory() => seq![
            ds + "Directory: "@ + n.name,
            ds + " Children: "@ + decimal(n.children.len()),
            ds + " Path: "@ + n.path,
            ds + " Depth: "@ + decimal(n.depth),
        ],
    }
}

/// The lines of a subtree in pre-order; a file's children are not listed.
pub open spec fn render(n: NodeModel) -> Seq<Seq<char>>
    decreases n, 1nat,
{
    match n.kind {
        NodeType::File() => node_lines(n),
        NodeType::Directory() => node_lines(n) + render_forest(n.children),
    }
}

/// The lines of a list of subtrees, one after the other.
pub open spec fn render_forest(cs: Seq<NodeModel>) -> Seq<Seq<char>>
    decreases cs, 0nat,
{
    if cs.len() == 0 {
        Seq::empty()
    } else {
        render_forest(cs.subrange(0, cs.len() - 1)) + render(cs[cs.len() - 1])
    }
}

/// The lines of a tree; an empty tree says so.
pub open spec fn render_tree(t: Option<NodeModel>) -> Seq<Seq<char>> {
    match t {
        Some(r) => render(r),
        None => seq!["No root node."@],
    }
}

/// The decimal numeral of `n`.
fn decimal_string(n: u64) -> (r: String)
    ensures
        r@ == decimal(n as nat),
    decreases n,
{
    let table = "0123456789";
    proof {
        reveal_strlit("0123456789");
        assert(table@ =~= digits());
    }
    if n < 10 {
        let d = table.substring_char(n as usize, n as usize + 1);
        assert(d@ =~= seq![digits()[n as int]]);
        String::from_str(d)
    } else {
        let mut r = decimal_string(n / 10);
        let k = (n % 10) as usize;
        let d = table.substring_char(k, k + 1);
        assert(d@ =~= seq![digits()[k as int]]);
        r.append(d);
        r
    }
}

/// Two spaces for each level of `depth`.
fn indent_string(depth: u64) -> (r: String)
    ensures
        r@ == indent(depth as nat),
{
    let mut r = String::new();
    let mut k: u64 = 0;
    proof {
        reveal_strlit("  ");
    }
    while k < depth
        invariant
            k <= depth,
            r@ == indent(k as nat),
            "  "@ == seq![' ', ' '],
        decreases depth - k,
    {
        r.append("  ");
        k += 1;
    }
    r
}

/// Adds the line `ds`, `label`, `value` at the end of `out`.
fn push_line(out: &mut Vec<String>, ds: &String, label: &str, value: &str)
    ensures
        string_views(final(out)@) == string_views(old(out)@).push(ds@ + label@ + value@),
{
    let mut line = ds.clone();
    line.append(label);
    line.append(value);
    out.push(line);
    assert(string_views(out@) =~= string_views(old(out)@).push(ds@ + label@ + value@));
}

/// Appending the lines of a list, one subtree at a time.
proof fn lemma_render_forest_step(cs: Seq<NodeModel>, i: int)
    requires
        0 <= i < cs.len(),
    ensures
        render_forest(cs.take(i + 1)) == render_forest(cs.take(i)) + render(cs[i]),
{
    let t = cs.take(i + 1);
    assert(t.subrange(0, t.len() - 1) =~= cs.take(i));
}

fn render_into(node: &Node, out: &mut Vec<String>)
    ensures
        string_views(final(out)@) == string_views(old(out)@) + render(node@),
    decreases node,
{
    let ghost start = string_views(out@);
    let ds = indent_string(node.depth);
    let depth = decimal_string(node.depth);
    match node.node_type {
        NodeType::File() => {
            push_line(out, &ds, "File: ", node.name.as_str());
            push_line(out, &ds, " Path: ", node.path.as_str());
            push_line(out, &ds, " Depth: ", depth.as_str());
            assert(string_views(out@) =~= start + node_lines(node@));
        },
        NodeType::Directory() => {
            proof {
                lemma_forest_model_index(node.children@);
            }
            let count = decimal_string(node.children.len() as u64);
            push_line(out, &ds, "Directory: ", node.name.as_str());
            push_line(out, &ds, " Children: ", count.as_str());
            push_line(out, &ds, " Path: ", node.path.as_str());
            push_line(out, &ds, " Depth: ", depth.as_str());
            assert(string_views(out@) =~= start + node_lines(node@));
            let ghost cs = node@.children;
            let n = node.children.len();
            let mut i: usize = 0;
            assert(render_forest(cs.take(0)) =~= Seq::<Seq<char>>::empty());
            while i < n
                invariant
                    n == node.children@.len(),
                    n == cs.len(),
                    cs == node@.children,
                    i <= n,
                    forall|j: int| 0 <= j < n ==> #[trigger] cs[j] == node.children@[j]@,
                    string_views(out@) == start + node_lines(node@) + render_forest(cs.take(i as int)),
                decreases n - i,
            {
                proof {
                    broadcast use vstd::std_specs::vec::axiom_vec_index_decreases;
                    assert(decreases_to!(node => node.children));
                    lemma_render_forest_step(cs, i as int);
                }
                render_into(&node.children[i], out);
                i += 1;
            }
            assert(cs.take(n as int) =~= cs);
        },
    }
}

impl Node {
    /// The lines that describe the subtree, in pre-order.
    pub fn display_lines(&self) -> (r: Vec<String>)
        ensures
            string_views(r@) == render(self@),
    {
        let mut out: Vec<String> = Vec::new();
        assert(string_views(out@) =~= Seq::<Seq<char>>::empty());
        render_into(self, &mut out);
        assert(Seq::<Seq<char>>::empty() + render(self@) =~= render(self@));
        out
    }
}

impl Tree {
    /// The lines that describe the whole tree, in pre-order.
    pub fn display_lines(&self) -> (r: Vec<String>)
        ensures
            string_views(r@) == render_tree(self@),
    {
        match &self.root {
            Some(root) => root.display_lines(),
            None => {
                let mut out: Vec<String> = Vec::new();
                out.push(String::from_str("No root node."));
                assert(string_views(out@) =~= seq!["No root node."@]);
                out
            },
        }
    }
}

} // verus!
