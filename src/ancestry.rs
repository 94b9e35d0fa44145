use vstd::prelude::*;

use crate::node::{root_model, NodeModel};
use crate::parse::{components, is_valid_line, lemma_line_model_parts, line_model, split_slash};
use crate::search::{first_index, first_match, lemma_first_index, lemma_first_index_unique, preorder};
use crate::tree::{
    attach, insert_outcome, lemma_attach_keeps_fields, lemma_inserted_node_found_by_name, named,
    start_root, tree_nodes,
};

verus! {

/// Every child stands one level below its parent, all the way down.
pub open spec fn well_formed(n: NodeModel) -> bool
    decreases n,
{
    forall|i: int|
        0 <= i < n.children.len() ==> #[trigger] n.children[i].depth == n.depth + 1 && well_formed(
            n.children[i],
        )
}

/// Descending from `n` into the first child named as the next component, the
/// components of `ps` below `n`'s depth are all met.
pub open spec fn reaches(n: NodeModel, ps: Seq<Seq<char>>) -> bool
    decreases n,
{
    if n.depth >= ps.len() {
        n.depth == ps.len()
    } else {
        let i = first_index(n.children, named(ps[n.depth as int]));
        0 <= i < n.children.len() && reaches(n.children[i], ps)
    }
}

/// Lists with the same names at each index have the same first index for any name.
proof fn lemma_first_named_same(a: Seq<NodeModel>, b: Seq<NodeModel>, key: Seq<char>)
    requires
        a.len() <= b.len(),
        forall|j: int| 0 <= j < a.len() ==> (#[trigger] a[j]).name == b[j].name,
        first_index(a, named(key)) >= 0 || a.len() == b.len(),
    ensures
        first_index(b, named(key)) == first_index(a, named(key)),
{
    let p = named(key);
    lemma_first_index(a, p);
    let i = first_index(a, p);
    if i >= 0 {
        assert(p(b[i]));
        assert forall|j: int| 0 <= j < b.len() && j < i implies !p(#[trigger] b[j]) by {
            assert(!p(a[j]));
        }
    } else {
        assert forall|j: int| 0 <= j < b.len() implies !p(#[trigger] b[j]) by {
            assert(!p(a[j]));
        }
    }
    lemma_first_index_unique(b, p, i);
}

/// Attaching keeps every node one level below its parent.
pub proof fn lemma_attach_well_formed(n: NodeModel, c: NodeModel)
    requires
        attach(n, c) is Some,
        well_formed(n),
        well_formed(c),
    ensures
        well_formed(attach(n, c)->0),
    decreases n,
{
    let m = attach(n, c)->0;
    if c.depth != n.depth + 1 {
        let parts = split_slash(c.path);
        let i = first_index(n.children, named(parts[n.depth as int]));
        lemma_attach_well_formed(n.children[i], c);
        lemma_attach_keeps_fields(n.children[i], c);
        assert forall|j: int| 0 <= j < m.children.len() implies #[trigger] m.children[j].depth == m.depth + 1
            && well_formed(m.children[j]) by {
            if j != i {
                assert(m.children[j] == n.children[j]);
            }
        }
    } else {
        assert forall|j: int| 0 <= j < m.children.len() implies #[trigger] m.children[j].depth == m.depth + 1
            && well_formed(m.children[j]) by {
            if j < n.children.len() {
                assert(m.children[j] == n.children[j]);
            }
        }
    }
}

/// Where the parts above `c` are reached, `c` attaches.
proof fn lemma_attach_when_parent_reached(n: NodeModel, c: NodeModel)
    requires
        well_formed(n),
        n.depth < c.depth,
        split_slash(c.path).len() == c.depth,
        reaches(n, split_slash(c.path).take(c.depth - 1)),
    ensures
        attach(n, c) is Some,
    decreases n,
{
    if c.depth != n.depth + 1 {
        let parts = split_slash(c.path);
        let ps = parts.take(c.depth - 1);
        assert(ps[n.depth as int] == parts[n.depth as int]);
        let i = first_index(n.children, named(parts[n.depth as int]));
        lemma_attach_when_parent_reached(n.children[i], c);
    }
}

/// Attaching a node keeps every descent that was possible before.
proof fn lemma_attach_keeps_reach(n: NodeModel, c: NodeModel, ps: Seq<Seq<char>>)
    requires
        attach(n, c) is Some,
        reaches(n, ps),
    ensures
        reaches(attach(n, c)->0, ps),
    decreases n,
{
    let m = attach(n, c)->0;
    if n.depth < ps.len() {
        let key = ps[n.depth as int];
        let i = first_index(n.children, named(key));
        if c.depth == n.depth + 1 {
            assert forall|j: int| 0 <= j < n.children.len() implies (#[trigger] n.children[j]).name
                == m.children[j].name by {
                assert(m.children[j] == n.children[j]);
            }
            lemma_first_named_same(n.children, m.children, key);
            assert(m.children[i] == n.children[i]);
        } else {
            let parts = split_slash(c.path);
            let k = first_index(n.children, named(parts[n.depth as int]));
            lemma_attach_keeps_fields(n.children[k], c);
            assert forall|j: int| 0 <= j < n.children.len() implies (#[trigger] n.children[j]).name
                == m.children[j].name by {
                if j != k {
                    assert(m.children[j] == n.children[j]);
                }
            }
            lemma_first_named_same(n.children, m.children, key);
            if i == k {
                lemma_attach_keeps_reach(n.children[k], c, ps);
            } else {
                assert(m.children[i] == n.children[i]);
            }
        }
    }
}

/// Where the parts above `c` are reached, after attaching `c` all its parts are.
proof fn lemma_attach_reaches_new(n: NodeModel, c: NodeModel)
    requires
        well_formed(n),
        n.depth < c.depth,
        split_slash(c.path).len() == c.depth,
        c.name == split_slash(c.path).last(),
        reaches(n, split_slash(c.path).take(c.depth - 1)),
    ensures
        attach(n, c) is Some,
        reaches(attach(n, c)->0, split_slash(c.path)),
    decreases n,
{
    lemma_attach_when_parent_reached(n, c);
    let parts = split_slash(c.path);
    let m = attach(n, c)->0;
    let q = named(parts[n.depth as int]);
    if c.depth == n.depth + 1 {
        let last = m.children.len() - 1;
        assert(m.children[last] == c);
        assert(q(m.children[last]));
        lemma_first_index(m.children, q);
        let i = first_index(m.children, q);
        if i != last {
            assert(m.children[i] == n.children[i]);
            assert(n.children[i].depth == n.depth + 1);
        }
        assert(m.children[i].depth == parts.len());
        assert(reaches(m.children[i], parts));
    } else {
        let ps = parts.take(c.depth - 1);
        assert(ps[n.depth as int] == parts[n.depth as int]);
        let i = first_index(n.children, q);
        lemma_attach_reaches_new(n.children[i], c);
        lemma_attach_keeps_fields(n.children[i], c);
        assert forall|j: int| 0 <= j < n.children.len() implies (#[trigger] n.children[j]).name
            == m.children[j].name by {
            if j != i {
                assert(m.children[j] == n.children[j]);
            }
        }
        lemma_first_named_same(n.children, m.children, parts[n.depth as int]);
        assert(reaches(m.children[i], parts));
    }
}

/// The nodes for a list of lines.
pub open spec fn line_models(lines: Seq<Seq<char>>) -> Seq<NodeModel> {
    lines.map_values(|l: Seq<char>| line_model(l))
}

/// The tree after inserting the nodes one after the other into an empty tree.
pub open spec fn build(cs: Seq<NodeModel>) -> Option<NodeModel>
    decreases cs.len(),
{
    if cs.len() == 0 {
        None
    } else {
        Some(insert_outcome(build(cs.drop_last()), cs.last()).0)
    }
}

/// Each line comes after every line whose components are a proper leading part of its own.
pub open spec fn ancestors_first(lines: Seq<Seq<char>>) -> bool {
    forall|k: int, j: int|
        0 <= k < lines.len() && 1 <= j < components(lines[k]).len() ==> exists|e: int|
            0 <= e < k && components(lines[e]) == #[trigger] components(lines[k]).take(j)
}

/// After inserting the first `n` lines, the tree is well formed, its root is at
/// depth 0, and the components of each of those lines are reached from its root.
proof fn lemma_build_reaches(lines: Seq<Seq<char>>, n: int)
    requires
        forall|k: int| 0 <= k < lines.len() ==> is_valid_line(#[trigger] lines[k]),
        ancestors_first(lines),
        0 <= n <= lines.len(),
    ensures
        well_formed(start_root(build(line_models(lines).take(n)))),
        start_root(build(line_models(lines).take(n))).depth == 0,
        forall|k: int| 0 <= k < n ==> reaches(start_root(build(line_models(lines).take(n))), #[trigger] components(lines[k])),
    decreases n,
{
    let cs = line_models(lines);
    if n > 0 {
        lemma_build_reaches(lines, n - 1);
        let t = start_root(build(cs.take(n - 1)));
        assert(cs.take(n).drop_last() =~= cs.take(n - 1));
        let c = cs[n - 1];
        assert(cs.take(n).last() == c);
        assert(c == line_model(lines[n - 1]));
        lemma_line_model_parts(lines[n - 1]);
        let ps = components(lines[n - 1]);
        if ps.len() >= 2 {
            let e = choose|e: int| 0 <= e < n - 1 && components(#[trigger] lines[e]) == components(lines[n - 1]).take(ps.len() - 1);
            assert(reaches(t, components(lines[e])));
        } else {
            assert(ps.take(0) =~= Seq::<Seq<char>>::empty());
        }
        lemma_attach_reaches_new(t, c);
        assert(insert_outcome(build(cs.take(n - 1)), c).0 == attach(t, c)->0);
        assert(well_formed(c));
        lemma_attach_well_formed(t, c);
        lemma_attach_keeps_fields(t, c);
        assert forall|k: int| 0 <= k < n implies reaches(start_root(build(cs.take(n))), #[trigger] components(lines[k])) by {
            if k < n - 1 {
                lemma_attach_keeps_reach(t, c, components(lines[k]));
            }
        }
    } else {
        assert(cs.take(0) =~= Seq::<NodeModel>::empty());
        assert(well_formed(root_model()));
    }
}

/// Where lines are inserted with every ancestor before its descendants, each of
/// them is attached; and a search by the last one's name, where no node had
/// that name before it came, finds its node, whose path is its components
/// joined with '/'.
pub proof fn lemma_ancestors_first_found_by_name(lines: Seq<Seq<char>>)
    requires
        lines.len() > 0,
        forall|k: int| 0 <= k < lines.len() ==> is_valid_line(#[trigger] lines[k]),
        ancestors_first(lines),
        first_match(
            preorder(start_root(build(line_models(lines).drop_last()))),
            named(line_model(lines.last()).name),
        ) is None,
    ensures
        forall|k: int| 0 <= k < lines.len() ==> #[trigger] insert_outcome(build(line_models(lines).take(k)), line_models(lines)[k]).1,
        first_match(tree_nodes(build(line_models(lines))), named(line_model(lines.last()).name))
            == Some(line_model(lines.last())),
{
    let cs = line_models(lines);
    assert forall|k: int| 0 <= k < lines.len() implies #[trigger] insert_outcome(build(cs.take(k)), cs[k]).1 by {
        lemma_build_reaches(lines, k);
        let t = start_root(build(cs.take(k)));
        let c = cs[k];
        lemma_line_model_parts(lines[k]);
        let ps = components(lines[k]);
        if ps.len() >= 2 {
            let e = choose|e: int| 0 <= e < k && components(#[trigger] lines[e]) == components(lines[k]).take(ps.len() - 1);
            assert(reaches(t, components(lines[e])));
        } else {
            assert(ps.take(0) =~= Seq::<Seq<char>>::empty());
        }
        lemma_attach_when_parent_reached(t, c);
    }
    let n = lines.len() - 1;
    assert(cs.take(n) =~= cs.drop_last());
    assert(cs =~= cs.take(n + 1));
    assert(insert_outcome(build(cs.take(n)), cs[n]).1);
    assert(cs.last() == line_model(lines.last()));
    lemma_inserted_node_found_by_name(build(cs.drop_last()), cs.last());
}

} // verus!
