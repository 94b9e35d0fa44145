use vstd::prelude::*;

use crate::node::NodeModel;

verus! {

/// The index of the first element of `s` that satisfies `p`, or -1 where none does.
pub open spec fn first_index(s: Seq<NodeModel>, p: spec_fn(NodeModel) -> bool) -> int
    decreases s.len(),
{
    if s.len() == 0 {
        -1
    } else if p(s[0]) {
        0
    } else {
        let k = first_index(s.drop_first(), p);
        if k < 0 {
            -1
        } else {
            k + 1
        }
    }
}

/// The first element of `s` that satisfies `p`, if any.
pub open spec fn first_match(s: Seq<NodeModel>, p: spec_fn(NodeModel) -> bool) -> Option<NodeModel> {
    let k = first_index(s, p);
    if 0 <= k < s.len() {
        Some(s[k])
    } else {
        None
    }
}

/// The nodes of a subtree in pre-order: the node, then each child's subtree in list order.
pub open spec fn preorder(n: NodeModel) -> Seq<NodeModel>
    decreases n, 1nat,
{
    seq![n] + preorder_forest(n.children)
}

/// The pre-order listings of a list of subtrees, one after the other.
pub open spec fn preorder_forest(cs: Seq<NodeModel>) -> Seq<NodeModel>
    decreases cs, 0nat,
{
    if cs.len() == 0 {
        Seq::empty()
    } else {
        preorder_forest(cs.subrange(0, cs.len() - 1)) + preorder(cs[cs.len() - 1])
    }
}

/// `first_index` is the least index whose element satisfies `p`.
pub proof fn lemma_first_index(s: Seq<NodeModel>, p: spec_fn(NodeModel) -> bool)
    ensures
        -1 <= first_index(s, p) < s.len(),
        first_index(s, p) >= 0 ==> p(s[first_index(s, p)]),
        forall|j: int| 0 <= j < s.len() && (first_index(s, p) < 0 || j < first_index(s, p)) ==> !p(
            #[trigger] s[j],
        ),
    decreases s.len(),
{
    if s.len() > 0 && !p(s[0]) {
        lemma_first_index(s.drop_first(), p);
        assert forall|j: int|
            0 <= j < s.len() && (first_index(s, p) < 0 || j < first_index(s, p)) implies !p(
                #[trigger] s[j],
            ) by {
            if j > 0 {
                assert(s[j] == s.drop_first()[j - 1]);
            }
        }
    }
}

/// An index whose element satisfies `p`, with no earlier one that does, is `first_index`.
pub proof fn lemma_first_index_unique(s: Seq<NodeModel>, p: spec_fn(NodeModel) -> bool, i: int)
    requires
        -1 <= i < s.len(),
        i >= 0 ==> p(s[i]),
        forall|j: int| 0 <= j < s.len() && (i < 0 || j < i) ==> !p(#[trigger] s[j]),
    ensures
        first_index(s, p) == i,
{
    lemma_first_index(s, p);
    let k = first_index(s, p);
    if k >= 0 && i >= 0 && k < i {
        assert(!p(s[k]));
    }
    if k >= 0 && i >= 0 && i < k {
        assert(!p(s[i]));
    }
    if k >= 0 && i < 0 {
        assert(!p(s[k]));
    }
    if k < 0 && i >= 0 {
        assert(!p(s[i]));
    }
}

/// Searching two listings one after the other finds the first one's match if it has one.
pub proof fn lemma_first_match_concat(a: Seq<NodeModel>, b: Seq<NodeModel>, p: spec_fn(NodeModel) -> bool)
    ensures
        first_match(a + b, p) == (if first_match(a, p) is Some {
            first_match(a, p)
        } else {
            first_match(b, p)
        }),
{
    lemma_first_index(a, p);
    lemma_first_index(b, p);
    let ka = first_index(a, p);
    let kb = first_index(b, p);
    let s = a + b;
    if ka >= 0 {
        assert forall|j: int| 0 <= j < s.len() && j < ka implies !p(#[trigger] s[j]) by {
            assert(s[j] == a[j]);
        }
        lemma_first_index_unique(s, p, ka);
    } else if kb >= 0 {
        assert forall|j: int| 0 <= j < s.len() && j < a.len() + kb implies !p(#[trigger] s[j]) by {
            if j < a.len() {
                assert(s[j] == a[j]);
            } else {
                assert(s[j] == b[j - a.len()]);
            }
        }
        assert(s[a.len() + kb] == b[kb]);
        lemma_first_index_unique(s, p, a.len() + kb);
    } else {
        assert forall|j: int| 0 <= j < s.len() implies !p(#[trigger] s[j]) by {
            if j < a.len() {
                assert(s[j] == a[j]);
            } else {
                assert(s[j] == b[j - a.len()]);
            }
        }
        lemma_first_index_unique(s, p, -1);
    }
}

/// The listing of a concatenation of subtree lists is the concatenation of their listings.
pub proof fn lemma_preorder_forest_concat(a: Seq<NodeModel>, b: Seq<NodeModel>)
    ensures
        preorder_forest(a + b) == preorder_forest(a) + preorder_forest(b),
    decreases b.len(),
{
    if b.len() == 0 {
        assert(a + b =~= a);
        assert(preorder_forest(a) + preorder_forest(b) =~= preorder_forest(a));
    } else {
        let bl = b.subrange(0, b.len() - 1);
        lemma_preorder_forest_concat(a, bl);
        assert((a + b).subrange(0, (a + b).len() - 1) =~= a + bl);
        assert((a + b)[(a + b).len() - 1] == b[b.len() - 1]);
        assert(preorder_forest(a) + preorder_forest(bl) + preorder(b[b.len() - 1])
            =~= preorder_forest(a) + (preorder_forest(bl) + preorder(b[b.len() - 1])));
    }
}

/// The listing of a list of subtrees split around index `i`.
pub proof fn lemma_preorder_forest_split(cs: Seq<NodeModel>, i: int)
    requires
        0 <= i < cs.len(),
    ensures
        preorder_forest(cs) == preorder_forest(cs.take(i)) + preorder(cs[i]) + preorder_forest(
            cs.skip(i + 1),
        ),
        preorder_forest(cs.take(i + 1)) == preorder_forest(cs.take(i)) + preorder(cs[i]),
{
    let t = cs.take(i + 1);
    assert(t.subrange(0, t.len() - 1) =~= cs.take(i));
    assert(t[t.len() - 1] == cs[i]);
    assert(cs =~= cs.take(i + 1) + cs.skip(i + 1));
    lemma_preorder_forest_concat(cs.take(i + 1), cs.skip(i + 1));
}

} // verus!
