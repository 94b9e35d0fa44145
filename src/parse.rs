use vstd::prelude::*;

use crate::node::{Node, NodeData, NodeModel, NodeType};

verus! {

/// Why a line could not become a node.
#[derive(Clone, Copy, Debug, PartialEq, Eq, Structural)]
pub enum PathError {
    /// No component is left after trimming, or the last one is empty.
    MalformedPath,
}

/// `s` cut at every '/': "a/b" gives ["a", "b"], "" gives [""], "a/" gives ["a", ""].
pub open spec fn split_slash(s: Seq<char>) -> Seq<Seq<char>>
    decreases s.len(),
{
    if s.len() == 0 {
        seq![Seq::empty()]
    } else {
        let parts = split_slash(s.drop_last());
        if s.last() == '/' {
            parts.push(Seq::empty())
        } else {
            parts.update(parts.len() - 1, parts.last().push(s.last()))
        }
    }
}

/// The parts of a split line without one leading "." and one trailing empty part.
pub open spec fn trim_parts(parts: Seq<Seq<char>>) -> Seq<Seq<char>> {
    let a = if parts.len() > 0 && parts[0] == seq!['.'] {
        parts.drop_first()
    } else {
        parts
    };
    if a.len() > 0 && a.last().len() == 0 {
        a.drop_last()
    } else {
        a
    }
}

/// The components of a path line.
pub open spec fn components(line: Seq<char>) -> Seq<Seq<char>> {
    trim_parts(split_slash(line))
}

/// A line that can become a node: some component is left and the last one is not empty.
pub open spec fn is_valid_line(line: Seq<char>) -> bool {
    components(line).len() > 0 && components(line).last().len() > 0
}

/// Components joined with '/' between them.
pub open spec fn join_slash(parts: Seq<Seq<char>>) -> Seq<char>
    decreases parts.len(),
{
    if parts.len() == 0 {
        Seq::empty()
    } else if parts.len() == 1 {
        parts[0]
    } else {
        join_slash(parts.drop_last()) + seq!['/'] + parts.last()
    }
}

/// A name with a '.' in it is taken for a file, any other for a directory.
pub open spec fn kind_of(name: Seq<char>) -> NodeType {
    if name.contains('.') {
        NodeType::File()
    } else {
        NodeType::Directory()
    }
}

/// The node that a valid line stands for.
pub open spec fn line_model(line: Seq<char>) -> NodeModel {
    let comps = components(line);
    NodeModel {
        kind: kind_of(comps.last()),
        depth: comps.len(),
        path: join_slash(comps),
        name: comps.last(),
        original_path: line,
        original_length: line.len(),
        children: Seq::empty(),
    }
}

/// Splitting never yields fewer than one part, nor more than one per character and one.
pub proof fn lemma_split_len(s: Seq<char>)
    ensures
        1 <= split_slash(s).len() <= s.len() + 1,
    decreases s.len(),
{
    if s.len() > 0 {
        lemma_split_len(s.drop_last());
    }
}

/// The views of a list of strings.
pub open spec fn string_views(v: Seq<String>) -> Seq<Seq<char>> {
    v.map_values(|x: String| x@)
}

/// Cuts `s` at every '/'.
pub fn split_on_slash(s: &str) -> (r: Vec<String>)
    ensures
        string_views(r@) == split_slash(s@),
{
    let n = s.unicode_len();
    let mut parts: Vec<String> = Vec::new();
    let mut start: usize = 0;
    let mut i: usize = 0;
    proof {
        assert(s@.take(0) =~= Seq::<char>::empty());
        assert(string_views(parts@).push(s@.subrange(0, 0)) =~= seq![Seq::<char>::empty()]);
    }
    while i < n
        invariant
            n == s@.len(),
            start <= i <= n,
            split_slash(s@.take(i as int)) == string_views(parts@).push(s@.subrange(start as int, i as int)),
        decreases n - i,
    {
        let c = s.get_char(i);
        proof {
            let t = s@.take(i + 1);
            assert(t.drop_last() =~= s@.take(i as int));
            assert(t.last() == c);
        }
        if c == '/' {
            let part = String::from_str(s.substring_char(start, i));
            proof {
                assert(string_views(parts@.push(part)) =~= string_views(parts@).push(part@));
                assert(s@.subrange(i + 1, i + 1) =~= Seq::<char>::empty());
            }
            parts.push(part);
            start = i + 1;
        } else {
            proof {
                let prev = string_views(parts@).push(s@.subrange(start as int, i as int));
                assert(s@.subrange(start as int, i + 1) =~= s@.subrange(start as int, i as int).push(c));
                assert(prev.update(prev.len() - 1, prev.last().push(c)) =~= string_views(parts@).push(
                    s@.subrange(start as int, i + 1),
                ));
            }
        }
        i += 1;
    }
    let last = String::from_str(s.substring_char(start, n));
    proof {
        assert(s@.take(n as int) =~= s@);
        assert(string_views(parts@.push(last)) =~= string_views(parts@).push(last@));
    }
    parts.push(last);
    parts
}

/// Whether `s` holds the character `c`.
fn has_char(s: &str, c: char) -> (r: bool)
    ensures
        r == s@.contains(c),
{
    let n = s.unicode_len();
    let mut i: usize = 0;
    while i < n
        invariant
            n == s@.len(),
            i <= n,
            forall|j: int| 0 <= j < i ==> s@[j] != c,
        decreases n - i,
    {
        if s.get_char(i) == c {
            return true;
        }
        i += 1;
    }
    false
}

/// Joins the strings with '/' between them.
fn join_with_slash(parts: &Vec<String>) -> (r: String)
    ensures
        r@ == join_slash(string_views(parts@)),
{
    let mut r = String::new();
    let mut k: usize = 0;
    proof {
        reveal_strlit("/");
        assert(string_views(parts@).take(0) =~= Seq::<Seq<char>>::empty());
    }
    while k < parts.len()
        invariant
            k <= parts@.len(),
            r@ == join_slash(string_views(parts@).take(k as int)),
            "/"@ == seq!['/'],
        decreases parts@.len() - k,
    {
        let ghost v = string_views(parts@);
        proof {
            let t = v.take(k + 1);
            assert(t.drop_last() =~= v.take(k as int));
            assert(t.last() == parts@[k as int]@);
        }
        if k > 0 {
            r.append("/");
        }
        r.append(parts[k].as_str());
        k += 1;
    }
    proof {
        assert(string_views(parts@).take(parts@.len() as int) =~= string_views(parts@));
    }
    r
}

impl Node {
    /// The node for one path line: one leading "." component and one trailing
    /// empty component are dropped; the depth is the number of components left,
    /// the name the last of them and the path all of them joined with '/'.
    pub fn from_line(line: &str) -> (r: Result<Node, PathError>)
        ensures
            match r {
                Ok(n) => is_valid_line(line@) && n@ == line_model(line@),
                Err(e) => !is_valid_line(line@) && e == PathError::MalformedPath,
            },
    {
        let length = line.unicode_len();
        let mut parts = split_on_slash(line);
        let ghost split = string_views(parts@);
        proof {
            lemma_split_len(line@);
        }
        if parts.len() > 0 && parts[0].as_str().unicode_len() == 1 && parts[0].as_str().get_char(0) == '.' {
            proof {
                assert(parts@[0]@ =~= seq!['.']);
            }
            parts.remove(0);
            proof {
                assert(string_views(parts@) =~= split.drop_first());
            }
        } else {
            proof {
                if split.len() > 0 && split[0] == seq!['.'] {
                    assert(parts@[0]@.len() == 1);
                }
            }
        }
        let ghost trimmed_first = string_views(parts@);
        if parts.len() > 0 && parts[parts.len() - 1].as_str().unicode_len() == 0 {
            parts.pop();
            proof {
                assert(string_views(parts@) =~= trimmed_first.drop_last());
            }
        }
        assert(string_views(parts@) == components(line@));
        if parts.len() == 0 || parts[parts.len() - 1].as_str().unicode_len() == 0 {
            return Err(PathError::MalformedPath);
        }
        let depth = parts.len() as u64;
        let name = parts[parts.len() - 1].clone();
        let path = join_with_slash(&parts);
        let data = NodeData { default_path: String::from_str(line), length: length as u64 };
        if has_char(name.as_str(), '.') {
            Ok(Node::new_file(data, depth, path, name))
        } else {
            Ok(Node::new_directory(data, depth, path, name))
        }
    }
}

} // verus!

verus! {

/// Holds of a non-empty component.
pub open spec fn non_empty() -> spec_fn(Seq<char>) -> bool {
    |p: Seq<char>| p.len() > 0
}

/// A list all of whose elements are non-empty is its own non-empty part.
proof fn lemma_filter_non_empty_all(parts: Seq<Seq<char>>)
    requires
        forall|i: int| 0 <= i < parts.len() ==> #[trigger] parts[i].len() > 0,
    ensures
        parts.filter(non_empty()) == parts,
    decreases parts.len(),
{
    reveal(Seq::filter);
    if parts.len() > 0 {
        let rest = parts.drop_last();
        assert forall|i: int| 0 <= i < rest.len() implies #[trigger] rest[i].len() > 0 by {
            assert(rest[i] == parts[i]);
        }
        lemma_filter_non_empty_all(rest);
        assert(non_empty()(parts.last()));
        assert(parts.drop_last().push(parts.last()) =~= parts);
    }
}

/// The depth of the node for a valid line is the number of its non-empty
/// components, once one leading "." and one trailing empty component are dropped,
/// where no empty component stands between two slashes.
pub proof fn lemma_depth_counts_components(line: Seq<char>)
    requires
        is_valid_line(line),
        forall|i: int| 0 <= i < components(line).len() ==> #[trigger] components(line)[i].len() > 0,
    ensures
        line_model(line).depth == components(line).filter(non_empty()).len(),
{
    lemma_filter_non_empty_all(components(line));
}

} // verus!

verus! {

/// Cutting after a piece without '/' only lengthens the last part.
proof fn lemma_split_append(a: Seq<char>, w: Seq<char>)
    requires
        !w.contains('/'),
    ensures
        split_slash(a + w) == split_slash(a).update(
            split_slash(a).len() - 1,
            split_slash(a).last() + w,
        ),
    decreases w.len(),
{
    lemma_split_len(a);
    let pa = split_slash(a);
    if w.len() == 0 {
        assert(a + w =~= a);
        assert(pa.last() + w =~= pa.last());
        assert(pa.update(pa.len() - 1, pa.last()) =~= pa);
    } else {
        let w1 = w.drop_last();
        assert(!w1.contains('/')) by {
            if w1.contains('/') {
                let k = choose|k: int| 0 <= k < w1.len() && w1[k] == '/';
                assert(w[k] == '/');
            }
        }
        assert(w.last() != '/') by {
            assert(w[w.len() - 1] == w.last());
        }
        lemma_split_append(a, w1);
        assert((a + w).drop_last() =~= a + w1);
        assert((a + w).last() == w.last());
        let p1 = pa.update(pa.len() - 1, pa.last() + w1);
        assert(p1.last() == pa.last() + w1);
        assert((pa.last() + w1).push(w.last()) =~= pa.last() + w);
        assert(p1.update(p1.len() - 1, p1.last().push(w.last())) =~= pa.update(
            pa.len() - 1,
            pa.last() + w,
        ));
    }
}

/// No part of a split holds a '/'.
proof fn lemma_split_no_slash(s: Seq<char>)
    ensures
        forall|i: int| 0 <= i < split_slash(s).len() ==> !(#[trigger] split_slash(s)[i]).contains('/'),
    decreases s.len(),
{
    lemma_split_len(s);
    if s.len() > 0 {
        let p = split_slash(s.drop_last());
        lemma_split_no_slash(s.drop_last());
        lemma_split_len(s.drop_last());
        if s.last() != '/' {
            let l = p.last().push(s.last());
            assert(!l.contains('/')) by {
                if l.contains('/') {
                    let k = choose|k: int| 0 <= k < l.len() && l[k] == '/';
                    assert(p[p.len() - 1][k] == '/');
                }
            }
        }
        assert forall|i: int| 0 <= i < split_slash(s).len() implies !(#[trigger] split_slash(s)[i]).contains('/') by {
            if i < p.len() - 1 || (s.last() == '/' && i == p.len() - 1) {
                assert(split_slash(s)[i] == p[i]);
            } else if s.last() == '/' {
                assert(split_slash(s)[i] =~= Seq::<char>::empty());
            }
        }
    }
}

/// The components of a line hold no '/'.
pub proof fn lemma_components_no_slash(line: Seq<char>)
    ensures
        forall|i: int| 0 <= i < components(line).len() ==> !(#[trigger] components(line)[i]).contains('/'),
{
    let s = split_slash(line);
    lemma_split_no_slash(line);
    let a = if s.len() > 0 && s[0] == seq!['.'] { s.drop_first() } else { s };
    assert forall|i: int| 0 <= i < a.len() implies !(#[trigger] a[i]).contains('/') by {
        if s.len() > 0 && s[0] == seq!['.'] {
            assert(a[i] == s[i + 1]);
        }
    }
    assert forall|i: int| 0 <= i < components(line).len() implies !(#[trigger] components(line)[i]).contains('/') by {
        assert(components(line)[i] == a[i]);
    }
}

/// Splitting parts joined with '/' gives the parts back, where none holds a '/'.
pub proof fn lemma_split_join(ps: Seq<Seq<char>>)
    requires
        ps.len() >= 1,
        forall|i: int| 0 <= i < ps.len() ==> !(#[trigger] ps[i]).contains('/'),
    ensures
        split_slash(join_slash(ps)) == ps,
    decreases ps.len(),
{
    if ps.len() == 1 {
        lemma_split_append(Seq::empty(), ps[0]);
        assert(Seq::<char>::empty() + ps[0] =~= ps[0]);
        assert(split_slash(Seq::<char>::empty()).update(0, Seq::<char>::empty() + ps[0]) =~= ps);
    } else {
        let d = ps.drop_last();
        assert forall|i: int| 0 <= i < d.len() implies !(#[trigger] d[i]).contains('/') by {
            assert(d[i] == ps[i]);
        }
        lemma_split_join(d);
        let j = join_slash(d);
        assert(ps.last() == ps[ps.len() - 1]);
        lemma_split_append(j + seq!['/'], ps.last());
        assert((j + seq!['/']).drop_last() =~= j);
        let p = split_slash(j + seq!['/']);
        assert(p == d.push(Seq::empty()));
        assert(Seq::<char>::empty() + ps.last() =~= ps.last());
        assert(p.update(p.len() - 1, p.last() + ps.last()) =~= ps);
    }
}

/// The node for a valid line has the line's components as the parts of its path,
/// as many as its depth, the last being its name.
pub proof fn lemma_line_model_parts(line: Seq<char>)
    requires
        is_valid_line(line),
    ensures
        split_slash(line_model(line).path) == components(line),
        line_model(line).depth == components(line).len(),
        line_model(line).name == components(line).last(),
{
    lemma_components_no_slash(line);
    lemma_split_join(components(line));
}

} // verus!
