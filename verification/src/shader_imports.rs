use crate::text::{str_eq, str_lt};
use std::fmt::Error;
use vstd::prelude::*;

verus! {

/// The mathematical value of an import tree node: whether a path ends here, and the sub-paths
/// by their first segment, in the order in which they are kept.
pub struct ImportNodeView {
    pub terminal: bool,
    pub children: Seq<(Seq<char>, ImportNodeView)>,
}

/// A node of the tree of import paths.
#[derive(Debug)]
pub struct ImportTreeNode {
    /// A terminal node is the end of a path. Note that a node can be both terminal and also
    /// have children if it was imported multiple times.
    pub terminal: bool,
    /// The sub-paths of this node, by their first segment, in ascending order of segment.
    pub children: Vec<(&'static str, ImportTreeNode)>,
}

/// Struct that manages de-duping of import depdenencies. Its tree is only ever built by
/// adding paths, so it is always well-formed.
#[derive(Debug)]
pub struct ShaderImports(ImportTreeNode);

/// The values of a sequence of children.
pub open spec fn children_view(s: Seq<(&'static str, ImportTreeNode)>) -> Seq<(Seq<char>, ImportNodeView)>
    decreases s,
{
    if s.len() == 0 {
        Seq::empty()
    } else {
        children_view(s.drop_last()).push((s.last().0@, s.last().1.deep_view_of()))
    }
}

impl ImportTreeNode {
    /// The mathematical value of the node.
    pub open spec fn deep_view_of(self) -> ImportNodeView
        decreases self,
    {
        ImportNodeView { terminal: self.terminal, children: children_view(self.children@) }
    }
}

impl View for ImportTreeNode {
    type V = ImportNodeView;

    open spec fn view(&self) -> ImportNodeView {
        self.deep_view_of()
    }
}

impl View for ShaderImports {
    type V = ImportNodeView;

    closed spec fn view(&self) -> ImportNodeView {
        self.0.deep_view_of()
    }
}

impl ShaderImports {
    /// The tree is well-formed.
    #[verifier::type_invariant]
    spec fn tree_wf(self) -> bool {
        self.0.deep_view_of().wf()
    }
}

/// The values of children, element by element.
proof fn lemma_children_view(s: Seq<(&'static str, ImportTreeNode)>)
    ensures
        children_view(s).len() == s.len(),
        forall|i: int|
            0 <= i < s.len() ==> #[trigger] children_view(s)[i] == (s[i].0@, s[i].1.deep_view_of()),
    decreases s.len(),
{
    if s.len() > 0 {
        lemma_children_view(s.drop_last());
        assert forall|i: int| 0 <= i < s.len() implies #[trigger] children_view(s)[i] == (
        s[i].0@,
        s[i].1.deep_view_of(),
        ) by {
            if i < s.len() - 1 {
                assert(s.drop_last()[i] == s[i]);
            }
        }
    }
}

/// The first segments of the children are in strictly ascending order.
pub open spec fn keys_sorted(s: Seq<(Seq<char>, ImportNodeView)>) -> bool {
    forall|i: int, j: int|
        0 <= i < j < s.len() ==> crate::text::text_lt(#[trigger] s[i].0, #[trigger] s[j].0)
}

/// Every child of the sequence is well-formed.
pub open spec fn all_wf(s: Seq<(Seq<char>, ImportNodeView)>) -> bool
    decreases s,
{
    if s.len() == 0 {
        true
    } else {
        all_wf(s.drop_last()) && s.last().1.wf()
    }
}

impl ImportNodeView {
    /// Throughout the tree, the children of each node are in strictly ascending order of their
    /// first segment, so that no segment occurs twice among siblings.
    pub open spec fn wf(self) -> bool
        decreases self,
    {
        keys_sorted(self.children) && all_wf(self.children)
    }
}

/// `all_wf` holds of a sequence exactly when each element is well-formed.
proof fn lemma_all_wf(s: Seq<(Seq<char>, ImportNodeView)>)
    ensures
        all_wf(s) <==> forall|i: int| 0 <= i < s.len() ==> #[trigger] s[i].1.wf(),
    decreases s.len(),
{
    if s.len() > 0 {
        lemma_all_wf(s.drop_last());
        if all_wf(s) {
            assert forall|i: int| 0 <= i < s.len() implies #[trigger] s[i].1.wf() by {
                if i < s.len() - 1 {
                    assert(s.drop_last()[i] == s[i]);
                    assert(s.drop_last()[i].1.wf());
                } else {
                    assert(s.last() == s[i]);
                }
            }
        }
        if forall|i: int| 0 <= i < s.len() ==> #[trigger] s[i].1.wf() {
            assert forall|i: int| 0 <= i < s.len() - 1 implies #[trigger] s.drop_last()[i].1.wf() by {
                assert(s.drop_last()[i] == s[i]);
                assert(s[i].1.wf());
            }
            assert(s[s.len() - 1].1.wf());
        }
    }
}

/// The node with no path ending at it and no children.
pub open spec fn empty_node() -> ImportNodeView {
    ImportNodeView { terminal: false, children: Seq::empty() }
}

/// The number of leading children whose first segment comes before `k`: where a child for
/// `k` is, or would be inserted.
pub open spec fn lower_bound(s: Seq<(Seq<char>, ImportNodeView)>, k: Seq<char>) -> nat
    decreases s.len(),
{
    if s.len() == 0 {
        0
    } else if crate::text::text_lt(s[0].0, k) {
        1 + lower_bound(s.drop_first(), k)
    } else {
        0
    }
}

/// The tree with the path `p` added: each of its segments becomes a node below the previous
/// one, and the last one is marked as the end of a path.
pub open spec fn insert_path(n: ImportNodeView, p: Seq<Seq<char>>) -> ImportNodeView
    decreases p.len(),
{
    if p.len() == 0 {
        ImportNodeView { terminal: true, children: n.children }
    } else {
        let k = p[0];
        let i = lower_bound(n.children, k) as int;
        if i < n.children.len() && n.children[i].0 == k {
            ImportNodeView {
                terminal: n.terminal,
                children: n.children.update(i, (k, insert_path(n.children[i].1, p.drop_first()))),
            }
        } else {
            ImportNodeView {
                terminal: n.terminal,
                children: n.children.insert(i, (k, insert_path(empty_node(), p.drop_first()))),
            }
        }
    }
}

/// The text of the children of a node, each as its first segment followed by its own text,
/// separated by commas; `lead` tells whether a separator comes before the first one too.
pub open spec fn children_text(s: Seq<(Seq<char>, ImportNodeView)>, lead: bool) -> Seq<char>
    decreases s,
{
    if s.len() == 0 {
        Seq::empty()
    } else {
        children_text(s.drop_last(), lead) + (if s.len() > 1 || lead {
            seq![',', ' ']
        } else {
            Seq::empty()
        }) + s.last().0 + s.last().1.text()
    }
}

impl ImportNodeView {
    /// The text that follows the segment of this node in an import statement: nothing for a
    /// leaf; `::` and the single child where exactly one sub-path continues and none ends here;
    /// else `::{..}` listing `self` (where a path ends here) and the children.
    pub open spec fn text(self) -> Seq<char>
        decreases self,
    {
        if self.children.len() == 0 {
            Seq::empty()
        } else if self.children.len() == 1 && !self.terminal {
            seq![':', ':'] + self.children[0].0 + self.children[0].1.text()
        } else {
            seq![':', ':', '{'] + (if self.terminal {
                seq!['s', 'e', 'l', 'f']
            } else {
                Seq::empty()
            }) + children_text(self.children, self.terminal) + seq!['}']
        }
    }
}

/// The import statements for the top-level children, one per line.
pub open spec fn imports_text(s: Seq<(Seq<char>, ImportNodeView)>) -> Seq<char>
    decreases s,
{
    if s.len() == 0 {
        Seq::empty()
    } else {
        imports_text(s.drop_last()) + "#import "@ + s.last().0 + s.last().1.text() + seq![';', '\n']
    }
}

/// The segments of a path separated by `::`, matched from left to right.
pub open spec fn split_colons(s: Seq<char>) -> Seq<Seq<char>>
    decreases s.len(),
{
    if s.len() < 2 {
        seq![s]
    } else if s[0] == ':' && s[1] == ':' {
        seq![Seq::<char>::empty()] + split_colons(s.skip(2))
    } else {
        let r = split_colons(s.drop_first());
        r.update(0, seq![s[0]] + r[0])
    }
}


/// The texts of a sequence of segments.
pub open spec fn segments_view(p: Seq<&'static str>) -> Seq<Seq<char>> {
    Seq::new(p.len(), |i: int| p[i]@)
}

/// Properties of the insertion position: every child before it comes before `k`, and the
/// child at it, if any, does not.
proof fn lemma_lower_bound(s: Seq<(Seq<char>, ImportNodeView)>, k: Seq<char>)
    ensures
        lower_bound(s, k) <= s.len(),
        forall|m: int| 0 <= m < lower_bound(s, k) ==> crate::text::text_lt(#[trigger] s[m].0, k),
        lower_bound(s, k) < s.len() ==> !crate::text::text_lt(s[lower_bound(s, k) as int].0, k),
    decreases s.len(),
{
    if s.len() > 0 && crate::text::text_lt(s[0].0, k) {
        lemma_lower_bound(s.drop_first(), k);
        assert forall|m: int| 0 <= m < lower_bound(s, k) implies crate::text::text_lt(
            #[trigger] s[m].0,
            k,
        ) by {
            if m > 0 {
                assert(s[m] == s.drop_first()[m - 1]);
            }
        }
    }
}

/// The insertion position is the index before which exactly the children that come before
/// `k` stand.
proof fn lemma_lower_bound_at(s: Seq<(Seq<char>, ImportNodeView)>, k: Seq<char>, i: int)
    requires
        0 <= i <= s.len(),
        forall|m: int| 0 <= m < i ==> crate::text::text_lt(#[trigger] s[m].0, k),
        i < s.len() ==> !crate::text::text_lt(s[i].0, k),
    ensures
        lower_bound(s, k) == i,
    decreases i,
{
    if i > 0 {
        assert(crate::text::text_lt(s[0].0, k));
        assert forall|m: int| 0 <= m < i - 1 implies crate::text::text_lt(
            #[trigger] s.drop_first()[m].0,
            k,
        ) by {
            assert(s.drop_first()[m] == s[m + 1]);
        }
        if i < s.len() {
            assert(s.drop_first()[i - 1] == s[i]);
        }
        lemma_lower_bound_at(s.drop_first(), k, i - 1);
    }
}

/// Adding a path that is already there changes nothing: adding a path twice gives the same
/// tree as adding it once, so each import is kept once however often it is added.
pub proof fn lemma_insert_path_twice(n: ImportNodeView, p: Seq<Seq<char>>)
    requires
        n.wf(),
    ensures
        insert_path(insert_path(n, p), p) == insert_path(n, p),
    decreases p.len(),
{
    if p.len() > 0 {
        let k = p[0];
        let s = n.children;
        let i = lower_bound(s, k) as int;
        lemma_lower_bound(s, k);
        lemma_all_wf(s);
        let n1 = insert_path(n, p);
        let t = n1.children;
        if i < s.len() && s[i].0 == k {
            lemma_insert_path_twice(s[i].1, p.drop_first());
            crate::text::lemma_text_lt_trichotomy(k, k);
            lemma_lower_bound_at(t, k, i);
            assert(t.update(i, (k, insert_path(t[i].1, p.drop_first()))) =~= t);
        } else {
            assert(keys_sorted(empty_node().children));
            lemma_insert_path_twice(empty_node(), p.drop_first());
            crate::text::lemma_text_lt_trichotomy(k, k);
            assert forall|m: int| 0 <= m < i implies crate::text::text_lt(#[trigger] t[m].0, k) by {
                assert(t[m] == s[m]);
            }
            lemma_lower_bound_at(t, k, i);
            assert(t.update(i, (k, insert_path(t[i].1, p.drop_first()))) =~= t);
        }
    }
}

/// Adding a path keeps the tree well-formed.
pub proof fn lemma_insert_path_wf(n: ImportNodeView, p: Seq<Seq<char>>)
    requires
        n.wf(),
    ensures
        insert_path(n, p).wf(),
    decreases p.len(),
{
    if p.len() > 0 {
        let k = p[0];
        let s = n.children;
        let i = lower_bound(s, k) as int;
        lemma_lower_bound(s, k);
        lemma_all_wf(s);
        if i < s.len() && s[i].0 == k {
            lemma_insert_path_wf(s[i].1, p.drop_first());
            let t = s.update(i, (k, insert_path(s[i].1, p.drop_first())));
            assert forall|a: int, b: int| 0 <= a < b < t.len() implies crate::text::text_lt(
                #[trigger] t[a].0,
                #[trigger] t[b].0,
            ) by {
                assert(crate::text::text_lt(s[a].0, s[b].0));
            }
            assert forall|j: int| 0 <= j < t.len() implies #[trigger] t[j].1.wf() by {
                if j != i {
                    assert(s[j].1.wf());
                }
            }
            lemma_all_wf(t);
        } else {
            assert(empty_node().wf()) by {
                assert(keys_sorted(empty_node().children));
            }
            lemma_insert_path_wf(empty_node(), p.drop_first());
            let t = s.insert(i, (k, insert_path(empty_node(), p.drop_first())));
            if i < s.len() {
                crate::text::lemma_text_lt_trichotomy(k, s[i].0);
            }
            assert forall|a: int, b: int| 0 <= a < b < t.len() implies crate::text::text_lt(
                #[trigger] t[a].0,
                #[trigger] t[b].0,
            ) by {
                if b < i {
                    assert(crate::text::text_lt(s[a].0, s[b].0));
                } else if b == i {
                    assert(crate::text::text_lt(s[a].0, k));
                } else if a == i {
                    if b - 1 > i {
                        assert(crate::text::text_lt(s[i].0, s[b - 1].0));
                        crate::text::lemma_text_lt_transitive(k, s[i].0, s[b - 1].0);
                    }
                } else if a < i {
                    assert(crate::text::text_lt(s[a].0, s[b - 1].0));
                } else {
                    assert(crate::text::text_lt(s[a - 1].0, s[b - 1].0));
                }
            }
            assert forall|j: int| 0 <= j < t.len() implies #[trigger] t[j].1.wf() by {
                if j < i {
                    assert(s[j].1.wf());
                } else if j > i {
                    assert(s[j - 1].1.wf());
                }
            }
            lemma_all_wf(t);
        }
    }
}

/// The node kept for the segment `k` among the children, if there is one.
pub open spec fn lookup(s: Seq<(Seq<char>, ImportNodeView)>, k: Seq<char>) -> Option<ImportNodeView>
    decreases s.len(),
{
    if s.len() == 0 {
        None
    } else if s[0].0 == k {
        Some(s[0].1)
    } else {
        lookup(s.drop_first(), k)
    }
}

/// The children after the first are sorted too.
proof fn lemma_keys_sorted_drop_first(s: Seq<(Seq<char>, ImportNodeView)>)
    requires
        keys_sorted(s),
        s.len() > 0,
    ensures
        keys_sorted(s.drop_first()),
{
    assert forall|a: int, b: int| 0 <= a < b < s.drop_first().len() implies crate::text::text_lt(
        #[trigger] s.drop_first()[a].0,
        #[trigger] s.drop_first()[b].0,
    ) by {
        assert(s.drop_first()[a] == s[a + 1]);
        assert(s.drop_first()[b] == s[b + 1]);
    }
}

/// In sorted children, the node kept for a segment is the one at the segment's index.
proof fn lemma_lookup_at(s: Seq<(Seq<char>, ImportNodeView)>, k: Seq<char>, j: int)
    requires
        keys_sorted(s),
        0 <= j < s.len(),
        s[j].0 == k,
    ensures
        lookup(s, k) == Some(s[j].1),
    decreases j,
{
    if j > 0 {
        crate::text::lemma_text_lt_trichotomy(k, k);
        assert(crate::text::text_lt(s[0].0, s[j].0));
        lemma_keys_sorted_drop_first(s);
        assert(s.drop_first()[j - 1] == s[j]);
        lemma_lookup_at(s.drop_first(), k, j - 1);
    }
}

/// Where no child has the segment `k`, nothing is kept for it.
proof fn lemma_lookup_none(s: Seq<(Seq<char>, ImportNodeView)>, k: Seq<char>)
    requires
        forall|j: int| 0 <= j < s.len() ==> #[trigger] s[j].0 != k,
    ensures
        lookup(s, k) == None::<ImportNodeView>,
    decreases s.len(),
{
    if s.len() > 0 {
        assert(s[0].0 != k);
        assert forall|j: int| 0 <= j < s.drop_first().len() implies #[trigger] s.drop_first()[j].0
            != k by {
            assert(s.drop_first()[j] == s[j + 1]);
        }
        lemma_lookup_none(s.drop_first(), k);
    }
}

/// A node kept among well-formed children is well-formed.
proof fn lemma_lookup_wf(s: Seq<(Seq<char>, ImportNodeView)>, k: Seq<char>)
    requires
        all_wf(s),
    ensures
        lookup(s, k) matches Some(v) ==> v.wf(),
    decreases s.len(),
{
    lemma_all_wf(s);
    if s.len() > 0 {
        assert(s[0].1.wf());
        assert forall|i: int| 0 <= i < s.drop_first().len() implies #[trigger] s.drop_first()[i].1.wf() by {
            assert(s.drop_first()[i] == s[i + 1]);
            assert(s[i + 1].1.wf());
        }
        lemma_all_wf(s.drop_first());
        lemma_lookup_wf(s.drop_first(), k);
    }
}

/// Sorted children are determined by what they keep for each segment.
proof fn lemma_lookup_ext(s: Seq<(Seq<char>, ImportNodeView)>, t: Seq<(Seq<char>, ImportNodeView)>)
    requires
        keys_sorted(s),
        keys_sorted(t),
        forall|k: Seq<char>| #[trigger] lookup(s, k) == lookup(t, k),
    ensures
        s == t,
    decreases s.len() + t.len(),
{
    if s.len() == 0 && t.len() == 0 {
        assert(s =~= t);
    } else if s.len() == 0 {
        assert(lookup(t, t[0].0) == Some(t[0].1));
        assert(lookup(s, t[0].0) == None::<ImportNodeView>);
    } else if t.len() == 0 {
        assert(lookup(s, s[0].0) == Some(s[0].1));
        assert(lookup(t, s[0].0) == None::<ImportNodeView>);
    } else {
        let a = s[0].0;
        let b = t[0].0;
        crate::text::lemma_text_lt_trichotomy(a, b);
        if crate::text::text_lt(a, b) {
            assert forall|j: int| 0 <= j < t.len() implies #[trigger] t[j].0 != a by {
                if j > 0 {
                    assert(crate::text::text_lt(t[0].0, t[j].0));
                    crate::text::lemma_text_lt_transitive(a, b, t[j].0);
                }
                crate::text::lemma_text_lt_trichotomy(a, t[j].0);
            }
            lemma_lookup_none(t, a);
            assert(lookup(s, a) == Some(s[0].1));
        } else if crate::text::text_lt(b, a) {
            assert forall|j: int| 0 <= j < s.len() implies #[trigger] s[j].0 != b by {
                if j > 0 {
                    assert(crate::text::text_lt(s[0].0, s[j].0));
                    crate::text::lemma_text_lt_transitive(b, a, s[j].0);
                }
                crate::text::lemma_text_lt_trichotomy(b, s[j].0);
            }
            lemma_lookup_none(s, b);
            assert(lookup(t, b) == Some(t[0].1));
        } else {
            assert(lookup(s, a) == Some(s[0].1));
            assert(lookup(t, a) == Some(t[0].1));
            let s1 = s.drop_first();
            let t1 = t.drop_first();
            lemma_keys_sorted_drop_first(s);
            lemma_keys_sorted_drop_first(t);
            assert forall|k: Seq<char>| #[trigger] lookup(s1, k) == lookup(t1, k) by {
                if k == a {
                    assert forall|j: int| 0 <= j < s1.len() implies #[trigger] s1[j].0 != k by {
                        assert(s1[j] == s[j + 1]);
                        assert(crate::text::text_lt(s[0].0, s[j + 1].0));
                        crate::text::lemma_text_lt_trichotomy(a, a);
                    }
                    assert forall|j: int| 0 <= j < t1.len() implies #[trigger] t1[j].0 != k by {
                        assert(t1[j] == t[j + 1]);
                        assert(crate::text::text_lt(t[0].0, t[j + 1].0));
                        crate::text::lemma_text_lt_trichotomy(a, a);
                    }
                    lemma_lookup_none(s1, k);
                    lemma_lookup_none(t1, k);
                } else {
                    assert(lookup(s, k) == lookup(t, k));
                }
            }
            lemma_lookup_ext(s1, t1);
            assert(s =~= seq![s[0]] + s1);
            assert(t =~= seq![t[0]] + t1);
        }
    }
}

/// The node that `lookup` finds, or an empty one.
pub open spec fn lookup_or_empty(s: Seq<(Seq<char>, ImportNodeView)>, k: Seq<char>) -> ImportNodeView {
    match lookup(s, k) {
        Some(v) => v,
        None => empty_node(),
    }
}

/// Adding a path changes what is kept for its first segment, and nothing else.
proof fn lemma_lookup_insert_path(n: ImportNodeView, p: Seq<Seq<char>>, k: Seq<char>)
    requires
        n.wf(),
        p.len() > 0,
    ensures
        lookup(insert_path(n, p).children, k) == (if k == p[0] {
            Some(insert_path(lookup_or_empty(n.children, k), p.drop_first()))
        } else {
            lookup(n.children, k)
        }),
{
    let k0 = p[0];
    let s = n.children;
    let i = lower_bound(s, k0) as int;
    let t = insert_path(n, p).children;
    lemma_lower_bound(s, k0);
    lemma_insert_path_wf(n, p);
    crate::text::lemma_text_lt_trichotomy(k0, k0);
    if i < s.len() && s[i].0 == k0 {
        if k == k0 {
            lemma_lookup_at(t, k, i);
            lemma_lookup_at(s, k, i);
        } else if exists|j: int| 0 <= j < s.len() && s[j].0 == k {
            let j = choose|j: int| 0 <= j < s.len() && s[j].0 == k;
            lemma_lookup_at(t, k, j);
            lemma_lookup_at(s, k, j);
        } else {
            assert forall|j: int| 0 <= j < t.len() implies #[trigger] t[j].0 != k by {
                if j != i {
                    assert(t[j] == s[j]);
                }
            }
            assert forall|j: int| 0 <= j < s.len() implies #[trigger] s[j].0 != k by {}
            lemma_lookup_none(t, k);
            lemma_lookup_none(s, k);
        }
    } else {
        if i < s.len() {
            crate::text::lemma_text_lt_trichotomy(k0, s[i].0);
        }
        if k == k0 {
            lemma_lookup_at(t, k, i);
            assert forall|j: int| 0 <= j < s.len() implies #[trigger] s[j].0 != k by {
                if j < i {
                    assert(crate::text::text_lt(s[j].0, k0));
                } else if j > i {
                    assert(crate::text::text_lt(s[i].0, s[j].0));
                    crate::text::lemma_text_lt_transitive(k0, s[i].0, s[j].0);
                    crate::text::lemma_text_lt_trichotomy(k0, s[j].0);
                }
            }
            lemma_lookup_none(s, k);
        } else if exists|j: int| 0 <= j < s.len() && s[j].0 == k {
            let j = choose|j: int| 0 <= j < s.len() && s[j].0 == k;
            if j < i {
                assert(t[j] == s[j]);
                lemma_lookup_at(t, k, j);
            } else {
                assert(t[j + 1] == s[j]);
                lemma_lookup_at(t, k, j + 1);
            }
            lemma_lookup_at(s, k, j);
        } else {
            assert forall|j: int| 0 <= j < t.len() implies #[trigger] t[j].0 != k by {
                if j < i {
                    assert(t[j] == s[j]);
                } else if j > i {
                    assert(t[j] == s[j - 1]);
                }
            }
            assert forall|j: int| 0 <= j < s.len() implies #[trigger] s[j].0 != k by {}
            lemma_lookup_none(t, k);
            lemma_lookup_none(s, k);
        }
    }
}

/// The order in which paths are added does not matter: adding `p` and then `q` gives the same
/// tree as adding `q` and then `p`, so the imports written depend only on which paths were
/// added.
pub proof fn lemma_insert_path_commutes(n: ImportNodeView, p: Seq<Seq<char>>, q: Seq<Seq<char>>)
    requires
        n.wf(),
    ensures
        insert_path(insert_path(n, p), q) == insert_path(insert_path(n, q), p),
    decreases p.len() + q.len(),
{
    let x = insert_path(insert_path(n, p), q);
    let y = insert_path(insert_path(n, q), p);
    if p.len() > 0 && q.len() > 0 {
        let n1 = insert_path(n, p);
        let n2 = insert_path(n, q);
        lemma_insert_path_wf(n, p);
        lemma_insert_path_wf(n, q);
        lemma_insert_path_wf(n1, q);
        lemma_insert_path_wf(n2, p);
        assert forall|k: Seq<char>| #[trigger] lookup(x.children, k) == lookup(y.children, k) by {
            lemma_lookup_insert_path(n1, q, k);
            lemma_lookup_insert_path(n2, p, k);
            lemma_lookup_insert_path(n, p, k);
            lemma_lookup_insert_path(n, q, k);
            if k == p[0] && k == q[0] {
                let c = lookup_or_empty(n.children, k);
                lemma_lookup_wf(n.children, k);
                assert(c.wf()) by {
                    assert(keys_sorted(empty_node().children));
                }
                lemma_insert_path_commutes(c, p.drop_first(), q.drop_first());
            }
        }
        lemma_lookup_ext(x.children, y.children);
    }
    assert(x.children == y.children);
}

/// Children text of a prefix one element longer.
proof fn lemma_children_text_take(s: Seq<(Seq<char>, ImportNodeView)>, lead: bool, i: int)
    requires
        0 <= i < s.len(),
    ensures
        children_text(s.take(i + 1), lead) == children_text(s.take(i), lead) + (if i > 0 || lead {
            seq![',', ' ']
        } else {
            Seq::empty()
        }) + s[i].0 + s[i].1.text(),
{
    assert(s.take(i + 1).drop_last() =~= s.take(i));
    assert(s.take(i + 1).last() == s[i]);
}

/// Import text of a prefix one element longer.
proof fn lemma_imports_text_take(s: Seq<(Seq<char>, ImportNodeView)>, i: int)
    requires
        0 <= i < s.len(),
    ensures
        imports_text(s.take(i + 1)) == imports_text(s.take(i)) + "#import "@ + s[i].0 + s[i].1.text()
            + seq![';', '\n'],
{
    assert(s.take(i + 1).drop_last() =~= s.take(i));
    assert(s.take(i + 1).last() == s[i]);
}

impl ImportTreeNode {
    /// A node with no path ending at it and no children.
    pub fn new() -> (res: Self)
        ensures
            res@ == empty_node(),
    {
        let res = ImportTreeNode { terminal: false, children: Vec::new() };
        proof {
            assert(children_view(res.children@) =~= Seq::<(Seq<char>, ImportNodeView)>::empty());
        }
        res
    }

    /// Adds the segments of `path` from index `i` on below this node.
    fn add_from(&mut self, path: &[&'static str], i: usize)
        requires
            i <= path@.len(),
        ensures
            final(self)@ == insert_path(old(self)@, segments_view(path@).skip(i as int)),
        decreases path@.len() - i,
    {
        let ghost p = segments_view(path@).skip(i as int);
        let ghost old_view = self@;
        proof {
            lemma_children_view(self.children@);
        }
        if i == path.len() {
            self.terminal = true;
            return ;
        }
        let key = path[i];
        proof {
            assert(p[0] == key@);
            assert(p.drop_first() =~= segments_view(path@).skip(i + 1));
        }
        let mut j: usize = 0;
        proof {
            assert(old_view.children.skip(0) =~= old_view.children);
        }
        while j < self.children.len() && str_lt(self.children[j].0, key)
            invariant
                j <= self.children.len(),
                self@ == old_view,
                children_view(self.children@).len() == self.children.len(),
                forall|m: int|
                    0 <= m < self.children.len() ==> #[trigger] children_view(self.children@)[m] == (
                    self.children@[m].0@,
                    self.children@[m].1.deep_view_of(),
                    ),
                lower_bound(old_view.children, key@) == j + lower_bound(
                    old_view.children.skip(j as int),
                    key@,
                ),
            decreases self.children.len() - j,
        {
            proof {
                let t = old_view.children.skip(j as int);
                assert(t[0] == old_view.children[j as int]);
                assert(t.drop_first() =~= old_view.children.skip(j + 1));
            }
            j += 1;
        }
        proof {
            let t = old_view.children.skip(j as int);
            if j < self.children.len() {
                assert(t[0] == old_view.children[j as int]);
            }
            assert(lower_bound(old_view.children, key@) == j);
        }
        if j < self.children.len() && str_eq(self.children[j].0, key) {
            let (k, mut child) = self.children.remove(j);
            child.add_from(path, i + 1);
            self.children.insert(j, (k, child));
            proof {
                lemma_children_view(self.children@);
                assert(children_view(self.children@) =~= old_view.children.update(
                    j as int,
                    (key@, insert_path(old_view.children[j as int].1, p.drop_first())),
                ));
            }
        } else {
            let mut child = ImportTreeNode::new();
            child.add_from(path, i + 1);
            self.children.insert(j, (key, child));
            proof {
                lemma_children_view(self.children@);
                assert(children_view(self.children@) =~= old_view.children.insert(
                    j as int,
                    (key@, insert_path(empty_node(), p.drop_first())),
                ));
            }
        }
    }

    /// Writes the text that follows the segment of this node in an import statement.
    pub fn write(&self, writer: &mut String) -> (res: Result<(), Error>)
        ensures
            res is Ok,
            final(writer)@ == old(writer)@ + self@.text(),
        decreases self,
    {
        proof {
            lemma_children_view(self.children@);
            reveal_strlit("::");
            reveal_strlit("{");
            reveal_strlit("}");
            reveal_strlit("self");
            reveal_strlit(", ");
        }
        let ghost cv = children_view(self.children@);
        if self.children.len() == 0 {
            proof {
                assert(old(writer)@ + self@.text() =~= old(writer)@);
            }
            return Ok(());
        }
        writer.append("::");
        if self.children.len() == 1 && !self.terminal {
            writer.append(self.children[0].0);
            proof {
                assert(decreases_to!(self => self.children@[0].1));
            }
            let _ = self.children[0].1.write(writer);
            proof {
                assert(writer@ =~= old(writer)@ + self@.text());
            }
        } else {
            let mut sep = false;
            writer.append("{");
            if self.terminal {
                writer.append("self");
                sep = true;
            }
            let ghost start = writer@;
            proof {
                assert(cv.take(0) =~= Seq::<(Seq<char>, ImportNodeView)>::empty());
                assert(start =~= start + children_text(cv.take(0), self.terminal));
            }
            let mut i: usize = 0;
            while i < self.children.len()
                invariant
                    i <= self.children.len(),
                    cv == children_view(self.children@),
                    cv.len() == self.children.len(),
                    forall|m: int|
                        0 <= m < self.children.len() ==> #[trigger] cv[m] == (
                        self.children@[m].0@,
                        self.children@[m].1.deep_view_of(),
                        ),
                    sep == (self.terminal || i > 0),
                    writer@ == start + children_text(cv.take(i as int), self.terminal),
                decreases self.children.len() - i,
            {
                proof {
                    lemma_children_text_take(cv, self.terminal, i as int);
                    reveal_strlit(", ");
                    assert(decreases_to!(self => self.children@[i as int].1));
                }
                if sep {
                    writer.append(", ");
                }
                writer.append(self.children[i].0);
                let _ = self.children[i].1.write(writer);
                sep = true;
                proof {
                    assert(writer@ =~= start + children_text(cv.take(i + 1), self.terminal));
                }
                i += 1;
            }
            writer.append("}");
            proof {
                assert(cv.take(self.children.len() as int) =~= cv);
                assert(writer@ =~= old(writer)@ + self@.text());
            }
        }
        Ok(())
    }
}

impl ShaderImports {
    /// An empty set of imports.
    pub fn new() -> (res: Self)
        ensures
            res@ == empty_node(),
            res@.wf(),
    {
        let root = ImportTreeNode::new();
        proof {
            assert(keys_sorted(empty_node().children));
        }
        ShaderImports(root)
    }

    /// The tree of imports, which is well-formed.
    pub fn root(&self) -> (res: &ImportTreeNode)
        ensures
            res@ == self@,
            res@.wf(),
    {
        proof {
            use_type_invariant(self);
        }
        &self.0
    }

    /// Adds an import dependency, given as a path of segments separated by `::`.
    pub fn add(&mut self, path: &'static str)
        ensures
            old(self)@.wf(),
            final(self)@ == insert_path(old(self)@, split_colons(path@)),
            final(self)@.wf(),
    {
        proof {
            use_type_invariant(&*self);
        }
        let segments = split_path(path);
        proof {
            assert(segments_view(segments@).skip(0) =~= split_colons(path@));
            lemma_insert_path_wf(self@, split_colons(path@));
        }
        let mut root = ImportTreeNode::new();
        proof {
            assert(keys_sorted(empty_node().children));
        }
        std::mem::swap(&mut root, &mut self.0);
        root.add_from(segments.as_slice(), 0);
        self.0 = root;
    }

    /// Writes one import statement per top-level segment, in ascending order of segment.
    pub fn write(&self, writer: &mut String) -> (res: Result<(), Error>)
        ensures
            res is Ok,
            final(writer)@ == old(writer)@ + imports_text(self@.children),
    {
        let ghost cv = children_view(self.0.children@);
        proof {
            lemma_children_view(self.0.children@);
            assert(cv.take(0) =~= Seq::<(Seq<char>, ImportNodeView)>::empty());
            assert(writer@ =~= old(writer)@ + imports_text(cv.take(0)));
        }
        let mut i: usize = 0;
        while i < self.0.children.len()
            invariant
                i <= self.0.children.len(),
                cv == children_view(self.0.children@),
                cv.len() == self.0.children.len(),
                forall|m: int|
                    0 <= m < self.0.children.len() ==> #[trigger] cv[m] == (
                    self.0.children@[m].0@,
                    self.0.children@[m].1.deep_view_of(),
                    ),
                writer@ == old(writer)@ + imports_text(cv.take(i as int)),
            decreases self.0.children.len() - i,
        {
            proof {
                lemma_imports_text_take(cv, i as int);
                reveal_strlit(";\n");
            }
            writer.append("#import ");
            writer.append(self.0.children[i].0);
            let _ = self.0.children[i].1.write(writer);
            writer.append(";\n");
            proof {
                assert(";\n"@ =~= seq![';', '\n']);
                assert(writer@ =~= old(writer)@ + imports_text(cv.take(i + 1)));
            }
            i += 1;
        }
        proof {
            assert(cv.take(self.0.children.len() as int) =~= cv);
        }
        Ok(())
    }
}

impl Default for ShaderImports {
    fn default() -> (res: Self)
        ensures
            res@ == empty_node(),
    {
        ShaderImports::new()
    }
}


/// The segments of `rest`, with `cur` put in front of the first one.
pub open spec fn split_continued(cur: Seq<char>, rest: Seq<char>) -> Seq<Seq<char>> {
    let r = split_colons(rest);
    r.update(0, cur + r[0])
}

/// Splitting yields at least one segment.
proof fn lemma_split_nonempty(s: Seq<char>)
    ensures
        split_colons(s).len() >= 1,
    decreases s.len(),
{
    if s.len() >= 2 {
        if s[0] == ':' && s[1] == ':' {
            lemma_split_nonempty(s.skip(2));
        } else {
            lemma_split_nonempty(s.drop_first());
        }
    }
}

/// One step of splitting from left to right.
proof fn lemma_split_step(cur: Seq<char>, rest: Seq<char>)
    ensures
        rest.len() >= 2 && rest[0] == ':' && rest[1] == ':' ==> split_continued(cur, rest) == seq![
            cur,
        ] + split_continued(Seq::empty(), rest.skip(2)),
        rest.len() >= 2 && !(rest[0] == ':' && rest[1] == ':') ==> split_continued(cur, rest)
            == split_continued(cur.push(rest[0]), rest.drop_first()),
        rest.len() < 2 ==> split_continued(cur, rest) == seq![cur + rest],
{
    if rest.len() >= 2 {
        if rest[0] == ':' && rest[1] == ':' {
            lemma_split_nonempty(rest.skip(2));
            let r = split_colons(rest.skip(2));
            assert(split_continued(Seq::empty(), rest.skip(2)) =~= r);
            assert(split_continued(cur, rest) =~= seq![cur] + r);
        } else {
            lemma_split_nonempty(rest.drop_first());
            let r = split_colons(rest.drop_first());
            assert(cur + (seq![rest[0]] + r[0]) =~= cur.push(rest[0]) + r[0]);
            assert(split_continued(cur, rest) =~= split_continued(cur.push(rest[0]), rest.drop_first()));
        }
    } else {
        assert(split_continued(cur, rest) =~= seq![cur + rest]);
    }
}

/// Splitting at a separator that starts at `i`: the segment from `start` ends there.
proof fn lemma_split_cut(path: Seq<char>, done: Seq<Seq<char>>, start: int, i: int)
    requires
        0 <= start <= i,
        i + 2 <= path.len(),
        path[i] == ':',
        path[i + 1] == ':',
        done + split_continued(path.subrange(start, i), path.skip(i)) == split_colons(path),
    ensures
        done.push(path.subrange(start, i)) + split_continued(
            path.subrange(i + 2, i + 2),
            path.skip(i + 2),
        ) == split_colons(path),
{
    let cur = path.subrange(start, i);
    let rest = path.skip(i);
    lemma_split_step(cur, rest);
    assert(rest.skip(2) =~= path.skip(i + 2));
    assert(path.subrange(i + 2, i + 2) =~= Seq::<char>::empty());
    assert(done.push(cur) + split_continued(Seq::empty(), rest.skip(2)) =~= done + (seq![cur]
        + split_continued(Seq::empty(), rest.skip(2))));
}

/// Moving past a character that does not start a separator.
proof fn lemma_split_advance(path: Seq<char>, done: Seq<Seq<char>>, start: int, i: int)
    requires
        0 <= start <= i,
        i + 2 <= path.len(),
        !(path[i] == ':' && path[i + 1] == ':'),
        done + split_continued(path.subrange(start, i), path.skip(i)) == split_colons(path),
    ensures
        done + split_continued(path.subrange(start, i + 1), path.skip(i + 1)) == split_colons(path),
{
    let cur = path.subrange(start, i);
    let rest = path.skip(i);
    lemma_split_step(cur, rest);
    assert(cur.push(rest[0]) =~= path.subrange(start, i + 1));
    assert(rest.drop_first() =~= path.skip(i + 1));
}

/// The last segment runs from `start` to the end.
proof fn lemma_split_end(path: Seq<char>, done: Seq<Seq<char>>, start: int, i: int)
    requires
        0 <= start <= i <= path.len(),
        path.len() < i + 2,
        done + split_continued(path.subrange(start, i), path.skip(i)) == split_colons(path),
    ensures
        done.push(path.subrange(start, path.len() as int)) == split_colons(path),
{
    let cur = path.subrange(start, i);
    let rest = path.skip(i);
    lemma_split_step(cur, rest);
    assert(cur + rest =~= path.subrange(start, path.len() as int));
    assert(done.push(path.subrange(start, path.len() as int)) =~= done + seq![cur + rest]);
}

/// Appending a segment appends its text.
proof fn lemma_segments_view_push(p: Seq<&'static str>, x: &'static str)
    ensures
        segments_view(p.push(x)) == segments_view(p).push(x@),
{
    assert(segments_view(p.push(x)) =~= segments_view(p).push(x@));
}

/// Splits a path into its segments separated by `::`.
fn split_path(path: &'static str) -> (res: Vec<&'static str>)
    ensures
        segments_view(res@) == split_colons(path@),
{
    let n = path.unicode_len();
    let mut segs: Vec<&'static str> = Vec::new();
    let mut start: usize = 0;
    let mut i: usize = 0;
    proof {
        lemma_split_nonempty(path@);
        assert(path@.subrange(0, 0) =~= Seq::<char>::empty());
        assert(path@.skip(0) =~= path@);
        assert(split_continued(Seq::empty(), path@) =~= split_colons(path@));
        assert(segments_view(segs@) =~= Seq::<Seq<char>>::empty());
        assert(segments_view(segs@) + split_colons(path@) =~= split_colons(path@));
    }
    while n - i > 1
        invariant
            n == path@.len(),
            start <= i <= n,
            segments_view(segs@) + split_continued(path@.subrange(start as int, i as int), path@.skip(i as int))
                == split_colons(path@),
        decreases n - i,
    {
        if path.get_char(i) == ':' && path.get_char(i + 1) == ':' {
            let seg = path.substring_char(start, i);
            proof {
                lemma_split_cut(path@, segments_view(segs@), start as int, i as int);
                lemma_segments_view_push(segs@, seg);
            }
            segs.push(seg);
            i = i + 2;
            start = i;
        } else {
            proof {
                lemma_split_advance(path@, segments_view(segs@), start as int, i as int);
            }
            i = i + 1;
        }
    }
    let seg = path.substring_char(start, n);
    proof {
        lemma_split_end(path@, segments_view(segs@), start as int, i as int);
        lemma_segments_view_push(segs@, seg);
    }
    segs.push(seg);
    segs
}

/// The segments of a path joined by `::`.
pub open spec fn joined_path(p: Seq<Seq<char>>) -> Seq<char>
    decreases p.len(),
{
    if p.len() <= 1 {
        if p.len() == 1 {
            p[0]
        } else {
            Seq::empty()
        }
    } else {
        p[0] + seq![':', ':'] + joined_path(p.drop_first())
    }
}

/// Below a fresh node, a path becomes a chain of single children whose text is `::` before
/// each of its segments.
proof fn lemma_fresh_chain_text(p: Seq<Seq<char>>)
    ensures
        p.len() > 0 ==> insert_path(empty_node(), p) == (ImportNodeView {
            terminal: false,
            children: seq![(p[0], insert_path(empty_node(), p.drop_first()))],
        }),
        p.len() > 0 ==> seq![':', ':'] + joined_path(p) == insert_path(empty_node(), p).text(),
        p.len() == 0 ==> insert_path(empty_node(), p).text() == Seq::<char>::empty(),
    decreases p.len(),
{
    if p.len() > 0 {
        let k = p[0];
        assert(lower_bound(empty_node().children, k) == 0);
        assert(empty_node().children.insert(0, (k, insert_path(empty_node(), p.drop_first())))
            =~= seq![(k, insert_path(empty_node(), p.drop_first()))]);
        lemma_fresh_chain_text(p.drop_first());
        let n = insert_path(empty_node(), p);
        assert(n.children.len() == 1 && !n.terminal);
        if p.len() == 1 {
            assert(p.drop_first().len() == 0);
            assert(n.text() =~= seq![':', ':'] + k);
        } else {
            assert(n.text() =~= seq![':', ':'] + k + insert_path(empty_node(), p.drop_first()).text());
            assert(joined_path(p) =~= k + seq![':', ':'] + joined_path(p.drop_first()));
            assert(seq![':', ':'] + joined_path(p) =~= seq![':', ':'] + k + (seq![':', ':']
                + joined_path(p.drop_first())));
        }
    }
}

/// Imports holding a single path write one statement: `#import `, the path's segments joined
/// by `::`, then `;` and a line break.
pub proof fn lemma_single_import_text(p: Seq<Seq<char>>)
    requires
        p.len() > 0,
    ensures
        imports_text(insert_path(empty_node(), p).children) == "#import "@ + joined_path(p) + seq![';', '\n'],
{
    lemma_fresh_chain_text(p);
    lemma_fresh_chain_text(p.drop_first());
    let c = insert_path(empty_node(), p).children;
    assert(c.drop_last() =~= Seq::<(Seq<char>, ImportNodeView)>::empty());
    assert(imports_text(c.drop_last()) == Seq::<char>::empty());
    assert(c.last() == (p[0], insert_path(empty_node(), p.drop_first())));
    assert(imports_text(c) == imports_text(c.drop_last()) + "#import "@ + c.last().0 + c.last().1.text()
        + seq![';', '\n']);
    if p.len() == 1 {
        assert(joined_path(p) == p[0]);
        assert(p.drop_first().len() == 0);
        assert(imports_text(c) =~= "#import "@ + joined_path(p) + seq![';', '\n']);
    } else {
        assert(joined_path(p) =~= p[0] + (seq![':', ':'] + joined_path(p.drop_first())));
        assert(imports_text(c) =~= "#import "@ + joined_path(p) + seq![';', '\n']);
    }
}

} // verus!
