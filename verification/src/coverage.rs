//! Success and coverage of additions: adding a well-formed subtree into an
//! untouched address space cannot fail, and afterwards the identity map
//! covers exactly the paths of the subtree.  In particular, construction
//! over a well-formed tree always succeeds.

use vstd::prelude::*;
use crate::nodes::{
    concrete, concrete_children, expand_children_v, expand_v, keys_unique,
    lemma_concrete_children, lemma_expand_children_v, lemma_expand_concrete, lemma_wf_children,
    node_wf, wf_children, NodeV,
};
use crate::differ::{
    add_children_spec, add_node_spec, params_changed_spec, parent_id_of, remove_children_spec,
    remove_node_spec, reorder_spec, StV,
};
use crate::engine::{diff_spec, forward_pass, removed_pass, reorder_pairs_v};
use crate::nodes::{count_children_from, count_v, key_index, lemma_count_children_step, lemma_key_index};
use crate::stability::extends;

verus! {

broadcast use vstd::set::group_set_axioms;

/// The paths of every node of a subtree rooted at `base`.
pub open spec fn paths_of(t: NodeV, base: Seq<u64>) -> Set<Seq<u64>>
    decreases t, 0int,
{
    match t {
        NodeV::Element { children, .. } => paths_of_children(children, base, 0).insert(base),
        _ => Set::empty().insert(base),
    }
}

/// The paths of the children of a node at `base`, from position `i` on.
pub open spec fn paths_of_children(s: Seq<(u64, NodeV)>, base: Seq<u64>, i: int) -> Set<Seq<u64>>
    decreases s, s.len() - i,
{
    if i < 0 || i >= s.len() {
        Set::empty()
    } else {
        paths_of(s[i].1, base.push(s[i].0)).union(paths_of_children(s, base, i + 1))
    }
}

/// Every path of a subtree extends its base.
proof fn lemma_paths_in_space(t: NodeV, base: Seq<u64>)
    ensures
        forall|q: Seq<u64>| paths_of(t, base).contains(q) ==> extends(base, q),
    decreases t, 0int,
{
    assert(extends(base, base)) by {
        assert(base.take(base.len() as int) =~= base);
    }
    match t {
        NodeV::Element { children, .. } => {
            lemma_paths_of_children_in_space(children, base, 0);
        }
        _ => {}
    }
}

/// Every path of a child list extends the parent's base.
proof fn lemma_paths_of_children_in_space(s: Seq<(u64, NodeV)>, base: Seq<u64>, i: int)
    ensures
        forall|q: Seq<u64>| paths_of_children(s, base, i).contains(q) ==> extends(base, q),
    decreases s, s.len() - i,
{
    if 0 <= i < s.len() {
        lemma_paths_in_space(s[i].1, base.push(s[i].0));
        lemma_paths_of_children_in_space(s, base, i + 1);
        assert forall|q: Seq<u64>| paths_of_children(s, base, i).contains(q)
            implies extends(base, q) by {
            if paths_of(s[i].1, base.push(s[i].0)).contains(q) {
                crate::stability::lemma_extends_step(base, s[i].0, q);
            }
        }
    }
}

/// No path of the address space of `base` is mapped.
pub open spec fn space_untouched(m: Map<Seq<u64>, u64>, base: Seq<u64>) -> bool {
    forall|q: Seq<u64>| extends(base, q) ==> !(#[trigger] m.contains_key(q))
}

/// Adding a well-formed concrete subtree into an untouched address space
/// succeeds, keeps every existing entry, and extends the map by exactly
/// one entry per node of the subtree.
pub proof fn lemma_add_total(n: NodeV, path: Seq<u64>, index: int, st: StV)
    requires
        node_wf(n),
        concrete(n),
        parent_id_of(path, st.m) is Some,
        space_untouched(st.m, path),
    ensures
        ({
            let e = add_node_spec(n, path, index, st);
            &&& e.err is None
            &&& forall|q: Seq<u64>| #[trigger] e.st.m.contains_key(q)
                <==> st.m.contains_key(q) || paths_of(n, path).contains(q)
            &&& forall|q: Seq<u64>| #[trigger] st.m.contains_key(q) ==> e.st.m[q] == st.m[q]
        }),
    decreases n, 0int,
{
    assert(extends(path, path)) by {
        assert(path.take(path.len() as int) =~= path);
    }
    assert(!st.m.contains_key(path));
    let st1 = StV { m: st.m.insert(path, st.next as u64), next: st.next + 1 };
    let e = add_node_spec(n, path, index, st);
    match n {
        NodeV::Text { .. } => {
            assert(e.err is None);
            assert(e.st.m == st1.m);
            assert(paths_of(n, path) == Set::<Seq<u64>>::empty().insert(path));
            assert(forall|q: Seq<u64>| #[trigger] e.st.m.contains_key(q)
                <==> st.m.contains_key(q) || paths_of(n, path).contains(q));
        }
        NodeV::Element { children, .. } => {
            assert forall|l: int, q: Seq<u64>|
                0 <= l < children.len() && #[trigger] extends(path.push(children[l].0), q)
                    implies !st1.m.contains_key(q) by {
                crate::stability::lemma_extends_step(path, children[l].0, q);
                assert(q.len() > path.len());
            }
            lemma_wf_children(children);
            lemma_concrete_children(children);
            lemma_add_children_total(children, path, 0, st1);
            let ek = add_children_spec(children, path, 0, st1);
            assert(e.err is None);
            assert(e.st.m == ek.st.m);
            assert(forall|q: Seq<u64>| #[trigger] e.st.m.contains_key(q)
                <==> st.m.contains_key(q) || paths_of(n, path).contains(q));
            assert forall|q: Seq<u64>| #[trigger] st.m.contains_key(q)
                implies e.st.m[q] == st.m[q] by {
                assert(q != path);
                assert(st1.m.contains_key(q));
                assert(st1.m[q] == st.m[q]);
            }
        }
        NodeV::Widget { .. } => {
            assert(false);
        }
    }
}

/// Adding the tail of a well-formed child list into untouched sibling
/// address spaces succeeds and extends the map by exactly their paths.
proof fn lemma_add_children_total(s: Seq<(u64, NodeV)>, path: Seq<u64>, i: int, st: StV)
    requires
        keys_unique(s),
        wf_children(s),
        concrete_children(s),
        st.m.contains_key(path),
        forall|l: int, q: Seq<u64>|
            i <= l < s.len() && #[trigger] extends(path.push(s[l].0), q)
                ==> !st.m.contains_key(q),
    ensures
        ({
            let e = add_children_spec(s, path, i, st);
            &&& e.err is None
            &&& forall|q: Seq<u64>| #[trigger] e.st.m.contains_key(q)
                <==> st.m.contains_key(q) || paths_of_children(s, path, i).contains(q)
            &&& forall|q: Seq<u64>| #[trigger] st.m.contains_key(q) ==> e.st.m[q] == st.m[q]
        }),
    decreases s, s.len() - i,
{
    if 0 <= i < s.len() {
        let k = s[i].0;
        let child_path = path.push(k);
        lemma_wf_children(s);
        lemma_concrete_children(s);
        assert(child_path.drop_last() =~= path);
        assert(parent_id_of(child_path, st.m) is Some);
        assert(extends(child_path, child_path)) by {
            assert(child_path.take(child_path.len() as int) =~= child_path);
        }
        lemma_add_total(s[i].1, child_path, i, st);
        let e1 = add_node_spec(s[i].1, child_path, i, st);
        lemma_paths_in_space(s[i].1, child_path);
        assert forall|l: int, q: Seq<u64>|
            i + 1 <= l < s.len() && #[trigger] extends(path.push(s[l].0), q)
                implies !e1.st.m.contains_key(q) by {
            if paths_of(s[i].1, child_path).contains(q) {
                assert(extends(child_path, q));
                crate::stability::lemma_extends_same_key(path, s[l].0, k, q);
            }
        }
        lemma_add_children_total(s, path, i + 1, e1.st);
        let e2 = add_children_spec(s, path, i + 1, e1.st);
        let e = add_children_spec(s, path, i, st);
        assert(e.err is None);
        assert(e.st.m == e2.st.m);
        assert forall|q: Seq<u64>| #[trigger] e.st.m.contains_key(q)
            <==> st.m.contains_key(q) || paths_of_children(s, path, i).contains(q) by {
            assert(e2.st.m.contains_key(q)
                <==> e1.st.m.contains_key(q)
                    || paths_of_children(s, path, i + 1).contains(q));
            assert(e1.st.m.contains_key(q)
                <==> st.m.contains_key(q) || paths_of(s[i].1, child_path).contains(q));
            assert(paths_of_children(s, path, i).contains(q)
                <==> paths_of(s[i].1, child_path).contains(q)
                    || paths_of_children(s, path, i + 1).contains(q));
        }
        assert forall|q: Seq<u64>| #[trigger] st.m.contains_key(q)
            implies e.st.m[q] == st.m[q] by {
            assert(e1.st.m[q] == st.m[q]);
            assert(e1.st.m.contains_key(q));
            assert(e2.st.m[q] == e1.st.m[q]);
        }
    }
}

/// Membership in a child list's paths is membership in one child's paths.
proof fn lemma_paths_children_member(s: Seq<(u64, NodeV)>, base: Seq<u64>, i: int, q: Seq<u64>)
    requires
        0 <= i,
    ensures
        paths_of_children(s, base, i).contains(q)
            <==> exists|l: int| i <= l < s.len()
                && paths_of(s[l].1, base.push((#[trigger] s[l]).0)).contains(q),
    decreases s, s.len() - i,
{
    if 0 <= i < s.len() {
        lemma_paths_children_member(s, base, i + 1, q);
        if paths_of_children(s, base, i).contains(q) {
            if paths_of(s[i].1, base.push(s[i].0)).contains(q) {
                assert(i <= i < s.len()
                    && paths_of(s[i].1, base.push((s[i]).0)).contains(q));
            } else {
                let l = choose|l: int| i + 1 <= l < s.len()
                    && paths_of(s[l].1, base.push((#[trigger] s[l]).0)).contains(q);
                assert(i <= l < s.len()
                    && paths_of(s[l].1, base.push((s[l]).0)).contains(q));
            }
        }
        if exists|l: int| i <= l < s.len()
            && paths_of(s[l].1, base.push((#[trigger] s[l]).0)).contains(q) {
            let l = choose|l: int| i <= l < s.len()
                && paths_of(s[l].1, base.push((#[trigger] s[l]).0)).contains(q);
            if l == i {
                assert(paths_of_children(s, base, i).contains(q));
            } else {
                assert(i + 1 <= l < s.len()
                    && paths_of(s[l].1, base.push((s[l]).0)).contains(q));
                assert(paths_of_children(s, base, i + 1).contains(q));
            }
        }
    }
}

/// The paths of a subtree contain its own base.
proof fn lemma_paths_base(t: NodeV, base: Seq<u64>)
    ensures
        paths_of(t, base).contains(base),
{
}

/// The address space of `base` holds exactly the paths of the subtree `n`.
pub open spec fn space_exact(m: Map<Seq<u64>, u64>, base: Seq<u64>, n: NodeV) -> bool {
    forall|q: Seq<u64>| extends(base, q)
        ==> ((#[trigger] m.contains_key(q)) <==> paths_of(n, base).contains(q))
}

/// Removing a subtree whose address space holds exactly its paths succeeds,
/// clears exactly those paths, and keeps every other entry and value.
pub proof fn lemma_remove_total(n: NodeV, path: Seq<u64>, st: StV)
    requires
        node_wf(n),
        concrete(n),
        space_exact(st.m, path, n),
    ensures
        ({
            let e = remove_node_spec(n, path, st);
            &&& e.err is None
            &&& forall|q: Seq<u64>| #[trigger] e.st.m.contains_key(q)
                <==> st.m.contains_key(q) && !paths_of(n, path).contains(q)
            &&& forall|q: Seq<u64>| #[trigger] e.st.m.contains_key(q)
                ==> e.st.m[q] == st.m[q]
        }),
    decreases n, 0int,
{
    assert(extends(path, path)) by {
        assert(path.take(path.len() as int) =~= path);
    }
    lemma_paths_base(n, path);
    assert(st.m.contains_key(path));
    match n {
        NodeV::Text { .. } => {
            let e = remove_node_spec(n, path, st);
            assert(e.st.m == st.m.remove(path));
        }
        NodeV::Element { children, .. } => {
            lemma_wf_children(children);
            lemma_concrete_children(children);
            lemma_paths_of_children_in_space(children, path, 0);
            assert forall|l: int, q: Seq<u64>|
                0 <= l < children.len()
                    && #[trigger] extends(path.push(children[l].0), q)
                    implies (st.m.contains_key(q)
                        <==> paths_of(
                            children[l].1, path.push(children[l].0)).contains(q)) by {
                crate::stability::lemma_extends_step(path, children[l].0, q);
                lemma_paths_children_member(children, path, 0, q);
                if st.m.contains_key(q) {
                    assert(paths_of(n, path).contains(q));
                    assert(q.len() > path.len());
                    let l2 = choose|l2: int| 0 <= l2 < children.len()
                        && paths_of(
                            children[l2].1,
                            path.push((children[l2]).0),
                        ).contains(q);
                    lemma_paths_in_space(children[l2].1, path.push(children[l2].0));
                    crate::stability::lemma_extends_same_key(
                        path, children[l].0, children[l2].0, q);
                    assert(l2 == l);
                }
                if paths_of(children[l].1, path.push(children[l].0)).contains(q) {
                    assert(paths_of_children(children, path, 0).contains(q));
                }
            }
            lemma_remove_children_total(children, path, 0, st);
            let ek = remove_children_spec(children, path, 0, st);
            assert(ek.st.m.contains_key(path)) by {
                lemma_paths_of_children_in_space(children, path, 0);
                if paths_of_children(children, path, 0).contains(path) {
                    lemma_paths_children_member(children, path, 0, path);
                    let l2 = choose|l2: int| 0 <= l2 < children.len()
                        && paths_of(
                            children[l2].1,
                            path.push((children[l2]).0),
                        ).contains(path);
                    lemma_paths_in_space(children[l2].1, path.push(children[l2].0));
                    assert(extends(path.push(children[l2].0), path));
                    assert(false);
                }
            }
            let e = remove_node_spec(n, path, st);
            assert(e.err is None);
            assert(e.st.m == ek.st.m.remove(path));
            assert forall|q: Seq<u64>| #[trigger] e.st.m.contains_key(q)
                <==> st.m.contains_key(q) && !paths_of(n, path).contains(q) by {
                lemma_paths_children_member(children, path, 0, q);
            }
        }
        NodeV::Widget { .. } => {
            assert(false);
        }
    }
}

/// Removing the tail of a well-formed child list, each child's space
/// holding exactly its paths, succeeds and clears exactly those paths.
proof fn lemma_remove_children_total(s: Seq<(u64, NodeV)>, path: Seq<u64>, i: int, st: StV)
    requires
        keys_unique(s),
        wf_children(s),
        concrete_children(s),
        forall|l: int, q: Seq<u64>|
            i <= l < s.len() && #[trigger] extends(path.push(s[l].0), q)
                ==> (st.m.contains_key(q)
                    <==> paths_of(s[l].1, path.push(s[l].0)).contains(q)),
    ensures
        ({
            let e = remove_children_spec(s, path, i, st);
            &&& e.err is None
            &&& forall|q: Seq<u64>| #[trigger] e.st.m.contains_key(q)
                <==> st.m.contains_key(q) && !paths_of_children(s, path, i).contains(q)
            &&& forall|q: Seq<u64>| #[trigger] e.st.m.contains_key(q)
                ==> e.st.m[q] == st.m[q]
        }),
    decreases s, s.len() - i,
{
    if 0 <= i < s.len() {
        let k = s[i].0;
        let child_path = path.push(k);
        lemma_wf_children(s);
        lemma_concrete_children(s);
        lemma_remove_total(s[i].1, child_path, st);
        let e1 = remove_node_spec(s[i].1, child_path, st);
        lemma_paths_in_space(s[i].1, child_path);
        assert forall|l: int, q: Seq<u64>|
            i + 1 <= l < s.len() && #[trigger] extends(path.push(s[l].0), q)
                implies (e1.st.m.contains_key(q)
                    <==> paths_of(s[l].1, path.push(s[l].0)).contains(q)) by {
            if paths_of(s[i].1, child_path).contains(q) {
                crate::stability::lemma_extends_same_key(path, s[l].0, k, q);
            }
        }
        lemma_remove_children_total(s, path, i + 1, e1.st);
        let e2 = remove_children_spec(s, path, i + 1, e1.st);
        let e = remove_children_spec(s, path, i, st);
        assert(e.err is None);
        assert(e.st.m == e2.st.m);
        assert forall|q: Seq<u64>| #[trigger] e.st.m.contains_key(q)
            <==> st.m.contains_key(q) && !paths_of_children(s, path, i).contains(q) by {
            assert(e2.st.m.contains_key(q)
                <==> e1.st.m.contains_key(q)
                    && !paths_of_children(s, path, i + 1).contains(q));
            assert(e1.st.m.contains_key(q)
                <==> st.m.contains_key(q) && !paths_of(s[i].1, child_path).contains(q));
        }
        assert forall|q: Seq<u64>| #[trigger] e.st.m.contains_key(q)
            implies e.st.m[q] == st.m[q] by {
            assert(e2.st.m.contains_key(q));
            assert(e1.st.m.contains_key(q));
        }
    }
}

/// The paths a removal pass clears: those of every dropped child.
pub open spec fn removed_paths(
    cs: Seq<(u64, NodeV)>,
    ls: Seq<(u64, NodeV)>,
    path: Seq<u64>,
    j: int,
) -> Set<Seq<u64>>
    decreases ls.len() - j,
{
    if j < 0 || j >= ls.len() {
        Set::empty()
    } else if key_index(cs, ls[j].0) == -1 {
        paths_of(ls[j].1, path.push(ls[j].0)).union(removed_paths(cs, ls, path, j + 1))
    } else {
        removed_paths(cs, ls, path, j + 1)
    }
}

/// Membership in the cleared paths is membership in one dropped child's
/// paths.
proof fn lemma_removed_paths_member(
    cs: Seq<(u64, NodeV)>,
    ls: Seq<(u64, NodeV)>,
    path: Seq<u64>,
    j: int,
    q: Seq<u64>,
)
    requires
        0 <= j,
    ensures
        removed_paths(cs, ls, path, j).contains(q)
            <==> exists|l: int| j <= l < ls.len()
                && key_index(cs, (#[trigger] ls[l]).0) == -1
                && paths_of(ls[l].1, path.push(ls[l].0)).contains(q),
    decreases ls.len() - j,
{
    if 0 <= j < ls.len() {
        lemma_removed_paths_member(cs, ls, path, j + 1, q);
        if removed_paths(cs, ls, path, j).contains(q) {
            if key_index(cs, ls[j].0) == -1
                && paths_of(ls[j].1, path.push(ls[j].0)).contains(q) {
                assert(j <= j < ls.len() && key_index(cs, (ls[j]).0) == -1
                    && paths_of(ls[j].1, path.push((ls[j]).0)).contains(q));
            } else {
                let l = choose|l: int| j + 1 <= l < ls.len()
                    && key_index(cs, (#[trigger] ls[l]).0) == -1
                    && paths_of(ls[l].1, path.push(ls[l].0)).contains(q);
                assert(j <= l < ls.len() && key_index(cs, (ls[l]).0) == -1
                    && paths_of(ls[l].1, path.push((ls[l]).0)).contains(q));
            }
        }
        if exists|l: int| j <= l < ls.len()
            && key_index(cs, (#[trigger] ls[l]).0) == -1
            && paths_of(ls[l].1, path.push(ls[l].0)).contains(q) {
            let l = choose|l: int| j <= l < ls.len()
                && key_index(cs, (#[trigger] ls[l]).0) == -1
                && paths_of(ls[l].1, path.push(ls[l].0)).contains(q);
            if l == j {
                assert(removed_paths(cs, ls, path, j).contains(q));
            } else {
                assert(j + 1 <= l < ls.len() && key_index(cs, (ls[l]).0) == -1
                    && paths_of(ls[l].1, path.push((ls[l]).0)).contains(q));
                assert(removed_paths(cs, ls, path, j + 1).contains(q));
            }
        }
    }
}

/// A removal pass over dropped children whose spaces hold exactly their
/// paths succeeds, clears exactly those paths, and keeps everything else.
proof fn lemma_removed_pass_total(
    cs: Seq<(u64, NodeV)>,
    ls: Seq<(u64, NodeV)>,
    path: Seq<u64>,
    j: int,
    st: StV,
)
    requires
        0 <= j,
        keys_unique(ls),
        wf_children(ls),
        concrete_children(ls),
        forall|l: int, q: Seq<u64>|
            j <= l < ls.len() && key_index(cs, ls[l].0) == -1
                && #[trigger] extends(path.push(ls[l].0), q)
                ==> (st.m.contains_key(q)
                    <==> paths_of(ls[l].1, path.push(ls[l].0)).contains(q)),
    ensures
        ({
            let e = removed_pass(cs, ls, path, j, st);
            &&& e.err is None
            &&& forall|q: Seq<u64>| #[trigger] e.st.m.contains_key(q)
                <==> st.m.contains_key(q) && !removed_paths(cs, ls, path, j).contains(q)
            &&& forall|q: Seq<u64>| #[trigger] e.st.m.contains_key(q)
                ==> e.st.m[q] == st.m[q]
        }),
    decreases ls.len() - j,
{
    if 0 <= j < ls.len() {
        let k = ls[j].0;
        let child_path = path.push(k);
        lemma_wf_children(ls);
        lemma_concrete_children(ls);
        if key_index(cs, k) == -1 {
            lemma_remove_total(ls[j].1, child_path, st);
            let e1 = remove_node_spec(ls[j].1, child_path, st);
            lemma_paths_in_space(ls[j].1, child_path);
            assert forall|l: int, q: Seq<u64>|
                j + 1 <= l < ls.len() && key_index(cs, ls[l].0) == -1
                    && #[trigger] extends(path.push(ls[l].0), q)
                    implies (e1.st.m.contains_key(q)
                        <==> paths_of(ls[l].1, path.push(ls[l].0)).contains(q)) by {
                if paths_of(ls[j].1, child_path).contains(q) {
                    crate::stability::lemma_extends_same_key(path, ls[l].0, k, q);
                }
            }
            lemma_removed_pass_total(cs, ls, path, j + 1, e1.st);
            let e2 = removed_pass(cs, ls, path, j + 1, e1.st);
            let e = removed_pass(cs, ls, path, j, st);
            assert(e.err is None && e.st.m == e2.st.m);
            assert forall|q: Seq<u64>| #[trigger] e.st.m.contains_key(q)
                <==> st.m.contains_key(q) && !removed_paths(cs, ls, path, j).contains(q) by {
                assert(e2.st.m.contains_key(q)
                    <==> e1.st.m.contains_key(q)
                        && !removed_paths(cs, ls, path, j + 1).contains(q));
                assert(e1.st.m.contains_key(q)
                    <==> st.m.contains_key(q)
                        && !paths_of(ls[j].1, child_path).contains(q));
            }
            assert forall|q: Seq<u64>| #[trigger] e.st.m.contains_key(q)
                implies e.st.m[q] == st.m[q] by {
                assert(e2.st.m.contains_key(q));
                assert(e1.st.m.contains_key(q));
            }
        } else {
            lemma_removed_pass_total(cs, ls, path, j + 1, st);
        }
    }
}

/// The forward pass over a well-formed new child list — each fresh key's
/// space untouched, each surviving key's space holding exactly the paths
/// of the old child — succeeds, rewrites each child's space to the new
/// child's paths, and keeps every entry outside those spaces.
proof fn lemma_forward_total(
    cs: Seq<(u64, NodeV)>,
    ls: Seq<(u64, NodeV)>,
    path: Seq<u64>,
    i: int,
    st: StV,
)
    requires
        0 <= i,
        keys_unique(cs),
        wf_children(cs),
        concrete_children(cs),
        wf_children(ls),
        concrete_children(ls),
        st.m.contains_key(path),
        forall|l: int, q: Seq<u64>|
            i <= l < cs.len() && key_index(ls, cs[l].0) == -1
                && #[trigger] extends(path.push(cs[l].0), q)
                ==> !st.m.contains_key(q),
        forall|l: int, q: Seq<u64>|
            i <= l < cs.len() && key_index(ls, cs[l].0) != -1
                && #[trigger] extends(path.push(cs[l].0), q)
                ==> (st.m.contains_key(q)
                    <==> paths_of(
                        ls[key_index(ls, cs[l].0)].1, path.push(cs[l].0)).contains(q)),
    ensures
        ({
            let e = forward_pass(cs, ls, path, i, st);
            &&& e.err is None
            &&& forall|l: int, q: Seq<u64>|
                i <= l < cs.len() && #[trigger] extends(path.push(cs[l].0), q)
                    ==> (e.st.m.contains_key(q)
                        <==> paths_of(cs[l].1, path.push(cs[l].0)).contains(q))
            &&& forall|q: Seq<u64>|
                #![trigger e.st.m.contains_key(q)]
                (forall|l: int| i <= l < cs.len()
                    ==> !extends(path.push((#[trigger] cs[l]).0), q))
                    ==> ((e.st.m.contains_key(q) <==> st.m.contains_key(q))
                        && (st.m.contains_key(q) ==> e.st.m[q] == st.m[q]))
        }),
    decreases cs, 1int, cs.len() - i,
{
    if 0 <= i < cs.len() {
        let k = cs[i].0;
        let child_path = path.push(k);
        let j = key_index(ls, k);
        lemma_wf_children(cs);
        lemma_concrete_children(cs);
        lemma_wf_children(ls);
        lemma_concrete_children(ls);
        lemma_key_index(ls, k);
        assert(child_path.drop_last() =~= path);
        let e1 = if j == -1 {
            add_node_spec(cs[i].1, child_path, i, st)
        } else {
            diff_spec(cs[i].1, ls[j].1, child_path, i, st)
        };
        if j == -1 {
            lemma_add_total(cs[i].1, child_path, i, st);
            lemma_paths_in_space(cs[i].1, child_path);
        } else {
            lemma_diff_total(cs[i].1, ls[j].1, child_path, i, st);
            assert(walk_covered(cs[i].1, ls[j].1, child_path, i, st));
        }
        assert(e1.err is None);
        // the step is confined to the space of its own key
        assert forall|q: Seq<u64>| !extends(child_path, q)
            implies ((e1.st.m.contains_key(q) <==> st.m.contains_key(q))
                && (st.m.contains_key(q) ==> e1.st.m[q] == st.m[q])) by {
            if j == -1 {
                if paths_of(cs[i].1, child_path).contains(q) {
                    assert(extends(child_path, q));
                }
            }
        }
        // and inside that space it leaves exactly the new child's paths
        assert forall|q: Seq<u64>| extends(child_path, q)
            implies (e1.st.m.contains_key(q)
                <==> paths_of(cs[i].1, child_path).contains(q)) by {
            if j == -1 {
                assert(!st.m.contains_key(q));
            }
        }
        assert(e1.st.m.contains_key(path)) by {
            assert(extends(child_path, path) ==> false);
        }
        assert forall|l: int, q: Seq<u64>|
            i + 1 <= l < cs.len() && key_index(ls, cs[l].0) == -1
                && #[trigger] extends(path.push(cs[l].0), q)
                implies !e1.st.m.contains_key(q) by {
            if extends(child_path, q) {
                crate::stability::lemma_extends_same_key(path, cs[l].0, k, q);
            }
        }
        assert forall|l: int, q: Seq<u64>|
            i + 1 <= l < cs.len() && key_index(ls, cs[l].0) != -1
                && #[trigger] extends(path.push(cs[l].0), q)
                implies (e1.st.m.contains_key(q)
                    <==> paths_of(
                        ls[key_index(ls, cs[l].0)].1, path.push(cs[l].0)).contains(q)) by {
            if extends(child_path, q) {
                crate::stability::lemma_extends_same_key(path, cs[l].0, k, q);
            }
        }
        lemma_forward_total(cs, ls, path, i + 1, e1.st);
        let e2 = forward_pass(cs, ls, path, i + 1, e1.st);
        let e = forward_pass(cs, ls, path, i, st);
        assert(e.err is None && e.st.m == e2.st.m);
        assert forall|l: int, q: Seq<u64>|
            i <= l < cs.len() && #[trigger] extends(path.push(cs[l].0), q)
                implies (e.st.m.contains_key(q)
                    <==> paths_of(cs[l].1, path.push(cs[l].0)).contains(q)) by {
            if l == i {
                assert forall|l2: int| i + 1 <= l2 < cs.len()
                    implies !extends(path.push((#[trigger] cs[l2]).0), q) by {
                    if extends(path.push(cs[l2].0), q) {
                        crate::stability::lemma_extends_same_key(path, cs[l2].0, k, q);
                    }
                }
                assert(e2.st.m.contains_key(q) <==> e1.st.m.contains_key(q));
            } else {
                assert(i + 1 <= l < cs.len());
            }
        }
        assert forall|q: Seq<u64>|
            (forall|l: int| i <= l < cs.len()
                ==> !extends(path.push((#[trigger] cs[l]).0), q))
                implies ((e.st.m.contains_key(q) <==> st.m.contains_key(q))
                    && (st.m.contains_key(q) ==> e.st.m[q] == st.m[q])) by {
            assert(!extends(child_path, q));
            assert forall|l: int| i + 1 <= l < cs.len()
                implies !extends(path.push((#[trigger] cs[l]).0), q) by {}
            assert(e2.st.m.contains_key(q) <==> e1.st.m.contains_key(q));
            if st.m.contains_key(q) {
                assert(e1.st.m.contains_key(q));
                assert(e2.st.m[q] == e1.st.m[q]);
            }
        }
    }
}

/// The whole walk on well-formed snapshots succeeds: when the node's
/// address space holds exactly the paths of the old snapshot, the walk
/// cannot fail, it rewrites that space to exactly the paths of the new
/// snapshot, and it keeps every entry and value outside it.
/// The conclusion of the walk theorem: no failure, the space rewritten to
/// the new snapshot's paths, everything else kept.
pub open spec fn walk_covered(curr: NodeV, last: NodeV, path: Seq<u64>, index: int, st: StV)
    -> bool {
    let e = diff_spec(curr, last, path, index, st);
    &&& e.err is None
    &&& forall|q: Seq<u64>| extends(path, q)
        ==> ((#[trigger] e.st.m.contains_key(q)) <==> paths_of(curr, path).contains(q))
    &&& forall|q: Seq<u64>| !extends(path, q)
        ==> ((#[trigger] e.st.m.contains_key(q)) <==> st.m.contains_key(q))
            && (st.m.contains_key(q) ==> e.st.m[q] == st.m[q])
}

#[verifier::rlimit(80)]
pub proof fn lemma_diff_total(curr: NodeV, last: NodeV, path: Seq<u64>, index: int, st: StV)
    requires
        node_wf(curr),
        concrete(curr),
        node_wf(last),
        concrete(last),
        parent_id_of(path, st.m) is Some,
        space_exact(st.m, path, last),
    ensures
        walk_covered(curr, last, path, index, st),
    decreases curr, 0int,
{
    assert(extends(path, path)) by {
        assert(path.take(path.len() as int) =~= path);
    }
    lemma_paths_base(last, path);
    assert(st.m.contains_key(path));
    match (curr, last) {
        (NodeV::Text { .. }, NodeV::Text { .. }) => {
            let e = diff_spec(curr, last, path, index, st);
            assert(e.err is None);
            assert(e.st.m == st.m);
            assert(paths_of(curr, path) == paths_of(last, path));
            assert(walk_covered(curr, last, path, index, st));
        }
        (
            NodeV::Element { tag: gc, params: pc, children: cc },
            NodeV::Element { tag: gl, params: pl, children: cl },
        ) => {
            if gc != gl {
                lemma_replace_covered(curr, last, path, index, st);
            } else {
                lemma_wf_children(cc);
                lemma_concrete_children(cc);
                lemma_wf_children(cl);
                lemma_concrete_children(cl);
                let e1 = if pc != pl {
                    params_changed_spec(curr, last, path, st)
                } else {
                    crate::differ::Emit { patches: Seq::empty(), st, err: None }
                };
                assert(e1.err is None && e1.st.m == st.m);
                let e2 = reorder_spec(path, reorder_pairs_v(cc, cl, 0), e1.st);
                assert(e2.err is None && e2.st.m == st.m);
                // dropped children's spaces hold exactly their paths
                assert forall|l: int, q: Seq<u64>|
                    0 <= l < cl.len() && key_index(cc, cl[l].0) == -1
                        && #[trigger] extends(path.push(cl[l].0), q)
                        implies (st.m.contains_key(q)
                            <==> paths_of(cl[l].1, path.push(cl[l].0)).contains(q)) by {
                    lemma_child_space_member(cl, path, l, q);
                    crate::stability::lemma_extends_step(path, cl[l].0, q);
                    assert(st.m.contains_key(q) <==> paths_of(last, path).contains(q));
                }
                lemma_removed_pass_total(cc, cl, path, 0, e2.st);
                let e3 = removed_pass(cc, cl, path, 0, e2.st);
                assert(e3.err is None);
                assert(e3.st.m.contains_key(path)) by {
                    if removed_paths(cc, cl, path, 0).contains(path) {
                        lemma_removed_paths_member(cc, cl, path, 0, path);
                        let l = choose|l: int| 0 <= l < cl.len()
                            && key_index(cc, (#[trigger] cl[l]).0) == -1
                            && paths_of(cl[l].1, path.push(cl[l].0)).contains(path);
                        lemma_paths_in_space(cl[l].1, path.push(cl[l].0));
                        assert(extends(path.push(cl[l].0), path));
                        assert(false);
                    }
                }
                // fresh keys' spaces are untouched after the removals
                assert forall|l: int, q: Seq<u64>|
                    0 <= l < cc.len() && key_index(cl, cc[l].0) == -1
                        && #[trigger] extends(path.push(cc[l].0), q)
                        implies !e3.st.m.contains_key(q) by {
                    crate::stability::lemma_extends_step(path, cc[l].0, q);
                    if st.m.contains_key(q) {
                        assert(paths_of(last, path).contains(q));
                        lemma_child_space_member(cl, path, -1, q);
                        let l2 = choose|l2: int| 0 <= l2 < cl.len()
                            && paths_of(
                                cl[l2].1, path.push((#[trigger] cl[l2]).0)).contains(q);
                        lemma_paths_in_space(cl[l2].1, path.push(cl[l2].0));
                        crate::stability::lemma_extends_same_key(path, cc[l].0, cl[l2].0, q);
                        lemma_key_index(cl, cc[l].0);
                        assert(false);
                    }
                }
                // survivors' spaces hold exactly the old child's paths
                assert forall|l: int, q: Seq<u64>|
                    0 <= l < cc.len() && key_index(cl, cc[l].0) != -1
                        && #[trigger] extends(path.push(cc[l].0), q)
                        implies (e3.st.m.contains_key(q)
                            <==> paths_of(
                                cl[key_index(cl, cc[l].0)].1,
                                path.push(cc[l].0),
                            ).contains(q)) by {
                    let j = key_index(cl, cc[l].0);
                    lemma_key_index(cl, cc[l].0);
                    assert(cl[j].0 == cc[l].0);
                    crate::stability::lemma_extends_step(path, cc[l].0, q);
                    if removed_paths(cc, cl, path, 0).contains(q) {
                        lemma_removed_paths_member(cc, cl, path, 0, q);
                        let l2 = choose|l2: int| 0 <= l2 < cl.len()
                            && key_index(cc, (#[trigger] cl[l2]).0) == -1
                            && paths_of(cl[l2].1, path.push(cl[l2].0)).contains(q);
                        lemma_paths_in_space(cl[l2].1, path.push(cl[l2].0));
                        crate::stability::lemma_extends_same_key(path, cc[l].0, cl[l2].0, q);
                        lemma_key_index(cc, cl[l2].0);
                        assert(false);
                    }
                    lemma_child_space_member(cl, path, j, q);
                    assert(st.m.contains_key(q) <==> paths_of(last, path).contains(q));
                }
                lemma_forward_total(cc, cl, path, 0, e3.st);
                let e4 = forward_pass(cc, cl, path, 0, e3.st);
                let e = diff_spec(curr, last, path, index, st);
                assert(e.err is None && e.st.m == e4.st.m);
                assert forall|q: Seq<u64>| extends(path, q)
                    implies ((#[trigger] e.st.m.contains_key(q))
                        <==> paths_of(curr, path).contains(q)) by {
                    lemma_diff_total_space_case(curr, last, path, st, e3.st, e4.st, q);
                }
                assert forall|q: Seq<u64>| !extends(path, q)
                    implies ((#[trigger] e.st.m.contains_key(q)) <==> st.m.contains_key(q))
                        && (st.m.contains_key(q) ==> e.st.m[q] == st.m[q]) by {
                    assert forall|l: int| 0 <= l < cc.len()
                        implies !extends(path.push((#[trigger] cc[l]).0), q) by {
                        if extends(path.push(cc[l].0), q) {
                            crate::stability::lemma_extends_step(path, cc[l].0, q);
                        }
                    }
                    if removed_paths(cc, cl, path, 0).contains(q) {
                        lemma_removed_paths_member(cc, cl, path, 0, q);
                        let l2 = choose|l2: int| 0 <= l2 < cl.len()
                            && key_index(cc, (#[trigger] cl[l2]).0) == -1
                            && paths_of(cl[l2].1, path.push(cl[l2].0)).contains(q);
                        lemma_paths_in_space(cl[l2].1, path.push(cl[l2].0));
                        crate::stability::lemma_extends_step(path, cl[l2].0, q);
                        assert(false);
                    }
                    assert(e3.st.m.contains_key(q) <==> st.m.contains_key(q));
                    assert(e4.st.m.contains_key(q) <==> e3.st.m.contains_key(q));
                    if st.m.contains_key(q) {
                        assert(e3.st.m.contains_key(q));
                        assert(e3.st.m[q] == st.m[q]);
                        assert(e4.st.m[q] == e3.st.m[q]);
                    }
                }
                assert(walk_covered(curr, last, path, index, st));
            }
        }
        _ => {
            lemma_replace_covered(curr, last, path, index, st);
        }
    }
}

/// Membership within one child's space is membership in the parent's
/// paths, for paths strictly below the parent.
proof fn lemma_child_space_member(s: Seq<(u64, NodeV)>, path: Seq<u64>, l: int, q: Seq<u64>)
    requires
        keys_unique(s),
    ensures
        0 <= l < s.len() && extends(path.push(s[l].0), q)
            ==> (paths_of_children(s, path, 0).contains(q)
                <==> paths_of(s[l].1, path.push(s[l].0)).contains(q)),
        paths_of_children(s, path, 0).contains(q)
            ==> exists|l2: int| 0 <= l2 < s.len()
                && paths_of(s[l2].1, path.push((#[trigger] s[l2]).0)).contains(q),
{
    lemma_paths_children_member(s, path, 0, q);
    if 0 <= l < s.len() && extends(path.push(s[l].0), q) {
        if paths_of_children(s, path, 0).contains(q) {
            let l2 = choose|l2: int| 0 <= l2 < s.len()
                && paths_of(s[l2].1, path.push((#[trigger] s[l2]).0)).contains(q);
            lemma_paths_in_space(s[l2].1, path.push(s[l2].0));
            crate::stability::lemma_extends_same_key(path, s[l].0, s[l2].0, q);
            assert(l2 == l);
        }
    }
}

/// The in-space case of the walk's coverage, one path at a time.
proof fn lemma_diff_total_space_case(
    curr: NodeV,
    last: NodeV,
    path: Seq<u64>,
    st: StV,
    st3: StV,
    st4: StV,
    q: Seq<u64>,
)
    requires
        curr matches NodeV::Element { .. },
        last matches NodeV::Element { .. },
        node_wf(curr),
        node_wf(last),
        extends(path, q),
        space_exact(st.m, path, last),
        st3.m.contains_key(path),
        forall|qq: Seq<u64>| #[trigger] st3.m.contains_key(qq)
            <==> st.m.contains_key(qq)
                && !removed_paths(
                    curr->Element_children, last->Element_children, path, 0).contains(qq),
        forall|l: int, qq: Seq<u64>|
            0 <= l < curr->Element_children.len()
                && #[trigger] extends(path.push(curr->Element_children[l].0), qq)
                ==> (st4.m.contains_key(qq)
                    <==> paths_of(
                        curr->Element_children[l].1,
                        path.push(curr->Element_children[l].0),
                    ).contains(qq)),
        forall|qq: Seq<u64>|
            #![trigger st4.m.contains_key(qq)]
            (forall|l: int| 0 <= l < curr->Element_children.len()
                ==> !extends(path.push((#[trigger] curr->Element_children[l]).0), qq))
                ==> (st4.m.contains_key(qq) <==> st3.m.contains_key(qq)),
    ensures
        st4.m.contains_key(q) <==> paths_of(curr, path).contains(q),
{
    let cc = curr->Element_children;
    let cl = last->Element_children;
    lemma_paths_base(curr, path);
    if q.len() == path.len() {
        assert(q =~= path);
        assert forall|l: int| 0 <= l < cc.len()
            implies !extends(path.push((#[trigger] cc[l]).0), q) by {}
        assert(st4.m.contains_key(q));
    } else {
        let k = q[path.len() as int];
        assert(extends(path.push(k), q)) by {
            assert(q.take(path.len() as int + 1) =~= path.push(k));
        }
        lemma_key_index(cc, k);
        lemma_key_index(cl, k);
        let lc = key_index(cc, k);
        if lc != -1 {
            assert(cc[lc].0 == k);
            assert(st4.m.contains_key(q)
                <==> paths_of(cc[lc].1, path.push(k)).contains(q));
            lemma_child_space_member(cc, path, lc, q);
            assert(paths_of(curr, path).contains(q)
                <==> paths_of_children(cc, path, 0).contains(q)) by {
                assert(q != path);
            }
        } else {
            assert forall|l: int| 0 <= l < cc.len()
                implies !extends(path.push((#[trigger] cc[l]).0), q) by {
                if extends(path.push(cc[l].0), q) {
                    crate::stability::lemma_extends_same_key(path, cc[l].0, k, q);
                }
            }
            assert(st4.m.contains_key(q) <==> st3.m.contains_key(q));
            assert(!paths_of(curr, path).contains(q)) by {
                if paths_of(curr, path).contains(q) {
                    assert(q != path);
                    lemma_child_space_member(cc, path, -1, q);
                    let l2 = choose|l2: int| 0 <= l2 < cc.len()
                        && paths_of(cc[l2].1, path.push((#[trigger] cc[l2]).0)).contains(q);
                    lemma_paths_in_space(cc[l2].1, path.push(cc[l2].0));
                    crate::stability::lemma_extends_same_key(path, cc[l2].0, k, q);
                    assert(false);
                }
            }
            if st3.m.contains_key(q) {
                assert(st.m.contains_key(q));
                assert(paths_of(last, path).contains(q));
                assert(q != path);
                lemma_child_space_member(cl, path, -1, q);
                let l2 = choose|l2: int| 0 <= l2 < cl.len()
                    && paths_of(cl[l2].1, path.push((#[trigger] cl[l2]).0)).contains(q);
                lemma_paths_in_space(cl[l2].1, path.push(cl[l2].0));
                crate::stability::lemma_extends_same_key(path, cl[l2].0, k, q);
                assert(cl[l2].0 == k);
                lemma_removed_paths_member(cc, cl, path, 0, q);
                assert(key_index(cc, cl[l2].0) == -1);
                assert(removed_paths(cc, cl, path, 0).contains(q));
                assert(false);
            }
        }
    }
}

/// At a kind change, the walk is the replacement, and it covers the space.
proof fn lemma_replace_covered(curr: NodeV, last: NodeV, path: Seq<u64>, index: int, st: StV)
    requires
        node_wf(curr),
        concrete(curr),
        node_wf(last),
        concrete(last),
        parent_id_of(path, st.m) is Some,
        space_exact(st.m, path, last),
        diff_spec(curr, last, path, index, st)
            == crate::differ::replace_spec(curr, last, path, index, st),
    ensures
        walk_covered(curr, last, path, index, st),
{
    lemma_replace_total(curr, last, path, index, st);
    let ed = diff_spec(curr, last, path, index, st);
    let er2 = crate::differ::replace_spec(curr, last, path, index, st);
    assert forall|q: Seq<u64>| extends(path, q)
        implies ((#[trigger] ed.st.m.contains_key(q))
            <==> paths_of(curr, path).contains(q)) by {
        assert(er2.st.m.contains_key(q) <==> paths_of(curr, path).contains(q));
    }
    assert forall|q: Seq<u64>| !extends(path, q)
        implies ((#[trigger] ed.st.m.contains_key(q)) <==> st.m.contains_key(q))
            && (st.m.contains_key(q) ==> ed.st.m[q] == st.m[q]) by {
        assert(er2.st.m.contains_key(q) <==> st.m.contains_key(q));
        if st.m.contains_key(q) {
            assert(er2.st.m[q] == st.m[q]);
        }
    }
}

/// A replacement at an exactly-covered space succeeds and leaves exactly
/// the new subtree's paths in it.
proof fn lemma_replace_total(curr: NodeV, last: NodeV, path: Seq<u64>, index: int, st: StV)
    requires
        node_wf(curr),
        concrete(curr),
        node_wf(last),
        concrete(last),
        parent_id_of(path, st.m) is Some,
        space_exact(st.m, path, last),
    ensures
        ({
            let e = crate::differ::replace_spec(curr, last, path, index, st);
            &&& e.err is None
            &&& forall|q: Seq<u64>| extends(path, q)
                ==> ((#[trigger] e.st.m.contains_key(q))
                    <==> paths_of(curr, path).contains(q))
            &&& forall|q: Seq<u64>| !extends(path, q)
                ==> ((#[trigger] e.st.m.contains_key(q)) <==> st.m.contains_key(q))
                    && (st.m.contains_key(q) ==> e.st.m[q] == st.m[q])
        }),
{
    lemma_remove_total(last, path, st);
    let er = remove_node_spec(last, path, st);
    lemma_paths_in_space(last, path);
    assert forall|q: Seq<u64>| #[trigger] extends(path, q)
        implies !er.st.m.contains_key(q) by {
        if er.st.m.contains_key(q) {
            assert(st.m.contains_key(q));
            assert(paths_of(last, path).contains(q));
        }
    }
    assert(parent_id_of(path, er.st.m) is Some) by {
        if path.len() > 0 {
            let par = path.drop_last();
            assert(st.m.contains_key(par));
            if paths_of(last, path).contains(par) {
                assert(extends(path, par));
                assert(false);
            }
            assert(er.st.m.contains_key(par));
        }
    }
    lemma_add_total(curr, path, index, er.st);
    let ea = add_node_spec(curr, path, index, er.st);
    lemma_paths_in_space(curr, path);
    assert forall|q: Seq<u64>| !extends(path, q)
        implies ((#[trigger] ea.st.m.contains_key(q)) <==> st.m.contains_key(q))
            && (st.m.contains_key(q) ==> ea.st.m[q] == st.m[q]) by {
        if paths_of(curr, path).contains(q) {
            assert(extends(path, q));
        }
        if paths_of(last, path).contains(q) {
            assert(extends(path, q));
        }
        if st.m.contains_key(q) {
            assert(er.st.m.contains_key(q));
            assert(er.st.m[q] == st.m[q]);
            assert(ea.st.m[q] == er.st.m[q]);
        }
    }
}

/// The whole update walk: on well-formed expanded snapshots, with the map
/// holding exactly one entry per node of the old snapshot, the walk
/// succeeds and leaves exactly one entry per node of the new snapshot —
/// no stale entry survives, none is missing.
pub proof fn lemma_update_total(curr: NodeV, last: NodeV, st: StV)
    requires
        node_wf(curr),
        concrete(curr),
        node_wf(last),
        concrete(last),
        forall|q: Seq<u64>| #[trigger] st.m.contains_key(q)
            <==> paths_of(last, Seq::empty()).contains(q),
    ensures
        ({
            let e = diff_spec(curr, last, Seq::empty(), 0, st);
            &&& e.err is None
            &&& forall|q: Seq<u64>| #[trigger] e.st.m.contains_key(q)
                <==> paths_of(curr, Seq::empty()).contains(q)
        }),
{
    assert forall|q: Seq<u64>| #[trigger] extends(Seq::<u64>::empty(), q) by {
        assert(q.take(0) =~= Seq::<u64>::empty());
    }
    lemma_diff_total(curr, last, Seq::empty(), 0, st);
    assert(walk_covered(curr, last, Seq::empty(), 0, st));
}

/// Construction succeeds: adding the whole expansion of a well-formed tree
/// at the root of a fresh identity state cannot fail, and the resulting
/// map holds exactly one entry per node of the expanded tree.
pub proof fn lemma_construction_total(t: NodeV)
    requires
        node_wf(t),
    ensures
        ({
            let ex = expand_v(t);
            let e = add_node_spec(ex, Seq::empty(), 0, StV { m: Map::empty(), next: 1 });
            &&& e.err is None
            &&& forall|q: Seq<u64>| #[trigger] e.st.m.contains_key(q)
                <==> paths_of(ex, Seq::empty()).contains(q)
        }),
{
    lemma_expand_wf(t);
    lemma_expand_concrete(t);
    lemma_add_total(expand_v(t), Seq::empty(), 0, StV { m: Map::empty(), next: 1 });
}

/// The size of a disjoint union is the sum of the sizes.
proof fn lemma_len_disjoint_union(s1: Set<Seq<u64>>, s2: Set<Seq<u64>>)
    requires
        s1.finite(),
        s2.finite(),
        forall|q: Seq<u64>| !(s1.contains(q) && s2.contains(q)),
    ensures
        s1.union(s2).finite(),
        s1.union(s2).len() == s1.len() + s2.len(),
    decreases s1.len(),
{
    if s1.is_empty() {
        assert(s1.union(s2) =~= s2);
        assert(s1.len() == 0);
    } else {
        let a = s1.choose();
        assert(s1.contains(a));
        assert(!s2.contains(a));
        assert(s1.union(s2).remove(a) =~= s1.remove(a).union(s2));
        lemma_len_disjoint_union(s1.remove(a), s2);
        assert(s1.union(s2).contains(a));
        assert(s1.union(s2) =~= s1.union(s2).remove(a).insert(a));
    }
}

/// A well-formed concrete subtree has exactly one path per node.
pub proof fn lemma_paths_count(t: NodeV, base: Seq<u64>)
    requires
        node_wf(t),
        concrete(t),
    ensures
        paths_of(t, base).finite(),
        paths_of(t, base).len() == count_v(t),
    decreases t, 0int,
{
    match t {
        NodeV::Element { children, .. } => {
            lemma_wf_children(children);
            lemma_concrete_children(children);
            lemma_paths_children_count(children, base, 0);
            let pc = paths_of_children(children, base, 0);
            assert(!pc.contains(base)) by {
                if pc.contains(base) {
                    lemma_paths_of_children_in_space(children, base, 0);
                    lemma_paths_children_member(children, base, 0, base);
                    let l = choose|l: int| 0 <= l < children.len()
                        && paths_of(
                            children[l].1,
                            base.push((#[trigger] children[l]).0),
                        ).contains(base);
                    lemma_paths_in_space(children[l].1, base.push(children[l].0));
                    assert(extends(base.push(children[l].0), base));
                    assert(false);
                }
            }
        }
        NodeV::Widget { .. } => {
            assert(false);
        }
        _ => {}
    }
}

/// A well-formed child list tail has exactly one path per node.
proof fn lemma_paths_children_count(s: Seq<(u64, NodeV)>, base: Seq<u64>, i: int)
    requires
        0 <= i,
        keys_unique(s),
        wf_children(s),
        concrete_children(s),
    ensures
        paths_of_children(s, base, i).finite(),
        paths_of_children(s, base, i).len() == count_children_from(s, i),
    decreases s, s.len() - i,
{
    if 0 <= i < s.len() {
        lemma_wf_children(s);
        lemma_concrete_children(s);
        lemma_paths_count(s[i].1, base.push(s[i].0));
        lemma_paths_children_count(s, base, i + 1);
        let a = paths_of(s[i].1, base.push(s[i].0));
        let b = paths_of_children(s, base, i + 1);
        assert forall|q: Seq<u64>| !(a.contains(q) && b.contains(q)) by {
            if a.contains(q) && b.contains(q) {
                lemma_paths_in_space(s[i].1, base.push(s[i].0));
                lemma_paths_children_member(s, base, i + 1, q);
                let l = choose|l: int| i + 1 <= l < s.len()
                    && paths_of(s[l].1, base.push((#[trigger] s[l]).0)).contains(q);
                lemma_paths_in_space(s[l].1, base.push(s[l].0));
                crate::stability::lemma_extends_same_key(base, s[i].0, s[l].0, q);
                assert(false);
            }
        }
        lemma_len_disjoint_union(a, b);
        lemma_count_children_step(s, i);
    }
}

/// Add/remove balance against the live tree: in a context whose identity
/// map holds exactly one entry per node of the stored snapshot, the number
/// of `Add` records emitted since construction minus the number of
/// `Remove` records emitted equals the number of live nodes.
pub proof fn lemma_live_node_balance(ctx: crate::context::Context)
    requires
        ctx.wf(),
        node_wf(ctx.last@),
        forall|q: Seq<u64>| #[trigger] ctx.states.m().contains_key(q)
            <==> paths_of(ctx.last@, Seq::empty()).contains(q),
    ensures
        ctx.adds@ - ctx.removes@ == count_v(ctx.last@),
{
    lemma_paths_count(ctx.last@, Seq::empty());
    assert(ctx.states.m().dom() =~= paths_of(ctx.last@, Seq::empty()));
}

/// Expansion preserves well-formedness.
pub proof fn lemma_expand_wf(n: NodeV)
    ensures
        node_wf(n) ==> node_wf(expand_v(n)),
    decreases n, 0int,
{
    match n {
        NodeV::Element { children, .. } => {
            lemma_expand_children_v(children);
            if node_wf(n) {
                lemma_wf_children(children);
                lemma_wf_children(expand_children_v(children));
                assert forall|l: int| 0 <= l < expand_children_v(children).len()
                    implies #[trigger] node_wf(expand_children_v(children)[l].1) by {
                    lemma_expand_wf(children[l].1);
                }
            }
        }
        NodeV::Widget { body } => {
            lemma_expand_wf(*body);
        }
        _ => {}
    }
}

} // verus!
