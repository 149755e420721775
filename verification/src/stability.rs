//! Identity stability: a node whose path and kind survive an update — with
//! every ancestor surviving in kind too — keeps its identity.  The proof
//! rests on frame lemmas: every event touches the identity map only inside
//! the address space of its own subtree.

use vstd::prelude::*;
use crate::nodes::{
    concrete, concrete_children, key_index, kind_v, lemma_concrete_children, lemma_key_index,
    lemma_wf_children, node_at, node_wf, keys_unique, wf_children, NodeV,
};
use crate::differ::{
    add_children_spec, add_node_spec, params_changed_spec, parent_id_of, remove_children_spec,
    remove_node_spec, reorder_spec, Emit, StV,
};
use crate::engine::{diff_spec, forward_pass, removed_pass, reorder_pairs_v};

verus! {

/// `base` is a prefix of `q`: the node at `q` lies in the subtree of the
/// node at `base`.
pub open spec fn extends(base: Seq<u64>, q: Seq<u64>) -> bool {
    q.len() >= base.len() && q.take(base.len() as int) == base
}

/// An entry of the earlier map survives unchanged into the later one.
pub open spec fn preserved_at(
    m1: Map<Seq<u64>, u64>,
    m2: Map<Seq<u64>, u64>,
    q: Seq<u64>,
) -> bool {
    m2.contains_key(q) ==> (m1.contains_key(q) && m1[q] == m2[q])
}

/// Extension through a longer base is extension through the shorter one.
pub proof fn lemma_extends_step(path: Seq<u64>, k: u64, q: Seq<u64>)
    requires
        extends(path.push(k), q),
    ensures
        extends(path, q),
{
    assert(q.take(path.len() as int) =~= path) by {
        assert(forall|i: int| 0 <= i < path.len()
            ==> q.take(path.len() as int + 1)[i] == q[i]);
    }
}

/// Two one-segment extensions of one base that both prefix `q` share that
/// segment.
pub proof fn lemma_extends_same_key(path: Seq<u64>, k1: u64, k2: u64, q: Seq<u64>)
    requires
        extends(path.push(k1), q),
        extends(path.push(k2), q),
    ensures
        k1 == k2,
{
    assert(q.take(path.len() as int + 1) == path.push(k1));
    assert(q.take(path.len() as int + 1) == path.push(k2));
    assert(path.push(k1)[path.len() as int] == k1);
    assert(path.push(k2)[path.len() as int] == k2);
}

/// Adding a subtree leaves every entry outside its address space alone.
proof fn lemma_add_untouched(n: NodeV, path: Seq<u64>, index: int, st: StV, q: Seq<u64>)
    requires
        !extends(path, q),
    ensures
        preserved_at(add_node_spec(n, path, index, st).st.m, st.m, q),
    decreases n, 0int,
{
    assert(path.take(path.len() as int) =~= path);
    assert(q != path);
    match parent_id_of(path, st.m) {
        None => {}
        Some(_) => {
            if !st.m.contains_key(path) {
                let st1 = StV { m: st.m.insert(path, st.next as u64), next: st.next + 1 };
                match n {
                    NodeV::Element { children, .. } => {
                        lemma_add_children_untouched(children, path, 0, st1, q);
                    }
                    _ => {}
                }
            }
        }
    }
}

/// Adding a child list leaves every entry outside the parent's address
/// space alone.
proof fn lemma_add_children_untouched(
    s: Seq<(u64, NodeV)>,
    path: Seq<u64>,
    i: int,
    st: StV,
    q: Seq<u64>,
)
    requires
        !extends(path, q),
    ensures
        preserved_at(add_children_spec(s, path, i, st).st.m, st.m, q),
    decreases s, s.len() - i,
{
    if 0 <= i < s.len() {
        if extends(path.push(s[i].0), q) {
            lemma_extends_step(path, s[i].0, q);
        }
        lemma_add_untouched(s[i].1, path.push(s[i].0), i, st, q);
        let e1 = add_node_spec(s[i].1, path.push(s[i].0), i, st);
        if e1.err is None {
            lemma_add_children_untouched(s, path, i + 1, e1.st, q);
        }
    }
}

/// Removing a subtree leaves every entry outside its address space alone.
proof fn lemma_remove_untouched(n: NodeV, path: Seq<u64>, st: StV, q: Seq<u64>)
    requires
        !extends(path, q),
    ensures
        preserved_at(remove_node_spec(n, path, st).st.m, st.m, q),
    decreases n, 0int,
{
    assert(path.take(path.len() as int) =~= path);
    assert(q != path);
    match n {
        NodeV::Element { children, .. } => {
            lemma_remove_children_untouched(children, path, 0, st, q);
        }
        _ => {}
    }
}

/// Removing a child list leaves every entry outside the parent's address
/// space alone.
proof fn lemma_remove_children_untouched(
    s: Seq<(u64, NodeV)>,
    path: Seq<u64>,
    i: int,
    st: StV,
    q: Seq<u64>,
)
    requires
        !extends(path, q),
    ensures
        preserved_at(remove_children_spec(s, path, i, st).st.m, st.m, q),
    decreases s, s.len() - i,
{
    if 0 <= i < s.len() {
        if extends(path.push(s[i].0), q) {
            lemma_extends_step(path, s[i].0, q);
        }
        lemma_remove_untouched(s[i].1, path.push(s[i].0), st, q);
        let e1 = remove_node_spec(s[i].1, path.push(s[i].0), st);
        if e1.err is None {
            lemma_remove_children_untouched(s, path, i + 1, e1.st, q);
        }
    }
}

/// A removal pass leaves `q` alone when `q` lies under none of the removed
/// keys.
proof fn lemma_removed_pass_untouched(
    cs: Seq<(u64, NodeV)>,
    ls: Seq<(u64, NodeV)>,
    path: Seq<u64>,
    j: int,
    st: StV,
    q: Seq<u64>,
)
    requires
        forall|jj: int| j <= jj < ls.len() && key_index(cs, (#[trigger] ls[jj]).0) == -1
            ==> !extends(path.push(ls[jj].0), q),
    ensures
        preserved_at(removed_pass(cs, ls, path, j, st).st.m, st.m, q),
    decreases ls.len() - j,
{
    if 0 <= j < ls.len() {
        if key_index(cs, ls[j].0) == -1 {
            lemma_remove_untouched(ls[j].1, path.push(ls[j].0), st, q);
            let e1 = remove_node_spec(ls[j].1, path.push(ls[j].0), st);
            if e1.err is None {
                lemma_removed_pass_untouched(cs, ls, path, j + 1, e1.st, q);
            }
        } else {
            lemma_removed_pass_untouched(cs, ls, path, j + 1, st, q);
        }
    }
}

/// A forward pass leaves `q` alone when `q` lies under none of the new
/// children.
proof fn lemma_forward_untouched(
    cs: Seq<(u64, NodeV)>,
    ls: Seq<(u64, NodeV)>,
    path: Seq<u64>,
    i: int,
    st: StV,
    q: Seq<u64>,
)
    requires
        forall|ii: int| i <= ii < cs.len()
            ==> !extends(path.push((#[trigger] cs[ii]).0), q),
    ensures
        preserved_at(forward_pass(cs, ls, path, i, st).st.m, st.m, q),
    decreases cs, 1int, cs.len() - i,
{
    if 0 <= i < cs.len() {
        let j = key_index(ls, cs[i].0);
        if j == -1 {
            lemma_add_untouched(cs[i].1, path.push(cs[i].0), i, st, q);
        } else {
            lemma_diff_untouched(cs[i].1, ls[j].1, path.push(cs[i].0), i, st, q);
        }
        let e1 = if j == -1 {
            add_node_spec(cs[i].1, path.push(cs[i].0), i, st)
        } else {
            diff_spec(cs[i].1, ls[j].1, path.push(cs[i].0), i, st)
        };
        if e1.err is None {
            lemma_forward_untouched(cs, ls, path, i + 1, e1.st, q);
        }
    }
}

/// A walk leaves every entry outside its node's address space alone.
proof fn lemma_diff_untouched(
    curr: NodeV,
    last: NodeV,
    path: Seq<u64>,
    index: int,
    st: StV,
    q: Seq<u64>,
)
    requires
        !extends(path, q),
    ensures
        preserved_at(diff_spec(curr, last, path, index, st).st.m, st.m, q),
    decreases curr, 0int,
{
    match (curr, last) {
        (NodeV::Text { .. }, NodeV::Text { .. }) => {}
        (
            NodeV::Element { tag: gc, params: pc, children: cc },
            NodeV::Element { tag: gl, params: pl, children: cl },
        ) => {
            if gc != gl {
                lemma_remove_untouched(last, path, st, q);
                let er = remove_node_spec(last, path, st);
                if er.err is None {
                    lemma_add_untouched(curr, path, index, er.st, q);
                }
            } else {
                let e1 = if pc != pl {
                    params_changed_spec(curr, last, path, st)
                } else {
                    Emit { patches: Seq::empty(), st, err: None }
                };
                if e1.err is None {
                    let e2 = reorder_spec(path, reorder_pairs_v(cc, cl, 0), e1.st);
                    if e2.err is None {
                        assert forall|jj: int|
                            0 <= jj < cl.len() && key_index(cc, (#[trigger] cl[jj]).0) == -1
                                implies !extends(path.push(cl[jj].0), q) by {
                            if extends(path.push(cl[jj].0), q) {
                                lemma_extends_step(path, cl[jj].0, q);
                            }
                        }
                        lemma_removed_pass_untouched(cc, cl, path, 0, e2.st, q);
                        let e3 = removed_pass(cc, cl, path, 0, e2.st);
                        if e3.err is None {
                            assert forall|ii: int| 0 <= ii < cc.len()
                                implies !extends(path.push((#[trigger] cc[ii]).0), q) by {
                                if extends(path.push(cc[ii].0), q) {
                                    lemma_extends_step(path, cc[ii].0, q);
                                }
                            }
                            lemma_forward_untouched(cc, cl, path, 0, e3.st, q);
                        }
                    }
                }
            }
        }
        _ => {
            lemma_remove_untouched(last, path, st, q);
            let er = remove_node_spec(last, path, st);
            if er.err is None {
                lemma_add_untouched(curr, path, index, er.st, q);
            }
        }
    }
}

/// The spine of `r` survives the update in kind: at every prefix of `r`,
/// both snapshots hold a node, and the two nodes are of one kind.
pub open spec fn spine_survives(curr: NodeV, last: NodeV, r: Seq<u64>) -> bool {
    forall|l: int| 0 <= l <= r.len() ==> {
        &&& (#[trigger] node_at(curr, r.take(l))) is Some
        &&& node_at(last, r.take(l)) is Some
        &&& kind_v(node_at(curr, r.take(l))->Some_0)
            == kind_v(node_at(last, r.take(l))->Some_0)
    }
}

/// A removal pass leaves the subtree space of a surviving key alone.
proof fn lemma_removed_pass_spine(
    cs: Seq<(u64, NodeV)>,
    ls: Seq<(u64, NodeV)>,
    path: Seq<u64>,
    st: StV,
    q: Seq<u64>,
    k0: u64,
)
    requires
        key_index(cs, k0) != -1,
        extends(path.push(k0), q),
    ensures
        preserved_at(removed_pass(cs, ls, path, 0, st).st.m, st.m, q),
{
    assert forall|jj: int| 0 <= jj < ls.len() && key_index(cs, (#[trigger] ls[jj]).0) == -1
        implies !extends(path.push(ls[jj].0), q) by {
        if extends(path.push(ls[jj].0), q) {
            lemma_extends_same_key(path, ls[jj].0, k0, q);
        }
    }
    lemma_removed_pass_untouched(cs, ls, path, 0, st, q);
}

/// Forward pass along the spine: the surviving child keyed `r[0]` keeps
/// the identities on its own surviving spine; every other child stays out
/// of that address space.
proof fn lemma_forward_spine(
    cs: Seq<(u64, NodeV)>,
    ls: Seq<(u64, NodeV)>,
    path: Seq<u64>,
    i: int,
    st: StV,
    r: Seq<u64>,
)
    requires
        wf_children(cs),
        concrete_children(cs),
        keys_unique(cs),
        r.len() >= 1,
        key_index(cs, r[0]) != -1,
        key_index(ls, r[0]) != -1,
        spine_survives(
            cs[key_index(cs, r[0])].1,
            ls[key_index(ls, r[0])].1,
            r.drop_first(),
        ),
    ensures
        preserved_at(forward_pass(cs, ls, path, i, st).st.m, st.m, path + r),
    decreases r.len(), 0int, cs.len() - i,
{
    let q = path + r;
    let k0 = r[0];
    let i0 = key_index(cs, k0);
    let j0 = key_index(ls, k0);
    lemma_key_index(cs, k0);
    lemma_key_index(ls, k0);
    assert(q.take(path.len() as int + 1) =~= path.push(k0));
    if 0 <= i < cs.len() {
        let kk = cs[i].0;
        let j = key_index(ls, kk);
        let e1 = if j == -1 {
            add_node_spec(cs[i].1, path.push(kk), i, st)
        } else {
            diff_spec(cs[i].1, ls[j].1, path.push(kk), i, st)
        };
        if kk == k0 {
            assert(i == i0);
            assert(j == j0);
            lemma_wf_children(cs);
            lemma_concrete_children(cs);
            lemma_identity_stable(cs[i0].1, ls[j0].1, path.push(k0), i, st, r.drop_first());
            assert(path.push(k0) + r.drop_first() =~= q);
        } else {
            if extends(path.push(kk), q) {
                lemma_extends_same_key(path, kk, k0, q);
            }
            if j == -1 {
                lemma_add_untouched(cs[i].1, path.push(kk), i, st, q);
            } else {
                lemma_diff_untouched(cs[i].1, ls[j].1, path.push(kk), i, st, q);
            }
        }
        if e1.err is None {
            lemma_forward_spine(cs, ls, path, i + 1, e1.st, r);
        }
    }
}

/// Identity stability: when the node a key path `r` leads to exists in
/// both snapshots, and along the whole path every node survives with its
/// kind unchanged, the walk keeps that node's identity: its entry in the
/// path map is neither retired nor rewritten.
pub proof fn lemma_identity_stable(
    curr: NodeV,
    last: NodeV,
    path: Seq<u64>,
    index: int,
    st: StV,
    r: Seq<u64>,
)
    requires
        node_wf(curr),
        concrete(curr),
        spine_survives(curr, last, r),
    ensures
        preserved_at(diff_spec(curr, last, path, index, st).st.m, st.m, path + r),
    decreases r.len(), 1int, 0int,
{
    let q = path + r;
    assert(r.take(0) =~= Seq::<u64>::empty());
    assert(node_at(curr, r.take(0)) == Some(curr));
    assert(node_at(last, r.take(0)) == Some(last));
    assert(kind_v(curr) == kind_v(last));
    match (curr, last) {
        (NodeV::Text { .. }, NodeV::Text { .. }) => {
            let e = diff_spec(curr, last, path, index, st);
            assert(e.st.m == st.m);
        }
        (
            NodeV::Element { tag: gc, params: pc, children: cc },
            NodeV::Element { tag: gl, params: pl, children: cl },
        ) => {
            assert(gc == gl);
            let e1 = if pc != pl {
                params_changed_spec(curr, last, path, st)
            } else {
                Emit { patches: Seq::empty(), st, err: None }
            };
            assert(e1.st.m == st.m);
            if e1.err is None {
                let e2 = reorder_spec(path, reorder_pairs_v(cc, cl, 0), e1.st);
                assert(e2.st.m == st.m);
                if e2.err is None {
                    if r.len() == 0 {
                        assert(q =~= path);
                        assert forall|jj: int|
                            0 <= jj < cl.len() && key_index(cc, (#[trigger] cl[jj]).0) == -1
                                implies !extends(path.push(cl[jj].0), q) by {}
                        lemma_removed_pass_untouched(cc, cl, path, 0, e2.st, q);
                        let e3 = removed_pass(cc, cl, path, 0, e2.st);
                        if e3.err is None {
                            assert forall|ii: int| 0 <= ii < cc.len()
                                implies !extends(path.push((#[trigger] cc[ii]).0), q) by {}
                            lemma_forward_untouched(cc, cl, path, 0, e3.st, q);
                        }
                    } else {
                        let k0 = r[0];
                        assert(r.take(1).len() == 1 && r.take(1)[0] == k0);
                        assert(node_at(curr, r.take(1)) is Some);
                        assert(node_at(last, r.take(1)) is Some);
                        let i0 = key_index(cc, k0);
                        let j0 = key_index(cl, k0);
                        assert(i0 != -1);
                        assert(j0 != -1);
                        assert(extends(path.push(k0), q)) by {
                            assert(q.take(path.len() as int + 1) =~= path.push(k0));
                        }
                        lemma_removed_pass_spine(cc, cl, path, e2.st, q, k0);
                        let e3 = removed_pass(cc, cl, path, 0, e2.st);
                        if e3.err is None {
                            let rr = r.drop_first();
                            assert forall|l: int| 0 <= l <= rr.len() implies {
                                &&& (#[trigger] node_at(cc[i0].1, rr.take(l))) is Some
                                &&& node_at(cl[j0].1, rr.take(l)) is Some
                                &&& kind_v(node_at(cc[i0].1, rr.take(l))->Some_0)
                                    == kind_v(node_at(cl[j0].1, rr.take(l))->Some_0)
                            } by {
                                let s = r.take(l + 1);
                                assert(s.len() == l + 1);
                                assert(s[0] == k0);
                                assert(s.drop_first() =~= rr.take(l));
                                assert(node_at(curr, s) is Some);
                                assert(node_at(curr, s) == node_at(cc[i0].1, rr.take(l)));
                                assert(node_at(last, s) == node_at(cl[j0].1, rr.take(l)));
                            }
                            lemma_forward_spine(cc, cl, path, 0, e3.st, r);
                        }
                    }
                }
            }
        }
        _ => {
            assert(false);
        }
    }
}

} // verus!
