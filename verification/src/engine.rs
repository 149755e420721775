//! The tree-diff walk: compares two concrete tree snapshots and drives the
//! event sink once per structural difference, parent before child for
//! additions, children before parent for removals.
//!
//! At a surviving element, the walk emits in this order: the attribute
//! delta of the node itself, one reorder event for its permuted children,
//! the removals of dropped keys in old order, then, in new order, an
//! addition for each fresh key and the recursive walk for each survivor.

use vstd::prelude::*;
use crate::nodes::{
    concrete, concrete_children, count_children_from, count_v, key_index, children_view,
    lemma_children_view, lemma_concrete_children, lemma_count_children_step, lemma_key_index,
    Node, NodeV,
};
use crate::patch::{batch_view, PatchV};
use crate::differ::{
    add_node_spec, lemma_add_next, lemma_remove_next, params_changed_spec, pairs_view,
    remove_node_spec, reorder_spec, replace_spec, Differ, Emit, StV,
};
use crate::states::{path_child, DiffError};

verus! {

/// Joins two successive outcomes: their records in order, the later state.
pub open spec fn emit_join(a: Emit, b: Emit) -> Emit {
    Emit { patches: a.patches + b.patches, st: b.st, err: b.err }
}

/// The (new index, old index) moves of the surviving children: one pair per
/// key present in both lists whose position changed, in new-list order.
pub open spec fn reorder_pairs_v(cs: Seq<(u64, NodeV)>, ls: Seq<(u64, NodeV)>, i: int)
    -> Seq<(int, int)>
    decreases cs.len() - i,
{
    if i < 0 || i >= cs.len() {
        Seq::empty()
    } else {
        let rest = reorder_pairs_v(cs, ls, i + 1);
        let j = key_index(ls, cs[i].0);
        if j != -1 && j != i {
            seq![(i, j)] + rest
        } else {
            rest
        }
    }
}

/// Outcome of removing every child of the old list whose key left the new
/// list, in old-list order, each subtree in post-order.
pub open spec fn removed_pass(
    cs: Seq<(u64, NodeV)>,
    ls: Seq<(u64, NodeV)>,
    path: Seq<u64>,
    j: int,
    st: StV,
) -> Emit
    decreases ls.len() - j,
{
    if j < 0 || j >= ls.len() {
        Emit { patches: Seq::empty(), st, err: None }
    } else if key_index(cs, ls[j].0) == -1 {
        let e1 = remove_node_spec(ls[j].1, path.push(ls[j].0), st);
        if e1.err is Some {
            e1
        } else {
            emit_join(e1, removed_pass(cs, ls, path, j + 1, e1.st))
        }
    } else {
        removed_pass(cs, ls, path, j + 1, st)
    }
}

/// Outcome of the forward pass over the new child list: an addition for
/// each fresh key, the recursive walk for each survivor, in new-list order.
pub open spec fn forward_pass(
    cs: Seq<(u64, NodeV)>,
    ls: Seq<(u64, NodeV)>,
    path: Seq<u64>,
    i: int,
    st: StV,
) -> Emit
    decreases cs, 1int, cs.len() - i,
{
    if i < 0 || i >= cs.len() {
        Emit { patches: Seq::empty(), st, err: None }
    } else {
        let j = key_index(ls, cs[i].0);
        let e1 = if j == -1 {
            add_node_spec(cs[i].1, path.push(cs[i].0), i, st)
        } else {
            diff_spec(cs[i].1, ls[j].1, path.push(cs[i].0), i, st)
        };
        if e1.err is Some {
            e1
        } else {
            emit_join(e1, forward_pass(cs, ls, path, i + 1, e1.st))
        }
    }
}

/// Outcome of the whole walk at one node: nothing for an unchanged text
/// leaf, `SetText` for a changed one, removal-then-addition when the kind
/// or tag changed, and for a surviving element the attribute delta, the
/// reorder event, the removals, and the forward pass, in that order.
pub open spec fn diff_spec(curr: NodeV, last: NodeV, path: Seq<u64>, index: int, st: StV)
    -> Emit
    decreases curr, 0int,
{
    match (curr, last) {
        (NodeV::Text { content: tc }, NodeV::Text { content: tl }) => {
            if tc == tl {
                Emit { patches: Seq::empty(), st, err: None }
            } else {
                params_changed_spec(curr, last, path, st)
            }
        }
        (
            NodeV::Element { tag: gc, params: pc, children: cc },
            NodeV::Element { tag: gl, params: pl, children: cl },
        ) => {
            if gc != gl {
                replace_spec(curr, last, path, index, st)
            } else {
                let e1 = if pc != pl {
                    params_changed_spec(curr, last, path, st)
                } else {
                    Emit { patches: Seq::empty(), st, err: None }
                };
                if e1.err is Some {
                    e1
                } else {
                    let e2 = reorder_spec(path, reorder_pairs_v(cc, cl, 0), e1.st);
                    let e12 = emit_join(e1, e2);
                    if e2.err is Some {
                        e12
                    } else {
                        let e3 = removed_pass(cc, cl, path, 0, e2.st);
                        let e123 = emit_join(e12, e3);
                        if e3.err is Some {
                            e123
                        } else {
                            emit_join(e123, forward_pass(cc, cl, path, 0, e3.st))
                        }
                    }
                }
            }
        }
        _ => replace_spec(curr, last, path, index, st),
    }
}

/// A removal pass leaves the identity counter unchanged.
pub proof fn lemma_removed_pass_next(
    cs: Seq<(u64, NodeV)>,
    ls: Seq<(u64, NodeV)>,
    path: Seq<u64>,
    j: int,
    st: StV,
)
    ensures
        removed_pass(cs, ls, path, j, st).st.next == st.next,
    decreases ls.len() - j,
{
    if 0 <= j < ls.len() {
        if key_index(cs, ls[j].0) == -1 {
            lemma_remove_next(ls[j].1, path.push(ls[j].0), st);
            let e1 = remove_node_spec(ls[j].1, path.push(ls[j].0), st);
            if e1.err is None {
                lemma_removed_pass_next(cs, ls, path, j + 1, e1.st);
            }
        } else {
            lemma_removed_pass_next(cs, ls, path, j + 1, st);
        }
    }
}

/// A walk advances the identity counter by at most the node count of the
/// new tree, and never moves it back.
pub proof fn lemma_diff_next(curr: NodeV, last: NodeV, path: Seq<u64>, index: int, st: StV)
    ensures
        st.next <= diff_spec(curr, last, path, index, st).st.next <= st.next + count_v(curr),
    decreases curr, 0int,
{
    crate::nodes::lemma_count_pos(curr);
    match (curr, last) {
        (NodeV::Text { .. }, NodeV::Text { .. }) => {}
        (
            NodeV::Element { tag: gc, params: pc, children: cc },
            NodeV::Element { tag: gl, params: pl, children: cl },
        ) => {
            if gc != gl {
                lemma_remove_next(last, path, st);
                let er = remove_node_spec(last, path, st);
                if er.err is None {
                    lemma_add_next(curr, path, index, er.st);
                }
            } else {
                let e1 = if pc != pl {
                    params_changed_spec(curr, last, path, st)
                } else {
                    Emit { patches: Seq::empty(), st, err: None }
                };
                if e1.err is None {
                    let e2 = reorder_spec(path, reorder_pairs_v(cc, cl, 0), e1.st);
                    if e2.err is None {
                        lemma_removed_pass_next(cc, cl, path, 0, e2.st);
                        let e3 = removed_pass(cc, cl, path, 0, e2.st);
                        if e3.err is None {
                            lemma_forward_next(cc, cl, path, 0, e3.st);
                        }
                    }
                }
            }
        }
        _ => {
            lemma_remove_next(last, path, st);
            let er = remove_node_spec(last, path, st);
            if er.err is None {
                lemma_add_next(curr, path, index, er.st);
            }
        }
    }
}

/// A forward pass advances the identity counter by at most the node count
/// of the children passed, and never moves it back.
pub proof fn lemma_forward_next(
    cs: Seq<(u64, NodeV)>,
    ls: Seq<(u64, NodeV)>,
    path: Seq<u64>,
    i: int,
    st: StV,
)
    ensures
        st.next <= forward_pass(cs, ls, path, i, st).st.next
            <= st.next + count_children_from(cs, i),
    decreases cs, 1int, cs.len() - i,
{
    if 0 <= i < cs.len() {
        let j = key_index(ls, cs[i].0);
        let e1 = if j == -1 {
            add_node_spec(cs[i].1, path.push(cs[i].0), i, st)
        } else {
            diff_spec(cs[i].1, ls[j].1, path.push(cs[i].0), i, st)
        };
        if j == -1 {
            lemma_add_next(cs[i].1, path.push(cs[i].0), i, st);
        } else {
            lemma_diff_next(cs[i].1, ls[j].1, path.push(cs[i].0), i, st);
        }
        if e1.err is None {
            lemma_forward_next(cs, ls, path, i + 1, e1.st);
        }
        lemma_count_children_step(cs, i);
    }
}

/// Computes the reorder pairs of two keyed child lists.
fn compute_pairs(cc: &Vec<(u64, Node)>, cl: &Vec<(u64, Node)>) -> (r: Vec<(usize, usize)>)
    ensures
        pairs_view(r@) == reorder_pairs_v(children_view(cc@), children_view(cl@), 0),
{
    let ghost cv = children_view(cc@);
    let ghost lv = children_view(cl@);
    proof {
        lemma_children_view(cc@);
        lemma_children_view(cl@);
    }
    let n = cc.len();
    let mut out: Vec<(usize, usize)> = Vec::new();
    let mut i: usize = 0;
    proof {
        assert(pairs_view(out@) =~= Seq::<(int, int)>::empty());
        assert(Seq::<(int, int)>::empty() + reorder_pairs_v(cv, lv, 0)
            =~= reorder_pairs_v(cv, lv, 0));
    }
    while i < n
        invariant
            n == cc.len(),
            cv == children_view(cc@),
            lv == children_view(cl@),
            cv.len() == n,
            forall|q: int| 0 <= q < n ==> cv[q].0 == cc@[q].0,
            0 <= i <= n,
            pairs_view(out@) + reorder_pairs_v(cv, lv, i as int)
                == reorder_pairs_v(cv, lv, 0),
        decreases n - i,
    {
        let ghost o0 = out@;
        let ghost tail = reorder_pairs_v(cv, lv, i as int + 1);
        match crate::nodes::find_key(cl, cc[i].0) {
            Some(j) => {
                if j != i {
                    out.push((i, j));
                    proof {
                        assert(reorder_pairs_v(cv, lv, i as int)
                            == seq![(i as int, j as int)] + tail);
                        assert(pairs_view(out@) =~= pairs_view(o0).push((i as int, j as int)));
                        assert(pairs_view(o0).push((i as int, j as int)) + tail
                            =~= pairs_view(o0) + (seq![(i as int, j as int)] + tail));
                    }
                } else {
                    proof {
                        assert(reorder_pairs_v(cv, lv, i as int) == tail);
                    }
                }
            }
            None => {
                proof {
                    assert(key_index(lv, cv[i as int].0) == -1);
                    assert(reorder_pairs_v(cv, lv, i as int) == tail);
                }
            }
        }
        i += 1;
    }
    proof {
        assert(reorder_pairs_v(cv, lv, n as int) =~= Seq::<(int, int)>::empty());
        assert(pairs_view(out@) + Seq::<(int, int)>::empty() =~= pairs_view(out@));
    }
    out
}

/// Removes, from position `j` of the old list on, each child whose key
/// left the new list.
fn removed_walk(
    d: &mut Differ,
    cc: &Vec<(u64, Node)>,
    cl: &Vec<(u64, Node)>,
    path: &Vec<u64>,
    j: usize,
) -> (r: Result<(), DiffError>)
    requires
        old(d).wf(),
        j <= cl@.len(),
    ensures
        final(d).wf(),
        ({
            let e = removed_pass(
                children_view(cc@), children_view(cl@), path@, j as int, old(d).st());
            &&& batch_view(final(d).diffs@) == batch_view(old(d).diffs@) + e.patches
            &&& final(d).st() == e.st
            &&& (r is Ok <==> e.err is None)
            &&& (r matches Err(er) ==> e.err == Some(er@))
        }),
    decreases cl@.len() - j,
{
    let ghost cv = children_view(cc@);
    let ghost lv = children_view(cl@);
    proof {
        lemma_children_view(cc@);
        lemma_children_view(cl@);
    }
    if j == cl.len() {
        proof {
            assert(batch_view(d.diffs@) + Seq::<PatchV>::empty() =~= batch_view(d.diffs@));
        }
        return Ok(());
    }
    proof {
        assert(lv[j as int] == (cl@[j as int].0, cl@[j as int].1@));
    }
    let ghost d0 = old(d).diffs@;
    let ghost st0 = old(d).st();
    match crate::nodes::find_key(cc, cl[j].0) {
        Some(_) => {
            let r2 = removed_walk(d, cc, cl, path, j + 1);
            proof {
                assert(key_index(cv, lv[j as int].0) != -1);
                assert(removed_pass(cv, lv, path@, j as int, st0)
                    == removed_pass(cv, lv, path@, j as int + 1, st0));
            }
            r2
        }
        None => {
            proof {
                assert(key_index(cv, lv[j as int].0) == -1);
            }
            let child_path = path_child(path, cl[j].0);
            let r1 = d.diff_removed(&child_path, 0, &cl[j].1);
            let ghost e1 = remove_node_spec(lv[j as int].1, path@.push(lv[j as int].0), st0);
            match r1 {
                Err(e) => {
                    proof {
                        assert(removed_pass(cv, lv, path@, j as int, st0) == e1);
                    }
                    Err(e)
                }
                Ok(()) => {
                    let ghost d1 = d.diffs@;
                    let r2 = removed_walk(d, cc, cl, path, j + 1);
                    proof {
                        let e2 = removed_pass(cv, lv, path@, j as int + 1, e1.st);
                        let e = removed_pass(cv, lv, path@, j as int, st0);
                        assert(e.patches =~= e1.patches + e2.patches);
                        assert(batch_view(d.diffs@) =~= batch_view(d1) + e2.patches);
                        assert(batch_view(d.diffs@) =~= batch_view(d0) + e.patches);
                    }
                    r2
                }
            }
        }
    }
}

/// Walks the new child list from position `i` on: adds fresh keys, walks
/// into survivors.
fn forward_walk(
    d: &mut Differ,
    cc: &Vec<(u64, Node)>,
    cl: &Vec<(u64, Node)>,
    path: &Vec<u64>,
    i: usize,
) -> (r: Result<(), DiffError>)
    requires
        old(d).wf(),
        i <= cc@.len(),
        concrete_children(children_view(cc@)),
        old(d).st().next + count_children_from(children_view(cc@), i as int)
            <= u64::MAX as int,
    ensures
        final(d).wf(),
        ({
            let e = forward_pass(
                children_view(cc@), children_view(cl@), path@, i as int, old(d).st());
            &&& batch_view(final(d).diffs@) == batch_view(old(d).diffs@) + e.patches
            &&& final(d).st() == e.st
            &&& (r is Ok <==> e.err is None)
            &&& (r matches Err(er) ==> e.err == Some(er@))
        }),
    decreases cc, 1int, cc@.len() - i,
{
    let ghost cv = children_view(cc@);
    let ghost lv = children_view(cl@);
    proof {
        lemma_children_view(cc@);
        lemma_children_view(cl@);
        lemma_concrete_children(cv);
    }
    if i == cc.len() {
        proof {
            assert(batch_view(d.diffs@) + Seq::<PatchV>::empty() =~= batch_view(d.diffs@));
        }
        return Ok(());
    }
    proof {
        assert(decreases_to!(cc => cc@[i as int].1));
        assert(cv[i as int] == (cc@[i as int].0, cc@[i as int].1@));
        lemma_count_children_step(cv, i as int);
    }
    let child_path = path_child(path, cc[i].0);
    let ghost d0 = old(d).diffs@;
    let ghost st0 = old(d).st();
    let ghost gj = key_index(lv, cv[i as int].0);
    let r1 = match crate::nodes::find_key(cl, cc[i].0) {
        Some(j) => {
            proof {
                lemma_key_index(lv, cv[i as int].0);
                assert(lv[j as int] == (cl@[j as int].0, cl@[j as int].1@));
            }
            diff_trees(d, &cc[i].1, &cl[j].1, &child_path, i)
        }
        None => d.diff_added(&child_path, i, &cc[i].1),
    };
    let ghost e1 = if gj == -1 {
        add_node_spec(cv[i as int].1, path@.push(cv[i as int].0), i as int, st0)
    } else {
        diff_spec(cv[i as int].1, lv[gj].1, path@.push(cv[i as int].0), i as int, st0)
    };
    match r1 {
        Err(e) => {
            proof {
                assert(forward_pass(cv, lv, path@, i as int, st0) == e1);
            }
            Err(e)
        }
        Ok(()) => {
            proof {
                if gj == -1 {
                    lemma_add_next(cv[i as int].1, path@.push(cv[i as int].0), i as int, st0);
                } else {
                    lemma_diff_next(
                        cv[i as int].1, lv[gj].1, path@.push(cv[i as int].0), i as int, st0);
                }
            }
            let ghost d1 = d.diffs@;
            let r2 = forward_walk(d, cc, cl, path, i + 1);
            proof {
                let e2 = forward_pass(cv, lv, path@, i as int + 1, e1.st);
                let e = forward_pass(cv, lv, path@, i as int, st0);
                assert(e.patches =~= e1.patches + e2.patches);
                assert(batch_view(d.diffs@) =~= batch_view(d1) + e2.patches);
                assert(batch_view(d.diffs@) =~= batch_view(d0) + e.patches);
            }
            r2
        }
    }
}

/// Walks one pair of nodes: the whole diff pass when called at the roots
/// of the new and old snapshots.
pub fn diff_trees(d: &mut Differ, curr: &Node, last: &Node, path: &Vec<u64>, index: usize)
    -> (r: Result<(), DiffError>)
    requires
        old(d).wf(),
        concrete(curr@),
        old(d).st().next + count_v(curr@) <= u64::MAX as int,
    ensures
        final(d).wf(),
        ({
            let e = diff_spec(curr@, last@, path@, index as int, old(d).st());
            &&& batch_view(final(d).diffs@) == batch_view(old(d).diffs@) + e.patches
            &&& final(d).st() == e.st
            &&& (r is Ok <==> e.err is None)
            &&& (r matches Err(er) ==> e.err == Some(er@))
        }),
    decreases curr, 0int,
{
    let ghost d0 = old(d).diffs@;
    let ghost st0 = old(d).st();
    match (curr, last) {
        (Node::Text { content: tc }, Node::Text { content: tl }) => {
            if *tc == *tl {
                proof {
                    assert(batch_view(d.diffs@) + Seq::<PatchV>::empty()
                        =~= batch_view(d.diffs@));
                }
                Ok(())
            } else {
                d.diff_params_changed(path, curr, last)
            }
        }
        (
            Node::Element { tag: gc, params: pc, children: cc },
            Node::Element { tag: gl, params: pl, children: cl },
        ) => {
            if !(*gc == *gl) {
                return d.diff_replaced(path, index, curr, last);
            }
            let ghost e1 = if curr@->Element_params != last@->Element_params {
                params_changed_spec(curr@, last@, path@, st0)
            } else {
                Emit { patches: Seq::empty(), st: st0, err: None }
            };
            if !pc.list_eq(pl) {
                match d.diff_params_changed(path, curr, last) {
                    Err(e) => {
                        proof {
                            assert(diff_spec(curr@, last@, path@, index as int, st0) == e1);
                        }
                        return Err(e);
                    }
                    Ok(()) => {}
                }
            } else {
                proof {
                    assert(batch_view(d.diffs@) + Seq::<PatchV>::empty()
                        =~= batch_view(d.diffs@));
                }
            }
            proof {
                lemma_children_view(cc@);
                lemma_concrete_children(children_view(cc@));
                assert(count_v(curr@)
                    == 1 + count_children_from(children_view(cc@), 0));
            }
            let pairs = compute_pairs(cc, cl);
            let ghost da = d.diffs@;
            let ghost e2 = reorder_spec(
                path@, reorder_pairs_v(children_view(cc@), children_view(cl@), 0), e1.st);
            match d.diff_reordered(path, &pairs) {
                Err(e) => {
                    proof {
                        let ed = diff_spec(curr@, last@, path@, index as int, st0);
                        assert(ed == emit_join(e1, e2));
                        assert(batch_view(d.diffs@) =~= batch_view(d0) + ed.patches);
                    }
                    return Err(e);
                }
                Ok(()) => {}
            }
            let ghost db = d.diffs@;
            let ghost e3 = removed_pass(
                children_view(cc@), children_view(cl@), path@, 0, e2.st);
            match removed_walk(d, cc, cl, path, 0) {
                Err(e) => {
                    proof {
                        let ed = diff_spec(curr@, last@, path@, index as int, st0);
                        assert(ed == emit_join(emit_join(e1, e2), e3));
                        assert(ed.patches =~= (e1.patches + e2.patches) + e3.patches);
                        assert(batch_view(d.diffs@) =~= batch_view(db) + e3.patches);
                        assert(batch_view(d.diffs@) =~= batch_view(d0) + ed.patches);
                    }
                    return Err(e);
                }
                Ok(()) => {}
            }
            proof {
                lemma_removed_pass_next(
                    children_view(cc@), children_view(cl@), path@, 0, e2.st);
            }
            let ghost dc = d.diffs@;
            let ghost e4 = forward_pass(
                children_view(cc@), children_view(cl@), path@, 0, e3.st);
            let r4 = forward_walk(d, cc, cl, path, 0);
            proof {
                let ed = diff_spec(curr@, last@, path@, index as int, st0);
                assert(ed == emit_join(emit_join(emit_join(e1, e2), e3), e4));
                assert(ed.patches =~= ((e1.patches + e2.patches) + e3.patches) + e4.patches);
                assert(batch_view(d.diffs@) =~= batch_view(dc) + e4.patches);
                assert(batch_view(d.diffs@) =~= batch_view(d0) + ed.patches);
            }
            r4
        }
        _ => d.diff_replaced(path, index, curr, last),
    }
}

} // verus!
