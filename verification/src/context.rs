//! The orchestrator: owns the previous tree snapshot and the identity
//! state, runs widget expansion and the diff walk per update, and hands the
//! resulting batch to the caller, who forwards it to the host renderer.
//!
//! The identity accounting proved here: across any run of updates since
//! construction, the number of `Add` records emitted minus the number of
//! `Remove` records emitted equals the number of identities alive in the
//! path map.

use vstd::prelude::*;
use crate::nodes::{concrete, count_v, expand_v, expand_widgets, lemma_expand_concrete, Node, NodeV, ParamV};
use crate::patch::{
    batch_view, count_adds, count_removes, lemma_counts_concat, lemma_counts_single,
    lemma_params_patches_counts, params_patches_v, Patch, PatchDataV, PatchV,
};
use crate::differ::{
    add_children_spec, add_node_spec, params_changed_spec, params_delta_back, params_delta_fwd,
    parent_id_of, remove_children_spec, remove_node_spec, reorder_spec, replace_spec, Differ,
    Emit, StV,
};
use crate::engine::{
    diff_spec, diff_trees, emit_join, forward_pass, removed_pass, reorder_pairs_v,
};
use crate::states::{DiffError, NodeStates};

verus! {

/// The balance of one outcome: additions minus removals match the growth
/// of the identity map.
pub open spec fn balanced(e: Emit, st: StV) -> bool {
    &&& e.st.m.dom().finite()
    &&& count_adds(e.patches) - count_removes(e.patches)
        == e.st.m.dom().len() - st.m.dom().len()
}

/// An addition keeps the identity balance.
pub proof fn lemma_add_balance(n: NodeV, path: Seq<u64>, index: int, st: StV)
    requires
        st.m.dom().finite(),
    ensures
        balanced(add_node_spec(n, path, index, st), st),
    decreases n, 0int,
{
    broadcast use vstd::set::group_set_axioms;

    let e = add_node_spec(n, path, index, st);
    match parent_id_of(path, st.m) {
        None => {}
        Some(pid) => {
            if !st.m.contains_key(path) {
                let id = st.next;
                let st1 = StV { m: st.m.insert(path, st.next as u64), next: st.next + 1 };
                assert(st1.m.dom() =~= st.m.dom().insert(path));
                match n {
                    NodeV::Text { content } => {
                        let p1 = PatchV {
                            id,
                            data: PatchDataV::Add { parent_id: pid, kind: crate::nodes::NodeKind::Text, index },
                        };
                        let p2 = PatchV { id, data: PatchDataV::SetText { content } };
                        lemma_counts_single(p1);
                        lemma_counts_concat(seq![p1], seq![p2]);
                        lemma_counts_single(p2);
                        assert(seq![p1] + seq![p2] =~= e.patches);
                    }
                    NodeV::Element { tag, params, children } => {
                        let p1 = PatchV {
                            id,
                            data: PatchDataV::Add {
                                parent_id: pid,
                                kind: crate::nodes::NodeKind::Element(tag),
                                index,
                            },
                        };
                        let head = seq![p1] + params_patches_v(id, params, false);
                        lemma_counts_single(p1);
                        lemma_params_patches_counts(id, params, false);
                        lemma_counts_concat(seq![p1], params_patches_v(id, params, false));
                        lemma_add_children_balance(children, path, 0, st1);
                        let ek = add_children_spec(children, path, 0, st1);
                        lemma_counts_concat(head, ek.patches);
                    }
                    NodeV::Widget { .. } => {}
                }
            }
        }
    }
}

/// Adding a child list keeps the identity balance.
pub proof fn lemma_add_children_balance(s: Seq<(u64, NodeV)>, path: Seq<u64>, i: int, st: StV)
    requires
        st.m.dom().finite(),
    ensures
        balanced(add_children_spec(s, path, i, st), st),
    decreases s, s.len() - i,
{
    if 0 <= i < s.len() {
        lemma_add_balance(s[i].1, path.push(s[i].0), i, st);
        let e1 = add_node_spec(s[i].1, path.push(s[i].0), i, st);
        if e1.err is None {
            lemma_add_children_balance(s, path, i + 1, e1.st);
            let e2 = add_children_spec(s, path, i + 1, e1.st);
            lemma_counts_concat(e1.patches, e2.patches);
        }
    }
}

/// A removal keeps the identity balance.
pub proof fn lemma_remove_balance(n: NodeV, path: Seq<u64>, st: StV)
    requires
        st.m.dom().finite(),
    ensures
        balanced(remove_node_spec(n, path, st), st),
    decreases n, 0int,
{
    broadcast use vstd::set::group_set_axioms;

    let ek = match n {
        NodeV::Element { children, .. } => {
            lemma_remove_children_balance(children, path, 0, st);
            remove_children_spec(children, path, 0, st)
        }
        _ => Emit { patches: Seq::empty(), st, err: None },
    };
    assert(count_adds(Seq::<PatchV>::empty()) == 0);
    assert(count_removes(Seq::<PatchV>::empty()) == 0);
    assert(balanced(ek, st));
    let e = remove_node_spec(n, path, st);
    if ek.err is Some {
        assert(e == ek);
        assert(balanced(e, st));
    } else if !ek.st.m.contains_key(path) {
        assert(e.patches == ek.patches && e.st == ek.st);
        assert(balanced(e, st));
    } else {
        let p = PatchV { id: ek.st.m[path] as int, data: PatchDataV::Remove };
        assert(e.patches == ek.patches.push(p));
        assert(ek.patches.push(p).drop_last() =~= ek.patches);
        assert(ek.patches.push(p).last() == p);
        assert(count_adds(e.patches) == count_adds(ek.patches));
        assert(count_removes(e.patches) == count_removes(ek.patches) + 1);
        assert(e.st.m.dom() =~= ek.st.m.dom().remove(path));
        assert(ek.st.m.dom().contains(path));
        assert(e.st.m.dom().len() == ek.st.m.dom().len() - 1);
        assert(balanced(e, st));
    }
}

/// Removing a child list keeps the identity balance.
pub proof fn lemma_remove_children_balance(s: Seq<(u64, NodeV)>, path: Seq<u64>, i: int, st: StV)
    requires
        st.m.dom().finite(),
    ensures
        balanced(remove_children_spec(s, path, i, st), st),
    decreases s, s.len() - i,
{
    if 0 <= i < s.len() {
        lemma_remove_balance(s[i].1, path.push(s[i].0), st);
        let e1 = remove_node_spec(s[i].1, path.push(s[i].0), st);
        if e1.err is None {
            lemma_remove_children_balance(s, path, i + 1, e1.st);
            let e2 = remove_children_spec(s, path, i + 1, e1.st);
            lemma_counts_concat(e1.patches, e2.patches);
        }
    }
}

/// The forward attribute pass emits no additions and no removals.
pub proof fn lemma_delta_fwd_counts(
    id: int,
    curr: Seq<(Seq<char>, ParamV)>,
    last: Seq<(Seq<char>, ParamV)>,
    i: int,
)
    ensures
        count_adds(params_delta_fwd(id, curr, last, i)) == 0,
        count_removes(params_delta_fwd(id, curr, last, i)) == 0,
    decreases curr.len() - i,
{
    if 0 <= i < curr.len() {
        lemma_delta_fwd_counts(id, curr, last, i + 1);
        let rest = params_delta_fwd(id, curr, last, i + 1);
        let head = match crate::nodes::param_get(last, curr[i].0) {
            Some(lv) => if lv == curr[i].1 {
                None
            } else {
                crate::patch::param_patch_v(id, curr[i].0, curr[i].1, true)
            },
            None => crate::patch::param_patch_v(id, curr[i].0, curr[i].1, false),
        };
        match head {
            Some(p) => {
                lemma_counts_single(p);
                lemma_counts_concat(seq![p], rest);
            }
            None => {}
        }
    }
}

/// The backward attribute pass emits no additions and no removals.
pub proof fn lemma_delta_back_counts(
    id: int,
    curr: Seq<(Seq<char>, ParamV)>,
    last: Seq<(Seq<char>, ParamV)>,
    j: int,
)
    ensures
        count_adds(params_delta_back(id, curr, last, j)) == 0,
        count_removes(params_delta_back(id, curr, last, j)) == 0,
    decreases last.len() - j,
{
    if 0 <= j < last.len() {
        lemma_delta_back_counts(id, curr, last, j + 1);
        let rest = params_delta_back(id, curr, last, j + 1);
        if crate::nodes::param_get(curr, last[j].0) is None {
            let p = PatchV { id, data: PatchDataV::RemoveParam { key: last[j].0 } };
            lemma_counts_single(p);
            lemma_counts_concat(seq![p], rest);
        }
    }
}

/// An attribute-change event keeps the identity balance.
pub proof fn lemma_params_changed_balance(curr: NodeV, last: NodeV, path: Seq<u64>, st: StV)
    requires
        st.m.dom().finite(),
    ensures
        balanced(params_changed_spec(curr, last, path, st), st),
{
    match (curr, last) {
        (NodeV::Text { content }, NodeV::Text { .. }) => {
            if st.m.contains_key(path) {
                lemma_counts_single(
                    PatchV { id: st.m[path] as int, data: PatchDataV::SetText { content } },
                );
            }
        }
        (
            NodeV::Element { tag: tc, params: pc, .. },
            NodeV::Element { tag: tl, params: pl, .. },
        ) => {
            if tc == tl && st.m.contains_key(path) {
                let id = st.m[path] as int;
                lemma_delta_fwd_counts(id, pc, pl, 0);
                lemma_delta_back_counts(id, pc, pl, 0);
                lemma_counts_concat(
                    params_delta_fwd(id, pc, pl, 0),
                    params_delta_back(id, pc, pl, 0),
                );
            }
        }
        _ => {}
    }
}

/// A reorder event keeps the identity balance.
pub proof fn lemma_reorder_balance(path: Seq<u64>, pairs: Seq<(int, int)>, st: StV)
    requires
        st.m.dom().finite(),
    ensures
        balanced(reorder_spec(path, pairs, st), st),
{
    if pairs.len() > 0 && st.m.contains_key(path) {
        lemma_counts_single(
            PatchV {
                id: st.m[path] as int,
                data: PatchDataV::Reorder {
                    parent_id: st.m[path] as int,
                    pairs: crate::differ::sort_pairs_v(pairs),
                },
            },
        );
    }
}

/// A removal pass keeps the identity balance.
pub proof fn lemma_removed_pass_balance(
    cs: Seq<(u64, NodeV)>,
    ls: Seq<(u64, NodeV)>,
    path: Seq<u64>,
    j: int,
    st: StV,
)
    requires
        st.m.dom().finite(),
    ensures
        balanced(removed_pass(cs, ls, path, j, st), st),
    decreases ls.len() - j,
{
    if 0 <= j < ls.len() {
        if crate::nodes::key_index(cs, ls[j].0) == -1 {
            lemma_remove_balance(ls[j].1, path.push(ls[j].0), st);
            let e1 = remove_node_spec(ls[j].1, path.push(ls[j].0), st);
            if e1.err is None {
                lemma_removed_pass_balance(cs, ls, path, j + 1, e1.st);
                lemma_counts_concat(e1.patches, removed_pass(cs, ls, path, j + 1, e1.st).patches);
            }
        } else {
            lemma_removed_pass_balance(cs, ls, path, j + 1, st);
        }
    }
}

/// A forward pass keeps the identity balance.
pub proof fn lemma_forward_balance(
    cs: Seq<(u64, NodeV)>,
    ls: Seq<(u64, NodeV)>,
    path: Seq<u64>,
    i: int,
    st: StV,
)
    requires
        st.m.dom().finite(),
    ensures
        balanced(forward_pass(cs, ls, path, i, st), st),
    decreases cs, 1int, cs.len() - i,
{
    if 0 <= i < cs.len() {
        let j = crate::nodes::key_index(ls, cs[i].0);
        let e1 = if j == -1 {
            lemma_add_balance(cs[i].1, path.push(cs[i].0), i, st);
            add_node_spec(cs[i].1, path.push(cs[i].0), i, st)
        } else {
            lemma_diff_balance(cs[i].1, ls[j].1, path.push(cs[i].0), i, st);
            diff_spec(cs[i].1, ls[j].1, path.push(cs[i].0), i, st)
        };
        if e1.err is None {
            lemma_forward_balance(cs, ls, path, i + 1, e1.st);
            lemma_counts_concat(e1.patches, forward_pass(cs, ls, path, i + 1, e1.st).patches);
        }
    }
}

/// A whole walk keeps the identity balance.
pub proof fn lemma_diff_balance(curr: NodeV, last: NodeV, path: Seq<u64>, index: int, st: StV)
    requires
        st.m.dom().finite(),
    ensures
        balanced(diff_spec(curr, last, path, index, st), st),
    decreases curr, 0int,
{
    match (curr, last) {
        (NodeV::Text { content: tc }, NodeV::Text { content: tl }) => {
            if tc != tl {
                lemma_params_changed_balance(curr, last, path, st);
            }
        }
        (
            NodeV::Element { tag: gc, params: pc, children: cc },
            NodeV::Element { tag: gl, params: pl, children: cl },
        ) => {
            if gc != gl {
                lemma_replace_balance(curr, last, path, index, st);
            } else {
                let e1 = if pc != pl {
                    lemma_params_changed_balance(curr, last, path, st);
                    params_changed_spec(curr, last, path, st)
                } else {
                    Emit { patches: Seq::empty(), st, err: None }
                };
                if e1.err is None {
                    let e2 = reorder_spec(path, reorder_pairs_v(cc, cl, 0), e1.st);
                    lemma_reorder_balance(path, reorder_pairs_v(cc, cl, 0), e1.st);
                    let e12 = emit_join(e1, e2);
                    lemma_counts_concat(e1.patches, e2.patches);
                    if e2.err is None {
                        let e3 = removed_pass(cc, cl, path, 0, e2.st);
                        lemma_removed_pass_balance(cc, cl, path, 0, e2.st);
                        let e123 = emit_join(e12, e3);
                        lemma_counts_concat(e12.patches, e3.patches);
                        if e3.err is None {
                            let e4 = forward_pass(cc, cl, path, 0, e3.st);
                            lemma_forward_balance(cc, cl, path, 0, e3.st);
                            lemma_counts_concat(e123.patches, e4.patches);
                        }
                    }
                }
            }
        }
        _ => {
            lemma_replace_balance(curr, last, path, index, st);
        }
    }
}

/// A replacement keeps the identity balance.
pub proof fn lemma_replace_balance(curr: NodeV, last: NodeV, path: Seq<u64>, index: int, st: StV)
    requires
        st.m.dom().finite(),
    ensures
        balanced(replace_spec(curr, last, path, index, st), st),
{
    lemma_remove_balance(last, path, st);
    let er = remove_node_spec(last, path, st);
    if er.err is None {
        lemma_add_balance(curr, path, index, er.st);
        lemma_counts_concat(er.patches, add_node_spec(curr, path, index, er.st).patches);
    }
}

/// The orchestrator.  It owns the previous (already expanded) snapshot,
/// the identity state, and the disposal flag of the host-side handle; the
/// ghost counters account for every `Add` and `Remove` record emitted
/// since construction.
pub struct Context {
    pub last: Node,
    pub states: NodeStates,
    pub disposed: bool,
    pub adds: Ghost<int>,
    pub removes: Ghost<int>,
}

impl Context {
    /// A well-formed context: sound identity state, a concrete stored
    /// snapshot, and the add/remove balance equal to the number of live
    /// identities.
    pub open spec fn wf(self) -> bool {
        &&& self.states.wf()
        &&& concrete(self.last@)
        &&& self.states.m().dom().finite()
        &&& self.adds@ - self.removes@ == self.states.m().dom().len()
    }

    /// The ghost identity state.
    pub open spec fn st(self) -> StV {
        StV { m: self.states.m(), next: self.states.next() }
    }

    /// Builds a context over an initial tree: expands its widgets, treats
    /// the whole expanded tree as one addition at the root, and returns the
    /// context together with the initial batch, which the caller hands to
    /// the host.  Fails exactly where the addition does (duplicate sibling
    /// keys in the input).
    pub fn new(curr: Node) -> (r: Result<(Context, Vec<Patch>), DiffError>)
        requires
            1 + count_v(expand_v(curr@)) <= u64::MAX as int,
        ensures
            ({
                let ex = expand_v(curr@);
                let e = add_node_spec(
                    ex, Seq::empty(), 0, StV { m: Map::empty(), next: 1 });
                &&& (r is Ok <==> e.err is None)
                &&& (r matches Ok(pair) ==> {
                    &&& batch_view(pair.1@) == e.patches
                    &&& pair.0.last@ == ex
                    &&& pair.0.st() == e.st
                    &&& !pair.0.disposed
                    &&& pair.0.wf()
                    &&& pair.0.adds@ == count_adds(e.patches)
                    &&& pair.0.removes@ == count_removes(e.patches)
                })
                &&& (r matches Err(er) ==> e.err == Some(er@))
            }),
    {
        let expanded = expand_widgets(&curr, None);
        proof {
            lemma_expand_concrete(curr@);
        }
        let states = NodeStates::new();
        let mut d = Differ::new(states);
        let path: Vec<u64> = Vec::new();
        proof {
            assert(path@ =~= Seq::<u64>::empty());
            assert(d.diffs@ =~= Seq::<Patch>::empty());
            assert(batch_view(d.diffs@) =~= Seq::<PatchV>::empty());
            assert(d.st().m =~= Map::<Seq<u64>, u64>::empty());
            assert(d.st() == (StV { m: Map::<Seq<u64>, u64>::empty(), next: 1 }));
        }
        let ghost st0 = d.st();
        match d.diff_added(&path, 0, &expanded) {
            Err(e) => Err(e),
            Ok(()) => {
                proof {
                    let e = add_node_spec(expand_v(curr@), Seq::empty(), 0, st0);
                    assert(st0.m.dom() =~= Set::<Seq<u64>>::empty());
                    lemma_add_balance(expand_v(curr@), Seq::empty(), 0, st0);
                    assert(Seq::<PatchV>::empty() + e.patches =~= e.patches);
                }
                let ghost e = add_node_spec(expand_v(curr@), Seq::empty(), 0, st0);
                let ctx = Context {
                    last: expanded,
                    states: d.states,
                    disposed: false,
                    adds: Ghost(count_adds(e.patches)),
                    removes: Ghost(count_removes(e.patches)),
                };
                Ok((ctx, d.diffs))
            }
        }
    }

    /// Reconciles the context with a new tree: expands its widgets, walks
    /// it against the stored snapshot, stores the expanded tree, and
    /// returns the batch, which the caller hands to the host.  On a
    /// contract violation the stored snapshot is kept and the context must
    /// be disposed of.
    pub fn update(&mut self, curr: Node) -> (r: Result<Vec<Patch>, DiffError>)
        requires
            old(self).wf(),
            !old(self).disposed,
            old(self).st().next + count_v(expand_v(curr@)) <= u64::MAX as int,
        ensures
            final(self).wf(),
            !final(self).disposed,
            ({
                let ex = expand_v(curr@);
                let e = diff_spec(ex, old(self).last@, Seq::empty(), 0, old(self).st());
                &&& (r is Ok <==> e.err is None)
                &&& final(self).st() == e.st
                &&& final(self).adds@ == old(self).adds@ + count_adds(e.patches)
                &&& final(self).removes@ == old(self).removes@ + count_removes(e.patches)
                &&& (r matches Ok(batch) ==> {
                    &&& batch_view(batch@) == e.patches
                    &&& final(self).last@ == ex
                })
                &&& (r matches Err(er) ==> {
                    &&& e.err == Some(er@)
                    &&& final(self).last == old(self).last
                })
            }),
    {
        let expanded = expand_widgets(&curr, None);
        proof {
            lemma_expand_concrete(curr@);
        }
        let mut states = NodeStates::new();
        core::mem::swap(&mut states, &mut self.states);
        let mut d = Differ::new(states);
        let path: Vec<u64> = Vec::new();
        proof {
            assert(path@ =~= Seq::<u64>::empty());
            assert(batch_view(d.diffs@) =~= Seq::<PatchV>::empty());
        }
        let ghost st0 = d.st();
        let r = diff_trees(&mut d, &expanded, &self.last, &path, 0);
        proof {
            let e = diff_spec(expand_v(curr@), old(self).last@, Seq::empty(), 0, st0);
            lemma_diff_balance(expand_v(curr@), old(self).last@, Seq::empty(), 0, st0);
            assert(Seq::<PatchV>::empty() + e.patches =~= e.patches);
        }
        let ghost e = diff_spec(expand_v(curr@), old(self).last@, Seq::empty(), 0, st0);
        self.states = d.states;
        proof {
            self.adds@ = self.adds@ + count_adds(e.patches);
            self.removes@ = self.removes@ + count_removes(e.patches);
        }
        match r {
            Err(er) => Err(er),
            Ok(()) => {
                self.last = expanded;
                Ok(d.diffs)
            }
        }
    }

    /// Marks the host-side handle as released.  The flag makes disposal
    /// idempotent: a second call changes nothing, and the caller releases
    /// the real handle only on the call that flips the flag.
    pub fn dispose(&mut self) -> (flipped: bool)
        ensures
            final(self).disposed,
            flipped == !old(self).disposed,
            final(self).last == old(self).last,
            final(self).states == old(self).states,
            final(self).adds == old(self).adds,
            final(self).removes == old(self).removes,
    {
        let was = self.disposed;
        self.disposed = true;
        !was
    }
}

} // verus!
