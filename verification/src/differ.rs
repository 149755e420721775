//! The diff-event sink: translates structural diff events into addressed
//! patch records, allocating and retiring node identities as it goes.
//!
//! Each handler's behaviour is stated against a ghost interpreter over the
//! identity state: the interpreter says which patch records an event adds to
//! the batch, how the path-to-identity map changes, and on which states the
//! event is a contract violation.

use vstd::prelude::*;
use crate::nodes::{
    concrete, concrete_children, count_children_from, count_v, lemma_concrete_children,
    lemma_count_children_step, lemma_count_pos, Node, NodeKind, NodeV, ParamV, param_get,
    children_view, lemma_children_view,
};
use crate::patch::{
    batch_view, param_patch_v, params_patches_v, param_to_ffi, params_to_ffi, Patch, PatchData,
    PatchDataV, PatchV,
};
use crate::states::{copy_path, path_child, path_parent, DiffError, ErrV, NodeStates};

verus! {

/// Ghost identity state: the path-to-identity map and the counter.
pub struct StV {
    pub m: Map<Seq<u64>, u64>,
    pub next: int,
}

/// Ghost outcome of one event: the patch records it appends, the identity
/// state it leaves behind, and the contract violation it stops on, if any.
/// On a violation, the records and state reflect the work done up to it.
pub struct Emit {
    pub patches: Seq<PatchV>,
    pub st: StV,
    pub err: Option<ErrV>,
}

/// The parent identity a node at `path` is addressed under: the reserved 0
/// for the root, else the identity of the path one segment shorter.
pub open spec fn parent_id_of(path: Seq<u64>, m: Map<Seq<u64>, u64>) -> Option<int> {
    if path.len() == 0 {
        Some(0)
    } else if m.contains_key(path.drop_last()) {
        Some(m[path.drop_last()] as int)
    } else {
        None
    }
}

/// Outcome of adding the subtree `n` as the `index`-th child at `path`:
/// pre-order, a fresh identity and one `Add` record per node, one attribute
/// record per entry that demands one, one `SetText` per text leaf.
pub open spec fn add_node_spec(n: NodeV, path: Seq<u64>, index: int, st: StV) -> Emit
    decreases n, 0int,
{
    match parent_id_of(path, st.m) {
        None => Emit {
            patches: Seq::empty(),
            st,
            err: Some(ErrV::LookupFailure(path.drop_last())),
        },
        Some(pid) => {
            if st.m.contains_key(path) {
                Emit { patches: Seq::empty(), st, err: Some(ErrV::DuplicatePath(path)) }
            } else {
                let id = st.next;
                let st1 = StV { m: st.m.insert(path, st.next as u64), next: st.next + 1 };
                match n {
                    NodeV::Text { content } => Emit {
                        patches: seq![
                            PatchV {
                                id,
                                data: PatchDataV::Add {
                                    parent_id: pid,
                                    kind: NodeKind::Text,
                                    index,
                                },
                            },
                            PatchV { id, data: PatchDataV::SetText { content } },
                        ],
                        st: st1,
                        err: None,
                    },
                    NodeV::Element { tag, params, children } => {
                        let head = seq![
                            PatchV {
                                id,
                                data: PatchDataV::Add {
                                    parent_id: pid,
                                    kind: NodeKind::Element(tag),
                                    index,
                                },
                            },
                        ] + params_patches_v(id, params, false);
                        let ek = add_children_spec(children, path, 0, st1);
                        Emit { patches: head + ek.patches, st: ek.st, err: ek.err }
                    }
                    NodeV::Widget { .. } => Emit {
                        patches: Seq::empty(),
                        st,
                        err: Some(ErrV::UnsupportedTransition(path)),
                    },
                }
            }
        }
    }
}

/// Outcome of adding the children of a node at `path`, from position `i` on.
pub open spec fn add_children_spec(s: Seq<(u64, NodeV)>, path: Seq<u64>, i: int, st: StV) -> Emit
    decreases s, s.len() - i,
{
    if i < 0 || i >= s.len() {
        Emit { patches: Seq::empty(), st, err: None }
    } else {
        let e1 = add_node_spec(s[i].1, path.push(s[i].0), i, st);
        if e1.err is Some {
            e1
        } else {
            let e2 = add_children_spec(s, path, i + 1, e1.st);
            Emit { patches: e1.patches + e2.patches, st: e2.st, err: e2.err }
        }
    }
}

/// Outcome of removing the subtree `n` at `path`: post-order, children
/// before the parent, one bare `Remove` record per retired identity.
pub open spec fn remove_node_spec(n: NodeV, path: Seq<u64>, st: StV) -> Emit
    decreases n, 0int,
{
    let ek = match n {
        NodeV::Element { children, .. } => remove_children_spec(children, path, 0, st),
        _ => Emit { patches: Seq::empty(), st, err: None },
    };
    if ek.err is Some {
        ek
    } else if !ek.st.m.contains_key(path) {
        Emit { patches: ek.patches, st: ek.st, err: Some(ErrV::LookupFailure(path)) }
    } else {
        Emit {
            patches: ek.patches.push(
                PatchV { id: ek.st.m[path] as int, data: PatchDataV::Remove },
            ),
            st: StV { m: ek.st.m.remove(path), next: ek.st.next },
            err: None,
        }
    }
}

/// Outcome of removing the children of a node at `path`, from position `i` on.
pub open spec fn remove_children_spec(s: Seq<(u64, NodeV)>, path: Seq<u64>, i: int, st: StV)
    -> Emit
    decreases s, s.len() - i,
{
    if i < 0 || i >= s.len() {
        Emit { patches: Seq::empty(), st, err: None }
    } else {
        let e1 = remove_node_spec(s[i].1, path.push(s[i].0), st);
        if e1.err is Some {
            e1
        } else {
            let e2 = remove_children_spec(s, path, i + 1, e1.st);
            Emit { patches: e1.patches + e2.patches, st: e2.st, err: e2.err }
        }
    }
}

/// Outcome of a replacement at `path`: the full removal of `last`, then the
/// full addition of `curr`; the retired identity is never reused.
pub open spec fn replace_spec(curr: NodeV, last: NodeV, path: Seq<u64>, index: int, st: StV)
    -> Emit {
    let er = remove_node_spec(last, path, st);
    if er.err is Some {
        er
    } else {
        let ea = add_node_spec(curr, path, index, er.st);
        Emit { patches: er.patches + ea.patches, st: ea.st, err: ea.err }
    }
}

/// Attribute delta, forward pass: one record per key of `curr` whose value
/// is fresh or changed, in `curr` order.  A flag turning false emits an
/// explicit `RemoveParam`; a fresh false flag emits nothing; an unchanged
/// value emits nothing.
pub open spec fn params_delta_fwd(
    id: int,
    curr: Seq<(Seq<char>, ParamV)>,
    last: Seq<(Seq<char>, ParamV)>,
    i: int,
) -> Seq<PatchV>
    decreases curr.len() - i,
{
    if i < 0 || i >= curr.len() {
        Seq::empty()
    } else {
        let rest = params_delta_fwd(id, curr, last, i + 1);
        let head = match param_get(last, curr[i].0) {
            Some(lv) => if lv == curr[i].1 {
                None
            } else {
                param_patch_v(id, curr[i].0, curr[i].1, true)
            },
            None => param_patch_v(id, curr[i].0, curr[i].1, false),
        };
        match head {
            Some(p) => seq![p] + rest,
            None => rest,
        }
    }
}

/// Attribute delta, backward pass: one `RemoveParam` per key of `last`
/// absent from `curr`, in `last` order.
pub open spec fn params_delta_back(
    id: int,
    curr: Seq<(Seq<char>, ParamV)>,
    last: Seq<(Seq<char>, ParamV)>,
    j: int,
) -> Seq<PatchV>
    decreases last.len() - j,
{
    if j < 0 || j >= last.len() {
        Seq::empty()
    } else {
        let rest = params_delta_back(id, curr, last, j + 1);
        if param_get(curr, last[j].0) is None {
            seq![PatchV { id, data: PatchDataV::RemoveParam { key: last[j].0 } }] + rest
        } else {
            rest
        }
    }
}

/// Outcome of an attribute-change event at `path`: between two text leaves,
/// one `SetText`; between two elements of one tag, the minimal delta of
/// both passes; between any other pair of kinds, a contract violation.
pub open spec fn params_changed_spec(curr: NodeV, last: NodeV, path: Seq<u64>, st: StV) -> Emit {
    match (curr, last) {
        (NodeV::Text { content }, NodeV::Text { .. }) => {
            if st.m.contains_key(path) {
                Emit {
                    patches: seq![
                        PatchV { id: st.m[path] as int, data: PatchDataV::SetText { content } },
                    ],
                    st,
                    err: None,
                }
            } else {
                Emit { patches: Seq::empty(), st, err: Some(ErrV::LookupFailure(path)) }
            }
        }
        (
            NodeV::Element { tag: tc, params: pc, .. },
            NodeV::Element { tag: tl, params: pl, .. },
        ) => {
            if tc != tl {
                Emit { patches: Seq::empty(), st, err: Some(ErrV::UnsupportedTransition(path)) }
            } else if st.m.contains_key(path) {
                let id = st.m[path] as int;
                Emit {
                    patches: params_delta_fwd(id, pc, pl, 0) + params_delta_back(id, pc, pl, 0),
                    st,
                    err: None,
                }
            } else {
                Emit { patches: Seq::empty(), st, err: Some(ErrV::LookupFailure(path)) }
            }
        }
        _ => Emit { patches: Seq::empty(), st, err: Some(ErrV::UnsupportedTransition(path)) },
    }
}

/// Inserts a pair into a list sorted by new index, keeping the order.
pub open spec fn insert_sorted(p: (int, int), s: Seq<(int, int)>) -> Seq<(int, int)>
    decreases s,
{
    if s.len() == 0 {
        seq![p]
    } else if p.0 <= s[0].0 {
        seq![p] + s
    } else {
        seq![s[0]] + insert_sorted(p, s.drop_first())
    }
}

/// Sorts index pairs by new index, ascending.
pub open spec fn sort_pairs_v(s: Seq<(int, int)>) -> Seq<(int, int)>
    decreases s,
{
    if s.len() == 0 {
        Seq::empty()
    } else {
        insert_sorted(s[0], sort_pairs_v(s.drop_first()))
    }
}

/// View of an executable pair list.
pub open spec fn pairs_view(s: Seq<(usize, usize)>) -> Seq<(int, int)> {
    Seq::new(s.len(), |i: int| (s[i].0 as int, s[i].1 as int))
}

/// A list whose new indices already ascend is its own sorted order.
pub proof fn lemma_sort_pairs_sorted(s: Seq<(int, int)>)
    requires
        forall|i: int, j: int| 0 <= i < j < s.len() ==> s[i].0 <= s[j].0,
    ensures
        sort_pairs_v(s) == s,
    decreases s,
{
    if s.len() > 0 {
        let df = s.drop_first();
        assert(forall|i: int| 0 <= i < df.len() ==> df[i] == s[i + 1]);
        lemma_sort_pairs_sorted(df);
        if df.len() == 0 {
            assert(insert_sorted(s[0], df) =~= s);
        } else {
            assert(s[0].0 <= df[0].0);
            assert(insert_sorted(s[0], df) =~= seq![s[0]] + df);
            assert(seq![s[0]] + df =~= s);
        }
    }
}

/// `insert_sorted` puts the pair at the first position whose new index is
/// not below it.
pub proof fn lemma_insert_sorted_at(p: (int, int), s: Seq<(int, int)>, pos: int)
    requires
        0 <= pos <= s.len(),
        forall|i: int| 0 <= i < pos ==> s[i].0 < p.0,
        pos < s.len() ==> p.0 <= s[pos].0,
    ensures
        insert_sorted(p, s) == s.take(pos) + seq![p] + s.skip(pos),
    decreases s,
{
    if s.len() == 0 {
        assert(insert_sorted(p, s) =~= s.take(pos) + seq![p] + s.skip(pos));
    } else if pos == 0 {
        assert(insert_sorted(p, s) =~= s.take(0) + seq![p] + s.skip(0));
    } else {
        let df = s.drop_first();
        assert(forall|i: int| 0 <= i < df.len() ==> df[i] == s[i + 1]);
        assert(s[0].0 < p.0);
        lemma_insert_sorted_at(p, df, pos - 1);
        assert(seq![s[0]] + (df.take(pos - 1) + seq![p] + df.skip(pos - 1))
            =~= s.take(pos) + seq![p] + s.skip(pos));
    }
}

/// Outcome of a reorder event for the children of the node at `path`: an
/// empty pair set emits nothing; otherwise one `Reorder` record addressed
/// to that node, its pairs sorted by new index.
pub open spec fn reorder_spec(path: Seq<u64>, pairs: Seq<(int, int)>, st: StV) -> Emit {
    if pairs.len() == 0 {
        Emit { patches: Seq::empty(), st, err: None }
    } else if st.m.contains_key(path) {
        Emit {
            patches: seq![
                PatchV {
                    id: st.m[path] as int,
                    data: PatchDataV::Reorder {
                        parent_id: st.m[path] as int,
                        pairs: sort_pairs_v(pairs),
                    },
                },
            ],
            st,
            err: None,
        }
    } else {
        Emit { patches: Seq::empty(), st, err: Some(ErrV::LookupFailure(path)) }
    }
}

/// Adding a subtree advances the identity counter by at most its node
/// count, and never moves it back.
pub proof fn lemma_add_next(n: NodeV, path: Seq<u64>, index: int, st: StV)
    ensures
        st.next <= add_node_spec(n, path, index, st).st.next <= st.next + count_v(n),
    decreases n, 0int,
{
    lemma_count_pos(n);
    match parent_id_of(path, st.m) {
        None => {}
        Some(pid) => {
            if !st.m.contains_key(path) {
                let st1 = StV { m: st.m.insert(path, st.next as u64), next: st.next + 1 };
                match n {
                    NodeV::Element { children, .. } => {
                        lemma_add_children_next(children, path, 0, st1);
                    }
                    _ => {}
                }
            }
        }
    }
}

/// Adding a child list advances the identity counter by at most the total
/// node count of the children added, and never moves it back.
pub proof fn lemma_add_children_next(s: Seq<(u64, NodeV)>, path: Seq<u64>, i: int, st: StV)
    ensures
        st.next <= add_children_spec(s, path, i, st).st.next
            <= st.next + count_children_from(s, i),
    decreases s, s.len() - i,
{
    if 0 <= i < s.len() {
        lemma_add_next(s[i].1, path.push(s[i].0), i, st);
        let e1 = add_node_spec(s[i].1, path.push(s[i].0), i, st);
        if e1.err is None {
            lemma_add_children_next(s, path, i + 1, e1.st);
        }
    }
}

/// Removing a subtree leaves the identity counter unchanged.
pub proof fn lemma_remove_next(n: NodeV, path: Seq<u64>, st: StV)
    ensures
        remove_node_spec(n, path, st).st.next == st.next,
    decreases n, 0int,
{
    match n {
        NodeV::Element { children, .. } => {
            lemma_remove_children_next(children, path, 0, st);
        }
        _ => {}
    }
}

/// Removing a child list leaves the identity counter unchanged.
pub proof fn lemma_remove_children_next(s: Seq<(u64, NodeV)>, path: Seq<u64>, i: int, st: StV)
    ensures
        remove_children_spec(s, path, i, st).st.next == st.next,
    decreases s, s.len() - i,
{
    if 0 <= i < s.len() {
        lemma_remove_next(s[i].1, path.push(s[i].0), st);
        let e1 = remove_node_spec(s[i].1, path.push(s[i].0), st);
        if e1.err is None {
            lemma_remove_children_next(s, path, i + 1, e1.st);
        }
    }
}

/// The event sink: owns the identity state for the duration of a pass and
/// accumulates the ordered patch batch.
#[derive(Debug)]
pub struct Differ {
    pub states: NodeStates,
    pub diffs: Vec<Patch>,
}

impl Differ {
    /// The ghost identity state.
    pub open spec fn st(self) -> StV {
        StV { m: self.states.m(), next: self.states.next() }
    }

    /// Well-formed sink: well-formed identity state.
    pub open spec fn wf(self) -> bool {
        self.states.wf()
    }

    /// A sink over the given identity state, with an empty batch.
    pub fn new(states: NodeStates) -> (r: Differ)
        ensures
            r.states == states,
            r.diffs@.len() == 0,
    {
        Differ { states, diffs: Vec::new() }
    }

    /// Handles a reorder event: the children of the node at `path` were
    /// permuted, each pair giving a (new index, old index) move.
    pub fn diff_reordered(&mut self, path: &Vec<u64>, pairs: &Vec<(usize, usize)>)
        -> (r: Result<(), DiffError>)
        requires
            old(self).wf(),
        ensures
            final(self).wf(),
            ({
                let e = reorder_spec(path@, pairs_view(pairs@), old(self).st());
                &&& batch_view(final(self).diffs@) == batch_view(old(self).diffs@) + e.patches
                &&& final(self).st() == e.st
                &&& (r is Ok <==> e.err is None)
                &&& (r matches Err(er) ==> e.err == Some(er@))
            }),
    {
        if pairs.len() == 0 {
            proof {
                assert(batch_view(self.diffs@) + Seq::<PatchV>::empty()
                    =~= batch_view(self.diffs@));
            }
            return Ok(());
        }
        match self.states.lookup(path) {
            Err(e) => {
                proof {
                    assert(batch_view(self.diffs@) + Seq::<PatchV>::empty()
                        =~= batch_view(self.diffs@));
                }
                Err(e)
            }
            Ok(id) => {
                let sorted = sort_pairs(pairs);
                let ghost d0 = self.diffs@;
                let p = Patch { id, data: PatchData::Reorder { parent_id: id, pairs: sorted } };
                proof {
                    let e = reorder_spec(path@, pairs_view(pairs@), self.st());
                    assert(pairs_view(sorted@) =~= Seq::new(
                        sorted@.len(),
                        |i: int| (sorted@[i].0 as int, sorted@[i].1 as int),
                    ));
                    assert(p@ == e.patches[0]);
                }
                self.diffs.push(p);
                proof {
                    let e = reorder_spec(path@, pairs_view(pairs@), old(self).st());
                    assert(batch_view(self.diffs@) =~= batch_view(d0) + e.patches);
                }
                Ok(())
            }
        }
    }

    /// Handles an attribute-change event at `path` between two same-kind
    /// nodes: `SetText` for a text leaf, the minimal per-key delta for an
    /// element.  Any other pairing is an `UnsupportedTransition`.
    pub fn diff_params_changed(&mut self, path: &Vec<u64>, curr: &Node, last: &Node)
        -> (r: Result<(), DiffError>)
        requires
            old(self).wf(),
        ensures
            final(self).wf(),
            ({
                let e = params_changed_spec(curr@, last@, path@, old(self).st());
                &&& batch_view(final(self).diffs@) == batch_view(old(self).diffs@) + e.patches
                &&& final(self).st() == e.st
                &&& (r is Ok <==> e.err is None)
                &&& (r matches Err(er) ==> e.err == Some(er@))
            }),
    {
        match (curr, last) {
            (Node::Text { content }, Node::Text { .. }) => {
                match self.states.lookup(path) {
                    Err(e) => {
                        proof {
                            assert(batch_view(self.diffs@) + Seq::<PatchV>::empty()
                                =~= batch_view(self.diffs@));
                        }
                        Err(e)
                    }
                    Ok(id) => {
                        let ghost d0 = self.diffs@;
                        self.diffs.push(Patch {
                            id,
                            data: PatchData::SetText { content: content.clone() },
                        });
                        proof {
                            let e = params_changed_spec(curr@, last@, path@, old(self).st());
                            assert(batch_view(self.diffs@) =~= batch_view(d0) + e.patches);
                        }
                        Ok(())
                    }
                }
            }
            (
                Node::Element { tag: tc, params: pc, .. },
                Node::Element { tag: tl, params: pl, .. },
            ) => {
                if *tc != *tl {
                    proof {
                        assert(batch_view(self.diffs@) + Seq::<PatchV>::empty()
                            =~= batch_view(self.diffs@));
                    }
                    return Err(DiffError::UnsupportedTransition(copy_path(path)));
                }
                match self.states.lookup(path) {
                    Err(e) => {
                        proof {
                            assert(batch_view(self.diffs@) + Seq::<PatchV>::empty()
                                =~= batch_view(self.diffs@));
                        }
                        Err(e)
                    }
                    Ok(id) => {
                        let ghost cs = pc@;
                        let ghost ls = pl@;
                        let ghost d0 = self.diffs@;
                        let gid: Ghost<int> = Ghost(id as int);
                        let n = pc.params.len();
                        let mut i: usize = 0;
                        proof {
                            assert(batch_view(d0) + params_delta_fwd(gid@, cs, ls, 0)
                                =~= batch_view(d0) + params_delta_fwd(gid@, cs, ls, 0));
                        }
                        while i < n
                            invariant
                                self.states == old(self).states,
                                self.wf(),
                                n == pc.params.len(),
                                cs == pc@,
                                ls == pl@,
                                cs.len() == n,
                                0 <= i <= n,
                                gid@ == id as int,
                                batch_view(self.diffs@) + params_delta_fwd(gid@, cs, ls, i as int)
                                    == batch_view(d0) + params_delta_fwd(gid@, cs, ls, 0),
                            decreases n - i,
                        {
                            let ghost dpre = self.diffs@;
                            let key = &pc.params[i].0;
                            let value = &pc.params[i].1;
                            proof {
                                assert(cs[i as int] == (key@, value@));
                                crate::nodes::lemma_param_index(ls, key@);
                            }
                            let ghost tail = params_delta_fwd(gid@, cs, ls, i as int + 1);
                            match pl.find(key) {
                                Some(j) => {
                                    proof {
                                        assert(param_get(ls, key@) == Some(ls[j as int].1));
                                        assert(ls[j as int] == (pl.params@[j as int].0@,
                                            pl.params@[j as int].1@));
                                    }
                                    if !value.value_eq(&pl.params[j].1) {
                                        match param_to_ffi(id, key, value, true) {
                                            Some(p) => {
                                                let ghost pv = p@;
                                                proof {
                                                    assert(params_delta_fwd(gid@, cs, ls, i as int)
                                                        == seq![pv] + tail);
                                                }
                                                self.diffs.push(p);
                                                proof {
                                                    assert(batch_view(self.diffs@)
                                                        =~= batch_view(dpre).push(pv));
                                                    assert(batch_view(dpre).push(pv) + tail
                                                        =~= batch_view(dpre)
                                                        + (seq![pv] + tail));
                                                }
                                            }
                                            None => {
                                                proof {
                                                    assert(params_delta_fwd(gid@, cs, ls, i as int)
                                                        == tail);
                                                }
                                            }
                                        }
                                    } else {
                                        proof {
                                            assert(params_delta_fwd(gid@, cs, ls, i as int)
                                                == tail);
                                        }
                                    }
                                }
                                None => {
                                    proof {
                                        assert(param_get(ls, key@) is None);
                                    }
                                    match param_to_ffi(id, key, value, false) {
                                        Some(p) => {
                                            let ghost pv = p@;
                                            proof {
                                                assert(params_delta_fwd(gid@, cs, ls, i as int)
                                                    == seq![pv] + tail);
                                            }
                                            self.diffs.push(p);
                                            proof {
                                                assert(batch_view(self.diffs@)
                                                    =~= batch_view(dpre).push(pv));
                                                assert(batch_view(dpre).push(pv) + tail
                                                    =~= batch_view(dpre) + (seq![pv] + tail));
                                            }
                                        }
                                        None => {
                                            proof {
                                                assert(params_delta_fwd(gid@, cs, ls, i as int)
                                                    == tail);
                                            }
                                        }
                                    }
                                }
                            }
                            i += 1;
                        }
                        let ghost d1 = self.diffs@;
                        proof {
                            assert(params_delta_fwd(gid@, cs, ls, n as int)
                                =~= Seq::<PatchV>::empty());
                            assert(batch_view(d1) + Seq::<PatchV>::empty() =~= batch_view(d1));
                            assert(batch_view(d1) =~= batch_view(d0)
                                + params_delta_fwd(gid@, cs, ls, 0));
                        }
                        let m = pl.params.len();
                        let mut j: usize = 0;
                        while j < m
                            invariant
                                self.states == old(self).states,
                                self.wf(),
                                m == pl.params.len(),
                                cs == pc@,
                                ls == pl@,
                                ls.len() == m,
                                0 <= j <= m,
                                gid@ == id as int,
                                batch_view(self.diffs@) + params_delta_back(gid@, cs, ls, j as int)
                                    == batch_view(d1) + params_delta_back(gid@, cs, ls, 0),
                            decreases m - j,
                        {
                            let ghost dpre = self.diffs@;
                            let key = &pl.params[j].0;
                            proof {
                                assert(ls[j as int].0 == key@);
                                crate::nodes::lemma_param_index(cs, key@);
                            }
                            let ghost tail = params_delta_back(gid@, cs, ls, j as int + 1);
                            match pc.find(key) {
                                Some(_) => {
                                    proof {
                                        assert(param_get(cs, key@) is Some);
                                        assert(params_delta_back(gid@, cs, ls, j as int) == tail);
                                    }
                                }
                                None => {
                                    let p = Patch {
                                        id,
                                        data: PatchData::RemoveParam { key: key.clone() },
                                    };
                                    let ghost pv = p@;
                                    proof {
                                        assert(param_get(cs, key@) is None);
                                        assert(params_delta_back(gid@, cs, ls, j as int)
                                            == seq![pv] + tail);
                                    }
                                    self.diffs.push(p);
                                    proof {
                                        assert(batch_view(self.diffs@)
                                            =~= batch_view(dpre).push(pv));
                                        assert(batch_view(dpre).push(pv) + tail
                                            =~= batch_view(dpre) + (seq![pv] + tail));
                                    }
                                }
                            }
                            j += 1;
                        }
                        proof {
                            assert(params_delta_back(gid@, cs, ls, m as int)
                                =~= Seq::<PatchV>::empty());
                            assert(batch_view(self.diffs@) + Seq::<PatchV>::empty()
                                =~= batch_view(self.diffs@));
                            let e = params_changed_spec(curr@, last@, path@, old(self).st());
                            assert(e.patches == params_delta_fwd(gid@, cs, ls, 0)
                                + params_delta_back(gid@, cs, ls, 0));
                            assert(batch_view(self.diffs@) =~= batch_view(d0) + e.patches);
                        }
                        Ok(())
                    }
                }
            }
            _ => {
                proof {
                    assert(batch_view(self.diffs@) + Seq::<PatchV>::empty()
                        =~= batch_view(self.diffs@));
                }
                Err(DiffError::UnsupportedTransition(copy_path(path)))
            }
        }
    }

    /// Handles an addition event: the subtree `curr` is being inserted as
    /// the `index`-th child under the parent of `path`.  Visits the subtree
    /// in pre-order, allocating a fresh identity and emitting `Add` and
    /// attribute records for each node.
    pub fn diff_added(&mut self, path: &Vec<u64>, index: usize, curr: &Node)
        -> (r: Result<(), DiffError>)
        requires
            old(self).wf(),
            concrete(curr@),
            old(self).st().next + count_v(curr@) <= u64::MAX as int,
        ensures
            final(self).wf(),
            ({
                let e = add_node_spec(curr@, path@, index as int, old(self).st());
                &&& batch_view(final(self).diffs@) == batch_view(old(self).diffs@) + e.patches
                &&& final(self).st() == e.st
                &&& (r is Ok <==> e.err is None)
                &&& (r matches Err(er) ==> e.err == Some(er@))
            }),
        decreases curr, 0int,
    {
        proof {
            lemma_count_pos(curr@);
        }
        let pid: u64;
        if path.len() == 0 {
            pid = 0;
        } else {
            let parent = path_parent(path);
            match self.states.lookup(&parent) {
                Ok(found) => {
                    pid = found;
                }
                Err(e) => {
                    proof {
                        assert(batch_view(self.diffs@) + Seq::<PatchV>::empty()
                            =~= batch_view(self.diffs@));
                    }
                    return Err(e);
                }
            }
        }
        proof {
            assert(parent_id_of(path@, self.st().m) == Some(pid as int));
        }
        let id = match self.states.allocate(path) {
            Ok(fresh) => fresh,
            Err(e) => {
                proof {
                    assert(batch_view(self.diffs@) + Seq::<PatchV>::empty()
                        =~= batch_view(self.diffs@));
                }
                return Err(e);
            }
        };
        let ghost d0 = old(self).diffs@;
        let ghost st1 = self.st();
        match curr {
            Node::Text { content } => {
                let p1 = Patch {
                    id,
                    data: PatchData::Add { parent_id: pid, kind: NodeKind::Text, index },
                };
                let p2 = Patch { id, data: PatchData::SetText { content: content.clone() } };
                let ghost pv1 = p1@;
                let ghost pv2 = p2@;
                self.diffs.push(p1);
                self.diffs.push(p2);
                proof {
                    let e = add_node_spec(curr@, path@, index as int, old(self).st());
                    assert(e.patches =~= seq![pv1, pv2]);
                    assert(batch_view(self.diffs@) =~= batch_view(d0) + e.patches);
                }
                Ok(())
            }
            Node::Element { tag, params, children } => {
                let p1 = Patch {
                    id,
                    data: PatchData::Add {
                        parent_id: pid,
                        kind: NodeKind::Element(*tag),
                        index,
                    },
                };
                let ghost pv1 = p1@;
                self.diffs.push(p1);
                let mut ps = params_to_ffi(id, params, false);
                let ghost psv = batch_view(ps@);
                self.diffs.append(&mut ps);
                proof {
                    assert(batch_view(self.diffs@)
                        =~= (batch_view(d0) + seq![pv1]) + psv);
                    lemma_children_view(children@);
                    lemma_concrete_children(children_view(children@));
                    assert(concrete_children(children_view(children@)));
                    assert(count_v(curr@)
                        == 1 + count_children_from(children_view(children@), 0));
                }
                let ghost d1 = self.diffs@;
                let r2 = self.add_child_list(children, path, 0);
                proof {
                    let e = add_node_spec(curr@, path@, index as int, old(self).st());
                    let ek = add_children_spec(children_view(children@), path@, 0, st1);
                    assert(e.patches =~= (seq![pv1] + psv) + ek.patches);
                    assert(batch_view(self.diffs@) =~= batch_view(d1) + ek.patches);
                    assert(batch_view(self.diffs@) =~= batch_view(d0) + e.patches);
                }
                r2
            }
            Node::Widget { .. } => {
                proof {
                    assert(false);
                }
                unreached()
            }
        }
    }

    /// Adds the children of the node at `path`, from position `i` on.
    fn add_child_list(&mut self, children: &Vec<(u64, Node)>, path: &Vec<u64>, i: usize)
        -> (r: Result<(), DiffError>)
        requires
            old(self).wf(),
            i <= children@.len(),
            concrete_children(children_view(children@)),
            old(self).st().next + count_children_from(children_view(children@), i as int)
                <= u64::MAX as int,
        ensures
            final(self).wf(),
            ({
                let e = add_children_spec(
                    children_view(children@), path@, i as int, old(self).st());
                &&& batch_view(final(self).diffs@) == batch_view(old(self).diffs@) + e.patches
                &&& final(self).st() == e.st
                &&& (r is Ok <==> e.err is None)
                &&& (r matches Err(er) ==> e.err == Some(er@))
            }),
        decreases children, children@.len() - i,
    {
        let ghost cv = children_view(children@);
        proof {
            lemma_children_view(children@);
            lemma_concrete_children(cv);
        }
        if i == children.len() {
            proof {
                assert(batch_view(self.diffs@) + Seq::<PatchV>::empty()
                    =~= batch_view(self.diffs@));
            }
            return Ok(());
        }
        proof {
            assert(decreases_to!(children => children@[i as int].1));
            lemma_count_children_step(cv, i as int);
            assert(cv[i as int] == (children@[i as int].0, children@[i as int].1@));
        }
        let child_path = path_child(path, children[i].0);
        let ghost d0 = old(self).diffs@;
        let ghost st0 = old(self).st();
        let r1 = self.diff_added(&child_path, i, &children[i].1);
        let ghost e1 = add_node_spec(cv[i as int].1, path@.push(cv[i as int].0), i as int, st0);
        match r1 {
            Err(e) => {
                proof {
                    assert(add_children_spec(cv, path@, i as int, st0) == e1);
                }
                Err(e)
            }
            Ok(()) => {
                proof {
                    lemma_add_next(cv[i as int].1, path@.push(cv[i as int].0), i as int, st0);
                }
                let ghost d1 = self.diffs@;
                let r2 = self.add_child_list(children, path, i + 1);
                proof {
                    let e2 = add_children_spec(cv, path@, i as int + 1, e1.st);
                    let e = add_children_spec(cv, path@, i as int, st0);
                    assert(e.patches =~= e1.patches + e2.patches);
                    assert(batch_view(self.diffs@) =~= batch_view(d1) + e2.patches);
                    assert(batch_view(self.diffs@) =~= batch_view(d0) + e.patches);
                }
                r2
            }
        }
    }

    /// Handles a removal event: the subtree `last` at `path` is leaving the
    /// tree.  Visits it in post-order, children before the parent, retiring
    /// each identity and emitting one bare `Remove` record for it.
    pub fn diff_removed(&mut self, path: &Vec<u64>, _index: usize, last: &Node)
        -> (r: Result<(), DiffError>)
        requires
            old(self).wf(),
        ensures
            final(self).wf(),
            ({
                let e = remove_node_spec(last@, path@, old(self).st());
                &&& batch_view(final(self).diffs@) == batch_view(old(self).diffs@) + e.patches
                &&& final(self).st() == e.st
                &&& (r is Ok <==> e.err is None)
                &&& (r matches Err(er) ==> e.err == Some(er@))
            }),
        decreases last, 0int,
    {
        let ghost d0 = old(self).diffs@;
        let ghost st0 = old(self).st();
        match last {
            Node::Element { children, .. } => {
                let rk = self.remove_child_list(children, path, 0);
                match rk {
                    Err(e) => {
                        proof {
                            let ek = remove_children_spec(
                                children_view(children@), path@, 0, st0);
                            assert(remove_node_spec(last@, path@, st0) == ek);
                        }
                        return Err(e);
                    }
                    Ok(()) => {}
                }
            }
            _ => {
                proof {
                    assert(batch_view(self.diffs@) + Seq::<PatchV>::empty()
                        =~= batch_view(self.diffs@));
                }
            }
        }
        let ghost d1 = self.diffs@;
        match self.states.retire(path) {
            Err(e) => {
                proof {
                    assert(batch_view(self.diffs@) + Seq::<PatchV>::empty()
                        =~= batch_view(self.diffs@));
                    let em = remove_node_spec(last@, path@, st0);
                    assert(batch_view(self.diffs@) =~= batch_view(d0) + em.patches);
                }
                Err(e)
            }
            Ok(found) => {
                let p = Patch { id: found, data: PatchData::Remove };
                let ghost pv = p@;
                self.diffs.push(p);
                proof {
                    let em = remove_node_spec(last@, path@, st0);
                    assert(batch_view(self.diffs@) =~= batch_view(d1).push(pv));
                    assert(batch_view(self.diffs@) =~= batch_view(d0) + em.patches);
                }
                Ok(())
            }
        }
    }

    /// Removes the children of the node at `path`, from position `i` on.
    fn remove_child_list(&mut self, children: &Vec<(u64, Node)>, path: &Vec<u64>, i: usize)
        -> (r: Result<(), DiffError>)
        requires
            old(self).wf(),
            i <= children@.len(),
        ensures
            final(self).wf(),
            ({
                let e = remove_children_spec(
                    children_view(children@), path@, i as int, old(self).st());
                &&& batch_view(final(self).diffs@) == batch_view(old(self).diffs@) + e.patches
                &&& final(self).st() == e.st
                &&& (r is Ok <==> e.err is None)
                &&& (r matches Err(er) ==> e.err == Some(er@))
            }),
        decreases children, children@.len() - i,
    {
        let ghost cv = children_view(children@);
        proof {
            lemma_children_view(children@);
        }
        if i == children.len() {
            proof {
                assert(batch_view(self.diffs@) + Seq::<PatchV>::empty()
                    =~= batch_view(self.diffs@));
            }
            return Ok(());
        }
        proof {
            assert(decreases_to!(children => children@[i as int].1));
            assert(cv[i as int] == (children@[i as int].0, children@[i as int].1@));
        }
        let child_path = path_child(path, children[i].0);
        let ghost d0 = old(self).diffs@;
        let ghost st0 = old(self).st();
        let r1 = self.diff_removed(&child_path, 0, &children[i].1);
        let ghost e1 = remove_node_spec(cv[i as int].1, path@.push(cv[i as int].0), st0);
        match r1 {
            Err(e) => {
                proof {
                    assert(remove_children_spec(cv, path@, i as int, st0) == e1);
                }
                Err(e)
            }
            Ok(()) => {
                let ghost d1 = self.diffs@;
                let r2 = self.remove_child_list(children, path, i + 1);
                proof {
                    let e2 = remove_children_spec(cv, path@, i as int + 1, e1.st);
                    let e = remove_children_spec(cv, path@, i as int, st0);
                    assert(e.patches =~= e1.patches + e2.patches);
                    assert(batch_view(self.diffs@) =~= batch_view(d1) + e2.patches);
                    assert(batch_view(self.diffs@) =~= batch_view(d0) + e.patches);
                }
                r2
            }
        }
    }

    /// Handles a replacement event at `path`: the node kind changed, so the
    /// identity cannot be preserved.  Runs the full removal of `last`, then
    /// the full addition of `curr`; the retired identity is never reused.
    pub fn diff_replaced(&mut self, path: &Vec<u64>, index: usize, curr: &Node, last: &Node)
        -> (r: Result<(), DiffError>)
        requires
            old(self).wf(),
            concrete(curr@),
            old(self).st().next + count_v(curr@) <= u64::MAX as int,
        ensures
            final(self).wf(),
            ({
                let e = replace_spec(curr@, last@, path@, index as int, old(self).st());
                &&& batch_view(final(self).diffs@) == batch_view(old(self).diffs@) + e.patches
                &&& final(self).st() == e.st
                &&& (r is Ok <==> e.err is None)
                &&& (r matches Err(er) ==> e.err == Some(er@))
            }),
    {
        let ghost d0 = old(self).diffs@;
        let ghost st0 = old(self).st();
        match self.diff_removed(path, 0, last) {
            Err(e) => Err(e),
            Ok(()) => {
                proof {
                    lemma_remove_next(last@, path@, st0);
                }
                let ghost d1 = self.diffs@;
                let ghost er = remove_node_spec(last@, path@, st0);
                let r2 = self.diff_added(path, index, curr);
                proof {
                    let ea = add_node_spec(curr@, path@, index as int, er.st);
                    let e = replace_spec(curr@, last@, path@, index as int, st0);
                    assert(e.patches =~= er.patches + ea.patches);
                    assert(batch_view(self.diffs@) =~= batch_view(d1) + ea.patches);
                    assert(batch_view(self.diffs@) =~= batch_view(d0) + e.patches);
                }
                r2
            }
        }
    }
}

/// Inserts a pair into a list sorted by new index, in place.
fn insert_pair(v: &mut Vec<(usize, usize)>, p: (usize, usize))
    ensures
        pairs_view(final(v)@) == insert_sorted((p.0 as int, p.1 as int), pairs_view(old(v)@)),
{
    let n = v.len();
    let mut pos: usize = 0;
    while pos < n && v[pos].0 < p.0
        invariant
            v == old(v),
            n == v.len(),
            0 <= pos <= n,
            forall|j: int| 0 <= j < pos ==> v@[j].0 < p.0,
        decreases n - pos,
    {
        pos += 1;
    }
    v.insert(pos, p);
    proof {
        let s = pairs_view(old(v)@);
        let pi = (p.0 as int, p.1 as int);
        lemma_insert_sorted_at(pi, s, pos as int);
        assert(pairs_view(v@) =~= s.take(pos as int) + seq![pi] + s.skip(pos as int));
    }
}

/// Sorts index pairs by new index, ascending; the sort is the one the
/// ghost `sort_pairs_v` describes.
fn sort_pairs(pairs: &Vec<(usize, usize)>) -> (r: Vec<(usize, usize)>)
    ensures
        pairs_view(r@) == sort_pairs_v(pairs_view(pairs@)),
{
    let ghost pv = pairs_view(pairs@);
    let mut out: Vec<(usize, usize)> = Vec::new();
    let n = pairs.len();
    let mut i: usize = n;
    proof {
        assert(pv.skip(n as int) =~= Seq::<(int, int)>::empty());
        assert(pairs_view(out@) =~= Seq::<(int, int)>::empty());
    }
    while i > 0
        invariant
            n == pairs.len(),
            pv == pairs_view(pairs@),
            pv.len() == n,
            0 <= i <= n,
            pairs_view(out@) == sort_pairs_v(pv.skip(i as int)),
        decreases i,
    {
        i -= 1;
        proof {
            assert(pv.skip(i as int)[0] == pv[i as int]);
            assert(pv.skip(i as int).drop_first() =~= pv.skip(i as int + 1));
            assert(pv[i as int] == (pairs@[i as int].0 as int, pairs@[i as int].1 as int));
        }
        insert_pair(&mut out, pairs[i]);
    }
    proof {
        assert(pv.skip(0) =~= pv);
    }
    out
}

} // verus!
