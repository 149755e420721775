//! The library's laws: properties of the diff walk and the delta policy,
//! stated over the ghost interpreters and proved once for all inputs.

use vstd::prelude::*;
use crate::nodes::{
    key_index, lemma_key_index, lemma_param_index, lemma_wf_children, node_wf, param_get,
    param_index, params_wf, wf_children, NodeV, ParamV,
};
use crate::patch::{param_patch_v, params_patches_v, PatchDataV, PatchV};
use crate::differ::{
    add_node_spec, params_changed_spec, params_delta_back, params_delta_fwd, remove_node_spec,
    reorder_spec, replace_spec, Emit, StV,
};
use crate::engine::{diff_spec, emit_join, forward_pass, removed_pass, reorder_pairs_v};
use crate::differ::parent_id_of;

verus! {

/// In a well-formed child list, each key finds its own position.
pub proof fn lemma_key_index_self(s: Seq<(u64, NodeV)>, i: int)
    requires
        crate::nodes::keys_unique(s),
        0 <= i < s.len(),
    ensures
        key_index(s, s[i].0) == i,
{
    lemma_key_index(s, s[i].0);
}

/// In a well-formed attribute list, each key looks its own entry up.
pub proof fn lemma_param_get_self(s: Seq<(Seq<char>, ParamV)>, i: int)
    requires
        params_wf(s),
        0 <= i < s.len(),
    ensures
        param_get(s, s[i].0) == Some(s[i].1),
{
    lemma_param_index(s, s[i].0);
}

/// Identical child lists yield no reorder pairs.
proof fn lemma_noop_pairs(s: Seq<(u64, NodeV)>, i: int)
    requires
        crate::nodes::keys_unique(s),
    ensures
        reorder_pairs_v(s, s, i) == Seq::<(int, int)>::empty(),
    decreases s.len() - i,
{
    if 0 <= i < s.len() {
        lemma_key_index_self(s, i);
        lemma_noop_pairs(s, i + 1);
    }
}

/// A removal pass over lists with the same keys removes nothing.
proof fn lemma_removed_pass_allfound(
    cs: Seq<(u64, NodeV)>,
    ls: Seq<(u64, NodeV)>,
    path: Seq<u64>,
    j: int,
    st: StV,
)
    requires
        forall|q: int| 0 <= q < ls.len() ==> key_index(cs, #[trigger] ls[q].0) != -1,
    ensures
        removed_pass(cs, ls, path, j, st) == (Emit {
            patches: Seq::<PatchV>::empty(),
            st,
            err: None,
        }),
    decreases ls.len() - j,
{
    if 0 <= j < ls.len() {
        lemma_removed_pass_allfound(cs, ls, path, j + 1, st);
    }
}

/// A forward pass over pointwise-identical survivors emits nothing.
proof fn lemma_forward_noop(
    cs: Seq<(u64, NodeV)>,
    ls: Seq<(u64, NodeV)>,
    path: Seq<u64>,
    i: int,
    st: StV,
)
    requires
        wf_children(cs),
        crate::nodes::concrete_children(cs),
        forall|q: int| 0 <= q < cs.len() ==> {
            let j = key_index(ls, #[trigger] cs[q].0);
            &&& j != -1
            &&& ls[j].1 == cs[q].1
        },
    ensures
        forward_pass(cs, ls, path, i, st) == (Emit {
            patches: Seq::<PatchV>::empty(),
            st,
            err: None,
        }),
    decreases cs, 1int, cs.len() - i,
{
    if 0 <= i < cs.len() {
        let j = key_index(ls, cs[i].0);
        lemma_wf_children(cs);
        crate::nodes::lemma_concrete_children(cs);
        lemma_noop_update(cs[i].1, path.push(cs[i].0), i, st);
        assert(ls[j].1 == cs[i].1);
        lemma_forward_noop(cs, ls, path, i + 1, st);
        assert(Seq::<PatchV>::empty() + Seq::<PatchV>::empty()
            =~= Seq::<PatchV>::empty());
    }
}

/// No-op idempotence: walking a well-formed tree against an identical
/// snapshot yields an empty batch, no error, and an unchanged identity
/// state.
pub proof fn lemma_noop_update(t: NodeV, path: Seq<u64>, index: int, st: StV)
    requires
        node_wf(t),
        crate::nodes::concrete(t),
    ensures
        diff_spec(t, t, path, index, st) == (Emit {
            patches: Seq::<PatchV>::empty(),
            st,
            err: None,
        }),
    decreases t, 0int,
{
    match t {
        NodeV::Text { .. } => {}
        NodeV::Element { tag, params, children } => {
            lemma_noop_pairs(children, 0);
            lemma_removed_pass_allfound_self(children, path, st);
            assert forall|q: int| 0 <= q < children.len() implies {
                let j = key_index(children, #[trigger] children[q].0);
                &&& j != -1
                &&& children[j].1 == children[q].1
            } by {
                lemma_key_index_self(children, q);
            }
            lemma_forward_noop(children, children, path, 0, st);
            let e0 = Emit { patches: Seq::<PatchV>::empty(), st, err: None };
            assert(emit_join(e0, e0) == e0) by {
                assert(Seq::<PatchV>::empty() + Seq::<PatchV>::empty()
                    =~= Seq::<PatchV>::empty());
            }
        }
        NodeV::Widget { .. } => {
            assert(false);
        }
    }
}

/// Helper: a removal pass of a list against itself removes nothing.
proof fn lemma_removed_pass_allfound_self(s: Seq<(u64, NodeV)>, path: Seq<u64>, st: StV)
    requires
        crate::nodes::keys_unique(s),
    ensures
        removed_pass(s, s, path, 0, st) == (Emit {
            patches: Seq::<PatchV>::empty(),
            st,
            err: None,
        }),
{
    assert forall|q: int| 0 <= q < s.len()
        implies key_index(s, #[trigger] s[q].0) != -1 by {
        lemma_key_index_self(s, q);
    }
    lemma_removed_pass_allfound(s, s, path, 0, st);
}

/// Does this record speak of the attribute `k`?
pub open spec fn patch_mentions_key(p: PatchV, k: Seq<char>) -> bool {
    match p.data {
        PatchDataV::SetParam { key, .. } => key == k,
        PatchDataV::SetFlag { key } => key == k,
        PatchDataV::RemoveParam { key } => key == k,
        _ => false,
    }
}

/// Forward-pass half of parameter minimality.
proof fn lemma_fwd_minimal(
    id: int,
    curr: Seq<(Seq<char>, ParamV)>,
    last: Seq<(Seq<char>, ParamV)>,
    k: Seq<char>,
    i: int,
)
    requires
        params_wf(curr),
        param_get(curr, k) == param_get(last, k),
    ensures
        forall|q: int| 0 <= q < params_delta_fwd(id, curr, last, i).len()
            ==> !patch_mentions_key(#[trigger] params_delta_fwd(id, curr, last, i)[q], k),
    decreases curr.len() - i,
{
    if 0 <= i < curr.len() {
        lemma_fwd_minimal(id, curr, last, k, i + 1);
        let rest = params_delta_fwd(id, curr, last, i + 1);
        if curr[i].0 == k {
            lemma_param_get_self(curr, i);
            assert(param_get(last, k) == Some(curr[i].1));
            assert(params_delta_fwd(id, curr, last, i) == rest);
        } else {
            let head = match param_get(last, curr[i].0) {
                Some(lv) => if lv == curr[i].1 {
                    None
                } else {
                    param_patch_v(id, curr[i].0, curr[i].1, true)
                },
                None => param_patch_v(id, curr[i].0, curr[i].1, false),
            };
            match head {
                Some(p) => {
                    assert(!patch_mentions_key(p, k));
                    assert(forall|q: int| 1 <= q < (seq![p] + rest).len()
                        ==> (seq![p] + rest)[q] == rest[q - 1]);
                }
                None => {}
            }
        }
    }
}

/// Backward-pass half of parameter minimality.
proof fn lemma_back_minimal(
    id: int,
    curr: Seq<(Seq<char>, ParamV)>,
    last: Seq<(Seq<char>, ParamV)>,
    k: Seq<char>,
    j: int,
)
    requires
        params_wf(last),
        param_get(curr, k) == param_get(last, k),
    ensures
        forall|q: int| 0 <= q < params_delta_back(id, curr, last, j).len()
            ==> !patch_mentions_key(#[trigger] params_delta_back(id, curr, last, j)[q], k),
    decreases last.len() - j,
{
    if 0 <= j < last.len() {
        lemma_back_minimal(id, curr, last, k, j + 1);
        let rest = params_delta_back(id, curr, last, j + 1);
        if param_get(curr, last[j].0) is None {
            let p = PatchV { id, data: PatchDataV::RemoveParam { key: last[j].0 } };
            if last[j].0 == k {
                lemma_param_get_self(last, j);
                assert(param_get(curr, k) is Some);
                assert(false);
            }
            assert(!patch_mentions_key(p, k));
            assert(forall|q: int| 1 <= q < (seq![p] + rest).len()
                ==> (seq![p] + rest)[q] == rest[q - 1]);
        }
    }
}

/// Parameter minimality: an attribute-change event between two elements
/// never emits a record for a key whose value is the same on both sides.
pub proof fn lemma_param_minimality(
    curr: NodeV,
    last: NodeV,
    path: Seq<u64>,
    st: StV,
    k: Seq<char>,
)
    requires
        curr matches NodeV::Element { params: pc, .. } && params_wf(pc),
        last matches NodeV::Element { params: pl, .. } && params_wf(pl),
        param_get(curr->Element_params, k) == param_get(last->Element_params, k),
    ensures
        ({
            let e = params_changed_spec(curr, last, path, st);
            forall|q: int| 0 <= q < e.patches.len()
                ==> !patch_mentions_key(#[trigger] e.patches[q], k)
        }),
{
    let pc = curr->Element_params;
    let pl = last->Element_params;
    if curr->Element_tag == last->Element_tag && st.m.contains_key(path) {
        let id = st.m[path] as int;
        lemma_fwd_minimal(id, pc, pl, k, 0);
        lemma_back_minimal(id, pc, pl, k, 0);
        let a = params_delta_fwd(id, pc, pl, 0);
        let b = params_delta_back(id, pc, pl, 0);
        assert(forall|q: int| 0 <= q < a.len() ==> (a + b)[q] == a[q]);
        assert(forall|q: int| a.len() <= q < (a + b).len() ==> (a + b)[q] == b[q - a.len()]);
    }
}

/// A fresh false flag emits nothing: adding a node whose attribute list
/// holds `(k, Flag(false))` emits no record for that key.
pub proof fn lemma_false_flag_silent(id: int, ps: Seq<(Seq<char>, ParamV)>, k: Seq<char>)
    requires
        params_wf(ps),
        param_get(ps, k) == Some(ParamV::Flag(false)),
    ensures
        forall|q: int| 0 <= q < params_patches_v(id, ps, false).len()
            ==> !patch_mentions_key(#[trigger] params_patches_v(id, ps, false)[q], k),
    decreases ps,
{
    lemma_param_index(ps, k);
    if ps.len() > 0 {
        let rest = params_patches_v(id, ps.drop_first(), false);
        assert(forall|q: int| 0 <= q < ps.len() - 1 ==> ps.drop_first()[q] == ps[q + 1]);
        if ps[0].0 == k {
            assert(param_get(ps, k) == Some(ps[0].1));
            assert(ps[0].1 == ParamV::Flag(false));
            assert(param_patch_v(id, ps[0].0, ps[0].1, false) is None);
            lemma_param_index(ps.drop_first(), k);
            if param_index(ps.drop_first(), k) != -1 {
                let r = param_index(ps.drop_first(), k);
                assert(ps.drop_first()[r].0 == k);
                assert(ps[r + 1].0 == k);
                assert(false);
            }
            lemma_all_keys_unmentioned(id, ps.drop_first(), k, false);
        } else {
            assert(param_index(ps.drop_first(), k) == param_index(ps, k) - 1);
            assert(param_get(ps.drop_first(), k) == Some(ParamV::Flag(false)));
            lemma_false_flag_silent(id, ps.drop_first(), k);
            match param_patch_v(id, ps[0].0, ps[0].1, false) {
                Some(p) => {
                    assert(!patch_mentions_key(p, k));
                    assert(forall|q: int| 1 <= q < (seq![p] + rest).len()
                        ==> (seq![p] + rest)[q] == rest[q - 1]);
                }
                None => {}
            }
        }
    }
}

/// Helper: an attribute list without key `k` mentions it in no record.
proof fn lemma_all_keys_unmentioned(id: int, ps: Seq<(Seq<char>, ParamV)>, k: Seq<char>, rf: bool)
    requires
        param_index(ps, k) == -1,
    ensures
        forall|q: int| 0 <= q < params_patches_v(id, ps, rf).len()
            ==> !patch_mentions_key(#[trigger] params_patches_v(id, ps, rf)[q], k),
    decreases ps,
{
    lemma_param_index(ps, k);
    if ps.len() > 0 {
        let rest = params_patches_v(id, ps.drop_first(), rf);
        lemma_param_index(ps.drop_first(), k);
        if param_index(ps.drop_first(), k) != -1 {
            let r = param_index(ps.drop_first(), k);
            assert(forall|q: int| 0 <= q < ps.len() - 1 ==> ps.drop_first()[q] == ps[q + 1]);
            assert(ps[r + 1].0 == k);
            assert(false);
        }
        lemma_all_keys_unmentioned(id, ps.drop_first(), k, rf);
        match param_patch_v(id, ps[0].0, ps[0].1, rf) {
            Some(p) => {
                assert(!patch_mentions_key(p, k));
                assert(forall|q: int| 1 <= q < (seq![p] + rest).len()
                    ==> (seq![p] + rest)[q] == rest[q - 1]);
            }
            None => {}
        }
    }
}

/// A changed attribute is expressed: when key `k` holds `v` now and held a
/// different value before, the forward pass carries the record that the
/// delta policy assigns to `v` — `SetFlag` for a flag turning true,
/// `RemoveParam` for a flag turning false, `SetParam` for a text value.
pub proof fn lemma_changed_key_expressed(
    id: int,
    curr: Seq<(Seq<char>, ParamV)>,
    last: Seq<(Seq<char>, ParamV)>,
    k: Seq<char>,
    i: int,
)
    requires
        params_wf(curr),
        0 <= i < curr.len(),
        curr[i].0 == k,
        param_get(last, k) is Some,
        param_get(last, k) != Some(curr[i].1),
        param_patch_v(id, k, curr[i].1, true) is Some,
    ensures
        ({
            let b = params_delta_fwd(id, curr, last, 0);
            exists|q: int| 0 <= q < b.len()
                && b[q] == param_patch_v(id, k, curr[i].1, true)->Some_0
        }),
{
    lemma_fwd_contains_at(id, curr, last, k, i, 0);
}

/// Helper: the record of the changed entry at `i` stands in the forward
/// pass started at any position `j` at or before `i`.
proof fn lemma_fwd_contains_at(
    id: int,
    curr: Seq<(Seq<char>, ParamV)>,
    last: Seq<(Seq<char>, ParamV)>,
    k: Seq<char>,
    i: int,
    j: int,
)
    requires
        params_wf(curr),
        0 <= j <= i < curr.len(),
        curr[i].0 == k,
        param_get(last, k) is Some,
        param_get(last, k) != Some(curr[i].1),
        param_patch_v(id, k, curr[i].1, true) is Some,
    ensures
        ({
            let b = params_delta_fwd(id, curr, last, j);
            exists|q: int| 0 <= q < b.len()
                && b[q] == param_patch_v(id, k, curr[i].1, true)->Some_0
        }),
    decreases i - j,
{
    let p = param_patch_v(id, k, curr[i].1, true)->Some_0;
    let b = params_delta_fwd(id, curr, last, j);
    let rest = params_delta_fwd(id, curr, last, j + 1);
    if j == i {
        assert(params_delta_fwd(id, curr, last, i) == seq![p] + rest);
        assert((seq![p] + rest)[0] == p);
    } else {
        lemma_fwd_contains_at(id, curr, last, k, i, j + 1);
        let q0 = choose|q: int| 0 <= q < rest.len() && rest[q] == p;
        let head = match param_get(last, curr[j].0) {
            Some(lv) => if lv == curr[j].1 {
                None
            } else {
                param_patch_v(id, curr[j].0, curr[j].1, true)
            },
            None => param_patch_v(id, curr[j].0, curr[j].1, false),
        };
        match head {
            Some(hp) => {
                assert(b == seq![hp] + rest);
                assert(b[q0 + 1] == p);
            }
            None => {
                assert(b == rest);
            }
        }
    }
}

/// Replace semantics: when a text leaf gives way to a different-kind node
/// at a mapped path, the batch opens with `Remove` of the old identity
/// followed by `Add` under a strictly larger, hence different, identity.
pub proof fn lemma_replace_fresh_identity(
    curr: NodeV,
    last: NodeV,
    path: Seq<u64>,
    index: int,
    st: StV,
)
    requires
        last matches NodeV::Text { .. },
        !(curr matches NodeV::Text { .. }),
        curr matches NodeV::Element { .. },
        st.m.contains_key(path),
        st.m[path] < st.next,
        parent_id_of(path, st.m.remove(path)) is Some,
    ensures
        ({
            let e = diff_spec(curr, last, path, index, st);
            &&& e.patches.len() >= 2
            &&& e.patches[0] == (PatchV { id: st.m[path] as int, data: PatchDataV::Remove })
            &&& e.patches[1].data is Add
            &&& e.patches[1].id == st.next
            &&& e.patches[1].id != e.patches[0].id
        }),
{
    let er = remove_node_spec(last, path, st);
    let p0 = PatchV { id: st.m[path] as int, data: PatchDataV::Remove };
    assert(er.patches =~= seq![p0]);
    let ea = add_node_spec(curr, path, index, er.st);
    assert(!er.st.m.contains_key(path));
    assert(ea.patches[0].data is Add);
    assert(ea.patches[0].id == st.next);
    let e = diff_spec(curr, last, path, index, st);
    assert(e == replace_spec(curr, last, path, index, st));
    assert(e.patches == er.patches + ea.patches);
    assert(e.patches[0] == p0);
    assert(e.patches[1] == ea.patches[0]);
}

/// The reorder pairs of position `i` on carry new indices at least `i`,
/// strictly ascending.
proof fn lemma_pairs_ascending(cs: Seq<(u64, NodeV)>, ls: Seq<(u64, NodeV)>, i: int)
    ensures
        forall|q: int| 0 <= q < reorder_pairs_v(cs, ls, i).len()
            ==> (#[trigger] reorder_pairs_v(cs, ls, i)[q]).0 >= i,
        forall|q1: int, q2: int|
            0 <= q1 < q2 < reorder_pairs_v(cs, ls, i).len()
                ==> reorder_pairs_v(cs, ls, i)[q1].0 < reorder_pairs_v(cs, ls, i)[q2].0,
    decreases cs.len() - i,
{
    if 0 <= i < cs.len() {
        lemma_pairs_ascending(cs, ls, i + 1);
        let rest = reorder_pairs_v(cs, ls, i + 1);
        let j = key_index(ls, cs[i].0);
        if j != -1 && j != i {
            assert(forall|q: int| 1 <= q < (seq![(i, j)] + rest).len()
                ==> (seq![(i, j)] + rest)[q] == rest[q - 1]);
        }
    }
}

/// Reorder batching: when the children of a surviving element were only
/// permuted — same tag, same attributes, same keyed children, only their
/// order changed — the walk yields exactly one `Reorder` record (none
/// when no child moved), addressed to the element, carrying one
/// (new index, old index) pair per moved child, sorted by new index, and
/// no other record: in particular no `Add` and no `Remove`.
pub proof fn lemma_reorder_batching(curr: NodeV, last: NodeV, path: Seq<u64>, index: int, st: StV)
    requires
        curr matches NodeV::Element { .. },
        last matches NodeV::Element { .. },
        curr->Element_tag == last->Element_tag,
        curr->Element_params == last->Element_params,
        node_wf(curr),
        crate::nodes::concrete(curr),
        crate::nodes::keys_unique(last->Element_children),
        st.m.contains_key(path),
        forall|q: int| 0 <= q < curr->Element_children.len() ==> {
            let j = key_index(last->Element_children, (#[trigger] curr->Element_children[q]).0);
            &&& j != -1
            &&& last->Element_children[j].1 == curr->Element_children[q].1
        },
        forall|q: int| 0 <= q < last->Element_children.len()
            ==> key_index(curr->Element_children, (#[trigger] last->Element_children[q]).0)
                != -1,
    ensures
        ({
            let e = diff_spec(curr, last, path, index, st);
            let pairs = reorder_pairs_v(
                curr->Element_children, last->Element_children, 0);
            &&& e.err is None
            &&& e.st == st
            &&& (pairs.len() == 0 ==> e.patches == Seq::<PatchV>::empty())
            &&& (pairs.len() > 0 ==> e.patches == seq![
                PatchV {
                    id: st.m[path] as int,
                    data: PatchDataV::Reorder {
                        parent_id: st.m[path] as int,
                        pairs,
                    },
                },
            ])
            &&& forall|q1: int, q2: int| 0 <= q1 < q2 < pairs.len()
                ==> pairs[q1].0 < pairs[q2].0
        }),
{
    let cc = curr->Element_children;
    let cl = last->Element_children;
    let pairs = reorder_pairs_v(cc, cl, 0);
    let e0 = Emit { patches: Seq::<PatchV>::empty(), st, err: None };
    lemma_pairs_ascending(cc, cl, 0);
    crate::differ::lemma_sort_pairs_sorted(pairs);
    let e2 = reorder_spec(path, pairs, st);
    assert forall|q: int| 0 <= q < cl.len()
        implies key_index(cc, #[trigger] cl[q].0) != -1 by {}
    lemma_removed_pass_allfound(cc, cl, path, 0, e2.st);
    lemma_wf_children(cc);
    crate::nodes::lemma_concrete_children(cc);
    lemma_forward_noop(cc, cl, path, 0, e2.st);
    let e = diff_spec(curr, last, path, index, st);
    assert(e == emit_join(emit_join(emit_join(e0, e2), e0), e0));
    if pairs.len() == 0 {
        assert(e.patches =~= Seq::<PatchV>::empty());
    } else {
        assert(e.patches =~= e2.patches);
        assert(e2.patches == seq![
            PatchV {
                id: st.m[path] as int,
                data: PatchDataV::Reorder { parent_id: st.m[path] as int, pairs },
            },
        ]);
    }
}

/// Add/remove balance: at any point of a context's life, the number of
/// `Add` records emitted since construction minus the number of `Remove`
/// records emitted equals the number of identities alive in the path map.
pub proof fn lemma_add_remove_balance(ctx: crate::context::Context)
    requires
        ctx.wf(),
    ensures
        ctx.adds@ - ctx.removes@ == ctx.states.m().dom().len(),
{
}

} // verus!
