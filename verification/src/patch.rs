//! Patch records: the addressed mutation instructions a batch is made of,
//! and the translation of attribute entries into patch records.

use vstd::prelude::*;
use crate::nodes::{NodeKind, ParamV, ParamValue, Params};

verus! {

/// The payload of one patch record.
#[derive(Debug, Clone, PartialEq)]
pub enum PatchData {
    Add { parent_id: u64, kind: NodeKind, index: usize },
    Remove,
    Reorder { parent_id: u64, pairs: Vec<(usize, usize)> },
    SetParam { key: String, value: String },
    SetFlag { key: String },
    RemoveParam { key: String },
    SetText { content: String },
}

/// One patch record, addressed to a node identity.
#[derive(Debug, Clone, PartialEq)]
pub struct Patch {
    pub id: u64,
    pub data: PatchData,
}

/// Ghost counterpart of `PatchData`.
pub enum PatchDataV {
    Add { parent_id: int, kind: NodeKind, index: int },
    Remove,
    Reorder { parent_id: int, pairs: Seq<(int, int)> },
    SetParam { key: Seq<char>, value: Seq<char> },
    SetFlag { key: Seq<char> },
    RemoveParam { key: Seq<char> },
    SetText { content: Seq<char> },
}

/// Ghost counterpart of `Patch`.
pub struct PatchV {
    pub id: int,
    pub data: PatchDataV,
}

impl View for PatchData {
    type V = PatchDataV;

    open spec fn view(&self) -> PatchDataV {
        match self {
            PatchData::Add { parent_id, kind, index } => PatchDataV::Add {
                parent_id: *parent_id as int,
                kind: *kind,
                index: *index as int,
            },
            PatchData::Remove => PatchDataV::Remove,
            PatchData::Reorder { parent_id, pairs } => PatchDataV::Reorder {
                parent_id: *parent_id as int,
                pairs: Seq::new(pairs@.len(), |i: int| (pairs@[i].0 as int, pairs@[i].1 as int)),
            },
            PatchData::SetParam { key, value } => PatchDataV::SetParam {
                key: key@,
                value: value@,
            },
            PatchData::SetFlag { key } => PatchDataV::SetFlag { key: key@ },
            PatchData::RemoveParam { key } => PatchDataV::RemoveParam { key: key@ },
            PatchData::SetText { content } => PatchDataV::SetText { content: content@ },
        }
    }
}

impl View for Patch {
    type V = PatchV;

    open spec fn view(&self) -> PatchV {
        PatchV { id: self.id as int, data: self.data@ }
    }
}

/// View of a whole batch, record by record.
pub open spec fn batch_view(s: Seq<Patch>) -> Seq<PatchV> {
    Seq::new(s.len(), |i: int| s[i]@)
}

/// The patch record one attribute entry gives rise to, if any: a text value
/// becomes `SetParam`, a true flag `SetFlag`, and a false flag either
/// nothing (on a fresh entry) or `RemoveParam` (when falsity must be
/// expressed to clear a previously set attribute).
pub open spec fn param_patch_v(id: int, key: Seq<char>, value: ParamV, remove_false: bool)
    -> Option<PatchV> {
    match value {
        ParamV::Text(s) => Some(PatchV { id, data: PatchDataV::SetParam { key, value: s } }),
        ParamV::Flag(b) => if b {
            Some(PatchV { id, data: PatchDataV::SetFlag { key } })
        } else if remove_false {
            Some(PatchV { id, data: PatchDataV::RemoveParam { key } })
        } else {
            None
        },
    }
}

/// The patch records a whole attribute list gives rise to, in list order.
pub open spec fn params_patches_v(
    id: int,
    ps: Seq<(Seq<char>, ParamV)>,
    remove_false: bool,
) -> Seq<PatchV>
    decreases ps,
{
    if ps.len() == 0 {
        Seq::empty()
    } else {
        let rest = params_patches_v(id, ps.drop_first(), remove_false);
        match param_patch_v(id, ps[0].0, ps[0].1, remove_false) {
            Some(p) => seq![p] + rest,
            None => rest,
        }
    }
}

/// Number of `Add` records in a batch.
pub open spec fn count_adds(b: Seq<PatchV>) -> int
    decreases b,
{
    if b.len() == 0 {
        0
    } else {
        count_adds(b.drop_last()) + if b.last().data is Add {
            1int
        } else {
            0int
        }
    }
}

/// Number of `Remove` records in a batch.
pub open spec fn count_removes(b: Seq<PatchV>) -> int
    decreases b,
{
    if b.len() == 0 {
        0
    } else {
        count_removes(b.drop_last()) + if b.last().data is Remove {
            1int
        } else {
            0int
        }
    }
}

/// The counts distribute over concatenation.
pub proof fn lemma_counts_concat(a: Seq<PatchV>, b: Seq<PatchV>)
    ensures
        count_adds(a + b) == count_adds(a) + count_adds(b),
        count_removes(a + b) == count_removes(a) + count_removes(b),
    decreases b,
{
    if b.len() == 0 {
        assert(a + b =~= a);
    } else {
        lemma_counts_concat(a, b.drop_last());
        assert((a + b).drop_last() =~= a + b.drop_last());
        assert((a + b).last() == b.last());
    }
}

/// The counts of a one-record batch.
pub proof fn lemma_counts_single(p: PatchV)
    ensures
        count_adds(seq![p]) == if p.data is Add { 1int } else { 0int },
        count_removes(seq![p]) == if p.data is Remove { 1int } else { 0int },
{
    reveal_with_fuel(count_adds, 2);
    reveal_with_fuel(count_removes, 2);
    assert(seq![p].drop_last() =~= Seq::<PatchV>::empty());
}

/// Attribute records are neither additions nor removals.
pub proof fn lemma_params_patches_counts(id: int, ps: Seq<(Seq<char>, ParamV)>, rf: bool)
    ensures
        count_adds(params_patches_v(id, ps, rf)) == 0,
        count_removes(params_patches_v(id, ps, rf)) == 0,
    decreases ps,
{
    if ps.len() > 0 {
        lemma_params_patches_counts(id, ps.drop_first(), rf);
        let rest = params_patches_v(id, ps.drop_first(), rf);
        match param_patch_v(id, ps[0].0, ps[0].1, rf) {
            Some(p) => {
                lemma_counts_single(p);
                lemma_counts_concat(seq![p], rest);
            }
            None => {}
        }
    }
}

/// Builds the patch record for one attribute entry of the node with
/// identity `id`, or nothing for a false flag that need not be cleared.
pub fn param_to_ffi(id: u64, key: &String, value: &ParamValue, remove_false: bool)
    -> (r: Option<Patch>)
    ensures
        r is None <==> param_patch_v(id as int, key@, value@, remove_false) is None,
        r matches Some(p) ==> param_patch_v(id as int, key@, value@, remove_false) == Some(p@),
{
    match value {
        ParamValue::TextValue(v) => Some(Patch {
            id,
            data: PatchData::SetParam { key: key.clone(), value: v.clone() },
        }),
        ParamValue::Flag(b) => {
            if *b {
                Some(Patch { id, data: PatchData::SetFlag { key: key.clone() } })
            } else if remove_false {
                Some(Patch { id, data: PatchData::RemoveParam { key: key.clone() } })
            } else {
                None
            }
        }
    }
}

/// Builds the patch records for a whole attribute list, in list order.
pub fn params_to_ffi(id: u64, params: &Params, remove_false: bool) -> (r: Vec<Patch>)
    ensures
        batch_view(r@) == params_patches_v(id as int, params@, remove_false),
{
    let ghost ps = params@;
    let n = params.params.len();
    let mut out: Vec<Patch> = Vec::new();
    let mut i: usize = 0;
    proof {
        assert(ps.skip(0) =~= ps);
        assert(batch_view(out@) =~= Seq::<PatchV>::empty());
        assert(Seq::<PatchV>::empty() + params_patches_v(id as int, ps, remove_false)
            =~= params_patches_v(id as int, ps, remove_false));
    }
    while i < n
        invariant
            n == params.params.len(),
            ps == params@,
            ps.len() == n,
            0 <= i <= n,
            batch_view(out@) + params_patches_v(id as int, ps.skip(i as int), remove_false)
                == params_patches_v(id as int, ps, remove_false),
        decreases n - i,
    {
        let ghost out0 = out@;
        proof {
            assert(ps.skip(i as int)[0] == ps[i as int]);
            assert(ps.skip(i as int).drop_first() =~= ps.skip(i as int + 1));
        }
        let key = &params.params[i].0;
        let value = &params.params[i].1;
        proof {
            assert(ps[i as int] == (key@, value@));
        }
        match param_to_ffi(id, key, value, remove_false) {
            Some(p) => {
                out.push(p);
                proof {
                    assert(batch_view(out@) =~= batch_view(out0).push(p@));
                    assert(batch_view(out0).push(p@)
                        + params_patches_v(id as int, ps.skip(i as int + 1), remove_false)
                        =~= batch_view(out0)
                        + (seq![p@]
                            + params_patches_v(id as int, ps.skip(i as int + 1), remove_false)));
                }
            }
            None => {}
        }
        i += 1;
    }
    proof {
        assert(ps.skip(n as int) =~= Seq::<(Seq<char>, ParamV)>::empty());
        assert(batch_view(out@) + params_patches_v(id as int, ps.skip(n as int), remove_false)
            =~= batch_view(out@));
    }
    out
}

} // verus!
