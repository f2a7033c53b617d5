//! The sync-graph builder: top-level exploration over commonly enabled
//! interface transitions, with segment and sync-node deduplication.

use vstd::prelude::*;
use crate::marking::Marking;
use crate::net::{
    ModularPetrinet, ModuleId, PetrinetModul, TransitionId, enabled, firable_inv, module_wf,
    net_wf, proper,
};
use crate::graph::{
    Graph, LedgerEntry, MarkingId, ModuleStore, Segment, SegmentId, StoredSegment, SyncEdge,
    SyncMarking, lemma_mk_count_at, lemma_mk_count_pos, same_ids, seg_equiv, seg_ids_ok,
    segment_wf, segments_equiv,
};
use crate::explore::{EnabledRecord, explore_segment, record_wf};
use crate::kernel::{clone_ids, fire, fire_fits, initial_firable};

verus! {

/// Well-formedness of one module's store: segment ids are indices, every
/// segment is well-formed, marking-id ranges tile `[0, next_marking_id)`
/// contiguously, ledgers name interface transitions only, and no two
/// segments are equivalent.
pub open spec fn store_wf(st: ModuleStore, m: PetrinetModul, intern_start: u32) -> bool {
    &&& st.segments@.len() <= u32::MAX
    &&& forall|i: int|
        0 <= i < st.segments@.len() ==> (#[trigger] st.segments@[i]).segment.id == i
    &&& forall|i: int|
        0 <= i < st.segments@.len() ==> segment_wf(
            (#[trigger] st.segments@[i]).segment,
            m,
            intern_start,
        )
    &&& forall|i: int|
        0 <= i < st.segments@.len() ==> (#[trigger] st.segments@[i]).segment.marking_offset
            as int == (if i == 0 {
            0int
        } else {
            st.segments@[i - 1].segment.marking_offset + st.segments@[i - 1].segment.markings@.len()
        })
    &&& st.next_marking_id as int == (if st.segments@.len() == 0 {
        0int
    } else {
        st.segments@[st.segments@.len() - 1].segment.marking_offset
            + st.segments@[st.segments@.len() - 1].segment.markings@.len()
    })
    &&& forall|i: int, j: int|
        0 <= i < j < st.segments@.len() ==> !seg_equiv(
            st.segments@[i].segment,
            st.segments@[j].segment,
        )
    &&& forall|i: int, k: int|
        0 <= i < st.segments@.len() && 0 <= k < st.segments@[i].ledger@.len() ==> (
        #[trigger] st.segments@[i].ledger@[k]).transition_id < intern_start
}

/// Well-formedness of one sync node against the stores.
pub open spec fn node_wf(n: SyncMarking, g: Graph, n_sync: int, intern_start: u32) -> bool {
    &&& n.segment_ids@.len() == g.segment_storage@.len()
    &&& forall|m: int|
        0 <= m < n.segment_ids@.len() ==> (#[trigger] n.segment_ids@[m]) < g.segment_storage@[m].segments@.len()
    &&& forall|k: int|
        0 <= k < n.edges@.len() ==> (#[trigger] n.edges@[k]).transition_id < intern_start
            && n.edges@[k].sync_marking_id < n_sync
}

/// An interface edge of a sync node is justified: every module that
/// references the transition enables it at some marking of its current
/// segment.
pub open spec fn edge_justified(e: SyncEdge, n: SyncMarking, g: Graph, net: ModularPetrinet) -> bool {
    forall|mid: u16|
        (#[trigger] net.interface_t_overview@[e.transition_id as int]@.contains(mid))
            && mid < g.segment_storage@.len() ==> exists|k: int|
            #![trigger g.segment_storage@[mid as int].segments@[n.segment_ids@[mid as int] as int].segment.markings@[k]]
            {
                let seg = g.segment_storage@[mid as int].segments@[n.segment_ids@[mid as int] as int].segment;
                &&& 0 <= k < seg.markings@.len()
                &&& enabled(net.modules@[mid as int], seg.markings@[k].marking@, e.transition_id)
            }
}

/// Well-formedness of the whole graph: per-module stores, sync nodes with
/// in-range references, no duplicate sync nodes, and every sync edge
/// justified by commonly enabled interface transitions.
pub open spec fn graph_wf(g: Graph, net: ModularPetrinet) -> bool {
    &&& g.segment_storage@.len() == net.modules@.len()
    &&& g.sync_graph@.len() <= u32::MAX
    &&& forall|m: int|
        0 <= m < g.segment_storage@.len() ==> store_wf(
            #[trigger] g.segment_storage@[m],
            net.modules@[m],
            net.intern_transition_start,
        )
    &&& forall|i: int|
        0 <= i < g.sync_graph@.len() ==> node_wf(
            #[trigger] g.sync_graph@[i],
            g,
            g.sync_graph@.len() as int,
            net.intern_transition_start,
        )
    &&& forall|i: int, j: int|
        0 <= i < j < g.sync_graph@.len() ==> g.sync_graph@[i].segment_ids@
            != g.sync_graph@[j].segment_ids@
    &&& forall|i: int, k: int|
        0 <= i < g.sync_graph@.len() && 0 <= k < g.sync_graph@[i].edges@.len() ==> edge_justified(
            (#[trigger] g.sync_graph@[i].edges@[k]),
            g.sync_graph@[i],
            g,
            net,
        )
}

/// Does some record of `rs` name transition `t`?
fn has_record(rs: &Vec<EnabledRecord>, t: TransitionId) -> (r: bool)
    ensures
        r == exists|k: int| 0 <= k < rs@.len() && (#[trigger] rs@[k]).transition_id == t,
{
    let mut k: usize = 0;
    while k < rs.len()
        invariant
            k <= rs@.len(),
            forall|j: int| 0 <= j < k ==> (#[trigger] rs@[j]).transition_id != t,
        decreases rs@.len() - k,
    {
        if rs[k].transition_id == t {
            return true;
        }
        k += 1;
    }
    false
}

/// Pointwise equality of two module-id lists.
fn same_mods(a: &Vec<ModuleId>, b: &Vec<ModuleId>) -> (r: bool)
    ensures
        r == (a@ == b@),
{
    if a.len() != b.len() {
        return false;
    }
    let mut i: usize = 0;
    while i < a.len()
        invariant
            i <= a@.len(),
            a@.len() == b@.len(),
            forall|j: int| 0 <= j < i ==> a@[j] == b@[j],
        decreases a@.len() - i,
    {
        if a[i] != b[i] {
            return false;
        }
        i += 1;
    }
    proof {
        assert(a@ =~= b@);
    }
    true
}

/// Is `m` listed in `mods`?
pub(crate) fn contains_mod(mods: &Vec<ModuleId>, m: ModuleId) -> (r: bool)
    ensures
        r == mods@.contains(m),
{
    let mut i: usize = 0;
    while i < mods.len()
        invariant
            i <= mods@.len(),
            forall|j: int| 0 <= j < i ==> mods@[j] != m,
        decreases mods@.len() - i,
    {
        if mods[i] == m {
            proof {
                assert(mods@[i as int] == m);
            }
            return true;
        }
        i += 1;
    }
    false
}

/// Two strictly ascending id lists with the same members are equal.
proof fn lemma_sorted_same_members(a: Seq<u16>, b: Seq<u16>)
    requires
        forall|x: int, y: int| 0 <= x < y < a.len() ==> a[x] < a[y],
        forall|x: int, y: int| 0 <= x < y < b.len() ==> b[x] < b[y],
        forall|v: u16| a.contains(v) <==> b.contains(v),
    ensures
        a == b,
    decreases a.len(),
{
    if a.len() == 0 {
        if b.len() > 0 {
            assert(b.contains(b[0]));
            assert(a.contains(b[0]));
        }
        assert(a =~= b);
    } else if b.len() == 0 {
        assert(a.contains(a[0]));
        assert(b.contains(a[0]));
    } else {
        assert(a.contains(a[0]) && b.contains(b[0]));
        assert(b.contains(a[0]) && a.contains(b[0]));
        let j = choose|j: int| 0 <= j < b.len() && b[j] == a[0];
        let i = choose|i: int| 0 <= i < a.len() && a[i] == b[0];
        assert(a[0] <= a[i] && b[0] <= b[j]);
        assert(a[0] == b[0]);
        let at = a.drop_first();
        let bt = b.drop_first();
        assert forall|v: u16| at.contains(v) implies bt.contains(v) by {
            let k = choose|k: int| 0 <= k < at.len() && at[k] == v;
            assert(a[k + 1] == v);
            assert(a.contains(v));
            assert(v > a[0]);
            let l = choose|l: int| 0 <= l < b.len() && b[l] == v;
            assert(l > 0);
            assert(bt[l - 1] == v);
        }
        assert forall|v: u16| bt.contains(v) implies at.contains(v) by {
            let k = choose|k: int| 0 <= k < bt.len() && bt[k] == v;
            assert(b[k + 1] == v);
            assert(b.contains(v));
            assert(v > b[0]);
            let l = choose|l: int| 0 <= l < a.len() && a[l] == v;
            assert(l > 0);
            assert(at[l - 1] == v);
        }
        assert forall|x: int, y: int| 0 <= x < y < at.len() implies at[x] < at[y] by {
            assert(at[x] == a[x + 1] && at[y] == a[y + 1]);
        }
        assert forall|x: int, y: int| 0 <= x < y < bt.len() implies bt[x] < bt[y] by {
            assert(bt[x] == b[x + 1] && bt[y] == b[y + 1]);
        }
        lemma_sorted_same_members(at, bt);
        assert forall|i: int| 0 <= i < a.len() implies a[i] == b[i] by {
            if i > 0 {
                assert(a[i] == at[i - 1]);
                assert(b[i] == bt[i - 1]);
            }
        }
        assert(a =~= b);
    }
}

/// The hypothesis under which transition `t` must be emitted: some module
/// references it, every referencing module reports it, and every reporting
/// module references it.
pub open spec fn commonly_reported(
    records: Seq<Vec<EnabledRecord>>,
    overview: Seq<Vec<ModuleId>>,
    t: u32,
) -> bool {
    &&& t < overview.len()
    &&& overview[t as int]@.len() >= 1
    &&& forall|mid: u16|
        #[trigger] overview[t as int]@.contains(mid) ==> (mid as int) < records.len()
            && exists|k: int|
            0 <= k < records[mid as int]@.len() && (#[trigger] records[mid as int]@[k]).transition_id
                == t
    &&& forall|mid: u16|
        (mid as int) < records.len() && (exists|k: int|
            0 <= k < records[mid as int]@.len() && (#[trigger] records[mid as int]@[k]).transition_id
                == t) ==> overview[t as int]@.contains(mid)
}

/// The commonly enabled interface transitions: those whose reporting
/// modules are exactly the modules that reference them.  Returned in
/// ascending transition order, with the sorted module list of each;
/// every commonly reported transition is emitted.
#[verifier::rlimit(100)]
#[verifier::spinoff_prover]
pub fn find_all_e_t(
    records: &Vec<Vec<EnabledRecord>>,
    overview: &Vec<Vec<ModuleId>>,
) -> (res: Vec<(TransitionId, Vec<ModuleId>)>)
    requires
        records@.len() <= u16::MAX,
        overview@.len() <= u32::MAX,
        forall|t: int, x: int, y: int|
            0 <= t < overview@.len() && 0 <= x < y < overview@[t]@.len() ==> overview@[t]@[x]
                < overview@[t]@[y],
    ensures
        forall|e: int|
            0 <= e < res@.len() ==> {
                &&& (#[trigger] res@[e]).0 < overview@.len()
                &&& res@[e].1@ == overview@[res@[e].0 as int]@
                &&& res@[e].1@.len() >= 1
                &&& forall|x: int, y: int|
                    0 <= x < y < res@[e].1@.len() ==> res@[e].1@[x] < res@[e].1@[y]
                &&& forall|x: int|
                    0 <= x < res@[e].1@.len() ==> (#[trigger] res@[e].1@[x]) < records@.len()
                        && exists|k: int|
                        0 <= k < records@[res@[e].1@[x] as int]@.len() && (
                        #[trigger] records@[res@[e].1@[x] as int]@[k]).transition_id == res@[e].0
            },
        forall|e: int, f: int| 0 <= e < f < res@.len() ==> res@[e].0 < res@[f].0,
        forall|t: u32|
            #[trigger] commonly_reported(records@, overview@, t) ==> exists|e: int|
                0 <= e < res@.len() && (#[trigger] res@[e]).0 == t,
{
    let mut res: Vec<(TransitionId, Vec<ModuleId>)> = Vec::new();
    let mut t: usize = 0;
    while t < overview.len()
        invariant
            t <= overview@.len(),
            records@.len() <= u16::MAX,
            overview@.len() <= u32::MAX,
            forall|tt: int, x: int, y: int|
                0 <= tt < overview@.len() && 0 <= x < y < overview@[tt]@.len()
                    ==> overview@[tt]@[x] < overview@[tt]@[y],
            forall|e: int|
                0 <= e < res@.len() ==> {
                    &&& (#[trigger] res@[e]).0 < t
                    &&& res@[e].1@ == overview@[res@[e].0 as int]@
                    &&& res@[e].1@.len() >= 1
                    &&& forall|x: int, y: int|
                        0 <= x < y < res@[e].1@.len() ==> res@[e].1@[x] < res@[e].1@[y]
                    &&& forall|x: int|
                        0 <= x < res@[e].1@.len() ==> (#[trigger] res@[e].1@[x]) < records@.len()
                            && exists|k: int|
                            0 <= k < records@[res@[e].1@[x] as int]@.len() && (
                            #[trigger] records@[res@[e].1@[x] as int]@[k]).transition_id
                                == res@[e].0
                },
            forall|e: int, f: int| 0 <= e < f < res@.len() ==> res@[e].0 < res@[f].0,
            forall|tt: u32|
                tt < t && #[trigger] commonly_reported(records@, overview@, tt) ==> exists|e: int|
                    0 <= e < res@.len() && (#[trigger] res@[e]).0 == tt,
        decreases overview@.len() - t,
    {
        let mut mods: Vec<ModuleId> = Vec::new();
        let mut m: usize = 0;
        while m < records.len()
            invariant
                m <= records@.len(),
                records@.len() <= u16::MAX,
                t < overview@.len(),
                overview@.len() <= u32::MAX,
                forall|x: int, y: int| 0 <= x < y < mods@.len() ==> mods@[x] < mods@[y],
                forall|x: int|
                    0 <= x < mods@.len() ==> (#[trigger] mods@[x]) < m && exists|k: int|
                        0 <= k < records@[mods@[x] as int]@.len() && (
                        #[trigger] records@[mods@[x] as int]@[k]).transition_id == t,
                forall|mid: u16|
                    mid < m ==> ((#[trigger] mods@.contains(mid)) <==> exists|k: int|
                        0 <= k < records@[mid as int]@.len() && (
                        #[trigger] records@[mid as int]@[k]).transition_id == t),
            decreases records@.len() - m,
        {
            let ghost mods0 = mods@;
            let hit = has_record(&records[m], t as u32);
            if hit {
                mods.push(m as u16);
            }
            proof {
                if hit {
                    assert(mods@[mods@.len() - 1] == m as u16);
                    assert forall|x: int, y: int| 0 <= x < y < mods@.len() implies mods@[x]
                        < mods@[y] by {
                        if y < mods@.len() - 1 {
                            assert(mods@[x] == mods0[x] && mods@[y] == mods0[y]);
                        } else {
                            assert(mods@[x] == mods0[x]);
                        }
                    }
                    assert forall|x: int|
                        0 <= x < mods@.len() implies (#[trigger] mods@[x]) < m + 1 && exists|
                        k: int,
                    |
                        0 <= k < records@[mods@[x] as int]@.len() && (
                        #[trigger] records@[mods@[x] as int]@[k]).transition_id == t by {
                        if x < mods@.len() - 1 {
                            assert(mods@[x] == mods0[x]);
                        } else {
                            assert(mods@[x] == m as u16);
                        }
                    }
                }
                assert forall|mid: u16|
                    mid < m + 1 implies ((#[trigger] mods@.contains(mid)) <==> exists|k: int|
                    0 <= k < records@[mid as int]@.len() && (
                    #[trigger] records@[mid as int]@[k]).transition_id == t) by {
                    if mid < m {
                        if mods0.contains(mid) {
                            let x = choose|x: int| 0 <= x < mods0.len() && mods0[x] == mid;
                            assert(mods@[x] == mid);
                        }
                        if mods@.contains(mid) {
                            let x = choose|x: int| 0 <= x < mods@.len() && mods@[x] == mid;
                            assert(x < mods0.len());
                            assert(mods0[x] == mid);
                        }
                    } else {
                        if hit {
                            assert(mods@.contains(m as u16)) by {
                                assert(mods@[mods@.len() - 1] == m as u16);
                            }
                        } else {
                            if mods@.contains(mid) {
                                let x = choose|x: int| 0 <= x < mods@.len() && mods@[x] == mid;
                            }
                        }
                    }
                }
            }
            m += 1;
        }
        let ghost res0 = res@;
        let ghost mods_v = mods@;
        let emitted = mods.len() > 0 && same_mods(&mods, &overview[t]);
        if emitted {
            res.push((t as u32, mods));
            proof {
                assert forall|e: int, f: int| 0 <= e < f < res@.len() implies res@[e].0
                    < res@[f].0 by {
                    if f < res@.len() - 1 {
                        assert(res@[e] == res0[e] && res@[f] == res0[f]);
                    } else {
                        assert(res@[e] == res0[e]);
                        assert(res0[e].0 < t);
                    }
                }
                assert forall|e: int|
                    0 <= e < res@.len() implies {
                    &&& (#[trigger] res@[e]).0 < t + 1
                    &&& res@[e].1@ == overview@[res@[e].0 as int]@
                    &&& res@[e].1@.len() >= 1
                    &&& forall|x: int, y: int|
                        0 <= x < y < res@[e].1@.len() ==> res@[e].1@[x] < res@[e].1@[y]
                    &&& forall|x: int|
                        0 <= x < res@[e].1@.len() ==> (#[trigger] res@[e].1@[x]) < records@.len()
                            && exists|k: int|
                            0 <= k < records@[res@[e].1@[x] as int]@.len() && (
                            #[trigger] records@[res@[e].1@[x] as int]@[k]).transition_id
                                == res@[e].0
                } by {
                    if e < res@.len() - 1 {
                        assert(res@[e] == res0[e]);
                        assert(res@[e].0 == res0[e].0 && res@[e].1 == res0[e].1);
                    } else {
                        assert(res@[e].0 == t as u32);
                        assert(res@[e].1@ == mods_v);
                        assert(res@[e].1@ =~= overview@[res@[e].0 as int]@);
                        assert forall|x: int|
                            0 <= x < res@[e].1@.len() implies (#[trigger] res@[e].1@[x])
                            < records@.len() && exists|k: int|
                            0 <= k < records@[res@[e].1@[x] as int]@.len() && (
                            #[trigger] records@[res@[e].1@[x] as int]@[k]).transition_id
                                == res@[e].0 by {
                            assert(res@[e].1@[x] == mods_v[x]);
                            let k = choose|k: int|
                                0 <= k < records@[mods_v[x] as int]@.len() && (
                                #[trigger] records@[mods_v[x] as int]@[k]).transition_id == t;
                            assert(records@[res@[e].1@[x] as int]@[k].transition_id == res@[e].0);
                        }
                    }
                }
            }
        }
        proof {
            assert forall|tt: u32|
                tt < t + 1 && #[trigger] commonly_reported(records@, overview@, tt) implies
                exists|e: int|
                0 <= e < res@.len() && (#[trigger] res@[e]).0 == tt by {
                if tt < t {
                    let e = choose|e: int| 0 <= e < res0.len() && (#[trigger] res0[e]).0 == tt;
                    assert(res@[e] == res0[e]);
                } else {
                    // Under the hypothesis, the reporting set and the
                    // overview entry have the same members; both are
                    // strictly ascending, so they are the same list and
                    // the transition was emitted.
                    assert forall|v: u16| mods_v.contains(v) implies overview@[tt as int]@.contains(
                        v,
                    ) by {
                        let x = choose|x: int| 0 <= x < mods_v.len() && mods_v[x] == v;
                    }
                    assert forall|v: u16| overview@[tt as int]@.contains(v) implies
                        mods_v.contains(v) by {}
                    assert forall|v: u16| mods_v.contains(v) <==> overview@[tt as int]@.contains(
                        v,
                    ) by {}
                    lemma_sorted_same_members(mods_v, overview@[tt as int]@);
                    assert(mods_v == overview@[tt as int]@);
                    assert(mods_v.len() >= 1);
                    assert(emitted);
                    assert(res@[res@.len() - 1].0 == tt);
                }
            }
        }
        t += 1;
    }
    res
}

/// Every id in the list is the marking id of some record for `t`.
pub open spec fn from_t_records(ids: Seq<u32>, recs: Seq<EnabledRecord>, t: u32) -> bool {
    forall|x: int|
        0 <= x < ids.len() ==> exists|kk: int|
            0 <= kk < recs.len() && (#[trigger] recs[kk]).transition_id == t && (
            #[trigger] ids[x]) == recs[kk].marking_id
}

/// A ledger entry for `t` against its successor segment: each link leads
/// from the marking id of a record for `t` to a marking of the successor.
pub open spec fn ledger_entry_ok(
    entry: LedgerEntry,
    succ: Segment,
    recs: Seq<EnabledRecord>,
    t: u32,
) -> bool {
    &&& entry.transition_id == t
    &&& forall|i: int|
        0 <= i < entry.links@.len() ==> exists|kk: int|
            0 <= kk < recs.len() && (#[trigger] recs[kk]).transition_id == t && (
            #[trigger] entry.links@[i]).0 == recs[kk].marking_id
    &&& forall|i: int|
        0 <= i < entry.links@.len() ==> succ.marking_offset <= (#[trigger] entry.links@[i]).1
            && entry.links@[i].1 - succ.marking_offset < succ.markings@.len()
}

/// The id of the first stored segment equivalent to `seg`, if any.
fn find_equiv_segment(segs: &Vec<StoredSegment>, seg: &Segment) -> (r: Option<SegmentId>)
    requires
        segs@.len() <= u32::MAX,
    ensures
        match r {
            Some(sid) => {
                &&& sid < segs@.len()
                &&& seg_equiv(segs@[sid as int].segment, *seg)
                &&& forall|j: int|
                    0 <= j < sid ==> !seg_equiv((#[trigger] segs@[j]).segment, *seg)
            },
            None => forall|j: int|
                0 <= j < segs@.len() ==> !seg_equiv((#[trigger] segs@[j]).segment, *seg),
        },
{
    let mut i: usize = 0;
    while i < segs.len()
        invariant
            i <= segs@.len(),
            segs@.len() <= u32::MAX,
            forall|j: int| 0 <= j < i ==> !seg_equiv((#[trigger] segs@[j]).segment, *seg),
        decreases segs@.len() - i,
    {
        if segments_equiv(&segs[i].segment, seg) {
            return Some(i as u32);
        }
        i += 1;
    }
    None
}

/// Fire interface transition `t` from every marking of the current segment
/// that enables it, explore the successor segment, fold it onto an
/// equivalent stored segment or install it, and append the ledger entry to
/// the source segment.  Returns the successor's segment id and the
/// observation records rebased onto the stored successor segment.
#[verifier::rlimit(100)]
#[verifier::spinoff_prover]
fn successor_segment(
    store: &mut ModuleStore,
    module: &PetrinetModul,
    cur_seg: usize,
    t: TransitionId,
    recs_m: &Vec<EnabledRecord>,
    intern_start: u32,
) -> (res: Option<(SegmentId, Vec<EnabledRecord>)>)
    requires
        module_wf(*module),
        store_wf(*old(store), *module, intern_start),
        cur_seg < old(store).segments@.len(),
        t < intern_start,
        forall|k: int|
            0 <= k < recs_m@.len() ==> record_wf(
                #[trigger] recs_m@[k],
                *module,
                old(store).segments@[cur_seg as int].segment,
                intern_start,
            ),
        exists|k: int| 0 <= k < recs_m@.len() && (#[trigger] recs_m@[k]).transition_id == t,
    ensures
        res is None ==> proper(*module, t) && (exists|mk: Seq<crate::marking::PlaceCount>|
            crate::marking::wf_pcs(mk) && #[trigger] enabled(*module, mk, t)),
        res matches Some(out) ==> {
            let (sid, recs) = out;
            &&& store_wf(*final(store), *module, intern_start)
            &&& old(store).segments@.len() <= final(store).segments@.len() <= old(store).segments@.len() + 1
            &&& forall|i: int|
                0 <= i < old(store).segments@.len() ==> (#[trigger] final(store).segments@[i]).segment == old(store).segments@[i].segment
            &&& forall|i: int|
                0 <= i < old(store).segments@.len() && i != cur_seg as int ==> (#[trigger] final(store).segments@[i]).ledger@ == old(store).segments@[i].ledger@
            &&& final(store).segments@[cur_seg as int].ledger@.len() == old(store).segments@[cur_seg as int].ledger@.len() + 1
            &&& forall|k: int|
                0 <= k < old(store).segments@[cur_seg as int].ledger@.len() ==> (#[trigger] final(store).segments@[cur_seg as int].ledger@[k]) == old(store).segments@[cur_seg as int].ledger@[k]
            &&& ledger_entry_ok(
                final(store).segments@[cur_seg as int].ledger@.last(),
                final(store).segments@[sid as int].segment,
                recs_m@,
                t,
            )
            &&& sid < final(store).segments@.len()
            &&& forall|k: int|
                0 <= k < recs@.len() ==> record_wf(
                    #[trigger] recs@[k],
                    *module,
                    final(store).segments@[sid as int].segment,
                    intern_start,
                )
        },
{
    let ghost st0 = *store;
    let mut start_markings: Vec<Marking> = Vec::new();
    let mut start_firable: Vec<Vec<TransitionId>> = Vec::new();
    let mut pre_fire: Vec<MarkingId> = Vec::new();
    let offset = store.segments[cur_seg].segment.marking_offset;
    let mut k: usize = 0;
    while k < recs_m.len()
        invariant
            k <= recs_m@.len(),
            module_wf(*module),
            *store == st0,
            store_wf(st0, *module, intern_start),
            cur_seg < st0.segments@.len(),
            offset == st0.segments@[cur_seg as int].segment.marking_offset,
            forall|kk: int|
                0 <= kk < recs_m@.len() ==> record_wf(
                    #[trigger] recs_m@[kk],
                    *module,
                    st0.segments@[cur_seg as int].segment,
                    intern_start,
                ),
            start_markings@.len() == start_firable@.len(),
            start_markings@.len() == pre_fire@.len(),
            from_t_records(pre_fire@, recs_m@, t),
            forall|i: int|
                0 <= i < start_markings@.len() ==> crate::marking::wf_marking(
                    #[trigger] start_markings@[i],
                ),
            forall|i: int|
                0 <= i < start_markings@.len() ==> firable_inv(
                    *module,
                    start_markings@[i]@,
                    (#[trigger] start_firable@[i])@,
                ),
        decreases recs_m@.len() - k,
    {
        let rt = recs_m[k].transition_id;
        if rt == t {
            let rid = recs_m[k].marking_id;
            let idx = (rid - offset) as usize;
            let fits = fire_fits(module, &store.segments[cur_seg].segment.markings[idx].marking, t);
            if !fits {
                return None;
            }
            proof {
                assert(recs_m@[k as int].firable@.contains(t));
            }
            let fired = fire(
                module,
                &store.segments[cur_seg].segment.markings[idx].marking,
                &recs_m[k].firable,
                t,
            );
            let ghost pf0 = pre_fire@;
            pre_fire.push(rid);
            proof {
                assert forall|x: int|
                    0 <= x < pre_fire@.len() implies exists|kk: int|
                    0 <= kk < recs_m@.len() && (#[trigger] recs_m@[kk]).transition_id == t && (
                    #[trigger] pre_fire@[x]) == recs_m@[kk].marking_id by {
                    if x < pre_fire@.len() - 1 {
                        assert(pre_fire@[x] == pf0[x]);
                        let kk = choose|kk: int|
                            0 <= kk < recs_m@.len() && (#[trigger] recs_m@[kk]).transition_id == t
                                && pf0[x] == recs_m@[kk].marking_id;
                        assert(recs_m@[kk].transition_id == t && pre_fire@[x]
                            == recs_m@[kk].marking_id);
                    } else {
                        assert(pre_fire@[x] == recs_m@[k as int].marking_id);
                        assert(recs_m@[k as int].transition_id == t);
                    }
                }
                assert(from_t_records(pre_fire@, recs_m@, t));
            }
            start_markings.push(fired.0);
            start_firable.push(fired.1);
        }
        k += 1;
    }

    if store.segments.len() >= u32::MAX as usize {
        return None;
    }
    let cand_id = store.segments.len() as u32;
    let cand_offset = store.next_marking_id;
    let explored = explore_segment(
        module,
        &start_markings,
        &start_firable,
        cand_id,
        intern_start,
        cand_offset,
    );
    let (cand_seg, cand_recs, cand_next) = match explored {
        Some(x) => x,
        None => {
            return None;
        },
    };

    let found = find_equiv_segment(&store.segments, &cand_seg);
    let sid: u32 = match found {
        Some(x) => x,
        None => cand_id,
    };

    // Rebase the records and the seed links onto the stored successor
    // segment (which may be an older equivalent segment).
    let mut out_recs: Vec<EnabledRecord> = Vec::new();
    let mut links: Vec<(MarkingId, MarkingId)> = Vec::new();
    {
        let target: &Segment = match &found {
            Some(x) => &store.segments[*x as usize].segment,
            None => &cand_seg,
        };
        proof {
            assert(seg_equiv(*target, cand_seg));
            assert(*target == (if found is Some {
                st0.segments@[sid as int].segment
            } else {
                cand_seg
            }));
        }
        let mut k2: usize = 0;
        while k2 < cand_recs.len()
            invariant
                k2 <= cand_recs@.len(),
                module_wf(*module),
                seg_equiv(*target, cand_seg),
                seg_ids_ok(*target),
                seg_ids_ok(cand_seg),
                segment_wf(cand_seg, *module, intern_start),
                forall|kk: int|
                    0 <= kk < cand_recs@.len() ==> record_wf(
                        #[trigger] cand_recs@[kk],
                        *module,
                        cand_seg,
                        intern_start,
                    ),
                forall|kk: int|
                    0 <= kk < out_recs@.len() ==> record_wf(
                        #[trigger] out_recs@[kk],
                        *module,
                        *target,
                        intern_start,
                    ),
            decreases cand_recs@.len() - k2,
        {
            let rid = cand_recs[k2].marking_id;
            let idx = (rid - cand_seg.marking_offset) as usize;
            let hit = target.search_equal_marking(&cand_seg.markings[idx].marking);
            match hit {
                Some(x) => {
                    out_recs.push(EnabledRecord {
                        transition_id: cand_recs[k2].transition_id,
                        marking_id: x,
                        firable: clone_ids(&cand_recs[k2].firable),
                    });
                },
                None => {
                    proof {
                        lemma_mk_count_at(cand_seg.markings@, idx as int);
                        lemma_mk_count_pos(
                            target.markings@,
                            cand_seg.markings@[idx as int].marking@,
                        );
                        assert(false);
                    }
                    return None;
                },
            }
            k2 += 1;
        }
        let mut i2: usize = 0;
        while i2 < start_markings.len()
            invariant
                i2 <= start_markings@.len(),
                start_markings@.len() == pre_fire@.len(),
                start_markings@.len() <= cand_seg.markings@.len(),
                seg_equiv(*target, cand_seg),
                seg_ids_ok(*target),
                forall|i: int|
                    0 <= i < start_markings@.len() ==> (#[trigger] cand_seg.markings@[i]).marking@
                        == start_markings@[i]@,
                from_t_records(pre_fire@, recs_m@, t),
                links@.len() == i2,
                forall|ii: int|
                    0 <= ii < links@.len() ==> (#[trigger] links@[ii]).0 == pre_fire@[ii]
                        && target.marking_offset <= links@[ii].1 && links@[ii].1
                        - target.marking_offset < target.markings@.len(),
            decreases start_markings@.len() - i2,
        {
            let hit = target.search_equal_marking(&start_markings[i2]);
            match hit {
                Some(x) => {
                    links.push((pre_fire[i2], x));
                },
                None => {
                    proof {
                        lemma_mk_count_at(cand_seg.markings@, i2 as int);
                        lemma_mk_count_pos(target.markings@, cand_seg.markings@[i2 as int].marking@);
                        assert(false);
                    }
                    return None;
                },
            }
            i2 += 1;
        }
    }

    let ghost st_pre = *store;
    if found.is_none() {
        store.segments.push(StoredSegment { segment: cand_seg, ledger: Vec::new() });
        store.next_marking_id = cand_next;
        proof {
            assert forall|i: int, j: int|
                0 <= i < j < store.segments@.len() implies !seg_equiv(
                store.segments@[i].segment,
                store.segments@[j].segment,
            ) by {
                if j < store.segments@.len() - 1 {
                    assert(store.segments@[i] == st_pre.segments@[i]);
                    assert(store.segments@[j] == st_pre.segments@[j]);
                } else {
                    assert(store.segments@[i] == st_pre.segments@[i]);
                }
            }
            assert(store_wf(*store, *module, intern_start));
        }
    }

    let ghost st1 = *store;
    let ghost links_v = links@;
    let ghost tgt = (if found is Some {
        st0.segments@[sid as int].segment
    } else {
        cand_seg
    });
    store.segments[cur_seg].ledger.push(LedgerEntry { transition_id: t, links });
    proof {
        assert(store.segments@[cur_seg as int].segment == st1.segments@[cur_seg as int].segment);
        assert(store.segments@[cur_seg as int].ledger@.last().links@ == links_v);
        assert(store.segments@[sid as int].segment == tgt) by {
            if found is Some {
                assert(st1.segments@[sid as int] == st0.segments@[sid as int]);
            } else {
                assert(st1.segments@[sid as int].segment == cand_seg);
            }
        }
        assert(ledger_entry_ok(
            store.segments@[cur_seg as int].ledger@.last(),
            store.segments@[sid as int].segment,
            recs_m@,
            t,
        )) by {
            let entry = store.segments@[cur_seg as int].ledger@.last();
            assert(entry.links@ == links_v);
            assert forall|i: int|
                0 <= i < entry.links@.len() implies exists|kk: int|
                0 <= kk < recs_m@.len() && (#[trigger] recs_m@[kk]).transition_id == t && (
                #[trigger] entry.links@[i]).0 == recs_m@[kk].marking_id by {
                assert(links_v[i].0 == pre_fire@[i]);
                let kk = choose|kk: int|
                    0 <= kk < recs_m@.len() && (#[trigger] recs_m@[kk]).transition_id == t
                        && pre_fire@[i] == recs_m@[kk].marking_id;
                assert(recs_m@[kk].transition_id == t && entry.links@[i].0
                    == recs_m@[kk].marking_id);
            }
            assert forall|i: int|
                0 <= i < entry.links@.len() implies store.segments@[sid as int].segment.marking_offset
                <= (#[trigger] entry.links@[i]).1 && entry.links@[i].1
                - store.segments@[sid as int].segment.marking_offset
                < store.segments@[sid as int].segment.markings@.len() by {
                assert(links_v[i].1 >= tgt.marking_offset && links_v[i].1 - tgt.marking_offset
                    < tgt.markings@.len());
            }
        }
        assert forall|i: int|
            0 <= i < store.segments@.len() && i != cur_seg as int implies #[trigger] store.segments@[i]
            == st1.segments@[i] by {}
        assert(store_wf(*store, *module, intern_start));
    }
    Some((sid, out_recs))
}

/// Copy a record list.
fn clone_records(v: &Vec<EnabledRecord>) -> (r: Vec<EnabledRecord>)
    ensures
        r@.len() == v@.len(),
        forall|k: int|
            0 <= k < v@.len() ==> (#[trigger] r@[k]).transition_id == v@[k].transition_id
                && r@[k].marking_id == v@[k].marking_id && r@[k].firable@ == v@[k].firable@,
{
    let mut r: Vec<EnabledRecord> = Vec::new();
    let mut i: usize = 0;
    while i < v.len()
        invariant
            i <= v@.len(),
            r@.len() == i,
            forall|k: int|
                0 <= k < i ==> (#[trigger] r@[k]).transition_id == v@[k].transition_id
                    && r@[k].marking_id == v@[k].marking_id && r@[k].firable@ == v@[k].firable@,
        decreases v@.len() - i,
    {
        r.push(EnabledRecord {
            transition_id: v[i].transition_id,
            marking_id: v[i].marking_id,
            firable: clone_ids(&v[i].firable),
        });
        i += 1;
    }
    r
}

/// Updating one module's store preserves graph well-formedness, provided
/// the new store is well-formed and keeps every old segment.
#[verifier::rlimit(100)]
#[verifier::spinoff_prover]
proof fn lemma_graph_wf_store_update(g0: Graph, g1: Graph, net: ModularPetrinet, m3: int)
    requires
        graph_wf(g0, net),
        0 <= m3 < g0.segment_storage@.len(),
        g1.sync_graph@ == g0.sync_graph@,
        g1.segment_storage@ == g0.segment_storage@.update(m3, g1.segment_storage@[m3]),
        store_wf(g1.segment_storage@[m3], net.modules@[m3], net.intern_transition_start),
        g0.segment_storage@[m3].segments@.len() <= g1.segment_storage@[m3].segments@.len(),
        forall|i: int|
            0 <= i < g0.segment_storage@[m3].segments@.len() ==> (#[trigger] g1.segment_storage@[m3].segments@[i]).segment
                == g0.segment_storage@[m3].segments@[i].segment,
    ensures
        graph_wf(g1, net),
{
    assert forall|m: int|
        0 <= m < g1.segment_storage@.len() implies store_wf(
        #[trigger] g1.segment_storage@[m],
        net.modules@[m],
        net.intern_transition_start,
    ) by {
        if m != m3 {
            assert(g1.segment_storage@[m] == g0.segment_storage@[m]);
        }
    }
    assert forall|i: int|
        0 <= i < g1.sync_graph@.len() implies node_wf(
        #[trigger] g1.sync_graph@[i],
        g1,
        g1.sync_graph@.len() as int,
        net.intern_transition_start,
    ) by {
        assert(node_wf(g0.sync_graph@[i], g0, g0.sync_graph@.len() as int,
            net.intern_transition_start));
        assert forall|m: int|
            0 <= m < g1.sync_graph@[i].segment_ids@.len() implies (
        #[trigger] g1.sync_graph@[i].segment_ids@[m]) < g1.segment_storage@[m].segments@.len() by {
            if m != m3 {
                assert(g1.segment_storage@[m] == g0.segment_storage@[m]);
            }
        }
    }
    assert forall|i: int, k: int|
        0 <= i < g1.sync_graph@.len() && 0 <= k < g1.sync_graph@[i].edges@.len() implies
        edge_justified(
        (#[trigger] g1.sync_graph@[i].edges@[k]),
        g1.sync_graph@[i],
        g1,
        net,
    ) by {
        let e = g1.sync_graph@[i].edges@[k];
        let nd = g1.sync_graph@[i];
        assert(edge_justified(e, nd, g0, net));
        assert forall|mid: u16|
            (#[trigger] net.interface_t_overview@[e.transition_id as int]@.contains(mid)) && mid
                < g1.segment_storage@.len() implies exists|kk: int|
            #![trigger g1.segment_storage@[mid as int].segments@[nd.segment_ids@[mid as int] as int].segment.markings@[kk]]
            {
                let seg = g1.segment_storage@[mid as int].segments@[nd.segment_ids@[mid as int] as int].segment;
                &&& 0 <= kk < seg.markings@.len()
                &&& enabled(net.modules@[mid as int], seg.markings@[kk].marking@, e.transition_id)
            } by {
            assert(node_wf(nd, g0, g0.sync_graph@.len() as int, net.intern_transition_start));
            if mid as int != m3 {
                assert(g1.segment_storage@[mid as int] == g0.segment_storage@[mid as int]);
            } else {
                assert(g1.segment_storage@[m3].segments@[nd.segment_ids@[m3] as int].segment
                    == g0.segment_storage@[m3].segments@[nd.segment_ids@[m3] as int].segment);
            }
            let kk = choose|kk: int|
                #![trigger g0.segment_storage@[mid as int].segments@[nd.segment_ids@[mid as int] as int].segment.markings@[kk]]
                {
                    let seg = g0.segment_storage@[mid as int].segments@[nd.segment_ids@[mid as int] as int].segment;
                    &&& 0 <= kk < seg.markings@.len()
                    &&& enabled(net.modules@[mid as int], seg.markings@[kk].marking@,
                        e.transition_id)
                };
            assert(g1.segment_storage@[mid as int].segments@[nd.segment_ids@[mid as int] as int].segment.markings@[kk]
                == g0.segment_storage@[mid as int].segments@[nd.segment_ids@[mid as int] as int].segment.markings@[kk]);
        }
    }
}

/// Appending a fresh, distinct sync node with empty edges preserves graph
/// well-formedness.
proof fn lemma_graph_wf_push_node(g0: Graph, g1: Graph, net: ModularPetrinet, nd: SyncMarking)
    requires
        graph_wf(g0, net),
        g0.sync_graph@.len() < u32::MAX,
        g1.segment_storage@ == g0.segment_storage@,
        g1.sync_graph@ == g0.sync_graph@.push(nd),
        nd.segment_ids@.len() == g0.segment_storage@.len(),
        forall|m: int|
            0 <= m < nd.segment_ids@.len() ==> (#[trigger] nd.segment_ids@[m])
                < g0.segment_storage@[m].segments@.len(),
        nd.edges@.len() == 0,
        forall|i: int|
            0 <= i < g0.sync_graph@.len() ==> (#[trigger] g0.sync_graph@[i]).segment_ids@
                != nd.segment_ids@,
    ensures
        graph_wf(g1, net),
{
    assert forall|i: int|
        0 <= i < g1.sync_graph@.len() implies node_wf(
        #[trigger] g1.sync_graph@[i],
        g1,
        g1.sync_graph@.len() as int,
        net.intern_transition_start,
    ) by {
        if i < g0.sync_graph@.len() {
            assert(g1.sync_graph@[i] == g0.sync_graph@[i]);
            assert(node_wf(g0.sync_graph@[i], g0, g0.sync_graph@.len() as int,
                net.intern_transition_start));
        } else {
            assert(g1.sync_graph@[i] == nd);
        }
    }
    assert forall|i: int, j: int|
        0 <= i < j < g1.sync_graph@.len() implies g1.sync_graph@[i].segment_ids@
        != g1.sync_graph@[j].segment_ids@ by {
        if j < g0.sync_graph@.len() {
            assert(g1.sync_graph@[i] == g0.sync_graph@[i]);
            assert(g1.sync_graph@[j] == g0.sync_graph@[j]);
        } else {
            assert(g1.sync_graph@[i] == g0.sync_graph@[i]);
            assert(g1.sync_graph@[j] == nd);
        }
    }
    assert forall|i: int, k: int|
        0 <= i < g1.sync_graph@.len() && 0 <= k < g1.sync_graph@[i].edges@.len() implies
        edge_justified(
        (#[trigger] g1.sync_graph@[i].edges@[k]),
        g1.sync_graph@[i],
        g1,
        net,
    ) by {
        assert(i < g0.sync_graph@.len());
        assert(g1.sync_graph@[i] == g0.sync_graph@[i]);
        assert(edge_justified(g0.sync_graph@[i].edges@[k], g0.sync_graph@[i], g0, net));
    }
}

/// Setting the edge list of one sync node to justified, in-range edges
/// preserves graph well-formedness.
proof fn lemma_graph_wf_set_edges(g0: Graph, g1: Graph, net: ModularPetrinet, sid: int)
    requires
        graph_wf(g0, net),
        0 <= sid < g0.sync_graph@.len(),
        g1.segment_storage@ == g0.segment_storage@,
        g1.sync_graph@ == g0.sync_graph@.update(sid, g1.sync_graph@[sid]),
        g1.sync_graph@[sid].segment_ids@ == g0.sync_graph@[sid].segment_ids@,
        forall|k: int|
            0 <= k < g1.sync_graph@[sid].edges@.len() ==> (
            #[trigger] g1.sync_graph@[sid].edges@[k]).transition_id
                < net.intern_transition_start && g1.sync_graph@[sid].edges@[k].sync_marking_id
                < g0.sync_graph@.len(),
        forall|k: int|
            0 <= k < g1.sync_graph@[sid].edges@.len() ==> edge_justified(
                (#[trigger] g1.sync_graph@[sid].edges@[k]),
                g1.sync_graph@[sid],
                g1,
                net,
            ),
    ensures
        graph_wf(g1, net),
{
    assert forall|i: int|
        0 <= i < g1.sync_graph@.len() implies node_wf(
        #[trigger] g1.sync_graph@[i],
        g1,
        g1.sync_graph@.len() as int,
        net.intern_transition_start,
    ) by {
        assert(node_wf(g0.sync_graph@[i], g0, g0.sync_graph@.len() as int,
            net.intern_transition_start));
        if i != sid {
            assert(g1.sync_graph@[i] == g0.sync_graph@[i]);
        }
    }
    assert forall|i: int, j: int|
        0 <= i < j < g1.sync_graph@.len() implies g1.sync_graph@[i].segment_ids@
        != g1.sync_graph@[j].segment_ids@ by {
        if i != sid {
            assert(g1.sync_graph@[i] == g0.sync_graph@[i]);
        }
        if j != sid {
            assert(g1.sync_graph@[j] == g0.sync_graph@[j]);
        }
    }
    assert forall|i: int, k: int|
        0 <= i < g1.sync_graph@.len() && 0 <= k < g1.sync_graph@[i].edges@.len() implies
        edge_justified(
        (#[trigger] g1.sync_graph@[i].edges@[k]),
        g1.sync_graph@[i],
        g1,
        net,
    ) by {
        if i != sid {
            assert(g1.sync_graph@[i] == g0.sync_graph@[i]);
            assert(edge_justified(g0.sync_graph@[i].edges@[k], g0.sync_graph@[i], g0, net));
            let e = g0.sync_graph@[i].edges@[k];
            let nd = g0.sync_graph@[i];
            assert forall|mid: u16|
                (#[trigger] net.interface_t_overview@[e.transition_id as int]@.contains(mid))
                    && mid < g1.segment_storage@.len() implies exists|kk: int|
                #![trigger g1.segment_storage@[mid as int].segments@[nd.segment_ids@[mid as int] as int].segment.markings@[kk]]
                {
                    let seg = g1.segment_storage@[mid as int].segments@[nd.segment_ids@[mid as int] as int].segment;
                    &&& 0 <= kk < seg.markings@.len()
                    &&& enabled(net.modules@[mid as int], seg.markings@[kk].marking@,
                        e.transition_id)
                } by {
                let kk = choose|kk: int|
                    #![trigger g0.segment_storage@[mid as int].segments@[nd.segment_ids@[mid as int] as int].segment.markings@[kk]]
                    {
                        let seg = g0.segment_storage@[mid as int].segments@[nd.segment_ids@[mid as int] as int].segment;
                        &&& 0 <= kk < seg.markings@.len()
                        &&& enabled(net.modules@[mid as int], seg.markings@[kk].marking@,
                            e.transition_id)
                    };
            }
        }
    }
}

/// An edge stays justified when the segments its node occupies are kept.
proof fn lemma_edge_justified_stable(
    e: SyncEdge,
    nd: SyncMarking,
    g0: Graph,
    g1: Graph,
    net: ModularPetrinet,
)
    requires
        edge_justified(e, nd, g0, net),
        nd.segment_ids@.len() == g0.segment_storage@.len(),
        g1.segment_storage@.len() == g0.segment_storage@.len(),
        forall|m: int|
            0 <= m < nd.segment_ids@.len() ==> (#[trigger] nd.segment_ids@[m])
                < g0.segment_storage@[m].segments@.len(),
        forall|m: int, i: int|
            0 <= m < g0.segment_storage@.len() && 0 <= i
                < g0.segment_storage@[m].segments@.len() ==> (
            #[trigger] g1.segment_storage@[m].segments@[i]).segment
                == g0.segment_storage@[m].segments@[i].segment,
    ensures
        edge_justified(e, nd, g1, net),
{
    assert forall|mid: u16|
        (#[trigger] net.interface_t_overview@[e.transition_id as int]@.contains(mid)) && mid
            < g1.segment_storage@.len() implies exists|kk: int|
        #![trigger g1.segment_storage@[mid as int].segments@[nd.segment_ids@[mid as int] as int].segment.markings@[kk]]
        {
            let seg = g1.segment_storage@[mid as int].segments@[nd.segment_ids@[mid as int] as int].segment;
            &&& 0 <= kk < seg.markings@.len()
            &&& enabled(net.modules@[mid as int], seg.markings@[kk].marking@, e.transition_id)
        } by {
        let kk = choose|kk: int|
            #![trigger g0.segment_storage@[mid as int].segments@[nd.segment_ids@[mid as int] as int].segment.markings@[kk]]
            {
                let seg = g0.segment_storage@[mid as int].segments@[nd.segment_ids@[mid as int] as int].segment;
                &&& 0 <= kk < seg.markings@.len()
                &&& enabled(net.modules@[mid as int], seg.markings@[kk].marking@, e.transition_id)
            };
        assert(g1.segment_storage@[mid as int].segments@[nd.segment_ids@[mid as int] as int].segment
            == g0.segment_storage@[mid as int].segments@[nd.segment_ids@[mid as int] as int].segment);
    }
}

/// A queued job stays well-formed when its node keeps its segment-id tuple
/// and the stores keep every old segment.
proof fn lemma_job_wf_stable(
    sid: usize,
    recs: Seq<Vec<EnabledRecord>>,
    g0: Graph,
    g1: Graph,
    net: ModularPetrinet,
)
    requires
        graph_wf(g0, net),
        job_wf(sid, recs, g0, net),
        sid < g1.sync_graph@.len(),
        g1.segment_storage@.len() == g0.segment_storage@.len(),
        g1.sync_graph@[sid as int].segment_ids@ == g0.sync_graph@[sid as int].segment_ids@,
        forall|m: int, i: int|
            0 <= m < g0.segment_storage@.len() && 0 <= i
                < g0.segment_storage@[m].segments@.len() ==> (
            #[trigger] g1.segment_storage@[m].segments@[i]).segment
                == g0.segment_storage@[m].segments@[i].segment,
    ensures
        job_wf(sid, recs, g1, net),
{
    assert forall|m: int, k: int|
        0 <= m < recs.len() && 0 <= k < recs[m]@.len() implies record_wf(
        #[trigger] recs[m]@[k],
        net.modules@[m],
        g1.segment_storage@[m].segments@[g1.sync_graph@[sid as int].segment_ids@[m] as int].segment,
        net.intern_transition_start,
    ) by {
        assert(record_wf(recs[m]@[k], net.modules@[m],
            g0.segment_storage@[m].segments@[g0.sync_graph@[sid as int].segment_ids@[m] as int].segment,
            net.intern_transition_start));
        assert(node_wf(g0.sync_graph@[sid as int], g0, g0.sync_graph@.len() as int,
            net.intern_transition_start));
        assert(g1.segment_storage@[m].segments@[g0.sync_graph@[sid as int].segment_ids@[m] as int].segment
            == g0.segment_storage@[m].segments@[g0.sync_graph@[sid as int].segment_ids@[m] as int].segment);
    }
}

/// A commonly enabled interface transition justifies a sync edge out of
/// the current node: every referencing module reported it enabled at a
/// marking of its current segment.
proof fn lemma_common_edge_justified(
    e: SyncEdge,
    sid_cur: int,
    mods: Seq<u16>,
    recs: Seq<Vec<EnabledRecord>>,
    cur_ids: Seq<u32>,
    g: Graph,
    net: ModularPetrinet,
)
    requires
        net_wf(net),
        e.transition_id < net.intern_transition_start,
        0 <= sid_cur < g.sync_graph@.len(),
        g.segment_storage@.len() == net.modules@.len(),
        cur_ids == g.sync_graph@[sid_cur].segment_ids@,
        cur_ids.len() == net.modules@.len(),
        recs.len() == net.modules@.len(),
        mods == net.interface_t_overview@[e.transition_id as int]@,
        forall|x: int|
            0 <= x < mods.len() ==> (#[trigger] mods[x]) < net.modules@.len() && exists|k: int|
                0 <= k < recs[mods[x] as int]@.len() && (
                #[trigger] recs[mods[x] as int]@[k]).transition_id == e.transition_id,
        forall|m: int, k: int|
            0 <= m < recs.len() && 0 <= k < recs[m]@.len() ==> record_wf(
                #[trigger] recs[m]@[k],
                net.modules@[m],
                g.segment_storage@[m].segments@[cur_ids[m] as int].segment,
                net.intern_transition_start,
            ),
    ensures
        edge_justified(e, g.sync_graph@[sid_cur], g, net),
{
    let nd = g.sync_graph@[sid_cur];
    assert forall|mid: u16|
        (#[trigger] net.interface_t_overview@[e.transition_id as int]@.contains(mid)) && mid
            < g.segment_storage@.len() implies exists|kk: int|
        #![trigger g.segment_storage@[mid as int].segments@[nd.segment_ids@[mid as int] as int].segment.markings@[kk]]
        {
            let seg = g.segment_storage@[mid as int].segments@[nd.segment_ids@[mid as int] as int].segment;
            &&& 0 <= kk < seg.markings@.len()
            &&& enabled(net.modules@[mid as int], seg.markings@[kk].marking@, e.transition_id)
        } by {
        assert(mods.contains(mid));
        let x = choose|x: int| 0 <= x < mods.len() && mods[x] == mid;
        let k = choose|k: int|
            0 <= k < recs[mods[x] as int]@.len() && (
            #[trigger] recs[mods[x] as int]@[k]).transition_id == e.transition_id;
        let r = recs[mid as int]@[k];
        assert(record_wf(r, net.modules@[mid as int],
            g.segment_storage@[mid as int].segments@[cur_ids[mid as int] as int].segment,
            net.intern_transition_start));
        let seg = g.segment_storage@[mid as int].segments@[nd.segment_ids@[mid as int] as int].segment;
        let kk = r.marking_id - seg.marking_offset;
        assert(r.firable@.contains(r.transition_id));
        assert(enabled(net.modules@[mid as int], seg.markings@[kk].marking@, e.transition_id));
        assert(seg.markings@[kk] == seg.markings@[kk]);
    }
}

/// An edge list justified against the node before its edges were attached
/// is justified afterwards: only the edge list changed.
proof fn lemma_edge_justified_node_edges(
    e: SyncEdge,
    nd0: SyncMarking,
    nd1: SyncMarking,
    g0: Graph,
    g1: Graph,
    net: ModularPetrinet,
)
    requires
        edge_justified(e, nd0, g0, net),
        nd1.segment_ids@ == nd0.segment_ids@,
        g1.segment_storage@ == g0.segment_storage@,
    ensures
        edge_justified(e, nd1, g1, net),
{
    assert forall|mid: u16|
        (#[trigger] net.interface_t_overview@[e.transition_id as int]@.contains(mid)) && mid
            < g1.segment_storage@.len() implies exists|kk: int|
        #![trigger g1.segment_storage@[mid as int].segments@[nd1.segment_ids@[mid as int] as int].segment.markings@[kk]]
        {
            let seg = g1.segment_storage@[mid as int].segments@[nd1.segment_ids@[mid as int] as int].segment;
            &&& 0 <= kk < seg.markings@.len()
            &&& enabled(net.modules@[mid as int], seg.markings@[kk].marking@, e.transition_id)
        } by {
        let kk = choose|kk: int|
            #![trigger g0.segment_storage@[mid as int].segments@[nd0.segment_ids@[mid as int] as int].segment.markings@[kk]]
            {
                let seg = g0.segment_storage@[mid as int].segments@[nd0.segment_ids@[mid as int] as int].segment;
                &&& 0 <= kk < seg.markings@.len()
                &&& enabled(net.modules@[mid as int], seg.markings@[kk].marking@, e.transition_id)
            };
    }
}

/// Marking canonical form: every marking installed in a well-formed graph
/// is strictly sorted by place id and free of zero counts.
pub proof fn lemma_marking_canonical_form(g: Graph, net: ModularPetrinet, m: int, i: int, k: int)
    requires
        graph_wf(g, net),
        0 <= m < g.segment_storage@.len(),
        0 <= i < g.segment_storage@[m].segments@.len(),
        0 <= k < g.segment_storage@[m].segments@[i].segment.markings@.len(),
    ensures
        crate::marking::wf_pcs(g.segment_storage@[m].segments@[i].segment.markings@[k].marking@),
{
}

/// Segment closure: every edge of every installed segment names an internal
/// transition and lands on a marking of the same segment.
pub proof fn lemma_segment_closure(
    g: Graph,
    net: ModularPetrinet,
    m: int,
    i: int,
    k: int,
    e: int,
)
    requires
        graph_wf(g, net),
        0 <= m < g.segment_storage@.len(),
        0 <= i < g.segment_storage@[m].segments@.len(),
        0 <= k < g.segment_storage@[m].segments@[i].segment.markings@.len(),
        0 <= e < g.segment_storage@[m].segments@[i].segment.markings@[k].edges@.len(),
    ensures
        ({
            let seg = g.segment_storage@[m].segments@[i].segment;
            let edge = seg.markings@[k].edges@[e];
            &&& edge.transition_id >= net.intern_transition_start
            &&& seg.marking_offset <= edge.graph_marking_id < seg.marking_offset
                + seg.markings@.len()
        }),
{
}

/// Id monotonicity: within a module, marking ids are assigned contiguously
/// in discovery order, segment ranges tile `[0, next_marking_id)`, and no
/// id is ever assigned twice.
#[verifier::rlimit(100)]
#[verifier::spinoff_prover]
pub proof fn lemma_id_monotonicity(g: Graph, net: ModularPetrinet, m: int, i: int)
    requires
        graph_wf(g, net),
        0 <= m < g.segment_storage@.len(),
        0 <= i < g.segment_storage@[m].segments@.len(),
    ensures
        ({
            let segs = g.segment_storage@[m].segments;
            let seg = segs[i].segment;
            &&& forall|k: int|
                0 <= k < seg.markings@.len() ==> (#[trigger] seg.markings@[k]).id
                    == seg.marking_offset + k
            &&& seg.marking_offset as int == (if i == 0 {
                0int
            } else {
                segs[i - 1].segment.marking_offset + segs[i - 1].segment.markings@.len()
            })
            &&& seg.marking_offset + seg.markings@.len()
                <= g.segment_storage@[m].next_marking_id
        }),
    decreases g.segment_storage@[m].segments@.len() - i,
{
    let segs = g.segment_storage@[m].segments;
    if i < segs.len() - 1 {
        lemma_id_monotonicity(g, net, m, i + 1);
    }
}

/// Segment dedup: no two installed segments of one module hold the same
/// multiset of markings.
pub proof fn lemma_segment_dedup(g: Graph, net: ModularPetrinet, m: int, i: int, j: int)
    requires
        graph_wf(g, net),
        0 <= m < g.segment_storage@.len(),
        0 <= i < j < g.segment_storage@[m].segments@.len(),
    ensures
        !seg_equiv(
            g.segment_storage@[m].segments@[i].segment,
            g.segment_storage@[m].segments@[j].segment,
        ),
{
}

/// Sync-node dedup: no two installed sync nodes hold the same segment-id
/// tuple.
pub proof fn lemma_sync_node_dedup(g: Graph, net: ModularPetrinet, i: int, j: int)
    requires
        graph_wf(g, net),
        0 <= i < j < g.sync_graph@.len(),
    ensures
        g.sync_graph@[i].segment_ids@ != g.sync_graph@[j].segment_ids@,
{
}

/// Interface synchronization: a sync edge labeled `t` exits a node only if
/// every module that references `t` enables it at some marking of the
/// segment that module occupies at that node.
pub proof fn lemma_interface_synchronization(
    g: Graph,
    net: ModularPetrinet,
    i: int,
    k: int,
    mid: u16,
)
    requires
        graph_wf(g, net),
        0 <= i < g.sync_graph@.len(),
        0 <= k < g.sync_graph@[i].edges@.len(),
        net_wf(net),
        net.interface_t_overview@[g.sync_graph@[i].edges@[k].transition_id as int]@.contains(mid),
        mid < g.segment_storage@.len(),
    ensures
        exists|x: int|
            #![trigger g.segment_storage@[mid as int].segments@[g.sync_graph@[i].segment_ids@[mid as int] as int].segment.markings@[x]]
            {
                let t = g.sync_graph@[i].edges@[k].transition_id;
                let seg = g.segment_storage@[mid as int].segments@[g.sync_graph@[i].segment_ids@[mid as int] as int].segment;
                &&& 0 <= x < seg.markings@.len()
                &&& enabled(net.modules@[mid as int], seg.markings@[x].marking@, t)
            },
{
    let e = g.sync_graph@[i].edges@[k];
    let nd = g.sync_graph@[i];
    assert(edge_justified(e, nd, g, net));
    let x = choose|x: int|
        #![trigger g.segment_storage@[mid as int].segments@[nd.segment_ids@[mid as int] as int].segment.markings@[x]]
        {
            let seg = g.segment_storage@[mid as int].segments@[nd.segment_ids@[mid as int] as int].segment;
            &&& 0 <= x < seg.markings@.len()
            &&& enabled(net.modules@[mid as int], seg.markings@[x].marking@, e.transition_id)
        };
    let seg = g.segment_storage@[mid as int].segments@[nd.segment_ids@[mid as int] as int].segment;
    assert(0 <= x < seg.markings@.len() && enabled(
        net.modules@[mid as int],
        seg.markings@[x].marking@,
        e.transition_id,
    ));
}

/// The worklist-entry invariant: the records of a queued sync node point
/// into the segments that the node currently occupies.
pub open spec fn job_wf(
    sid: usize,
    recs: Seq<Vec<EnabledRecord>>,
    g: Graph,
    net: ModularPetrinet,
) -> bool {
    &&& sid < g.sync_graph@.len()
    &&& recs.len() == net.modules@.len()
    &&& forall|m: int, k: int|
        0 <= m < recs.len() && 0 <= k < recs[m]@.len() ==> record_wf(
            #[trigger] recs[m]@[k],
            net.modules@[m],
            g.segment_storage@[m].segments@[g.sync_graph@[sid as int].segment_ids@[m] as int].segment,
            net.intern_transition_start,
        )
}

/// Build the synchronous reachability graph of a well-formed modular net.
///
/// Every module's initial marking seeds segment `0`; sync node `0` holds
/// those segments.  From each popped sync node, every interface transition
/// enabled in all of its modules is fired: successor segments are built,
/// folded onto equivalent ones, and the successor sync node is linked,
/// deduplicated by its segment-id tuple.  A sync edge that lands back in
/// the same node replaces its ledger entries with empty link lists.
/// Returns `None` when a marking id, a sync-node id or a place count would
/// have to pass `u32::MAX`: then either some module's initial closure
/// already overruns the id or count space, or some transition of some
/// module is enabled at some canonical marking (the coarse witness of the
/// work that exhausted a counter), or a well-formed graph of `u32::MAX`
/// sync nodes over this net exists.
#[verifier::rlimit(100)]
#[verifier::spinoff_prover]
pub fn build_sync_reachability_graph(net: &ModularPetrinet) -> (res: Option<Graph>)
    requires
        net_wf(*net),
    ensures
        res is None ==> {
            ||| exists|m: int|
                0 <= m < net.modules@.len() && #[trigger] crate::explore::exploration_blame(
                    net.modules@[m],
                    seq![net.markings@[m]@],
                    0,
                    net.intern_transition_start,
                )
            ||| exists|m: int, mk: Seq<crate::marking::PlaceCount>, t: u32|
                #![trigger enabled(net.modules@[m], mk, t)]
                {
                    &&& 0 <= m < net.modules@.len()
                    &&& crate::marking::wf_pcs(mk)
                    &&& t < net.modules@[m].transitions@.len()
                    &&& proper(net.modules@[m], t)
                    &&& enabled(net.modules@[m], mk, t)
                }
            ||| exists|g2: Graph|
                #![trigger g2.sync_graph@.len()]
                graph_wf(g2, *net) && g2.sync_graph@.len() >= u32::MAX
        },
        res matches Some(g) ==> {
            &&& graph_wf(g, *net)
            &&& g.sync_graph@.len() >= 1
            &&& g.sync_graph@[0].segment_ids@.len() == net.modules@.len()
            &&& forall|m: int|
                0 <= m < net.modules@.len() ==> (#[trigger] g.sync_graph@[0].segment_ids@[m]) == 0
            &&& forall|m: int|
                0 <= m < net.modules@.len() ==> (#[trigger] g.segment_storage@[m]).segments@.len()
                    >= 1 && g.segment_storage@[m].segments@[0].segment.markings@.len() >= 1
                    && g.segment_storage@[m].segments@[0].segment.markings@[0].marking@
                    == net.markings@[m]@
        },
{
    let n = net.modules.len();
    let mut graph = Graph { sync_graph: Vec::new(), segment_storage: Vec::new() };
    let mut init_records: Vec<Vec<EnabledRecord>> = Vec::new();

    // Explore every module's initial segment.
    let mut m: usize = 0;
    while m < n
        invariant
            m <= n,
            n == net.modules@.len(),
            net_wf(*net),
            graph.sync_graph@.len() == 0,
            graph.segment_storage@.len() == m,
            init_records@.len() == m,
            forall|mm: int|
                0 <= mm < m ==> store_wf(
                    #[trigger] graph.segment_storage@[mm],
                    net.modules@[mm],
                    net.intern_transition_start,
                ),
            forall|mm: int|
                0 <= mm < m ==> (#[trigger] graph.segment_storage@[mm]).segments@.len() == 1
                    && graph.segment_storage@[mm].segments@[0].segment.markings@.len() >= 1
                    && graph.segment_storage@[mm].segments@[0].segment.markings@[0].marking@
                    == net.markings@[mm]@,
            forall|mm: int, k: int|
                0 <= mm < m && 0 <= k < init_records@[mm]@.len() ==> record_wf(
                    #[trigger] init_records@[mm]@[k],
                    net.modules@[mm],
                    graph.segment_storage@[mm].segments@[0].segment,
                    net.intern_transition_start,
                ),
        decreases n - m,
    {
        let module = &net.modules[m];
        let firable = initial_firable(module, &net.markings[m]);
        let mut seeds: Vec<Marking> = Vec::new();
        seeds.push(net.markings[m].clone());
        let mut firs: Vec<Vec<TransitionId>> = Vec::new();
        firs.push(firable);
        let x = explore_segment(module, &seeds, &firs, 0, net.intern_transition_start, 0);
        match x {
            None => {
                proof {
                    assert(crate::explore::views_of(seeds@) =~= seq![net.markings@[m as int]@]);
                    assert(crate::explore::exploration_blame(
                        net.modules@[m as int],
                        seq![net.markings@[m as int]@],
                        0,
                        net.intern_transition_start,
                    ));
                }
                return None;
            },
            Some(out) => {
                let (seg, recs, next) = out;
                let mut one: Vec<StoredSegment> = Vec::new();
                one.push(StoredSegment { segment: seg, ledger: Vec::new() });
                graph.segment_storage.push(ModuleStore { segments: one, next_marking_id: next });
                init_records.push(recs);
            },
        }
        m += 1;
    }

    // Sync node 0 occupies segment 0 of every module.
    let mut ids0: Vec<u32> = Vec::new();
    let mut m2: usize = 0;
    while m2 < n
        invariant
            m2 <= n,
            ids0@.len() == m2,
            forall|mm: int| 0 <= mm < m2 ==> (#[trigger] ids0@[mm]) == 0,
        decreases n - m2,
    {
        ids0.push(0);
        m2 += 1;
    }
    graph.sync_graph.push(SyncMarking { segment_ids: ids0, edges: Vec::new() });
    let mut to_explore: Vec<(usize, Vec<Vec<EnabledRecord>>)> = Vec::new();
    to_explore.push((0, init_records));
    proof {
        assert(graph_wf(graph, *net));
    }

    while to_explore.len() > 0
        invariant
            n == net.modules@.len(),
            net_wf(*net),
            graph_wf(graph, *net),
            graph.sync_graph@.len() >= 1,
            graph.sync_graph@[0].segment_ids@.len() == n,
            forall|mm: int|
                0 <= mm < n ==> (#[trigger] graph.sync_graph@[0].segment_ids@[mm]) == 0,
            forall|mm: int|
                0 <= mm < n ==> (#[trigger] graph.segment_storage@[mm]).segments@.len() >= 1
                    && graph.segment_storage@[mm].segments@[0].segment.markings@.len() >= 1
                    && graph.segment_storage@[mm].segments@[0].segment.markings@[0].marking@
                    == net.markings@[mm]@,
            forall|j: int|
                0 <= j < to_explore@.len() ==> job_wf(
                    (#[trigger] to_explore@[j]).0,
                    to_explore@[j].1@,
                    graph,
                    *net,
                ),
        decreases 2 * (u32::MAX - graph.sync_graph@.len()) + to_explore@.len(),
    {
        let ghost q0 = to_explore@;
        let ghost g_pop = graph;
        let job = to_explore.pop().unwrap();
        let sid_cur = job.0;
        let recs = job.1;
        let cur_ids = clone_ids(&graph.sync_graph[sid_cur].segment_ids);
        let indexes = find_all_e_t(&recs, &net.interface_t_overview);
        let mut edges: Vec<SyncEdge> = Vec::new();
        let mut e: usize = 0;
        while e < indexes.len()
            invariant
                e <= indexes@.len(),
                n == net.modules@.len(),
                net_wf(*net),
                graph_wf(graph, *net),
                graph.sync_graph@.len() >= 1,
                graph.sync_graph@[0].segment_ids@.len() == n,
                forall|mm: int|
                    0 <= mm < n ==> (#[trigger] graph.sync_graph@[0].segment_ids@[mm]) == 0,
                forall|mm: int|
                    0 <= mm < n ==> (#[trigger] graph.segment_storage@[mm]).segments@.len() >= 1
                        && graph.segment_storage@[mm].segments@[0].segment.markings@.len() >= 1
                        && graph.segment_storage@[mm].segments@[0].segment.markings@[0].marking@
                        == net.markings@[mm]@,
                sid_cur < graph.sync_graph@.len(),
                cur_ids@ == graph.sync_graph@[sid_cur as int].segment_ids@,
                cur_ids@.len() == n,
                recs@.len() == n,
                forall|mm: int, k: int|
                    0 <= mm < n && 0 <= k < recs@[mm]@.len() ==> record_wf(
                        #[trigger] recs@[mm]@[k],
                        net.modules@[mm],
                        graph.segment_storage@[mm].segments@[cur_ids@[mm] as int].segment,
                        net.intern_transition_start,
                    ),
                forall|ee: int|
                    0 <= ee < indexes@.len() ==> {
                        &&& (#[trigger] indexes@[ee]).0 < net.interface_t_overview@.len()
                        &&& indexes@[ee].1@ == net.interface_t_overview@[indexes@[ee].0 as int]@
                        &&& indexes@[ee].1@.len() >= 1
                        &&& forall|x: int|
                            0 <= x < indexes@[ee].1@.len() ==> (#[trigger] indexes@[ee].1@[x]) < n
                                && exists|k: int|
                                0 <= k < recs@[indexes@[ee].1@[x] as int]@.len() && (
                                #[trigger] recs@[indexes@[ee].1@[x] as int]@[k]).transition_id
                                    == indexes@[ee].0
                    },
                forall|l: int|
                    0 <= l < edges@.len() ==> (#[trigger] edges@[l]).transition_id
                        < net.intern_transition_start && edges@[l].sync_marking_id
                        < graph.sync_graph@.len(),
                forall|l: int|
                    0 <= l < edges@.len() ==> edge_justified(
                        #[trigger] edges@[l],
                        graph.sync_graph@[sid_cur as int],
                        graph,
                        *net,
                    ),
                forall|j: int|
                    0 <= j < to_explore@.len() ==> job_wf(
                        (#[trigger] to_explore@[j]).0,
                        to_explore@[j].1@,
                        graph,
                        *net,
                    ),
                2 * (u32::MAX - graph.sync_graph@.len()) + to_explore@.len() <= 2 * (u32::MAX
                    - g_pop.sync_graph@.len()) + q0.len() - 1,
            decreases indexes@.len() - e,
        {
            let t = indexes[e].0;
            let ghost sync_snap = graph.sync_graph@;
            let ghost q_snap = to_explore@;
            let mut new_ids: Vec<u32> = Vec::new();
            let mut new_recs: Vec<Vec<EnabledRecord>> = Vec::new();
            let mut m3: usize = 0;
            while m3 < n
                invariant
                    m3 <= n,
                    n == net.modules@.len(),
                    net_wf(*net),
                    graph_wf(graph, *net),
                    graph.sync_graph@ == sync_snap,
                    to_explore@ == q_snap,
                    graph.sync_graph@.len() >= 1,
                    sid_cur < graph.sync_graph@.len(),
                    cur_ids@ == graph.sync_graph@[sid_cur as int].segment_ids@,
                    cur_ids@.len() == n,
                    recs@.len() == n,
                    e < indexes@.len(),
                    t == indexes@[e as int].0,
                    t < net.intern_transition_start,
                    indexes@[e as int].1@ == net.interface_t_overview@[t as int]@,
                    forall|x: int|
                        0 <= x < indexes@[e as int].1@.len() ==> (
                        #[trigger] indexes@[e as int].1@[x]) < n && exists|k: int|
                            0 <= k < recs@[indexes@[e as int].1@[x] as int]@.len() && (
                            #[trigger] recs@[indexes@[e as int].1@[x] as int]@[k]).transition_id
                                == t,
                    forall|mm: int, k: int|
                        0 <= mm < n && 0 <= k < recs@[mm]@.len() ==> record_wf(
                            #[trigger] recs@[mm]@[k],
                            net.modules@[mm],
                            graph.segment_storage@[mm].segments@[cur_ids@[mm] as int].segment,
                            net.intern_transition_start,
                        ),
                    forall|mm: int|
                        0 <= mm < n ==> (#[trigger] graph.segment_storage@[mm]).segments@.len()
                            >= 1
                            && graph.segment_storage@[mm].segments@[0].segment.markings@.len()
                            >= 1
                            && graph.segment_storage@[mm].segments@[0].segment.markings@[0].marking@
                            == net.markings@[mm]@,
                    new_ids@.len() == m3,
                    new_recs@.len() == m3,
                    forall|mm: int|
                        0 <= mm < m3 ==> (#[trigger] new_ids@[mm])
                            < graph.segment_storage@[mm].segments@.len(),
                    forall|mm: int, k: int|
                        0 <= mm < m3 && 0 <= k < new_recs@[mm]@.len() ==> record_wf(
                            #[trigger] new_recs@[mm]@[k],
                            net.modules@[mm],
                            graph.segment_storage@[mm].segments@[new_ids@[mm] as int].segment,
                            net.intern_transition_start,
                        ),
                    forall|mm: int|
                        0 <= mm < m3 && !indexes@[e as int].1@.contains(mm as u16) ==> (
                        #[trigger] new_ids@[mm]) == cur_ids@[mm],
                    forall|l: int|
                        0 <= l < edges@.len() ==> (#[trigger] edges@[l]).transition_id
                            < net.intern_transition_start && edges@[l].sync_marking_id
                            < graph.sync_graph@.len(),
                    forall|l: int|
                        0 <= l < edges@.len() ==> edge_justified(
                            #[trigger] edges@[l],
                            graph.sync_graph@[sid_cur as int],
                            graph,
                            *net,
                        ),
                    forall|j: int|
                        0 <= j < to_explore@.len() ==> job_wf(
                            (#[trigger] to_explore@[j]).0,
                            to_explore@[j].1@,
                            graph,
                            *net,
                        ),
                decreases n - m3,
            {
                let ghost g_before = graph;
                if contains_mod(&indexes[e].1, m3 as u16) {
                    let r = successor_segment(
                        &mut graph.segment_storage[m3],
                        &net.modules[m3],
                        cur_ids[m3] as usize,
                        t,
                        &recs[m3],
                        net.intern_transition_start,
                    );
                    match r {
                        None => {
                            proof {
                                let mk = choose|mk: Seq<crate::marking::PlaceCount>|
                                    crate::marking::wf_pcs(mk) && #[trigger] enabled(
                                        net.modules@[m3 as int],
                                        mk,
                                        t,
                                    );
                                assert(t < net.modules@[m3 as int].transitions@.len());
                                assert(enabled(net.modules@[m3 as int], mk, t));
                            }
                            return None;
                        },
                        Some(out) => {
                            let (sid2, rr) = out;
                            new_ids.push(sid2);
                            new_recs.push(rr);
                        },
                    }
                    proof {
                        assert(graph.segment_storage@ =~= g_before.segment_storage@.update(
                            m3 as int,
                            graph.segment_storage@[m3 as int],
                        ));
                        lemma_graph_wf_store_update(g_before, graph, *net, m3 as int);
                        assert forall|mm: int, k: int|
                            0 <= mm < n && 0 <= k < recs@[mm]@.len() implies record_wf(
                            #[trigger] recs@[mm]@[k],
                            net.modules@[mm],
                            graph.segment_storage@[mm].segments@[cur_ids@[mm] as int].segment,
                            net.intern_transition_start,
                        ) by {
                            assert(record_wf(recs@[mm]@[k], net.modules@[mm],
                                g_before.segment_storage@[mm].segments@[cur_ids@[mm] as int].segment,
                                net.intern_transition_start));
                            if mm == m3 as int {
                                assert(graph.segment_storage@[mm].segments@[cur_ids@[mm] as int].segment
                                    == g_before.segment_storage@[mm].segments@[cur_ids@[mm] as int].segment);
                            }
                        }
                        assert forall|mm: int, k: int|
                            0 <= mm < new_recs@.len() && 0 <= k < new_recs@[mm]@.len() implies
                            record_wf(
                            #[trigger] new_recs@[mm]@[k],
                            net.modules@[mm],
                            graph.segment_storage@[mm].segments@[new_ids@[mm] as int].segment,
                            net.intern_transition_start,
                        ) by {
                            if mm < m3 as int {
                                assert(record_wf(new_recs@[mm]@[k], net.modules@[mm],
                                    g_before.segment_storage@[mm].segments@[new_ids@[mm] as int].segment,
                                    net.intern_transition_start));
                            }
                        }
                        assert forall|l: int|
                            0 <= l < edges@.len() implies edge_justified(
                            #[trigger] edges@[l],
                            graph.sync_graph@[sid_cur as int],
                            graph,
                            *net,
                        ) by {
                            lemma_edge_justified_stable(edges@[l],
                                graph.sync_graph@[sid_cur as int], g_before, graph, *net);
                        }
                        assert forall|j: int|
                            0 <= j < to_explore@.len() implies job_wf(
                            (#[trigger] to_explore@[j]).0,
                            to_explore@[j].1@,
                            graph,
                            *net,
                        ) by {
                            lemma_job_wf_stable(to_explore@[j].0, to_explore@[j].1@, g_before,
                                graph, *net);
                        }
                    }
                } else {
                    new_ids.push(cur_ids[m3]);
                    new_recs.push(clone_records(&recs[m3]));
                    proof {
                        assert forall|mm: int, k: int|
                            0 <= mm < new_recs@.len() && 0 <= k < new_recs@[mm]@.len() implies
                            record_wf(
                            #[trigger] new_recs@[mm]@[k],
                            net.modules@[mm],
                            graph.segment_storage@[mm].segments@[new_ids@[mm] as int].segment,
                            net.intern_transition_start,
                        ) by {
                            if mm == m3 as int {
                                let src = recs@[mm]@[k];
                                assert(record_wf(src, net.modules@[mm],
                                    graph.segment_storage@[mm].segments@[cur_ids@[mm] as int].segment,
                                    net.intern_transition_start));
                                assert(new_recs@[mm]@[k].firable@ == src.firable@);
                            }
                        }
                    }
                }
                m3 += 1;
            }
            // Assemble the successor and link it.
            if same_ids(&new_ids, &cur_ids) {
                // Top-level self-loop: link back, allocate nothing, and
                // clear the link lists of the ledger entries just added.
                let ghost e_old = edges@;
                edges.push(SyncEdge::new(t, sid_cur as u32));
                proof {
                    lemma_common_edge_justified(edges@[edges@.len() - 1], sid_cur as int,
                        indexes@[e as int].1@, recs@, cur_ids@, graph, *net);
                    assert forall|l: int|
                        0 <= l < edges@.len() implies edge_justified(
                        #[trigger] edges@[l],
                        graph.sync_graph@[sid_cur as int],
                        graph,
                        *net,
                    ) by {
                        if l < edges@.len() - 1 {
                            assert(edges@[l] == e_old[l]);
                        }
                    }
                }
                let mods = &indexes[e].1;
                let mut m4: usize = 0;
                while m4 < mods.len()
                    invariant
                        m4 <= mods@.len(),
                        n == net.modules@.len(),
                        net_wf(*net),
                        graph_wf(graph, *net),
                        graph.sync_graph@ == sync_snap,
                        to_explore@ == q_snap,
                        sid_cur < graph.sync_graph@.len(),
                        cur_ids@ == graph.sync_graph@[sid_cur as int].segment_ids@,
                        cur_ids@.len() == n,
                        recs@.len() == n,
                        t < net.intern_transition_start,
                        forall|x: int| 0 <= x < mods@.len() ==> (#[trigger] mods@[x]) < n,
                        forall|mm: int, k: int|
                            0 <= mm < n && 0 <= k < recs@[mm]@.len() ==> record_wf(
                                #[trigger] recs@[mm]@[k],
                                net.modules@[mm],
                                graph.segment_storage@[mm].segments@[cur_ids@[mm] as int].segment,
                                net.intern_transition_start,
                            ),
                        forall|mm: int|
                            0 <= mm < n ==> (#[trigger] graph.segment_storage@[mm]).segments@.len()
                                >= 1
                                && graph.segment_storage@[mm].segments@[0].segment.markings@.len()
                                >= 1
                                && graph.segment_storage@[mm].segments@[0].segment.markings@[0].marking@
                                == net.markings@[mm]@,
                        forall|l: int|
                            0 <= l < edges@.len() ==> (#[trigger] edges@[l]).transition_id
                                < net.intern_transition_start && edges@[l].sync_marking_id
                                < graph.sync_graph@.len(),
                        forall|l: int|
                            0 <= l < edges@.len() ==> edge_justified(
                                #[trigger] edges@[l],
                                graph.sync_graph@[sid_cur as int],
                                graph,
                                *net,
                            ),
                        forall|j: int|
                            0 <= j < to_explore@.len() ==> job_wf(
                                (#[trigger] to_explore@[j]).0,
                                to_explore@[j].1@,
                                graph,
                                *net,
                            ),
                    decreases mods@.len() - m4,
                {
                    let ghost g_before = graph;
                    let mm = mods[m4] as usize;
                    let cs = cur_ids[mm] as usize;
                    let led = &mut graph.segment_storage[mm].segments[cs].ledger;
                    if led.len() > 0 {
                        led.pop();
                    }
                    led.push(LedgerEntry { transition_id: t, links: Vec::new() });
                    proof {
                        assert(graph.segment_storage@ =~= g_before.segment_storage@.update(
                            mm as int,
                            graph.segment_storage@[mm as int],
                        ));
                        assert(graph.segment_storage@[mm as int].segments@
                            =~= g_before.segment_storage@[mm as int].segments@.update(
                            cs as int,
                            graph.segment_storage@[mm as int].segments@[cs as int],
                        ));
                        assert(graph.segment_storage@[mm as int].segments@[cs as int].segment
                            == g_before.segment_storage@[mm as int].segments@[cs as int].segment);
                        assert(store_wf(graph.segment_storage@[mm as int], net.modules@[mm as int],
                            net.intern_transition_start));
                        lemma_graph_wf_store_update(g_before, graph, *net, mm as int);
                        assert forall|mm2: int, k: int|
                            0 <= mm2 < n && 0 <= k < recs@[mm2]@.len() implies record_wf(
                            #[trigger] recs@[mm2]@[k],
                            net.modules@[mm2],
                            graph.segment_storage@[mm2].segments@[cur_ids@[mm2] as int].segment,
                            net.intern_transition_start,
                        ) by {
                            assert(record_wf(recs@[mm2]@[k], net.modules@[mm2],
                                g_before.segment_storage@[mm2].segments@[cur_ids@[mm2] as int].segment,
                                net.intern_transition_start));
                            if mm2 == mm as int {
                                assert(graph.segment_storage@[mm2].segments@[cur_ids@[mm2] as int].segment
                                    == g_before.segment_storage@[mm2].segments@[cur_ids@[mm2] as int].segment);
                            }
                        }
                        assert forall|l: int|
                            0 <= l < edges@.len() implies edge_justified(
                            #[trigger] edges@[l],
                            graph.sync_graph@[sid_cur as int],
                            graph,
                            *net,
                        ) by {
                            lemma_edge_justified_stable(edges@[l],
                                graph.sync_graph@[sid_cur as int], g_before, graph, *net);
                        }
                        assert forall|j: int|
                            0 <= j < to_explore@.len() implies job_wf(
                            (#[trigger] to_explore@[j]).0,
                            to_explore@[j].1@,
                            graph,
                            *net,
                        ) by {
                            lemma_job_wf_stable(to_explore@[j].0, to_explore@[j].1@, g_before,
                                graph, *net);
                        }
                    }
                    m4 += 1;
                }
            } else {
                let probe = SyncMarking {
                    segment_ids: clone_ids(&new_ids),
                    edges: Vec::new(),
                };
                match graph.contains_sync_node(probe) {
                    Some(x) => {
                        let ghost e_old = edges@;
                        edges.push(SyncEdge::new(t, x as u32));
                        proof {
                            lemma_common_edge_justified(edges@[edges@.len() - 1], sid_cur as int,
                                indexes@[e as int].1@, recs@, cur_ids@, graph, *net);
                            assert forall|l: int|
                                0 <= l < edges@.len() implies edge_justified(
                                #[trigger] edges@[l],
                                graph.sync_graph@[sid_cur as int],
                                graph,
                                *net,
                            ) by {
                                if l < edges@.len() - 1 {
                                    assert(edges@[l] == e_old[l]);
                                }
                            }
                        }
                    },
                    None => {
                        if graph.sync_graph.len() >= u32::MAX as usize {
                            proof {
                                assert(graph_wf(graph, *net) && graph.sync_graph@.len()
                                    >= u32::MAX);
                            }
                            return None;
                        }
                        let new_sid = graph.sync_graph.len();
                        let ghost e_old = edges@;
                        edges.push(SyncEdge::new(t, new_sid as u32));
                        let ghost g_before = graph;
                        let ghost nr = new_recs@;
                        graph.sync_graph.push(SyncMarking {
                            segment_ids: new_ids,
                            edges: Vec::new(),
                        });
                        proof {
                            lemma_graph_wf_push_node(g_before, graph, *net,
                                graph.sync_graph@[new_sid as int]);
                            assert(graph.sync_graph@[sid_cur as int]
                                == g_before.sync_graph@[sid_cur as int]);
                            assert(graph.sync_graph@[0] == g_before.sync_graph@[0]);
                            lemma_common_edge_justified(edges@[edges@.len() - 1], sid_cur as int,
                                indexes@[e as int].1@, recs@, cur_ids@, graph, *net);
                            assert forall|l: int|
                                0 <= l < edges@.len() implies edge_justified(
                                #[trigger] edges@[l],
                                graph.sync_graph@[sid_cur as int],
                                graph,
                                *net,
                            ) by {
                                if l < edges@.len() - 1 {
                                    assert(edges@[l] == e_old[l]);
                                    lemma_edge_justified_stable(edges@[l],
                                        g_before.sync_graph@[sid_cur as int], g_before, graph,
                                        *net);
                                }
                            }
                        }
                        to_explore.push((new_sid, new_recs));
                        proof {
                            assert forall|j: int|
                                0 <= j < to_explore@.len() implies job_wf(
                                (#[trigger] to_explore@[j]).0,
                                to_explore@[j].1@,
                                graph,
                                *net,
                            ) by {
                                if j < to_explore@.len() - 1 {
                                    lemma_job_wf_stable(to_explore@[j].0, to_explore@[j].1@,
                                        g_before, graph, *net);
                                } else {
                                    assert(to_explore@[j].0 == new_sid);
                                    assert(to_explore@[j].1@ == nr);
                                    assert(graph.sync_graph@[new_sid as int].segment_ids@
                                        == g_before.sync_graph@.push(
                                        graph.sync_graph@[new_sid as int]).last().segment_ids@);
                                }
                            }
                        }
                    },
                }
            }
            e += 1;
        }
        let ghost g_fin = graph;
        let ghost edges_v = edges@;
        graph.sync_graph[sid_cur].edges = edges;
        proof {
            assert(graph.sync_graph@ =~= g_fin.sync_graph@.update(
                sid_cur as int,
                graph.sync_graph@[sid_cur as int],
            ));
            assert(graph.sync_graph@[sid_cur as int].segment_ids@
                == g_fin.sync_graph@[sid_cur as int].segment_ids@);
            assert forall|k: int|
                0 <= k < graph.sync_graph@[sid_cur as int].edges@.len() implies edge_justified(
                (#[trigger] graph.sync_graph@[sid_cur as int].edges@[k]),
                graph.sync_graph@[sid_cur as int],
                graph,
                *net,
            ) by {
                lemma_edge_justified_node_edges(edges_v[k], g_fin.sync_graph@[sid_cur as int],
                    graph.sync_graph@[sid_cur as int], g_fin, graph, *net);
            }
            lemma_graph_wf_set_edges(g_fin, graph, *net, sid_cur as int);
            assert forall|j: int|
                0 <= j < to_explore@.len() implies job_wf(
                (#[trigger] to_explore@[j]).0,
                to_explore@[j].1@,
                graph,
                *net,
            ) by {
                assert(job_wf(to_explore@[j].0, to_explore@[j].1@, g_fin, *net));
                assert(graph.sync_graph@[to_explore@[j].0 as int].segment_ids@
                    == g_fin.sync_graph@[to_explore@[j].0 as int].segment_ids@);
            }
        }
    }
    Some(graph)
}

} // verus!
