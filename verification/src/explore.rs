//! The segment explorer: the closure of a seed set under internal-transition
//! firing, recording where interface transitions are enabled.

use vstd::prelude::*;
use crate::marking::{Marking, wf_marking, wf_pcs, pcs_count};
use crate::net::{PetrinetModul, TransitionId, enabled, firable_inv, fired_count, module_wf, proper};
use crate::graph::{GraphEdge, GraphMarking, Id, MarkingId, Segment, seg_ids_ok, segment_wf};
use crate::kernel::{clone_ids, fire, fire_fits};

verus! {

/// One observation made during exploration: interface transition
/// `transition_id` was found enabled at the marking with id `marking_id`,
/// whose full firable set is `firable`.
#[derive(Debug)]
pub struct EnabledRecord {
    pub transition_id: TransitionId,
    pub marking_id: MarkingId,
    pub firable: Vec<TransitionId>,
}

/// A record is sound for a segment: it points at one of its markings, the
/// snapshot is that marking's firable set, and the interface transition is
/// in it (hence enabled there).
pub open spec fn record_wf(r: EnabledRecord, m: PetrinetModul, s: Segment, intern_start: u32) -> bool {
    &&& r.transition_id < intern_start
    &&& s.marking_offset <= r.marking_id
    &&& r.marking_id - s.marking_offset < s.markings@.len()
    &&& firable_inv(m, s.markings@[r.marking_id - s.marking_offset].marking@, r.firable@)
    &&& r.firable@.contains(r.transition_id)
}

/// The pair-sequence views of a marking list.
pub open spec fn views_of(v: Seq<Marking>) -> Seq<Seq<crate::marking::PlaceCount>> {
    v.map_values(|mk: Marking| mk@)
}

/// `mk` is reachable from the seed views in at most `n` internal firings:
/// it is a seed, or the canonical result of firing one enabled internal
/// transition at a marking reachable in fewer steps.
pub open spec fn reaches_in(
    m: PetrinetModul,
    seeds: Seq<Seq<crate::marking::PlaceCount>>,
    mk: Seq<crate::marking::PlaceCount>,
    intern_start: u32,
    n: nat,
) -> bool
    decreases n,
{
    (exists|i: int| 0 <= i < seeds.len() && #[trigger] seeds[i] == mk) || (n > 0 && exists|
        pre: Seq<crate::marking::PlaceCount>,
        t: u32,
    |
        {
            &&& reaches_in(m, seeds, pre, intern_start, (n - 1) as nat)
            &&& intern_start <= t < m.transitions@.len()
            &&& proper(m, t)
            &&& #[trigger] enabled(m, pre, t)
            &&& wf_pcs(mk)
            &&& forall|p: u32| pcs_count(mk, p) == fired_count(m, pre, t, p)
        })
}

/// `mk` is reachable from the seed views by internal firings alone.
pub open spec fn internally_reachable(
    m: PetrinetModul,
    seeds: Seq<Seq<crate::marking::PlaceCount>>,
    mk: Seq<crate::marking::PlaceCount>,
    intern_start: u32,
) -> bool {
    exists|n: nat| reaches_in(m, seeds, mk, intern_start, n)
}

/// Every seed view is reachable.
proof fn lemma_reach_seed(
    m: PetrinetModul,
    seeds: Seq<Seq<crate::marking::PlaceCount>>,
    i: int,
    intern_start: u32,
)
    requires
        0 <= i < seeds.len(),
    ensures
        internally_reachable(m, seeds, seeds[i], intern_start),
{
    assert(reaches_in(m, seeds, seeds[i], intern_start, 0));
}

/// One internal firing keeps reachability.
proof fn lemma_reach_step(
    m: PetrinetModul,
    seeds: Seq<Seq<crate::marking::PlaceCount>>,
    pre: Seq<crate::marking::PlaceCount>,
    mk: Seq<crate::marking::PlaceCount>,
    intern_start: u32,
    t: u32,
)
    requires
        internally_reachable(m, seeds, pre, intern_start),
        intern_start <= t < m.transitions@.len(),
        proper(m, t),
        enabled(m, pre, t),
        wf_pcs(mk),
        forall|p: u32| pcs_count(mk, p) == fired_count(m, pre, t, p),
    ensures
        internally_reachable(m, seeds, mk, intern_start),
{
    let n = choose|n: nat| reaches_in(m, seeds, pre, intern_start, n);
    assert(reaches_in(m, seeds, mk, intern_start, n + 1));
}

/// Why an exploration cannot be completed: the seeds alone overrun the
/// marking-id space, an internal firing at a reachable marking would push a
/// place count past `u32::MAX`, or the distinct markings reached beyond the
/// seeds (together with the seeds and the starting id) exhaust the id
/// space.
pub open spec fn exploration_blame(
    m: PetrinetModul,
    seeds: Seq<Seq<crate::marking::PlaceCount>>,
    start_marking_id: u32,
    intern_start: u32,
) -> bool {
    ||| start_marking_id + seeds.len() > u32::MAX
    ||| exists|mk: Seq<crate::marking::PlaceCount>, t: u32|
        #![trigger enabled(m, mk, t)]
        {
            &&& internally_reachable(m, seeds, mk, intern_start)
            &&& intern_start <= t < m.transitions@.len()
            &&& proper(m, t)
            &&& enabled(m, mk, t)
            &&& exists|p: u32| fired_count(m, mk, t, p) > u32::MAX
        }
    ||| exists|extra: Seq<Seq<crate::marking::PlaceCount>>|
        #![trigger extra.len()]
        {
            &&& extra.len() + start_marking_id + seeds.len() >= u32::MAX
            &&& forall|x: int|
                0 <= x < extra.len() ==> internally_reachable(
                    m,
                    seeds,
                    #[trigger] extra[x],
                    intern_start,
                )
            &&& forall|x: int, y: int| 0 <= x < y < extra.len() ==> extra[x] != extra[y]
            &&& forall|x: int, k: int|
                0 <= x < extra.len() && 0 <= k < seeds.len() ==> (#[trigger] extra[x]) != (
                #[trigger] seeds[k])
        }
}

/// Record completeness for a segment: every interface transition enabled
/// at an installed marking is recorded for that marking.
pub open spec fn records_complete(
    seg: Segment,
    recs: Seq<EnabledRecord>,
    m: PetrinetModul,
    intern_start: u32,
) -> bool {
    forall|ii: int, t: u32|
        0 <= ii < seg.markings@.len() && t < intern_start && t < m.transitions@.len()
            && #[trigger] proper(m, t) && enabled(m, (#[trigger] seg.markings@[ii]).marking@, t)
            ==> exists|k: int|
            0 <= k < recs.len() && (#[trigger] recs[k]).transition_id == t && recs[k].marking_id
                == seg.marking_offset + ii
}

/// Append one record per interface transition of `f`, all pointing at
/// marking `id`.
fn push_records(
    records: &mut Vec<EnabledRecord>,
    f: &Vec<TransitionId>,
    id: MarkingId,
    intern_start: u32,
)
    ensures
        old(records)@.len() <= final(records)@.len(),
        forall|k: int|
            0 <= k < old(records)@.len() ==> #[trigger] final(records)@[k] == old(records)@[k],
        forall|k: int|
            old(records)@.len() <= k < final(records)@.len() ==> {
                let r = #[trigger] final(records)@[k];
                &&& r.transition_id < intern_start
                &&& r.marking_id == id
                &&& r.firable@ == f@
                &&& f@.contains(r.transition_id)
            },
        forall|j: int|
            0 <= j < f@.len() && (#[trigger] f@[j]) < intern_start ==> exists|k: int|
                0 <= k < final(records)@.len() && (#[trigger] final(records)@[k]).transition_id
                    == f@[j] && final(records)@[k].marking_id == id,
{
    let ghost r0 = records@;
    let mut k: usize = 0;
    while k < f.len()
        invariant
            k <= f@.len(),
            r0.len() <= records@.len(),
            forall|j: int| 0 <= j < r0.len() ==> #[trigger] records@[j] == r0[j],
            forall|j: int|
                r0.len() <= j < records@.len() ==> {
                    let r = #[trigger] records@[j];
                    &&& r.transition_id < intern_start
                    &&& r.marking_id == id
                    &&& r.firable@ == f@
                    &&& f@.contains(r.transition_id)
                },
            forall|j: int|
                0 <= j < k && (#[trigger] f@[j]) < intern_start ==> exists|kk: int|
                    0 <= kk < records@.len() && (#[trigger] records@[kk]).transition_id == f@[j]
                        && records@[kk].marking_id == id,
        decreases f@.len() - k,
    {
        let t = f[k];
        let ghost rb = records@;
        if t < intern_start {
            let snap = clone_ids(f);
            records.push(EnabledRecord { transition_id: t, marking_id: id, firable: snap });
        }
        proof {
            assert forall|j: int|
                0 <= j < k + 1 && (#[trigger] f@[j]) < intern_start implies exists|kk: int|
                0 <= kk < records@.len() && (#[trigger] records@[kk]).transition_id == f@[j]
                    && records@[kk].marking_id == id by {
                if j == k {
                    assert(records@[records@.len() - 1].transition_id == t);
                } else {
                    let kk = choose|kk: int|
                        0 <= kk < rb.len() && (#[trigger] rb[kk]).transition_id == f@[j]
                            && rb[kk].marking_id == id;
                    assert(records@[kk] == rb[kk]);
                }
            }
        }
        k += 1;
    }
}

/// Build the closure of the seed markings under internal-transition firing.
///
/// Each seed receives the next sequential marking id; every newly reached
/// marking is installed once (structural equality decides reuse) and the
/// fired internal transitions become edges.  Interface transitions are never
/// fired, only recorded.  Returns `None` when a marking id or a place count
/// would have to pass `u32::MAX`.
pub fn explore_segment(
    module: &PetrinetModul,
    markings: &Vec<Marking>,
    firables: &Vec<Vec<TransitionId>>,
    seg_id: Id,
    intern_start: TransitionId,
    start_marking_id: MarkingId,
) -> (res: Option<(Segment, Vec<EnabledRecord>, MarkingId)>)
    requires
        module_wf(*module),
        markings@.len() == firables@.len(),
        forall|i: int| 0 <= i < markings@.len() ==> wf_marking(#[trigger] markings@[i]),
        forall|i: int|
            0 <= i < markings@.len() ==> firable_inv(
                *module,
                markings@[i]@,
                (#[trigger] firables@[i])@,
            ),
    ensures
        res matches Some(out) ==> {
            let (seg, recs, next) = out;
            &&& seg.id == seg_id
            &&& seg.marking_offset == start_marking_id
            &&& segment_wf(seg, *module, intern_start)
            &&& markings@.len() <= seg.markings@.len()
            &&& start_marking_id + seg.markings@.len() <= u32::MAX
            &&& next == start_marking_id + seg.markings@.len()
            &&& forall|i: int|
                0 <= i < markings@.len() ==> (#[trigger] seg.markings@[i]).marking@
                    == markings@[i]@
            &&& forall|k: int|
                0 <= k < recs@.len() ==> record_wf(#[trigger] recs@[k], *module, seg, intern_start)
            &&& records_complete(seg, recs@, *module, intern_start)
            &&& forall|ii: int|
                0 <= ii < seg.markings@.len() ==> internally_reachable(
                    *module,
                    views_of(markings@),
                    (#[trigger] seg.markings@[ii]).marking@,
                    intern_start,
                )
            &&& (forall|i: int, j: int| 0 <= i < j < markings@.len() ==> markings@[i]@
                != markings@[j]@) ==> (forall|ii: int, jj: int|
                0 <= ii < jj < seg.markings@.len() ==> (#[trigger] seg.markings@[ii]).marking@ != (
                #[trigger] seg.markings@[jj]).marking@)
        },
        res is None ==> exploration_blame(
            *module,
            views_of(markings@),
            start_marking_id,
            intern_start,
        ),
{
    let mut segment = Segment { id: seg_id, marking_offset: start_marking_id, markings: Vec::new() };
    let mut records: Vec<EnabledRecord> = Vec::new();
    let mut queue: Vec<(MarkingId, Vec<TransitionId>)> = Vec::new();
    let ghost mut done: Set<u32> = Set::empty();

    // Install the seed markings.
    let mut i: usize = 0;
    while i < markings.len()
        invariant
            i <= markings@.len(),
            markings@.len() == firables@.len(),
            module_wf(*module),
            forall|ii: int| 0 <= ii < markings@.len() ==> wf_marking(#[trigger] markings@[ii]),
            forall|ii: int|
                0 <= ii < markings@.len() ==> firable_inv(
                    *module,
                    markings@[ii]@,
                    (#[trigger] firables@[ii])@,
                ),
            segment.id == seg_id,
            segment.marking_offset == start_marking_id,
            segment.markings@.len() == i,
            start_marking_id + i <= u32::MAX,
            done == Set::<u32>::empty(),
            forall|ii: int|
                0 <= ii < i ==> (#[trigger] segment.markings@[ii]).id == start_marking_id + ii,
            forall|ii: int|
                0 <= ii < i ==> (#[trigger] segment.markings@[ii]).marking@ == markings@[ii]@,
            forall|ii: int|
                0 <= ii < i ==> (#[trigger] segment.markings@[ii]).edges@.len() == 0,
            queue@.len() == i,
            forall|k: int|
                0 <= k < queue@.len() ==> (#[trigger] queue@[k]).0 == start_marking_id + k,
            forall|k: int|
                0 <= k < queue@.len() ==> (#[trigger] queue@[k]).1@ == firables@[k]@,
            forall|k: int|
                0 <= k < records@.len() ==> record_wf(
                    #[trigger] records@[k],
                    *module,
                    segment,
                    intern_start,
                ),
            records_complete(segment, records@, *module, intern_start),
            forall|ii: int|
                0 <= ii < segment.markings@.len() ==> internally_reachable(
                    *module,
                    views_of(markings@),
                    (#[trigger] segment.markings@[ii]).marking@,
                    intern_start,
                ),
        decreases markings@.len() - i,
    {
        if start_marking_id as u64 + i as u64 >= u32::MAX as u64 {
            proof {
                assert(start_marking_id + markings@.len() > u32::MAX);
            }
            return None;
        }
        let id = start_marking_id + i as u32;
        let ghost seg0 = segment;
        segment.markings.push(GraphMarking {
            id,
            marking: markings[i].clone(),
            edges: Vec::new(),
        });
        proof {
            assert forall|k: int|
                0 <= k < records@.len() implies record_wf(
                #[trigger] records@[k],
                *module,
                segment,
                intern_start,
            ) by {
                assert(record_wf(records@[k], *module, seg0, intern_start));
                assert(segment.markings@[records@[k].marking_id - start_marking_id]
                    == seg0.markings@[records@[k].marking_id - start_marking_id]);
            }
            assert forall|ii: int|
                0 <= ii < segment.markings@.len() implies internally_reachable(
                *module,
                views_of(markings@),
                (#[trigger] segment.markings@[ii]).marking@,
                intern_start,
            ) by {
                if ii < seg0.markings@.len() {
                    assert(segment.markings@[ii] == seg0.markings@[ii]);
                } else {
                    lemma_reach_seed(*module, views_of(markings@), i as int, intern_start);
                    assert(views_of(markings@)[i as int] == markings@[i as int]@);
                    assert(segment.markings@[ii].marking@ == markings@[i as int]@);
                }
            }
        }
        let ghost r_mid = records@;
        push_records(&mut records, &firables[i], id, intern_start);
        proof {
            assert forall|ii: int, t: u32|
                0 <= ii < segment.markings@.len() && t < intern_start && t
                    < module.transitions@.len() && #[trigger] proper(*module, t) && enabled(
                    *module,
                    (#[trigger] segment.markings@[ii]).marking@,
                    t,
                ) implies exists|k: int|
                0 <= k < records@.len() && (#[trigger] records@[k]).transition_id == t
                    && records@[k].marking_id == segment.marking_offset + ii by {
                if ii < seg0.markings@.len() {
                    assert(segment.markings@[ii] == seg0.markings@[ii]);
                    let k = choose|k: int|
                        0 <= k < r_mid.len() && (#[trigger] r_mid[k]).transition_id == t
                            && r_mid[k].marking_id == seg0.marking_offset + ii;
                    assert(records@[k] == r_mid[k]);
                } else {
                    assert(segment.markings@[ii].marking@ == markings@[i as int]@);
                    assert(firables@[i as int]@.contains(t));
                    let j = choose|j: int|
                        0 <= j < firables@[i as int]@.len() && firables@[i as int]@[j] == t;
                }
            }
        }
        queue.push((id, clone_ids(&firables[i])));
        i += 1;
    }

    proof {
        assert forall|ii: int|
            0 <= ii < segment.markings@.len() && !done.contains(
                (#[trigger] segment.markings@[ii]).id,
            ) implies exists|k: int|
            0 <= k < queue@.len() && (#[trigger] queue@[k]).0 == start_marking_id + ii by {
            assert(queue@[ii].0 == start_marking_id + ii);
        }
    }

    // Drain the work queue.
    while queue.len() > 0
        invariant
            markings@.len() == firables@.len(),
            module_wf(*module),
            segment.id == seg_id,
            segment.marking_offset == start_marking_id,
            markings@.len() <= segment.markings@.len(),
            start_marking_id + segment.markings@.len() <= u32::MAX,
            forall|ii: int|
                0 <= ii < segment.markings@.len() ==> (#[trigger] segment.markings@[ii]).id
                    == start_marking_id + ii,
            forall|ii: int|
                0 <= ii < segment.markings@.len() ==> wf_pcs(
                    (#[trigger] segment.markings@[ii]).marking@,
                ),
            forall|ii: int|
                0 <= ii < markings@.len() ==> (#[trigger] segment.markings@[ii]).marking@
                    == markings@[ii]@,
            forall|ii: int|
                0 <= ii < segment.markings@.len() ==> internally_reachable(
                    *module,
                    views_of(markings@),
                    (#[trigger] segment.markings@[ii]).marking@,
                    intern_start,
                ),
            forall|ii: int, jj: int|
                0 <= ii < jj < segment.markings@.len() && jj >= markings@.len() ==> (
                #[trigger] segment.markings@[ii]).marking@ != (
                #[trigger] segment.markings@[jj]).marking@,
            // Queue entries point at installed markings and carry their
            // firable sets.
            forall|k: int|
                0 <= k < queue@.len() ==> start_marking_id <= (#[trigger] queue@[k]).0
                    && queue@[k].0 - start_marking_id < segment.markings@.len(),
            forall|k: int|
                0 <= k < queue@.len() ==> firable_inv(
                    *module,
                    segment.markings@[(#[trigger] queue@[k]).0 - start_marking_id].marking@,
                    queue@[k].1@,
                ),
            forall|id: u32|
                #[trigger] done.contains(id) ==> start_marking_id <= id && id - start_marking_id
                    < segment.markings@.len(),
            // Every installed marking is either done or queued.
            forall|ii: int|
                0 <= ii < segment.markings@.len() && !done.contains(
                    (#[trigger] segment.markings@[ii]).id,
                ) ==> exists|k: int|
                    0 <= k < queue@.len() && (#[trigger] queue@[k]).0 == start_marking_id + ii,
            // Done markings have sound and complete edge lists.
            forall|ii: int, k: int|
                0 <= ii < segment.markings@.len() && done.contains(segment.markings@[ii].id)
                    && 0 <= k < segment.markings@[ii].edges@.len() ==> {
                    let e = #[trigger] segment.markings@[ii].edges@[k];
                    &&& intern_start <= e.transition_id < module.transitions@.len()
                    &&& proper(*module, e.transition_id)
                    &&& enabled(*module, segment.markings@[ii].marking@, e.transition_id)
                    &&& start_marking_id <= e.graph_marking_id < start_marking_id
                        + segment.markings@.len()
                    &&& forall|p: u32|
                        pcs_count(
                            segment.markings@[e.graph_marking_id - start_marking_id].marking@,
                            p,
                        ) == fired_count(
                            *module,
                            segment.markings@[ii].marking@,
                            e.transition_id,
                            p,
                        )
                    &&& forall|j: int|
                        0 <= j < e.graph_marking_id - start_marking_id ==> (
                        #[trigger] segment.markings@[j]).marking@
                            != segment.markings@[e.graph_marking_id - start_marking_id].marking@
                },
            forall|ii: int, t: u32|
                0 <= ii < segment.markings@.len() && done.contains(segment.markings@[ii].id)
                    && intern_start <= t < module.transitions@.len() && #[trigger] proper(
                    *module,
                    t,
                ) && enabled(*module, (#[trigger] segment.markings@[ii]).marking@, t)
                    ==> exists|k: int|
                    0 <= k < segment.markings@[ii].edges@.len() && (
                    #[trigger] segment.markings@[ii].edges@[k]).transition_id == t,
            forall|k: int|
                0 <= k < records@.len() ==> record_wf(
                    #[trigger] records@[k],
                    *module,
                    segment,
                    intern_start,
                ),
            records_complete(segment, records@, *module, intern_start),
        decreases 2 * (u32::MAX - start_marking_id - segment.markings@.len()) + queue@.len(),
    {
        let ghost q0 = queue@;
        let entry = queue.pop().unwrap();
        let mid = entry.0;
        let fir = entry.1;
        let idx = (mid - start_marking_id) as usize;
        let src_marking = segment.markings[idx].marking.clone();
        let ghost src = src_marking@;
        let mut edges: Vec<GraphEdge> = Vec::new();
        let ghost len0 = segment.markings@.len();
        proof {
            assert(queue@ =~= q0.subrange(0, q0.len() - 1));
            assert forall|ii: int|
                0 <= ii < segment.markings@.len() && ii != idx as int && !done.contains(
                    (#[trigger] segment.markings@[ii]).id,
                ) implies exists|kk: int|
                0 <= kk < queue@.len() && (#[trigger] queue@[kk]).0 == start_marking_id + ii by {
                let k = choose|k: int|
                    0 <= k < q0.len() && (#[trigger] q0[k]).0 == start_marking_id + ii;
                assert(k < q0.len() - 1);
                assert(queue@[k] == q0[k]);
            }
        }

        let mut k: usize = 0;
        while k < fir.len()
            invariant
                k <= fir@.len(),
                module_wf(*module),
                segment.id == seg_id,
                segment.marking_offset == start_marking_id,
                markings@.len() == firables@.len(),
                markings@.len() <= segment.markings@.len(),
                len0 <= segment.markings@.len(),
                start_marking_id + segment.markings@.len() <= u32::MAX,
                start_marking_id <= mid,
                idx == mid - start_marking_id,
                idx < len0,
                src == segment.markings@[idx as int].marking@,
                src_marking@ == src,
                wf_pcs(src),
                firable_inv(*module, src, fir@),
                forall|ii: int|
                    0 <= ii < segment.markings@.len() ==> (#[trigger] segment.markings@[ii]).id
                        == start_marking_id + ii,
                forall|ii: int|
                    0 <= ii < segment.markings@.len() ==> wf_pcs(
                        (#[trigger] segment.markings@[ii]).marking@,
                    ),
                forall|ii: int|
                    0 <= ii < markings@.len() ==> (#[trigger] segment.markings@[ii]).marking@
                        == markings@[ii]@,
                forall|ii: int|
                    0 <= ii < segment.markings@.len() ==> internally_reachable(
                        *module,
                        views_of(markings@),
                        (#[trigger] segment.markings@[ii]).marking@,
                        intern_start,
                    ),
                forall|ii: int, jj: int|
                    0 <= ii < jj < segment.markings@.len() && jj >= markings@.len() ==> (
                    #[trigger] segment.markings@[ii]).marking@ != (
                    #[trigger] segment.markings@[jj]).marking@,
                forall|kk: int|
                    0 <= kk < queue@.len() ==> start_marking_id <= (#[trigger] queue@[kk]).0
                        && queue@[kk].0 - start_marking_id < segment.markings@.len(),
                forall|kk: int|
                    0 <= kk < queue@.len() ==> firable_inv(
                        *module,
                        segment.markings@[(#[trigger] queue@[kk]).0 - start_marking_id].marking@,
                        queue@[kk].1@,
                    ),
                forall|id: u32|
                    #[trigger] done.contains(id) ==> start_marking_id <= id && id
                        - start_marking_id < segment.markings@.len(),
                forall|ii: int|
                    0 <= ii < segment.markings@.len() && ii != idx && !done.contains(
                        (#[trigger] segment.markings@[ii]).id,
                    ) ==> exists|kk: int|
                        0 <= kk < queue@.len() && (#[trigger] queue@[kk]).0 == start_marking_id
                            + ii,
                forall|ii: int, kk: int|
                    0 <= ii < segment.markings@.len() && done.contains(segment.markings@[ii].id)
                        && 0 <= kk < segment.markings@[ii].edges@.len() ==> {
                        let e = #[trigger] segment.markings@[ii].edges@[kk];
                        &&& intern_start <= e.transition_id < module.transitions@.len()
                        &&& proper(*module, e.transition_id)
                        &&& enabled(*module, segment.markings@[ii].marking@, e.transition_id)
                        &&& start_marking_id <= e.graph_marking_id < start_marking_id
                            + segment.markings@.len()
                        &&& forall|p: u32|
                            pcs_count(
                                segment.markings@[e.graph_marking_id - start_marking_id].marking@,
                                p,
                            ) == fired_count(
                                *module,
                                segment.markings@[ii].marking@,
                                e.transition_id,
                                p,
                            )
                        &&& forall|j: int|
                            0 <= j < e.graph_marking_id - start_marking_id ==> (
                            #[trigger] segment.markings@[j]).marking@
                                != segment.markings@[e.graph_marking_id - start_marking_id].marking@
                    },
                forall|ii: int, t: u32|
                    0 <= ii < segment.markings@.len() && done.contains(segment.markings@[ii].id)
                        && intern_start <= t < module.transitions@.len() && #[trigger] proper(
                        *module,
                        t,
                    ) && enabled(*module, (#[trigger] segment.markings@[ii]).marking@, t)
                        ==> exists|kk: int|
                        0 <= kk < segment.markings@[ii].edges@.len() && (
                        #[trigger] segment.markings@[ii].edges@[kk]).transition_id == t,
                forall|kk: int|
                    0 <= kk < records@.len() ==> record_wf(
                        #[trigger] records@[kk],
                        *module,
                        segment,
                        intern_start,
                    ),
                records_complete(segment, records@, *module, intern_start),
                // Edges collected so far: sound, and complete for the
                // prefix of the firable list already processed.
                forall|l: int|
                    0 <= l < edges@.len() ==> {
                        let e = #[trigger] edges@[l];
                        &&& intern_start <= e.transition_id < module.transitions@.len()
                        &&& proper(*module, e.transition_id)
                        &&& enabled(*module, src, e.transition_id)
                        &&& start_marking_id <= e.graph_marking_id < start_marking_id
                            + segment.markings@.len()
                        &&& forall|p: u32|
                            pcs_count(
                                segment.markings@[e.graph_marking_id - start_marking_id].marking@,
                                p,
                            ) == fired_count(*module, src, e.transition_id, p)
                        &&& forall|j: int|
                            0 <= j < e.graph_marking_id - start_marking_id ==> (
                            #[trigger] segment.markings@[j]).marking@
                                != segment.markings@[e.graph_marking_id - start_marking_id].marking@
                    },
                forall|j: int|
                    0 <= j < k && (#[trigger] fir@[j]) >= intern_start ==> exists|l: int|
                        0 <= l < edges@.len() && (#[trigger] edges@[l]).transition_id == fir@[j],
                2 * (u32::MAX - start_marking_id - segment.markings@.len()) + queue@.len() <= 2 * (
                u32::MAX - start_marking_id - len0) + q0.len() - 1,
            decreases fir@.len() - k,
        {
            let t = fir[k];
            if t >= intern_start {
                proof {
                    assert(fir@.contains(t));
                }
                if !fire_fits(module, &src_marking, t) {
                    proof {
                        let p = choose|p: u32| fired_count(*module, src, t, p) > u32::MAX;
                        assert(internally_reachable(*module, views_of(markings@), src,
                            intern_start));
                        assert(enabled(*module, src, t));
                    }
                    return None;
                }
                let fired = fire(module, &src_marking, &fir, t);
                let new_marking = fired.0;
                let new_firable = fired.1;
                let target_id: u32;
                match segment.search_equal_marking(&new_marking) {
                    Some(x) => {
                        target_id = x;
                    },
                    None => {
                        if start_marking_id as u64 + segment.markings.len() as u64 >= u32::MAX
                            as u64 {
                            proof {
                                let sl = markings@.len() as int;
                                let extra = segment.markings@.skip(sl).map_values(
                                    |gm: GraphMarking| gm.marking@,
                                );
                                assert(extra.len() == segment.markings@.len() - sl);
                                assert forall|x: int|
                                    0 <= x < extra.len() implies #[trigger] extra[x]
                                    == segment.markings@[sl + x].marking@ by {
                                    assert(segment.markings@.skip(sl)[x]
                                        == segment.markings@[sl + x]);
                                }
                                assert(extra.len() + start_marking_id + markings@.len()
                                    >= u32::MAX);
                                assert forall|x: int|
                                    0 <= x < extra.len() implies internally_reachable(
                                    *module,
                                    views_of(markings@),
                                    #[trigger] extra[x],
                                    intern_start,
                                ) by {}
                                assert forall|x: int, y: int|
                                    0 <= x < y < extra.len() implies extra[x] != extra[y] by {}
                                assert forall|x: int, k2: int|
                                    0 <= x < extra.len() && 0 <= k2 < markings@.len() implies (
                                #[trigger] extra[x]) != (#[trigger] markings@[k2])@ by {
                                    assert(segment.markings@[k2].marking@ == markings@[k2]@);
                                }
                            }
                            return None;
                        }
                        let new_id = start_marking_id + segment.markings.len() as u32;
                        let ghost r_mid = records@;
                        push_records(&mut records, &new_firable, new_id, intern_start);
                        let ghost seg0 = segment;
                        let ghost recs0 = records@;
                        let ghost qb = queue@;
                        queue.push((new_id, clone_ids(&new_firable)));
                        segment.markings.push(GraphMarking {
                            id: new_id,
                            marking: new_marking,
                            edges: Vec::new(),
                        });
                        proof {
                            assert forall|ii: int|
                                0 <= ii < segment.markings@.len() && ii != idx as int
                                    && !done.contains(
                                    (#[trigger] segment.markings@[ii]).id,
                                ) implies exists|kk: int|
                                0 <= kk < queue@.len() && (#[trigger] queue@[kk]).0
                                    == start_marking_id + ii by {
                                if ii == seg0.markings@.len() as int {
                                    assert(queue@[queue@.len() - 1].0 == new_id);
                                } else {
                                    assert(segment.markings@[ii] == seg0.markings@[ii]);
                                    let kk = choose|kk: int|
                                        0 <= kk < qb.len() && (#[trigger] qb[kk]).0
                                            == start_marking_id + ii;
                                    assert(queue@[kk] == qb[kk]);
                                }
                            }
                            assert forall|kk: int|
                                0 <= kk < records@.len() implies record_wf(
                                #[trigger] records@[kk],
                                *module,
                                segment,
                                intern_start,
                            ) by {
                                let r = records@[kk];
                                if r.marking_id < new_id {
                                    assert(segment.markings@[r.marking_id - start_marking_id]
                                        == seg0.markings@[r.marking_id - start_marking_id]);
                                    assert(record_wf(r, *module, seg0, intern_start));
                                } else {
                                    assert(r.marking_id == new_id);
                                    assert(segment.markings@[new_id - start_marking_id].marking@
                                        == new_marking@);
                                }
                            }
                            assert forall|ii: int|
                                0 <= ii < segment.markings@.len() implies internally_reachable(
                                *module,
                                views_of(markings@),
                                (#[trigger] segment.markings@[ii]).marking@,
                                intern_start,
                            ) by {
                                if ii < seg0.markings@.len() {
                                    assert(segment.markings@[ii] == seg0.markings@[ii]);
                                } else {
                                    assert(segment.markings@[ii].marking@ == new_marking@);
                                    lemma_reach_step(*module, views_of(markings@), src,
                                        new_marking@, intern_start, t);
                                }
                            }
                            assert forall|ii: int, t: u32|
                                0 <= ii < segment.markings@.len() && t < intern_start && t
                                    < module.transitions@.len() && #[trigger] proper(*module, t)
                                    && enabled(
                                    *module,
                                    (#[trigger] segment.markings@[ii]).marking@,
                                    t,
                                ) implies exists|k: int|
                                0 <= k < records@.len() && (#[trigger] records@[k]).transition_id
                                    == t && records@[k].marking_id == segment.marking_offset
                                    + ii by {
                                if ii < seg0.markings@.len() {
                                    assert(segment.markings@[ii] == seg0.markings@[ii]);
                                    let k = choose|k: int|
                                        0 <= k < r_mid.len() && (#[trigger] r_mid[k]).transition_id
                                            == t && r_mid[k].marking_id
                                            == seg0.marking_offset + ii;
                                    assert(records@[k] == r_mid[k]);
                                } else {
                                    assert(segment.markings@[ii].marking@ == new_marking@);
                                    assert(new_firable@.contains(t));
                                    let j = choose|j: int|
                                        0 <= j < new_firable@.len() && new_firable@[j] == t;
                                }
                            }
                        }
                        target_id = new_id;
                    },
                }
                let ghost e0 = edges@;
                edges.push(GraphEdge::new(t, target_id));
                proof {
                    assert forall|j: int|
                        0 <= j < k + 1 && (#[trigger] fir@[j]) >= intern_start implies exists|
                        l: int,
                    |
                        0 <= l < edges@.len() && (#[trigger] edges@[l]).transition_id
                            == fir@[j] by {
                        if j == k {
                            assert(edges@[edges@.len() - 1].transition_id == t);
                        } else {
                            let l = choose|l: int|
                                0 <= l < e0.len() && (#[trigger] e0[l]).transition_id == fir@[j];
                            assert(edges@[l] == e0[l]);
                        }
                    }
                }
            }
            k += 1;
        }
        let ghost edges_v = edges@;
        let ghost seg_pre = segment;
        segment.markings[idx].edges = edges;
        proof {
            done = done.insert(mid);
            assert(segment.markings@ == seg_pre.markings@.update(
                idx as int,
                segment.markings@[idx as int],
            ));
            assert(segment.markings@[idx as int].marking@ == src);
            assert(segment.markings@[idx as int].edges@ == edges_v);
            assert forall|ii: int|
                0 <= ii < segment.markings@.len() && ii != idx as int implies
                #[trigger] segment.markings@[ii] == seg_pre.markings@[ii] by {}
            assert forall|kk: int|
                0 <= kk < records@.len() implies record_wf(
                #[trigger] records@[kk],
                *module,
                segment,
                intern_start,
            ) by {
                let r = records@[kk];
                assert(record_wf(r, *module, seg_pre, intern_start));
                assert(segment.markings@[r.marking_id - start_marking_id].marking@
                    == seg_pre.markings@[r.marking_id - start_marking_id].marking@);
            }
            assert forall|ii: int, t: u32|
                0 <= ii < segment.markings@.len() && t < intern_start && t
                    < module.transitions@.len() && #[trigger] proper(*module, t) && enabled(
                    *module,
                    (#[trigger] segment.markings@[ii]).marking@,
                    t,
                ) implies exists|k: int|
                0 <= k < records@.len() && (#[trigger] records@[k]).transition_id == t
                    && records@[k].marking_id == segment.marking_offset + ii by {
                assert(segment.markings@[ii].marking@ == seg_pre.markings@[ii].marking@);
            }
            // The freshly closed marking has sound and complete edges.
            assert forall|ii: int, t: u32|
                0 <= ii < segment.markings@.len() && done.contains(segment.markings@[ii].id)
                    && intern_start <= t < module.transitions@.len() && #[trigger] proper(
                    *module,
                    t,
                ) && enabled(*module, (#[trigger] segment.markings@[ii]).marking@, t)
                    implies exists|kk: int|
                0 <= kk < segment.markings@[ii].edges@.len() && (
                #[trigger] segment.markings@[ii].edges@[kk]).transition_id == t by {
                if ii == idx as int {
                    assert(fir@.contains(t));
                    let j = choose|j: int| 0 <= j < fir@.len() && fir@[j] == t;
                    assert(fir@[j] >= intern_start);
                    let l = choose|l: int|
                        0 <= l < edges_v.len() && (#[trigger] edges_v[l]).transition_id == fir@[j];
                    assert(segment.markings@[ii].edges@[l].transition_id == t);
                } else {
                    assert(seg_pre.markings@[ii] == segment.markings@[ii]);
                    assert(done.remove(mid).contains(seg_pre.markings@[ii].id)
                        || seg_pre.markings@[ii].id == mid);
                    assert(seg_pre.markings@[ii].id == start_marking_id + ii);
                    assert(seg_pre.markings@[ii].id != mid);
                }
            }
        }
    }

    proof {
        assert forall|ii: int|
            0 <= ii < segment.markings@.len() implies done.contains(
            (#[trigger] segment.markings@[ii]).id,
        ) by {}
    }
    let next = start_marking_id + segment.markings.len() as u32;
    Some((segment, records, next))
}

} // verus!
