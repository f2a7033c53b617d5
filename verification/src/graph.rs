//! The two-level reachability graph: per-module segments of markings linked
//! by internal firings, and the top-level sync graph over segment tuples.

use vstd::prelude::*;
use crate::marking::{Marking, PlaceCount, pcs_count, wf_pcs};
use crate::net::{
    ModuleId, PetrinetModul, TransitionId, enabled, fired_count, firable_inv, proper,
};

verus! {

pub type Id = u32;

pub type MarkingId = Id;

pub type SegmentId = Id;

/// An internal edge: transition fired and target marking id.
#[derive(Debug, PartialEq, Eq, Structural, Clone, Copy)]
pub struct GraphEdge {
    pub transition_id: Id,
    pub graph_marking_id: Id,
}

impl GraphEdge {
    pub fn new(transition_id: Id, graph_marking_id: Id) -> (r: Self)
        ensures
            r.transition_id == transition_id,
            r.graph_marking_id == graph_marking_id,
    {
        GraphEdge { transition_id, graph_marking_id }
    }
}

/// A marking installed in a segment, with its module-wide id and its
/// outgoing internal edges.
#[derive(Debug)]
pub struct GraphMarking {
    pub id: Id,
    pub marking: Marking,
    pub edges: Vec<GraphEdge>,
}

/// A segment: the markings reachable from its seeds by internal firings
/// alone.  Marking ids are contiguous starting at `marking_offset`.
#[derive(Debug)]
pub struct Segment {
    pub id: Id,
    pub marking_offset: Id,
    pub markings: Vec<GraphMarking>,
}

/// A sync edge: interface transition fired and target sync node id.
#[derive(Debug, PartialEq, Eq, Structural, Clone, Copy)]
pub struct SyncEdge {
    pub transition_id: Id,
    pub sync_marking_id: Id,
}

impl SyncEdge {
    pub fn new(t_id: Id, sm_id: Id) -> (r: Self)
        ensures
            r.transition_id == t_id,
            r.sync_marking_id == sm_id,
    {
        SyncEdge { transition_id: t_id, sync_marking_id: sm_id }
    }
}

/// A sync node: one current segment id per module, plus its outgoing sync
/// edges.  Two sync nodes are the same state exactly when their segment-id
/// tuples agree.
#[derive(Debug)]
pub struct SyncMarking {
    pub segment_ids: Vec<Id>,
    pub edges: Vec<SyncEdge>,
}

/// One entry of a segment's interface-edge ledger: for an interface
/// transition that exits the segment, the `(source marking, seed marking)`
/// pairs that its firing produced.
#[derive(Debug)]
pub struct LedgerEntry {
    pub transition_id: TransitionId,
    pub links: Vec<(MarkingId, MarkingId)>,
}

/// A segment as installed in the graph, together with its ledger.
#[derive(Debug)]
pub struct StoredSegment {
    pub segment: Segment,
    pub ledger: Vec<LedgerEntry>,
}

/// One module's slice of the graph: its segments and the next free marking
/// id.
#[derive(Debug)]
pub struct ModuleStore {
    pub segments: Vec<StoredSegment>,
    pub next_marking_id: MarkingId,
}

/// The whole synchronous reachability graph.
#[derive(Debug)]
pub struct Graph {
    pub sync_graph: Vec<SyncMarking>,
    pub segment_storage: Vec<ModuleStore>,
}

/// Marking ids within a segment are `marking_offset`, `marking_offset + 1`,
/// and so on, in installation order.
pub open spec fn seg_ids_ok(s: Segment) -> bool {
    forall|i: int|
        0 <= i < s.markings@.len() ==> (#[trigger] s.markings@[i]).id == s.marking_offset + i
}

/// Full well-formedness of a segment against its module: canonical
/// markings, contiguous ids, and outgoing edges that are exactly the
/// internal firings enabled at each marking, each landing inside the
/// segment on the first installed marking equal to the one the firing
/// produces.
pub open spec fn segment_wf(s: Segment, m: PetrinetModul, intern_start: u32) -> bool {
    &&& seg_ids_ok(s)
    &&& forall|i: int| 0 <= i < s.markings@.len() ==> wf_pcs((#[trigger] s.markings@[i]).marking@)
    &&& forall|i: int, k: int|
        0 <= i < s.markings@.len() && 0 <= k < s.markings@[i].edges@.len() ==> {
            let e = #[trigger] s.markings@[i].edges@[k];
            &&& intern_start <= e.transition_id < m.transitions@.len()
            &&& proper(m, e.transition_id)
            &&& enabled(m, s.markings@[i].marking@, e.transition_id)
            &&& s.marking_offset <= e.graph_marking_id < s.marking_offset + s.markings@.len()
            &&& forall|p: u32|
                pcs_count(
                    s.markings@[e.graph_marking_id - s.marking_offset].marking@,
                    p,
                ) == fired_count(m, s.markings@[i].marking@, e.transition_id, p)
            &&& forall|j: int|
                0 <= j < e.graph_marking_id - s.marking_offset ==> (#[trigger] s.markings@[j]).marking@
                    != s.markings@[e.graph_marking_id - s.marking_offset].marking@
        }
    &&& forall|i: int, t: u32|
        0 <= i < s.markings@.len() && intern_start <= t < m.transitions@.len() && #[trigger] proper(
            m,
            t,
        ) && enabled(m, (#[trigger] s.markings@[i]).marking@, t) ==> exists|k: int|
            0 <= k < s.markings@[i].edges@.len() && (#[trigger] s.markings@[i].edges@[k]).transition_id
                == t
}

/// How many markings of a segment equal `v`.
pub open spec fn mk_count(ms: Seq<GraphMarking>, v: Seq<PlaceCount>) -> int
    decreases ms.len(),
{
    if ms.len() == 0 {
        0
    } else if ms[0].marking@ == v {
        1 + mk_count(ms.drop_first(), v)
    } else {
        mk_count(ms.drop_first(), v)
    }
}

/// Two segments are equivalent when they hold the same multiset of
/// markings: the same number of markings, and every marking value the same
/// number of times.
pub open spec fn seg_equiv(a: Segment, b: Segment) -> bool {
    &&& a.markings@.len() == b.markings@.len()
    &&& forall|v: Seq<PlaceCount>| mk_count(a.markings@, v) == mk_count(b.markings@, v)
}

proof fn lemma_mk_count_push(ms: Seq<GraphMarking>, e: GraphMarking, v: Seq<PlaceCount>)
    ensures
        mk_count(ms.push(e), v) == mk_count(ms, v) + (if e.marking@ == v {
            1int
        } else {
            0int
        }),
    decreases ms.len(),
{
    if ms.len() == 0 {
        assert(ms.push(e)[0] == e);
        assert(ms.push(e).drop_first() =~= Seq::<GraphMarking>::empty());
        assert(mk_count(Seq::<GraphMarking>::empty(), v) == 0);
    } else {
        assert(ms.push(e)[0] == ms[0]);
        assert(ms.push(e).drop_first() =~= ms.drop_first().push(e));
        lemma_mk_count_push(ms.drop_first(), e, v);
    }
}

proof fn lemma_mk_count_prefix(ms: Seq<GraphMarking>, i: int)
    requires
        0 <= i < ms.len(),
    ensures
        forall|v: Seq<PlaceCount>|
            mk_count(#[trigger] ms.subrange(0, i + 1), v) == mk_count(ms.subrange(0, i), v)
                + (if ms[i].marking@ == v {
                1int
            } else {
                0int
            }),
{
    assert(ms.subrange(0, i + 1) =~= ms.subrange(0, i).push(ms[i]));
    assert forall|v: Seq<PlaceCount>|
        mk_count(#[trigger] ms.subrange(0, i + 1), v) == mk_count(ms.subrange(0, i), v)
            + (if ms[i].marking@ == v {
            1int
        } else {
            0int
        }) by {
        lemma_mk_count_push(ms.subrange(0, i), ms[i], v);
    }
}

pub proof fn lemma_mk_count_pos(ms: Seq<GraphMarking>, v: Seq<PlaceCount>)
    requires
        mk_count(ms, v) > 0,
    ensures
        exists|i: int| 0 <= i < ms.len() && (#[trigger] ms[i]).marking@ == v,
    decreases ms.len(),
{
    if ms.len() > 0 {
        if ms[0].marking@ == v {
        } else {
            lemma_mk_count_pos(ms.drop_first(), v);
            let i = choose|i: int|
                0 <= i < ms.drop_first().len() && (#[trigger] ms.drop_first()[i]).marking@ == v;
            assert(ms[i + 1] == ms.drop_first()[i]);
        }
    }
}

pub proof fn lemma_mk_count_at(ms: Seq<GraphMarking>, i: int)
    requires
        0 <= i < ms.len(),
    ensures
        mk_count(ms, ms[i].marking@) > 0,
    decreases ms.len(),
{
    lemma_mk_count_nonneg(ms.drop_first(), ms[i].marking@);
    if i > 0 {
        assert(ms.drop_first()[i - 1] == ms[i]);
        lemma_mk_count_at(ms.drop_first(), i - 1);
    }
}

pub proof fn lemma_mk_count_nonneg(ms: Seq<GraphMarking>, v: Seq<PlaceCount>)
    ensures
        mk_count(ms, v) >= 0,
    decreases ms.len(),
{
    if ms.len() > 0 {
        lemma_mk_count_nonneg(ms.drop_first(), v);
    }
}

/// Count the markings of `ms` that equal `mk`.
fn count_equal_markings(ms: &Vec<GraphMarking>, mk: &Marking) -> (r: usize)
    ensures
        r == mk_count(ms@, mk@),
{
    let mut r: usize = 0;
    let mut i: usize = 0;
    proof {
        assert(ms@.subrange(0, 0) =~= Seq::<GraphMarking>::empty());
    }
    while i < ms.len()
        invariant
            i <= ms@.len(),
            r == mk_count(ms@.subrange(0, i as int), mk@),
            r <= i,
        decreases ms@.len() - i,
    {
        proof {
            lemma_mk_count_prefix(ms@, i as int);
        }
        if &ms[i].marking == mk {
            r += 1;
        }
        i += 1;
    }
    proof {
        assert(ms@.subrange(0, ms@.len() as int) =~= ms@);
    }
    r
}

/// Do two segments hold the same multiset of markings?
pub fn segments_equiv(a: &Segment, b: &Segment) -> (r: bool)
    ensures
        r == seg_equiv(*a, *b),
{
    if a.markings.len() != b.markings.len() {
        return false;
    }
    let mut i: usize = 0;
    while i < a.markings.len()
        invariant
            i <= a.markings@.len(),
            a.markings@.len() == b.markings@.len(),
            forall|j: int|
                0 <= j < i ==> mk_count(a.markings@, (#[trigger] a.markings@[j]).marking@)
                    == mk_count(b.markings@, a.markings@[j].marking@),
        decreases a.markings@.len() - i,
    {
        let c1 = count_equal_markings(&a.markings, &a.markings[i].marking);
        let c2 = count_equal_markings(&b.markings, &a.markings[i].marking);
        if c1 != c2 {
            return false;
        }
        i += 1;
    }
    let mut i2: usize = 0;
    while i2 < b.markings.len()
        invariant
            i2 <= b.markings@.len(),
            a.markings@.len() == b.markings@.len(),
            forall|j: int|
                0 <= j < a.markings@.len() ==> mk_count(
                    a.markings@,
                    (#[trigger] a.markings@[j]).marking@,
                ) == mk_count(b.markings@, a.markings@[j].marking@),
            forall|j: int|
                0 <= j < i2 ==> mk_count(a.markings@, (#[trigger] b.markings@[j]).marking@)
                    == mk_count(b.markings@, b.markings@[j].marking@),
        decreases b.markings@.len() - i2,
    {
        let c1 = count_equal_markings(&a.markings, &b.markings[i2].marking);
        let c2 = count_equal_markings(&b.markings, &b.markings[i2].marking);
        if c1 != c2 {
            return false;
        }
        i2 += 1;
    }
    proof {
        assert forall|v: Seq<PlaceCount>| mk_count(a.markings@, v) == mk_count(
            b.markings@,
            v,
        ) by {
            lemma_mk_count_nonneg(a.markings@, v);
            lemma_mk_count_nonneg(b.markings@, v);
            if mk_count(a.markings@, v) > 0 {
                lemma_mk_count_pos(a.markings@, v);
                let j = choose|j: int|
                    0 <= j < a.markings@.len() && (#[trigger] a.markings@[j]).marking@ == v;
                assert(mk_count(a.markings@, a.markings@[j].marking@) == mk_count(
                    b.markings@,
                    a.markings@[j].marking@,
                ));
            } else if mk_count(b.markings@, v) > 0 {
                lemma_mk_count_pos(b.markings@, v);
                let j = choose|j: int|
                    0 <= j < b.markings@.len() && (#[trigger] b.markings@[j]).marking@ == v;
                assert(mk_count(a.markings@, b.markings@[j].marking@) == mk_count(
                    b.markings@,
                    b.markings@[j].marking@,
                ));
            }
        }
    }
    true
}

impl Segment {
    /// The id of the first marking of this segment whose pairs equal
    /// `marking`, if any.
    pub fn search_equal_marking(&self, marking: &Marking) -> (r: Option<MarkingId>)
        requires
            seg_ids_ok(*self),
        ensures
            match r {
                Some(id) => {
                    &&& self.marking_offset <= id
                    &&& id - self.marking_offset < self.markings@.len()
                    &&& self.markings@[id - self.marking_offset].marking@ == marking@
                    &&& forall|j: int|
                        0 <= j < id - self.marking_offset ==> (#[trigger] self.markings@[j]).marking@
                            != marking@
                },
                None => forall|j: int|
                    0 <= j < self.markings@.len() ==> (#[trigger] self.markings@[j]).marking@
                        != marking@,
            },
    {
        let mut i: usize = 0;
        while i < self.markings.len()
            invariant
                i <= self.markings@.len(),
                seg_ids_ok(*self),
                forall|j: int| 0 <= j < i ==> (#[trigger] self.markings@[j]).marking@ != marking@,
            decreases self.markings@.len() - i,
        {
            if &self.markings[i].marking == marking {
                return Some(self.markings[i].id);
            }
            i += 1;
        }
        None
    }
}

impl Graph {
    /// The position of the first sync node whose segment-id tuple equals
    /// `sm_b`'s, if any.
    pub fn contains_sync_node(&self, sm_b: SyncMarking) -> (r: Option<usize>)
        ensures
            match r {
                Some(i) => {
                    &&& i < self.sync_graph@.len()
                    &&& self.sync_graph@[i as int].segment_ids@ == sm_b.segment_ids@
                    &&& forall|j: int|
                        0 <= j < i ==> (#[trigger] self.sync_graph@[j]).segment_ids@
                            != sm_b.segment_ids@
                },
                None => forall|j: int|
                    0 <= j < self.sync_graph@.len() ==> (#[trigger] self.sync_graph@[j]).segment_ids@
                        != sm_b.segment_ids@,
            },
    {
        let mut i: usize = 0;
        while i < self.sync_graph.len()
            invariant
                i <= self.sync_graph@.len(),
                forall|j: int|
                    0 <= j < i ==> (#[trigger] self.sync_graph@[j]).segment_ids@
                        != sm_b.segment_ids@,
            decreases self.sync_graph@.len() - i,
        {
            if same_ids(&self.sync_graph[i].segment_ids, &sm_b.segment_ids) {
                return Some(i);
            }
            i += 1;
        }
        None
    }

    /// The id of the first stored segment of module `m_id` that is
    /// equivalent to `segment`, if any.
    pub fn contains_segment(&self, segment: &Segment, m_id: ModuleId) -> (r: Option<SegmentId>)
        requires
            (m_id as int) < self.segment_storage@.len(),
            self.segment_storage@[m_id as int].segments@.len() <= u32::MAX,
        ensures
            match r {
                Some(sid) => {
                    &&& sid < self.segment_storage@[m_id as int].segments@.len()
                    &&& seg_equiv(
                        self.segment_storage@[m_id as int].segments@[sid as int].segment,
                        *segment,
                    )
                    &&& forall|j: int|
                        0 <= j < sid ==> !seg_equiv(
                            (#[trigger] self.segment_storage@[m_id as int].segments@[j]).segment,
                            *segment,
                        )
                },
                None => forall|j: int|
                    0 <= j < self.segment_storage@[m_id as int].segments@.len() ==> !seg_equiv(
                        (#[trigger] self.segment_storage@[m_id as int].segments@[j]).segment,
                        *segment,
                    ),
            },
    {
        let segs = &self.segment_storage[m_id as usize].segments;
        let mut i: usize = 0;
        while i < segs.len()
            invariant
                i <= segs@.len(),
                segs@.len() <= u32::MAX,
                segs@ == self.segment_storage@[m_id as int].segments@,
                forall|j: int|
                    0 <= j < i ==> !seg_equiv((#[trigger] segs@[j]).segment, *segment),
            decreases segs@.len() - i,
        {
            if segments_equiv(&segs[i].segment, segment) {
                return Some(i as u32);
            }
            i += 1;
        }
        None
    }
}

/// Pointwise equality of two id lists.
pub fn same_ids(a: &Vec<Id>, b: &Vec<Id>) -> (r: bool)
    ensures
        r == (a@ == b@),
{
    if a.len() != b.len() {
        return false;
    }
    let mut i: usize = 0;
    while i < a.len()
        invariant
            i <= a@.len(),
            a@.len() == b@.len(),
            forall|j: int| 0 <= j < i ==> a@[j] == b@[j],
        decreases a@.len() - i,
    {
        if a[i] != b[i] {
            return false;
        }
        i += 1;
    }
    proof {
        assert(a@ =~= b@);
    }
    true
}

} // verus!
