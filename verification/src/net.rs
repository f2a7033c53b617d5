//! The static structure of a modular Petri net: places, transitions, modules,
//! and the well-formedness conditions the exploration relies on.

use vstd::prelude::*;
use crate::marking::{Marking, PlaceCount, wf_marking};

verus! {

pub type TransitionId = u32;

pub type PlaceId = u32;

pub type ModuleId = u16;

pub type Weight = u32;

/// A place of one module.  `input_transitions` lists the transitions that
/// deposit tokens into this place, `output_transitions` those that consume
/// from it, each with the arc weight.
#[derive(Debug, Clone)]
pub struct Place {
    pub id: PlaceId,
    pub name: String,
    pub input_transitions: Vec<(TransitionId, Weight)>,
    pub output_transitions: Vec<(TransitionId, Weight)>,
}

/// A transition of one module, with its weighted input and output places.
#[derive(Debug, Clone)]
pub struct Transition {
    pub id: TransitionId,
    pub name: String,
    pub input_places: Vec<(PlaceId, Weight)>,
    pub output_places: Vec<(PlaceId, Weight)>,
}

/// One self-contained Petri net module.
#[derive(Debug)]
pub struct PetrinetModul {
    pub id: ModuleId,
    pub name: String,
    pub places: Vec<Place>,
    pub transitions: Vec<Transition>,
}

/// A modular Petri net: the modules, their initial markings, the boundary
/// between interface and internal transition ids, and for every interface
/// transition the sorted list of modules whose copy of it is non-placeholder.
#[derive(Debug)]
pub struct ModularPetrinet {
    pub modules: Vec<PetrinetModul>,
    pub markings: Vec<Marking>,
    pub intern_transition_start: u32,
    pub interface_t_overview: Vec<Vec<ModuleId>>,
}

/// The weight attached to key `k` in an arc list, `0` when `k` is absent.
/// When several entries carry the key, the first one counts; well-formed
/// lists have distinct keys.
pub open spec fn arc_weight(arcs: Seq<(u32, u32)>, k: u32) -> u32
    decreases arcs.len(),
{
    if arcs.len() == 0 {
        0
    } else if arcs[0].0 == k {
        arcs[0].1
    } else {
        arc_weight(arcs.drop_first(), k)
    }
}

pub proof fn lemma_arc_weight_at(arcs: Seq<(u32, u32)>, i: int)
    requires
        0 <= i < arcs.len(),
        forall|a: int, b: int| 0 <= a < b < arcs.len() ==> arcs[a].0 != arcs[b].0,
    ensures
        arc_weight(arcs, arcs[i].0) == arcs[i].1,
    decreases arcs.len(),
{
    if i > 0 {
        assert(arcs.drop_first()[i - 1] == arcs[i]);
        lemma_arc_weight_at(arcs.drop_first(), i - 1);
    }
}

pub proof fn lemma_arc_weight_absent(arcs: Seq<(u32, u32)>, k: u32)
    requires
        forall|a: int| 0 <= a < arcs.len() ==> arcs[a].0 != k,
    ensures
        arc_weight(arcs, k) == 0,
    decreases arcs.len(),
{
    if arcs.len() > 0 {
        lemma_arc_weight_absent(arcs.drop_first(), k);
    }
}

pub proof fn lemma_arc_weight_pos(arcs: Seq<(u32, u32)>, k: u32)
    requires
        arc_weight(arcs, k) != 0,
    ensures
        exists|i: int| 0 <= i < arcs.len() && arcs[i].0 == k && arcs[i].1 == arc_weight(arcs, k),
    decreases arcs.len(),
{
    if arcs.len() > 0 && arcs[0].0 != k {
        lemma_arc_weight_pos(arcs.drop_first(), k);
        let i = choose|i: int|
            0 <= i < arcs.drop_first().len() && arcs.drop_first()[i].0 == k
                && arcs.drop_first()[i].1 == arc_weight(arcs.drop_first(), k);
        assert(arcs[i + 1] == arcs.drop_first()[i]);
    }
}

/// A weighted arc list is well-formed for a module with `n_places` places:
/// every referenced place exists, every weight is positive, and no place is
/// referenced twice.
pub open spec fn arcs_wf(arcs: Seq<(u32, u32)>, n_places: int) -> bool {
    &&& forall|i: int| 0 <= i < arcs.len() ==> (#[trigger] arcs[i]).0 < n_places
    &&& forall|i: int| 0 <= i < arcs.len() ==> (#[trigger] arcs[i]).1 >= 1
    &&& forall|i: int, j: int| 0 <= i < j < arcs.len() ==> arcs[i].0 != arcs[j].0
}

/// A transition is proper when it touches at least one place; interface
/// placeholders (both lists empty) are not proper and never fire locally.
pub open spec fn proper(m: PetrinetModul, t: u32) -> bool {
    m.transitions@[t as int].input_places@.len() + m.transitions@[t as int].output_places@.len()
        > 0
}

/// Module well-formedness: ids equal indices, arc lists are well-formed, and
/// each place's two ledgers are the place-side view of the arcs: its
/// `output_transitions` agree exactly with the transitions' `input_places`,
/// its `input_transitions` with their `output_places`.
pub open spec fn module_wf(m: PetrinetModul) -> bool {
    &&& m.places@.len() <= u32::MAX
    &&& m.transitions@.len() <= u32::MAX
    &&& forall|i: int| 0 <= i < m.places@.len() ==> (#[trigger] m.places@[i]).id == i
    &&& forall|i: int| 0 <= i < m.transitions@.len() ==> (#[trigger] m.transitions@[i]).id == i
    &&& forall|i: int|
        0 <= i < m.transitions@.len() ==> arcs_wf(
            (#[trigger] m.transitions@[i]).input_places@,
            m.places@.len() as int,
        )
    &&& forall|i: int|
        0 <= i < m.transitions@.len() ==> arcs_wf(
            (#[trigger] m.transitions@[i]).output_places@,
            m.places@.len() as int,
        )
    &&& forall|p: int, k: int|
        0 <= p < m.places@.len() && 0 <= k < m.places@[p].output_transitions@.len()
            ==> (#[trigger] m.places@[p].output_transitions@[k]).0 < m.transitions@.len()
    &&& forall|p: int, k: int|
        0 <= p < m.places@.len() && 0 <= k < m.places@[p].output_transitions@.len()
            ==> (#[trigger] m.places@[p].output_transitions@[k]).1 >= 1
    &&& forall|p: int, k: int, l: int|
        0 <= p < m.places@.len() && 0 <= k < l < m.places@[p].output_transitions@.len()
            ==> m.places@[p].output_transitions@[k].0 != m.places@[p].output_transitions@[l].0
    &&& forall|p: int, t: u32|
        0 <= p < m.places@.len() && t < m.transitions@.len() ==> #[trigger] arc_weight(
            m.places@[p].output_transitions@,
            t,
        ) == arc_weight(m.transitions@[t as int].input_places@, p as u32)
    &&& forall|p: int, k: int|
        0 <= p < m.places@.len() && 0 <= k < m.places@[p].input_transitions@.len()
            ==> (#[trigger] m.places@[p].input_transitions@[k]).0 < m.transitions@.len()
    &&& forall|p: int, k: int|
        0 <= p < m.places@.len() && 0 <= k < m.places@[p].input_transitions@.len()
            ==> (#[trigger] m.places@[p].input_transitions@[k]).1 >= 1
    &&& forall|p: int, k: int, l: int|
        0 <= p < m.places@.len() && 0 <= k < l < m.places@[p].input_transitions@.len()
            ==> m.places@[p].input_transitions@[k].0 != m.places@[p].input_transitions@[l].0
    &&& forall|p: int, t: u32|
        0 <= p < m.places@.len() && t < m.transitions@.len() ==> #[trigger] arc_weight(
            m.places@[p].input_transitions@,
            t,
        ) == arc_weight(m.transitions@[t as int].output_places@, p as u32)
}

/// A transition is enabled at a marking when every place holds at least the
/// transition's input arc weight.
pub open spec fn enabled(m: PetrinetModul, mk: Seq<PlaceCount>, t: u32) -> bool {
    forall|p: u32|
        crate::marking::pcs_count(mk, p) >= #[trigger] arc_weight(
            m.transitions@[t as int].input_places@,
            p,
        )
}

/// The token count of place `p` after transition `t` fires at marking `mk`:
/// input arc weights are consumed, output arc weights are produced.
pub open spec fn fired_count(m: PetrinetModul, mk: Seq<PlaceCount>, t: u32, p: u32) -> int {
    crate::marking::pcs_count(mk, p) - arc_weight(m.transitions@[t as int].input_places@, p)
        + arc_weight(m.transitions@[t as int].output_places@, p)
}

/// The firable-set invariant: `f` lists exactly the proper transitions that
/// are enabled at `mk`, each at most once.
pub open spec fn firable_inv(m: PetrinetModul, mk: Seq<PlaceCount>, f: Seq<u32>) -> bool {
    &&& forall|k: int| 0 <= k < f.len() ==> (#[trigger] f[k]) < m.transitions@.len()
    &&& forall|k: int, l: int| 0 <= k < l < f.len() ==> f[k] != f[l]
    &&& forall|t: u32|
        #[trigger] f.contains(t) ==> t < m.transitions@.len() && proper(m, t) && enabled(m, mk, t)
    &&& forall|t: u32|
        t < m.transitions@.len() && #[trigger] proper(m, t) && enabled(m, mk, t) ==> f.contains(t)
}

/// Net well-formedness: module ids equal indices, every module is
/// well-formed and holds a copy (possibly placeholder) of every interface
/// transition, markings are canonical, and `interface_t_overview[t]` is the
/// strictly ascending list of exactly the modules whose copy of `t` is
/// proper.
pub open spec fn net_wf(net: ModularPetrinet) -> bool {
    &&& net.modules@.len() == net.markings@.len()
    &&& net.modules@.len() <= u16::MAX
    &&& forall|i: int| 0 <= i < net.modules@.len() ==> (#[trigger] net.modules@[i]).id == i
    &&& forall|i: int| 0 <= i < net.modules@.len() ==> module_wf(#[trigger] net.modules@[i])
    &&& forall|i: int| 0 <= i < net.markings@.len() ==> wf_marking(#[trigger] net.markings@[i])
    &&& forall|i: int|
        0 <= i < net.modules@.len() ==> (#[trigger] net.modules@[i]).transitions@.len()
            >= net.intern_transition_start
    &&& net.interface_t_overview@.len() == net.intern_transition_start
    &&& forall|t: int, k: int|
        0 <= t < net.interface_t_overview@.len() && 0 <= k
            < net.interface_t_overview@[t].len()
            ==> (#[trigger] net.interface_t_overview@[t]@[k]) < net.modules@.len()
    &&& forall|t: int, k: int, l: int|
        0 <= t < net.interface_t_overview@.len() && 0 <= k < l
            < net.interface_t_overview@[t].len()
            ==> net.interface_t_overview@[t]@[k] < net.interface_t_overview@[t]@[l]
    &&& forall|t: int, mid: u16|
        0 <= t < net.interface_t_overview@.len() && mid < net.modules@.len()
            ==> ((#[trigger] net.interface_t_overview@[t]@.contains(mid)) <==> proper(
            net.modules@[mid as int],
            t as u32,
        ))
}

} // verus!
