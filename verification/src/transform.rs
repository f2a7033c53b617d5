//! Turning a parsed input into a well-formed modular Petri net: id
//! assignment, interface-transition discovery, per-module projection, and
//! the per-place consumer ledgers the firing kernel relies on.

use vstd::prelude::*;
use crate::marking::{Marking, PlaceCount, pcs_count, wf_marking, lemma_pcs_count_at,
    lemma_pcs_count_absent};
use crate::net::{
    ModularPetrinet, ModuleId, PetrinetModul, Place, Transition, TransitionId, Weight, arc_weight,
    arcs_wf, lemma_arc_weight_at, lemma_arc_weight_absent, module_wf, net_wf, proper,
};
use crate::parse::{RawParserInput, RawParserModule, RawParserPlace, RawParserTransition};
use crate::kernel::arc_weight_of;
use crate::builder::contains_mod;

verus! {

/// Is a place of this name declared in module `m`?
pub open spec fn declared_in(mods: Seq<RawParserModule>, m: int, nm: Seq<char>) -> bool {
    exists|j: int| 0 <= j < mods[m].places@.len() && (#[trigger] mods[m].places@[j]).name@ == nm
}

/// Is a place of this name declared in any module?
pub open spec fn declared(mods: Seq<RawParserModule>, nm: Seq<char>) -> bool {
    exists|m: int| 0 <= m < mods.len() && declared_in(mods, m, nm)
}

/// Does the transition reference any place declared in module `m`?
pub open spec fn touches(tr: RawParserTransition, mods: Seq<RawParserModule>, m: int) -> bool {
    (exists|k: int|
        0 <= k < tr.input_places@.len() && declared_in(
            mods,
            m,
            (#[trigger] tr.input_places@[k]).name@,
        )) || (exists|k: int|
        0 <= k < tr.output_places@.len() && declared_in(
            mods,
            m,
            (#[trigger] tr.output_places@[k]).name@,
        ))
}

/// Does the transition span more than one module?
pub open spec fn spans_modules(tr: RawParserTransition, mods: Seq<RawParserModule>) -> bool {
    exists|m1: int, m2: int|
        #![trigger touches(tr, mods, m1), touches(tr, mods, m2)]
        0 <= m1 < m2 < mods.len() && touches(tr, mods, m1) && touches(tr, mods, m2)
}

/// How many of the transitions span more than one module.
pub open spec fn count_spanning(ts: Seq<RawParserTransition>, mods: Seq<RawParserModule>) -> int
    decreases ts.len(),
{
    if ts.len() == 0 {
        0
    } else {
        count_spanning(ts.drop_last(), mods) + (if spans_modules(ts.last(), mods) {
            1int
        } else {
            0int
        })
    }
}

/// One weighted place list of a transition line is usable: positive
/// weights, no place named twice.
pub open spec fn raw_arcs_wf(arcs: Seq<RawParserPlace>) -> bool {
    &&& forall|k: int| 0 <= k < arcs.len() ==> (#[trigger] arcs[k]).weight >= 1
    &&& forall|k: int, l: int| 0 <= k < l < arcs.len() ==> arcs[k].name@ != arcs[l].name@
}

/// The input as a whole is usable: bounded sizes, globally distinct place
/// and transition names, and usable arc lists.
pub open spec fn raw_input_wf(input: RawParserInput) -> bool {
    &&& input.modules@.len() <= u16::MAX
    &&& input.transitions@.len() <= u32::MAX / 2
    &&& forall|m: int|
        0 <= m < input.modules@.len() ==> (#[trigger] input.modules@[m]).places@.len()
            <= u32::MAX
    &&& forall|m1: int, j1: int, m2: int, j2: int|
        0 <= m1 < input.modules@.len() && 0 <= j1 < input.modules@[m1].places@.len() && 0 <= m2
            < input.modules@.len() && 0 <= j2 < input.modules@[m2].places@.len() && (m1 != m2 || j1
            != j2) ==> (#[trigger] input.modules@[m1].places@[j1]).name@ != (
        #[trigger] input.modules@[m2].places@[j2]).name@
    &&& forall|i: int, j: int|
        0 <= i < j < input.transitions@.len() ==> input.transitions@[i].name@
            != input.transitions@[j].name@
    &&& forall|i: int|
        0 <= i < input.transitions@.len() ==> raw_arcs_wf(
            (#[trigger] input.transitions@[i]).input_places@,
        ) && raw_arcs_wf(input.transitions@[i].output_places@)
}

/// The index of the first place of module `raw` with this name, if any.
fn find_place_idx(raw: &RawParserModule, nm: &String) -> (r: Option<usize>)
    ensures
        match r {
            Some(i) => {
                &&& i < raw.places@.len()
                &&& raw.places@[i as int].name@ == nm@
                &&& forall|j: int| 0 <= j < i ==> (#[trigger] raw.places@[j]).name@ != nm@
            },
            None => forall|j: int|
                0 <= j < raw.places@.len() ==> (#[trigger] raw.places@[j]).name@ != nm@,
        },
{
    let mut i: usize = 0;
    while i < raw.places.len()
        invariant
            i <= raw.places@.len(),
            forall|j: int| 0 <= j < i ==> (#[trigger] raw.places@[j]).name@ != nm@,
        decreases raw.places@.len() - i,
    {
        if raw.places[i].name == *nm {
            return Some(i);
        }
        i += 1;
    }
    None
}

/// The modules a transition belongs to: every module declaring one of its
/// referenced places, ascending.  A place declared nowhere is the fatal
/// reference error and is reported by name.
pub fn transition_belongs_module(
    transition: &RawParserTransition,
    modules: &Vec<RawParserModule>,
) -> (res: Result<Vec<ModuleId>, String>)
    requires
        modules@.len() <= u16::MAX,
    ensures
        match res {
            Ok(v) => {
                &&& forall|x: int, y: int| 0 <= x < y < v@.len() ==> v@[x] < v@[y]
                &&& forall|x: int| 0 <= x < v@.len() ==> (#[trigger] v@[x]) < modules@.len()
                &&& forall|k: int|
                    0 <= k < transition.input_places@.len() ==> declared(
                        modules@,
                        (#[trigger] transition.input_places@[k]).name@,
                    )
                &&& forall|k: int|
                    0 <= k < transition.output_places@.len() ==> declared(
                        modules@,
                        (#[trigger] transition.output_places@[k]).name@,
                    )
                &&& forall|m: u16|
                    m < modules@.len() ==> (#[trigger] v@.contains(m) <==> (exists|k: int|
                        0 <= k < transition.input_places@.len() && declared_in(
                            modules@,
                            m as int,
                            (#[trigger] transition.input_places@[k]).name@,
                        )) || (exists|k: int|
                        0 <= k < transition.output_places@.len() && declared_in(
                            modules@,
                            m as int,
                            (#[trigger] transition.output_places@[k]).name@,
                        )))
            },
            Err(nm) => !declared(modules@, nm@) && ((exists|k: int|
                0 <= k < transition.input_places@.len() && (
                #[trigger] transition.input_places@[k]).name@ == nm@) || (exists|k: int|
                0 <= k < transition.output_places@.len() && (
                #[trigger] transition.output_places@[k]).name@ == nm@)),
        },
{
    // First: the reference check.
    let mut k: usize = 0;
    while k < transition.input_places.len()
        invariant
            k <= transition.input_places@.len(),
            modules@.len() <= u16::MAX,
            forall|kk: int|
                0 <= kk < k ==> declared(
                    modules@,
                    (#[trigger] transition.input_places@[kk]).name@,
                ),
        decreases transition.input_places@.len() - k,
    {
        if find_declaring_module(modules, &transition.input_places[k].name).is_none() {
            proof {
                assert(transition.input_places@[k as int].name@
                    == transition.input_places@[k as int].name@);
            }
            return Err(clone_string(&transition.input_places[k].name));
        }
        k += 1;
    }
    let mut k2: usize = 0;
    while k2 < transition.output_places.len()
        invariant
            k2 <= transition.output_places@.len(),
            modules@.len() <= u16::MAX,
            forall|kk: int|
                0 <= kk < transition.input_places@.len() ==> declared(
                    modules@,
                    (#[trigger] transition.input_places@[kk]).name@,
                ),
            forall|kk: int|
                0 <= kk < k2 ==> declared(
                    modules@,
                    (#[trigger] transition.output_places@[kk]).name@,
                ),
        decreases transition.output_places@.len() - k2,
    {
        if find_declaring_module(modules, &transition.output_places[k2].name).is_none() {
            proof {
                assert(transition.output_places@[k2 as int].name@
                    == transition.output_places@[k2 as int].name@);
            }
            return Err(clone_string(&transition.output_places[k2].name));
        }
        k2 += 1;
    }
    // Then: the membership list.
    let mut v: Vec<ModuleId> = Vec::new();
    let mut m: usize = 0;
    while m < modules.len()
        invariant
            m <= modules@.len(),
            modules@.len() <= u16::MAX,
            forall|kk: int|
                0 <= kk < transition.input_places@.len() ==> declared(
                    modules@,
                    (#[trigger] transition.input_places@[kk]).name@,
                ),
            forall|kk: int|
                0 <= kk < transition.output_places@.len() ==> declared(
                    modules@,
                    (#[trigger] transition.output_places@[kk]).name@,
                ),
            forall|x: int| 0 <= x < v@.len() ==> (#[trigger] v@[x]) < m,
            forall|x: int, y: int| 0 <= x < y < v@.len() ==> v@[x] < v@[y],
            forall|mm: u16|
                mm < m ==> (#[trigger] v@.contains(mm) <==> (exists|k: int|
                    0 <= k < transition.input_places@.len() && declared_in(
                        modules@,
                        mm as int,
                        (#[trigger] transition.input_places@[k]).name@,
                    )) || (exists|k: int|
                    0 <= k < transition.output_places@.len() && declared_in(
                        modules@,
                        mm as int,
                        (#[trigger] transition.output_places@[k]).name@,
                    ))),
        decreases modules@.len() - m,
    {
        let ghost v0 = v@;
        let hit = arcs_touch_module(transition, &modules[m]);
        if hit {
            v.push(m as u16);
        }
        proof {
            assert forall|mm: u16|
                mm < m + 1 implies (#[trigger] v@.contains(mm) <==> (exists|k: int|
                    0 <= k < transition.input_places@.len() && declared_in(
                        modules@,
                        mm as int,
                        (#[trigger] transition.input_places@[k]).name@,
                    )) || (exists|k: int|
                    0 <= k < transition.output_places@.len() && declared_in(
                        modules@,
                        mm as int,
                        (#[trigger] transition.output_places@[k]).name@,
                    ))) by {
                if mm < m {
                    if v0.contains(mm) {
                        let x = choose|x: int| 0 <= x < v0.len() && v0[x] == mm;
                        assert(v@[x] == mm);
                    }
                    if v@.contains(mm) {
                        let x = choose|x: int| 0 <= x < v@.len() && v@[x] == mm;
                        assert(x < v0.len());
                        assert(v0[x] == mm);
                    }
                } else {
                    if hit {
                        assert(v@[v@.len() - 1] == m as u16);
                    } else {
                        if v@.contains(mm) {
                            let x = choose|x: int| 0 <= x < v@.len() && v@[x] == mm;
                        }
                    }
                }
            }
        }
        m += 1;
    }
    Ok(v)
}

/// Does any referenced place of the transition stand in this module?
fn arcs_touch_module(transition: &RawParserTransition, raw: &RawParserModule) -> (r: bool)
    ensures
        r == ((exists|k: int|
            0 <= k < transition.input_places@.len() && (exists|j: int|
                0 <= j < raw.places@.len() && (#[trigger] raw.places@[j]).name@ == (
                #[trigger] transition.input_places@[k]).name@)) || (exists|k: int|
            0 <= k < transition.output_places@.len() && (exists|j: int|
                0 <= j < raw.places@.len() && (#[trigger] raw.places@[j]).name@ == (
                #[trigger] transition.output_places@[k]).name@))),
{
    let mut k: usize = 0;
    while k < transition.input_places.len()
        invariant
            k <= transition.input_places@.len(),
            forall|kk: int|
                0 <= kk < k ==> forall|j: int|
                    0 <= j < raw.places@.len() ==> (#[trigger] raw.places@[j]).name@ != (
                    #[trigger] transition.input_places@[kk]).name@,
        decreases transition.input_places@.len() - k,
    {
        if find_place_idx(raw, &transition.input_places[k].name).is_some() {
            return true;
        }
        k += 1;
    }
    let mut k2: usize = 0;
    while k2 < transition.output_places.len()
        invariant
            k2 <= transition.output_places@.len(),
            forall|kk: int|
                0 <= kk < transition.input_places@.len() ==> forall|j: int|
                    0 <= j < raw.places@.len() ==> (#[trigger] raw.places@[j]).name@ != (
                    #[trigger] transition.input_places@[kk]).name@,
            forall|kk: int|
                0 <= kk < k2 ==> forall|j: int|
                    0 <= j < raw.places@.len() ==> (#[trigger] raw.places@[j]).name@ != (
                    #[trigger] transition.output_places@[kk]).name@,
        decreases transition.output_places@.len() - k2,
    {
        if find_place_idx(raw, &transition.output_places[k2].name).is_some() {
            return true;
        }
        k2 += 1;
    }
    false
}

/// The first module declaring a place of this name, if any.
fn find_declaring_module(modules: &Vec<RawParserModule>, nm: &String) -> (r: Option<u16>)
    requires
        modules@.len() <= u16::MAX,
    ensures
        match r {
            Some(m) => (m as int) < modules@.len() && declared_in(modules@, m as int, nm@),
            None => !declared(modules@, nm@),
        },
{
    let mut m: usize = 0;
    while m < modules.len()
        invariant
            m <= modules@.len(),
            modules@.len() <= u16::MAX,
            forall|mm: int| 0 <= mm < m ==> !declared_in(modules@, mm, nm@),
        decreases modules@.len() - m,
    {
        if find_place_idx(&modules[m], nm).is_some() {
            return Some(m as u16);
        }
        m += 1;
    }
    None
}

/// Copy a string.
pub fn clone_string(s: &String) -> (r: String)
    ensures
        r@ == s@,
{
    s.clone()
}

/// Map a transition line's place references into one module: references
/// declared in the module become `(place id, weight)` arcs in order, the
/// rest are dropped (they belong to other modules).
pub fn collect_all_places(places: &Vec<RawParserPlace>, raw: &RawParserModule) -> (r: Vec<
    (u32, Weight),
>)
    requires
        raw_arcs_wf(places@),
        raw.places@.len() <= u32::MAX,
        forall|j1: int, j2: int|
            0 <= j1 < j2 < raw.places@.len() ==> (#[trigger] raw.places@[j1]).name@ != (
            #[trigger] raw.places@[j2]).name@,
    ensures
        arcs_wf(r@, raw.places@.len() as int),
        forall|x: int|
            0 <= x < r@.len() ==> exists|kk: int, j: int|
                0 <= kk < places@.len() && 0 <= j < raw.places@.len() && (#[trigger] r@[x]) == (
                    j as u32,
                    places@[kk].weight as u32,
                ) && raw.places@[j].name@ == places@[kk].name@ && (forall|jj: int|
                    0 <= jj < j ==> (#[trigger] raw.places@[jj]).name@ != places@[kk].name@),
        r@.len() > 0 <==> exists|k: int|
            0 <= k < places@.len() && declared_in(
                seq![*raw],
                0,
                (#[trigger] places@[k]).name@,
            ),
{
    let mut r: Vec<(u32, Weight)> = Vec::new();
    let mut k: usize = 0;
    while k < places.len()
        invariant
            k <= places@.len(),
            raw_arcs_wf(places@),
            raw.places@.len() <= u32::MAX,
            forall|j1: int, j2: int|
                0 <= j1 < j2 < raw.places@.len() ==> (#[trigger] raw.places@[j1]).name@ != (
                #[trigger] raw.places@[j2]).name@,
            forall|x: int|
                0 <= x < r@.len() ==> (#[trigger] r@[x]).0 < raw.places@.len() && r@[x].1 >= 1,
            forall|x: int|
                0 <= x < r@.len() ==> exists|kk: int, j: int|
                    0 <= kk < k && 0 <= j < raw.places@.len() && (#[trigger] r@[x]) == (
                        j as u32,
                        places@[kk].weight as u32,
                    ) && raw.places@[j].name@ == places@[kk].name@ && (forall|jj: int|
                        0 <= jj < j ==> (#[trigger] raw.places@[jj]).name@ != places@[kk].name@),
            forall|x: int, y: int| 0 <= x < y < r@.len() ==> r@[x].0 != r@[y].0,
            (r@.len() > 0 <==> exists|kk: int|
                0 <= kk < k && declared_in(seq![*raw], 0, (#[trigger] places@[kk]).name@)),
        decreases places@.len() - k,
    {
        let ghost r0 = r@;
        match find_place_idx(raw, &places[k].name) {
            Some(j) => {
                let w = places[k].weight;
                r.push((j as u32, w as u32));
                proof {
                    assert(r@[r@.len() - 1] == (j as u32, w as u32));
                    assert(seq![*raw][0] == *raw);
                    assert(declared_in(seq![*raw], 0, places@[k as int].name@)) by {
                        assert(seq![*raw][0].places@[j as int].name@ == places@[k as int].name@);
                    }
                    assert forall|x: int, y: int| 0 <= x < y < r@.len() implies r@[x].0
                        != r@[y].0 by {
                        if y < r@.len() - 1 {
                            assert(r@[x] == r0[x] && r@[y] == r0[y]);
                        } else {
                            assert(r@[x] == r0[x]);
                            // An earlier arc mapped a different raw name to
                            // its first index; distinct names give distinct
                            // first indices.
                            let (kk, jj) = choose|kk: int, jj: int|
                                0 <= kk < k && 0 <= jj < raw.places@.len() && r0[x].0 == jj
                                    && raw.places@[jj].name@ == places@[kk].name@;
                            assert(places@[kk].name@ != places@[k as int].name@);
                        }
                    }
                }
            },
            None => {
                proof {
                    assert(seq![*raw][0] == *raw);
                    assert(!declared_in(seq![*raw], 0, places@[k as int].name@));
                }
            },
        }
        k += 1;
    }
    r
}

/// The id recorded for an interface transition of this name, if any.
fn find_interface(it: &Vec<(String, u32)>, nm: &String) -> (r: Option<u32>)
    requires
        forall|x: int| 0 <= x < it@.len() ==> (#[trigger] it@[x]).1 == x,
    ensures
        match r {
            Some(x) => (x as int) < it@.len() && it@[x as int].0@ == nm@,
            None => forall|xx: int| 0 <= xx < it@.len() ==> (#[trigger] it@[xx]).0@ != nm@,
        },
{
    let mut x: usize = 0;
    while x < it.len()
        invariant
            x <= it@.len(),
            forall|xx: int| 0 <= xx < it@.len() ==> (#[trigger] it@[xx]).1 == xx,
            forall|xx: int| 0 <= xx < x ==> (#[trigger] it@[xx]).0@ != nm@,
        decreases it@.len() - x,
    {
        if it[x].0 == *nm {
            return Some(it[x].1);
        }
        x += 1;
    }
    None
}

/// Project one module out of the parsed input: places with ids, the
/// initial marking, interface placeholders, the module's own transitions,
/// and the per-place ledgers.
#[verifier::rlimit(100)]
#[verifier::spinoff_prover]
pub fn build_module(
    raw: &RawParserModule,
    transitions_raw: &Vec<RawParserTransition>,
    belongs: &Vec<Vec<ModuleId>>,
    id: ModuleId,
    it: &Vec<(String, u32)>,
) -> (res: (PetrinetModul, Marking))
    requires
        raw.places@.len() <= u32::MAX,
        transitions_raw@.len() <= u32::MAX / 2,
        it@.len() <= u32::MAX / 2,
        belongs@.len() == transitions_raw@.len(),
        forall|x: int| 0 <= x < it@.len() ==> (#[trigger] it@[x]).1 == x,
        forall|j1: int, j2: int|
            0 <= j1 < j2 < raw.places@.len() ==> (#[trigger] raw.places@[j1]).name@ != (
            #[trigger] raw.places@[j2]).name@,
        forall|i: int|
            0 <= i < transitions_raw@.len() ==> raw_arcs_wf(
                (#[trigger] transitions_raw@[i]).input_places@,
            ) && raw_arcs_wf(transitions_raw@[i].output_places@),
    ensures
        ({
            let (module, marking) = res;
            &&& module_wf(module)
            &&& module.id == id
            &&& module.name@ == raw.name@
            &&& module.places@.len() == raw.places@.len()
            &&& forall|j: int|
                0 <= j < raw.places@.len() ==> (#[trigger] module.places@[j]).name@
                    == raw.places@[j].name@
            &&& module.transitions@.len() >= it@.len()
            &&& wf_marking(marking)
            &&& forall|j: u32|
                (j as int) < raw.places@.len() ==> pcs_count(marking@, j)
                    == raw.places@[j as int].weight
            &&& forall|j: u32| (j as int) >= raw.places@.len() ==> pcs_count(marking@, j) == 0
        }),
{
    let n_p = raw.places.len();
    let mut places: Vec<Place> = Vec::new();
    let mut marking = Marking { place_counts: Vec::new() };
    let mut j: usize = 0;
    while j < n_p
        invariant
            j <= n_p,
            n_p == raw.places@.len(),
            n_p <= u32::MAX,
            places@.len() == j,
            forall|x: int|
                0 <= x < j ==> (#[trigger] places@[x]).id == x && places@[x].name@
                    == raw.places@[x].name@ && places@[x].input_transitions@.len() == 0
                    && places@[x].output_transitions@.len() == 0,
            crate::marking::wf_pcs(marking@),
            forall|x: int|
                0 <= x < marking@.len() ==> (#[trigger] marking@[x]).place_id < j,
            forall|q: u32| (q as int) < j ==> pcs_count(marking@, q) == raw.places@[q as int].weight,
            forall|q: u32| (q as int) >= j ==> pcs_count(marking@, q) == 0,
        decreases n_p - j,
    {
        places.push(Place {
            id: j as u32,
            name: clone_string(&raw.places[j].name),
            input_transitions: Vec::new(),
            output_transitions: Vec::new(),
        });
        let w = raw.places[j].weight;
        let ghost mk0 = marking@;
        if w > 0 {
            marking.place_counts.push(PlaceCount { place_id: j as u32, count: w as u32 });
        }
        proof {
            if w > 0 {
                assert forall|x: int|
                    0 <= x < marking@.len() implies (#[trigger] marking@[x]).place_id
                    < j + 1 by {
                    if x < mk0.len() {
                        assert(marking@[x] == mk0[x]);
                    } else {
                        assert(marking@[x] == PlaceCount { place_id: j as u32, count: w as u32 });
                    }
                }
                assert(crate::marking::wf_pcs(marking@));
                assert forall|q: u32| (q as int) < j + 1 implies pcs_count(marking@, q)
                    == raw.places@[q as int].weight by {
                    if (q as int) < j {
                        if pcs_count(mk0, q) != 0 {
                            crate::marking::lemma_pcs_count_pos(mk0, q);
                            let x = choose|x: int|
                                0 <= x < mk0.len() && mk0[x].place_id == q && mk0[x].count
                                    == pcs_count(mk0, q);
                            lemma_pcs_count_at(marking@, x);
                            lemma_pcs_count_at(mk0, x);
                        } else {
                            crate::marking::lemma_pcs_count_zero(mk0, q);
                            lemma_pcs_count_absent(marking@, q);
                        }
                    } else {
                        lemma_pcs_count_at(marking@, marking@.len() - 1);
                    }
                }
                assert forall|q: u32| (q as int) >= j + 1 implies pcs_count(marking@, q)
                    == 0 by {
                    lemma_pcs_count_absent(marking@, q);
                }
            } else {
                assert forall|q: u32| (q as int) < j + 1 implies pcs_count(marking@, q)
                    == raw.places@[q as int].weight by {
                    if (q as int) == j {
                        lemma_pcs_count_absent(marking@, q);
                    }
                }
            }
        }
        j += 1;
    }

    let mut transitions: Vec<Transition> = Vec::new();
    let n_e = it.len();
    let mut k: usize = 0;
    while k < n_e
        invariant
            k <= n_e,
            n_e == it@.len(),
            n_e <= u32::MAX / 2,
            transitions@.len() == k,
            forall|x: int|
                0 <= x < k ==> (#[trigger] transitions@[x]).id == x
                    && transitions@[x].input_places@.len() == 0
                    && transitions@[x].output_places@.len() == 0,
        decreases n_e - k,
    {
        transitions.push(Transition {
            id: k as u32,
            name: String::new(),
            input_places: Vec::new(),
            output_places: Vec::new(),
        });
        k += 1;
    }

    let n_t = transitions_raw.len();
    let mut i: usize = 0;
    while i < n_t
        invariant
            i <= n_t,
            n_t == transitions_raw@.len(),
            n_t <= u32::MAX / 2,
            n_e == it@.len(),
            n_e <= u32::MAX / 2,
            n_p == raw.places@.len(),
            n_p <= u32::MAX,
            belongs@.len() == n_t,
            forall|x: int| 0 <= x < it@.len() ==> (#[trigger] it@[x]).1 == x,
            forall|j1: int, j2: int|
                0 <= j1 < j2 < raw.places@.len() ==> (#[trigger] raw.places@[j1]).name@ != (
                #[trigger] raw.places@[j2]).name@,
            forall|ii: int|
                0 <= ii < transitions_raw@.len() ==> raw_arcs_wf(
                    (#[trigger] transitions_raw@[ii]).input_places@,
                ) && raw_arcs_wf(transitions_raw@[ii].output_places@),
            n_e <= transitions@.len() <= n_e + i,
            forall|x: int|
                0 <= x < transitions@.len() ==> (#[trigger] transitions@[x]).id == x,
            forall|x: int|
                0 <= x < transitions@.len() ==> arcs_wf(
                    (#[trigger] transitions@[x]).input_places@,
                    n_p as int,
                ) && arcs_wf(transitions@[x].output_places@, n_p as int),
        decreases n_t - i,
    {
        if contains_mod(&belongs[i], id) {
            let ins = collect_all_places(&transitions_raw[i].input_places, raw);
            let outs = collect_all_places(&transitions_raw[i].output_places, raw);
            let tid: u32 = match find_interface(it, &transitions_raw[i].name) {
                Some(x) => x,
                None => transitions.len() as u32,
            };
            let tr = Transition {
                id: tid,
                name: clone_string(&transitions_raw[i].name),
                input_places: ins,
                output_places: outs,
            };
            if (tid as usize) < transitions.len() {
                transitions[tid as usize] = tr;
            } else {
                transitions.push(tr);
            }
        }
        i += 1;
    }

    // Per-place ledgers: exactly the transitions with an arc on the place.
    let n_tt = transitions.len();
    let mut p: usize = 0;
    while p < n_p
        invariant
            p <= n_p,
            n_p <= u32::MAX,
            n_tt == transitions@.len(),
            n_tt <= u32::MAX,
            places@.len() == n_p,
            forall|x: int|
                0 <= x < transitions@.len() ==> (#[trigger] transitions@[x]).id == x,
            forall|x: int|
                0 <= x < transitions@.len() ==> arcs_wf(
                    (#[trigger] transitions@[x]).input_places@,
                    n_p as int,
                ) && arcs_wf(transitions@[x].output_places@, n_p as int),
            forall|x: int|
                0 <= x < n_p ==> (#[trigger] places@[x]).id == x && places@[x].name@
                    == raw.places@[x].name@,
            forall|x: int, kk: int|
                0 <= x < p && 0 <= kk < places@[x].output_transitions@.len() ==> (
                #[trigger] places@[x].output_transitions@[kk]).0 < n_tt
                    && places@[x].output_transitions@[kk].1 >= 1,
            forall|x: int, kk: int, ll: int|
                0 <= x < p && 0 <= kk < ll < places@[x].output_transitions@.len()
                    ==> places@[x].output_transitions@[kk].0
                    != places@[x].output_transitions@[ll].0,
            forall|x: int, t: u32|
                0 <= x < p && t < n_tt ==> #[trigger] arc_weight(
                    places@[x].output_transitions@,
                    t,
                ) == arc_weight(transitions@[t as int].input_places@, x as u32),
            forall|x: int, kk: int|
                0 <= x < p && 0 <= kk < places@[x].input_transitions@.len() ==> (
                #[trigger] places@[x].input_transitions@[kk]).0 < n_tt
                    && places@[x].input_transitions@[kk].1 >= 1,
            forall|x: int, kk: int, ll: int|
                0 <= x < p && 0 <= kk < ll < places@[x].input_transitions@.len()
                    ==> places@[x].input_transitions@[kk].0
                    != places@[x].input_transitions@[ll].0,
            forall|x: int, t: u32|
                0 <= x < p && t < n_tt ==> #[trigger] arc_weight(
                    places@[x].input_transitions@,
                    t,
                ) == arc_weight(transitions@[t as int].output_places@, x as u32),
            forall|x: int|
                p <= x < n_p ==> (#[trigger] places@[x]).output_transitions@.len() == 0
                    && places@[x].input_transitions@.len() == 0,
        decreases n_p - p,
    {
        let mut outs_l: Vec<(u32, u32)> = Vec::new();
        let mut ins_l: Vec<(u32, u32)> = Vec::new();
        let mut t: usize = 0;
        while t < n_tt
            invariant
                t <= n_tt,
                n_tt == transitions@.len(),
                n_tt <= u32::MAX,
                p < n_p,
                forall|x: int|
                    0 <= x < transitions@.len() ==> arcs_wf(
                        (#[trigger] transitions@[x]).input_places@,
                        n_p as int,
                    ) && arcs_wf(transitions@[x].output_places@, n_p as int),
                forall|kk: int|
                    0 <= kk < outs_l@.len() ==> (#[trigger] outs_l@[kk]).0 < t && outs_l@[kk].1
                        == arc_weight(
                        transitions@[outs_l@[kk].0 as int].input_places@,
                        p as u32,
                    ) && outs_l@[kk].1 >= 1,
                forall|kk: int, ll: int| 0 <= kk < ll < outs_l@.len() ==> outs_l@[kk].0
                    < outs_l@[ll].0,
                forall|tt: u32|
                    tt < t && arc_weight(
                        (#[trigger] transitions@[tt as int]).input_places@,
                        p as u32,
                    ) >= 1 ==> exists|kk: int|
                        0 <= kk < outs_l@.len() && (#[trigger] outs_l@[kk]).0 == tt,
                forall|kk: int|
                    0 <= kk < ins_l@.len() ==> (#[trigger] ins_l@[kk]).0 < t && ins_l@[kk].1
                        == arc_weight(
                        transitions@[ins_l@[kk].0 as int].output_places@,
                        p as u32,
                    ) && ins_l@[kk].1 >= 1,
                forall|kk: int, ll: int| 0 <= kk < ll < ins_l@.len() ==> ins_l@[kk].0
                    < ins_l@[ll].0,
                forall|tt: u32|
                    tt < t && arc_weight(
                        (#[trigger] transitions@[tt as int]).output_places@,
                        p as u32,
                    ) >= 1 ==> exists|kk: int|
                        0 <= kk < ins_l@.len() && (#[trigger] ins_l@[kk]).0 == tt,
            decreases n_tt - t,
        {
            let ghost o0 = outs_l@;
            let w = arc_weight_of(&transitions[t].input_places, p as u32);
            if w > 0 {
                outs_l.push((t as u32, w));
                proof {
                    assert(outs_l@[outs_l@.len() - 1] == (t as u32, w));
                    assert forall|kk: int, ll: int|
                        0 <= kk < ll < outs_l@.len() implies outs_l@[kk].0 < outs_l@[ll].0 by {
                        if ll < outs_l@.len() - 1 {
                            assert(outs_l@[kk] == o0[kk] && outs_l@[ll] == o0[ll]);
                        } else {
                            assert(outs_l@[kk] == o0[kk]);
                        }
                    }
                }
            }
            proof {
                assert forall|tt: u32|
                    tt < t + 1 && arc_weight(
                        (#[trigger] transitions@[tt as int]).input_places@,
                        p as u32,
                    ) >= 1 implies exists|kk: int|
                    0 <= kk < outs_l@.len() && (#[trigger] outs_l@[kk]).0 == tt by {
                    if tt < t {
                        let kk = choose|kk: int| 0 <= kk < o0.len() && (#[trigger] o0[kk]).0 == tt;
                        assert(outs_l@[kk] == o0[kk]);
                    } else {
                        assert(outs_l@[outs_l@.len() - 1].0 == tt);
                    }
                }
            }
            let ghost i0 = ins_l@;
            let w2 = arc_weight_of(&transitions[t].output_places, p as u32);
            if w2 > 0 {
                ins_l.push((t as u32, w2));
                proof {
                    assert(ins_l@[ins_l@.len() - 1] == (t as u32, w2));
                    assert forall|kk: int, ll: int|
                        0 <= kk < ll < ins_l@.len() implies ins_l@[kk].0 < ins_l@[ll].0 by {
                        if ll < ins_l@.len() - 1 {
                            assert(ins_l@[kk] == i0[kk] && ins_l@[ll] == i0[ll]);
                        } else {
                            assert(ins_l@[kk] == i0[kk]);
                        }
                    }
                }
            }
            proof {
                assert forall|tt: u32|
                    tt < t + 1 && arc_weight(
                        (#[trigger] transitions@[tt as int]).output_places@,
                        p as u32,
                    ) >= 1 implies exists|kk: int|
                    0 <= kk < ins_l@.len() && (#[trigger] ins_l@[kk]).0 == tt by {
                    if tt < t {
                        let kk = choose|kk: int| 0 <= kk < i0.len() && (#[trigger] i0[kk]).0 == tt;
                        assert(ins_l@[kk] == i0[kk]);
                    } else {
                        assert(ins_l@[ins_l@.len() - 1].0 == tt);
                    }
                }
            }
            t += 1;
        }
        let ghost outs_v = outs_l@;
        let ghost ins_v = ins_l@;
        let ghost places0 = places@;
        places[p].output_transitions = outs_l;
        places[p].input_transitions = ins_l;
        proof {
            assert(places@[p as int].output_transitions@ == outs_v);
            assert(places@[p as int].input_transitions@ == ins_v);
            assert(places@[p as int].id == places0[p as int].id);
            assert(places@[p as int].name@ == places0[p as int].name@);
            assert forall|x: int|
                0 <= x < n_p && x != p as int implies #[trigger] places@[x]
                == places0[x] by {}
            assert forall|t2: u32|
                t2 < n_tt implies #[trigger] arc_weight(places@[p as int].output_transitions@, t2)
                == arc_weight(transitions@[t2 as int].input_places@, p as u32) by {
                let aw = arc_weight(transitions@[t2 as int].input_places@, p as u32);
                if aw >= 1 {
                    let kk = choose|kk: int| 0 <= kk < outs_v.len() && (#[trigger] outs_v[kk]).0
                        == t2;
                    lemma_arc_weight_at(outs_v, kk);
                } else {
                    assert forall|kk: int| 0 <= kk < outs_v.len() implies outs_v[kk].0
                        != t2 by {}
                    lemma_arc_weight_absent(outs_v, t2);
                }
            }
            assert forall|t2: u32|
                t2 < n_tt implies #[trigger] arc_weight(places@[p as int].input_transitions@, t2)
                == arc_weight(transitions@[t2 as int].output_places@, p as u32) by {
                let aw = arc_weight(transitions@[t2 as int].output_places@, p as u32);
                if aw >= 1 {
                    let kk = choose|kk: int| 0 <= kk < ins_v.len() && (#[trigger] ins_v[kk]).0
                        == t2;
                    lemma_arc_weight_at(ins_v, kk);
                } else {
                    assert forall|kk: int| 0 <= kk < ins_v.len() implies ins_v[kk].0 != t2 by {}
                    lemma_arc_weight_absent(ins_v, t2);
                }
            }
        }
        p += 1;
    }

    let module = PetrinetModul { id, name: clone_string(&raw.name), places, transitions };
    proof {
        assert(module_wf(module));
    }
    (module, marking)
}

/// Build the modular net from the parsed input: discover interface
/// transitions (those whose places span more than one module), assign ids,
/// project every module, and record which modules reference each interface
/// transition.  A place referenced by a transition but declared in no
/// module is the fatal reference error, reported by name.
#[verifier::rlimit(100)]
#[verifier::spinoff_prover]
pub fn transform(input: RawParserInput) -> (res: Result<ModularPetrinet, String>)
    requires
        raw_input_wf(input),
    ensures
        res matches Ok(net) ==> {
            &&& net_wf(net)
            &&& net.intern_transition_start == count_spanning(
                input.transitions@,
                input.modules@,
            )
            &&& net.modules@.len() == input.modules@.len()
            &&& forall|m: int|
                0 <= m < net.modules@.len() ==> (#[trigger] net.modules@[m]).name@
                    == input.modules@[m].name@
            &&& forall|m: int|
                0 <= m < net.modules@.len() ==> (#[trigger] net.modules@[m]).places@.len()
                    == input.modules@[m].places@.len()
            &&& forall|m: int, j: u32|
                0 <= m < net.modules@.len() && (j as int) < input.modules@[m].places@.len()
                    ==> #[trigger] pcs_count(net.markings@[m]@, j)
                    == input.modules@[m].places@[j as int].weight
        },
        res matches Ok(net) ==> (forall|i: int, k: int|
            0 <= i < input.transitions@.len() && 0 <= k
                < input.transitions@[i].input_places@.len() ==> declared(
                input.modules@,
                (#[trigger] input.transitions@[i].input_places@[k]).name@,
            )) && (forall|i: int, k: int|
            0 <= i < input.transitions@.len() && 0 <= k
                < input.transitions@[i].output_places@.len() ==> declared(
                input.modules@,
                (#[trigger] input.transitions@[i].output_places@[k]).name@,
            )),
        res matches Err(nm) ==> !declared(input.modules@, nm@) && exists|i: int|
            #![trigger input.transitions@[i]]
            0 <= i < input.transitions@.len() && ((exists|k: int|
                0 <= k < input.transitions@[i].input_places@.len() && (
                #[trigger] input.transitions@[i].input_places@[k]).name@ == nm@) || (exists|k: int|
                0 <= k < input.transitions@[i].output_places@.len() && (
                #[trigger] input.transitions@[i].output_places@[k]).name@ == nm@)),
{
    let n_t = input.transitions.len();
    let n_m = input.modules.len();

    let mut belongs: Vec<Vec<ModuleId>> = Vec::new();
    let mut i: usize = 0;
    while i < n_t
        invariant
            i <= n_t,
            n_t == input.transitions@.len(),
            raw_input_wf(input),
            belongs@.len() == i,
            forall|ii: int|
                0 <= ii < i ==> {
                    &&& forall|x: int, y: int|
                        0 <= x < y < (#[trigger] belongs@[ii])@.len() ==> belongs@[ii]@[x]
                            < belongs@[ii]@[y]
                    &&& forall|m2: u16|
                        (m2 as int) < input.modules@.len() ==> (belongs@[ii]@.contains(m2) <==>
                        #[trigger] touches(input.transitions@[ii], input.modules@, m2 as int))
                    &&& forall|x: int|
                        0 <= x < belongs@[ii]@.len() ==> (#[trigger] belongs@[ii]@[x])
                            < input.modules@.len()
                },
            forall|ii: int, k: int|
                0 <= ii < i && 0 <= k < input.transitions@[ii].input_places@.len() ==> declared(
                    input.modules@,
                    (#[trigger] input.transitions@[ii].input_places@[k]).name@,
                ),
            forall|ii: int, k: int|
                0 <= ii < i && 0 <= k < input.transitions@[ii].output_places@.len() ==> declared(
                    input.modules@,
                    (#[trigger] input.transitions@[ii].output_places@[k]).name@,
                ),
        decreases n_t - i,
    {
        match transition_belongs_module(&input.transitions[i], &input.modules) {
            Ok(v) => {
                belongs.push(v);
            },
            Err(nm) => {
                proof {
                    let tr = input.transitions@[i as int];
                    if exists|k: int|
                        0 <= k < tr.input_places@.len() && (#[trigger] tr.input_places@[k]).name@
                            == nm@ {
                        let k = choose|k: int|
                            0 <= k < tr.input_places@.len() && (
                            #[trigger] tr.input_places@[k]).name@ == nm@;
                        assert(input.transitions@[i as int].input_places@[k].name@ == nm@);
                    } else {
                        let k = choose|k: int|
                            0 <= k < tr.output_places@.len() && (
                            #[trigger] tr.output_places@[k]).name@ == nm@;
                        assert(input.transitions@[i as int].output_places@[k].name@ == nm@);
                    }
                }
                return Err(nm);
            },
        }
        i += 1;
    }

    let mut it: Vec<(String, u32)> = Vec::new();
    let mut i2: usize = 0;
    while i2 < n_t
        invariant
            i2 <= n_t,
            n_t == input.transitions@.len(),
            n_t <= u32::MAX / 2,
            belongs@.len() == n_t,
            raw_input_wf(input),
            it@.len() <= i2,
            forall|x: int| 0 <= x < it@.len() ==> (#[trigger] it@[x]).1 == x,
            forall|ii: int|
                0 <= ii < n_t ==> {
                    &&& forall|x: int, y: int|
                        0 <= x < y < (#[trigger] belongs@[ii])@.len() ==> belongs@[ii]@[x]
                            < belongs@[ii]@[y]
                    &&& forall|m2: u16|
                        (m2 as int) < input.modules@.len() ==> (belongs@[ii]@.contains(m2) <==>
                        #[trigger] touches(input.transitions@[ii], input.modules@, m2 as int))
                    &&& forall|x: int|
                        0 <= x < belongs@[ii]@.len() ==> (#[trigger] belongs@[ii]@[x])
                            < input.modules@.len()
                },
            it@.len() as int == count_spanning(
                input.transitions@.subrange(0, i2 as int),
                input.modules@,
            ),
        decreases n_t - i2,
    {
        let many = belongs[i2].len() > 1;
        if many {
            let nid = it.len() as u32;
            it.push((clone_string(&input.transitions[i2].name), nid));
        }
        proof {
            let tr = input.transitions@[i2 as int];
            let v = belongs@[i2 as int]@;
            assert(many == spans_modules(tr, input.modules@)) by {
                if many {
                    assert(v[0] < v[1]);
                    assert(v.contains(v[0]) && v.contains(v[1]));
                    assert(touches(tr, input.modules@, v[0] as int));
                    assert(touches(tr, input.modules@, v[1] as int));
                } else {
                    if spans_modules(tr, input.modules@) {
                        let (m1, m2) = choose|m1: int, m2: int|
                            #![trigger touches(tr, input.modules@, m1), touches(tr, input.modules@, m2)]
                            0 <= m1 < m2 < input.modules@.len() && touches(
                                tr,
                                input.modules@,
                                m1,
                            ) && touches(tr, input.modules@, m2);
                        assert(v.contains(m1 as u16) && v.contains(m2 as u16));
                        let x1 = choose|x1: int| 0 <= x1 < v.len() && v[x1] == m1 as u16;
                        let x2 = choose|x2: int| 0 <= x2 < v.len() && v[x2] == m2 as u16;
                        assert(x1 != x2);
                        assert(v.len() >= 2);
                    }
                }
            }
            assert(input.transitions@.subrange(0, i2 + 1).drop_last()
                =~= input.transitions@.subrange(0, i2 as int));
            assert(input.transitions@.subrange(0, i2 + 1).last() == tr);
        }
        i2 += 1;
    }
    let intern_start = it.len() as u32;
    proof {
        assert(input.transitions@.subrange(0, n_t as int) =~= input.transitions@);
    }

    let mut modules: Vec<PetrinetModul> = Vec::new();
    let mut markings: Vec<Marking> = Vec::new();
    let mut m: usize = 0;
    while m < n_m
        invariant
            m <= n_m,
            n_m == input.modules@.len(),
            raw_input_wf(input),
            belongs@.len() == n_t,
            n_t == input.transitions@.len(),
            intern_start == it@.len(),
            it@.len() <= u32::MAX / 2,
            forall|x: int| 0 <= x < it@.len() ==> (#[trigger] it@[x]).1 == x,
            modules@.len() == m,
            markings@.len() == m,
            forall|mm: int|
                0 <= mm < m ==> module_wf(#[trigger] modules@[mm]) && modules@[mm].id == mm
                    && modules@[mm].name@ == input.modules@[mm].name@
                    && modules@[mm].places@.len() == input.modules@[mm].places@.len()
                    && modules@[mm].transitions@.len() >= intern_start,
            forall|mm: int| 0 <= mm < m ==> wf_marking(#[trigger] markings@[mm]),
            forall|mm: int, j: u32|
                0 <= mm < m && (j as int) < input.modules@[mm].places@.len()
                    ==> #[trigger] pcs_count(markings@[mm]@, j)
                    == input.modules@[mm].places@[j as int].weight,
        decreases n_m - m,
    {
        let pr = build_module(&input.modules[m], &input.transitions, &belongs, m as u16, &it);
        let (module, marking) = pr;
        modules.push(module);
        markings.push(marking);
        m += 1;
    }

    let mut overview: Vec<Vec<ModuleId>> = Vec::new();
    let mut t: usize = 0;
    while t < it.len()
        invariant
            t <= it@.len(),
            intern_start == it@.len(),
            n_m == input.modules@.len(),
            n_m <= u16::MAX,
            modules@.len() == n_m,
            forall|mm: int|
                0 <= mm < n_m ==> module_wf(#[trigger] modules@[mm]) && modules@[mm].id == mm
                    && modules@[mm].transitions@.len() >= intern_start,
            overview@.len() == t,
            forall|tt: int, kk: int|
                0 <= tt < t && 0 <= kk < overview@[tt]@.len() ==> (
                #[trigger] overview@[tt]@[kk]) < n_m,
            forall|tt: int, kk: int, ll: int|
                0 <= tt < t && 0 <= kk < ll < overview@[tt]@.len() ==> overview@[tt]@[kk]
                    < overview@[tt]@[ll],
            forall|tt: int, mid: u16|
                0 <= tt < t && mid < n_m ==> ((#[trigger] overview@[tt]@.contains(mid)) <==> proper(
                    modules@[mid as int],
                    tt as u32,
                )),
        decreases it@.len() - t,
    {
        let mut v: Vec<ModuleId> = Vec::new();
        let mut mm: usize = 0;
        while mm < n_m
            invariant
                mm <= n_m,
                n_m <= u16::MAX,
                t < it@.len(),
                intern_start == it@.len(),
                modules@.len() == n_m,
                forall|m2: int|
                    0 <= m2 < n_m ==> module_wf(#[trigger] modules@[m2])
                        && modules@[m2].transitions@.len() >= intern_start,
                forall|kk: int| 0 <= kk < v@.len() ==> (#[trigger] v@[kk]) < mm,
                forall|kk: int, ll: int| 0 <= kk < ll < v@.len() ==> v@[kk] < v@[ll],
                forall|mid: u16|
                    mid < mm ==> ((#[trigger] v@.contains(mid)) <==> proper(
                        modules@[mid as int],
                        t as u32,
                    )),
            decreases n_m - mm,
        {
            let ghost v0 = v@;
            let tr = &modules[mm].transitions[t];
            let is_proper = tr.input_places.len() > 0 || tr.output_places.len() > 0;
            if is_proper {
                v.push(mm as u16);
            }
            proof {
                assert(is_proper == proper(modules@[mm as int], t as u32));
                assert forall|mid: u16|
                    mid < mm + 1 implies ((#[trigger] v@.contains(mid)) <==> proper(
                    modules@[mid as int],
                    t as u32,
                )) by {
                    if mid < mm {
                        if v0.contains(mid) {
                            let x = choose|x: int| 0 <= x < v0.len() && v0[x] == mid;
                            assert(v@[x] == mid);
                        }
                        if v@.contains(mid) {
                            let x = choose|x: int| 0 <= x < v@.len() && v@[x] == mid;
                            assert(x < v0.len());
                            assert(v0[x] == mid);
                        }
                    } else {
                        if is_proper {
                            assert(v@[v@.len() - 1] == mm as u16);
                        } else {
                            if v@.contains(mid) {
                                let x = choose|x: int| 0 <= x < v@.len() && v@[x] == mid;
                            }
                        }
                    }
                }
            }
            mm += 1;
        }
        overview.push(v);
        t += 1;
    }

    let net = ModularPetrinet {
        modules,
        markings,
        intern_transition_start: intern_start,
        interface_t_overview: overview,
    };
    proof {
        assert(net_wf(net));
    }
    Ok(net)
}

/// Is the name of arc `k` distinct from every later arc name in the list?
fn arc_name_fresh(arcs: &Vec<RawParserPlace>, k: usize) -> (r: bool)
    requires
        k < arcs@.len(),
    ensures
        r == forall|l: int| k < l < arcs@.len() ==> arcs@[k as int].name@ != (
        #[trigger] arcs@[l]).name@,
{
    let n = arcs.len();
    assert(k < n);
    let mut l: usize = k + 1;
    while l < arcs.len()
        invariant
            k < l <= arcs@.len(),
            forall|ll: int| k < ll < l ==> arcs@[k as int].name@ != (#[trigger] arcs@[ll]).name@,
        decreases arcs@.len() - l,
    {
        if arcs[k].name == arcs[l].name {
            return false;
        }
        l += 1;
    }
    true
}

/// Check one weighted place list: positive weights, distinct names.
fn check_arcs(arcs: &Vec<RawParserPlace>) -> (r: bool)
    ensures
        r == raw_arcs_wf(arcs@),
{
    let mut k: usize = 0;
    while k < arcs.len()
        invariant
            k <= arcs@.len(),
            forall|kk: int| 0 <= kk < k ==> (#[trigger] arcs@[kk]).weight >= 1,
            forall|kk: int, ll: int| 0 <= kk < k && kk < ll < arcs@.len() ==> arcs@[kk].name@
                != arcs@[ll].name@,
        decreases arcs@.len() - k,
    {
        if arcs[k].weight == 0 {
            return false;
        }
        if !arc_name_fresh(arcs, k) {
            return false;
        }
        k += 1;
    }
    true
}

/// Is the place name at `(m1, j1)` distinct from every lexicographically
/// later place name?
fn place_name_fresh(modules: &Vec<RawParserModule>, m1: usize, j1: usize) -> (r: bool)
    requires
        m1 < modules@.len(),
        j1 < modules@[m1 as int].places@.len(),
    ensures
        r == forall|m2: int, j2: int|
            0 <= m2 < modules@.len() && 0 <= j2 < modules@[m2].places@.len() && (m2 > m1 || (m2
                == m1 && j2 > j1)) ==> modules@[m1 as int].places@[j1 as int].name@ != (
            #[trigger] modules@[m2].places@[j2]).name@,
{
    let mut m2: usize = m1;
    while m2 < modules.len()
        invariant
            m1 <= m2 <= modules@.len(),
            m1 < modules@.len(),
            j1 < modules@[m1 as int].places@.len(),
            forall|mm: int, j2: int|
                0 <= mm < m2 && 0 <= j2 < modules@[mm].places@.len() && (mm > m1 || (mm == m1 && j2
                    > j1)) ==> modules@[m1 as int].places@[j1 as int].name@ != (
                #[trigger] modules@[mm].places@[j2]).name@,
        decreases modules@.len() - m2,
    {
        let n2 = modules[m1].places.len();
        assert(j1 < n2);
        let mut j2: usize = if m2 == m1 {
            j1 + 1
        } else {
            0
        };
        while j2 < modules[m2].places.len()
            invariant
                m1 <= m2 < modules@.len(),
                m1 < modules@.len(),
                j1 < modules@[m1 as int].places@.len(),
                m2 == m1 ==> j2 >= j1 + 1,
                j2 <= modules@[m2 as int].places@.len(),
                forall|jj: int|
                    0 <= jj < j2 && (m2 > m1 || jj > j1)
                        ==> modules@[m1 as int].places@[j1 as int].name@ != (
                    #[trigger] modules@[m2 as int].places@[jj]).name@,
            decreases modules@[m2 as int].places@.len() - j2,
        {
            if modules[m1].places[j1].name == modules[m2].places[j2].name {
                return false;
            }
            j2 += 1;
        }
        m2 += 1;
    }
    true
}

/// Is the transition name at `i` distinct from every later one?
fn transition_name_fresh(ts: &Vec<RawParserTransition>, i: usize) -> (r: bool)
    requires
        i < ts@.len(),
    ensures
        r == forall|j: int| i < j < ts@.len() ==> ts@[i as int].name@ != (#[trigger] ts@[j]).name@,
{
    let n = ts.len();
    assert(i < n);
    let mut j: usize = i + 1;
    while j < ts.len()
        invariant
            i < j <= ts@.len(),
            forall|jj: int| i < jj < j ==> ts@[i as int].name@ != (#[trigger] ts@[jj]).name@,
        decreases ts@.len() - j,
    {
        if ts[i].name == ts[j].name {
            return false;
        }
        j += 1;
    }
    true
}

/// Decide whether a parsed input satisfies every condition `transform`
/// demands: bounded sizes, globally distinct place and transition names,
/// and positive, duplicate-free arc lists.
pub fn check_raw_input(input: &RawParserInput) -> (r: bool)
    ensures
        r == raw_input_wf(*input),
{
    if input.modules.len() > u16::MAX as usize {
        return false;
    }
    if input.transitions.len() > (u32::MAX / 2) as usize {
        return false;
    }
    let mut m: usize = 0;
    while m < input.modules.len()
        invariant
            m <= input.modules@.len(),
            forall|mm: int|
                0 <= mm < m ==> (#[trigger] input.modules@[mm]).places@.len() <= u32::MAX,
        decreases input.modules@.len() - m,
    {
        if input.modules[m].places.len() > u32::MAX as usize {
            return false;
        }
        m += 1;
    }
    let mut m1: usize = 0;
    while m1 < input.modules.len()
        invariant
            m1 <= input.modules@.len(),
            forall|mm: int, j1: int, m2: int, j2: int|
                0 <= mm < m1 && 0 <= j1 < input.modules@[mm].places@.len() && 0 <= m2
                    < input.modules@.len() && 0 <= j2 < input.modules@[m2].places@.len() && (mm
                    != m2 || j1 != j2) ==> (#[trigger] input.modules@[mm].places@[j1]).name@ != (
                #[trigger] input.modules@[m2].places@[j2]).name@,
        decreases input.modules@.len() - m1,
    {
        let mut j1: usize = 0;
        while j1 < input.modules[m1].places.len()
            invariant
                m1 < input.modules@.len(),
                j1 <= input.modules@[m1 as int].places@.len(),
                forall|mm: int, jj1: int, m2: int, j2: int|
                    0 <= mm < m1 && 0 <= jj1 < input.modules@[mm].places@.len() && 0 <= m2
                        < input.modules@.len() && 0 <= j2 < input.modules@[m2].places@.len() && (mm
                        != m2 || jj1 != j2) ==> (#[trigger] input.modules@[mm].places@[jj1]).name@
                        != (#[trigger] input.modules@[m2].places@[j2]).name@,
                forall|jj1: int, m2: int, j2: int|
                    0 <= jj1 < j1 && 0 <= m2 < input.modules@.len() && 0 <= j2
                        < input.modules@[m2].places@.len() && (m1 as int != m2 || jj1 != j2) ==> (
                    #[trigger] input.modules@[m1 as int].places@[jj1]).name@ != (
                    #[trigger] input.modules@[m2].places@[j2]).name@,
            decreases input.modules@[m1 as int].places@.len() - j1,
        {
            if !place_name_fresh(&input.modules, m1, j1) {
                return false;
            }
            proof {
                assert forall|m2: int, j2: int|
                    0 <= m2 < input.modules@.len() && 0 <= j2
                        < input.modules@[m2].places@.len() && (m1 as int != m2 || j1 as int != j2)
                        implies (#[trigger] input.modules@[m1 as int].places@[j1 as int]).name@
                    != (#[trigger] input.modules@[m2].places@[j2]).name@ by {
                    if m2 > m1 as int || (m2 == m1 as int && j2 > j1 as int) {
                    } else {
                        // The lexicographically earlier position was checked
                        // in an earlier iteration, with the roles swapped.
                    }
                }
            }
            j1 += 1;
        }
        m1 += 1;
    }
    let mut i: usize = 0;
    while i < input.transitions.len()
        invariant
            i <= input.transitions@.len(),
            forall|ii: int, jj: int|
                0 <= ii < i && ii < jj < input.transitions@.len()
                    ==> input.transitions@[ii].name@ != input.transitions@[jj].name@,
            forall|ii: int|
                0 <= ii < i ==> raw_arcs_wf((#[trigger] input.transitions@[ii]).input_places@)
                    && raw_arcs_wf(input.transitions@[ii].output_places@),
        decreases input.transitions@.len() - i,
    {
        if !transition_name_fresh(&input.transitions, i) {
            return false;
        }
        if !check_arcs(&input.transitions[i].input_places) {
            return false;
        }
        if !check_arcs(&input.transitions[i].output_places) {
            return false;
        }
        i += 1;
    }
    proof {
        assert forall|ii: int, jj: int|
            0 <= ii < jj < input.transitions@.len() implies input.transitions@[ii].name@
            != input.transitions@[jj].name@ by {}
    }
    true
}

} // verus!
