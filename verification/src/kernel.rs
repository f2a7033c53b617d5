//! The module firing kernel: computing the initial firable set and firing a
//! single transition while maintaining the firable-set invariant.

use vstd::prelude::*;
use crate::marking::{Marking, PlaceCount, pcs_count, wf_marking};
use crate::net::{
    PetrinetModul, TransitionId, arc_weight, arcs_wf, enabled, firable_inv, fired_count,
    lemma_arc_weight_at, lemma_arc_weight_absent, lemma_arc_weight_pos, module_wf, proper,
};

verus! {

/// A marking whose counts dominate another pointwise enables at least as
/// much.
pub proof fn lemma_enabled_monotone(m: PetrinetModul, a: Seq<PlaceCount>, b: Seq<PlaceCount>, t: u32)
    requires
        enabled(m, a, t),
        forall|p: u32| pcs_count(a, p) <= pcs_count(b, p),
    ensures
        enabled(m, b, t),
{
}

/// Firable soundness: under the firable-set invariant, a transition is in
/// the set exactly when it is proper and every input place holds enough
/// tokens.
pub proof fn lemma_firable_soundness(
    m: PetrinetModul,
    mk: Seq<PlaceCount>,
    f: Seq<u32>,
    t: u32,
)
    requires
        firable_inv(m, mk, f),
    ensures
        f.contains(t) <==> (t < m.transitions@.len() && proper(m, t) && enabled(m, mk, t)),
{
}

/// Copy a transition-id list.
pub fn clone_ids(v: &Vec<TransitionId>) -> (r: Vec<TransitionId>)
    ensures
        r@ == v@,
{
    let mut r: Vec<TransitionId> = Vec::new();
    let mut i: usize = 0;
    while i < v.len()
        invariant
            i <= v@.len(),
            r@ == v@.subrange(0, i as int),
        decreases v@.len() - i,
    {
        r.push(v[i]);
        proof {
            assert(r@ =~= v@.subrange(0, i + 1));
        }
        i += 1;
    }
    proof {
        assert(r@ =~= v@);
    }
    r
}

/// The position of `t` in a transition-id list, if any.
fn find_pos(f: &Vec<TransitionId>, t: TransitionId) -> (r: Option<usize>)
    ensures
        match r {
            Some(k) => k < f@.len() && f@[k as int] == t,
            None => !f@.contains(t),
        },
{
    let mut i: usize = 0;
    while i < f.len()
        invariant
            i <= f@.len(),
            forall|j: int| 0 <= j < i ==> f@[j] != t,
        decreases f@.len() - i,
    {
        if f[i] == t {
            return Some(i);
        }
        i += 1;
    }
    None
}

/// `swap_remove` takes exactly one occurrence out of a duplicate-free list.
proof fn lemma_swap_remove_set(s: Seq<u32>, s2: Seq<u32>, k: int)
    requires
        0 <= k < s.len(),
        forall|a: int, b: int| 0 <= a < b < s.len() ==> s[a] != s[b],
        s2 == s.update(k, s.last()).drop_last(),
    ensures
        forall|a: int, b: int| 0 <= a < b < s2.len() ==> s2[a] != s2[b],
        forall|x: u32| s2.contains(x) <==> (s.contains(x) && x != s[k]),
        s2.len() == s.len() - 1,
{
    assert forall|x: u32| s2.contains(x) implies (s.contains(x) && x != s[k]) by {
        let j = choose|j: int| 0 <= j < s2.len() && s2[j] == x;
        if j == k {
            assert(s[s.len() - 1] == x);
            assert(k < s.len() - 1);
        } else {
            assert(s[j] == x);
        }
    }
    assert forall|x: u32| s.contains(x) && x != s[k] implies s2.contains(x) by {
        let j = choose|j: int| 0 <= j < s.len() && s[j] == x;
        if j == s.len() - 1 {
            assert(j != k);
            assert(s2[k] == x);
        } else if j != k {
            assert(s2[j] == x);
        }
    }
}

/// Membership in a pushed list.
proof fn lemma_push_set(s: Seq<u32>, e: u32)
    ensures
        forall|x: u32| s.push(e).contains(x) <==> (s.contains(x) || x == e),
{
    assert forall|x: u32| s.push(e).contains(x) implies (s.contains(x) || x == e) by {
        let j = choose|j: int| 0 <= j < s.push(e).len() && s.push(e)[j] == x;
        if j < s.len() {
            assert(s[j] == x);
        }
    }
    assert forall|x: u32| s.contains(x) || x == e implies s.push(e).contains(x) by {
        if x == e {
            assert(s.push(e)[s.len() as int] == x);
        } else {
            let j = choose|j: int| 0 <= j < s.len() && s[j] == x;
            assert(s.push(e)[j] == x);
        }
    }
}

/// Pushing an entry with another key leaves a key's weight unchanged.
proof fn lemma_arc_weight_push_other(arcs: Seq<(u32, u32)>, e: (u32, u32), p: u32)
    requires
        e.0 != p,
    ensures
        arc_weight(arcs.push(e), p) == arc_weight(arcs, p),
    decreases arcs.len(),
{
    if arcs.len() == 0 {
        assert(arcs.push(e)[0] == e);
        assert(arcs.push(e).drop_first() =~= Seq::<(u32, u32)>::empty());
        assert(arc_weight(Seq::<(u32, u32)>::empty(), p) == 0);
        assert(arc_weight(arcs.push(e), p) == arc_weight(arcs.push(e).drop_first(), p));
    } else {
        assert(arcs.push(e)[0] == arcs[0]);
        assert(arcs.push(e).drop_first() =~= arcs.drop_first().push(e));
        lemma_arc_weight_push_other(arcs.drop_first(), e, p);
    }
}

/// The arc weight of a one-longer prefix grows by the new entry's weight.
proof fn lemma_prefix_weight_step(arcs: Seq<(u32, u32)>, i: int)
    requires
        0 <= i < arcs.len(),
        forall|a: int, b: int| 0 <= a < b < arcs.len() ==> arcs[a].0 != arcs[b].0,
    ensures
        forall|p: u32|
            arc_weight(#[trigger] arcs.subrange(0, i + 1), p) == arc_weight(
                arcs.subrange(0, i),
                p,
            ) + (if arcs[i].0 == p {
                arcs[i].1 as int
            } else {
                0
            }),
{
    let pre = arcs.subrange(0, i);
    let pre1 = arcs.subrange(0, i + 1);
    assert(pre1 =~= pre.push(arcs[i]));
    assert forall|p: u32|
        arc_weight(pre1, p) == arc_weight(pre, p) + (if arcs[i].0 == p {
            arcs[i].1 as int
        } else {
            0
        }) by {
        if arcs[i].0 == p {
            assert forall|a: int| 0 <= a < pre.len() implies pre[a].0 != p by {
                assert(pre[a] == arcs[a]);
            }
            lemma_arc_weight_absent(pre, p);
            lemma_arc_weight_at(pre1, i);
        } else {
            lemma_arc_weight_push_other(pre, arcs[i], p);
        }
    }
}

/// The prefix weight of a full-length prefix is the list's weight.
proof fn lemma_prefix_weight_full(arcs: Seq<(u32, u32)>)
    ensures
        forall|p: u32| arc_weight(#[trigger] arcs.subrange(0, arcs.len() as int), p)
            == arc_weight(arcs, p),
{
    assert(arcs.subrange(0, arcs.len() as int) =~= arcs);
}

/// Does `marking` satisfy every input-place requirement of transition `t`?
pub fn check_enabled(module: &PetrinetModul, marking: &Marking, t: TransitionId) -> (r: bool)
    requires
        module_wf(*module),
        wf_marking(*marking),
        t < module.transitions@.len(),
    ensures
        r == enabled(*module, marking@, t),
{
    let tr = &module.transitions[t as usize];
    let ghost arcs = tr.input_places@;
    let n = tr.input_places.len();
    let mut i: usize = 0;
    while i < n
        invariant
            i <= n,
            n == arcs.len(),
            module_wf(*module),
            wf_marking(*marking),
            t < module.transitions@.len(),
            tr.input_places@ == arcs,
            arcs == module.transitions@[t as int].input_places@,
            forall|k: int| 0 <= k < i ==> pcs_count(marking@, (#[trigger] arcs[k]).0) >= arcs[k].1,
        decreases n - i,
    {
        let (p, w) = tr.input_places[i];
        let c = marking.count(p);
        if c < w {
            proof {
                lemma_arc_weight_at(arcs, i as int);
            }
            return false;
        }
        i += 1;
    }
    proof {
        assert forall|p: u32| pcs_count(marking@, p) >= #[trigger] arc_weight(arcs, p) by {
            if arc_weight(arcs, p) != 0 {
                lemma_arc_weight_pos(arcs, p);
            }
        }
    }
    true
}

/// The initial firable set of a module at a marking: every proper transition
/// whose input places all hold enough tokens.
pub fn initial_firable(module: &PetrinetModul, marking: &Marking) -> (f: Vec<TransitionId>)
    requires
        module_wf(*module),
        wf_marking(*marking),
    ensures
        firable_inv(*module, marking@, f@),
{
    let mut f: Vec<TransitionId> = Vec::new();
    let n = module.transitions.len();
    let mut t: usize = 0;
    while t < n
        invariant
            t <= n,
            n == module.transitions@.len(),
            module_wf(*module),
            wf_marking(*marking),
            forall|k: int| 0 <= k < f@.len() ==> (#[trigger] f@[k]) < t,
            forall|a: int, b: int| 0 <= a < b < f@.len() ==> f@[a] != f@[b],
            forall|u: u32|
                #[trigger] f@.contains(u) ==> u < t && proper(*module, u) && enabled(
                    *module,
                    marking@,
                    u,
                ),
            forall|u: u32|
                u < t && #[trigger] proper(*module, u) && enabled(*module, marking@, u)
                    ==> f@.contains(u),
        decreases n - t,
    {
        let tr = &module.transitions[t];
        let ghost f0 = f@;
        let is_proper = tr.input_places.len() > 0 || tr.output_places.len() > 0;
        proof {
            assert(is_proper == proper(*module, t as u32));
        }
        let fire_ok = is_proper && check_enabled(module, marking, t as u32);
        if fire_ok {
            f.push(t as u32);
            proof {
                lemma_push_set(f0, t as u32);
            }
        }
        proof {
            assert(fire_ok == (proper(*module, t as u32) && enabled(*module, marking@, t as u32)));
            assert forall|u: u32|
                #[trigger] f@.contains(u) implies u < t + 1 && proper(*module, u) && enabled(
                *module,
                marking@,
                u,
            ) by {
                if !fire_ok || u != t as u32 {
                    assert(f0.contains(u));
                }
            }
            assert forall|u: u32|
                u < t + 1 && #[trigger] proper(*module, u) && enabled(*module, marking@, u)
                implies f@.contains(u) by {
                if u < t {
                    assert(f0.contains(u));
                } else {
                    assert(u == t as u32);
                    assert(fire_ok);
                    assert(f@ == f0.push(t as u32));
                }
            }
        }
        t += 1;
    }
    f
}

/// The weight attached to key `p` in a duplicate-free arc list.
pub fn arc_weight_of(arcs: &Vec<(u32, u32)>, p: u32) -> (r: u32)
    requires
        forall|a: int, b: int| 0 <= a < b < arcs@.len() ==> arcs@[a].0 != arcs@[b].0,
    ensures
        r == arc_weight(arcs@, p),
{
    let mut j: usize = 0;
    while j < arcs.len()
        invariant
            j <= arcs@.len(),
            forall|a: int, b: int| 0 <= a < b < arcs@.len() ==> arcs@[a].0 != arcs@[b].0,
            forall|jj: int| 0 <= jj < j ==> arcs@[jj].0 != p,
        decreases arcs@.len() - j,
    {
        let (q, w) = arcs[j];
        if q == p {
            proof {
                lemma_arc_weight_at(arcs@, j as int);
            }
            return w;
        }
        j += 1;
    }
    proof {
        lemma_arc_weight_absent(arcs@, p);
    }
    0
}

/// Would firing `t` at `marking` keep every place count within `u32`?
pub fn fire_fits(module: &PetrinetModul, marking: &Marking, t: TransitionId) -> (r: bool)
    requires
        module_wf(*module),
        wf_marking(*marking),
        t < module.transitions@.len(),
    ensures
        r == (forall|p: u32| fired_count(*module, marking@, t, p) <= u32::MAX),
{
    let tr = &module.transitions[t as usize];
    let ghost outs = tr.output_places@;
    let n = tr.output_places.len();
    let mut i: usize = 0;
    while i < n
        invariant
            i <= n,
            n == outs.len(),
            module_wf(*module),
            wf_marking(*marking),
            t < module.transitions@.len(),
            tr.output_places@ == outs,
            tr.input_places@ == module.transitions@[t as int].input_places@,
            outs == module.transitions@[t as int].output_places@,
            forall|k: int|
                0 <= k < i ==> fired_count(*module, marking@, t, (#[trigger] outs[k]).0)
                    <= u32::MAX,
        decreases n - i,
    {
        let (p, w) = tr.output_places[i];
        let c = marking.count(p);
        let iw = arc_weight_of(&tr.input_places, p);
        proof {
            lemma_arc_weight_at(outs, i as int);
        }
        if c as u64 + w as u64 > u32::MAX as u64 + iw as u64 {
            return false;
        }
        i += 1;
    }
    proof {
        assert forall|p: u32| fired_count(*module, marking@, t, p) <= u32::MAX by {
            let ow = arc_weight(module.transitions@[t as int].output_places@, p);
            if ow != 0 {
                lemma_arc_weight_pos(outs, p);
            }
        }
    }
    true
}

/// Fire transition `id` at `marking` with firable set `firable`, producing
/// the successor marking and its firable set.
///
/// Input arcs are consumed first, disabling transitions whose requirement on
/// a drained place is no longer met; output arcs are then produced, enabling
/// transitions all of whose input places now hold enough tokens.
pub fn fire(
    module: &PetrinetModul,
    marking: &Marking,
    firable: &Vec<TransitionId>,
    id: TransitionId,
) -> (res: (Marking, Vec<TransitionId>))
    requires
        module_wf(*module),
        wf_marking(*marking),
        firable_inv(*module, marking@, firable@),
        firable@.contains(id),
        forall|p: u32| fired_count(*module, marking@, id, p) <= u32::MAX,
    ensures
        wf_marking(res.0),
        forall|p: u32| pcs_count(res.0@, p) == fired_count(*module, marking@, id, p),
        firable_inv(*module, res.0@, res.1@),
{
    let ghost mk0 = marking@;
    let mut mk = marking.clone();
    let mut f = clone_ids(firable);
    let tr = &module.transitions[id as usize];
    let ghost ins = tr.input_places@;
    let ghost outs_all = tr.output_places@;
    proof {
        assert(enabled(*module, mk0, id));
        assert(arcs_wf(ins, module.places@.len() as int));
        assert(arcs_wf(outs_all, module.places@.len() as int));
    }

    // Phase 1: consume the input arcs.
    let n_in = tr.input_places.len();
    let mut i: usize = 0;
    while i < n_in
        invariant
            i <= n_in,
            n_in == ins.len(),
            module_wf(*module),
            tr.input_places@ == ins,
            ins == module.transitions@[id as int].input_places@,
            id < module.transitions@.len(),
            arcs_wf(ins, module.places@.len() as int),
            wf_marking(mk),
            enabled(*module, mk0, id),
            forall|p: u32|
                pcs_count(mk@, p) == pcs_count(mk0, p) - arc_weight(
                    #[trigger] ins.subrange(0, i as int),
                    p,
                ),
            forall|k: int| 0 <= k < f@.len() ==> (#[trigger] f@[k]) < module.transitions@.len(),
            forall|a: int, b: int| 0 <= a < b < f@.len() ==> f@[a] != f@[b],
            forall|u: u32|
                #[trigger] f@.contains(u) <==> (u < module.transitions@.len() && proper(
                    *module,
                    u,
                ) && enabled(*module, mk@, u)),
        decreases n_in - i,
    {
        let (p, w) = tr.input_places[i];
        let ghost mk_before = mk@;
        proof {
            lemma_arc_weight_at(ins, i as int);
            lemma_prefix_weight_step(ins, i as int);
            let pre = ins.subrange(0, i as int);
            assert forall|a: int| 0 <= a < pre.len() implies pre[a].0 != p by {
                assert(pre[a] == ins[a]);
            }
            lemma_arc_weight_absent(pre, p);
            assert(pcs_count(mk@, p) == pcs_count(mk0, p));
            assert(pcs_count(mk0, p) >= arc_weight(ins, p));
        }
        let c = mk.update(p, w, false);
        let outs = &module.places[p as usize].output_transitions;
        let ghost os = outs@;
        let ghost f_pre = f@;
        let n_o = outs.len();
        let mut j: usize = 0;
        while j < n_o
            invariant
                j <= n_o,
                n_o == os.len(),
                module_wf(*module),
                p < module.places@.len(),
                outs@ == os,
                os == module.places@[p as int].output_transitions@,
                c == pcs_count(mk@, p),
                wf_marking(mk),
                forall|k: int| 0 <= k < f@.len() ==> (#[trigger] f@[k])
                    < module.transitions@.len(),
                forall|a: int, b: int| 0 <= a < b < f@.len() ==> f@[a] != f@[b],
                forall|u: u32|
                    #[trigger] f@.contains(u) <==> (f_pre.contains(u) && arc_weight(
                        os.subrange(0, j as int),
                        u,
                    ) <= c),
            decreases n_o - j,
        {
            let (t2, w2) = outs[j];
            proof {
                lemma_prefix_weight_step(os, j as int);
                let pre = os.subrange(0, j as int);
                assert forall|a: int| 0 <= a < pre.len() implies pre[a].0 != t2 by {
                    assert(pre[a] == os[a]);
                }
                lemma_arc_weight_absent(pre, t2);
            }
            if w2 > c {
                if let Some(k) = find_pos(&f, t2) {
                    let ghost fb = f@;
                    f.swap_remove(k);
                    proof {
                        lemma_swap_remove_set(fb, f@, k as int);
                    }
                }
            }
            j += 1;
        }
        proof {
            lemma_prefix_weight_full(os);
            assert(os.subrange(0, n_o as int) =~= os);
            lemma_phase1_step(*module, mk_before, mk@, f_pre, f@, id, i as int, c);
            assert(ins.subrange(0, i as int).push(ins[i as int]) =~= ins.subrange(0, i + 1));
        }
        i += 1;
    }
    proof {
        assert(ins.subrange(0, n_in as int) =~= ins);
    }
    let ghost mk1 = mk@;

    // Phase 2: produce the output arcs.
    let n_out = tr.output_places.len();
    let mut i2: usize = 0;
    while i2 < n_out
        invariant
            i2 <= n_out,
            n_out == outs_all.len(),
            module_wf(*module),
            tr.output_places@ == outs_all,
            outs_all == module.transitions@[id as int].output_places@,
            ins == module.transitions@[id as int].input_places@,
            id < module.transitions@.len(),
            arcs_wf(outs_all, module.places@.len() as int),
            wf_marking(mk),
            forall|p: u32| pcs_count(mk1, p) == pcs_count(mk0, p) - arc_weight(ins, p),
            forall|p: u32| fired_count(*module, mk0, id, p) <= u32::MAX,
            forall|p: u32|
                pcs_count(mk@, p) == pcs_count(mk1, p) + arc_weight(
                    #[trigger] outs_all.subrange(0, i2 as int),
                    p,
                ),
            forall|k: int| 0 <= k < f@.len() ==> (#[trigger] f@[k]) < module.transitions@.len(),
            forall|a: int, b: int| 0 <= a < b < f@.len() ==> f@[a] != f@[b],
            forall|u: u32|
                #[trigger] f@.contains(u) <==> (u < module.transitions@.len() && proper(
                    *module,
                    u,
                ) && enabled(*module, mk@, u)),
        decreases n_out - i2,
    {
        let (p, w) = tr.output_places[i2];
        let ghost mk_before = mk@;
        proof {
            lemma_arc_weight_at(outs_all, i2 as int);
            lemma_prefix_weight_step(outs_all, i2 as int);
            let pre = outs_all.subrange(0, i2 as int);
            assert forall|a: int| 0 <= a < pre.len() implies pre[a].0 != p by {
                assert(pre[a] == outs_all[a]);
            }
            lemma_arc_weight_absent(pre, p);
            assert(pcs_count(mk@, p) == pcs_count(mk1, p));
            assert(fired_count(*module, mk0, id, p) == pcs_count(mk1, p) + arc_weight(
                outs_all,
                p,
            ));
            assert(arc_weight(outs_all, p) == outs_all[i2 as int].1);
        }
        mk.update(p, w, true);
        let outs = &module.places[p as usize].output_transitions;
        let ghost os = outs@;
        let ghost f_pre = f@;
        let n_o = outs.len();
        let mut j: usize = 0;
        while j < n_o
            invariant
                j <= n_o,
                n_o == os.len(),
                module_wf(*module),
                p < module.places@.len(),
                outs@ == os,
                os == module.places@[p as int].output_transitions@,
                wf_marking(mk),
                forall|k: int| 0 <= k < f@.len() ==> (#[trigger] f@[k])
                    < module.transitions@.len(),
                forall|a: int, b: int| 0 <= a < b < f@.len() ==> f@[a] != f@[b],
                forall|u: u32|
                    #[trigger] f@.contains(u) <==> (f_pre.contains(u) || (arc_weight(
                        os.subrange(0, j as int),
                        u,
                    ) >= 1 && u < module.transitions@.len() && proper(*module, u) && enabled(
                        *module,
                        mk@,
                        u,
                    ))),
            decreases n_o - j,
        {
            let (t2, _w2) = outs[j];
            proof {
                lemma_prefix_weight_step(os, j as int);
                let pre = os.subrange(0, j as int);
                assert forall|a: int| 0 <= a < pre.len() implies pre[a].0 != t2 by {
                    assert(pre[a] == os[a]);
                }
                lemma_arc_weight_absent(pre, t2);
                assert(os[j as int].0 < module.transitions@.len());
                assert(os[j as int].1 >= 1);
            }
            let ghost fb = f@;
            if find_pos(&f, t2).is_none() {
                if check_enabled(module, &mk, t2) {
                    proof {
                        lemma_listed_is_proper(*module, p as int, j as int);
                    }
                    f.push(t2);
                    proof {
                        lemma_push_set(fb, t2);
                    }
                }
            }
            proof {
                assert(arc_weight(os.subrange(0, j as int + 1), t2) == os[j as int].1);
                assert forall|u: u32|
                    #[trigger] f@.contains(u) <==> (f_pre.contains(u) || (arc_weight(
                        os.subrange(0, j as int + 1),
                        u,
                    ) >= 1 && u < module.transitions@.len() && proper(*module, u) && enabled(
                        *module,
                        mk@,
                        u,
                    ))) by {
                    if u != t2 {
                        assert(arc_weight(os.subrange(0, j as int + 1), u) == arc_weight(
                            os.subrange(0, j as int),
                            u,
                        ));
                        if f@.contains(u) {
                            assert(fb.contains(u));
                        }
                        if fb.contains(u) {
                            assert(f@.contains(u));
                        }
                    } else {
                        assert(arc_weight(os.subrange(0, j as int), t2) == 0);
                        if f@.contains(t2) && !fb.contains(t2) {
                            assert(proper(*module, t2) && enabled(*module, mk@, t2));
                        }
                        if fb.contains(t2) {
                            assert(f@.contains(t2));
                            assert(f_pre.contains(t2));
                        }
                    }
                }
            }
            j += 1;
        }
        proof {
            lemma_prefix_weight_full(os);
            lemma_phase2_step(*module, mk_before, mk@, f_pre, f@, id, i2 as int);
            assert(outs_all.subrange(0, i2 as int).push(outs_all[i2 as int]) =~= outs_all.subrange(
                0,
                i2 + 1,
            ));
        }
        i2 += 1;
    }
    proof {
        assert(outs_all.subrange(0, n_out as int) =~= outs_all);
    }
    (mk, f)
}

/// A transition listed in a place's consumer ledger has that place among its
/// input arcs, hence is proper.
proof fn lemma_listed_is_proper(m: PetrinetModul, p: int, j: int)
    requires
        module_wf(m),
        0 <= p < m.places@.len(),
        0 <= j < m.places@[p].output_transitions@.len(),
    ensures
        m.places@[p].output_transitions@[j].0 < m.transitions@.len(),
        proper(m, m.places@[p].output_transitions@[j].0),
        arc_weight(
            m.transitions@[m.places@[p].output_transitions@[j].0 as int].input_places@,
            p as u32,
        ) == m.places@[p].output_transitions@[j].1,
{
    let os = m.places@[p].output_transitions@;
    let t = os[j].0;
    lemma_arc_weight_at(os, j);
    assert(arc_weight(os, t) == os[j].1);
    assert(arc_weight(m.transitions@[t as int].input_places@, p as u32) == os[j].1);
    lemma_arc_weight_pos(m.transitions@[t as int].input_places@, p as u32);
}

/// After consuming an input arc of place `p` (new count `c`) and pruning the
/// firable list against `p`'s consumer ledger, the list again holds exactly
/// the enabled proper transitions.
proof fn lemma_phase1_step(
    m: PetrinetModul,
    before: Seq<PlaceCount>,
    after: Seq<PlaceCount>,
    f_pre: Seq<u32>,
    f: Seq<u32>,
    id: u32,
    i: int,
    c: u32,
)
    requires
        module_wf(m),
        id < m.transitions@.len(),
        0 <= i < m.transitions@[id as int].input_places@.len(),
        arcs_wf(m.transitions@[id as int].input_places@, m.places@.len() as int),
        ({
            let p = m.transitions@[id as int].input_places@[i].0;
            &&& c == pcs_count(after, p)
            &&& pcs_count(after, p) <= pcs_count(before, p)
            &&& forall|q: u32| q != p ==> pcs_count(after, q) == pcs_count(before, q)
            &&& forall|u: u32|
                #[trigger] f_pre.contains(u) <==> (u < m.transitions@.len() && proper(m, u)
                    && enabled(m, before, u))
            &&& forall|u: u32|
                #[trigger] f.contains(u) <==> (f_pre.contains(u) && arc_weight(
                    m.places@[p as int].output_transitions@,
                    u,
                ) <= c)
        }),
    ensures
        forall|u: u32|
            #[trigger] f.contains(u) <==> (u < m.transitions@.len() && proper(m, u) && enabled(
                m,
                after,
                u,
            )),
{
    let p = m.transitions@[id as int].input_places@[i].0;
    let os = m.places@[p as int].output_transitions@;
    assert(p < m.places@.len());
    assert forall|u: u32|
        #[trigger] f.contains(u) <==> (u < m.transitions@.len() && proper(m, u) && enabled(
            m,
            after,
            u,
        )) by {
        if u < m.transitions@.len() {
            let aw = arc_weight(m.transitions@[u as int].input_places@, p);
            assert(arc_weight(os, u) == aw);
            if f.contains(u) {
                assert(f_pre.contains(u));
                assert(enabled(m, before, u));
                assert forall|q: u32|
                    pcs_count(after, q) >= #[trigger] arc_weight(
                        m.transitions@[u as int].input_places@,
                        q,
                    ) by {
                    if q != p {
                        assert(pcs_count(after, q) == pcs_count(before, q));
                    }
                }
            } else if proper(m, u) && enabled(m, after, u) {
                assert forall|q: u32|
                    pcs_count(before, q) >= #[trigger] arc_weight(
                        m.transitions@[u as int].input_places@,
                        q,
                    ) by {
                    assert(pcs_count(after, q) >= arc_weight(
                        m.transitions@[u as int].input_places@,
                        q,
                    ));
                    if q != p {
                        assert(pcs_count(after, q) == pcs_count(before, q));
                    }
                }
                assert(enabled(m, before, u));
                assert(f_pre.contains(u));
                assert(aw > c);
                assert(pcs_count(after, p) >= aw);
                assert(false);
            }
        }
    }
}

/// After producing an output arc of place `p` and sweeping `p`'s consumer
/// ledger, the firable list again holds exactly the enabled proper
/// transitions.
proof fn lemma_phase2_step(
    m: PetrinetModul,
    before: Seq<PlaceCount>,
    after: Seq<PlaceCount>,
    f_pre: Seq<u32>,
    f: Seq<u32>,
    id: u32,
    i2: int,
)
    requires
        module_wf(m),
        id < m.transitions@.len(),
        0 <= i2 < m.transitions@[id as int].output_places@.len(),
        arcs_wf(m.transitions@[id as int].output_places@, m.places@.len() as int),
        ({
            let p = m.transitions@[id as int].output_places@[i2].0;
            &&& pcs_count(after, p) >= pcs_count(before, p)
            &&& forall|q: u32| q != p ==> pcs_count(after, q) == pcs_count(before, q)
            &&& forall|u: u32|
                #[trigger] f_pre.contains(u) <==> (u < m.transitions@.len() && proper(m, u)
                    && enabled(m, before, u))
            &&& forall|u: u32|
                #[trigger] f.contains(u) <==> (f_pre.contains(u) || (arc_weight(
                    m.places@[p as int].output_transitions@,
                    u,
                ) >= 1 && u < m.transitions@.len() && proper(m, u) && enabled(m, after, u)))
        }),
    ensures
        forall|u: u32|
            #[trigger] f.contains(u) <==> (u < m.transitions@.len() && proper(m, u) && enabled(
                m,
                after,
                u,
            )),
{
    let p = m.transitions@[id as int].output_places@[i2].0;
    let os = m.places@[p as int].output_transitions@;
    assert(p < m.places@.len());
    assert forall|u: u32|
        #[trigger] f.contains(u) <==> (u < m.transitions@.len() && proper(m, u) && enabled(
            m,
            after,
            u,
        )) by {
        if u < m.transitions@.len() {
            assert(forall|q: u32| pcs_count(before, q) <= pcs_count(after, q));
            if f.contains(u) {
                if f_pre.contains(u) {
                    lemma_enabled_monotone(m, before, after, u);
                }
            } else if proper(m, u) && enabled(m, after, u) {
                assert(!f_pre.contains(u));
                assert(!enabled(m, before, u));
                let q = choose|q: u32|
                    pcs_count(before, q) < arc_weight(m.transitions@[u as int].input_places@, q);
                assert(pcs_count(after, q) >= arc_weight(
                    m.transitions@[u as int].input_places@,
                    q,
                ));
                assert(q == p);
                let aw = arc_weight(m.transitions@[u as int].input_places@, p);
                assert(aw != 0);
                assert(arc_weight(os, u) == aw);
                assert(false);
            }
        }
    }
}

} // verus!
