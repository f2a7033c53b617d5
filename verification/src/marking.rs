//! A marking: the token counts of one module's places, kept as a sequence of
//! `(place_id, count)` pairs that is strictly sorted by place id and holds no
//! zero counts.

use vstd::prelude::*;
use crate::net::{PlaceId, Weight};

verus! {

/// One `(place_id, count)` pair of a marking.
#[derive(Debug, Clone, Copy, PartialEq, Eq, Structural)]
pub struct PlaceCount {
    pub place_id: PlaceId,
    pub count: u32,
}

impl PlaceCount {
    pub fn new(place_id: u32, count: u32) -> (r: Self)
        ensures
            r.place_id == place_id,
            r.count == count,
    {
        PlaceCount { place_id, count }
    }
}

/// A marking of one module.
#[derive(Debug)]
pub struct Marking {
    pub place_counts: Vec<PlaceCount>,
}

impl View for Marking {
    type V = Seq<PlaceCount>;

    open spec fn view(&self) -> Seq<PlaceCount> {
        self.place_counts@
    }
}

impl Clone for Marking {
    /// A clone carries the same pairs.
    fn clone(&self) -> (r: Self)
        ensures
            r@ == self@,
    {
        let mut v: Vec<PlaceCount> = Vec::new();
        let mut i: usize = 0;
        while i < self.place_counts.len()
            invariant
                i <= self@.len(),
                v@ == self@.subrange(0, i as int),
            decreases self@.len() - i,
        {
            v.push(self.place_counts[i]);
            proof {
                assert(v@ =~= self@.subrange(0, i + 1));
            }
            i += 1;
        }
        proof {
            assert(v@ =~= self@);
        }
        Marking { place_counts: v }
    }
}

impl PartialEq for Marking {
    /// Markings are equal exactly when their pair sequences are.
    fn eq(&self, other: &Self) -> (r: bool)
    {
        if self.place_counts.len() != other.place_counts.len() {
            return false;
        }
        let mut i: usize = 0;
        while i < self.place_counts.len()
            invariant
                i <= self@.len(),
                self@.len() == other@.len(),
                forall|j: int| 0 <= j < i ==> self@[j] == other@[j],
            decreases self@.len() - i,
        {
            let a = self.place_counts[i];
            let b = other.place_counts[i];
            if a.place_id != b.place_id || a.count != b.count {
                return false;
            }
            i += 1;
        }
        proof {
            assert(self@ =~= other@);
        }
        true
    }
}

impl Eq for Marking {

}

impl vstd::std_specs::cmp::PartialEqSpecImpl for Marking {
    open spec fn obeys_eq_spec() -> bool {
        true
    }

    open spec fn eq_spec(&self, other: &Marking) -> bool {
        self@ == other@
    }
}

/// The canonical form of a marking: strictly sorted by place id, no zero
/// counts.
pub open spec fn wf_pcs(s: Seq<PlaceCount>) -> bool {
    &&& forall|i: int, j: int| 0 <= i < j < s.len() ==> s[i].place_id < s[j].place_id
    &&& forall|i: int| 0 <= i < s.len() ==> (#[trigger] s[i]).count > 0
}

pub open spec fn wf_marking(m: Marking) -> bool {
    wf_pcs(m@)
}

/// The token count of place `p` in a pair sequence, `0` when `p` is absent.
/// When several pairs carry the id, the first one counts; canonical markings
/// have distinct ids.
pub open spec fn pcs_count(s: Seq<PlaceCount>, p: u32) -> u32
    decreases s.len(),
{
    if s.len() == 0 {
        0
    } else if s[0].place_id == p {
        s[0].count
    } else {
        pcs_count(s.drop_first(), p)
    }
}

pub proof fn lemma_pcs_count_at(s: Seq<PlaceCount>, i: int)
    requires
        0 <= i < s.len(),
        forall|a: int, b: int| 0 <= a < b < s.len() ==> s[a].place_id != s[b].place_id,
    ensures
        pcs_count(s, s[i].place_id) == s[i].count,
    decreases s.len(),
{
    if i > 0 {
        assert(s.drop_first()[i - 1] == s[i]);
        lemma_pcs_count_at(s.drop_first(), i - 1);
    }
}

pub proof fn lemma_pcs_count_absent(s: Seq<PlaceCount>, p: u32)
    requires
        forall|a: int| 0 <= a < s.len() ==> s[a].place_id != p,
    ensures
        pcs_count(s, p) == 0,
    decreases s.len(),
{
    if s.len() > 0 {
        lemma_pcs_count_absent(s.drop_first(), p);
    }
}

/// Under the zero-free invariant, a zero count means the id is absent.
pub proof fn lemma_pcs_count_zero(s: Seq<PlaceCount>, p: u32)
    requires
        pcs_count(s, p) == 0,
        forall|i: int| 0 <= i < s.len() ==> (#[trigger] s[i]).count > 0,
    ensures
        forall|a: int| 0 <= a < s.len() ==> s[a].place_id != p,
    decreases s.len(),
{
    if s.len() > 0 {
        lemma_pcs_count_zero(s.drop_first(), p);
        assert forall|a: int| 0 <= a < s.len() implies s[a].place_id != p by {
            if a > 0 {
                assert(s.drop_first()[a - 1] == s[a]);
            }
        }
    }
}

pub proof fn lemma_pcs_count_pos(s: Seq<PlaceCount>, p: u32)
    requires
        pcs_count(s, p) != 0,
    ensures
        exists|i: int| 0 <= i < s.len() && s[i].place_id == p && s[i].count == pcs_count(s, p),
    decreases s.len(),
{
    if s.len() > 0 && s[0].place_id != p {
        lemma_pcs_count_pos(s.drop_first(), p);
        let i = choose|i: int|
            0 <= i < s.drop_first().len() && s.drop_first()[i].place_id == p
                && s.drop_first()[i].count == pcs_count(s.drop_first(), p);
        assert(s[i + 1] == s.drop_first()[i]);
    }
}

impl Marking {
    /// Binary search for the pair slot of place id `id`: `Ok(i)` when
    /// `place_counts[i]` carries `id`, `Err(i)` for the insertion position.
    fn search(&self, id: PlaceId) -> (r: Result<usize, usize>)
        requires
            wf_marking(*self),
        ensures
            match r {
                Ok(i) => i < self@.len() && self@[i as int].place_id == id,
                Err(i) => {
                    &&& i <= self@.len()
                    &&& forall|j: int| 0 <= j < i ==> self@[j].place_id < id
                    &&& forall|j: int| i <= j < self@.len() ==> self@[j].place_id > id
                },
            },
    {
        let mut lo: usize = 0;
        let mut hi: usize = self.place_counts.len();
        while lo < hi
            invariant
                lo <= hi <= self@.len(),
                wf_marking(*self),
                forall|j: int| 0 <= j < lo ==> self@[j].place_id < id,
                forall|j: int| hi <= j < self@.len() ==> self@[j].place_id > id,
            decreases hi - lo,
        {
            let mid = lo + (hi - lo) / 2;
            let pid = self.place_counts[mid].place_id;
            if pid == id {
                return Ok(mid);
            } else if pid < id {
                lo = mid + 1;
            } else {
                hi = mid;
            }
        }
        Err(lo)
    }

    /// The token count of place `id`, `0` when the place is absent.
    pub fn count(&self, id: PlaceId) -> (r: u32)
        requires
            wf_marking(*self),
        ensures
            r == pcs_count(self@, id),
    {
        proof {
            if pcs_count(self@, id) != 0 {
                lemma_pcs_count_pos(self@, id);
            }
        }
        match self.search(id) {
            Ok(i) => {
                proof {
                    lemma_pcs_count_at(self@, i as int);
                }
                self.place_counts[i].count
            },
            Err(_) => {
                proof {
                    lemma_pcs_count_absent(self@, id);
                }
                0
            },
        }
    }

    /// Fire a weight against one place: with `add` the count grows by
    /// `amount`, without it the count shrinks by `amount` and the pair is
    /// dropped when it reaches zero.  Returns the new count.
    pub fn update(&mut self, id: PlaceId, amount: u32, add: bool) -> (r: Weight)
        requires
            wf_marking(*old(self)),
            amount > 0,
            add ==> pcs_count(old(self)@, id) + amount <= u32::MAX,
            !add ==> pcs_count(old(self)@, id) >= amount,
        ensures
            wf_marking(*final(self)),
            pcs_count(final(self)@, id) == if add {
                pcs_count(old(self)@, id) + amount
            } else {
                pcs_count(old(self)@, id) - amount
            },
            forall|q: u32| q != id ==> pcs_count(final(self)@, q) == pcs_count(old(self)@, q),
            r == pcs_count(final(self)@, id),
    {
        let ghost s0 = self@;
        match self.search(id) {
            Ok(x) => {
                proof {
                    lemma_pcs_count_at(s0, x as int);
                }
                let c = self.place_counts[x].count;
                if add {
                    self.place_counts[x] = PlaceCount { place_id: id, count: c + amount };
                    proof {
                        lemma_update_keeps_counts(s0, self@, x as int, id);
                    }
                    c + amount
                } else {
                    let nc = c - amount;
                    if nc == 0 {
                        self.place_counts.remove(x);
                        proof {
                            lemma_remove_counts(s0, self@, x as int, id);
                        }
                        0
                    } else {
                        self.place_counts[x] = PlaceCount { place_id: id, count: nc };
                        proof {
                            lemma_update_keeps_counts(s0, self@, x as int, id);
                        }
                        nc
                    }
                }
            },
            Err(x) => {
                proof {
                    lemma_pcs_count_absent(s0, id);
                }
                self.place_counts.insert(x, PlaceCount { place_id: id, count: amount });
                proof {
                    lemma_insert_counts(s0, self@, x as int, id, amount);
                }
                amount
            },
        }
    }
}

/// Replacing the pair at a slot with one of the same id changes only that
/// id's count.
proof fn lemma_update_keeps_counts(s0: Seq<PlaceCount>, s1: Seq<PlaceCount>, x: int, id: u32)
    requires
        wf_pcs(s0),
        0 <= x < s0.len(),
        s0[x].place_id == id,
        s1 == s0.update(x, PlaceCount { place_id: id, count: s1[x].count }),
        s1[x].count > 0,
    ensures
        wf_pcs(s1),
        pcs_count(s1, id) == s1[x].count,
        forall|q: u32| q != id ==> pcs_count(s1, q) == pcs_count(s0, q),
{
    assert forall|q: u32| q != id implies pcs_count(s1, q) == pcs_count(s0, q) by {
        if pcs_count(s0, q) != 0 {
            lemma_pcs_count_pos(s0, q);
            let i = choose|i: int| 0 <= i < s0.len() && s0[i].place_id == q && s0[i].count
                == pcs_count(s0, q);
            lemma_pcs_count_at(s1, i);
            lemma_pcs_count_at(s0, i);
        } else {
            lemma_pcs_count_zero(s0, q);
            lemma_pcs_count_absent(s1, q);
        }
    }
    lemma_pcs_count_at(s1, x);
}

/// Removing the pair at a slot zeroes that id's count and keeps the rest.
proof fn lemma_remove_counts(s0: Seq<PlaceCount>, s1: Seq<PlaceCount>, x: int, id: u32)
    requires
        wf_pcs(s0),
        0 <= x < s0.len(),
        s0[x].place_id == id,
        s1 == s0.remove(x),
    ensures
        wf_pcs(s1),
        pcs_count(s1, id) == 0,
        forall|q: u32| q != id ==> pcs_count(s1, q) == pcs_count(s0, q),
{
    s0.remove_ensures(x);
    assert forall|j: int| 0 <= j < s1.len() implies s1[j].place_id != id by {
        if j < x {
            assert(s1[j] == s0[j]);
        } else {
            assert(s1[j] == s0[j + 1]);
        }
    }
    lemma_pcs_count_absent(s1, id);
    assert forall|q: u32| q != id implies pcs_count(s1, q) == pcs_count(s0, q) by {
        if pcs_count(s0, q) != 0 {
            lemma_pcs_count_pos(s0, q);
            let i = choose|i: int| 0 <= i < s0.len() && s0[i].place_id == q && s0[i].count
                == pcs_count(s0, q);
            if i < x {
                assert(s1[i] == s0[i]);
                lemma_pcs_count_at(s1, i);
            } else {
                assert(s1[i - 1] == s0[i]);
                lemma_pcs_count_at(s1, i - 1);
            }
            lemma_pcs_count_at(s0, i);
        } else {
            lemma_pcs_count_zero(s0, q);
            assert forall|j: int| 0 <= j < s1.len() implies s1[j].place_id != q by {
                if j < x {
                    assert(s1[j] == s0[j]);
                } else {
                    assert(s1[j] == s0[j + 1]);
                }
            }
            lemma_pcs_count_absent(s1, q);
        }
    }
}

/// Inserting a fresh pair at its sorted slot sets that id's count and keeps
/// the rest.
proof fn lemma_insert_counts(s0: Seq<PlaceCount>, s1: Seq<PlaceCount>, x: int, id: u32, c: u32)
    requires
        wf_pcs(s0),
        0 <= x <= s0.len(),
        forall|j: int| 0 <= j < x ==> s0[j].place_id < id,
        forall|j: int| x <= j < s0.len() ==> s0[j].place_id > id,
        c > 0,
        s1 == s0.insert(x, PlaceCount { place_id: id, count: c }),
    ensures
        wf_pcs(s1),
        pcs_count(s1, id) == c,
        forall|q: u32| q != id ==> pcs_count(s1, q) == pcs_count(s0, q),
{
    s0.insert_ensures(x, PlaceCount { place_id: id, count: c });
    assert(wf_pcs(s1));
    lemma_pcs_count_at(s1, x);
    assert forall|q: u32| q != id implies pcs_count(s1, q) == pcs_count(s0, q) by {
        if pcs_count(s0, q) != 0 {
            lemma_pcs_count_pos(s0, q);
            let i = choose|i: int| 0 <= i < s0.len() && s0[i].place_id == q && s0[i].count
                == pcs_count(s0, q);
            if i < x {
                lemma_pcs_count_at(s1, i);
            } else {
                lemma_pcs_count_at(s1, i + 1);
            }
            lemma_pcs_count_at(s0, i);
        } else {
            lemma_pcs_count_zero(s0, q);
            assert forall|j: int| 0 <= j < s1.len() implies s1[j].place_id != q by {}
            lemma_pcs_count_absent(s1, q);
        }
    }
}

impl Marking {
    /// Sort the pairs ascending by place id, keeping the same multiset of
    /// pairs.
    pub fn sort(&mut self)
        ensures
            forall|i: int, j: int|
                0 <= i < j < final(self)@.len() ==> final(self)@[i].place_id
                    <= final(self)@[j].place_id,
            final(self)@.to_multiset() == old(self)@.to_multiset(),
            final(self)@.len() == old(self)@.len(),
    {
        let ghost orig = self@;
        let mut rest = Marking { place_counts: Vec::new() };
        core::mem::swap(&mut rest.place_counts, &mut self.place_counts);
        let mut out: Vec<PlaceCount> = Vec::new();
        proof {
            out@.to_multiset_ensures();
            rest.place_counts@.to_multiset_ensures();
            assert(out@.to_multiset().add(rest.place_counts@.to_multiset()) =~= orig.to_multiset());
        }
        while rest.place_counts.len() > 0
            invariant
                out@.to_multiset().add(rest.place_counts@.to_multiset()) == orig.to_multiset(),
                out@.len() + rest.place_counts@.len() == orig.len(),
                forall|i: int, j: int|
                    0 <= i < j < out@.len() ==> out@[i].place_id <= out@[j].place_id,
                forall|i: int, l: int|
                    0 <= i < out@.len() && 0 <= l < rest.place_counts@.len() ==> (
                    #[trigger] out@[i]).place_id <= (#[trigger] rest.place_counts@[l]).place_id,
            decreases rest.place_counts@.len(),
        {
            // Find the least remaining place id.
            let mut best: usize = 0;
            let mut i: usize = 1;
            while i < rest.place_counts.len()
                invariant
                    best < i,
                    i <= rest.place_counts@.len(),
                    rest.place_counts@.len() > 0,
                    forall|l: int|
                        0 <= l < i ==> rest.place_counts@[best as int].place_id <= (
                        #[trigger] rest.place_counts@[l]).place_id,
                decreases rest.place_counts@.len() - i,
            {
                if rest.place_counts[i].place_id < rest.place_counts[best].place_id {
                    best = i;
                }
                i += 1;
            }
            let ghost r0 = rest.place_counts@;
            let ghost o0 = out@;
            let e = rest.place_counts.remove(best);
            out.push(e);
            proof {
                r0.to_multiset_ensures();
                o0.to_multiset_ensures();
                assert(rest.place_counts@.to_multiset() =~= r0.to_multiset().remove(e));
                assert(out@.to_multiset() =~= o0.to_multiset().insert(e));
                assert(out@.to_multiset().add(rest.place_counts@.to_multiset())
                    =~= o0.to_multiset().add(r0.to_multiset()));
                r0.remove_ensures(best as int);
                assert forall|ii: int, l: int|
                    0 <= ii < out@.len() && 0 <= l < rest.place_counts@.len() implies (
                #[trigger] out@[ii]).place_id <= (#[trigger] rest.place_counts@[l]).place_id by {
                    if l < best {
                        assert(rest.place_counts@[l] == r0[l]);
                    } else {
                        assert(rest.place_counts@[l] == r0[l + 1]);
                    }
                    if ii < o0.len() {
                        assert(out@[ii] == o0[ii]);
                    } else {
                        assert(out@[ii] == e);
                    }
                }
            }
        }
        proof {
            broadcast use vstd::multiset::group_multiset_axioms;
            rest.place_counts@.to_multiset_ensures();
            assert(rest.place_counts@.to_multiset().len() == 0);
            assert(out@.to_multiset().add(rest.place_counts@.to_multiset())
                =~= out@.to_multiset());
        }
        self.place_counts = out;
    }
}

/// The total order on markings: a shorter pair sequence is strictly less;
/// sequences of one length compare lexicographically by `(place_id, count)`.
pub open spec fn spec_cmp_pcs(a: Seq<PlaceCount>, b: Seq<PlaceCount>) -> core::cmp::Ordering
    decreases a.len(),
{
    if a.len() < b.len() {
        core::cmp::Ordering::Less
    } else if a.len() > b.len() {
        core::cmp::Ordering::Greater
    } else if a.len() == 0 {
        core::cmp::Ordering::Equal
    } else if a[0].place_id < b[0].place_id {
        core::cmp::Ordering::Less
    } else if a[0].place_id > b[0].place_id {
        core::cmp::Ordering::Greater
    } else if a[0].count < b[0].count {
        core::cmp::Ordering::Less
    } else if a[0].count > b[0].count {
        core::cmp::Ordering::Greater
    } else {
        spec_cmp_pcs(a.drop_first(), b.drop_first())
    }
}

/// Comparing equal-length sequences with equal prefixes reduces to
/// comparing the suffixes.
proof fn lemma_cmp_skip(a: Seq<PlaceCount>, b: Seq<PlaceCount>, i: int)
    requires
        a.len() == b.len(),
        0 <= i <= a.len(),
        forall|j: int| 0 <= j < i ==> a[j] == b[j],
    ensures
        spec_cmp_pcs(a, b) == spec_cmp_pcs(a.skip(i), b.skip(i)),
    decreases i,
{
    if i > 0 {
        lemma_cmp_skip(a, b, i - 1);
        let sa = a.skip(i - 1);
        let sb = b.skip(i - 1);
        assert(sa[0] == a[i - 1] && sb[0] == b[i - 1]);
        assert(sa.drop_first() =~= a.skip(i));
        assert(sb.drop_first() =~= b.skip(i));
    } else {
        assert(a.skip(0) =~= a);
        assert(b.skip(0) =~= b);
    }
}

impl Marking {
    /// The total order on markings: by length first, then lexicographic by
    /// `(place_id, count)`.
    pub fn cmp(&self, other: &Marking) -> (r: core::cmp::Ordering)
        ensures
            r == spec_cmp_pcs(self@, other@),
            r == core::cmp::Ordering::Equal <==> self@ == other@,
    {
        proof {
            lemma_cmp_eq(self@, other@);
        }
        if self.place_counts.len() < other.place_counts.len() {
            return core::cmp::Ordering::Less;
        }
        if self.place_counts.len() > other.place_counts.len() {
            return core::cmp::Ordering::Greater;
        }
        let n = self.place_counts.len();
        let mut i: usize = 0;
        while i < n
            invariant
                i <= n,
                n == self@.len(),
                self@.len() == other@.len(),
                forall|j: int| 0 <= j < i ==> self@[j] == other@[j],
            decreases n - i,
        {
            let a = self.place_counts[i];
            let b = other.place_counts[i];
            proof {
                lemma_cmp_skip(self@, other@, i as int);
                assert(self@.skip(i as int)[0] == self@[i as int]);
                assert(other@.skip(i as int)[0] == other@[i as int]);
            }
            if a.place_id < b.place_id {
                return core::cmp::Ordering::Less;
            }
            if a.place_id > b.place_id {
                return core::cmp::Ordering::Greater;
            }
            if a.count < b.count {
                return core::cmp::Ordering::Less;
            }
            if a.count > b.count {
                return core::cmp::Ordering::Greater;
            }
            i += 1;
        }
        proof {
            lemma_cmp_skip(self@, other@, n as int);
            assert(self@.skip(n as int) =~= Seq::<PlaceCount>::empty());
            assert(other@.skip(n as int) =~= Seq::<PlaceCount>::empty());
        }
        core::cmp::Ordering::Equal
    }
}

/// The order is reflexive exactly on equal pair sequences.
proof fn lemma_cmp_eq(a: Seq<PlaceCount>, b: Seq<PlaceCount>)
    ensures
        spec_cmp_pcs(a, b) == core::cmp::Ordering::Equal <==> a == b,
    decreases a.len(),
{
    if a.len() == b.len() && a.len() > 0 {
        lemma_cmp_eq(a.drop_first(), b.drop_first());
        if a[0] == b[0] && a.drop_first() == b.drop_first() {
            assert forall|i: int| 0 <= i < a.len() implies a[i] == b[i] by {
                if i > 0 {
                    assert(a[i] == a.drop_first()[i - 1]);
                    assert(b[i] == b.drop_first()[i - 1]);
                }
            }
            assert(a =~= b);
        }
        if a == b {
            assert(a.drop_first() =~= b.drop_first());
        }
    } else if a.len() == b.len() {
        assert(a =~= b);
    }
}

} // verus!
