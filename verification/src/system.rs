//! The coverage model: a fixed-size mapping from test identifiers to the set
//! of source identifiers each test covers. Source identifiers range over
//! `[0, num_sources)` and test identifiers over `[0, num_tests)`; a slot that
//! was never recorded is kept as `None` and behaves as the empty set.
//!
//! Each recorded slot is held as a strictly increasing vector of source
//! identifiers, so a slot is a canonical representation of its set.

use vstd::prelude::*;

verus! {

/// The two failure kinds of the library: an out-of-range test or source
/// identifier, and a rejected simulation configuration.
#[derive(Clone, Copy, Debug, PartialEq, Eq, Structural)]
pub enum SystemError {
    InvalidIndex,
    InvalidConfiguration,
}

/// A sequence of source identifiers in strictly increasing order; such a
/// sequence has no duplicates and is the canonical listing of its set.
pub open spec fn strictly_sorted(s: Seq<u16>) -> bool {
    forall|i: int, j: int| 0 <= i < j < s.len() ==> s[i] < s[j]
}

pub struct System {
    pub num_sources: u16,
    pub num_tests: u16,
    pub test_map: Vec<Option<Vec<u16>>>,
}

impl System {
    /// The recorded slot of test `t` as a sequence, the empty sequence if
    /// the slot is unset.
    pub open spec fn slot_seq(self, t: int) -> Seq<u16> {
        match self.test_map@[t] {
            Some(v) => v@,
            None => Seq::empty(),
        }
    }

    /// The set of sources covered by test `t`.
    pub open spec fn cov(self, t: int) -> Set<u16> {
        self.slot_seq(t).to_set()
    }

    /// Well-formedness: one slot per test, every slot strictly sorted with
    /// every identifier in `[0, num_sources)`.
    pub open spec fn wf(self) -> bool {
        &&& self.test_map@.len() == self.num_tests
        &&& forall|t: int|
            0 <= t < self.num_tests ==> strictly_sorted(#[trigger] self.slot_seq(t))
        &&& forall|t: int, i: int|
            0 <= t < self.num_tests && 0 <= i < self.slot_seq(t).len()
                ==> #[trigger] self.slot_seq(t)[i] < self.num_sources
    }

    /// Whether no coverage was ever recorded for test `t`.
    pub open spec fn slot_unset(self, t: int) -> bool {
        self.test_map@[t] is None
    }

    #[verifier::loop_isolation(false)]
    pub fn new(num_sources: u16, num_tests: u16) -> (r: System)
        ensures
            r.wf(),
            r.num_sources == num_sources,
            r.num_tests == num_tests,
            forall|t: int| 0 <= t < num_tests ==> #[trigger] r.slot_unset(t),
            forall|t: int| 0 <= t < num_tests ==> #[trigger] r.cov(t) =~= Set::empty(),
    {
        let mut test_map: Vec<Option<Vec<u16>>> = Vec::new();
        let mut i: u16 = 0;
        while i < num_tests
            invariant
                i <= num_tests,
                test_map@.len() == i,
                forall|t: int| 0 <= t < i ==> test_map@[t] is None,
            decreases num_tests - i,
        {
            test_map.push(None);
            i = i + 1;
        }
        System { num_sources, num_tests, test_map }
    }

    /// Records that test `test` covers every source in `srcs`, by union with
    /// whatever was recorded before. Rejects out-of-range identifiers and
    /// otherwise changes exactly the one slot; recording a subset of what is
    /// already recorded leaves every slot's listing as it was.
    #[verifier::loop_isolation(false)]
    pub fn add_has_test_for(&mut self, test: u16, srcs: &[u16]) -> (r: Result<(), SystemError>)
        requires
            old(self).wf(),
        ensures
            final(self).wf(),
            final(self).num_sources == old(self).num_sources,
            final(self).num_tests == old(self).num_tests,
            r is Ok <==> (test < old(self).num_tests && forall|k: int|
                0 <= k < srcs@.len() ==> srcs@[k] < old(self).num_sources),
            r is Err ==> r == Err::<(), SystemError>(SystemError::InvalidIndex)
                && *final(self) == *old(self),
            r is Ok ==> final(self).cov(test as int) =~= old(self).cov(test as int).union(
                srcs@.to_set(),
            ),
            r is Ok ==> forall|t: int|
                0 <= t < old(self).num_tests && t != test ==> #[trigger] final(self).slot_seq(t)
                    == old(self).slot_seq(t),
            r is Ok && srcs@.to_set().subset_of(old(self).cov(test as int)) ==> forall|t: int|
                0 <= t < old(self).num_tests ==> #[trigger] final(self).slot_seq(t) == old(
                    self,
                ).slot_seq(t),
    {
        if test >= self.num_tests {
            return Err(SystemError::InvalidIndex);
        }
        let mut k: usize = 0;
        while k < srcs.len()
            invariant
                k <= srcs@.len(),
                forall|j: int| 0 <= j < k ==> srcs@[j] < self.num_sources,
            decreases srcs@.len() - k,
        {
            if srcs[k] >= self.num_sources {
                return Err(SystemError::InvalidIndex);
            }
            k = k + 1;
        }
        let ghost prev = *self;
        let idx: usize = test as usize;
        let mut slot: Vec<u16> = match &self.test_map[idx] {
            Some(v) => clone_sources(v),
            None => Vec::new(),
        };
        assert(slot@ == prev.slot_seq(test as int));
        let mut k: usize = 0;
        while k < srcs.len()
            invariant
                k <= srcs@.len(),
                strictly_sorted(slot@),
                slot@.to_set() =~= prev.slot_seq(test as int).to_set().union(
                    srcs@.subrange(0, k as int).to_set(),
                ),
                srcs@.subrange(0, k as int).to_set().subset_of(
                    prev.slot_seq(test as int).to_set(),
                ) ==> slot@ == prev.slot_seq(test as int),
                forall|j: int| 0 <= j < srcs@.len() ==> srcs@[j] < prev.num_sources,
                forall|i: int| 0 <= i < slot@.len() ==> slot@[i] < prev.num_sources,
            decreases srcs@.len() - k,
        {
            let ghost sub_k = srcs@.subrange(0, k as int);
            let ghost sub_k1 = srcs@.subrange(0, k + 1);
            proof {
                assert(sub_k1 == sub_k.push(srcs@[k as int]));
                assert forall|e: u16| sub_k1.to_set().contains(e) implies sub_k.to_set().insert(
                    srcs@[k as int],
                ).contains(e) by {
                    let w = choose|w: int| 0 <= w < sub_k1.len() && sub_k1[w] == e;
                    if w < k {
                        assert(sub_k[w] == e);
                        assert(sub_k.contains(e));
                    }
                }
                assert forall|e: u16|
                    sub_k.to_set().insert(srcs@[k as int]).contains(e)
                        implies sub_k1.to_set().contains(e) by {
                    if e == srcs@[k as int] {
                        assert(sub_k1[k as int] == e);
                        assert(sub_k1.contains(e));
                    } else {
                        let w = choose|w: int| 0 <= w < sub_k.len() && sub_k[w] == e;
                        assert(sub_k1[w] == e);
                        assert(sub_k1.contains(e));
                    }
                }
                assert(sub_k1.to_set() =~= sub_k.to_set().insert(srcs@[k as int]));
            }
            let ghost slot_before = slot@;
            let ghost x = srcs@[k as int];
            sorted_insert(&mut slot, srcs[k]);
            k = k + 1;
            proof {
                if sub_k1.to_set().subset_of(prev.slot_seq(test as int).to_set()) {
                    assert(sub_k.to_set().subset_of(sub_k1.to_set())) by {
                        assert forall|e: u16| sub_k.to_set().contains(e)
                            implies sub_k1.to_set().contains(e) by {
                            let w = choose|w: int| 0 <= w < sub_k.len() && sub_k[w] == e;
                            assert(sub_k1[w] == e);
                            assert(sub_k1.contains(e));
                        }
                    }
                    assert(slot_before == prev.slot_seq(test as int));
                    assert(sub_k1.to_set().contains(x)) by {
                        assert(sub_k1.last() == x);
                        assert(sub_k1.contains(x));
                    }
                    assert(slot_before.to_set().contains(x));
                    assert(slot_before.contains(x));
                    assert(slot@ == slot_before);
                }
            }
        }
        assert(srcs@.subrange(0, srcs@.len() as int) == srcs@);
        self.test_map.set(idx, Some(slot));
        assert(forall|t: int|
            0 <= t < self.num_tests && t != test ==> self.slot_seq(t) == prev.slot_seq(t));
        proof {
            assert(self.slot_seq(test as int) == slot@);
            assert forall|t: int| 0 <= t < self.num_tests implies strictly_sorted(
                #[trigger] self.slot_seq(t),
            ) by {
                if t != test {
                    assert(self.slot_seq(t) == prev.slot_seq(t));
                }
            }
            assert forall|t: int, i: int|
                0 <= t < self.num_tests && 0 <= i < self.slot_seq(t).len()
                    implies #[trigger] self.slot_seq(t)[i] < self.num_sources by {
                if t != test {
                    assert(self.slot_seq(t) == prev.slot_seq(t));
                }
            }
            if srcs@.to_set().subset_of(prev.cov(test as int)) {
                assert(self.slot_seq(test as int) == prev.slot_seq(test as int));
            }
        }
        Ok(())
    }

    /// The set of sources covered by `test`, as a strictly sorted vector;
    /// the empty vector if the slot is unset.
    pub fn is_tested_by(&self, test: u16) -> (r: Result<Vec<u16>, SystemError>)
        requires
            self.wf(),
        ensures
            r is Ok <==> test < self.num_tests,
            r is Err ==> r == Err::<Vec<u16>, SystemError>(SystemError::InvalidIndex),
            r is Ok ==> r.unwrap()@ == self.slot_seq(test as int),
            r is Ok ==> r.unwrap()@.to_set() == self.cov(test as int),
            r is Ok ==> strictly_sorted(r.unwrap()@),
    {
        if test >= self.num_tests {
            return Err(SystemError::InvalidIndex);
        }
        assert(strictly_sorted(self.slot_seq(test as int)));
        match &self.test_map[test as usize] {
            Some(v) => Ok(clone_sources(v)),
            None => Ok(Vec::new()),
        }
    }
}

#[verifier::loop_isolation(false)]
pub(crate) fn clone_sources(v: &Vec<u16>) -> (r: Vec<u16>)
    ensures
        r@ == v@,
{
    let mut r: Vec<u16> = Vec::new();
    let mut i: usize = 0;
    while i < v.len()
        invariant
            i <= v@.len(),
            r@ == v@.subrange(0, i as int),
        decreases v@.len() - i,
    {
        r.push(v[i]);
        i = i + 1;
    }
    assert(v@.subrange(0, v@.len() as int) == v@);
    r
}

/// Inserts `x` into a strictly sorted vector, keeping it strictly sorted;
/// if `x` is already present the vector is left exactly as it was.
#[verifier::loop_isolation(false)]
fn sorted_insert(v: &mut Vec<u16>, x: u16)
    requires
        strictly_sorted(old(v)@),
    ensures
        strictly_sorted(final(v)@),
        final(v)@.to_set() =~= old(v)@.to_set().insert(x),
        old(v)@.contains(x) ==> final(v)@ == old(v)@,
        forall|i: int|
            0 <= i < final(v)@.len() ==> old(v)@.contains(#[trigger] final(v)@[i])
                || final(v)@[i] == x,
{
    let mut i: usize = 0;
    while i < v.len() && v[i] < x
        invariant
            i <= v@.len(),
            strictly_sorted(v@),
            forall|j: int| 0 <= j < i ==> v@[j] < x,
        decreases v@.len() - i,
    {
        i = i + 1;
    }
    if i < v.len() {
        if v[i] == x {
            assert(v@.contains(x));
            return;
        }
    }
    let ghost prev = v@;
    v.insert(i, x);
    proof {
        assert(v@ == prev.subrange(0, i as int).push(x) + prev.subrange(i as int, prev.len() as int));
        assert forall|a: int, b: int| 0 <= a < b < v@.len() implies v@[a] < v@[b] by {
            if a < i && b == i {
            } else if a == i && b > i {
                assert(v@[b] == prev[b - 1]);
                assert(prev[b - 1] >= prev[i as int] || b - 1 == i);
                if b - 1 > i {
                    assert(prev[i as int] < prev[b - 1]);
                }
                assert(!(prev[i as int] < x) || true);
            }
        }
        assert(!prev.contains(x)) by {
            if prev.contains(x) {
                let w = choose|w: int| 0 <= w < prev.len() && prev[w] == x;
                assert(w < i ==> prev[w] < x);
                assert(w >= i ==> prev[w] >= prev[i as int] >= x || w == i);
            }
        }
        assert forall|e: u16| v@.to_set().contains(e) implies prev.to_set().insert(x).contains(
            e,
        ) by {
            let w = choose|w: int| 0 <= w < v@.len() && v@[w] == e;
            if w < i {
                assert(prev[w] == e);
                assert(prev.contains(e));
            } else if w == i {
            } else {
                assert(prev[w - 1] == e);
                assert(prev.contains(e));
            }
        }
        assert forall|e: u16| prev.to_set().insert(x).contains(e) implies v@.to_set().contains(
            e,
        ) by {
            if e == x {
                assert(v@[i as int] == x);
                assert(v@.contains(x));
            } else {
                let w = choose|w: int| 0 <= w < prev.len() && prev[w] == e;
                if w < i {
                    assert(v@[w] == e);
                } else {
                    assert(v@[w + 1] == e);
                }
                assert(v@.contains(e));
            }
        }
        assert forall|k: int| 0 <= k < v@.len() implies prev.contains(#[trigger] v@[k]) || v@[k]
            == x by {
            if k < i {
                assert(prev[k] == v@[k]);
            } else if k > i {
                assert(prev[k - 1] == v@[k]);
            }
        }
    }
}

/// Recording the same source set twice adds nothing: the coverage of a test
/// after two identical record operations equals the coverage after one.
pub proof fn lemma_record_coverage_idempotent(cov: Set<u16>, srcs: Set<u16>)
    ensures
        cov.union(srcs).union(srcs) == cov.union(srcs),
{
    assert(cov.union(srcs).union(srcs) =~= cov.union(srcs));
}

/// Recording `s1` followed by `s2` for a test that started with no coverage
/// leaves it covering exactly `s1` union `s2`.
pub proof fn lemma_record_coverage_accumulates(s1: Set<u16>, s2: Set<u16>)
    ensures
        Set::<u16>::empty().union(s1).union(s2) == s1.union(s2),
{
    assert(Set::<u16>::empty().union(s1).union(s2) =~= s1.union(s2));
}

/// A strictly sorted vector is the one canonical listing of its set: two
/// strictly sorted sequences with the same element set are equal.
pub proof fn lemma_sorted_canonical(a: Seq<u16>, b: Seq<u16>)
    requires
        strictly_sorted(a),
        strictly_sorted(b),
        a.to_set() == b.to_set(),
    ensures
        a == b,
    decreases a.len(),
{
    if a.len() == 0 {
        if b.len() > 0 {
            assert(b.to_set().contains(b[0]));
            assert(a.contains(b[0]));
        }
        assert(a =~= b);
    } else {
        assert(a.to_set().contains(a[0]));
        assert(b.contains(a[0]));
        if b.len() == 0 {
            assert(!b.to_set().contains(a[0]));
        }
        assert(b.to_set().contains(b[0]));
        assert(a.contains(b[0]));
        let ia = choose|ia: int| 0 <= ia < a.len() && a[ia] == b[0];
        let ib = choose|ib: int| 0 <= ib < b.len() && b[ib] == a[0];
        assert(a[0] <= a[ia]);
        assert(b[0] <= b[ib]);
        assert(a[0] == b[0]);
        let at = a.drop_first();
        let bt = b.drop_first();
        assert(strictly_sorted(at)) by {
            assert(forall|i: int, j: int|
                0 <= i < j < at.len() ==> at[i] == a[i + 1] && at[j] == a[j + 1]);
        }
        assert(strictly_sorted(bt)) by {
            assert(forall|i: int, j: int|
                0 <= i < j < bt.len() ==> bt[i] == b[i + 1] && bt[j] == b[j + 1]);
        }
        assert(at.to_set() =~= bt.to_set()) by {
            assert forall|e: u16| at.to_set().contains(e) implies bt.to_set().contains(e) by {
                let w = choose|w: int| 0 <= w < at.len() && at[w] == e;
                assert(a[w + 1] == e);
                assert(a[0] < e);
                assert(a.contains(e));
                assert(a.to_set().contains(e));
                assert(b.to_set().contains(e));
                assert(b.contains(e));
                let wb = choose|wb: int| 0 <= wb < b.len() && b[wb] == e;
                assert(wb != 0);
                assert(bt[wb - 1] == e);
                assert(bt.contains(e));
            }
            assert forall|e: u16| bt.to_set().contains(e) implies at.to_set().contains(e) by {
                let w = choose|w: int| 0 <= w < bt.len() && bt[w] == e;
                assert(b[w + 1] == e);
                assert(b[0] < e);
                assert(b.contains(e));
                assert(b.to_set().contains(e));
                assert(a.to_set().contains(e));
                assert(a.contains(e));
                let wa = choose|wa: int| 0 <= wa < a.len() && a[wa] == e;
                assert(wa != 0);
                assert(at[wa - 1] == e);
                assert(at.contains(e));
            }
        }
        lemma_sorted_canonical(at, bt);
        assert(a =~= b) by {
            assert(forall|i: int| 1 <= i < a.len() ==> a[i] == at[i - 1] && b[i] == bt[i - 1]);
        }
    }
}

} // verus!
