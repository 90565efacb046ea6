//! The metric engine: three analytic quality measures of a coverage model,
//! each an exact rational.
//!
//! * `efficiency` — one minus the fraction of possible coverage links that
//!   are present.
//! * `defect_detection_capacity` — over every non-empty subset of the
//!   sources, the fraction of (subset, test) pairs where the test covers the
//!   whole subset.
//! * `defect_localization_capacity` — one minus the mean localization
//!   penalty over every non-empty subset of the sources.
//!
//! Non-empty source subsets are enumerated as the bitmasks `1 ..= 2^n - 1`;
//! bit `s` of a mask says whether source `s` belongs to the subset.

use vstd::prelude::*;
use vstd::arithmetic::power2::pow2;
use crate::ratio::Ratio;
use crate::system::{strictly_sorted, System};

verus! {

/// The factorial of `n`, used as a common denominator for the localization
/// penalty terms, whose individual denominators all lie in `[1, n]`.
pub open spec fn factorial(n: nat) -> nat
    decreases n,
{
    if n == 0 {
        1
    } else {
        n * factorial((n - 1) as nat)
    }
}

/// The set of every source identifier of a model with `n` sources.
pub open spec fn all_sources(n: u16) -> Set<u16> {
    Set::new(|s: u16| s < n)
}

/// Whether bit `s` of `mask` is set.
pub open spec fn mask_has(mask: u32, s: u16) -> bool {
    (mask as nat / pow2(s as nat)) % 2 == 1
}

/// The subset of `[0, n)` that `mask` denotes.
pub open spec fn mask_set(mask: u32, n: u16) -> Set<u16> {
    Set::new(|s: u16| s < n && mask_has(mask, s))
}

/// How many of the bits `0 .. n` of `mask` are set; the size of the subset
/// that `mask` denotes.
pub open spec fn mask_card(mask: u32, n: u16) -> nat
    decreases n,
{
    if n == 0 {
        0
    } else {
        mask_card(mask, (n - 1) as u16) + if mask_has(mask, (n - 1) as u16) {
            1nat
        } else {
            0nat
        }
    }
}

/// Whether a test with coverage set `cov` covers every source of the subset
/// that `mask` denotes, i.e. can detect a defect confined to that subset.
pub open spec fn covers(cov: Set<u16>, mask: u32, n: u16) -> bool {
    forall|s: u16| s < n && mask_has(mask, s) ==> cov.contains(s)
}

/// The total number of coverage links recorded for the tests `0 .. t`.
pub open spec fn total_links(sys: System, t: int) -> nat
    decreases t,
{
    if t <= 0 {
        0
    } else {
        total_links(sys, t - 1) + sys.cov(t - 1).len()
    }
}

/// How many of the tests `0 .. t` cover the subset that `mask` denotes.
pub open spec fn covering_tests(sys: System, mask: u32, t: int) -> nat
    decreases t,
{
    if t <= 0 {
        0
    } else {
        covering_tests(sys, mask, t - 1) + if covers(sys.cov(t - 1), mask, sys.num_sources) {
            1nat
        } else {
            0nat
        }
    }
}

/// The sum, over the subsets `1 ..= mask_hi`, of the number of tests that
/// cover the subset.
pub open spec fn detection_sum(sys: System, mask_hi: int) -> nat
    decreases mask_hi,
{
    if mask_hi <= 0 {
        0
    } else {
        detection_sum(sys, mask_hi - 1) + covering_tests(sys, mask_hi as u32, sys.num_tests as int)
    }
}

/// The localization set for `mask` over the tests `0 .. t`: the
/// intersection of the coverage sets of every such test that covers the
/// whole subset `mask` denotes, or `None` if no such test exists. When it is
/// a set, it is the minimal set of sources consistent with every test that
/// would flag a defect confined to the subset.
pub open spec fn localization_up_to(sys: System, mask: u32, t: int) -> Option<Set<u16>>
    decreases t,
{
    if t <= 0 {
        None
    } else {
        let rest = localization_up_to(sys, mask, t - 1);
        if covers(sys.cov(t - 1), mask, sys.num_sources) {
            match rest {
                None => Some(sys.cov(t - 1)),
                Some(x) => Some(x.intersect(sys.cov(t - 1))),
            }
        } else {
            rest
        }
    }
}

/// The localization set for `mask` over all the tests of the model.
pub open spec fn localization_set(sys: System, mask: u32) -> Option<Set<u16>> {
    localization_up_to(sys, mask, sys.num_tests as int)
}

/// The localization penalty of one subset, scaled by the common denominator
/// `num_sources!`. An undetectable subset contributes the full penalty `1`;
/// a detectable subset `A` with localization set `L` contributes
/// `(|L| - |A|) / |L|`, which is exact here because `|L|` lies in
/// `[1, num_sources]` and so divides `num_sources!`.
pub open spec fn localization_term(sys: System, mask: u32) -> int {
    let d = factorial(sys.num_sources as nat) as int;
    match localization_set(sys, mask) {
        None => d,
        Some(l) => (l.len() - mask_set(mask, sys.num_sources).len()) * (d / (l.len() as int)),
    }
}

/// The sum of the scaled localization penalties of the subsets
/// `1 ..= mask_hi`.
pub open spec fn localization_penalty(sys: System, mask_hi: int) -> int
    decreases mask_hi,
{
    if mask_hi <= 0 {
        0
    } else {
        localization_penalty(sys, mask_hi - 1) + localization_term(sys, mask_hi as u32)
    }
}

impl System {
    /// `1 - links / (num_tests * num_sources)`: the fraction of possible
    /// test-to-source links that are absent. All-unset coverage gives `1`;
    /// every test covering every source gives `0`.
    #[verifier::loop_isolation(false)]
    pub fn efficiency(&self) -> (r: Ratio)
        requires
            self.wf(),
            self.num_sources >= 1,
            self.num_tests >= 1,
        ensures
            r.wf(),
            r.at_most_one(),
            r.den == self.num_tests * self.num_sources,
            r.num == r.den - total_links(*self, self.num_tests as int),
    {
        let m = self.num_tests;
        let n = self.num_sources;
        proof {
            vstd::arithmetic::mul::lemma_mul_upper_bound(
                m as int,
                u16::MAX as int,
                n as int,
                u16::MAX as int,
            );
        }
        let den: u64 = (m as u64) * (n as u64);
        let mut total: u64 = 0;
        let mut t: usize = 0;
        while t < m as usize
            invariant
                t <= m,
                total == total_links(*self, t as int),
                total <= t * n,
            decreases m - t,
        {
            let len: usize = match &self.test_map[t] {
                Some(v) => v.len(),
                None => 0,
            };
            proof {
                lemma_slot_len(*self, t as int);
                if self.test_map@[t as int] is None {
                    assert(self.slot_seq(t as int).len() == 0);
                }
                assert(len == self.cov(t as int).len());
                assert((t + 1) * n == t * n + n) by (nonlinear_arith);
                vstd::arithmetic::mul::lemma_mul_inequality(t + 1, m as int, n as int);
            }
            total = total + len as u64;
            t = t + 1;
        }
        proof {
            vstd::arithmetic::mul::lemma_mul_strictly_positive(m as int, n as int);
        }
        Ratio { num: den - total, den }
    }
}

impl System {
    /// Whether source `s` is in the recorded coverage of test `t`.
    #[verifier::loop_isolation(false)]
    fn slot_contains(&self, t: usize, s: u16) -> (r: bool)
        requires
            self.wf(),
            t < self.num_tests,
        ensures
            r == self.cov(t as int).contains(s),
    {
        match &self.test_map[t] {
            None => {
                proof {
                    assert(!self.slot_seq(t as int).contains(s));
                    assert(!self.cov(t as int).contains(s));
                }
                false
            },
            Some(v) => {
                let mut i: usize = 0;
                while i < v.len()
                    invariant
                        i <= v@.len(),
                        forall|j: int| 0 <= j < i ==> v@[j] != s,
                    decreases v@.len() - i,
                {
                    if v[i] == s {
                        proof {
                            assert(v@.contains(s));
                            assert(self.slot_seq(t as int).contains(s));
                            assert(self.cov(t as int).contains(s));
                        }
                        return true;
                    }
                    i = i + 1;
                }
                proof {
                    assert(!v@.contains(s));
                    assert(!self.cov(t as int).contains(s));
                }
                false
            },
        }
    }

    /// Whether test `t` covers the whole subset that `mask` denotes.
    #[verifier::loop_isolation(false)]
    fn test_covers(&self, t: usize, mask: u32) -> (r: bool)
        requires
            self.wf(),
            t < self.num_tests,
            self.num_sources <= 16,
        ensures
            r == covers(self.cov(t as int), mask, self.num_sources),
    {
        let n = self.num_sources;
        let mut s: u16 = 0;
        while s < n
            invariant
                s <= n,
                forall|s2: u16|
                    s2 < s && mask_has(mask, s2) ==> self.cov(t as int).contains(s2),
            decreases n - s,
        {
            if bit_of(mask, s) {
                if !self.slot_contains(t, s) {
                    return false;
                }
            }
            s = s + 1;
        }
        true
    }

    /// How many tests cover the whole subset that `mask` denotes.
    #[verifier::loop_isolation(false)]
    fn count_covering(&self, mask: u32) -> (c: u32)
        requires
            self.wf(),
            self.num_sources <= 16,
        ensures
            c == covering_tests(*self, mask, self.num_tests as int),
            c <= self.num_tests,
    {
        let m = self.num_tests;
        let mut c: u32 = 0;
        let mut t: usize = 0;
        while t < m as usize
            invariant
                t <= m,
                c == covering_tests(*self, mask, t as int),
                c <= t,
            decreases m - t,
        {
            if self.test_covers(t, mask) {
                c = c + 1;
            }
            t = t + 1;
        }
        c
    }

    /// The mean, over every non-empty subset of the sources, of the fraction
    /// of tests able to detect a defect confined to that subset:
    /// `detection_sum / ((2^n - 1) * num_tests)`.
    #[verifier::loop_isolation(false)]
    pub fn defect_detection_capacity(&self) -> (r: Ratio)
        requires
            self.wf(),
            1 <= self.num_sources <= 16,
            self.num_tests >= 1,
        ensures
            r.wf(),
            r.at_most_one(),
            r.den == (pow2(self.num_sources as nat) - 1) * self.num_tests,
            r.num == detection_sum(*self, pow2(self.num_sources as nat) - 1),
    {
        let n = self.num_sources;
        let m = self.num_tests;
        let subsets: u32 = pow2_u32(n) - 1;
        proof {
            vstd::arithmetic::power2::lemma2_to64();
            vstd::arithmetic::power2::lemma_pow2_strictly_increases(0, n as nat);
            vstd::arithmetic::mul::lemma_mul_upper_bound(
                subsets as int,
                u32::MAX as int,
                m as int,
                u16::MAX as int,
            );
            vstd::arithmetic::mul::lemma_mul_strictly_positive(subsets as int, m as int);
        }
        let den: u64 = (subsets as u64) * (m as u64);
        proof {
            assert(den == (subsets as int) * (m as int));
            assert(den > 0);
        }
        let mut sum: u64 = 0;
        let mut mask: u32 = 1;
        while mask <= subsets
            invariant
                1 <= mask <= subsets + 1,
                sum == detection_sum(*self, mask as int - 1),
                sum <= (mask as int - 1) * m,
            decreases subsets - mask + 1,
        {
            let c = self.count_covering(mask);
            proof {
                assert((mask as int) * m == (mask as int - 1) * m + m) by (nonlinear_arith);
                vstd::arithmetic::mul::lemma_mul_inequality(mask as int, subsets as int, m as int);
            }
            sum = sum + c as u64;
            mask = mask + 1;
        }
        Ratio { num: sum, den }
    }
}

/// Computes `2^s`.
#[verifier::loop_isolation(false)]
fn pow2_u32(s: u16) -> (r: u32)
    requires
        s <= 16,
    ensures
        r as nat == pow2(s as nat),
        r >= 1,
{
    let mut r: u32 = 1;
    let mut i: u16 = 0;
    proof {
        vstd::arithmetic::power2::lemma2_to64();
    }
    while i < s
        invariant
            i <= s,
            r as nat == pow2(i as nat),
        decreases s - i,
    {
        proof {
            vstd::arithmetic::power2::lemma_pow2_unfold((i + 1) as nat);
            if (i as nat) < 16 {
                vstd::arithmetic::power2::lemma_pow2_strictly_increases(i as nat, 16);
            }
        }
        r = r * 2;
        i = i + 1;
    }
    r
}

/// Whether bit `s` of `mask` is set, decided by arithmetic on the mask.
fn bit_of(mask: u32, s: u16) -> (b: bool)
    requires
        s <= 16,
    ensures
        b == mask_has(mask, s),
{
    let p = pow2_u32(s);
    (mask / p) % 2 == 1
}

/// The length of a recorded slot is the size of its coverage set, and at
/// most `num_sources`.
proof fn lemma_slot_len(sys: System, t: int)
    requires
        sys.wf(),
        0 <= t < sys.num_tests,
    ensures
        sys.cov(t).finite(),
        sys.cov(t).len() == sys.slot_seq(t).len(),
        sys.cov(t).len() <= sys.num_sources,
{
    let s = sys.slot_seq(t);
    assert(strictly_sorted(s));
    assert(s.no_duplicates()) by {
        assert(forall|i: int, j: int| 0 <= i < j < s.len() ==> s[i] != s[j]);
    }
    s.unique_seq_to_set();
    lemma_sorted_len_le(s, sys.num_sources);
}

/// In a strictly increasing sequence of naturals, the entry at index `i` is
/// at least `i`.
proof fn lemma_sorted_lower(s: Seq<u16>, i: int)
    requires
        strictly_sorted(s),
        0 <= i < s.len(),
    ensures
        s[i] >= i,
    decreases i,
{
    if i > 0 {
        lemma_sorted_lower(s, i - 1);
        assert(s[i - 1] < s[i]);
    }
}

/// A strictly increasing sequence of identifiers below `n` has at most `n`
/// entries.
proof fn lemma_sorted_len_le(s: Seq<u16>, n: u16)
    requires
        strictly_sorted(s),
        forall|i: int| 0 <= i < s.len() ==> s[i] < n,
    ensures
        s.len() <= n,
{
    if s.len() > n {
        lemma_sorted_lower(s, n as int);
        assert(s[n as int] < n);
    }
}

/// A model with no recorded coverage has no coverage links at all, so by
/// `efficiency`'s contract its efficiency is `(m*n - 0) / (m*n)`, i.e. one.
pub proof fn lemma_efficiency_all_unset(sys: System, t: int)
    requires
        0 <= t <= sys.num_tests,
        forall|t2: int| 0 <= t2 < sys.num_tests ==> #[trigger] sys.cov(t2) == Set::<u16>::empty(),
    ensures
        total_links(sys, t) == 0,
    decreases t,
{
    if t > 0 {
        lemma_efficiency_all_unset(sys, t - 1);
        assert(sys.cov(t - 1).len() == 0);
    }
}

/// The set of all `n` sources has exactly `n` elements.
pub proof fn lemma_all_sources_card(n: u16)
    ensures
        all_sources(n).finite(),
        all_sources(n).len() == n,
    decreases n,
{
    if n == 0 {
        assert(all_sources(0) =~= Set::<u16>::empty());
    } else {
        let p = (n - 1) as u16;
        lemma_all_sources_card(p);
        assert(all_sources(n) =~= all_sources(p).insert(p));
        assert(!all_sources(p).contains(p));
    }
}

/// A model in which every test covers every source has every possible
/// coverage link, so by `efficiency`'s contract its efficiency is
/// `(m*n - m*n) / (m*n)`, i.e. zero.
pub proof fn lemma_efficiency_full_coverage(sys: System, t: int)
    requires
        0 <= t <= sys.num_tests,
        forall|t2: int|
            0 <= t2 < sys.num_tests ==> #[trigger] sys.cov(t2) == all_sources(sys.num_sources),
    ensures
        total_links(sys, t) == t * sys.num_sources,
    decreases t,
{
    if t <= 0 {
        assert(t == 0);
        assert(t * sys.num_sources == 0) by (nonlinear_arith)
            requires t == 0,
        ;
    } else {
        lemma_efficiency_full_coverage(sys, t - 1);
        lemma_all_sources_card(sys.num_sources);
        let nn: int = sys.num_sources as int;
        assert(sys.cov(t - 1) == all_sources(sys.num_sources));
        assert(sys.cov(t - 1).len() == nn);
        assert(total_links(sys, t) == total_links(sys, t - 1) + sys.cov(t - 1).len());
        assert(t * nn == (t - 1) * nn + nn) by (nonlinear_arith);
        assert(total_links(sys, t) == t * nn);
    }
}

/// The subset a mask denotes has exactly `mask_card` elements.
proof fn lemma_mask_set_card(mask: u32, n: u16)
    ensures
        mask_set(mask, n).finite(),
        mask_set(mask, n).len() == mask_card(mask, n),
    decreases n,
{
    if n == 0 {
        assert(mask_set(mask, 0) =~= Set::<u16>::empty());
    } else {
        let p = (n - 1) as u16;
        lemma_mask_set_card(mask, p);
        if mask_has(mask, p) {
            assert(mask_set(mask, n) =~= mask_set(mask, p).insert(p));
            assert(!mask_set(mask, p).contains(p));
        } else {
            assert(mask_set(mask, n) =~= mask_set(mask, p));
        }
    }
}

/// A mask in `[1, 2^n)` denotes a non-empty subset of `[0, n)`.
proof fn lemma_mask_card_pos(mask: u32, n: u16)
    requires
        1 <= mask,
        (mask as nat) < pow2(n as nat),
    ensures
        mask_card(mask, n) >= 1,
    decreases n,
{
    vstd::arithmetic::power2::lemma2_to64();
    if n == 0 {
        assert(false);
    } else {
        let p = (n - 1) as u16;
        if !mask_has(mask, p) {
            let pw = pow2(p as nat) as int;
            vstd::arithmetic::power2::lemma_pow2_pos(p as nat);
            vstd::arithmetic::power2::lemma_pow2_unfold(n as nat);
            let q = (mask as int) / pw;
            vstd::arithmetic::div_mod::lemma_fundamental_div_mod(mask as int, pw);
            vstd::arithmetic::div_mod::lemma_mod_bound(mask as int, pw);
            vstd::arithmetic::div_mod::lemma_div_pos_is_pos(mask as int, pw);
            assert(mask as int == pw * q + (mask as int) % pw);
            if q >= 2 {
                vstd::arithmetic::mul::lemma_mul_inequality(2, q, pw);
                assert(2 * pw == pw + pw);
                assert(pw * q == q * pw) by (nonlinear_arith);
                assert(mask as int >= pw * q);
                assert(mask as int >= 2 * pw);
                assert(false);
            }
            assert(0 <= q < 2);
            assert(q == 0) by {
                if q == 1 {
                    assert((mask as nat / pow2(p as nat)) % 2 == 1);
                }
            }
            assert(pw * 0 == 0);
            assert(mask as int == (mask as int) % pw);
            assert((mask as int) < pw);
            assert((mask as nat) < pow2(p as nat));
            lemma_mask_card_pos(mask, p);
        }
    }
}

/// Bit `s` of a mask is unchanged by reducing the mask modulo `2^h` for any
/// `h` above `s`.
proof fn lemma_mask_has_mod(m: u32, r: u32, h: u16, s: u16)
    requires
        s < h,
        h <= 16,
        r as int == (m as int) % (pow2(h as nat) as int),
    ensures
        mask_has(r, s) == mask_has(m, s),
{
    let p = pow2(h as nat) as int;
    let sp = pow2(s as nat) as int;
    let c = pow2((h - s) as nat) as int;
    vstd::arithmetic::power2::lemma_pow2_pos(h as nat);
    vstd::arithmetic::power2::lemma_pow2_pos(s as nat);
    vstd::arithmetic::power2::lemma_pow2_pos((h - s) as nat);
    vstd::arithmetic::power2::lemma_pow2_adds(s as nat, (h - s) as nat);
    assert(p == sp * c);
    let q = (m as int) / p;
    vstd::arithmetic::div_mod::lemma_fundamental_div_mod(m as int, p);
    vstd::arithmetic::div_mod::lemma_mod_bound(m as int, p);
    assert(m as int == p * q + r);
    vstd::arithmetic::div_mod::lemma_hoist_over_denominator(r as int, c * q, sp as nat);
    assert((r as int) / sp + c * q == (r + (c * q) * sp) / sp);
    assert((c * q) * sp == p * q) by (nonlinear_arith)
        requires p == sp * c,
    ;
    assert((m as int) / sp == (r as int) / sp + c * q);
    vstd::arithmetic::power2::lemma_pow2_unfold((h - s) as nat);
    let c2 = pow2((h - s - 1) as nat) as int;
    assert(c == 2 * c2);
    assert(c * q == 2 * (c2 * q)) by (nonlinear_arith)
        requires c == 2 * c2,
    ;
    vstd::arithmetic::div_mod::lemma_mod_multiples_vanish(c2 * q, (r as int) / sp, 2);
    assert(((m as int) / sp) % 2 == ((r as int) / sp) % 2);
}

/// The quotient of a mask below `2^n` by `2^(n-1)` is its top bit.
proof fn lemma_mask_high_bit(m: u32, n: u16)
    requires
        1 <= n <= 16,
        (m as nat) < pow2(n as nat),
    ensures
        (m as int) / (pow2((n - 1) as nat) as int) == if mask_has(m, (n - 1) as u16) {
            1int
        } else {
            0int
        },
{
    let pw = pow2((n - 1) as nat) as int;
    vstd::arithmetic::power2::lemma_pow2_pos((n - 1) as nat);
    vstd::arithmetic::power2::lemma_pow2_unfold(n as nat);
    let q = (m as int) / pw;
    vstd::arithmetic::div_mod::lemma_fundamental_div_mod(m as int, pw);
    vstd::arithmetic::div_mod::lemma_mod_bound(m as int, pw);
    vstd::arithmetic::div_mod::lemma_div_pos_is_pos(m as int, pw);
    if q >= 2 {
        vstd::arithmetic::mul::lemma_mul_inequality(2, q, pw);
        assert(pw * q == q * pw) by (nonlinear_arith);
        assert(m as int >= 2 * pw);
        assert(false);
    }
    vstd::arithmetic::div_mod::lemma_small_mod(q as nat, 2);
    assert(q % 2 == q);
}

/// Distinct masks below `2^n` denote distinct subsets: together with
/// `lemma_mask_denotes_nonempty` and `lemma_subset_has_mask`, the engine's
/// walk over the masks `1 ..= 2^n - 1` visits exactly `2^n - 1` subsets,
/// all non-empty, each exactly once, and misses none.
pub proof fn lemma_mask_repr_injective(m1: u32, m2: u32, n: u16)
    requires
        n <= 16,
        (m1 as nat) < pow2(n as nat),
        (m2 as nat) < pow2(n as nat),
        mask_set(m1, n) == mask_set(m2, n),
    ensures
        m1 == m2,
    decreases n,
{
    vstd::arithmetic::power2::lemma2_to64();
    if n == 0 {
        assert(m1 == 0 && m2 == 0);
    } else {
        let h = (n - 1) as u16;
        let pw = pow2(h as nat) as int;
        vstd::arithmetic::power2::lemma_pow2_pos(h as nat);
        vstd::arithmetic::power2::lemma_pow2_unfold(n as nat);
        assert(mask_set(m1, n).contains(h) == mask_set(m2, n).contains(h));
        assert(mask_set(m1, n).contains(h) == (h < n && mask_has(m1, h)));
        assert(mask_set(m2, n).contains(h) == (h < n && mask_has(m2, h)));
        assert(mask_has(m1, h) == mask_has(m2, h));
        lemma_mask_high_bit(m1, n);
        lemma_mask_high_bit(m2, n);
        let q = (m1 as int) / pw;
        assert(q == (m2 as int) / pw);
        vstd::arithmetic::div_mod::lemma_fundamental_div_mod(m1 as int, pw);
        vstd::arithmetic::div_mod::lemma_fundamental_div_mod(m2 as int, pw);
        vstd::arithmetic::div_mod::lemma_mod_bound(m1 as int, pw);
        vstd::arithmetic::div_mod::lemma_mod_bound(m2 as int, pw);
        let r1 = ((m1 as int) % pw) as u32;
        let r2 = ((m2 as int) % pw) as u32;
        assert(mask_set(r1, h) =~= mask_set(r2, h)) by {
            assert forall|t: u16| t < h implies mask_has(r1, t) == mask_has(r2, t) by {
                lemma_mask_has_mod(m1, r1, h, t);
                lemma_mask_has_mod(m2, r2, h, t);
                assert(mask_set(m1, n).contains(t) == mask_set(m2, n).contains(t));
                assert(mask_set(m1, n).contains(t) == (t < n && mask_has(m1, t)));
                assert(mask_set(m2, n).contains(t) == (t < n && mask_has(m2, t)));
            }
            assert forall|t: u16| mask_set(r1, h).contains(t) == mask_set(r2, h).contains(t) by {
                if t < h {
                    assert(mask_has(r1, t) == mask_has(r2, t));
                }
            }
        }
        lemma_mask_repr_injective(r1, r2, h);
        assert(m1 as int == pw * q + r1);
        assert(m2 as int == pw * q + r2);
    }
}

/// Every mask of the engine's walk denotes a non-empty subset of the
/// sources.
pub proof fn lemma_mask_denotes_nonempty(mask: u32, n: u16)
    requires
        1 <= mask,
        (mask as nat) < pow2(n as nat),
    ensures
        mask_set(mask, n).finite(),
        mask_set(mask, n) != Set::<u16>::empty(),
        mask_set(mask, n).subset_of(all_sources(n)),
    decreases n,
{
    lemma_mask_card_pos(mask, n);
    lemma_mask_set_card(mask, n);
    if mask_set(mask, n) == Set::<u16>::empty() {
        assert(mask_set(mask, n).len() == 0);
    }
}

/// Every subset of the sources is denoted by some mask below `2^n`: the
/// engine's walk misses no non-empty subset.
pub proof fn lemma_subset_has_mask(s: Set<u16>, n: u16)
    requires
        n <= 16,
        s.subset_of(all_sources(n)),
    ensures
        exists|mask: u32| (mask as nat) < pow2(n as nat) && #[trigger] mask_set(mask, n) == s,
    decreases n,
{
    vstd::arithmetic::power2::lemma2_to64();
    if n == 0 {
        assert(s =~= Set::<u16>::empty());
        assert(mask_set(0u32, 0) =~= s);
        assert((0u32 as nat) < pow2(0) && mask_set(0u32, 0) == s);
    } else {
        let h = (n - 1) as u16;
        let pw = pow2(h as nat) as int;
        vstd::arithmetic::power2::lemma_pow2_pos(h as nat);
        vstd::arithmetic::power2::lemma_pow2_unfold(n as nat);
        let s2 = s.remove(h);
        assert(s2.subset_of(all_sources(h))) by {
            assert forall|t: u16| s2.contains(t) implies t < h by {
                assert(s.contains(t));
                assert(all_sources(n).contains(t));
            }
        }
        lemma_subset_has_mask(s2, h);
        let m0 = choose|m: u32| (m as nat) < pow2(h as nat) && #[trigger] mask_set(m, h) == s2;
        let b: int = if s.contains(h) {
            1
        } else {
            0
        };
        let mask = (pw * b + m0) as u32;
        assert(mask as int == pw * b + m0);
        assert((mask as nat) < pow2(n as nat));
        vstd::arithmetic::div_mod::lemma_div_multiples_vanish_fancy(b, m0 as int, pw);
        assert((mask as int) / pw == b);
        vstd::arithmetic::div_mod::lemma_small_mod(b as nat, 2);
        assert(mask_has(mask, h) == (b == 1));
        vstd::arithmetic::div_mod::lemma_mod_multiples_vanish(b, m0 as int, pw);
        vstd::arithmetic::div_mod::lemma_small_mod(m0 as nat, pw as nat);
        assert((mask as int) % pw == m0);
        assert(mask_set(mask, n) =~= s) by {
            assert forall|t: u16| t < n implies mask_set(mask, n).contains(t) == s.contains(
                t,
            ) by {
                if t < h {
                    lemma_mask_has_mod(mask, m0, h, t);
                    assert(mask_set(m0, h).contains(t) == s2.contains(t));
                } else {
                    assert(t == h);
                }
            }
            assert forall|t: u16| s.contains(t) implies t < n by {
                assert(all_sources(n).contains(t));
            }
        }
        assert((mask as nat) < pow2(n as nat) && mask_set(mask, n) == s);
    }
}

/// The subsets that the masks `1 ..= h` denote, as a set of sets.
pub open spec fn subsets_of_masks(n: u16, h: int) -> Set<Set<u16>>
    decreases h,
{
    if h <= 0 {
        Set::empty()
    } else {
        subsets_of_masks(n, h - 1).insert(mask_set(h as u32, n))
    }
}

/// How many of the tests `0 .. t` cover the whole subset `a`.
pub open spec fn subset_covering_tests(sys: System, a: Set<u16>, t: int) -> nat
    decreases t,
{
    if t <= 0 {
        0
    } else {
        subset_covering_tests(sys, a, t - 1) + if a.subset_of(sys.cov(t - 1)) {
            1nat
        } else {
            0nat
        }
    }
}

/// The fold step of the subset-indexed detection sum: adds the number of
/// tests covering one subset.
pub open spec fn detection_step(sys: System) -> spec_fn(int, Set<u16>) -> int {
    |acc: int, a: Set<u16>| acc + subset_covering_tests(sys, a, sys.num_tests as int)
}

/// The detection sum indexed by subsets rather than masks: the sum, over a
/// set of source subsets, of the number of tests covering each.
pub open spec fn subset_detection_sum(sys: System, subsets: Set<Set<u16>>) -> int {
    subsets.fold(0int, detection_step(sys))
}

/// A test covers the subset a mask denotes exactly when its coverage set
/// is a superset of that subset.
proof fn lemma_covers_iff_subset(cov: Set<u16>, mask: u32, n: u16)
    ensures
        covers(cov, mask, n) == mask_set(mask, n).subset_of(cov),
{
    if covers(cov, mask, n) {
        assert forall|s: u16| mask_set(mask, n).contains(s) implies cov.contains(s) by {
            assert(s < n && mask_has(mask, s));
        }
    }
    if mask_set(mask, n).subset_of(cov) {
        assert forall|s: u16| s < n && mask_has(mask, s) implies cov.contains(s) by {
            assert(mask_set(mask, n).contains(s));
        }
    }
}

/// Counting covering tests by mask and by the subset the mask denotes
/// agree.
proof fn lemma_subset_covering_eq(sys: System, mask: u32, t: int)
    ensures
        covering_tests(sys, mask, t) == subset_covering_tests(sys, mask_set(mask, sys.num_sources), t),
    decreases t,
{
    if t > 0 {
        lemma_subset_covering_eq(sys, mask, t - 1);
        lemma_covers_iff_subset(sys.cov(t - 1), mask, sys.num_sources);
    }
}

/// The masks `1 ..= h` denote `h` distinct subsets, and those are exactly
/// the subsets the first `h` masks denote.
proof fn lemma_subsets_of_masks_props(n: u16, h: int)
    requires
        n <= 16,
        0 <= h,
        (h as nat) < pow2(n as nat),
    ensures
        subsets_of_masks(n, h).finite(),
        subsets_of_masks(n, h).len() == h,
        forall|m: int|
            1 <= m <= h ==> subsets_of_masks(n, h).contains(#[trigger] mask_set(m as u32, n)),
        forall|b: Set<u16>|
            #[trigger] subsets_of_masks(n, h).contains(b) ==> exists|m: int|
                1 <= m <= h && b == #[trigger] mask_set(m as u32, n),
    decreases h,
{
    vstd::arithmetic::power2::lemma2_to64();
    if (n as nat) < 16 {
        vstd::arithmetic::power2::lemma_pow2_strictly_increases(n as nat, 16);
    }
    if h > 0 {
        lemma_subsets_of_masks_props(n, h - 1);
        let prev = subsets_of_masks(n, h - 1);
        let a = mask_set(h as u32, n);
        assert(!prev.contains(a)) by {
            if subsets_of_masks(n, h - 1).contains(a) {
                let m = choose|m: int| 1 <= m <= h - 1 && a == #[trigger] mask_set(m as u32, n);
                lemma_mask_repr_injective(m as u32, h as u32, n);
            }
        }
        assert forall|b: Set<u16>|
            #[trigger] subsets_of_masks(n, h).contains(b) implies exists|m: int|
            1 <= m <= h && b == #[trigger] mask_set(m as u32, n) by {
            if b == a {
                assert(1 <= h <= h && b == mask_set(h as u32, n));
            } else {
                let m = choose|m: int| 1 <= m <= h - 1 && b == #[trigger] mask_set(m as u32, n);
                assert(1 <= m <= h && b == mask_set(m as u32, n));
            }
        }
    }
}

/// The detection sum over masks equals the fold of per-subset counts over
/// the set of denoted subsets.
proof fn lemma_detection_masks_to_subsets(sys: System, h: int)
    requires
        sys.num_sources <= 16,
        0 <= h,
        (h as nat) < pow2(sys.num_sources as nat),
    ensures
        detection_sum(sys, h) == subset_detection_sum(sys, subsets_of_masks(sys.num_sources, h)),
    decreases h,
{
    let n = sys.num_sources;
    let f = detection_step(sys);
    assert(vstd::set::fold::is_fun_commutative(f));
    vstd::arithmetic::power2::lemma2_to64();
    if (n as nat) < 16 {
        vstd::arithmetic::power2::lemma_pow2_strictly_increases(n as nat, 16);
    }
    if h == 0 {
        vstd::set::fold::lemma_fold_empty(0int, f);
    } else {
        lemma_detection_masks_to_subsets(sys, h - 1);
        lemma_subsets_of_masks_props(sys.num_sources, h - 1);
        let prev = subsets_of_masks(n, h - 1);
        let a = mask_set(h as u32, n);
        assert(!prev.contains(a)) by {
            if subsets_of_masks(n, h - 1).contains(a) {
                let m = choose|m: int| 1 <= m <= h - 1 && a == #[trigger] mask_set(m as u32, n);
                lemma_mask_repr_injective(m as u32, h as u32, n);
            }
        }
        vstd::set::fold::lemma_fold_insert(prev, 0int, f, a);
        lemma_subset_covering_eq(sys, h as u32, sys.num_tests as int);
    }
}

/// The defect detection numerator is a sum over genuine subsets: the masks
/// `1 ..= 2^n - 1` denote exactly the non-empty subsets of the sources,
/// `2^n - 1` of them, each once, and `detection_sum` is the fold over that
/// set of the number of tests covering each subset.
pub proof fn lemma_detection_sum_over_subsets(sys: System)
    requires
        1 <= sys.num_sources <= 16,
    ensures
        ({
            let n = sys.num_sources;
            let subs = subsets_of_masks(n, pow2(n as nat) - 1);
            &&& subs.finite()
            &&& subs.len() == pow2(n as nat) - 1
            &&& detection_sum(sys, pow2(n as nat) - 1) == subset_detection_sum(sys, subs)
            &&& forall|a: Set<u16>|
                #[trigger] subs.contains(a) ==> a != Set::<u16>::empty() && a.subset_of(
                    all_sources(n),
                )
            &&& forall|a: Set<u16>|
                a != Set::<u16>::empty() && a.subset_of(all_sources(n))
                    ==> #[trigger] subs.contains(a)
        }),
{
    let n = sys.num_sources;
    let h = pow2(n as nat) - 1;
    vstd::arithmetic::power2::lemma2_to64();
    vstd::arithmetic::power2::lemma_pow2_strictly_increases(0, n as nat);
    if (n as nat) < 16 {
        vstd::arithmetic::power2::lemma_pow2_strictly_increases(n as nat, 16);
    }
    lemma_subsets_of_masks_props(n, h);
    lemma_detection_masks_to_subsets(sys, h);
    let subs = subsets_of_masks(n, h);
    assert forall|a: Set<u16>| #[trigger] subs.contains(a) implies a != Set::<u16>::empty()
        && a.subset_of(all_sources(n)) by {
        let m = choose|m: int| 1 <= m <= h && a == #[trigger] mask_set(m as u32, n);
        lemma_mask_denotes_nonempty(m as u32, n);
        assert(Set::<u16>::empty().len() == 0);
        assert forall|s: u16| a.contains(s) implies all_sources(n).contains(s) by {
            assert(s < n);
        }
    }
    assert forall|a: Set<u16>|
        a != Set::<u16>::empty() && a.subset_of(all_sources(n)) implies #[trigger] subs.contains(
        a,
    ) by {
        lemma_subset_has_mask(a, n);
        let mask = choose|mask: u32|
            (mask as nat) < pow2(n as nat) && #[trigger] mask_set(mask, n) == a;
        assert(mask >= 1) by {
            if mask == 0 {
                assert forall|s: u16| !mask_has(0u32, s) by {
                    vstd::arithmetic::power2::lemma_pow2_pos(s as nat);
                    vstd::arithmetic::div_mod::lemma_div_of0(pow2(s as nat) as int);
                }
                assert(a =~= Set::<u16>::empty());
            }
        }
        assert(subs.contains(mask_set((mask as int) as u32, n)));
    }
}

/// The localization set of the subset `a` over the tests `0 .. t`: the
/// intersection of the coverage sets of every test whose coverage is a
/// superset of `a`, or `None` if no such test exists.
pub open spec fn subset_localization_up_to(sys: System, a: Set<u16>, t: int) -> Option<Set<u16>>
    decreases t,
{
    if t <= 0 {
        None
    } else {
        let rest = subset_localization_up_to(sys, a, t - 1);
        if a.subset_of(sys.cov(t - 1)) {
            match rest {
                None => Some(sys.cov(t - 1)),
                Some(x) => Some(x.intersect(sys.cov(t - 1))),
            }
        } else {
            rest
        }
    }
}

/// The scaled localization penalty of the subset `a` itself: the full
/// common denominator `num_sources!` if no test covers `a`, otherwise
/// `(|L| - |a|) * (num_sources! / |L|)`.
pub open spec fn subset_localization_term(sys: System, a: Set<u16>) -> int {
    let d = factorial(sys.num_sources as nat) as int;
    match subset_localization_up_to(sys, a, sys.num_tests as int) {
        None => d,
        Some(l) => (l.len() - a.len()) * (d / (l.len() as int)),
    }
}

/// The fold step of the subset-indexed localization penalty.
pub open spec fn localization_step(sys: System) -> spec_fn(int, Set<u16>) -> int {
    |acc: int, a: Set<u16>| acc + subset_localization_term(sys, a)
}

/// The localization penalty indexed by subsets rather than masks.
pub open spec fn subset_localization_penalty(sys: System, subsets: Set<Set<u16>>) -> int {
    subsets.fold(0int, localization_step(sys))
}

/// The localization set computed by mask and by the subset the mask
/// denotes agree.
proof fn lemma_localization_set_eq(sys: System, mask: u32, t: int)
    ensures
        localization_up_to(sys, mask, t) == subset_localization_up_to(
            sys,
            mask_set(mask, sys.num_sources),
            t,
        ),
    decreases t,
{
    if t > 0 {
        lemma_localization_set_eq(sys, mask, t - 1);
        lemma_covers_iff_subset(sys.cov(t - 1), mask, sys.num_sources);
    }
}

/// The localization penalty over masks equals the fold of per-subset
/// penalties over the set of denoted subsets.
proof fn lemma_localization_masks_to_subsets(sys: System, h: int)
    requires
        sys.num_sources <= 16,
        0 <= h,
        (h as nat) < pow2(sys.num_sources as nat),
    ensures
        localization_penalty(sys, h) == subset_localization_penalty(
            sys,
            subsets_of_masks(sys.num_sources, h),
        ),
    decreases h,
{
    let n = sys.num_sources;
    let f = localization_step(sys);
    assert(vstd::set::fold::is_fun_commutative(f));
    vstd::arithmetic::power2::lemma2_to64();
    if (n as nat) < 16 {
        vstd::arithmetic::power2::lemma_pow2_strictly_increases(n as nat, 16);
    }
    if h == 0 {
        vstd::set::fold::lemma_fold_empty(0int, f);
    } else {
        lemma_localization_masks_to_subsets(sys, h - 1);
        lemma_subsets_of_masks_props(sys.num_sources, h - 1);
        let prev = subsets_of_masks(n, h - 1);
        let a = mask_set(h as u32, n);
        assert(!prev.contains(a)) by {
            if subsets_of_masks(n, h - 1).contains(a) {
                let m = choose|m: int| 1 <= m <= h - 1 && a == #[trigger] mask_set(m as u32, n);
                lemma_mask_repr_injective(m as u32, h as u32, n);
            }
        }
        vstd::set::fold::lemma_fold_insert(prev, 0int, f, a);
        lemma_localization_set_eq(sys, h as u32, sys.num_tests as int);
        assert(localization_term(sys, h as u32) == subset_localization_term(sys, a));
    }
}

/// The defect localization penalty is a sum over genuine subsets: over the
/// same `2^n - 1` distinct non-empty subsets that
/// `lemma_detection_sum_over_subsets` characterizes, `localization_penalty`
/// is the fold of the per-subset penalty terms.
pub proof fn lemma_localization_penalty_over_subsets(sys: System)
    requires
        1 <= sys.num_sources <= 16,
    ensures
        ({
            let n = sys.num_sources;
            let subs = subsets_of_masks(n, pow2(n as nat) - 1);
            &&& subs.finite()
            &&& subs.len() == pow2(n as nat) - 1
            &&& localization_penalty(sys, pow2(n as nat) - 1) == subset_localization_penalty(
                sys,
                subs,
            )
        }),
{
    let n = sys.num_sources;
    let h = pow2(n as nat) - 1;
    vstd::arithmetic::power2::lemma2_to64();
    vstd::arithmetic::power2::lemma_pow2_strictly_increases(0, n as nat);
    if (n as nat) < 16 {
        vstd::arithmetic::power2::lemma_pow2_strictly_increases(n as nat, 16);
    }
    lemma_subsets_of_masks_props(n, h);
    lemma_localization_masks_to_subsets(sys, h);
}

/// The factorial is at least one.
proof fn lemma_factorial_pos(n: nat)
    ensures
        factorial(n) >= 1,
    decreases n,
{
    if n > 0 {
        lemma_factorial_pos((n - 1) as nat);
        vstd::arithmetic::mul::lemma_mul_inequality(
            1,
            n as int,
            factorial((n - 1) as nat) as int,
        );
    }
}

/// Every denominator the localization penalty can meet divides the common
/// denominator: `l` divides `n!` whenever `1 <= l <= n`, so each penalty
/// term `(|L| - |A|) / |L|` is carried exactly on the denominator `n!`.
pub proof fn lemma_factorial_divisible(l: nat, n: nat)
    requires
        1 <= l <= n,
    ensures
        factorial(n) % l == 0,
    decreases n,
{
    let f = factorial((n - 1) as nat) as int;
    if l == n {
        vstd::arithmetic::div_mod::lemma_mod_multiples_vanish(f, 0, n as int);
        assert((n as int) * f == (n as int) * f + 0);
        assert(factorial(n) == (n as int) * f);
    } else {
        lemma_factorial_divisible(l, (n - 1) as nat);
        vstd::arithmetic::div_mod::lemma_fundamental_div_mod(f, l as int);
        let k = f / (l as int);
        assert(f == (l as int) * k);
        assert((n as int) * f == (l as int) * ((n as int) * k)) by (nonlinear_arith)
            requires f == (l as int) * k,
        ;
        vstd::arithmetic::div_mod::lemma_mod_multiples_vanish((n as int) * k, 0, l as int);
        assert(factorial(n) == (n as int) * f);
    }
}

/// The factorial is monotone.
proof fn lemma_factorial_mono(a: nat, b: nat)
    requires
        a <= b,
    ensures
        factorial(a) <= factorial(b),
    decreases b,
{
    if a < b {
        lemma_factorial_mono(a, (b - 1) as nat);
        lemma_factorial_pos((b - 1) as nat);
        vstd::arithmetic::mul::lemma_mul_inequality(
            1,
            b as int,
            factorial((b - 1) as nat) as int,
        );
    }
}

/// The concrete value of `16!`, the largest common denominator the
/// localization metric can use.
proof fn lemma_factorial_16()
    ensures
        factorial(16) == 20922789888000,
{
    reveal_with_fuel(factorial, 18);
}

/// When the localization set exists it is finite, contains the whole subset
/// the mask denotes, and holds only identifiers below `num_sources`.
proof fn lemma_localization_props(sys: System, mask: u32, t: int)
    requires
        sys.wf(),
        0 <= t <= sys.num_tests,
    ensures
        match localization_up_to(sys, mask, t) {
            None => true,
            Some(l) => {
                &&& l.finite()
                &&& mask_set(mask, sys.num_sources).subset_of(l)
                &&& forall|s: u16| l.contains(s) ==> s < sys.num_sources
            },
        },
    decreases t,
{
    if t > 0 {
        lemma_localization_props(sys, mask, t - 1);
        let c = sys.cov(t - 1);
        if covers(c, mask, sys.num_sources) {
            lemma_slot_len(sys, t - 1);
            assert forall|s: u16| c.contains(s) implies s < sys.num_sources by {
                assert(sys.slot_seq(t - 1).contains(s));
                let w = choose|w: int|
                    0 <= w < sys.slot_seq(t - 1).len() && #[trigger] sys.slot_seq(t - 1)[w] == s;
            }
            assert forall|s: u16| mask_set(mask, sys.num_sources).contains(s) implies c.contains(
                s,
            ) by {
                assert(s < sys.num_sources && mask_has(mask, s));
            }
        }
    }
}

/// The intersection of two strictly sorted vectors, itself strictly sorted.
#[verifier::rlimit(100)]
#[verifier::spinoff_prover]
#[verifier::loop_isolation(false)]
fn sorted_intersect(a: &Vec<u16>, b: &Vec<u16>) -> (r: Vec<u16>)
    requires
        strictly_sorted(a@),
        strictly_sorted(b@),
    ensures
        strictly_sorted(r@),
        r@.to_set() == a@.to_set().intersect(b@.to_set()),
{
    let mut out: Vec<u16> = Vec::new();
    let mut i: usize = 0;
    let mut j: usize = 0;
    proof {
        assert(a@.subrange(0, a@.len() as int) == a@);
        assert(b@.subrange(0, b@.len() as int) == b@);
    }
    while i < a.len() && j < b.len()
        invariant
            i <= a@.len(),
            j <= b@.len(),
            strictly_sorted(out@),
            forall|e: u16|
                out@.to_set().contains(e) ==> a@.to_set().contains(e) && b@.to_set().contains(e),
            forall|e: u16|
                a@.to_set().contains(e) && b@.to_set().contains(e)
                    ==> out@.to_set().contains(e) || (a@.subrange(i as int, a@.len() as int).contains(e)
                    && b@.subrange(j as int, b@.len() as int).contains(e)),
            forall|k: int|
                0 <= k < out@.len() ==> (i < a@.len() ==> out@[k] < a@[i as int]) && (j < b@.len()
                    ==> out@[k] < b@[j as int]),
        decreases a@.len() - i + b@.len() - j,
    {
        let ghost old_out = out@;
        let ghost oi = i as int;
        let ghost oj = j as int;
        let av = a[i];
        let bv = b[j];
        if av < bv {
            i = i + 1;
        } else if bv < av {
            j = j + 1;
        } else {
            out.push(av);
            i = i + 1;
            j = j + 1;
        }
        proof {
            let ni = i as int;
            let nj = j as int;
            if av == bv {
                assert(out@ == old_out.push(av));
                assert(out@.to_set().contains(av)) by {
                    assert(out@.last() == av);
                    assert(out@.contains(av));
                }
                assert forall|e: u16| out@.to_set().contains(e) implies old_out.to_set().contains(
                    e,
                ) || e == av by {
                    let w = choose|w: int| 0 <= w < out@.len() && out@[w] == e;
                    if w < old_out.len() {
                        assert(old_out[w] == e);
                        assert(old_out.contains(e));
                    }
                }
                assert forall|e: u16| old_out.to_set().contains(e) implies out@.to_set().contains(
                    e,
                ) by {
                    let w = choose|w: int| 0 <= w < old_out.len() && old_out[w] == e;
                    assert(out@[w] == e);
                    assert(out@.contains(e));
                }
                assert(a@.to_set().contains(av)) by {
                    assert(a@[oi] == av);
                    assert(a@.contains(av));
                }
                assert(b@.to_set().contains(av)) by {
                    assert(b@[oj] == av);
                    assert(b@.contains(av));
                }
                assert(strictly_sorted(out@)) by {
                    assert(forall|k: int| 0 <= k < old_out.len() ==> old_out[k] < av);
                }
            } else {
                assert(out@ == old_out);
            }
            assert forall|e: u16|
                a@.to_set().contains(e) && b@.to_set().contains(e) && !out@.to_set().contains(e)
                    implies (a@.subrange(ni, a@.len() as int).contains(e) && b@.subrange(
                nj,
                b@.len() as int,
            ).contains(e)) by {
                assert(!old_out.to_set().contains(e));
                assert(a@.subrange(oi, a@.len() as int).contains(e));
                assert(b@.subrange(oj, b@.len() as int).contains(e));
                let wa = choose|w: int|
                    0 <= w < a@.len() - oi && a@.subrange(oi, a@.len() as int)[w] == e;
                let wb = choose|w: int|
                    0 <= w < b@.len() - oj && b@.subrange(oj, b@.len() as int)[w] == e;
                assert(a@[oi + wa] == e);
                assert(b@[oj + wb] == e);
                if av < bv {
                    if e == av {
                        assert(b@[oj + wb] >= b@[oj]);
                        assert(false);
                    }
                    assert(oi + wa > oi);
                    assert(a@.subrange(ni, a@.len() as int)[oi + wa - ni] == e);
                    assert(a@.subrange(ni, a@.len() as int).contains(e));
                    assert(b@.subrange(nj, b@.len() as int).contains(e));
                } else if bv < av {
                    if e == bv {
                        assert(a@[oi + wa] >= a@[oi]);
                        assert(false);
                    }
                    assert(oj + wb > oj);
                    assert(b@.subrange(nj, b@.len() as int)[oj + wb - nj] == e);
                    assert(b@.subrange(nj, b@.len() as int).contains(e));
                    assert(a@.subrange(ni, a@.len() as int).contains(e));
                } else {
                    assert(e != av);
                    assert(oi + wa > oi);
                    assert(oj + wb > oj);
                    assert(a@.subrange(ni, a@.len() as int)[oi + wa - ni] == e);
                    assert(a@.subrange(ni, a@.len() as int).contains(e));
                    assert(b@.subrange(nj, b@.len() as int)[oj + wb - nj] == e);
                    assert(b@.subrange(nj, b@.len() as int).contains(e));
                }
            }
        }
    }
    proof {
        assert forall|e: u16|
            a@.to_set().contains(e) && b@.to_set().contains(e) implies out@.to_set().contains(
            e,
        ) by {
            if !out@.to_set().contains(e) {
                if i >= a@.len() {
                    assert(a@.subrange(i as int, a@.len() as int).len() == 0);
                    assert(!a@.subrange(i as int, a@.len() as int).contains(e));
                } else {
                    assert(b@.subrange(j as int, b@.len() as int).len() == 0);
                    assert(!b@.subrange(j as int, b@.len() as int).contains(e));
                }
            }
        }
        assert(out@.to_set() =~= a@.to_set().intersect(b@.to_set()));
    }
    out
}

/// Counts the set bits of `mask` below position `n`.
#[verifier::loop_isolation(false)]
fn popcount_below(mask: u32, n: u16) -> (c: u16)
    requires
        n <= 16,
    ensures
        c == mask_card(mask, n),
{
    let mut c: u16 = 0;
    let mut s: u16 = 0;
    while s < n
        invariant
            s <= n,
            c == mask_card(mask, s),
            c <= s,
        decreases n - s,
    {
        if bit_of(mask, s) {
            c = c + 1;
        }
        s = s + 1;
    }
    c
}

/// Computes `n!`.
#[verifier::loop_isolation(false)]
fn factorial_u64(n: u16) -> (r: u64)
    requires
        n <= 16,
    ensures
        r == factorial(n as nat),
        r >= 1,
{
    proof {
        lemma_factorial_16();
        lemma_factorial_pos(n as nat);
    }
    let mut f: u64 = 1;
    let mut i: u16 = 0;
    while i < n
        invariant
            i <= n,
            f == factorial(i as nat),
        decreases n - i,
    {
        let next: u16 = i + 1;
        proof {
            assert(factorial(next as nat) == (next as nat) * factorial(i as nat));
            lemma_factorial_16();
            lemma_factorial_mono(next as nat, 16);
            assert((f as int) * (next as int) == (next as nat) * factorial(i as nat));
            assert((f as int) * (next as int) <= 20922789888000);
        }
        f = f * (next as u64);
        i = next;
    }
    f
}

impl System {
    /// The localization set of `mask` as a strictly sorted vector, `None` if
    /// no test covers the subset that `mask` denotes.
    #[verifier::loop_isolation(false)]
    fn localization_vec(&self, mask: u32) -> (r: Option<Vec<u16>>)
        requires
            self.wf(),
            self.num_sources <= 16,
        ensures
            match r {
                None => localization_set(*self, mask) is None,
                Some(v) => {
                    &&& localization_set(*self, mask) is Some
                    &&& strictly_sorted(v@)
                    &&& v@.to_set() == localization_set(*self, mask).unwrap()
                },
            },
    {
        let mut acc: Option<Vec<u16>> = None;
        let mut t: usize = 0;
        while t < self.num_tests as usize
            invariant
                t <= self.num_tests,
                match acc {
                    None => localization_up_to(*self, mask, t as int) is None,
                    Some(v) => {
                        &&& localization_up_to(*self, mask, t as int) is Some
                        &&& strictly_sorted(v@)
                        &&& v@.to_set() == localization_up_to(*self, mask, t as int).unwrap()
                    },
                },
            decreases self.num_tests - t,
        {
            if self.test_covers(t, mask) {
                let slotv: Vec<u16> = match &self.test_map[t] {
                    Some(v) => crate::system::clone_sources(v),
                    None => Vec::new(),
                };
                proof {
                    assert(slotv@ == self.slot_seq(t as int));
                    assert(strictly_sorted(slotv@));
                }
                let next: Option<Vec<u16>> = match &acc {
                    None => Some(slotv),
                    Some(prev) => Some(sorted_intersect(prev, &slotv)),
                };
                acc = next;
            }
            t = t + 1;
        }
        acc
    }

    /// One minus the mean localization penalty over every non-empty subset
    /// of the sources, on the common denominator `(2^n - 1) * n!`:
    /// `1 - localization_penalty / ((2^n - 1) * n!)`.
    #[verifier::loop_isolation(false)]
    pub fn defect_localization_capacity(&self) -> (r: Ratio)
        requires
            self.wf(),
            1 <= self.num_sources <= 16,
            self.num_tests >= 1,
        ensures
            r.wf(),
            r.at_most_one(),
            r.den == (pow2(self.num_sources as nat) - 1) * factorial(self.num_sources as nat),
            r.num == r.den - localization_penalty(*self, pow2(self.num_sources as nat) - 1),
    {
        let n = self.num_sources;
        let m = self.num_tests;
        let subsets: u32 = pow2_u32(n) - 1;
        let d: u64 = factorial_u64(n);
        proof {
            vstd::arithmetic::power2::lemma2_to64();
            vstd::arithmetic::power2::lemma_pow2_strictly_increases(0, n as nat);
            if (n as nat) < 16 {
                vstd::arithmetic::power2::lemma_pow2_strictly_increases(n as nat, 16);
            }
            lemma_factorial_16();
            lemma_factorial_mono(n as nat, 16);
            vstd::arithmetic::mul::lemma_mul_upper_bound(
                subsets as int,
                65535,
                d as int,
                20922789888000,
            );
            vstd::arithmetic::mul::lemma_mul_strictly_positive(subsets as int, d as int);
        }
        let den: u64 = (subsets as u64) * d;
        proof {
            assert(den == (subsets as int) * (d as int));
            assert(den > 0);
        }
        let mut penalty: u64 = 0;
        let mut mask: u32 = 1;
        while mask <= subsets
            invariant
                1 <= mask <= subsets + 1,
                penalty == localization_penalty(*self, mask as int - 1),
                penalty <= (mask as int - 1) * d,
            decreases subsets - mask + 1,
        {
            let loc = self.localization_vec(mask);
            let term: u64 = match loc {
                None => d,
                Some(l) => {
                    let l_size: u64 = l.len() as u64;
                    let ghost lset = localization_set(*self, mask).unwrap();
                    proof {
                        assert(l@.no_duplicates()) by {
                            assert(forall|x: int, y: int|
                                0 <= x < y < l@.len() ==> l@[x] != l@[y]);
                        }
                        l@.unique_seq_to_set();
                        lemma_localization_props(*self, mask, self.num_tests as int);
                        lemma_mask_set_card(mask, n);
                        lemma_mask_card_pos(mask, n);
                        vstd::set_lib::lemma_len_subset(mask_set(mask, n), lset);
                        assert forall|k: int| 0 <= k < l@.len() implies l@[k] < n by {
                            assert(l@.contains(l@[k]));
                            assert(l@.to_set().contains(l@[k]));
                            assert(lset.contains(l@[k]));
                        }
                        lemma_sorted_len_le(l@, n);
                        assert(l_size == lset.len());
                        assert(l_size >= 1);
                        vstd::arithmetic::div_mod::lemma_fundamental_div_mod(
                            d as int,
                            l_size as int,
                        );
                        vstd::arithmetic::div_mod::lemma_mod_bound(d as int, l_size as int);
                        vstd::arithmetic::div_mod::lemma_div_pos_is_pos(d as int, l_size as int);
                        vstd::arithmetic::div_mod::lemma_div_nonincreasing(d as int, l_size as int);
                    }
                    let a_size: u64 = popcount_below(mask, n) as u64;
                    proof {
                        assert(a_size == mask_set(mask, n).len());
                        assert(1 <= a_size <= l_size);
                        vstd::arithmetic::mul::lemma_mul_inequality(
                            l_size as int - a_size as int,
                            l_size as int,
                            (d as int) / (l_size as int),
                        );
                        vstd::arithmetic::mul::lemma_mul_upper_bound(
                            l_size as int - a_size as int,
                            16,
                            (d as int) / (l_size as int),
                            20922789888000,
                        );
                    }
                    (l_size - a_size) * (d / l_size)
                },
            };
            proof {
                assert(term <= d);
                assert(term as int == localization_term(*self, mask));
                assert(localization_penalty(*self, mask as int) == localization_penalty(
                    *self,
                    mask as int - 1,
                ) + localization_term(*self, mask));
                assert((mask as int) * d == (mask as int - 1) * d + d) by (nonlinear_arith);
                vstd::arithmetic::mul::lemma_mul_inequality(mask as int, subsets as int, d as int);
            }
            penalty = penalty + term;
            mask = mask + 1;
        }
        Ratio { num: den - penalty, den }
    }
}

} // verus!
