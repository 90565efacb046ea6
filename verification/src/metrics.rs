//! The scenario generator and the Monte-Carlo convergence driver. Up to 100
//! randomized coverage models are generated and measured; the driver stops
//! early once ten consecutive observations fall inside the bounds
//! accumulated from all strictly earlier observations.

use vstd::prelude::*;
use vstd::arithmetic::power2::pow2;
use crate::analysis::{all_sources, detection_sum, factorial, localization_penalty, total_links};
use crate::ratio::{MetricTriple, Ratio, SimulationBounds};
use crate::rng::{choose_distinct_sources, gen_source_index};
use crate::system::{System, SystemError};

verus! {

/// `ceil(m * num / den)` as exact integer arithmetic.
pub open spec fn ceil_frac(m: int, num: int, den: int) -> int {
    (m * num + den - 1) / den
}

/// The bounds accumulated from a sequence of observations, starting from
/// `SimulationBounds::spec_initial()` and widened by each observation in
/// order.
pub open spec fn bounds_after(ts: Seq<MetricTriple>) -> SimulationBounds
    decreases ts.len(),
{
    if ts.len() == 0 {
        SimulationBounds::spec_initial()
    } else {
        bounds_after(ts.drop_last()).spec_widened(ts.last())
    }
}

/// Whether observation `k` lies inside the bounds accumulated from the
/// observations strictly before it.
pub open spec fn within_prior(ts: Seq<MetricTriple>, k: int) -> bool
    recommends
        0 <= k < ts.len(),
{
    bounds_after(ts.take(k)).spec_contains(ts[k])
}

/// Whether the sequence of observations ends in a saturation streak: its
/// last ten observations each lie inside the bounds accumulated from all
/// the observations strictly before them.
pub open spec fn saturated(ts: Seq<MetricTriple>) -> bool {
    &&& ts.len() >= 10
    &&& forall|k: int| ts.len() - 10 <= k < ts.len() ==> within_prior(ts, k)
}

/// The conditions under which a simulation request is accepted: at least
/// one source and one test, a source count the exponential engine can
/// enumerate, both fractions at most one, their sum at most one, and
/// rounded-up special-test counts that fit into the test total.
pub open spec fn valid_configuration(
    num_sources: u16,
    num_tests: u16,
    single_source_fraction: Ratio,
    system_fraction: Ratio,
) -> bool {
    &&& 1 <= num_sources <= 16
    &&& num_tests >= 1
    &&& single_source_fraction.wf() && single_source_fraction.at_most_one()
    &&& system_fraction.wf() && system_fraction.at_most_one()
    &&& single_source_fraction.num * system_fraction.den + system_fraction.num
        * single_source_fraction.den <= single_source_fraction.den * system_fraction.den
    &&& ceil_frac(
        num_tests as int,
        system_fraction.num as int,
        system_fraction.den as int,
    ) + ceil_frac(
        num_tests as int,
        single_source_fraction.num as int,
        single_source_fraction.den as int,
    ) <= num_tests
}

/// The shape of a generated coverage model: well-formed, of the requested
/// dimensions, and filled in the fixed order of the generator — the first
/// `k_sys` tests cover every source, the next `k_single` tests cover
/// exactly one source each, and every remaining test covers a non-empty
/// set of at most `num_sources` sources.
pub open spec fn scenario_structure(
    sys: System,
    num_sources: u16,
    num_tests: u16,
    k_sys: int,
    k_single: int,
) -> bool {
    &&& sys.wf()
    &&& sys.num_sources == num_sources
    &&& sys.num_tests == num_tests
    &&& forall|t: int| 0 <= t < k_sys ==> #[trigger] sys.cov(t) == all_sources(num_sources)
    &&& forall|t: int|
        k_sys <= t < k_sys + k_single ==> (#[trigger] sys.cov(t)).finite() && sys.cov(t).len()
            == 1 && sys.cov(t).subset_of(all_sources(num_sources))
    &&& forall|t: int|
        k_sys + k_single <= t < num_tests ==> (#[trigger] sys.cov(t)).finite() && 1 <= sys.cov(
            t,
        ).len() <= num_sources && sys.cov(t).subset_of(all_sources(num_sources))
}

/// Whether `tr` is exactly the metric triple of the model `sys`, component
/// by component, as the three metric functions compute it.
pub open spec fn triple_of_model(tr: MetricTriple, sys: System) -> bool {
    &&& tr.efficiency.den == sys.num_tests * sys.num_sources
    &&& tr.efficiency.num == tr.efficiency.den - total_links(sys, sys.num_tests as int)
    &&& tr.defect_detection.den == (pow2(sys.num_sources as nat) - 1) * sys.num_tests
    &&& tr.defect_detection.num == detection_sum(sys, pow2(sys.num_sources as nat) - 1)
    &&& tr.defect_localization.den == (pow2(sys.num_sources as nat) - 1) * factorial(
        sys.num_sources as nat,
    )
    &&& tr.defect_localization.num == tr.defect_localization.den - localization_penalty(
        sys,
        pow2(sys.num_sources as nat) - 1,
    )
}

/// Whether `tr` is the metric triple of some coverage model with the
/// generated structure: what one trial of the convergence driver emits.
pub open spec fn trial_triple(
    tr: MetricTriple,
    num_sources: u16,
    num_tests: u16,
    k_sys: int,
    k_single: int,
) -> bool {
    exists|sys: System|
        #[trigger] triple_of_model(tr, sys) && scenario_structure(
            sys,
            num_sources,
            num_tests,
            k_sys,
            k_single,
        )
}

/// Bounds accumulated from well-formed observations are well-formed.
proof fn lemma_bounds_after_wf(ts: Seq<MetricTriple>)
    requires
        forall|k: int| 0 <= k < ts.len() ==> (#[trigger] ts[k]).wf(),
    ensures
        bounds_after(ts).wf(),
    decreases ts.len(),
{
    if ts.len() > 0 {
        assert(ts.last().wf());
        assert forall|k: int| 0 <= k < ts.drop_last().len() implies (#[trigger] ts.drop_last()[
            k
        ]).wf() by {
            assert(ts.drop_last()[k] == ts[k]);
        }
        lemma_bounds_after_wf(ts.drop_last());
    }
}

/// Computes `ceil(m * f)` for a fraction `f` at most one.
#[verifier::loop_isolation(false)]
fn ceil_times(m: u16, f: &Ratio) -> (r: u16)
    requires
        f.wf(),
        f.at_most_one(),
    ensures
        r == ceil_frac(m as int, f.num as int, f.den as int),
        r <= m,
{
    proof {
        vstd::arithmetic::mul::lemma_mul_upper_bound(
            m as int,
            u16::MAX as int,
            f.num as int,
            u64::MAX as int,
        );
    }
    let v: u128 = (m as u128) * (f.num as u128) + (f.den as u128) - 1;
    let q: u128 = v / (f.den as u128);
    proof {
        vstd::arithmetic::mul::lemma_mul_inequality(f.num as int, f.den as int, m as int);
        vstd::arithmetic::div_mod::lemma_div_multiples_vanish_fancy(
            m as int,
            f.den as int - 1,
            f.den as int,
        );
        vstd::arithmetic::div_mod::lemma_div_is_ordered(
            v as int,
            m as int * f.den as int + f.den as int - 1,
            f.den as int,
        );
        assert(q <= m);
    }
    q as u16
}

/// The vector `[0, 1, .., n - 1]`: every source.
#[verifier::loop_isolation(false)]
fn make_all_sources(n: u16) -> (r: Vec<u16>)
    ensures
        r@.len() == n,
        forall|k: int| 0 <= k < r@.len() ==> r@[k] < n,
        r@.to_set() == all_sources(n),
{
    let mut r: Vec<u16> = Vec::new();
    let mut s: u16 = 0;
    while s < n
        invariant
            s <= n,
            r@.len() == s,
            forall|k: int| 0 <= k < r@.len() ==> r@[k] == k,
        decreases n - s,
    {
        r.push(s);
        s = s + 1;
    }
    proof {
        assert forall|e: u16| r@.to_set().contains(e) implies all_sources(n).contains(e) by {
            let w = choose|w: int| 0 <= w < r@.len() && r@[w] == e;
        }
        assert forall|e: u16| all_sources(n).contains(e) implies r@.to_set().contains(e) by {
            assert(r@[e as int] == e);
            assert(r@.contains(e));
        }
        assert(r@.to_set() =~= all_sources(n));
    }
    r
}

/// Builds one randomized coverage model, filling the test slots in a fixed
/// order: first `num_system_tests` tests covering every source, next
/// `num_single_source_tests` tests covering one random source each, and
/// finally tests covering a random non-empty subset of the sources.
#[verifier::loop_isolation(false)]
pub fn generate_scenario(
    num_sources: u16,
    num_tests: u16,
    num_system_tests: u16,
    num_single_source_tests: u16,
    rng: &mut rand::rngs::StdRng,
) -> (r: System)
    requires
        num_sources >= 1,
        num_system_tests as int + num_single_source_tests as int <= num_tests as int,
    ensures
        scenario_structure(
            r,
            num_sources,
            num_tests,
            num_system_tests as int,
            num_single_source_tests as int,
        ),
{
    let mut sys = System::new(num_sources, num_tests);
    proof {
        assert forall|t: int|
            0 <= t < num_tests implies #[trigger] sys.slot_seq(t) == Seq::<u16>::empty() by {
            assert(sys.slot_unset(t));
        }
    }
    let all = make_all_sources(num_sources);
    let mut t: u16 = 0;
    while t < num_system_tests
        invariant
            t <= num_system_tests,
            sys.wf(),
            sys.num_sources == num_sources,
            sys.num_tests == num_tests,
            forall|t2: int| 0 <= t2 < t ==> #[trigger] sys.cov(t2) == all_sources(num_sources),
            forall|t2: int|
                t <= t2 < num_tests ==> #[trigger] sys.slot_seq(t2) == Seq::<u16>::empty(),
        decreases num_system_tests - t,
    {
        let ghost prev_sys = sys;
        let res = sys.add_has_test_for(t, all.as_slice());
        proof {
            assert(res is Ok);
            assert(sys.cov(t as int) =~= all_sources(num_sources)) by {
                assert(Seq::<u16>::empty().to_set() =~= Set::<u16>::empty());
            }
            assert forall|t2: int| 0 <= t2 < t + 1 implies #[trigger] sys.cov(t2) == all_sources(
                num_sources,
            ) by {
                if t2 < t {
                    assert(sys.slot_seq(t2) == prev_sys.slot_seq(t2));
                    assert(sys.cov(t2) == prev_sys.cov(t2));
                }
            }
            assert forall|t2: int|
                t + 1 <= t2 < num_tests implies #[trigger] sys.slot_seq(t2) == Seq::<
                u16,
            >::empty() by {
                assert(sys.slot_seq(t2) == prev_sys.slot_seq(t2));
            }
        }
        t = t + 1;
    }
    let singles_end: u16 = num_system_tests + num_single_source_tests;
    while t < singles_end
        invariant
            num_system_tests <= t <= singles_end,
            sys.wf(),
            sys.num_sources == num_sources,
            sys.num_tests == num_tests,
            forall|t2: int|
                0 <= t2 < num_system_tests ==> #[trigger] sys.cov(t2) == all_sources(num_sources),
            forall|t2: int|
                num_system_tests <= t2 < t ==> (#[trigger] sys.cov(t2)).finite() && sys.cov(
                    t2,
                ).len() == 1 && sys.cov(t2).subset_of(all_sources(num_sources)),
            forall|t2: int|
                t <= t2 < num_tests ==> #[trigger] sys.slot_seq(t2) == Seq::<u16>::empty(),
        decreases singles_end - t,
    {
        let src = gen_source_index(rng, num_sources);
        let mut one: Vec<u16> = Vec::new();
        one.push(src);
        let ghost prev_sys = sys;
        let res = sys.add_has_test_for(t, one.as_slice());
        proof {
            assert(res is Ok);
            assert(one@.to_set() =~= Set::<u16>::empty().insert(src)) by {
                assert(one@[0] == src);
                assert(one@.contains(src));
                assert forall|e: u16| one@.to_set().contains(e) implies e == src by {
                    let w = choose|w: int| 0 <= w < one@.len() && one@[w] == e;
                }
            }
            assert(sys.cov(t as int) =~= Set::<u16>::empty().insert(src)) by {
                assert(Seq::<u16>::empty().to_set() =~= Set::<u16>::empty());
            }
            assert(sys.cov(t as int).finite());
            assert(sys.cov(t as int).len() == 1);
            assert(sys.cov(t as int).subset_of(all_sources(num_sources)));
            assert forall|t2: int| 0 <= t2 < num_tests && t2 != t implies #[trigger] sys.cov(t2)
                == prev_sys.cov(t2) by {
                assert(sys.slot_seq(t2) == prev_sys.slot_seq(t2));
            }
            assert forall|t2: int|
                t + 1 <= t2 < num_tests implies #[trigger] sys.slot_seq(t2) == Seq::<
                u16,
            >::empty() by {
                assert(sys.slot_seq(t2) == prev_sys.slot_seq(t2));
            }
        }
        t = t + 1;
    }
    while t < num_tests
        invariant
            singles_end <= t <= num_tests,
            sys.wf(),
            sys.num_sources == num_sources,
            sys.num_tests == num_tests,
            forall|t2: int|
                0 <= t2 < num_system_tests ==> #[trigger] sys.cov(t2) == all_sources(num_sources),
            forall|t2: int|
                num_system_tests <= t2 < singles_end ==> (#[trigger] sys.cov(t2)).finite()
                    && sys.cov(t2).len() == 1 && sys.cov(t2).subset_of(all_sources(num_sources)),
            forall|t2: int|
                singles_end <= t2 < t ==> (#[trigger] sys.cov(t2)).finite() && 1 <= sys.cov(
                    t2,
                ).len() <= num_sources && sys.cov(t2).subset_of(all_sources(num_sources)),
            forall|t2: int|
                t <= t2 < num_tests ==> #[trigger] sys.slot_seq(t2) == Seq::<u16>::empty(),
        decreases num_tests - t,
    {
        let size = gen_source_index(rng, num_sources) + 1;
        let srcs = choose_distinct_sources(rng, num_sources, size);
        let ghost prev_sys = sys;
        let res = sys.add_has_test_for(t, srcs.as_slice());
        proof {
            assert(res is Ok);
            assert(srcs@.no_duplicates());
            srcs@.unique_seq_to_set();
            assert(sys.cov(t as int) =~= srcs@.to_set()) by {
                assert(Seq::<u16>::empty().to_set() =~= Set::<u16>::empty());
            }
            assert(sys.cov(t as int).len() == size);
            assert forall|e: u16| sys.cov(t as int).contains(e) implies all_sources(
                num_sources,
            ).contains(e) by {
                assert(srcs@.to_set().contains(e));
                let w = choose|w: int| 0 <= w < srcs@.len() && srcs@[w] == e;
            }
            assert forall|t2: int| 0 <= t2 < num_tests && t2 != t implies #[trigger] sys.cov(t2)
                == prev_sys.cov(t2) by {
                assert(sys.slot_seq(t2) == prev_sys.slot_seq(t2));
            }
            assert forall|t2: int|
                t + 1 <= t2 < num_tests implies #[trigger] sys.slot_seq(t2) == Seq::<
                u16,
            >::empty() by {
                assert(sys.slot_seq(t2) == prev_sys.slot_seq(t2));
            }
        }
        t = t + 1;
    }
    sys
}

/// Runs up to 100 trials: each generates a fresh random coverage model from
/// the fixed configuration, measures its three metrics and emits the triple.
/// The streak check compares each triple against the bounds accumulated
/// from the strictly earlier trials, before those bounds are widened by the
/// triple itself; the bounds are widened by every emitted triple, and after
/// ten consecutive in-bounds trials the run stops.
#[verifier::loop_isolation(false)]
pub fn calculate_metrics(
    num_sources: u16,
    num_tests: u16,
    single_source_fraction: Ratio,
    system_fraction: Ratio,
    rng: &mut rand::rngs::StdRng,
) -> (r: (Vec<MetricTriple>, SimulationBounds))
    requires
        1 <= num_sources <= 16,
        num_tests >= 1,
        single_source_fraction.wf(),
        single_source_fraction.at_most_one(),
        system_fraction.wf(),
        system_fraction.at_most_one(),
        ceil_frac(num_tests as int, system_fraction.num as int, system_fraction.den as int)
            + ceil_frac(
            num_tests as int,
            single_source_fraction.num as int,
            single_source_fraction.den as int,
        ) <= num_tests,
    ensures
        1 <= r.0@.len() <= 100,
        forall|k: int| 0 <= k < r.0@.len() ==> (#[trigger] r.0@[k]).wf(),
        forall|k: int|
            0 <= k < r.0@.len() ==> trial_triple(
                #[trigger] r.0@[k],
                num_sources,
                num_tests,
                ceil_frac(num_tests as int, system_fraction.num as int, system_fraction.den as int),
                ceil_frac(
                    num_tests as int,
                    single_source_fraction.num as int,
                    single_source_fraction.den as int,
                ),
            ),
        r.0@.len() < 100 ==> saturated(r.0@),
        r.1 == bounds_after(r.0@),
        r.1.wf(),
{
    let num_system_tests = ceil_times(num_tests, &system_fraction);
    let num_single_source_tests = ceil_times(num_tests, &single_source_fraction);
    let mut metrics: Vec<MetricTriple> = Vec::new();
    let mut bounds = SimulationBounds::initial();
    let mut streak: u16 = 0;
    let mut trial: u16 = 0;
    while trial < 100
        invariant
            trial <= 100,
            metrics@.len() == trial,
            forall|k: int| 0 <= k < metrics@.len() ==> (#[trigger] metrics@[k]).wf(),
            forall|k: int|
                0 <= k < metrics@.len() ==> trial_triple(
                    #[trigger] metrics@[k],
                    num_sources,
                    num_tests,
                    num_system_tests as int,
                    num_single_source_tests as int,
                ),
            bounds == bounds_after(metrics@),
            streak <= 9,
            streak <= trial,
            forall|k: int| trial - streak <= k < trial ==> within_prior(metrics@, k),
        decreases 100 - trial,
    {
        let sys = generate_scenario(
            num_sources,
            num_tests,
            num_system_tests,
            num_single_source_tests,
            rng,
        );
        let triple = MetricTriple {
            efficiency: sys.efficiency(),
            defect_detection: sys.defect_detection_capacity(),
            defect_localization: sys.defect_localization_capacity(),
        };
        let ghost prev_seq = metrics@;
        metrics.push(triple);
        proof {
            assert(triple_of_model(triple, sys) && scenario_structure(
                sys,
                num_sources,
                num_tests,
                num_system_tests as int,
                num_single_source_tests as int,
            ));
            assert(trial_triple(
                triple,
                num_sources,
                num_tests,
                num_system_tests as int,
                num_single_source_tests as int,
            ));
            assert(metrics@.drop_last() == prev_seq);
            assert(metrics@.last() == triple);
            assert(bounds_after(metrics@) == bounds_after(prev_seq).spec_widened(triple));
            assert(metrics@.take(trial as int) == prev_seq) by {
                assert(metrics@.take(trial as int) =~= prev_seq);
            }
            assert forall|k: int| 0 <= k < trial implies within_prior(metrics@, k) == within_prior(
                prev_seq,
                k,
            ) by {
                assert(metrics@.take(k) =~= prev_seq.take(k));
                assert(metrics@[k] == prev_seq[k]);
            }
        }
        let within = bounds.contains(&triple);
        proof {
            assert(within_prior(metrics@, trial as int) == within);
        }
        if within {
            streak = streak + 1;
        } else {
            streak = 0;
        }
        bounds = bounds.widened(&triple);
        if streak >= 10 {
            proof {
                assert(within);
                assert(within_prior(metrics@, trial as int));
                assert forall|k: int|
                    metrics@.len() - 10 <= k < metrics@.len() implies within_prior(
                    metrics@,
                    k,
                ) by {
                    if k < trial {
                        assert(within_prior(prev_seq, k));
                        assert(within_prior(metrics@, k) == within_prior(prev_seq, k));
                    }
                }
                assert(saturated(metrics@));
                assert(bounds == bounds_after(metrics@));
                lemma_bounds_after_wf(metrics@);
            }
            return (metrics, bounds);
        }
        trial = trial + 1;
        proof {
            if within {
                assert forall|k: int|
                    (trial as int) - streak <= k < trial implies within_prior(metrics@, k) by {
                    if k < trial - 1 {
                        assert(within_prior(prev_seq, k));
                        assert(within_prior(metrics@, k) == within_prior(prev_seq, k));
                    } else {
                        assert(within_prior(metrics@, trial - 1) == within);
                    }
                }
            }
        }
    }
    proof {
        lemma_bounds_after_wf(metrics@);
    }
    (metrics, bounds)
}

/// Validates a simulation configuration and, when it is acceptable, runs
/// the convergence simulation. A rejected configuration is reported as
/// `InvalidConfiguration` without generating any scenario.
#[verifier::loop_isolation(false)]
pub fn run_simulation(
    num_sources: u16,
    num_tests: u16,
    single_source_fraction: Ratio,
    system_fraction: Ratio,
    rng: &mut rand::rngs::StdRng,
) -> (r: Result<(Vec<MetricTriple>, SimulationBounds), SystemError>)
    ensures
        r is Ok <==> valid_configuration(
            num_sources,
            num_tests,
            single_source_fraction,
            system_fraction,
        ),
        r is Err ==> r == Err::<(Vec<MetricTriple>, SimulationBounds), SystemError>(
            SystemError::InvalidConfiguration,
        ),
        r is Ok ==> 1 <= r.unwrap().0@.len() <= 100,
        r is Ok ==> forall|k: int|
            0 <= k < r.unwrap().0@.len() ==> (#[trigger] r.unwrap().0@[k]).wf(),
        r is Ok ==> forall|k: int|
            0 <= k < r.unwrap().0@.len() ==> trial_triple(
                #[trigger] r.unwrap().0@[k],
                num_sources,
                num_tests,
                ceil_frac(num_tests as int, system_fraction.num as int, system_fraction.den as int),
                ceil_frac(
                    num_tests as int,
                    single_source_fraction.num as int,
                    single_source_fraction.den as int,
                ),
            ),
        r is Ok && r.unwrap().0@.len() < 100 ==> saturated(r.unwrap().0@),
        r is Ok ==> r.unwrap().1.wf(),
        r is Ok ==> r.unwrap().1 == bounds_after(r.unwrap().0@),
{
    if num_sources < 1 || num_sources > 16 || num_tests < 1 {
        return Err(SystemError::InvalidConfiguration);
    }
    if single_source_fraction.den == 0 || system_fraction.den == 0 {
        return Err(SystemError::InvalidConfiguration);
    }
    if single_source_fraction.num > single_source_fraction.den || system_fraction.num
        > system_fraction.den {
        return Err(SystemError::InvalidConfiguration);
    }
    proof {
        crate::ratio::lemma_u64_products_fit(
            single_source_fraction.num,
            system_fraction.den,
            system_fraction.num,
            single_source_fraction.den,
        );
        crate::ratio::lemma_u64_products_fit(
            single_source_fraction.den,
            system_fraction.den,
            single_source_fraction.den,
            system_fraction.den,
        );
    }
    let a: u128 = (single_source_fraction.num as u128) * (system_fraction.den as u128);
    let b: u128 = (system_fraction.num as u128) * (single_source_fraction.den as u128);
    let rhs: u128 = (single_source_fraction.den as u128) * (system_fraction.den as u128);
    if a > rhs {
        return Err(SystemError::InvalidConfiguration);
    }
    if b > rhs - a {
        return Err(SystemError::InvalidConfiguration);
    }
    let num_system_tests = ceil_times(num_tests, &system_fraction);
    let num_single_source_tests = ceil_times(num_tests, &single_source_fraction);
    if (num_system_tests as u32) + (num_single_source_tests as u32) > (num_tests as u32) {
        return Err(SystemError::InvalidConfiguration);
    }
    Ok(calculate_metrics(num_sources, num_tests, single_source_fraction, system_fraction, rng))
}

} // verus!
