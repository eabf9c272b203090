//! Risk-calibrated percentile search.
//!
//! For a dataset and a risk tolerance `num/den`, the search finds the
//! smallest integer percentile `P` such that fixing every entity's
//! recommendation at its histogram's value at `P` would have left the
//! total recommended capacity below the observed aggregate on at most
//! `num/den` of the historical timestamps.  The risk is non-increasing in
//! `P`, which makes the binary search sound.
//!
//! Each risk evaluation scans every timestamp once; the scan is a pure
//! function of the read-only dataset and is fanned out over worker
//! threads.

use vstd::prelude::*;
use vstd::arithmetic::mul::{lemma_mul_inequality, lemma_mul_upper_bound};
use rayon::iter::{IntoParallelRefIterator, ParallelIterator};
use crate::histogram::{lemma_value_at_percentile_monotone, spec_value_at_percentile};
use crate::dataset::{
    ContainerId, ContainerIdView, MemoryInfo, MemoryInfoView, MetricValue, find_container,
    find_presence, lemma_find_container_props, wf_mem,
};

verus! {

/// Why an analysis run was refused.
#[derive(Clone, Copy, Debug, PartialEq, Eq, Structural)]
pub enum AnalysisError {
    /// The risk tolerance was not a fraction in [0, 1].
    InvalidTolerance,
    /// The dataset has an empty aggregate series, so risk is undefined.
    EmptyDataset,
}

/// Maximum acceptable fraction `num/den` of historical timestamps at
/// which the total recommended capacity may fall short of the observed
/// aggregate.
pub struct RiskTolerance {
    num: u64,
    den: u64,
}

impl RiskTolerance {
    /// The fraction's numerator.
    pub closed spec fn numerator(self) -> int {
        self.num as int
    }

    /// The fraction's denominator.
    pub closed spec fn denominator(self) -> int {
        self.den as int
    }

    /// A tolerance is a fraction in [0, 1].
    pub closed spec fn valid(self) -> bool {
        self.num <= self.den && self.den >= 1
    }

    /// Accepts a fraction in [0, 1]: `num/den` with `num <= den` and a
    /// positive denominator.  Anything else is a configuration error.
    pub fn new(num: u64, den: u64) -> (result: Result<RiskTolerance, AnalysisError>)
        ensures
            (den >= 1 && num <= den) ==> {
                &&& result is Ok
                &&& result.unwrap().valid()
                &&& result.unwrap().numerator() == num as int
                &&& result.unwrap().denominator() == den as int
            },
            !(den >= 1 && num <= den) ==> result == Err::<RiskTolerance, AnalysisError>(
                AnalysisError::InvalidTolerance,
            ),
    {
        if den >= 1 && num <= den {
            Ok(RiskTolerance { num, den })
        } else {
            Err(AnalysisError::InvalidTolerance)
        }
    }

    /// The fraction's numerator.
    pub fn numerator_value(&self) -> (n: u64)
        ensures
            n as int == self.numerator(),
    {
        self.num
    }

    /// The fraction's denominator.
    pub fn denominator_value(&self) -> (n: u64)
        ensures
            n as int == self.denominator(),
    {
        self.den
    }
}

/// The recommendation an identifier would receive at percentile `p`:
/// its histogram's value at `p`, or 0 for an untracked identifier.
pub open spec fn rec_at(d: MemoryInfoView, id: ContainerIdView, p: int) -> int {
    let j = find_container(d.containers, id);
    if j >= 0 {
        spec_value_at_percentile(d.containers[j].1, p)
    } else {
        0
    }
}

/// Sum of the recommendations at percentile `p` over a list of
/// identifiers.
pub open spec fn sum_recs(d: MemoryInfoView, ids: Seq<ContainerIdView>, p: int) -> int
    decreases ids.len(),
{
    if ids.len() == 0 {
        0
    } else {
        sum_recs(d, ids.drop_last(), p) + rec_at(d, ids.last(), p)
    }
}

/// The identifiers recorded as present at a timestamp.
pub open spec fn presence_ids(d: MemoryInfoView, ts: u64) -> Seq<ContainerIdView> {
    let k = find_presence(d.presence, ts);
    if k >= 0 {
        d.presence[k].1
    } else {
        Seq::empty()
    }
}

/// Whether, at percentile `p`, the entities present at this sample's
/// timestamp would together have been granted less than the observed
/// aggregate value.
pub open spec fn sample_under(d: MemoryInfoView, s: MetricValue, p: int) -> bool {
    sum_recs(d, presence_ids(d, s.timestamp), p) < s.value
}

/// Number of under-covered timestamps among the first `n` aggregate
/// samples at percentile `p`.
pub open spec fn under_count(d: MemoryInfoView, p: int, n: int) -> int
    decreases n,
{
    if n <= 0 {
        0
    } else {
        under_count(d, p, n - 1) + if sample_under(d, d.global[n - 1], p) {
            1int
        } else {
            0int
        }
    }
}

/// The risk at percentile `p` is at most `num/den`: the under-covered
/// share of all timestamps does not exceed the tolerated fraction.
pub open spec fn risk_at_most(d: MemoryInfoView, p: int, num: int, den: int) -> bool {
    under_count(d, p, d.global.len() as int) * den <= num * d.global.len()
}

/// The per-entity request values recommended by one analysis run, all
/// read off one calibrated percentile.
pub struct Recommendations {
    /// The calibrated percentile the values were read at.
    pub percentile: u8,
    /// One recommended request value per tracked entity, in the
    /// dataset's entity order.
    pub entries: Vec<(ContainerId, u64)>,
}

impl View for Recommendations {
    type V = Seq<(ContainerIdView, u64)>;

    open spec fn view(&self) -> Seq<(ContainerIdView, u64)> {
        Seq::new(self.entries@.len(), |k: int| (self.entries@[k].0@, self.entries@[k].1))
    }
}

/// Index of the first recommendation for an identifier, or -1 if there
/// is none.
pub open spec fn find_rec(rs: Seq<(ContainerIdView, u64)>, id: ContainerIdView) -> int
    decreases rs.len(),
{
    if rs.len() == 0 {
        -1
    } else if rs[0].0 == id {
        0
    } else {
        let f = find_rec(rs.drop_first(), id);
        if f < 0 {
            -1
        } else {
            1 + f
        }
    }
}

/// The recommended value for an identifier, or 0 if it has none.
pub open spec fn rec_value(rs: Seq<(ContainerIdView, u64)>, id: ContainerIdView) -> int {
    let j = find_rec(rs, id);
    if j >= 0 {
        rs[j].1 as int
    } else {
        0
    }
}

/// Sum of the recommended values over a list of identifiers.
pub open spec fn sum_rec_values(rs: Seq<(ContainerIdView, u64)>, ids: Seq<ContainerIdView>) -> int
    decreases ids.len(),
{
    if ids.len() == 0 {
        0
    } else {
        sum_rec_values(rs, ids.drop_last()) + rec_value(rs, ids.last())
    }
}

/// Largest total recommended capacity needed at any of the first `n`
/// presence entries.
pub open spec fn spec_peak(
    rs: Seq<(ContainerIdView, u64)>,
    presence: Seq<(u64, Seq<ContainerIdView>)>,
    n: int,
) -> int
    decreases n,
{
    if n <= 1 {
        sum_rec_values(rs, presence[0].1)
    } else {
        let rest = spec_peak(rs, presence, n - 1);
        let here = sum_rec_values(rs, presence[n - 1].1);
        if here > rest {
            here
        } else {
            rest
        }
    }
}

/// The first-match index for a recommendation is in range, matches, and
/// nothing before it matches; -1 means nothing matches at all.
pub proof fn lemma_find_rec_props(rs: Seq<(ContainerIdView, u64)>, id: ContainerIdView)
    ensures
        -1 <= find_rec(rs, id) < rs.len(),
        find_rec(rs, id) >= 0 ==> rs[find_rec(rs, id)].0 == id && (forall|k: int|
            0 <= k < find_rec(rs, id) ==> (#[trigger] rs[k].0) != id),
        find_rec(rs, id) == -1 ==> forall|k: int| 0 <= k < rs.len() ==> (#[trigger] rs[k].0) != id,
    decreases rs.len(),
{
    if rs.len() > 0 && rs[0].0 != id {
        let rest = rs.drop_first();
        lemma_find_rec_props(rest, id);
        let fr = find_rec(rest, id);
        if fr >= 0 {
            assert(rs[1 + fr] == rest[fr]);
            assert forall|k: int| 0 <= k < 1 + fr implies (#[trigger] rs[k].0) != id by {
                if k >= 1 {
                    assert(rs[k] == rest[k - 1]);
                }
            }
        } else {
            assert forall|k: int| 0 <= k < rs.len() implies (#[trigger] rs[k].0) != id by {
                if k >= 1 {
                    assert(rs[k] == rest[k - 1]);
                }
            }
        }
    }
}

impl Recommendations {
    /// The recommended request value for an identifier, if it has one.
    pub fn value_for(&self, id: &ContainerId) -> (r: Option<u64>)
        ensures
            match r {
                Some(v) => find_rec(self@, id@) >= 0 && v as int == rec_value(self@, id@),
                None => find_rec(self@, id@) == -1,
            },
    {
        proof {
            lemma_find_rec_props(self@, id@);
        }
        let n = self.entries.len();
        let mut k: usize = 0;
        while k < n
            invariant
                n == self@.len(),
                n == self.entries@.len(),
                k <= n,
                forall|l: int| 0 <= l < k ==> (#[trigger] self@[l].0) != id@,
            decreases n - k,
        {
            if self.entries[k].0 == *id {
                proof {
                    lemma_find_rec_props(self@, id@);
                    assert(self@[k as int].0 == id@);
                    let f = find_rec(self@, id@);
                    if f == -1 {
                        assert(self@[k as int].0 != id@);
                    } else if f < k as int {
                        assert(self@[f].0 != id@);
                        assert(self@[f].0 == id@);
                    } else if f > k as int {
                        assert(self@[k as int].0 != id@);
                    }
                    assert(f == k as int);
                }
                return Some(self.entries[k].1);
            }
            proof {
                assert(self@[k as int].0 == self.entries@[k as int].0@);
            }
            k = k + 1;
        }
        None
    }
}

/// Whether the entities present at this sample's timestamp would, at the
/// given percentile, together be granted less than the observed
/// aggregate value.
#[verifier::loop_isolation(false)]
fn is_under_requested(memory_info: &MemoryInfo, percentile: u8, point: &MetricValue) -> (r: bool)
    requires
        memory_info.well_formed(),
        percentile <= 100,
    ensures
        r == sample_under(memory_info@, *point, percentile as int),
{
    let ghost d = memory_info@;
    let ghost p = percentile as int;
    match memory_info.presence_for(point.timestamp) {
        None => {
            proof {
                assert(presence_ids(d, point.timestamp) == Seq::<ContainerIdView>::empty());
                assert(sum_recs(d, presence_ids(d, point.timestamp), p) == 0);
            }
            point.value > 0
        },
        Some(ids) => {
            let ghost idsv = presence_ids(d, point.timestamp);
            proof {
                assert(Seq::new(ids@.len(), |l: int| ids@[l]@) == idsv);
            }
            let n = ids.len();
            let mut sum: u128 = 0;
            let mut l: usize = 0;
            while l < n
                invariant
                    n == ids@.len(),
                    n == idsv.len(),
                    l <= n,
                    sum == sum_recs(d, idsv.subrange(0, l as int), p),
                    sum <= l * 0xffff_ffff_ffff_ffffu64,
                decreases n - l,
            {
                let v = match memory_info.histogram_for(&ids[l]) {
                    Some(h) => h.value_at_percentile(percentile),
                    None => 0,
                };
                proof {
                    assert(idsv[l as int] == ids@[l as int]@);
                    assert(v as int == rec_at(d, idsv[l as int], p));
                    let pre = idsv.subrange(0, l as int);
                    let nxt = idsv.subrange(0, l + 1);
                    assert(nxt.drop_last() =~= pre);
                    assert(nxt.last() == idsv[l as int]);
                }
                sum = sum + (v as u128);
                l = l + 1;
            }
            proof {
                assert(idsv.subrange(0, n as int) =~= idsv);
            }
            sum < (point.value as u128)
        },
    }
}

/// Number of under-covered timestamps at the given percentile, evaluated
/// over all aggregate samples in parallel.
///
/// Relies on rayon's `par_iter().filter(..).count()`: it yields every
/// element of the slice exactly once and counts those for which the
/// (pure, verified) predicate returns true.
#[verifier::external_body]
fn count_under_requested(memory_info: &MemoryInfo, percentile: u8) -> (r: usize)
    requires
        memory_info.well_formed(),
        percentile <= 100,
    ensures
        r == under_count(memory_info@, percentile as int, memory_info@.global.len() as int),
{
    memory_info
        .global_series()
        .par_iter()
        .filter(|point| is_under_requested(memory_info, percentile, point))
        .count()
}

/// RISK MONOTONICITY LAW: raising the percentile never under-covers more
/// timestamps, and so never raises the risk above a tolerance it met.
pub proof fn lemma_risk_monotone(d: MemoryInfoView, p1: int, p2: int, num: int, den: int)
    requires
        wf_mem(d),
        0 <= p1 <= p2 <= 100,
        den >= 0,
    ensures
        under_count(d, p2, d.global.len() as int) <= under_count(d, p1, d.global.len() as int),
        risk_at_most(d, p1, num, den) ==> risk_at_most(d, p2, num, den),
{
    lemma_under_count_monotone(d, p1, p2, d.global.len() as int);
    if risk_at_most(d, p1, num, den) {
        lemma_mul_inequality(
            under_count(d, p2, d.global.len() as int),
            under_count(d, p1, d.global.len() as int),
            den,
        );
    }
}

/// Summed recommendations never shrink as the percentile grows.
proof fn lemma_sum_recs_monotone(d: MemoryInfoView, ids: Seq<ContainerIdView>, p1: int, p2: int)
    requires
        wf_mem(d),
        0 <= p1 <= p2 <= 100,
    ensures
        sum_recs(d, ids, p1) <= sum_recs(d, ids, p2),
    decreases ids.len(),
{
    if ids.len() > 0 {
        lemma_sum_recs_monotone(d, ids.drop_last(), p1, p2);
        let j = find_container(d.containers, ids.last());
        lemma_find_container_props(d.containers, ids.last());
        if j >= 0 {
            lemma_value_at_percentile_monotone(d.containers[j].1, p1, p2);
        }
    }
}

/// The under-covered count never grows as the percentile grows.
proof fn lemma_under_count_monotone(d: MemoryInfoView, p1: int, p2: int, n: int)
    requires
        wf_mem(d),
        0 <= p1 <= p2 <= 100,
        n <= d.global.len(),
    ensures
        under_count(d, p2, n) <= under_count(d, p1, n),
    decreases n,
{
    if n > 0 {
        lemma_under_count_monotone(d, p1, p2, n - 1);
        lemma_sum_recs_monotone(d, presence_ids(d, d.global[n - 1].timestamp), p1, p2);
    }
}

/// Finds the smallest percentile whose risk stays within the tolerance
/// and reads one recommended request value per entity off it.
///
/// If even percentile 100 exceeds the tolerance, every percentile does,
/// and the recommendations are those at 100.  An empty aggregate series
/// leaves the risk undefined and is refused.
#[verifier::loop_isolation(false)]
pub fn calculate_requests(memory_info: &MemoryInfo, tolerance: &RiskTolerance) -> (result: Result<
    Recommendations,
    AnalysisError,
>)
    requires
        memory_info.well_formed(),
        tolerance.valid(),
    ensures
        ({
            let d = memory_info@;
            let num = tolerance.numerator();
            let den = tolerance.denominator();
            match result {
                Ok(rec) => {
                    &&& d.global.len() > 0
                    &&& rec.percentile <= 100
                    &&& (risk_at_most(d, 100, num, den) ==> risk_at_most(
                        d,
                        rec.percentile as int,
                        num,
                        den,
                    ))
                    &&& (rec.percentile > 0 ==> !risk_at_most(
                        d,
                        rec.percentile as int - 1,
                        num,
                        den,
                    ))
                    &&& (!risk_at_most(d, 100, num, den) ==> rec.percentile == 100)
                    &&& rec@.len() == d.containers.len()
                    &&& forall|k: int| 0 <= k < d.containers.len() ==> (#[trigger] rec@[k]).0
                        == d.containers[k].0 && rec@[k].1 == spec_value_at_percentile(
                        d.containers[k].1,
                        rec.percentile as int,
                    )
                },
                Err(e) => e == AnalysisError::EmptyDataset && d.global.len() == 0,
            }
        }),
{
    let ghost d = memory_info@;
    let ghost num = tolerance.numerator();
    let ghost den = tolerance.denominator();
    let total_ts = memory_info.global_series().len();
    if total_ts == 0 {
        return Err(AnalysisError::EmptyDataset);
    }
    let num_value = tolerance.numerator_value();
    let den_value = tolerance.denominator_value();
    let mut min: u8 = 0;
    let mut max: u8 = 100;
    while min < max
        invariant
            min <= max <= 100,
            min > 0 ==> !risk_at_most(d, min as int - 1, num, den),
            risk_at_most(d, max as int, num, den) || max == 100,
        decreases max - min,
    {
        let percentile = (min + max) / 2;
        let under = count_under_requested(memory_info, percentile);
        proof {
            lemma_mul_upper_bound(under as int, u64::MAX as int, den, u64::MAX as int);
            lemma_mul_upper_bound(num, u64::MAX as int, total_ts as int, u64::MAX as int);
        }
        let risky = (under as u128) * (den_value as u128) > (num_value as u128) * (total_ts
            as u128);
        if risky {
            min = percentile + 1;
        } else {
            max = percentile;
        }
    }
    let n = memory_info.container_count();
    let mut entries: Vec<(ContainerId, u64)> = Vec::new();
    let mut k: usize = 0;
    while k < n
        invariant
            n == d.containers.len(),
            k <= n,
            entries@.len() == k,
            forall|l: int| 0 <= l < k ==> (#[trigger] entries@[l].0)@ == d.containers[l].0
                && entries@[l].1 == spec_value_at_percentile(d.containers[l].1, min as int),
        decreases n - k,
    {
        let pair = memory_info.container_at(k);
        let v = pair.1.value_at_percentile(min);
        let ghost pre = entries@;
        entries.push((pair.0.clone(), v));
        k = k + 1;
        proof {
            assert forall|l: int| 0 <= l < k implies (#[trigger] entries@[l].0)@
                == d.containers[l].0 && entries@[l].1 == spec_value_at_percentile(
                d.containers[l].1,
                min as int,
            ) by {
                if l < k - 1 {
                    assert(entries@[l] == pre[l]);
                } else {
                    assert(entries@[l].0@ == pair.0@);
                }
            }
        }
    }
    let rec = Recommendations { percentile: min, entries };
    proof {
        memory_info.lemma_well_formed_view();
        if !risk_at_most(d, 100, num, den) && min < 100 {
            lemma_risk_monotone(d, min as int, 100, num, den);
            assert(false);
        }
        assert forall|l: int| 0 <= l < d.containers.len() implies (#[trigger] rec@[l]).0
            == d.containers[l].0 && rec@[l].1 == spec_value_at_percentile(
            d.containers[l].1,
            rec.percentile as int,
        ) by {
            assert(rec@[l] == (rec.entries@[l].0@, rec.entries@[l].1));
        }
    }
    Ok(rec)
}

/// The largest total recommended capacity needed at any single recorded
/// timestamp, or nothing for an empty presence index.
#[verifier::loop_isolation(false)]
pub fn peak_total_request(memory_info: &MemoryInfo, recommendations: &Recommendations) -> (r:
    Option<u128>)
    requires
        memory_info.well_formed(),
    ensures
        memory_info@.presence.len() == 0 ==> r is None,
        memory_info@.presence.len() > 0 ==> r == Some::<u128>(
            spec_peak(
                recommendations@,
                memory_info@.presence,
                memory_info@.presence.len() as int,
            ) as u128,
        ) && spec_peak(
            recommendations@,
            memory_info@.presence,
            memory_info@.presence.len() as int,
        ) <= u128::MAX,
{
    let ghost d = memory_info@;
    let n = memory_info.presence_count();
    if n == 0 {
        return None;
    }
    let mut best: u128 = presence_total(memory_info, recommendations, 0);
    let mut k: usize = 1;
    while k < n
        invariant
            1 <= k <= n,
            n == d.presence.len(),
            best == spec_peak(recommendations@, d.presence, k as int),
        decreases n - k,
    {
        let here = presence_total(memory_info, recommendations, k);
        if here > best {
            best = here;
        }
        k = k + 1;
    }
    Some(best)
}

/// Total recommended capacity for the entities present at one recorded
/// timestamp.
#[verifier::loop_isolation(false)]
fn presence_total(memory_info: &MemoryInfo, recommendations: &Recommendations, k: usize) -> (s:
    u128)
    requires
        memory_info.well_formed(),
        k < memory_info@.presence.len(),
    ensures
        s == sum_rec_values(recommendations@, memory_info@.presence[k as int].1),
        s <= memory_info@.presence[k as int].1.len() * 0xffff_ffff_ffff_ffffu64,
{
    let ghost d = memory_info@;
    let ghost idsv = d.presence[k as int].1;
    let entry = memory_info.presence_at(k);
    let n = entry.1.len();
    let mut sum: u128 = 0;
    let mut l: usize = 0;
    while l < n
        invariant
            n == entry.1@.len(),
            n == idsv.len(),
            l <= n,
            sum == sum_rec_values(recommendations@, idsv.subrange(0, l as int)),
            sum <= l * 0xffff_ffff_ffff_ffffu64,
        decreases n - l,
    {
        let v = match recommendations.value_for(&entry.1[l]) {
            Some(v) => v,
            None => 0,
        };
        proof {
            assert(idsv[l as int] == entry.1@[l as int]@);
            assert(v as int == rec_value(recommendations@, idsv[l as int]));
            let pre = idsv.subrange(0, l as int);
            let nxt = idsv.subrange(0, l + 1);
            assert(nxt.drop_last() =~= pre);
            assert(nxt.last() == idsv[l as int]);
        }
        sum = sum + (v as u128);
        l = l + 1;
    }
    proof {
        assert(idsv.subrange(0, n as int) =~= idsv);
    }
    sum
}

} // verus!
