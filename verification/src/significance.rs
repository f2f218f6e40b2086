//! The significance score: how much a binary image, by convention the
//! difference of two images, weighs against a reference area.
//!
//! The image is split into clusters, and each cluster is measured, by stages
//! outside this crate. The score is computed here from the measurements, in
//! the order in which the clusters were delivered.

use vstd::arithmetic::div_mod::lemma_div_is_ordered;
use vstd::prelude::*;
use crate::image::BinaryImage;

verus! {

/// The measurements of one cluster of set pixels.
#[derive(Clone, Copy, Debug)]
pub struct ClusterStat {
    /// Number of pixels of the cluster.
    pub size: u64,
    /// Mean thickness along the skeleton of the cluster, as a whole number.
    pub mean: u64,
    /// Number of pixels of the skeleton.
    pub count: u64,
    /// Number of pixels on the boundary of the cluster.
    pub boundary_len: u64,
}

/// The factor by which every cluster's weight is scaled.
pub const SCALE: u64 = 4 * 128 * 128;

/// What a cluster adds to the running sum: `SCALE * size * mean * count /
/// boundary_len`, rounded down. Undefined for a cluster without boundary,
/// and where the product, taken factor by factor, leaves the range of
/// `u64`.
pub open spec fn weight(c: ClusterStat) -> Option<int> {
    if c.boundary_len == 0 || SCALE * c.size > u64::MAX || SCALE * c.size * c.mean > u64::MAX
        || SCALE * c.size * c.mean * c.count > u64::MAX {
        None
    } else {
        Some((SCALE * c.size * c.mean * c.count) / (c.boundary_len as int))
    }
}

/// The running sum at the end, when it stands at `acc` before cluster `k`:
/// the weights are added cluster by cluster, and the first sum that reaches
/// `limit` is final. Undefined where a weight is undefined or a sum leaves
/// the range of `u64` before the end.
pub open spec fn accumulate(clusters: Seq<ClusterStat>, limit: int, k: int, acc: int) -> Option<int>
    decreases clusters.len() - k,
{
    if k < 0 || k >= clusters.len() {
        Some(acc)
    } else {
        match weight(clusters[k]) {
            None => None,
            Some(w) => if acc + w > u64::MAX {
                None
            } else if acc + w >= limit {
                Some(acc + w)
            } else {
                accumulate(clusters, limit, k + 1, acc + w)
            },
        }
    }
}

/// The final running sum for an image of the given width, measured against
/// `area` and capped by `threshold`: clusters are added until the sum
/// reaches `threshold * area * width`. Undefined where `area * width` is
/// zero, where it or the limit leaves the range of `u64`, and where the
/// accumulation is undefined.
pub open spec fn significance_sum(
    clusters: Seq<ClusterStat>,
    width: int,
    area: int,
    threshold: int,
) -> Option<int> {
    if area * width == 0 || area * width > u64::MAX || threshold * (area * width) > u64::MAX {
        None
    } else {
        accumulate(clusters, threshold * (area * width), 0, 0)
    }
}

/// The significance as a mathematical integer: the final running sum
/// divided by `area * width`, rounded down.
pub open spec fn significance_ratio(
    clusters: Seq<ClusterStat>,
    width: int,
    area: int,
    threshold: int,
) -> Option<int> {
    match significance_sum(clusters, width, area, threshold) {
        None => None,
        Some(sum) => Some(sum / (area * width)),
    }
}

/// The significance as it is returned: the low 32 bits of the ratio.
pub open spec fn significance_score(
    clusters: Seq<ClusterStat>,
    width: int,
    area: int,
    threshold: int,
) -> Option<u32> {
    match significance_ratio(clusters, width, area, threshold) {
        None => None,
        Some(ratio) => Some((ratio % 0x1_0000_0000) as u32),
    }
}

/// The weight of a cluster, or `None` where it is undefined.
pub fn cluster_weight(c: ClusterStat) -> (w: Option<u64>)
    ensures
        match w {
            Some(v) => weight(c) == Some(v as int),
            None => weight(c).is_none(),
        },
{
    if c.boundary_len == 0 {
        return None;
    }
    let by_size = match SCALE.checked_mul(c.size) {
        Some(v) => v,
        None => {
            return None;
        },
    };
    let by_mean = match by_size.checked_mul(c.mean) {
        Some(v) => v,
        None => {
            return None;
        },
    };
    let by_count = match by_mean.checked_mul(c.count) {
        Some(v) => v,
        None => {
            return None;
        },
    };
    Some(by_count / c.boundary_len)
}

/// A weight is never negative.
pub proof fn lemma_weight_bounds(c: ClusterStat)
    ensures
        weight(c) matches Some(w) ==> 0 <= w <= u64::MAX,
{
    if let Some(w) = weight(c) {
        let product = SCALE * c.size * c.mean * c.count;
        let d = c.boundary_len as int;
        assert(0 <= product / d <= product) by (nonlinear_arith)
            requires
                0 <= product,
                0 < d,
        ;
    }
}

/// The running sum never falls, and a lower limit ends the accumulation no
/// later, with no greater sum.
pub proof fn lemma_accumulate_ordered(
    clusters: Seq<ClusterStat>,
    low: int,
    high: int,
    k: int,
    acc: int,
)
    requires
        low <= high,
        0 <= k,
        accumulate(clusters, high, k, acc).is_some(),
    ensures
        accumulate(clusters, low, k, acc).is_some(),
        acc <= accumulate(clusters, low, k, acc).unwrap() <= accumulate(
            clusters,
            high,
            k,
            acc,
        ).unwrap(),
    decreases clusters.len() - k,
{
    if k < clusters.len() {
        lemma_weight_bounds(clusters[k]);
        let w = weight(clusters[k]).unwrap();
        if acc + w < high {
            lemma_accumulate_ordered(clusters, low, high, k + 1, acc + w);
        }
        if acc + w < low {
            lemma_accumulate_ordered(clusters, low, low, k + 1, acc + w);
        }
    }
}

/// Relaxing the threshold never lowers the significance: where the score is
/// defined for a threshold, it is defined for every lower one and is no
/// greater there. This is stated of the ratio; it holds of the returned
/// score wherever the ratio for the higher threshold fits in 32 bits.
pub proof fn law_significance_monotone(
    clusters: Seq<ClusterStat>,
    width: int,
    area: int,
    lower: int,
    higher: int,
)
    requires
        0 <= width,
        0 <= area,
        0 <= lower <= higher,
        significance_ratio(clusters, width, area, higher).is_some(),
    ensures
        significance_ratio(clusters, width, area, lower).is_some(),
        0 <= significance_ratio(clusters, width, area, lower).unwrap() <= significance_ratio(
            clusters,
            width,
            area,
            higher,
        ).unwrap(),
        significance_ratio(clusters, width, area, higher).unwrap() <= u32::MAX
            ==> significance_score(clusters, width, area, lower).unwrap() <= significance_score(
            clusters,
            width,
            area,
            higher,
        ).unwrap(),
{
    let divisor = area * width;
    assert(0 <= divisor) by (nonlinear_arith)
        requires
            0 <= width,
            0 <= area,
            divisor == area * width,
    ;
    assert(0 <= lower * divisor <= higher * divisor) by (nonlinear_arith)
        requires
            0 <= lower <= higher,
            0 <= divisor,
    ;
    lemma_accumulate_ordered(clusters, lower * divisor, higher * divisor, 0, 0);
    let small = accumulate(clusters, lower * divisor, 0, 0).unwrap();
    let large = accumulate(clusters, higher * divisor, 0, 0).unwrap();
    lemma_div_is_ordered(small, large, divisor);
    lemma_div_is_ordered(0, small, divisor);
}

/// The running sum for a limit stays below it, unless the last cluster
/// added made it reach the limit.
pub proof fn lemma_accumulate_reach(clusters: Seq<ClusterStat>, limit: int, k: int, acc: int)
    requires
        0 <= k,
        acc < limit,
        accumulate(clusters, limit, k, acc).is_some(),
    ensures
        accumulate(clusters, limit, k, acc).unwrap() < limit || exists|i: int|
            k <= i < clusters.len() && (#[trigger] weight(clusters[i])).is_some() && accumulate(
                clusters,
                limit,
                k,
                acc,
            ).unwrap() < limit + weight(clusters[i]).unwrap(),
    decreases clusters.len() - k,
{
    if k < clusters.len() {
        let w = weight(clusters[k]).unwrap();
        if acc + w < limit {
            lemma_accumulate_reach(clusters, limit, k + 1, acc + w);
        } else {
            assert(weight(clusters[k]).is_some() && accumulate(clusters, limit, k, acc).unwrap()
                < limit + weight(clusters[k]).unwrap());
        }
    }
}

/// How the significance relates to the threshold. The score stays within
/// the threshold exactly when the final sum is below `(threshold + 1) * area
/// * width`; a sum that reached the limit with a heavy last cluster gives a
/// score above the threshold. No cluster weighing `area * width` or more
/// is sufficient for the score to stay within the threshold.
pub proof fn law_significance_capped(clusters: Seq<ClusterStat>, width: int, area: int, threshold: int)
    requires
        0 <= width,
        0 <= area,
        0 <= threshold,
        significance_ratio(clusters, width, area, threshold).is_some(),
    ensures
        (significance_ratio(clusters, width, area, threshold).unwrap() <= threshold) == (
        significance_sum(clusters, width, area, threshold).unwrap() < (threshold + 1) * (area
            * width)),
        (forall|i: int|
            0 <= i < clusters.len() && weight(clusters[i]).is_some() ==> (#[trigger] weight(
                clusters[i],
            )).unwrap() < area * width) ==> significance_ratio(
            clusters,
            width,
            area,
            threshold,
        ).unwrap() <= threshold,
{
    let divisor = area * width;
    let sum = significance_sum(clusters, width, area, threshold).unwrap();
    assert(0 < divisor) by (nonlinear_arith)
        requires
            0 <= width,
            0 <= area,
            divisor == area * width,
            divisor != 0,
    ;
    assert((sum / divisor <= threshold) == (sum < (threshold + 1) * divisor)) by (nonlinear_arith)
        requires
            0 < divisor,
    ;
    if forall|i: int|
        0 <= i < clusters.len() && weight(clusters[i]).is_some() ==> (#[trigger] weight(
            clusters[i],
        )).unwrap() < area * width {
        assert((threshold + 1) * divisor == threshold * divisor + divisor) by (nonlinear_arith);
        if 0 < threshold * divisor {
            lemma_accumulate_reach(clusters, threshold * divisor, 0, 0);
            if sum >= threshold * divisor {
                let i = choose|i: int|
                    0 <= i < clusters.len() && (#[trigger] weight(clusters[i])).is_some() && sum
                        < threshold * divisor + weight(clusters[i]).unwrap();
                assert(weight(clusters[i]).unwrap() < divisor);
            }
        } else {
            assert(threshold * divisor == 0) by (nonlinear_arith)
                requires
                    0 <= threshold,
                    0 < divisor,
                    threshold * divisor <= 0,
            ;
            if clusters.len() > 0 {
                lemma_weight_bounds(clusters[0]);
                assert(weight(clusters[0]).unwrap() < divisor);
            }
        }
    }
}

/// The running sum of a significance score, for callers that measure one
/// cluster at a time and stop measuring once the sum has reached its limit.
pub struct Tally {
    sum: u64,
    limit: u64,
    divisor: u64,
}

impl Tally {
    #[verifier::type_invariant]
    spec fn well_formed(&self) -> bool {
        self.divisor > 0
    }

    /// The sum of the weights added so far.
    pub closed spec fn sum(&self) -> int {
        self.sum as int
    }

    /// The limit at which the sum is final: `threshold * area * width`.
    pub closed spec fn limit(&self) -> int {
        self.limit as int
    }

    /// The number by which the final sum is divided: `area * width`.
    pub closed spec fn divisor(&self) -> int {
        self.divisor as int
    }

    /// An empty tally for an image of the given width, measured against
    /// `area` and capped by `threshold`; `None` where `area * width` is
    /// zero, and where it or the limit leaves the range of `u64`.
    pub fn start(width: usize, area: u64, threshold: u32) -> (tally: Option<Tally>)
        ensures
            tally.is_none() == (area * width == 0 || area * width > u64::MAX || threshold * (area
                * width) > u64::MAX),
            tally matches Some(t) ==> t.sum() == 0 && t.divisor() == area * width && t.limit()
                == threshold * (area * width),
    {
        let divisor = match area.checked_mul(width as u64) {
            Some(v) => v,
            None => {
                return None;
            },
        };
        if divisor == 0 {
            return None;
        }
        let limit = match (threshold as u64).checked_mul(divisor) {
            Some(v) => v,
            None => {
                return None;
            },
        };
        Some(Tally { sum: 0, limit, divisor })
    }

    /// Adds the weight of one cluster and tells whether the sum has reached
    /// the limit, after which no further cluster is to be added. `None`,
    /// with the tally unchanged, where the weight is undefined or the sum
    /// would leave the range of `u64`.
    pub fn add(&mut self, c: ClusterStat) -> (reached: Option<bool>)
        ensures
            final(self).limit() == old(self).limit(),
            final(self).divisor() == old(self).divisor(),
            reached.is_none() == (weight(c).is_none() || old(self).sum() + weight(c).unwrap()
                > u64::MAX),
            reached.is_none() ==> final(self).sum() == old(self).sum(),
            reached matches Some(done) ==> final(self).sum() == old(self).sum() + weight(
                c,
            ).unwrap() && done == (final(self).sum() >= final(self).limit()),
    {
        proof {
            use_type_invariant(&*self);
        }
        let added = match cluster_weight(c) {
            Some(v) => v,
            None => {
                return None;
            },
        };
        let sum = match self.sum.checked_add(added) {
            Some(v) => v,
            None => {
                return None;
            },
        };
        self.sum = sum;
        Some(sum >= self.limit)
    }

    /// The score for the sum as it stands: the low 32 bits of the sum
    /// divided by `area * width`, rounded down.
    pub fn score(&self) -> (score: u32)
        ensures
            self.divisor() > 0,
            score == (self.sum() / self.divisor()) % 0x1_0000_0000,
    {
        proof {
            use_type_invariant(self);
        }
        ((self.sum / self.divisor) % 0x1_0000_0000) as u32
    }
}

impl BinaryImage {
    /// The significance of the image whose clusters were measured as
    /// `clusters`, against the reference `area` and capped by `threshold`;
    /// `None` where an intermediate value leaves the range of `u64`, a
    /// cluster that is reached has no boundary, or `area` times the width is
    /// zero.
    ///
    /// The weights of the clusters are added up in the given order until
    /// the sum reaches `threshold * area * width`; the sum is then divided
    /// by `area * width`. Of the quotient the low 32 bits are returned.
    pub fn try_significance(&self, clusters: &Vec<ClusterStat>, area: u64, threshold: u32) -> (score:
        Option<u32>)
        ensures
            score == significance_score(
                clusters@,
                self@.width as int,
                area as int,
                threshold as int,
            ),
    {
        let mut tally = match Tally::start(self.width(), area, threshold) {
            Some(t) => t,
            None => {
                return None;
            },
        };
        let ghost limit = tally.limit();
        let ghost whole = significance_sum(
            clusters@,
            self@.width as int,
            area as int,
            threshold as int,
        );
        assert(whole == accumulate(clusters@, limit, 0, 0));
        let mut reached = false;
        let mut k: usize = 0;
        while k < clusters.len() && !reached
            invariant
                k <= clusters@.len(),
                tally.limit() == limit,
                tally.divisor() == area * self@.width,
                whole == accumulate(clusters@, limit, 0, 0),
                whole == significance_sum(
                    clusters@,
                    self@.width as int,
                    area as int,
                    threshold as int,
                ),
                reached ==> whole == Some(tally.sum()),
                !reached ==> whole == accumulate(clusters@, limit, k as int, tally.sum()),
            decreases clusters@.len() - k, (if reached { 0int } else { 1int }),
        {
            match tally.add(clusters[k]) {
                Some(true) => {
                    reached = true;
                },
                Some(false) => {
                    k += 1;
                },
                None => {
                    return None;
                },
            }
        }
        Some(tally.score())
    }

    /// The significance of the image whose clusters were measured as
    /// `clusters`, against the reference `area` and capped by `threshold`.
    /// See [`BinaryImage::try_significance`], which also tells whether the
    /// score is defined.
    pub fn significance(&self, clusters: &Vec<ClusterStat>, area: u64, threshold: u32) -> (score:
        u32)
        requires
            significance_score(
                clusters@,
                self@.width as int,
                area as int,
                threshold as int,
            ).is_some(),
        ensures
            Some(score) == significance_score(
                clusters@,
                self@.width as int,
                area as int,
                threshold as int,
            ),
    {
        match self.try_significance(clusters, area, threshold) {
            Some(score) => score,
            None => 0,
        }
    }

    /// The significance of the difference between `self` and `other`,
    /// against the area of `self` and without a cap: the threshold is
    /// `u32::MAX`. `clusters` are the measured clusters of
    /// `self.diff(other)`, which has the width of `self`.
    pub fn clustered_diff(&self, other: &BinaryImage, clusters: &Vec<ClusterStat>) -> (score: u32)
        requires
            self@.same_size(other@),
            significance_score(
                clusters@,
                self@.width as int,
                self@.area() as int,
                u32::MAX as int,
            ).is_some(),
        ensures
            Some(score) == significance_score(
                clusters@,
                self@.width as int,
                self@.area() as int,
                u32::MAX as int,
            ),
    {
        self.significance(clusters, self.area(), u32::MAX)
    }
}

} // verus!
