//! Feature extraction from flow records, and the online min-max normalizer.

use vstd::prelude::*;
use crate::anomaly::fixed::{HALF, SCALE};

verus! {

/// Number of features extracted from one flow record.
pub const NUM_FEATURES: usize = 6;

/// Largest magnitude of a raw feature value (`10^30` millionths).
pub const FEATURE_LIMIT: i128 = 1_000_000_000_000_000_000_000_000_000_000;

/// Transport protocol of a flow.
#[derive(Clone, Copy, Debug, PartialEq, Eq, Structural)]
pub enum Protocol {
    Tcp,
    Udp,
    Icmp,
    Other,
}

impl Protocol {
    /// The numeric encoding of the protocol.
    pub open spec fn spec_code(self) -> int {
        match self {
            Protocol::Tcp => 0,
            Protocol::Udp => 1,
            Protocol::Icmp => 2,
            Protocol::Other => 3,
        }
    }

    /// The numeric encoding of the protocol.
    pub fn code(&self) -> (c: u8)
        ensures
            c == self.spec_code(),
    {
        match self {
            Protocol::Tcp => 0,
            Protocol::Udp => 1,
            Protocol::Icmp => 2,
            Protocol::Other => 3,
        }
    }
}

/// One decoded network flow.
#[derive(Clone, Copy, Debug)]
pub struct FlowRecord {
    /// Seconds since 1970-01-01T00:00:00.
    pub timestamp: i64,
    pub src_port: u16,
    pub dst_port: u16,
    pub bytes: u64,
    /// Duration of the flow in microseconds, that is in millionths of a second.
    pub duration_micros: u64,
    pub protocol: Protocol,
}

/// The hour of the day, from 0 to 23, at `timestamp` seconds since the epoch.
pub open spec fn spec_hour_of_day(timestamp: int) -> int {
    (timestamp % 86_400) / 3_600
}

/// The hour of the day, from 0 to 23, at `timestamp` seconds since the epoch.
pub fn hour_of_day(timestamp: i64) -> (h: u8)
    ensures
        h == spec_hour_of_day(timestamp as int),
        h <= 23,
{
    let r: i64 = timestamp % 86_400;
    let second: i64 = if r < 0 {
        r + 86_400
    } else {
        r
    };
    (second / 3_600) as u8
}

/// The feature vector of a record, in millionths: source port, destination
/// port, byte count, duration in seconds, protocol code, hour of day.
pub open spec fn spec_features(event: FlowRecord) -> Seq<i128> {
    seq![
        (event.src_port * SCALE) as i128,
        (event.dst_port * SCALE) as i128,
        (event.bytes * SCALE) as i128,
        event.duration_micros as i128,
        (event.protocol.spec_code() * SCALE) as i128,
        (spec_hour_of_day(event.timestamp as int) * SCALE) as i128,
    ]
}

/// Whether every value of a sample is within the feature limit.
pub open spec fn within_limit(sample: Seq<i128>) -> bool {
    forall|i: int| 0 <= i < sample.len() ==> -FEATURE_LIMIT <= #[trigger] sample[i] <= FEATURE_LIMIT
}

/// Whether a sample has one value per feature, each within the feature limit.
pub open spec fn valid_sample(sample: Seq<i128>) -> bool {
    sample.len() == NUM_FEATURES && within_limit(sample)
}

/// Extracts the numerical feature vector of a flow record.
pub fn extract_features(event: &FlowRecord) -> (features: Vec<i128>)
    ensures
        features@ == spec_features(*event),
        features@.len() == NUM_FEATURES,
        valid_sample(features@),
{
    let scale: i128 = SCALE as i128;
    let mut features: Vec<i128> = Vec::new();
    features.push((event.src_port as i128) * scale);
    features.push((event.dst_port as i128) * scale);
    features.push((event.bytes as i128) * scale);
    features.push(event.duration_micros as i128);
    features.push((event.protocol.code() as i128) * scale);
    features.push((hour_of_day(event.timestamp) as i128) * scale);
    assert(features@ =~= spec_features(*event));
    features
}


/// The state of a normalizer: the smallest and largest value seen of each
/// feature, and whether any sample has been seen.
pub struct Bounds {
    pub min: Seq<i128>,
    pub max: Seq<i128>,
    pub initialized: bool,
}

impl Bounds {
    /// The bounds before any sample: every minimum at the upper feature limit,
    /// every maximum at the lower one.
    pub open spec fn initial() -> Bounds {
        Bounds {
            min: Seq::new(NUM_FEATURES as nat, |i: int| FEATURE_LIMIT),
            max: Seq::new(NUM_FEATURES as nat, |i: int| (-FEATURE_LIMIT) as i128),
            initialized: false,
        }
    }

    /// One minimum and one maximum per feature, within the feature limit, and
    /// once a sample has been seen no minimum above its maximum.
    pub open spec fn wf(self) -> bool {
        &&& valid_sample(self.min)
        &&& valid_sample(self.max)
        &&& self.initialized ==> forall|i: int|
            0 <= i < NUM_FEATURES ==> #[trigger] self.min[i] <= self.max[i]
    }

    /// The bounds widened to include `sample`.
    pub open spec fn observe(self, sample: Seq<i128>) -> Bounds {
        Bounds {
            min: Seq::new(
                NUM_FEATURES as nat,
                |i: int| if sample[i] < self.min[i] { sample[i] } else { self.min[i] },
            ),
            max: Seq::new(
                NUM_FEATURES as nat,
                |i: int| if sample[i] > self.max[i] { sample[i] } else { self.max[i] },
            ),
            initialized: true,
        }
    }

    /// The bounds widened to include every sample of `samples`, in order.
    pub open spec fn observe_all(self, samples: Seq<Seq<i128>>) -> Bounds
        decreases samples.len(),
    {
        if samples.len() == 0 {
            self
        } else {
            self.observe_all(samples.drop_last()).observe(samples.last())
        }
    }

    /// The normalized value of feature `i` for the raw value `v`: one half when
    /// minimum and maximum coincide, else `(v - min) / (max - min)`, rounded
    /// down to a millionth and not clamped.
    pub open spec fn normalized(self, i: int, v: i128) -> int {
        if self.max[i] - self.min[i] == 0 {
            HALF as int
        } else {
            (v - self.min[i]) * (SCALE as int) / (self.max[i] - self.min[i])
        }
    }

    /// The normalized sample: the sample itself before any sample was seen.
    pub open spec fn normalize(self, sample: Seq<i128>) -> Seq<i128> {
        if !self.initialized {
            sample
        } else {
            Seq::new(sample.len(), |i: int| self.normalized(i, sample[i]) as i128)
        }
    }
}

/// Whether every sample of a batch is a valid sample.
pub open spec fn valid_samples(samples: Seq<Seq<i128>>) -> bool {
    forall|j: int| 0 <= j < samples.len() ==> valid_sample(#[trigger] samples[j])
}

/// The rows of a batch as sequences.
pub open spec fn rows(data: Seq<Vec<i128>>) -> Seq<Seq<i128>> {
    Seq::new(data.len(), |j: int| data[j]@)
}

/// Widening well-formed bounds by a valid sample gives well-formed bounds.
pub proof fn lemma_observe_wf(bounds: Bounds, sample: Seq<i128>)
    requires
        bounds.wf(),
        valid_sample(sample),
    ensures
        bounds.observe(sample).wf(),
{
}

/// Widening well-formed bounds by valid samples gives well-formed bounds.
pub proof fn lemma_observe_all_wf(bounds: Bounds, samples: Seq<Seq<i128>>)
    requires
        bounds.wf(),
        valid_samples(samples),
    ensures
        bounds.observe_all(samples).wf(),
        bounds.observe_all(samples).initialized == (bounds.initialized || samples.len() > 0),
    decreases samples.len(),
{
    if samples.len() > 0 {
        lemma_observe_all_wf(bounds, samples.drop_last());
        lemma_observe_wf(bounds.observe_all(samples.drop_last()), samples.last());
    }
}

/// Online min-max normalizer that tracks the running minimum and maximum of
/// each feature.
pub struct Normalizer {
    min: Vec<i128>,
    max: Vec<i128>,
    initialized: bool,
}

impl View for Normalizer {
    type V = Bounds;

    closed spec fn view(&self) -> Bounds {
        Bounds { min: self.min@, max: self.max@, initialized: self.initialized }
    }
}

impl Normalizer {
    /// The invariant of a normalizer: its bounds are well-formed.
    pub open spec fn wf(&self) -> bool {
        self@.wf()
    }

    /// A normalizer that has seen no sample.
    pub fn new() -> (normalizer: Self)
        ensures
            normalizer@ == Bounds::initial(),
            normalizer.wf(),
            !normalizer@.initialized,
    {
        let mut min: Vec<i128> = Vec::new();
        let mut max: Vec<i128> = Vec::new();
        let mut i: usize = 0;
        while i < NUM_FEATURES
            invariant
                i <= NUM_FEATURES,
                min@.len() == i,
                max@.len() == i,
                forall|k: int| 0 <= k < i ==> min@[k] == FEATURE_LIMIT,
                forall|k: int| 0 <= k < i ==> max@[k] == -FEATURE_LIMIT,
            decreases NUM_FEATURES - i,
        {
            min.push(FEATURE_LIMIT);
            max.push(-FEATURE_LIMIT);
            i = i + 1;
        }
        let normalizer = Normalizer { min, max, initialized: false };
        assert(normalizer@.min =~= Bounds::initial().min);
        assert(normalizer@.max =~= Bounds::initial().max);
        normalizer
    }

    /// Whether any sample has been seen.
    pub fn is_initialized(&self) -> (initialized: bool)
        ensures
            initialized == self@.initialized,
    {
        self.initialized
    }

    /// The smallest value seen of each feature.
    pub fn min(&self) -> (min: &Vec<i128>)
        ensures
            min@ == self@.min,
    {
        &self.min
    }

    /// The largest value seen of each feature.
    pub fn max(&self) -> (max: &Vec<i128>)
        ensures
            max@ == self@.max,
    {
        &self.max
    }

    /// Widens the bounds of every feature to include the sample's value.
    pub fn update(&mut self, sample: &[i128])
        requires
            old(self).wf(),
            valid_sample(sample@),
        ensures
            final(self)@ == old(self)@.observe(sample@),
            final(self).wf(),
    {
        let mut i: usize = 0;
        while i < NUM_FEATURES
            invariant
                i <= NUM_FEATURES,
                valid_sample(sample@),
                self.min@.len() == NUM_FEATURES,
                self.max@.len() == NUM_FEATURES,
                self.initialized == old(self).initialized,
                forall|k: int|
                    0 <= k < i ==> self.min@[k] == old(self)@.observe(sample@).min[k]
                        && self.max@[k] == old(self)@.observe(sample@).max[k],
                forall|k: int|
                    i <= k < NUM_FEATURES ==> self.min@[k] == old(self).min@[k] && self.max@[k]
                        == old(self).max@[k],
            decreases NUM_FEATURES - i,
        {
            let val: i128 = sample[i];
            if val < self.min[i] {
                self.min.set(i, val);
            }
            if val > self.max[i] {
                self.max.set(i, val);
            }
            i = i + 1;
        }
        self.initialized = true;
        proof {
            assert(self@.min =~= old(self)@.observe(sample@).min);
            assert(self@.max =~= old(self)@.observe(sample@).max);
            lemma_observe_wf(old(self)@, sample@);
        }
    }

    /// Widens the bounds to include every sample of the batch; the same as
    /// calling `update` for each sample in turn.
    pub fn fit_batch(&mut self, data: &[Vec<i128>])
        requires
            old(self).wf(),
            valid_samples(rows(data@)),
        ensures
            final(self)@ == old(self)@.observe_all(rows(data@)),
            final(self).wf(),
    {
        let mut j: usize = 0;
        while j < data.len()
            invariant
                j <= data.len(),
                valid_samples(rows(data@)),
                self.wf(),
                self@ == old(self)@.observe_all(rows(data@).take(j as int)),
            decreases data.len() - j,
        {
            proof {
                let all = rows(data@);
                assert(valid_sample(all[j as int]));
                assert(all.take(j + 1).drop_last() =~= all.take(j as int));
                assert(all.take(j + 1).last() == data@[j as int]@);
            }
            self.update(data[j].as_slice());
            j = j + 1;
        }
        proof {
            assert(rows(data@).take(j as int) =~= rows(data@));
        }
    }

    /// Maps a raw feature vector to the unit interval by the current bounds.
    ///
    /// Before any sample was seen the sample comes back unchanged. A feature
    /// whose minimum and maximum coincide maps to one half. A value outside the
    /// bounds maps outside the unit interval.
    pub fn normalize(&self, sample: &[i128]) -> (normalized: Vec<i128>)
        requires
            self.wf(),
            valid_sample(sample@),
        ensures
            normalized@ == self@.normalize(sample@),
            normalized@.len() == NUM_FEATURES,
            !self@.initialized ==> normalized@ == sample@,
            self@.initialized ==> forall|i: int|
                0 <= i < NUM_FEATURES && self@.min[i] == self@.max[i] ==> #[trigger] normalized@[i]
                    == HALF,
    {
        let mut normalized: Vec<i128> = Vec::new();
        let mut i: usize = 0;
        while i < NUM_FEATURES
            invariant
                i <= NUM_FEATURES,
                self.wf(),
                valid_sample(sample@),
                normalized@.len() == i,
                forall|k: int| 0 <= k < i ==> normalized@[k] == self@.normalize(sample@)[k],
            decreases NUM_FEATURES - i,
        {
            let val: i128 = sample[i];
            if !self.initialized {
                normalized.push(val);
            } else {
                let range: i128 = self.max[i] - self.min[i];
                if range == 0 {
                    normalized.push(HALF as i128);
                } else {
                    let offset: i128 = val - self.min[i];
                    proof {
                        lemma_normalized_fits(offset as int, range as int);
                    }
                    let scaled: i128 = offset * (SCALE as i128);
                    let quotient: Option<i128> = scaled.checked_div_euclid(range);
                    normalized.push(quotient.unwrap());
                }
            }
            i = i + 1;
        }
        assert(normalized@ =~= self@.normalize(sample@));
        normalized
    }
}

/// A normalized value fits the machine integer that holds it.
pub proof fn lemma_normalized_fits(offset: int, range: int)
    requires
        -2 * FEATURE_LIMIT <= offset <= 2 * FEATURE_LIMIT,
        0 < range,
    ensures
        -2 * FEATURE_LIMIT * SCALE <= offset * SCALE <= 2 * FEATURE_LIMIT * SCALE,
        -2 * FEATURE_LIMIT * SCALE <= offset * SCALE / range <= 2 * FEATURE_LIMIT * SCALE,
{
    let s = SCALE as int;
    let l = 2 * FEATURE_LIMIT * SCALE;
    assert(-l <= offset * s <= l) by (nonlinear_arith)
        requires
            -2 * FEATURE_LIMIT <= offset <= 2 * FEATURE_LIMIT,
            s == 1_000_000,
            l == 2 * FEATURE_LIMIT * s,
    ;
    let n = offset * s;
    assert(-l <= n / range <= l) by (nonlinear_arith)
        requires
            -l <= n <= l,
            0 < range,
            0 <= l,
    ;
}


/// After widening by `samples`, the minimum of feature `i` is the smallest of
/// the earlier minimum and the samples' values, and is one of them; likewise
/// the maximum.
pub proof fn lemma_observe_all_extremes(bounds: Bounds, samples: Seq<Seq<i128>>, i: int)
    requires
        bounds.wf(),
        valid_samples(samples),
        0 <= i < NUM_FEATURES,
    ensures
        bounds.observe_all(samples).min[i] <= bounds.min[i],
        bounds.observe_all(samples).max[i] >= bounds.max[i],
        forall|j: int|
            0 <= j < samples.len() ==> bounds.observe_all(samples).min[i] <= (#[trigger] samples[j])[i]
                <= bounds.observe_all(samples).max[i],
        bounds.observe_all(samples).min[i] == bounds.min[i] || exists|j: int|
            0 <= j < samples.len() && bounds.observe_all(samples).min[i] == (#[trigger] samples[j])[i],
        bounds.observe_all(samples).max[i] == bounds.max[i] || exists|j: int|
            0 <= j < samples.len() && bounds.observe_all(samples).max[i] == (#[trigger] samples[j])[i],
    decreases samples.len(),
{
    if samples.len() > 0 {
        let front = samples.drop_last();
        let before = bounds.observe_all(front);
        let after = bounds.observe_all(samples);
        lemma_observe_all_extremes(bounds, front, i);
        lemma_observe_all_wf(bounds, front);
        assert(valid_sample(samples.last()));
        assert forall|j: int| 0 <= j < samples.len() implies after.min[i] <= (#[trigger] samples[j])[i]
            <= after.max[i] by {
            if j < samples.len() - 1 {
                assert(front[j] == samples[j]);
            }
        }
        if after.min[i] != bounds.min[i] {
            if after.min[i] == before.min[i] {
                let j = choose|j: int| 0 <= j < front.len() && before.min[i] == (#[trigger] front[j])[i];
                assert(front[j] == samples[j]);
            } else {
                assert(after.min[i] == samples[samples.len() - 1][i]);
            }
        }
        if after.max[i] != bounds.max[i] {
            if after.max[i] == before.max[i] {
                let j = choose|j: int| 0 <= j < front.len() && before.max[i] == (#[trigger] front[j])[i];
                assert(front[j] == samples[j]);
            } else {
                assert(after.max[i] == samples[samples.len() - 1][i]);
            }
        }
    }
}

/// Feeding samples one at a time with `update` and feeding them with one
/// `fit_batch` both yield `observe_all`, and the bounds that come out depend
/// only on which samples were fed and how often, not on their order: two
/// batches with the same multiset of samples give identical bounds.
pub proof fn lemma_observe_all_order_independent(
    bounds: Bounds,
    first: Seq<Seq<i128>>,
    second: Seq<Seq<i128>>,
)
    requires
        bounds.wf(),
        valid_samples(first),
        valid_samples(second),
        first.to_multiset() == second.to_multiset(),
    ensures
        bounds.observe_all(first) == bounds.observe_all(second),
{
    first.to_multiset_ensures();
    second.to_multiset_ensures();
    let a = bounds.observe_all(first);
    let b = bounds.observe_all(second);
    lemma_observe_all_wf(bounds, first);
    lemma_observe_all_wf(bounds, second);
    assert(first.len() == second.len());
    if first.len() > 0 {
        assert forall|i: int| 0 <= i < NUM_FEATURES implies a.min[i] == b.min[i] && a.max[i]
            == b.max[i] by {
            lemma_observe_all_extremes(bounds, first, i);
            lemma_observe_all_extremes(bounds, second, i);
            assert forall|j: int| 0 <= j < second.len() implies a.min[i] <= (#[trigger] second[j])[i]
                <= a.max[i] by {
                assert(second.contains(second[j]));
                assert(second.to_multiset().count(second[j]) > 0);
                assert(first.to_multiset().count(second[j]) > 0);
                assert(first.contains(second[j]));
                let k = choose|k: int| 0 <= k < first.len() && first[k] == second[j];
                assert(a.min[i] <= first[k][i] <= a.max[i]);
            }
            assert forall|j: int| 0 <= j < first.len() implies b.min[i] <= (#[trigger] first[j])[i]
                <= b.max[i] by {
                assert(first.contains(first[j]));
                assert(first.to_multiset().count(first[j]) > 0);
                assert(second.to_multiset().count(first[j]) > 0);
                assert(second.contains(first[j]));
                let k = choose|k: int| 0 <= k < second.len() && second[k] == first[j];
                assert(b.min[i] <= second[k][i] <= b.max[i]);
            }
        }
        assert(a.min =~= b.min);
        assert(a.max =~= b.max);
    }
}

/// If every sample seen has the same value of feature `i`, every query
/// normalizes to exactly one half at `i`, whatever its own value there.
pub proof fn lemma_constant_feature_normalizes_to_half(
    samples: Seq<Seq<i128>>,
    i: int,
    query: Seq<i128>,
)
    requires
        samples.len() > 0,
        valid_samples(samples),
        0 <= i < NUM_FEATURES,
        forall|j: int| 0 <= j < samples.len() ==> (#[trigger] samples[j])[i] == samples[0][i],
        query.len() == NUM_FEATURES,
    ensures
        Bounds::initial().observe_all(samples).normalize(query)[i] == HALF,
{
    let bounds = Bounds::initial();
    let after = bounds.observe_all(samples);
    lemma_observe_all_wf(bounds, samples);
    lemma_observe_all_extremes(bounds, samples, i);
    assert(valid_sample(samples[0]));
    assert(after.min[i] <= samples[0][i] <= after.max[i]);
    assert(after.min[i] == samples[0][i]);
    assert(after.max[i] == samples[0][i]);
}

/// Before any sample has been seen, normalization is the identity.
pub proof fn lemma_normalize_before_initialization(sample: Seq<i128>)
    ensures
        Bounds::initial().normalize(sample) == sample,
{
}

} // verus!
