//! The detector: warm-up buffering, training, online scoring and periodic
//! retraining on a sliding window.

use vstd::prelude::*;
use rand::rngs::StdRng;
use crate::anomaly::features::{
    extract_features, lemma_observe_all_wf, rows, spec_features, valid_sample, valid_samples,
    Bounds, FlowRecord, Normalizer, NUM_FEATURES,
};
use crate::anomaly::forest::{grown_from, IsolationForest};
use crate::anomaly::tree::full_width;

verus! {

/// Configuration of a detector.
#[derive(Clone, Copy, Debug)]
pub struct DetectorConfig {
    /// Number of trees in the forest.
    pub n_trees: usize,
    /// Number of events buffered before the first training, and size of the
    /// sliding window kept for retraining.
    pub buffer_size: usize,
    /// Score above which an event is reported, in millionths.
    pub threshold: u64,
    /// Number of scored events between two trainings.
    pub retrain_interval: usize,
    /// Number of points each tree is built from.
    pub subsample_size: usize,
}

/// Why a configuration was rejected.
#[derive(Clone, Copy, Debug, PartialEq, Eq, Structural)]
pub enum ConfigError {
    /// `n_trees` is zero.
    NoTrees,
    /// `buffer_size` is below two.
    BufferTooSmall,
    /// `retrain_interval` is zero.
    ZeroRetrainInterval,
    /// `subsample_size` is below two.
    SubsampleTooSmall,
}

impl ConfigError {
    /// A sentence that names the rejected option.
    pub fn message(&self) -> (text: &'static str)
        ensures
            text@ == self.spec_message(),
    {
        match self {
            ConfigError::NoTrees => "n_trees must be at least 1",
            ConfigError::BufferTooSmall => "buffer_size must be at least 2",
            ConfigError::ZeroRetrainInterval => "retrain_interval must be at least 1",
            ConfigError::SubsampleTooSmall => "subsample_size must be at least 2",
        }
    }

    /// The sentence for each error: the option it rejects and the least value
    /// that is accepted for it.
    pub open spec fn spec_message(self) -> Seq<char> {
        match self {
            ConfigError::NoTrees => "n_trees must be at least 1"@,
            ConfigError::BufferTooSmall => "buffer_size must be at least 2"@,
            ConfigError::ZeroRetrainInterval => "retrain_interval must be at least 1"@,
            ConfigError::SubsampleTooSmall => "subsample_size must be at least 2"@,
        }
    }
}

impl DetectorConfig {
    /// Whether the configuration is accepted.
    pub open spec fn valid(self) -> bool {
        &&& self.n_trees >= 1
        &&& self.buffer_size >= 2
        &&& self.retrain_interval >= 1
        &&& self.subsample_size >= 2
    }

    /// The first reason, in the order of `ConfigError`, to reject the
    /// configuration.
    pub open spec fn spec_validate(self) -> Result<(), ConfigError> {
        if self.n_trees == 0 {
            Err(ConfigError::NoTrees)
        } else if self.buffer_size < 2 {
            Err(ConfigError::BufferTooSmall)
        } else if self.retrain_interval == 0 {
            Err(ConfigError::ZeroRetrainInterval)
        } else if self.subsample_size < 2 {
            Err(ConfigError::SubsampleTooSmall)
        } else {
            Ok(())
        }
    }

    /// Checks the configuration.
    pub fn validate(&self) -> (result: Result<(), ConfigError>)
        ensures
            result == self.spec_validate(),
            result is Ok <==> self.valid(),
            result == Err::<(), ConfigError>(ConfigError::NoTrees) <==> self.n_trees == 0,
            result == Err::<(), ConfigError>(ConfigError::BufferTooSmall) <==> self.n_trees >= 1
                && self.buffer_size < 2,
            result == Err::<(), ConfigError>(ConfigError::ZeroRetrainInterval) <==> self.n_trees >= 1
                && self.buffer_size >= 2 && self.retrain_interval == 0,
            result == Err::<(), ConfigError>(ConfigError::SubsampleTooSmall) <==> self.n_trees >= 1
                && self.buffer_size >= 2 && self.retrain_interval >= 1 && self.subsample_size < 2,
    {
        if self.n_trees == 0 {
            Err(ConfigError::NoTrees)
        } else if self.buffer_size < 2 {
            Err(ConfigError::BufferTooSmall)
        } else if self.retrain_interval == 0 {
            Err(ConfigError::ZeroRetrainInterval)
        } else if self.subsample_size < 2 {
            Err(ConfigError::SubsampleTooSmall)
        } else {
            Ok(())
        }
    }
}

impl Default for DetectorConfig {
    /// 100 trees, threshold 0.65, a buffer of 256 events, retraining every 1000
    /// events, subsamples of 256 points.
    fn default() -> (config: DetectorConfig)
        ensures
            config == (DetectorConfig {
                n_trees: 100,
                buffer_size: 256,
                threshold: 650_000,
                retrain_interval: 1000,
                subsample_size: 256,
            }),
            config.valid(),
    {
        DetectorConfig {
            n_trees: 100,
            buffer_size: 256,
            threshold: 650_000,
            retrain_interval: 1000,
            subsample_size: 256,
        }
    }
}

/// What is reported of an event whose score exceeds the threshold.
#[derive(Debug)]
pub struct AnomalyReport {
    pub timestamp: i64,
    pub src_port: u16,
    pub dst_port: u16,
    pub bytes: u64,
    /// The raw feature vector of the event.
    pub features: Vec<i128>,
    /// The anomaly score, in millionths.
    pub score: u64,
    /// The threshold that the score exceeded, in millionths.
    pub threshold: u64,
}

/// The window after `sample` arrives: appended, with the oldest sample dropped
/// if the window already held `capacity` samples.
pub open spec fn slide(window: Seq<Seq<i128>>, sample: Seq<i128>, capacity: int) -> Seq<Seq<i128>> {
    if window.len() >= capacity {
        window.drop_first().push(sample)
    } else {
        window.push(sample)
    }
}

/// Every sample of a batch, normalized by `bounds`.
pub open spec fn normalize_all(bounds: Bounds, samples: Seq<Seq<i128>>) -> Seq<Seq<i128>> {
    Seq::new(samples.len(), |j: int| bounds.normalize(samples[j]))
}

/// The number of reports among the outputs of a run.
pub open spec fn count_reports(outputs: Seq<Option<AnomalyReport>>) -> nat
    decreases outputs.len(),
{
    if outputs.len() == 0 {
        0
    } else {
        count_reports(outputs.drop_last()) + if outputs.last() is Some {
            1nat
        } else {
            0nat
        }
    }
}

/// Streaming anomaly detector.
pub struct Detector {
    config: DetectorConfig,
    normalizer: Normalizer,
    forest: Option<IsolationForest>,
    window: Vec<Vec<i128>>,
    total_events: u64,
    total_anomalies: u64,
    since_training: usize,
    rng: StdRng,
}

impl Detector {
    /// The configuration the detector was made with.
    pub closed spec fn config(&self) -> DetectorConfig {
        self.config
    }

    /// The current bounds of the normalizer.
    pub closed spec fn bounds(&self) -> Bounds {
        self.normalizer@
    }

    /// The current forest, once trained.
    pub closed spec fn forest(&self) -> Option<IsolationForest> {
        self.forest
    }

    /// The raw feature vectors kept for the next training, oldest first.
    pub closed spec fn window(&self) -> Seq<Seq<i128>> {
        rows(self.window@)
    }

    /// The number of events processed.
    pub closed spec fn events(&self) -> nat {
        self.total_events as nat
    }

    /// The number of events reported.
    pub closed spec fn anomalies(&self) -> nat {
        self.total_anomalies as nat
    }

    /// The number of events scored since the last training.
    pub closed spec fn since_training(&self) -> nat {
        self.since_training as nat
    }

    /// Whether warm-up is complete.
    pub open spec fn trained(&self) -> bool {
        self.forest() is Some
    }

    /// The invariant of a detector.
    ///
    /// The configuration is valid. While buffering, the window holds every
    /// event so far, fewer than `buffer_size`. Once trained, the forest is
    /// well-formed, the window holds the last `buffer_size` events, and the
    /// count of events since the last training is the number of events since
    /// warm-up modulo `retrain_interval`. The detector is trained exactly when
    /// at least `buffer_size` events have been processed.
    pub open spec fn wf(&self) -> bool {
        &&& self.config().valid()
        &&& self.bounds().wf()
        &&& valid_samples(self.window())
        &&& self.anomalies() <= self.events()
        &&& self.trained() <==> self.events() >= self.config().buffer_size
        &&& !self.trained() ==> {
            &&& self.window().len() == self.events()
            &&& self.anomalies() == 0
            &&& self.since_training() == 0
            &&& self.bounds() == Bounds::initial().observe_all(self.window())
        }
        &&& self.trained() ==> {
            &&& self.forest()->0.wf()
            &&& self.window().len() == self.config().buffer_size
            &&& self.since_training() < self.config().retrain_interval
            &&& self.since_training() == (self.events() - self.config().buffer_size) % (
            self.config().retrain_interval as int)
        }
    }

    /// Whether the next event completes warm-up or a retraining interval.
    pub open spec fn trains_next(&self) -> bool {
        if self.trained() {
            self.since_training() + 1 >= self.config().retrain_interval
        } else {
            self.window().len() + 1 >= self.config().buffer_size
        }
    }

    /// The bounds with which `event` is scored: the current bounds widened by
    /// its features.
    pub open spec fn bounds_for(&self, event: FlowRecord) -> Bounds {
        self.bounds().observe(spec_features(event))
    }

    /// The score of `event` against the current forest.
    pub open spec fn score_of(&self, event: FlowRecord) -> int {
        self.forest()->0.spec_score(self.bounds_for(event).normalize(spec_features(event)))
    }

    /// Whether `event` is reported: the detector is trained and the event's
    /// score exceeds the threshold.
    pub open spec fn flags(&self, event: FlowRecord) -> bool {
        self.trained() && self.score_of(event) > self.config().threshold
    }

    /// Whether `after` and `output` are a possible outcome of processing
    /// `event` in the state `self`.
    ///
    /// Everything is determined by the state and the event, except the trees of
    /// a forest that this event causes to be built: of those it says what
    /// holds however the random draws fall.
    pub open spec fn step(&self, event: FlowRecord, after: Detector, output: Option<AnomalyReport>) -> bool {
        &&& after.config() == self.config()
        &&& after.events() == self.events() + 1
        &&& after.anomalies() == self.anomalies() + if self.flags(event) {
            1nat
        } else {
            0nat
        }
        &&& output is Some <==> self.flags(event)
        &&& output matches Some(report) ==> {
            &&& report.timestamp == event.timestamp
            &&& report.src_port == event.src_port
            &&& report.dst_port == event.dst_port
            &&& report.bytes == event.bytes
            &&& report.features@ == spec_features(event)
            &&& report.score == self.score_of(event)
            &&& report.threshold == self.config().threshold
        }
        &&& after.window() == slide(
            self.window(),
            spec_features(event),
            self.config().buffer_size as int,
        )
        &&& after.trained() == (self.trained() || self.trains_next())
        &&& if self.trains_next() {
            &&& after.since_training() == 0
            &&& after.bounds() == Bounds::initial().observe_all(after.window())
            &&& after.forest() matches Some(forest)
            &&& forest.wf()
            &&& forest.trees().len() == self.config().n_trees
            &&& forest.sample_size() == if self.config().subsample_size <= self.config().buffer_size {
                self.config().subsample_size
            } else {
                self.config().buffer_size
            }
            &&& forall|i: int|
                0 <= i < forest.trees().len() ==> grown_from(
                    #[trigger] forest.trees()[i],
                    normalize_all(after.bounds(), after.window()),
                    forest.sample_size(),
                )
        } else {
            &&& after.since_training() == self.since_training() + if self.trained() {
                1nat
            } else {
                0nat
            }
            &&& after.bounds() == self.bounds_for(event)
            &&& after.forest() == self.forest()
        }
    }

    /// A detector in its buffering phase, or the reason the configuration is
    /// rejected.
    pub fn new(config: DetectorConfig, rng: StdRng) -> (result: Result<Detector, ConfigError>)
        ensures
            result is Ok <==> config.valid(),
            match result {
                Ok(detector) => {
                    &&& config.valid()
                    &&& detector.wf()
                    &&& detector.config() == config
                    &&& detector.events() == 0
                    &&& detector.anomalies() == 0
                    &&& !detector.trained()
                    &&& detector.window().len() == 0
                    &&& detector.bounds() == Bounds::initial()
                },
                Err(error) => config.spec_validate() == Err::<(), ConfigError>(error),
            },
    {
        match config.validate() {
            Err(error) => Err(error),
            Ok(_) => {
                let detector = Detector {
                    config,
                    normalizer: Normalizer::new(),
                    forest: None,
                    window: Vec::new(),
                    total_events: 0,
                    total_anomalies: 0,
                    since_training: 0,
                    rng,
                };
                assert(detector.window() =~= Seq::<Seq<i128>>::empty());
                Ok(detector)
            },
        }
    }

    /// The configuration the detector was made with.
    pub fn configuration(&self) -> (config: &DetectorConfig)
        ensures
            *config == self.config(),
    {
        &self.config
    }

    /// The normalizer in its current state.
    pub fn normalizer(&self) -> (normalizer: &Normalizer)
        ensures
            normalizer@ == self.bounds(),
    {
        &self.normalizer
    }

    /// The current forest, once trained.
    pub fn current_forest(&self) -> (forest: Option<&IsolationForest>)
        ensures
            match forest {
                Some(forest) => self.forest() == Some(*forest),
                None => self.forest() is None,
            },
    {
        self.forest.as_ref()
    }

    /// The number of events processed so far.
    pub fn total_events(&self) -> (n: u64)
        ensures
            n == self.events(),
    {
        self.total_events
    }

    /// The number of events reported so far.
    pub fn total_anomalies(&self) -> (n: u64)
        ensures
            n == self.anomalies(),
    {
        self.total_anomalies
    }

    /// Whether warm-up is complete: true from the event that fills the buffer
    /// on, and never before.
    pub fn is_trained(&self) -> (trained: bool)
        requires
            self.wf(),
        ensures
            trained == self.trained(),
            trained == (self.events() >= self.config().buffer_size),
    {
        self.forest.is_some()
    }
}


/// The remainder of a successor: one more, or zero where the divisor is reached.
pub proof fn lemma_mod_successor(x: int, m: int)
    requires
        0 <= x,
        1 <= m,
    ensures
        (x + 1) % m == if x % m + 1 == m {
            0
        } else {
            x % m + 1
        },
{
    vstd::arithmetic::div_mod::lemma_fundamental_div_mod(x, m);
    vstd::arithmetic::div_mod::lemma_mod_bound(x, m);
    let q = x / m;
    let r = x % m;
    if r + 1 == m {
        assert(x + 1 == m * (q + 1)) by (nonlinear_arith)
            requires
                x == m * q + r,
                r + 1 == m,
        ;
        vstd::arithmetic::div_mod::lemma_mod_multiples_basic(q + 1, m);
        assert(m * (q + 1) == (q + 1) * m) by (nonlinear_arith);
    } else {
        vstd::arithmetic::div_mod::lemma_fundamental_div_mod_converse(x + 1, m, q, r + 1);
    }
}

/// Zero leaves no remainder.
pub proof fn lemma_mod_of_zero(m: int)
    requires
        1 <= m,
    ensures
        0int % m == 0,
{
    vstd::arithmetic::div_mod::lemma_small_mod(0, m as nat);
}

impl Detector {
    /// Rebuilds the normalizer and the forest from the window alone.
    fn train(&mut self)
        requires
            old(self).config().valid(),
            valid_samples(old(self).window()),
            old(self).window().len() >= 2,
        ensures
            final(self).config() == old(self).config(),
            final(self).window() == old(self).window(),
            final(self).events() == old(self).events(),
            final(self).anomalies() == old(self).anomalies(),
            final(self).since_training() == 0,
            final(self).bounds() == Bounds::initial().observe_all(old(self).window()),
            final(self).bounds().wf(),
            final(self).forest() matches Some(forest) && {
                &&& forest.wf()
                &&& forest.trees().len() == old(self).config().n_trees
                &&& forest.sample_size() == if old(self).config().subsample_size <= old(
                    self,
                ).window().len() {
                    old(self).config().subsample_size as nat
                } else {
                    old(self).window().len()
                }
                &&& forall|i: int|
                    0 <= i < forest.trees().len() ==> grown_from(
                        #[trigger] forest.trees()[i],
                        normalize_all(final(self).bounds(), old(self).window()),
                        forest.sample_size(),
                    )
            },
    {
        let mut normalizer = Normalizer::new();
        normalizer.fit_batch(self.window.as_slice());
        proof {
            lemma_observe_all_wf(Bounds::initial(), rows(self.window@));
        }
        let mut normalized: Vec<Vec<i128>> = Vec::new();
        let mut j: usize = 0;
        while j < self.window.len()
            invariant
                j <= self.window@.len(),
                normalized@.len() == j,
                normalizer.wf(),
                valid_samples(rows(self.window@)),
                forall|k: int|
                    0 <= k < j ==> (#[trigger] normalized@[k])@ == normalizer@.normalize(
                        rows(self.window@)[k],
                    ),
                forall|k: int| 0 <= k < j ==> (#[trigger] normalized@[k])@.len() == NUM_FEATURES,
            decreases self.window@.len() - j,
        {
            proof {
                assert(valid_sample(rows(self.window@)[j as int]));
            }
            let row: Vec<i128> = normalizer.normalize(self.window[j].as_slice());
            normalized.push(row);
            j = j + 1;
        }
        proof {
            assert(rows(normalized@) =~= normalize_all(normalizer@, rows(self.window@)));
            assert(full_width(rows(normalized@)));
        }
        let forest: IsolationForest = IsolationForest::build(
            &normalized,
            self.config.n_trees,
            self.config.subsample_size,
            &mut self.rng,
        );
        self.normalizer = normalizer;
        self.forest = Some(forest);
        self.since_training = 0;
    }

    /// Processes one event.
    ///
    /// The event's features always widen the normalizer's bounds and enter the
    /// window. While buffering nothing is scored; the event that fills the
    /// buffer trains the first model. Once trained, the event is scored against
    /// the current forest and reported if its score exceeds the threshold, and
    /// every `retrain_interval`-th such event is followed by a retraining on the
    /// window alone.
    pub fn process(&mut self, event: &FlowRecord) -> (output: Option<AnomalyReport>)
        requires
            old(self).wf(),
            old(self).events() < u64::MAX,
        ensures
            final(self).wf(),
            old(self).step(*event, *final(self), output),
    {
        let features: Vec<i128> = extract_features(event);
        self.total_events = self.total_events + 1;
        self.normalizer.update(features.as_slice());
        let capacity: usize = self.config.buffer_size;
        match &self.forest {
            None => {
                proof {
                    let before = rows(old(self).window@);
                    assert(before.push(features@).drop_last() =~= before);
                    assert(rows(old(self).window@.push(features)) =~= before.push(features@));
                }
                self.window.push(features);
                if self.window.len() >= capacity {
                    self.train();
                    proof {
                        // training happens at the event that fills the buffer
                        assert(self.events() == capacity);
                        lemma_mod_of_zero(self.config.retrain_interval as int);
                    }
                }
                None
            },
            Some(forest) => {
                let normalized: Vec<i128> = self.normalizer.normalize(features.as_slice());
                let score: u64 = forest.score(normalized.as_slice());
                let output: Option<AnomalyReport> = if score > self.config.threshold {
                    self.total_anomalies = self.total_anomalies + 1;
                    Some(
                        AnomalyReport {
                            timestamp: event.timestamp,
                            src_port: event.src_port,
                            dst_port: event.dst_port,
                            bytes: event.bytes,
                            features: extract_features(event),
                            score,
                            threshold: self.config.threshold,
                        },
                    )
                } else {
                    None
                };
                proof {
                    let before = rows(old(self).window@);
                    assert(rows(old(self).window@.remove(0)) =~= before.drop_first());
                    assert(rows(old(self).window@.remove(0).push(features)) =~= before.drop_first().push(
                        features@,
                    ));
                }
                self.window.remove(0);
                self.window.push(features);
                self.since_training = self.since_training + 1;
                if self.since_training >= self.config.retrain_interval {
                    self.train();
                }
                proof {
                    let since = old(self).since_training() as int;
                    let passed = old(self).events() - capacity;
                    let interval = self.config.retrain_interval as int;
                    lemma_mod_successor(passed, interval);
                    assert(since == passed % interval);
                    assert(self.events() - capacity == passed + 1);
                    assert(self.since_training() == (passed + 1) % interval);
                }
                output
            },
        }
    }
}

/// After `k` events, the detector has counted `k` events, and as many
/// anomalies as events were reported, that is as events whose score exceeded
/// the threshold once the detector was trained.
pub proof fn lemma_counts(
    states: Seq<Detector>,
    events: Seq<FlowRecord>,
    outputs: Seq<Option<AnomalyReport>>,
)
    requires
        states.len() == events.len() + 1,
        outputs.len() == events.len(),
        forall|i: int|
            0 <= i < events.len() ==> (#[trigger] states[i]).step(events[i], states[i + 1], outputs[i]),
    ensures
        states.last().events() == states[0].events() + events.len(),
        states.last().anomalies() == states[0].anomalies() + count_reports(outputs),
        forall|i: int|
            0 <= i < events.len() ==> (#[trigger] outputs[i] is Some <==> states[i].trained()
                && states[i].score_of(events[i]) > states[i].config().threshold),
    decreases events.len(),
{
    if events.len() > 0 {
        let n = events.len() as int;
        let front = states.drop_last();
        assert forall|i: int| 0 <= i < n - 1 implies (#[trigger] front[i]).step(
            events.drop_last()[i],
            front[i + 1],
            outputs.drop_last()[i],
        ) by {
            assert(states[i].step(events[i], states[i + 1], outputs[i]));
        }
        lemma_counts(front, events.drop_last(), outputs.drop_last());
        assert(states[n - 1].step(events[n - 1], states[n], outputs[n - 1]));
        assert(front.last() == states[n - 1]);
        assert(front[0] == states[0]);
    } else {
        assert(outputs.len() == 0);
    }
}

/// After an event that completes warm-up or a retraining interval, the bounds
/// of the normalizer reflect the window alone: they are the bounds of a fresh
/// normalizer fed the window, every sample of the window lies within them,
/// and each of them is the value of a sample of the window.
pub proof fn lemma_retrained_bounds(
    before: Detector,
    event: FlowRecord,
    after: Detector,
    output: Option<AnomalyReport>,
    feature: int,
)
    requires
        before.wf(),
        after.wf(),
        before.step(event, after, output),
        before.trains_next(),
        0 <= feature < NUM_FEATURES,
    ensures
        after.bounds() == Bounds::initial().observe_all(after.window()),
        after.window().len() == before.config().buffer_size,
        forall|j: int|
            0 <= j < after.window().len() ==> after.bounds().min[feature] <= (
            #[trigger] after.window()[j])[feature] <= after.bounds().max[feature],
        exists|j: int|
            0 <= j < after.window().len() && after.bounds().min[feature] == (
            #[trigger] after.window()[j])[feature],
        exists|j: int|
            0 <= j < after.window().len() && after.bounds().max[feature] == (
            #[trigger] after.window()[j])[feature],
{
    let window = after.window();
    let bounds = Bounds::initial().observe_all(window);
    crate::anomaly::features::lemma_observe_all_extremes(Bounds::initial(), window, feature);
    lemma_observe_all_wf(Bounds::initial(), window);
    assert(window.len() >= 2);
    assert(valid_sample(window[0]));
    // a bound that no sample attains would still be the limit it started from
    if bounds.min[feature] == Bounds::initial().min[feature] {
        assert(bounds.min[feature] <= window[0][feature]);
        assert(bounds.min[feature] == window[0][feature]);
    }
    if bounds.max[feature] == Bounds::initial().max[feature] {
        assert(window[0][feature] <= bounds.max[feature]);
        assert(bounds.max[feature] == window[0][feature]);
    }
}

/// A detector is trained after exactly `buffer_size` events, and not before:
/// of a run from a fresh detector, the state after `k` events is trained exactly
/// when `k >= buffer_size`.
pub proof fn lemma_phase_transition(
    states: Seq<Detector>,
    events: Seq<FlowRecord>,
    outputs: Seq<Option<AnomalyReport>>,
    k: int,
)
    requires
        states.len() == events.len() + 1,
        outputs.len() == events.len(),
        states[0].wf(),
        states[0].events() == 0,
        forall|i: int| 0 <= i < states.len() ==> (#[trigger] states[i]).wf(),
        forall|i: int|
            0 <= i < events.len() ==> (#[trigger] states[i]).step(events[i], states[i + 1], outputs[i]),
        0 <= k <= events.len(),
    ensures
        states[k].events() == k,
        states[k].trained() <==> k >= states[0].config().buffer_size,
        states[k].config() == states[0].config(),
    decreases k,
{
    if k > 0 {
        lemma_phase_transition(states, events, outputs, k - 1);
        assert(states[k - 1].step(events[k - 1], states[k], outputs[k - 1]));
    }
}

} // verus!
