use vstd::prelude::*;
use vstd::string::StringExecFns;

verus! {

/// How many sample sizes a schedule holds.
pub const SCHEDULE_LEN: usize = 100;

/// The decimal digit `d` (below ten) as a character.
pub open spec fn digit_char(d: nat) -> char {
    seq!['0', '1', '2', '3', '4', '5', '6', '7', '8', '9'][d as int]
}

/// The decimal digits of `n`, most significant first, with no sign or padding.
pub open spec fn decimal(n: nat) -> Seq<char>
    decreases n,
{
    if n < 10 {
        seq![digit_char(n)]
    } else {
        decimal(n / 10).push(digit_char(n % 10))
    }
}

/// The digit `d` (below ten) as a one-character string.
fn digit_str(d: usize) -> (r: &'static str)
    requires
        d < 10,
    ensures
        r@ == seq![digit_char(d as nat)],
{
    proof {
        reveal_strlit("0");
        reveal_strlit("1");
        reveal_strlit("2");
        reveal_strlit("3");
        reveal_strlit("4");
        reveal_strlit("5");
        reveal_strlit("6");
        reveal_strlit("7");
        reveal_strlit("8");
        reveal_strlit("9");
    }
    let r = match d {
        0 => "0",
        1 => "1",
        2 => "2",
        3 => "3",
        4 => "4",
        5 => "5",
        6 => "6",
        7 => "7",
        8 => "8",
        _ => "9",
    };
    assert(r@ =~= seq![digit_char(d as nat)]);
    r
}

/// The decimal digits of `n`, with no sign or padding.
pub fn decimal_string(n: usize) -> (r: String)
    ensures
        r@ == decimal(n as nat),
    decreases n,
{
    if n < 10 {
        String::from_str(digit_str(n))
    } else {
        let mut r = decimal_string(n / 10);
        r.append(digit_str(n % 10));
        assert(r@ =~= decimal(n as nat));
        r
    }
}

/// The sample-size schedule: `SCHEDULE_LEN` sizes, the `i`-th being
/// `first + step * i`.
pub fn generate_sample_sizes(first: usize, step: usize) -> (r: Vec<usize>)
    requires
        first + step * (SCHEDULE_LEN - 1) <= usize::MAX,
    ensures
        r@.len() == SCHEDULE_LEN,
        forall|i: int| 0 <= i < SCHEDULE_LEN ==> #[trigger] r@[i] == first + step * i,
{
    let mut array: Vec<usize> = Vec::with_capacity(SCHEDULE_LEN);
    let mut i: usize = 0;
    while i < SCHEDULE_LEN
        invariant
            first + step * (SCHEDULE_LEN - 1) <= usize::MAX,
            i <= SCHEDULE_LEN,
            array@.len() == i,
            forall|k: int| 0 <= k < i ==> #[trigger] array@[k] == first + step * k,
        decreases SCHEDULE_LEN - i,
    {
        assert(step * i <= step * (SCHEDULE_LEN - 1)) by (nonlinear_arith)
            requires i < SCHEDULE_LEN;
        array.push(first + step * i);
        i = i + 1;
    }
    array
}

/// One advance of the sweep: the sample index and variation index that were
/// current before it, and whether it was the last advance of the sweep.
#[derive(Clone, Copy, Debug, PartialEq, Eq, Structural)]
pub struct ExperimentProgress(pub usize, pub usize, pub bool);

/// Why a sweep could not be set up.
#[derive(Clone, Copy, Debug, PartialEq, Eq, Structural)]
pub enum SweepError {
    /// More sample sizes were asked for than a schedule holds.
    TooManySamples,
}

/// The sweep over sample sizes (inner) and variations (outer). Durations are
/// whole nanoseconds.
pub struct ExperimentParameters {
    pub sample_sizes: Vec<usize>,
    pub sample_sizes_as_str: Vec<String>,
    pub sample_index: usize,
    pub number_samples: usize,
    pub sample_duration: u128,
    pub current_sample_progress: u128,
    pub min_calcs_per_sample: usize,
    pub current_calcs: usize,
    pub variation_index: usize,
    pub number_variations: usize,
    pub pick_number: usize,
    pub debug: bool,
    pub finished: bool,
}

impl ExperimentParameters {
    /// The state is consistent: a full schedule and its labels, indices in
    /// range, and accumulators below the thresholds that would have advanced.
    pub open spec fn wf(&self) -> bool {
        &&& self.sample_sizes@.len() == SCHEDULE_LEN
        &&& self.sample_sizes_as_str@.len() == SCHEDULE_LEN
        &&& forall|i: int| 0 <= i < SCHEDULE_LEN ==>
                #[trigger] self.sample_sizes_as_str@[i]@ == decimal(self.sample_sizes@[i] as nat)
        &&& self.number_samples <= SCHEDULE_LEN
        &&& self.sample_index < SCHEDULE_LEN
        &&& (self.sample_index < self.number_samples || self.sample_index == 0)
        &&& (!self.finished ==> (self.variation_index < self.number_variations || self.variation_index == 0))
        &&& (self.current_calcs == 0 || self.current_calcs < self.min_calcs_per_sample)
        &&& (self.current_sample_progress == 0 || self.current_sample_progress < self.sample_duration)
    }

    /// A tick that brings `delta` more nanoseconds ends the current step:
    /// the step's time is used up, or it has had its minimum of runs.
    pub open spec fn step_ends(&self, delta: u128) -> bool {
        ||| self.current_sample_progress + delta >= self.sample_duration
        ||| self.current_calcs + 1 >= self.min_calcs_per_sample
    }

    /// The sweep after a tick that ends the current step: the next sample
    /// size, or the first one of the next variation, with both accumulators
    /// back at zero.
    pub open spec fn advanced(&self) -> ExperimentParameters {
        let last_sample = self.sample_index + 1 >= self.number_samples;
        let last_variation = self.variation_index + 1 >= self.number_variations;
        ExperimentParameters {
            sample_index: if last_sample { 0 } else { (self.sample_index + 1) as usize },
            variation_index: if last_sample { (self.variation_index + 1) as usize } else { self.variation_index },
            current_calcs: 0,
            current_sample_progress: 0,
            finished: last_sample && last_variation,
            ..*self
        }
    }

    /// The signal of a tick that ends the current step.
    pub open spec fn advance_signal(&self) -> ExperimentProgress {
        ExperimentProgress(
            self.sample_index,
            self.variation_index,
            self.sample_index + 1 >= self.number_samples && self.variation_index + 1 >= self.number_variations,
        )
    }

    /// A sweep at its start: schedule `first + step * i`, both indices and
    /// both accumulators at zero. More than `SCHEDULE_LEN` samples is refused.
    pub fn new(
        first: usize,
        step: usize,
        number_variations: usize,
        number_samples: usize,
        sample_duration: u128,
        min_calcs_per_sample: usize,
        pick_number: usize,
        debug: bool,
    ) -> (r: Result<ExperimentParameters, SweepError>)
        requires
            first + step * (SCHEDULE_LEN - 1) <= usize::MAX,
        ensures
            r is Err <==> number_samples > SCHEDULE_LEN,
            r is Err ==> r == Err::<ExperimentParameters, SweepError>(SweepError::TooManySamples),
            r matches Ok(p) ==> {
                &&& p.wf()
                &&& forall|i: int| 0 <= i < SCHEDULE_LEN ==> #[trigger] p.sample_sizes@[i] == first + step * i
                &&& p.sample_index == 0
                &&& p.variation_index == 0
                &&& p.number_samples == number_samples
                &&& p.number_variations == number_variations
                &&& p.sample_duration == sample_duration
                &&& p.min_calcs_per_sample == min_calcs_per_sample
                &&& p.current_sample_progress == 0
                &&& p.current_calcs == 0
                &&& p.pick_number == pick_number
                &&& p.debug == debug
                &&& !p.finished
            },
    {
        if number_samples > SCHEDULE_LEN {
            return Err(SweepError::TooManySamples);
        }
        let sample_sizes = generate_sample_sizes(first, step);
        let mut sample_sizes_as_str: Vec<String> = Vec::with_capacity(SCHEDULE_LEN);
        let mut i: usize = 0;
        while i < SCHEDULE_LEN
            invariant
                sample_sizes@.len() == SCHEDULE_LEN,
                i <= SCHEDULE_LEN,
                sample_sizes_as_str@.len() == i,
                forall|k: int| 0 <= k < i ==> #[trigger] sample_sizes_as_str@[k]@ == decimal(sample_sizes@[k] as nat),
            decreases SCHEDULE_LEN - i,
        {
            sample_sizes_as_str.push(decimal_string(sample_sizes[i]));
            i = i + 1;
        }
        Ok(ExperimentParameters {
            sample_sizes,
            sample_sizes_as_str,
            number_samples,
            sample_index: 0,
            number_variations,
            variation_index: 0,
            sample_duration,
            current_sample_progress: 0,
            min_calcs_per_sample,
            current_calcs: 0,
            pick_number,
            debug,
            finished: false,
        })
    }

    /// The sample size of the current step.
    pub fn current_sample_size(&self) -> (r: usize)
        requires
            self.wf(),
        ensures
            r == self.sample_sizes@[self.sample_index as int],
    {
        self.sample_sizes[self.sample_index]
    }

    /// The sample size of the current step, in decimal.
    pub fn current_sample_size_str(&self) -> (r: String)
        requires
            self.wf(),
        ensures
            r@ == decimal(self.sample_sizes@[self.sample_index as int] as nat),
    {
        self.sample_sizes_as_str[self.sample_index].clone()
    }

    /// Moves to the next variation; false when there is none.
    pub fn next_variation(&mut self) -> (r: bool)
        requires
            old(self).variation_index < usize::MAX,
        ensures
            *final(self) == (ExperimentParameters { variation_index: (old(self).variation_index + 1) as usize, ..*old(self) }),
            r == (final(self).variation_index < old(self).number_variations),
    {
        self.variation_index = self.variation_index + 1;
        self.variation_index < self.number_variations
    }

    /// Moves to the next sample size; false when there is none.
    pub fn next_sample(&mut self) -> (r: bool)
        requires
            old(self).sample_index < usize::MAX,
        ensures
            *final(self) == (ExperimentParameters { sample_index: (old(self).sample_index + 1) as usize, ..*old(self) }),
            r == (final(self).sample_index < old(self).number_samples),
    {
        self.sample_index = self.sample_index + 1;
        self.sample_index < self.number_samples
    }

    /// A sweep with no sample size at all: it is over at its first tick.
    pub open spec fn finished_at_once(&self) -> ExperimentParameters {
        ExperimentParameters { current_calcs: 0, current_sample_progress: 0, finished: true, ..*self }
    }

    /// One tick of the sweep, `delta` nanoseconds after the last one. It
    /// counts one more run and adds `delta` to the current step; when the step
    /// ends it advances and returns the signal. A sweep with no sample size
    /// finishes at its first tick, whatever `delta` is. A finished sweep stays
    /// as it is.
    pub fn progress_experiment(&mut self, delta: u128) -> (r: Option<ExperimentProgress>)
        requires
            old(self).wf(),
        ensures
            final(self).wf(),
            old(self).finished ==> r is None && *final(self) == *old(self),
            !old(self).finished && old(self).number_samples == 0 ==> {
                &&& r == Some(ExperimentProgress(0, old(self).variation_index, true))
                &&& *final(self) == old(self).finished_at_once()
            },
            !old(self).finished && old(self).number_samples > 0 && !old(self).step_ends(delta) ==> {
                &&& r is None
                &&& *final(self) == (ExperimentParameters {
                    current_calcs: (old(self).current_calcs + 1) as usize,
                    current_sample_progress: (old(self).current_sample_progress + delta) as u128,
                    ..*old(self)
                })
            },
            !old(self).finished && old(self).number_samples > 0 && old(self).step_ends(delta) ==> {
                &&& r == Some(old(self).advance_signal())
                &&& *final(self) == old(self).advanced()
            },
    {
        if self.finished {
            return None;
        }
        if self.number_samples == 0 {
            self.current_sample_progress = 0;
            self.current_calcs = 0;
            self.finished = true;
            return Some(ExperimentProgress(0, self.variation_index, true));
        }
        let duration_over = delta >= self.sample_duration - self.current_sample_progress;
        let min_calcs_reached = self.current_calcs + 1 >= self.min_calcs_per_sample;
        if !duration_over && !min_calcs_reached {
            self.current_calcs = self.current_calcs + 1;
            self.current_sample_progress = self.current_sample_progress + delta;
            return None;
        }
        let prev_sample_size_index = self.sample_index;
        let prev_variation_index = self.variation_index;
        let last_sample = !self.next_sample();
        let mut last_variation = false;
        if last_sample {
            last_variation = !self.next_variation();
            self.sample_index = 0;
        }
        self.current_sample_progress = 0;
        self.current_calcs = 0;
        self.finished = last_sample && last_variation;
        Some(ExperimentProgress(prev_sample_size_index, prev_variation_index, last_sample && last_variation))
    }

    /// The decimal labels of the sample sizes that the sweep visits.
    pub fn relevant_samples(&self) -> (r: Vec<String>)
        requires
            self.wf(),
        ensures
            r@.len() == self.number_samples,
            forall|i: int| 0 <= i < self.number_samples ==> #[trigger] r@[i]@ == decimal(self.sample_sizes@[i] as nat),
    {
        let mut r: Vec<String> = Vec::with_capacity(self.number_samples);
        let mut i: usize = 0;
        while i < self.number_samples
            invariant
                self.wf(),
                i <= self.number_samples,
                r@.len() == i,
                forall|k: int| 0 <= k < i ==> #[trigger] r@[k]@ == decimal(self.sample_sizes@[k] as nat),
            decreases self.number_samples - i,
        {
            r.push(self.sample_sizes_as_str[i].clone());
            i = i + 1;
        }
        r
    }
}

} // verus!
