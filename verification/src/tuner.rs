//! What a tuning session is set up with, and what it does with each
//! window of samples.

use crate::correlate::{autocorrelate, is_best_phase, Phase, Sample, MAX_TERMS};
use crate::error::TunerError;
use crate::matcher::{ascending, closest, closest_index, sort, strictly_ascending, Scalar};
use crate::note::{all_notes, parse_pitches, pitches_of, words, Pitch};
use vstd::prelude::*;

verus! {

/// The settings of a session: the frequency of A4, the rate at which the
/// signal is sampled, and the pitches to tune to, in ascending order and
/// each once. Both rates are above zero and there is at least one pitch.
pub struct Config {
    reference_millihertz: u32,
    sample_rate: u32,
    pitches: Vec<Pitch>,
}

impl Config {
    #[verifier::type_invariant]
    spec fn valid(self) -> bool {
        &&& self.reference_millihertz > 0
        &&& self.sample_rate > 0
        &&& self.pitches@.len() > 0
        &&& strictly_ascending(self.pitches@)
    }

    /// The frequency of A4, in thousandths of a hertz.
    pub closed spec fn reference(self) -> u32 {
        self.reference_millihertz
    }

    /// The number of samples in a second.
    pub closed spec fn rate(self) -> u32 {
        self.sample_rate
    }

    /// The pitches to tune to.
    pub closed spec fn targets(self) -> Seq<Pitch> {
        self.pitches@
    }

    /// Settings with the given rates and the pitches that `tuning` names,
    /// each once however often it is named.
    /// A rate of zero and a tuning without a note name are each a
    /// `PrecondViolation`; a word of the tuning that is not a note name is
    /// an `InvalidNote`.
    pub fn new(reference_millihertz: u32, sample_rate: u32, tuning: &str) -> (r: Result<
        Config,
        TunerError,
    >)
        ensures
            match r {
                Ok(c) => {
                    &&& reference_millihertz > 0
                    &&& sample_rate > 0
                    &&& words(tuning@).len() > 0
                    &&& all_notes(words(tuning@))
                    &&& c.reference() == reference_millihertz
                    &&& c.rate() == sample_rate
                    &&& strictly_ascending(c.targets())
                    &&& forall|i: int|
                        0 <= i < c.targets().len() ==> pitches_of(words(tuning@)).contains(
                            #[trigger] c.targets()[i],
                        )
                    &&& forall|k: int|
                        0 <= k < words(tuning@).len() ==> c.targets().contains(
                            #[trigger] pitches_of(words(tuning@))[k],
                        )
                },
                Err(e) => if reference_millihertz == 0 || sample_rate == 0 || words(tuning@).len()
                    == 0 {
                    e == TunerError::PrecondViolation
                } else {
                    !all_notes(words(tuning@)) && e == TunerError::InvalidNote
                },
            },
    {
        if reference_millihertz == 0 || sample_rate == 0 {
            return Err(TunerError::PrecondViolation);
        }
        match parse_pitches(tuning) {
            Ok(pitches) => {
                proof {
                    assert(pitches@.contains(pitches_of(words(tuning@))[0]));
                }
                Ok(Config { reference_millihertz, sample_rate, pitches })
            },
            Err(e) => Err(e),
        }
    }

    pub fn reference_millihertz(&self) -> (r: u32)
        ensures
            r == self.reference(),
            r > 0,
    {
        proof {
            use_type_invariant(self);
        }
        self.reference_millihertz
    }

    pub fn sample_rate(&self) -> (r: u32)
        ensures
            r == self.rate(),
            r > 0,
    {
        proof {
            use_type_invariant(self);
        }
        self.sample_rate
    }

    pub fn pitches(&self) -> (r: &[Pitch])
        ensures
            r@ == self.targets(),
            r@.len() > 0,
            strictly_ascending(r@),
    {
        proof {
            use_type_invariant(self);
        }
        self.pitches.as_slice()
    }
}

/// The settings for a guitar in standard tuning (E2 A2 D3 G3 B3 E4), with
/// A4 at 440 Hz and 44100 samples in a second.
pub fn default_config() -> (c: Config)
    ensures
        c.reference() == 440_000,
        c.rate() == 44100,
        c.targets() == seq![-29isize, -24isize, -19isize, -14isize, -10isize, -5isize],
{
    let mut pitches: Vec<Pitch> = Vec::new();
    pitches.push(-29);
    pitches.push(-24);
    pitches.push(-19);
    pitches.push(-14);
    pitches.push(-10);
    pitches.push(-5);
    assert(pitches@ =~= seq![-29isize, -24isize, -19isize, -14isize, -10isize, -5isize]);
    Config { reference_millihertz: 440_000, sample_rate: 44100, pitches }
}

/// What one window of samples gave.
#[derive(Clone, Copy, Debug, PartialEq, Eq)]
pub struct Detection {
    /// The period of the signal, in samples.
    pub phase: Phase,
    /// The place, in the table, of the target nearest to that period.
    pub target: usize,
}

/// The periods of the targets of a session, in ascending order; two
/// targets may have the same period. There is at least one period, and
/// each is above zero and not above `MAX_TERMS`.
pub struct PhaseTable {
    phases: Vec<Phase>,
}

impl View for PhaseTable {
    type V = Seq<Phase>;

    closed spec fn view(&self) -> Seq<Phase> {
        self.phases@
    }
}

/// Two lists that hold the same items: each item of the first is
/// somewhere in the second.
pub proof fn lemma_same_items<T>(a: Seq<T>, b: Seq<T>)
    requires
        a.to_multiset() == b.to_multiset(),
    ensures
        a.len() == b.len(),
        forall|i: int| 0 <= i < a.len() ==> b.contains(#[trigger] a[i]),
{
    a.to_multiset_ensures();
    b.to_multiset_ensures();
    assert forall|i: int| 0 <= i < a.len() implies b.contains(#[trigger] a[i]) by {
        assert(a.contains(a[i]));
        assert(a.to_multiset().count(a[i]) > 0);
        assert(b.to_multiset().count(a[i]) > 0);
    }
}

impl PhaseTable {
    #[verifier::type_invariant]
    spec fn valid(self) -> bool {
        &&& self.phases@.len() > 0
        &&& ascending(self.phases@)
        &&& self.phases@.first() > 0
        &&& self.phases@.last() <= MAX_TERMS
    }

    /// The table of the given periods. An empty list, a period of zero and
    /// a period above `MAX_TERMS` are each a `PrecondViolation`.
    pub fn new(phases: &[Phase]) -> (r: Result<PhaseTable, TunerError>)
        ensures
            match r {
                Ok(t) => {
                    &&& phases@.len() > 0
                    &&& forall|i: int|
                        0 <= i < phases@.len() ==> 0 < #[trigger] phases@[i] <= MAX_TERMS
                    &&& ascending(t@)
                    &&& t@.to_multiset() == phases@.to_multiset()
                },
                Err(e) => {
                    &&& e == TunerError::PrecondViolation
                    &&& phases@.len() == 0 || exists|i: int|
                        0 <= i < phases@.len() && (#[trigger] phases@[i] == 0 || phases@[i]
                            > MAX_TERMS)
                },
            },
    {
        if phases.len() == 0 {
            return Err(TunerError::PrecondViolation);
        }
        let sorted: Vec<Phase> = sort(phases);
        proof {
            lemma_same_items(sorted@, phases@);
            lemma_same_items(phases@, sorted@);
        }
        let first: Phase = sorted[0];
        let last: Phase = sorted[sorted.len() - 1];
        if first == 0 {
            proof {
                let i = phases@.index_of(first);
                assert(phases@[i] == 0);
            }
            return Err(TunerError::PrecondViolation);
        }
        if last as u64 > MAX_TERMS {
            proof {
                let i = phases@.index_of(last);
                assert(phases@[i] > MAX_TERMS);
            }
            return Err(TunerError::PrecondViolation);
        }
        proof {
            assert forall|i: int| 0 <= i < phases@.len() implies 0 < #[trigger] phases@[i]
                <= MAX_TERMS by {
                let j = sorted@.index_of(phases@[i]);
                assert(sorted@[0].value() <= sorted@[j].value());
                assert(sorted@[j].value() <= sorted@[sorted@.len() - 1].value());
            }
        }
        Ok(PhaseTable { phases: sorted })
    }

    /// The periods, in ascending order.
    pub fn phases(&self) -> (r: &[Phase])
        ensures
            r@ == self@,
            r@.len() > 0,
            ascending(r@),
    {
        proof {
            use_type_invariant(self);
        }
        self.phases.as_slice()
    }

    /// The shortest period: where the search starts.
    pub fn phase_min(&self) -> (r: Phase)
        ensures
            self@.len() > 0,
            r == self@.first(),
            r > 0,
    {
        proof {
            use_type_invariant(self);
        }
        self.phases[0]
    }

    /// The longest period: where the search ends, and the number of
    /// samples that an error is summed over.
    pub fn phase_max(&self) -> (r: Phase)
        ensures
            self@.len() > 0,
            r == self@.last(),
            r <= MAX_TERMS,
    {
        proof {
            use_type_invariant(self);
        }
        self.phases[self.phases.len() - 1]
    }

    /// The number of samples that a window must have: twice the longest
    /// period. `None` where that number is above `usize::MAX`.
    pub fn window_len(&self) -> (r: Option<usize>)
        ensures
            self@.len() > 0,
            match r {
                Some(n) => n == 2 * self@.last(),
                None => 2 * self@.last() > usize::MAX,
            },
    {
        let longest: Phase = self.phase_max();
        if longest <= usize::MAX / 2 {
            Some(2 * longest)
        } else {
            None
        }
    }

    /// The period of the signal in `window`, and the target nearest to
    /// it. A window of fewer samples than twice the longest period is a
    /// `PrecondViolation`.
    pub fn analyze(&self, window: &[Sample]) -> (r: Result<Detection, TunerError>)
        ensures
            self@.len() > 0,
            match r {
                Ok(d) => {
                    &&& 2 * self@.last() <= window@.len()
                    &&& is_best_phase(
                        window@,
                        self@.first() as int,
                        self@.last() as int,
                        d.phase as int,
                    )
                    &&& d.target == closest_index(d.phase as int, self@)
                },
                Err(e) => e == TunerError::PrecondViolation && window@.len() < 2 * self@.last(),
            },
    {
        proof {
            use_type_invariant(self);
        }
        let shortest: Phase = self.phase_min();
        let longest: Phase = self.phase_max();
        if window.len() / 2 < longest {
            return Err(TunerError::PrecondViolation);
        }
        let phase: Phase = autocorrelate(shortest, longest, window);
        let target: usize = closest(phase, self.phases.as_slice());
        Ok(Detection { phase, target })
    }
}

} // verus!
