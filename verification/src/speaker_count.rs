//! Constraining how many speakers a run reports, the way pyannote's `num_speakers`,
//! `min_speakers` and `max_speakers` do.
//!
//! Three pieces, and all three are needed. Re-clustering alone is not enough: with the count
//! forced below what segmentation sees in a chunk, the constrained assignment leaves a local
//! speaker without a cluster and its speech is dropped, and an uncapped per-frame count makes
//! reconstruction pick a zero-padded column -- a speaker nobody asked for.
use crate::text::{decimal, decimal_of};
use crate::types::SpeakerCountTrack;
use vstd::prelude::*;

verus! {

/// Bounds on the number of speakers a run may report.
///
/// The default constrains nothing, and a run under it is the unconstrained pipeline, bit for
/// bit. A zero in any field means the same as `None`, as it does in pyannote.
#[derive(Debug, Clone, Copy, PartialEq, Eq)]
pub struct SpeakerCount {
    /// Exactly this many speakers. Overrides `min` and `max`.
    pub num: Option<usize>,
    /// At least this many.
    pub min: Option<usize>,
    /// At most this many.
    pub max: Option<usize>,
}

/// A count that was given, as opposed to one left out or zero.
pub open spec fn given(count: Option<usize>) -> Option<usize> {
    match count {
        Some(n) => if n > 0 {
            Some(n)
        } else {
            None
        },
        None => None,
    }
}

/// The first of two counts, the second where there is no first, or a default.
pub open spec fn either(
    first: Option<usize>,
    second: Option<usize>,
    otherwise: usize,
) -> usize {
    match first {
        Some(n) => n,
        None => match second {
            Some(n) => n,
            None => otherwise,
        },
    }
}

/// `n` moved into the range from `low` to `high`.
pub open spec fn clamped(n: usize, low: usize, high: usize) -> usize {
    if n < low {
        low
    } else if n > high {
        high
    } else {
        n
    }
}

/// `n`, or one where `n` is zero.
pub open spec fn at_least_one(n: usize) -> usize {
    if n == 0 {
        1
    } else {
        n
    }
}

/// What is said of bounds that no output can satisfy.
pub open spec fn refusal_of(min: usize, max: usize) -> Seq<char> {
    "min_speakers ("@ + decimal_of(min as nat) + ") must not exceed max_speakers ("@ + decimal_of(
        max as nat,
    ) + ")"@
}

impl SpeakerCount {
    /// The least number of speakers.
    pub open spec fn least(self) -> usize {
        either(given(self.num), given(self.min), 1)
    }

    /// The greatest number of speakers.
    pub open spec fn greatest(self) -> usize {
        either(given(self.num), given(self.max), usize::MAX)
    }

    /// Whether these bounds constrain nothing.
    pub open spec fn unconstrained(self) -> bool {
        self.least() == 1 && self.greatest() == usize::MAX
    }

    /// Whether a clustering that found `auto` speakers is left as it is: the bounds constrain
    /// nothing, or `auto` satisfies them.
    pub open spec fn satisfied(self, auto: usize) -> bool {
        self.unconstrained() || self.least() <= auto <= self.greatest()
    }

    /// The count that a clustering has to be corrected to, if any: the bound that is broken, as
    /// far as there are embeddings.
    pub open spec fn correction_of(self, auto: usize, embeddings: usize) -> Option<usize> {
        let broken = if auto < self.least() {
            self.least()
        } else {
            self.greatest()
        };
        let target = clamped(broken, 1, at_least_one(embeddings));
        if self.satisfied(auto) || target == auto {
            None
        } else {
            Some(target)
        }
    }

    /// Exactly `num` speakers.
    pub fn exactly(num: usize) -> (r: Self)
        ensures
            r == (SpeakerCount { num: Some(num), min: None, max: None }),
    {
        SpeakerCount { num: Some(num), min: None, max: None }
    }

    /// Whether these bounds constrain nothing.
    pub fn is_unconstrained(&self) -> (r: bool)
        ensures
            r == self.unconstrained(),
    {
        let (min, max): (usize, usize) = self.bounds();
        min == 1 && max == usize::MAX
    }

    /// Rejects bounds no output can satisfy. pyannote raises on the same condition.
    pub fn validate(&self) -> (r: Result<(), String>)
        ensures
            r is Err <==> self.least() > self.greatest(),
            r matches Err(message) ==> message@ == refusal_of(self.least(), self.greatest()),
    {
        let (min, max): (usize, usize) = self.bounds();
        if min > max {
            let mut message: String = "min_speakers (".to_owned();
            let least: String = decimal(min);
            message.append(least.as_str());
            message.append(") must not exceed max_speakers (");
            let greatest: String = decimal(max);
            message.append(greatest.as_str());
            message.append(")");
            return Err(message);
        }
        Ok(())
    }

    /// pyannote's `set_num_speakers`: `num` overrides both, `min` defaults to 1, `max` to
    /// unbounded.
    pub fn bounds(&self) -> (r: (usize, usize))
        ensures
            r == (self.least(), self.greatest()),
    {
        let num: Option<usize> = drop_zero(self.num);
        let min: Option<usize> = drop_zero(self.min);
        let max: Option<usize> = drop_zero(self.max);
        (first_given(num, min, 1), first_given(num, max, usize::MAX))
    }

    /// Caps the per-frame count of simultaneous speakers at the greatest number allowed.
    ///
    /// Segmentation can overcount, and reconstruction activates as many clusters per frame as
    /// this track says. With fewer clusters than that, it pads with zero columns and activates
    /// those -- speakers that do not exist.
    pub fn cap(&self, track: SpeakerCountTrack) -> (r: SpeakerCountTrack)
        ensures
            r.0@ == capped(track.0@, self.greatest()),
    {
        let (_min, max): (usize, usize) = self.bounds();
        if max == usize::MAX {
            proof {
                assert(track.0@ =~= capped(track.0@, max));
            }
            return track;
        }
        let mut counts: Vec<usize> = Vec::new();
        let mut f: usize = 0;
        while f < track.0.len()
            invariant
                f <= track.0@.len(),
                counts@.len() == f,
                forall|g: int| 0 <= g < f ==> #[trigger] counts@[g] == capped(track.0@, max)[g],
            decreases track.0@.len() - f,
        {
            let count: usize = track.0[f];
            counts.push(
                if count > max {
                    max
                } else {
                    count
                },
            );
            f = f + 1;
        }
        proof {
            assert(counts@ =~= capped(track.0@, max));
        }
        SpeakerCountTrack(counts)
    }

    /// The cluster count that `auto` clusters have to be corrected to, if any. `None` when
    /// `auto` already satisfies the bounds, which is the only answer an unconstrained run can
    /// get.
    pub fn correction(&self, auto: usize, num_embeddings: usize) -> (r: Option<usize>)
        ensures
            r == self.correction_of(auto, num_embeddings),
    {
        if self.is_unconstrained() {
            return None;
        }
        let (min, max): (usize, usize) = self.bounds();
        let broken: usize = if auto < min {
            min
        } else if auto > max {
            max
        } else {
            return None;
        };
        // There cannot be more clusters than there are embeddings to put in them.
        let most: usize = if num_embeddings == 0 {
            1
        } else {
            num_embeddings
        };
        let target: usize = if broken < 1 {
            1
        } else if broken > most {
            most
        } else {
            broken
        };
        if target == auto {
            None
        } else {
            Some(target)
        }
    }
}

impl Default for SpeakerCount {
    fn default() -> (r: Self)
        ensures
            r == (SpeakerCount { num: None, min: None, max: None }),
    {
        SpeakerCount { num: None, min: None, max: None }
    }
}

/// A track with no count beyond `max`.
pub open spec fn capped(counts: Seq<usize>, max: usize) -> Seq<usize> {
    Seq::new(
        counts.len(),
        |f: int|
            if counts[f] > max {
                max
            } else {
                counts[f]
            },
    )
}

/// A count that was given, as opposed to one left out or zero.
fn drop_zero(count: Option<usize>) -> (r: Option<usize>)
    ensures
        r == given(count),
{
    match count {
        Some(n) => {
            if n > 0 {
                Some(n)
            } else {
                None
            }
        },
        None => None,
    }
}

/// The first of two counts, the second where there is no first, or a default.
fn first_given(first: Option<usize>, second: Option<usize>, otherwise: usize) -> (r: usize)
    ensures
        r == either(first, second, otherwise),
{
    match first {
        Some(n) => n,
        None => match second {
            Some(n) => n,
            None => otherwise,
        },
    }
}

/// Bounds that constrain nothing leave every run as it is: no track is capped, and no
/// clustering is corrected.
pub proof fn law_no_bounds_change_nothing(
    bounds: SpeakerCount,
    track: Seq<usize>,
    auto: usize,
    embeddings: usize,
)
    requires
        bounds.unconstrained(),
    ensures
        capped(track, bounds.greatest()) == track,
        bounds.correction_of(auto, embeddings) is None,
{
    assert(capped(track, usize::MAX) =~= track);
}

/// A clustering that satisfies the bounds is left as it is, however few embeddings there are.
pub proof fn law_a_satisfied_count_stands(bounds: SpeakerCount, auto: usize, embeddings: usize)
    requires
        bounds.least() <= auto <= bounds.greatest(),
    ensures
        bounds.correction_of(auto, embeddings) is None,
{
}

/// Zero in any field means the same as `None`.
pub proof fn law_zero_means_not_given(bounds: SpeakerCount, auto: usize, embeddings: usize)
    ensures
        ({
            let without = SpeakerCount {
                num: given(bounds.num),
                min: given(bounds.min),
                max: given(bounds.max),
            };
            &&& bounds.least() == without.least()
            &&& bounds.greatest() == without.greatest()
            &&& bounds.correction_of(auto, embeddings) == without.correction_of(auto, embeddings)
        }),
{
}

/// An exact number overrides the other two bounds.
pub proof fn law_num_overrides(bounds: SpeakerCount, num: usize)
    requires
        bounds.num == Some(num),
        num > 0,
    ensures
        bounds.least() == num,
        bounds.greatest() == num,
{
}

/// A correction asks for at least one cluster and never for more than there are embeddings.
pub proof fn law_correction_is_possible(bounds: SpeakerCount, auto: usize, embeddings: usize)
    requires
        bounds.correction_of(auto, embeddings) is Some,
    ensures
        1 <= bounds.correction_of(auto, embeddings)->0 <= at_least_one(embeddings),
        bounds.correction_of(auto, embeddings) != Some(auto),
{
}

/// A corrected clustering needs no further correction, when some output can satisfy the
/// bounds.
pub proof fn law_correction_is_final(bounds: SpeakerCount, auto: usize, embeddings: usize)
    requires
        bounds.least() <= bounds.greatest(),
        bounds.correction_of(auto, embeddings) is Some,
    ensures
        bounds.correction_of(bounds.correction_of(auto, embeddings)->0, embeddings) is None,
{
}

/// With as many embeddings as the bounds ask for, a corrected clustering satisfies them.
pub proof fn law_correction_satisfies_the_bounds(
    bounds: SpeakerCount,
    auto: usize,
    embeddings: usize,
)
    requires
        bounds.least() <= bounds.greatest(),
        bounds.least() <= embeddings,
        bounds.correction_of(auto, embeddings) is Some,
    ensures
        bounds.least() <= bounds.correction_of(auto, embeddings)->0 <= bounds.greatest(),
{
}

/// No frame of a capped track has more speakers than allowed, no frame gains any, and capping
/// again changes nothing.
pub proof fn law_cap_bounds_every_frame(track: Seq<usize>, max: usize, f: int)
    requires
        0 <= f < track.len(),
    ensures
        capped(track, max)[f] <= max,
        capped(track, max)[f] <= track[f],
        track[f] <= max ==> capped(track, max)[f] == track[f],
        capped(capped(track, max), max) == capped(track, max),
{
    assert(capped(capped(track, max), max) =~= capped(track, max));
}

/// The bounds are the exact number where a positive one is given, and otherwise each bound
/// where a positive one is given, one and no bound where not.
pub proof fn law_bounds_are_what_was_given(bounds: SpeakerCount)
    ensures
        forall|n: usize|
            n > 0 && bounds.num == Some(n) ==> #[trigger] bounds.least() == n && bounds.greatest()
                == n,
        bounds.num is None || bounds.num == Some(0usize) ==> {
            &&& bounds.min is None || bounds.min == Some(0usize) ==> bounds.least() == 1
            &&& bounds.min matches Some(n) ==> n > 0 ==> bounds.least() == n
            &&& bounds.max is None || bounds.max == Some(0usize) ==> bounds.greatest()
                == usize::MAX
            &&& bounds.max matches Some(n) ==> n > 0 ==> bounds.greatest() == n
        },
{
}

/// A clustering that found too few speakers is corrected to the least number, and one that
/// found too many to the greatest; with fewer embeddings than that, to as many as there are,
/// or to one, and not at all where that is what was found.
pub proof fn law_correction_goes_to_the_bound_that_is_broken(
    bounds: SpeakerCount,
    auto: usize,
    embeddings: usize,
)
    requires
        bounds.least() != 1 || bounds.greatest() != usize::MAX,
    ensures
        ({
            let correction = bounds.correction_of(auto, embeddings);
            let least = bounds.least();
            let greatest = bounds.greatest();
            let few = auto < least;
            let many = auto >= least && auto > greatest;
            &&& few && least <= embeddings ==> correction == Some(least)
            &&& few && 0 < embeddings < least && auto != embeddings ==> correction == Some(
                embeddings,
            )
            &&& few && auto == embeddings && auto > 0 ==> correction is None
            &&& many && greatest <= embeddings ==> correction == Some(greatest)
            &&& many && 0 < embeddings < greatest ==> correction == Some(embeddings)
            &&& (few || many) && embeddings == 0 ==> correction == if auto == 1 {
                None
            } else {
                Some(1usize)
            }
            &&& !few && !many ==> correction is None
        }),
{
}

/// A capped track has as many frames as before, and every frame beyond the cap has just the
/// cap.
pub proof fn law_cap_brings_frames_down_to_it(track: Seq<usize>, max: usize, f: int)
    requires
        0 <= f < track.len(),
    ensures
        capped(track, max).len() == track.len(),
        track[f] > max ==> capped(track, max)[f] == max,
        track[f] <= max ==> capped(track, max)[f] == track[f],
{
}

} // verus!
