//! Parameters of the detector and the detector itself, from gradient
//! magnitudes and orientations to an edge mask.
use crate::array::{AngleGrid, EdgeMask, LevelGrid};
use crate::link::{edge_set, link_edges, linked_edges};
use crate::suppress::{non_maxima_supression, suppressed_at};
use vstd::prelude::*;

verus! {

/// The default lower threshold, 0.3 on the normalised intensity scale, as a
/// level (the bit pattern of the non-negative `f64`).
pub const DEFAULT_LOWER: u64 = 0x3fd3333333333333;

/// The default upper threshold, 0.7 on the normalised intensity scale, as a
/// level (the bit pattern of the non-negative `f64`).
pub const DEFAULT_UPPER: u64 = 0x3fe6666666666666;

/// The thresholds (lower, upper) that `build` fixes from the ones set: an
/// unset one takes its default, and the pair is put in order.
pub open spec fn thresholds_of(lower: Option<u64>, upper: Option<u64>) -> (u64, u64) {
    let a = match lower {
        Some(t) => t,
        None => DEFAULT_LOWER,
    };
    let b = match upper {
        Some(t) => t,
        None => DEFAULT_UPPER,
    };
    if b < a {
        (b, a)
    } else {
        (a, b)
    }
}

/// Whatever two thresholds are set, in whichever order, the built lower
/// threshold does not exceed the upper, and the two are the ones given.
pub proof fn lemma_thresholds_ordered(a: u64, b: u64)
    ensures
        thresholds_of(Some(a), Some(b)).0 <= thresholds_of(Some(a), Some(b)).1,
        set![thresholds_of(Some(a), Some(b)).0, thresholds_of(Some(a), Some(b)).1] == set![a, b],
        thresholds_of(Some(a), Some(b)) == thresholds_of(Some(b), Some(a)),
{
    assert(set![b, a] =~= set![a, b]);
}

/// Why the detector refused an image.
#[derive(Clone, Copy, Debug, PartialEq, Eq, Structural)]
pub enum Error {
    /// The image has more than one channel.
    ChannelDimensionMismatch,
}

/// Collects threshold overrides before `build` fixes them.
#[derive(Clone, Copy, Debug, PartialEq, Eq, Structural)]
pub struct CannyBuilder {
    t1: Option<u64>,
    t2: Option<u64>,
}

/// The thresholds of the detector, with `lower <= upper`.
#[derive(Clone, Copy, Debug, PartialEq, Eq, Structural)]
pub struct CannyParameters {
    t1: u64,
    t2: u64,
}

impl CannyParameters {
    pub closed spec fn lower_spec(&self) -> u64 {
        self.t1
    }

    pub closed spec fn upper_spec(&self) -> u64 {
        self.t2
    }

    /// The lower threshold.
    pub fn lower(&self) -> (r: u64)
        ensures
            r == self.lower_spec(),
    {
        self.t1
    }

    /// The upper threshold.
    pub fn upper(&self) -> (r: u64)
        ensures
            r == self.upper_spec(),
    {
        self.t2
    }
}

impl CannyBuilder {
    pub closed spec fn lower_set(&self) -> Option<u64> {
        self.t1
    }

    pub closed spec fn upper_set(&self) -> Option<u64> {
        self.t2
    }

    /// A builder with no threshold set.
    pub fn new() -> (r: CannyBuilder)
        ensures
            r.lower_set() is None,
            r.upper_set() is None,
    {
        CannyBuilder { t1: None, t2: None }
    }

    /// Sets the lower threshold.
    pub fn lower_threshold(self, t1: u64) -> (r: CannyBuilder)
        ensures
            r.lower_set() == Some(t1),
            r.upper_set() == self.upper_set(),
    {
        CannyBuilder { t1: Some(t1), t2: self.t2 }
    }

    /// Sets the upper threshold.
    pub fn upper_threshold(self, t2: u64) -> (r: CannyBuilder)
        ensures
            r.lower_set() == self.lower_set(),
            r.upper_set() == Some(t2),
    {
        CannyBuilder { t1: self.t1, t2: Some(t2) }
    }

    /// Fixes the thresholds: unset ones take their defaults, and the two are
    /// swapped where the lower exceeds the upper.
    pub fn build(self) -> (r: CannyParameters)
        ensures
            r.lower_spec() <= r.upper_spec(),
            (r.lower_spec(), r.upper_spec()) == thresholds_of(self.lower_set(), self.upper_set()),
    {
        let mut t1 = match self.t1 {
            Some(t) => t,
            None => DEFAULT_LOWER,
        };
        let mut t2 = match self.t2 {
            Some(t) => t,
            None => DEFAULT_UPPER,
        };
        if t2 < t1 {
            let temp = t1;
            t1 = t2;
            t2 = temp;
        }
        CannyParameters { t1, t2 }
    }
}

/// Refuses an image of more than one channel.
pub fn check_channels(channels: usize) -> (r: Result<(), Error>)
    ensures
        r is Err <==> channels > 1,
        r matches Err(e) ==> e == Error::ChannelDimensionMismatch,
{
    if channels > 1 {
        Err(Error::ChannelDimensionMismatch)
    } else {
        Ok(())
    }
}

/// The edges of an image of `channels` channels, from the gradient
/// magnitudes and orientations of its blurred copy: suppression, then
/// linking. An image of more than one channel is refused before anything is
/// computed.
pub fn canny_edge_detector(
    channels: usize,
    magnitudes: &LevelGrid,
    rotations: &AngleGrid,
    params: CannyParameters,
) -> (r: Result<EdgeMask, Error>)
    requires
        channels <= 1 ==> magnitudes.shape() == rotations.shape() && magnitudes.shape().2 == 1,
    ensures
        r is Err <==> channels > 1,
        r matches Err(e) ==> e == Error::ChannelDimensionMismatch,
        r matches Ok(e) ==> e.shape() == magnitudes.shape() && exists|s: LevelGrid|
            {
                &&& s.shape() == magnitudes.shape()
                &&& forall|i: int, j: int|
                    0 <= i < s.shape().0 && 0 <= j < s.shape().1 ==> #[trigger] s.cell(i, j, 0)
                        == suppressed_at(*magnitudes, *rotations, i, j)
                &&& edge_set(e) == linked_edges(s, params.lower_spec(), params.upper_spec())
            },
{
    match check_channels(channels) {
        Err(e) => Err(e),
        Ok(()) => {
            let s = non_maxima_supression(magnitudes, rotations);
            let e = link_edges(&s, params.lower(), params.upper());
            assert(forall|i: int, j: int|
                0 <= i < s.shape().0 && 0 <= j < s.shape().1 ==> #[trigger] s.cell(i, j, 0)
                    == suppressed_at(*magnitudes, *rotations, i, j));
            Ok(e)
        }
    }
}

} // verus!
