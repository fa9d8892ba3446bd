//! Caller-supplied inputs: room requirements and per-round subdivision
//! parameters.

use vstd::prelude::*;
use crate::rect::Rect;

verus! {

/// Probabilities are expressed as integer fractions over this unit:
/// a probability parameter of `PROB_SCALE` means certainty.
pub const PROB_SCALE: u64 = 1000;

/// Most children one split may produce.
pub const MAX_SPLIT: usize = 1024;

/// Largest accepted aspect-ratio suppression factor, in `PROB_SCALE` units.
pub const MAX_ASPECT_FACTOR: u64 = 100000;

/// Largest accepted acceptance-probability offset, in `PROB_SCALE` units.
/// Offsets above `PROB_SCALE` are meaningful — the acceptance probability is
/// clamped to one only after the imbalance suppression is subtracted — and
/// only this arithmetic cap bounds them.
pub const MAX_ASPECT_OFFSET: u64 = 100000;

/// Largest total target floor area a plan may ask for; keeps every area and
/// acceptance product inside `u64`.
pub const AREA_LIMIT: u64 = 4503599627370496;

/// One requested room: an inclusive floor-area range, whether the room must
/// touch the building perimeter, and the slot that receives the matched
/// rectangle once the requirement is claimed.
#[derive(Clone, Copy, Debug, PartialEq, Eq, Structural)]
pub struct RoomSpec {
    /// Smallest acceptable floor area.
    pub area_min: u64,
    /// Largest acceptable floor area.
    pub area_max: u64,
    /// Whether the room must touch the building's outer boundary.
    pub has_direct_access: bool,
    /// The rectangle this requirement claimed, once assignment succeeds.
    pub room: Option<Rect>,
}

impl RoomSpec {
    /// The middle of the area range, which both sizes the building and
    /// weighs candidate acceptance.
    pub open spec fn spec_center(self) -> int {
        self.area_min + (self.area_max - self.area_min) / 2
    }

    /// The range is ordered.
    pub open spec fn wf(self) -> bool {
        self.area_min <= self.area_max
    }

    pub fn center(&self) -> (c: u64)
        requires
            self.wf(),
        ensures
            c == self.spec_center(),
    {
        self.area_min + (self.area_max - self.area_min) / 2
    }
}

impl Default for RoomSpec {
    /// A modest unassigned room with no perimeter demand.
    fn default() -> (r: RoomSpec)
        ensures
            r == (RoomSpec { area_min: 8, area_max: 15, has_direct_access: false, room: None }),
    {
        RoomSpec { area_min: 8, area_max: 15, has_direct_access: false, room: None }
    }
}

/// The configuration of one subdivision round, together with the room
/// requirements attempted after the round has run.
#[derive(Debug, PartialEq)]
pub struct BuildingIterationParameters {
    /// Fewest children one split may produce this round.
    pub min_rooms_in_split: usize,
    /// Most children one split may produce this round.
    pub max_rooms_in_split: usize,
    /// Whether splits of this round leave a hallway gap and stamp hallway
    /// doors onto the new children.
    pub is_hallway: bool,
    /// How strongly aspect imbalance suppresses a split, in `PROB_SCALE`
    /// units.
    pub aspect_ratio_probability_factor: u64,
    /// The acceptance probability of a perfectly square split, in
    /// `PROB_SCALE` units.
    pub aspect_ratio_probability_offset: u64,
    /// The rooms to match against untouched leaves after this round.
    pub room_requirements: Vec<RoomSpec>,
}

/// The mathematical image of [`BuildingIterationParameters`].
pub struct ParamsModel {
    pub min_rooms: int,
    pub max_rooms: int,
    pub is_hallway: bool,
    pub aspect_factor: u64,
    pub aspect_offset: u64,
    pub reqs: Seq<RoomSpec>,
}

impl View for BuildingIterationParameters {
    type V = ParamsModel;

    open spec fn view(&self) -> ParamsModel {
        ParamsModel {
            min_rooms: self.min_rooms_in_split as int,
            max_rooms: self.max_rooms_in_split as int,
            is_hallway: self.is_hallway,
            aspect_factor: self.aspect_ratio_probability_factor,
            aspect_offset: self.aspect_ratio_probability_offset,
            reqs: self.room_requirements@,
        }
    }
}

impl ParamsModel {
    /// The bounds the subdivision arithmetic relies on: an ordered child
    /// count range under the split cap, and probability knobs under their
    /// arithmetic caps.
    pub open spec fn wf(self) -> bool {
        &&& 0 <= self.min_rooms <= self.max_rooms <= MAX_SPLIT as int
        &&& self.aspect_offset <= MAX_ASPECT_OFFSET
        &&& self.aspect_factor <= MAX_ASPECT_FACTOR
    }
}

} // verus!
