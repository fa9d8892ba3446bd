//! The generator's entry point.
//!
//! `generate_building` validates its inputs eagerly, sizes a bounding
//! rectangle from the requirements' target areas, seeds the tree with one
//! exterior door and one guaranteed hallway split, then runs each round:
//! the configured number of subdivision passes followed by one assignment
//! pass per room requirement. The finished plan carries the tree, the
//! bounds, and every requirement with its outcome.

use vstd::prelude::*;
use crate::rect::Rect;
use crate::rng::RandomSource;
use crate::params::{BuildingIterationParameters, ParamsModel, RoomSpec, AREA_LIMIT, MAX_SPLIT,
    MAX_ASPECT_FACTOR, MAX_ASPECT_OFFSET, PROB_SCALE};
use crate::tree::{BuildingChunk, ChunkModel, ChunkState, Doors, DoorsModel, DoorEnum};
use crate::subdivide::{spec_divide, spec_divide_evenly};
use crate::assign::spec_assign;

verus! {

/// A plan must ask for at least this much floor area; smaller requests are
/// rounded up to it.
pub const MINIMUM_BUILDING_SIZE: u64 = 300;

/// Smallest and largest per-mille breadth factor of the bounding rectangle
/// (the band around a square footprint the aspect is drawn from).
pub const BREADTH_LO: u64 = 555;

pub const BREADTH_HI: u64 = 831;

/// Smallest and largest per-mille scale factor applied to the bounding
/// rectangle.
pub const SCALE_LO: u64 = 1000;

pub const SCALE_HI: u64 = 2999;

/// One per-mille unit squared: the divisor that brings a breadth factor
/// times a scale factor back to plain units.
pub const PER_MILLE_SQ: u64 = 1000000;

/// Why `generate_building` refused its input. Every variant is decided
/// before any randomness is drawn.
#[derive(Clone, Copy, Debug, PartialEq, Eq, Structural)]
pub enum GenerationError {
    /// The round list was empty.
    EmptyRounds,
    /// Some round's child-count range is inverted or exceeds `MAX_SPLIT`.
    InvalidSplitRange,
    /// Some round's probability offset exceeds `MAX_ASPECT_OFFSET` or its
    /// suppression factor exceeds `MAX_ASPECT_FACTOR`.
    InvalidAspectParameters,
    /// Some requirement's area range is inverted.
    InvalidAreaRange,
    /// The summed target areas exceed `AREA_LIMIT`.
    PlanTooLarge,
}

/// The generator's output: the partition tree, the bounding rectangle, and
/// every requirement with its assignment outcome.
#[derive(Debug, PartialEq)]
pub struct BuildingPlan {
    /// The root of the partition tree; its rectangle equals `bounds`.
    pub root: BuildingChunk,
    /// The building's outer boundary.
    pub bounds: Rect,
    /// Every supplied requirement, in round order, each carrying the
    /// rectangle it claimed or `None` if it went unassigned.
    pub requirements: Vec<RoomSpec>,
}

/// The mathematical image of [`BuildingPlan`].
pub struct PlanModel {
    pub root: ChunkModel,
    pub bounds: Rect,
    pub requirements: Seq<RoomSpec>,
}

impl View for BuildingPlan {
    type V = PlanModel;

    open spec fn view(&self) -> PlanModel {
        PlanModel { root: self.root@, bounds: self.bounds, requirements: self.requirements@ }
    }
}

/// The requirements that found no room.
pub open spec fn spec_unassigned(s: Seq<RoomSpec>) -> Seq<RoomSpec>
    decreases s,
{
    if s.len() == 0 {
        Seq::empty()
    } else {
        let rest = spec_unassigned(s.subrange(1, s.len() as int));
        if s[0].room is None {
            seq![s[0]] + rest
        } else {
            rest
        }
    }
}

impl BuildingPlan {
    /// The requirements that found no room, in order: the plan's explicit
    /// unassigned list.
    pub fn unassigned(&self) -> (r: Vec<RoomSpec>)
        ensures
            r@ == spec_unassigned(self@.requirements),
    {
        let mut out: Vec<RoomSpec> = Vec::new();
        let mut i: usize = 0;
        let n = self.requirements.len();
        proof {
            assert(self.requirements@.subrange(0, n as int) =~= self.requirements@);
            assert(out@ + spec_unassigned(self.requirements@) =~= spec_unassigned(
                self.requirements@,
            ));
        }
        while i < n
            invariant
                i <= n,
                n == self.requirements@.len(),
                spec_unassigned(self.requirements@) == out@ + spec_unassigned(
                    self.requirements@.subrange(i as int, n as int),
                ),
            decreases n - i,
        {
            let ghost pre = self.requirements@.subrange(i as int, n as int);
            let req = self.requirements[i];
            proof {
                assert(pre[0] == self.requirements@[i as int]);
                assert(pre.subrange(1, pre.len() as int) =~= self.requirements@.subrange(
                    i + 1 as int,
                    n as int,
                ));
            }
            if req.room.is_none() {
                out.push(req);
                proof {
                    assert(out@.drop_last() + (seq![req] + spec_unassigned(
                        self.requirements@.subrange(i + 1 as int, n as int),
                    )) =~= out@ + spec_unassigned(
                        self.requirements@.subrange(i + 1 as int, n as int),
                    ));
                }
            }
            i = i + 1;
        }
        proof {
            assert(self.requirements@.subrange(i as int, n as int) =~= Seq::<RoomSpec>::empty());
            assert(out@ + Seq::<RoomSpec>::empty() =~= out@);
        }
        out
    }
}

/// `r` is the integer square root of `n`.
pub open spec fn is_isqrt(r: int, n: int) -> bool {
    0 <= r && r * r <= n < (r + 1) * (r + 1)
}

/// The integer square root of `n`.
pub open spec fn spec_isqrt(n: int) -> int {
    choose|r: int| is_isqrt(r, n)
}

/// Two integer square roots of the same number agree.
proof fn lemma_isqrt_unique(a: int, b: int, n: int)
    requires
        is_isqrt(a, n),
        is_isqrt(b, n),
    ensures
        a == b,
{
    if a < b {
        assert((a + 1) * (a + 1) <= b * b) by (nonlinear_arith)
            requires
                0 <= a,
                a + 1 <= b,
        ;
    }
    if b < a {
        assert((b + 1) * (b + 1) <= a * a) by (nonlinear_arith)
            requires
                0 <= b,
                b + 1 <= a,
        ;
    }
}

/// The integer square root, by bisection.
pub fn isqrt(n: u64) -> (r: u64)
    ensures
        r as int == spec_isqrt(n as int),
        is_isqrt(r as int, n as int),
{
    let mut lo: u64 = 0;
    let mut hi: u64 = 4294967296;
    proof {
        assert((hi as int) * (hi as int) > n as int) by (nonlinear_arith)
            requires
                hi as int == 0x100000000,
                (n as int) < 0x10000000000000000,
        ;
    }
    while lo + 1 < hi
        invariant
            lo < hi <= 4294967296,
            (lo as int) * (lo as int) <= n as int,
            (hi as int) * (hi as int) > n as int,
        decreases hi - lo,
    {
        let mid: u64 = lo + (hi - lo) / 2;
        proof {
            assert((mid as int) * (mid as int) < 0x10000000000000000) by (nonlinear_arith)
                requires
                    0 <= mid as int <= 0xFFFFFFFF,
            ;
        }
        if mid * mid <= n {
            lo = mid;
        } else {
            hi = mid;
        }
    }
    proof {
        assert(is_isqrt(lo as int, n as int));
        assert(exists|r: int| is_isqrt(r, n as int)) by {
            assert(is_isqrt(lo as int, n as int));
        }
        lemma_isqrt_unique(spec_isqrt(n as int), lo as int, n as int);
    }
    lo
}

/// A round's child-count range is ordered and capped.
pub open spec fn split_ok(p: ParamsModel) -> bool {
    0 <= p.min_rooms <= p.max_rooms <= MAX_SPLIT as int
}

/// A round's aspect-probability knobs are in range.
pub open spec fn aspect_ok(p: ParamsModel) -> bool {
    p.aspect_offset <= MAX_ASPECT_OFFSET && p.aspect_factor <= MAX_ASPECT_FACTOR
}

/// Every requirement of the round has an ordered area range.
pub open spec fn reqs_ok(p: ParamsModel) -> bool {
    forall|j: int| 0 <= j < p.reqs.len() ==> (#[trigger] p.reqs[j]).wf()
}

/// The exact sum of the requirements' target-area centers.
pub open spec fn spec_round_total(reqs: Seq<RoomSpec>) -> int
    decreases reqs,
{
    if reqs.len() == 0 {
        0
    } else {
        reqs[0].spec_center() + spec_round_total(reqs.subrange(1, reqs.len() as int))
    }
}

/// The exact sum of every round's requirement centers.
pub open spec fn spec_plan_total(iters: Seq<(BuildingIterationParameters, usize)>) -> int
    decreases iters,
{
    if iters.len() == 0 {
        0
    } else {
        spec_round_total(iters[0].0@.reqs) + spec_plan_total(
            iters.subrange(1, iters.len() as int),
        )
    }
}

/// Addition saturated just above `AREA_LIMIT`, so an oversized total is
/// detected without unbounded arithmetic.
pub open spec fn cap_add(acc: int, c: int) -> int {
    if acc + c > AREA_LIMIT + 1 {
        AREA_LIMIT + 1
    } else {
        acc + c
    }
}

/// The saturated sum of one round's requirement centers.
pub open spec fn spec_round_capped(reqs: Seq<RoomSpec>, acc: int) -> int
    decreases reqs,
{
    if reqs.len() == 0 {
        acc
    } else {
        spec_round_capped(reqs.subrange(1, reqs.len() as int), cap_add(acc, reqs[0].spec_center()))
    }
}

/// The saturated sum of every round's requirement centers.
pub open spec fn spec_plan_capped(iters: Seq<(BuildingIterationParameters, usize)>, acc: int) -> int
    decreases iters,
{
    if iters.len() == 0 {
        acc
    } else {
        spec_plan_capped(
            iters.subrange(1, iters.len() as int),
            spec_round_capped(iters[0].0@.reqs, acc),
        )
    }
}

/// A well-formed requirement's center is non-negative, so round totals only
/// grow.
pub proof fn lemma_round_total_nonneg(reqs: Seq<RoomSpec>)
    requires
        forall|j: int| 0 <= j < reqs.len() ==> (#[trigger] reqs[j]).wf(),
    ensures
        spec_round_total(reqs) >= 0,
    decreases reqs,
{
    if reqs.len() > 0 {
        let sub = reqs.subrange(1, reqs.len() as int);
        assert forall|j: int| 0 <= j < sub.len() implies (#[trigger] sub[j]).wf() by {
            assert(sub[j] == reqs[j + 1]);
        }
        lemma_round_total_nonneg(sub);
    }
}

/// The saturated round sum equals the exact round sum capped.
pub proof fn lemma_round_capped(reqs: Seq<RoomSpec>, acc: int)
    requires
        0 <= acc <= AREA_LIMIT + 1,
        forall|j: int| 0 <= j < reqs.len() ==> (#[trigger] reqs[j]).wf(),
    ensures
        spec_round_capped(reqs, acc) == if acc + spec_round_total(reqs) > AREA_LIMIT + 1 {
            AREA_LIMIT + 1
        } else {
            acc + spec_round_total(reqs)
        },
    decreases reqs,
{
    if reqs.len() > 0 {
        let sub = reqs.subrange(1, reqs.len() as int);
        assert forall|j: int| 0 <= j < sub.len() implies (#[trigger] sub[j]).wf() by {
            assert(sub[j] == reqs[j + 1]);
        }
        lemma_round_capped(sub, cap_add(acc, reqs[0].spec_center()));
        lemma_round_total_nonneg(sub);
    }
}

/// Every plan round has well-formed requirements.
pub open spec fn all_reqs_ok(iters: Seq<(BuildingIterationParameters, usize)>) -> bool {
    forall|i: int| 0 <= i < iters.len() ==> reqs_ok((#[trigger] iters[i]).0@)
}

/// One round's total never exceeds the plan total.
pub proof fn lemma_plan_total_nonneg(iters: Seq<(BuildingIterationParameters, usize)>)
    requires
        all_reqs_ok(iters),
    ensures
        spec_plan_total(iters) >= 0,
    decreases iters,
{
    if iters.len() > 0 {
        let sub = iters.subrange(1, iters.len() as int);
        assert forall|i: int| 0 <= i < sub.len() implies reqs_ok((#[trigger] sub[i]).0@) by {
            assert(sub[i] == iters[i + 1]);
        }
        lemma_plan_total_nonneg(sub);
        lemma_round_total_nonneg(iters[0].0@.reqs);
    }
}

/// The saturated plan sum equals the exact plan sum capped.
pub proof fn lemma_plan_capped(iters: Seq<(BuildingIterationParameters, usize)>, acc: int)
    requires
        0 <= acc <= AREA_LIMIT + 1,
        all_reqs_ok(iters),
    ensures
        spec_plan_capped(iters, acc) == if acc + spec_plan_total(iters) > AREA_LIMIT + 1 {
            AREA_LIMIT + 1
        } else {
            acc + spec_plan_total(iters)
        },
    decreases iters,
{
    if iters.len() > 0 {
        let sub = iters.subrange(1, iters.len() as int);
        assert forall|i: int| 0 <= i < sub.len() implies reqs_ok((#[trigger] sub[i]).0@) by {
            assert(sub[i] == iters[i + 1]);
        }
        let reqs = iters[0].0@.reqs;
        lemma_round_capped(reqs, acc);
        lemma_round_total_nonneg(reqs);
        lemma_plan_total_nonneg(sub);
        lemma_plan_capped(sub, spec_round_capped(reqs, acc));
    }
}

/// Each requirement's center is at most its round's total.
pub proof fn lemma_center_in_round(reqs: Seq<RoomSpec>, j: int)
    requires
        forall|l: int| 0 <= l < reqs.len() ==> (#[trigger] reqs[l]).wf(),
        0 <= j < reqs.len(),
    ensures
        reqs[j].spec_center() <= spec_round_total(reqs),
    decreases reqs,
{
    let sub = reqs.subrange(1, reqs.len() as int);
    assert forall|l: int| 0 <= l < sub.len() implies (#[trigger] sub[l]).wf() by {
        assert(sub[l] == reqs[l + 1]);
    }
    lemma_round_total_nonneg(sub);
    if j > 0 {
        assert(sub[j - 1] == reqs[j]);
        lemma_center_in_round(sub, j - 1);
    }
}

/// Each round's total is at most the plan's total.
pub proof fn lemma_round_in_plan(iters: Seq<(BuildingIterationParameters, usize)>, i: int)
    requires
        all_reqs_ok(iters),
        0 <= i < iters.len(),
    ensures
        spec_round_total(iters[i].0@.reqs) <= spec_plan_total(iters),
    decreases iters,
{
    let sub = iters.subrange(1, iters.len() as int);
    assert forall|l: int| 0 <= l < sub.len() implies reqs_ok((#[trigger] sub[l]).0@) by {
        assert(sub[l] == iters[l + 1]);
    }
    lemma_plan_total_nonneg(sub);
    lemma_round_total_nonneg(iters[0].0@.reqs);
    if i > 0 {
        assert(sub[i - 1] == iters[i]);
        lemma_round_in_plan(sub, i - 1);
    }
}

/// Why the input is refused, if it is: the checks run in a fixed order and
/// the first failing kind names the error.
pub open spec fn spec_validate(iters: Seq<(BuildingIterationParameters, usize)>) -> Option<
    GenerationError,
> {
    if iters.len() == 0 {
        Some(GenerationError::EmptyRounds)
    } else if exists|i: int| 0 <= i < iters.len() && !split_ok((#[trigger] iters[i]).0@) {
        Some(GenerationError::InvalidSplitRange)
    } else if exists|i: int| 0 <= i < iters.len() && !aspect_ok((#[trigger] iters[i]).0@) {
        Some(GenerationError::InvalidAspectParameters)
    } else if exists|i: int| 0 <= i < iters.len() && !reqs_ok((#[trigger] iters[i]).0@) {
        Some(GenerationError::InvalidAreaRange)
    } else if spec_plan_total(iters) > AREA_LIMIT as int {
        Some(GenerationError::PlanTooLarge)
    } else {
        None
    }
}

/// The saturated sum of one round's requirement centers, continued from
/// `acc`.
fn round_total_capped(p: &BuildingIterationParameters, acc: u64) -> (r: u64)
    requires
        acc <= AREA_LIMIT + 1,
        reqs_ok(p@),
    ensures
        r as int == spec_round_capped(p@.reqs, acc as int),
        r <= AREA_LIMIT + 1,
{
    let ghost acc0 = acc as int;
    let mut acc = acc;
    let mut j: usize = 0;
    let n = p.room_requirements.len();
    proof {
        assert(p@.reqs.subrange(0, n as int) =~= p@.reqs);
    }
    while j < n
        invariant
            j <= n,
            n == p@.reqs.len(),
            reqs_ok(p@),
            acc <= AREA_LIMIT + 1,
            spec_round_capped(p@.reqs, acc0) == spec_round_capped(
                p@.reqs.subrange(j as int, n as int),
                acc as int,
            ),
        decreases n - j,
    {
        let ghost pre = p@.reqs.subrange(j as int, n as int);
        proof {
            assert(pre[0] == p@.reqs[j as int]);
            assert(pre.subrange(1, pre.len() as int) =~= p@.reqs.subrange(j + 1 as int, n as int));
            assert(p@.reqs[j as int].wf());
        }
        let req = p.room_requirements[j];
        let c = req.center();
        acc = if c > (AREA_LIMIT + 1) - acc {
            AREA_LIMIT + 1
        } else {
            acc + c
        };
        j = j + 1;
    }
    proof {
        assert(p@.reqs.subrange(n as int, n as int) =~= Seq::<RoomSpec>::empty());
    }
    acc
}

/// The saturated sum of every round's requirement centers.
fn plan_total_capped(iters: &Vec<(BuildingIterationParameters, usize)>) -> (r: u64)
    requires
        all_reqs_ok(iters@),
    ensures
        r as int == spec_plan_capped(iters@, 0),
        r <= AREA_LIMIT + 1,
{
    let mut acc: u64 = 0;
    let mut i: usize = 0;
    let n = iters.len();
    proof {
        assert(iters@.subrange(0, n as int) =~= iters@);
    }
    while i < n
        invariant
            i <= n,
            n == iters@.len(),
            all_reqs_ok(iters@),
            acc <= AREA_LIMIT + 1,
            spec_plan_capped(iters@, 0) == spec_plan_capped(
                iters@.subrange(i as int, n as int),
                acc as int,
            ),
        decreases n - i,
    {
        let ghost pre = iters@.subrange(i as int, n as int);
        proof {
            assert(pre[0] == iters@[i as int]);
            assert(pre.subrange(1, pre.len() as int) =~= iters@.subrange(i + 1 as int, n as int));
            assert(reqs_ok(iters@[i as int].0@));
        }
        acc = round_total_capped(&iters[i].0, acc);
        i = i + 1;
    }
    proof {
        assert(iters@.subrange(n as int, n as int) =~= Seq::<(BuildingIterationParameters,
            usize)>::empty());
    }
    acc
}

/// Check the plan input, returning the error [`spec_validate`] names, if any.
fn validate(iters: &Vec<(BuildingIterationParameters, usize)>) -> (r: Option<GenerationError>)
    ensures
        r == spec_validate(iters@),
{
    let n = iters.len();
    if n == 0 {
        return Some(GenerationError::EmptyRounds);
    }
    let mut i: usize = 0;
    while i < n
        invariant
            i <= n,
            n == iters@.len(),
            forall|j: int| 0 <= j < i ==> split_ok((#[trigger] iters@[j]).0@),
        decreases n - i,
    {
        let p = &iters[i].0;
        if !(p.min_rooms_in_split <= p.max_rooms_in_split && p.max_rooms_in_split <= MAX_SPLIT) {
            return Some(GenerationError::InvalidSplitRange);
        }
        i = i + 1;
    }
    let mut i: usize = 0;
    while i < n
        invariant
            i <= n,
            n == iters@.len(),
            forall|j: int| 0 <= j < n ==> split_ok((#[trigger] iters@[j]).0@),
            forall|j: int| 0 <= j < i ==> aspect_ok((#[trigger] iters@[j]).0@),
        decreases n - i,
    {
        let p = &iters[i].0;
        if !(p.aspect_ratio_probability_offset <= MAX_ASPECT_OFFSET
            && p.aspect_ratio_probability_factor <= MAX_ASPECT_FACTOR) {
            return Some(GenerationError::InvalidAspectParameters);
        }
        i = i + 1;
    }
    let mut i: usize = 0;
    while i < n
        invariant
            i <= n,
            n == iters@.len(),
            forall|j: int| 0 <= j < n ==> split_ok((#[trigger] iters@[j]).0@),
            forall|j: int| 0 <= j < n ==> aspect_ok((#[trigger] iters@[j]).0@),
            forall|j: int| 0 <= j < i ==> reqs_ok((#[trigger] iters@[j]).0@),
        decreases n - i,
    {
        let p = &iters[i].0;
        let m = p.room_requirements.len();
        let mut q: usize = 0;
        while q < m
            invariant
                q <= m,
                i < n,
                n == iters@.len(),
                p@ == iters@[i as int].0@,
                m == p@.reqs.len(),
                forall|j: int| 0 <= j < n ==> split_ok((#[trigger] iters@[j]).0@),
                forall|j: int| 0 <= j < n ==> aspect_ok((#[trigger] iters@[j]).0@),
                forall|l: int| 0 <= l < q ==> (#[trigger] p@.reqs[l]).wf(),
            decreases m - q,
        {
            let req = &p.room_requirements[q];
            if !(req.area_min <= req.area_max) {
                proof {
                    assert(!(p@.reqs[q as int].wf()));
                    assert(!reqs_ok(iters@[i as int].0@));
                }
                return Some(GenerationError::InvalidAreaRange);
            }
            q = q + 1;
        }
        proof {
            assert(reqs_ok(iters@[i as int].0@));
        }
        i = i + 1;
    }
    let total = plan_total_capped(iters);
    proof {
        lemma_plan_capped(iters@, 0);
    }
    if total > AREA_LIMIT {
        return Some(GenerationError::PlanTooLarge);
    }
    None
}

/// The plan's target floor area: the summed requirement centers, floored at
/// `MINIMUM_BUILDING_SIZE`.
pub open spec fn spec_area_target(iters: Seq<(BuildingIterationParameters, usize)>) -> int {
    let t = spec_plan_total(iters);
    if t < MINIMUM_BUILDING_SIZE as int {
        MINIMUM_BUILDING_SIZE as int
    } else {
        t
    }
}

/// The root node as it stands before the guaranteed first split: untouched,
/// with one exterior door on the north wall, occupying a bounding rectangle
/// whose side is the square root of the target area stretched by one random
/// breadth factor per axis and one random scale.
pub open spec fn spec_initial_seed(
    iters: Seq<(BuildingIterationParameters, usize)>,
    rs: RandomSource,
) -> ChunkModel {
    let side = spec_isqrt(spec_area_target(iters));
    let (wfac, rs1) = rs.spec_next_in_range(BREADTH_LO, BREADTH_HI);
    let (hfac, rs2) = rs1.spec_next_in_range(BREADTH_LO, BREADTH_HI);
    let (sfac, rs3) = rs2.spec_next_in_range(SCALE_LO, SCALE_HI);
    let w = side * (wfac as int) * (sfac as int) / (PER_MILLE_SQ as int);
    let h = side * (hfac as int) * (sfac as int) / (PER_MILLE_SQ as int);
    ChunkModel {
        rect: Rect { min_x: 0, min_y: 0, max_x: w as u64, max_y: h as u64 },
        state: ChunkState::Untouched,
        doors: DoorsModel {
            north: seq![DoorEnum::Exterior],
            east: Seq::empty(),
            south: Seq::empty(),
            west: Seq::empty(),
        },
        horizontal: false,
    }
}

/// The seeded root of a plan: the seed node after the one guaranteed hallway
/// split across the building.
pub open spec fn spec_initial(iters: Seq<(BuildingIterationParameters, usize)>, rs: RandomSource) -> (ChunkModel, RandomSource) {
    spec_divide_evenly(
        spec_initial_seed(iters, rs),
        2,
        true,
        0,
        PROB_SCALE,
        false,
        spec_initial_rs3(iters, rs),
    )
}

/// `n` subdivision rounds applied in sequence.
pub open spec fn spec_divide_n(c: ChunkModel, p: ParamsModel, n: int, rs: RandomSource) -> (
    ChunkModel,
    RandomSource,
)
    decreases n,
{
    if n <= 0 {
        (c, rs)
    } else {
        let d = spec_divide(c, p, rs);
        spec_divide_n(d.0, p, n - 1, d.1)
    }
}

/// One assignment pass: each requirement in order attempts to claim a leaf
/// (one already holding a room is carried through untouched), and each comes
/// back with its outcome recorded.
pub open spec fn spec_assign_pass(c: ChunkModel, reqs: Seq<RoomSpec>, bounds: Rect, rs: RandomSource) -> (ChunkModel, Seq<RoomSpec>, RandomSource)
    decreases reqs,
{
    if reqs.len() == 0 {
        (c, Seq::empty(), rs)
    } else {
        let req = reqs[0];
        if req.room is Some {
            let t = spec_assign_pass(c, reqs.subrange(1, reqs.len() as int), bounds, rs);
            (t.0, seq![req] + t.1, t.2)
        } else {
            let a = spec_assign(c, req, bounds, rs);
            let done = RoomSpec {
                area_min: req.area_min,
                area_max: req.area_max,
                has_direct_access: req.has_direct_access,
                room: a.1,
            };
            let t = spec_assign_pass(a.0, reqs.subrange(1, reqs.len() as int), bounds, a.2);
            (t.0, seq![done] + t.1, t.2)
        }
    }
}

/// The full round schedule: for each entry, the configured number of
/// subdivision passes, then one assignment pass over its requirements.
pub open spec fn spec_run_rounds(
    c: ChunkModel,
    iters: Seq<(BuildingIterationParameters, usize)>,
    bounds: Rect,
    rs: RandomSource,
) -> (ChunkModel, Seq<RoomSpec>, RandomSource)
    decreases iters,
{
    if iters.len() == 0 {
        (c, Seq::empty(), rs)
    } else {
        let d = spec_divide_n(c, iters[0].0@, iters[0].1 as int, rs);
        let a = spec_assign_pass(d.0, iters[0].0@.reqs, bounds, d.1);
        let t = spec_run_rounds(a.0, iters.subrange(1, iters.len() as int), bounds, a.2);
        (t.0, a.1 + t.1, t.2)
    }
}

/// Everything `generate_building` does: eager validation, then the seeded
/// root and the round schedule.
pub open spec fn spec_generate(iters: Seq<(BuildingIterationParameters, usize)>, rs: RandomSource) -> (Result<PlanModel, GenerationError>, RandomSource) {
    match spec_validate(iters) {
        Some(e) => (Err(e), rs),
        None => {
            let (root0, rs1) = spec_initial(iters, rs);
            let bounds = root0.rect;
            let r = spec_run_rounds(root0, iters, bounds, rs1);
            (Ok(PlanModel { root: r.0, bounds, requirements: r.1 }), r.2)
        },
    }
}

/// Generate one building plan from the round schedule, drawing every random
/// decision from `rng`.
///
/// The input is rejected, before any randomness is drawn, exactly when
/// [`spec_validate`] names an error; otherwise the result is exactly
/// [`spec_generate`] of the inputs, so two calls with equal inputs and equal
/// sources return equal plans.
pub fn generate_building(
    room_iters: Vec<(BuildingIterationParameters, usize)>,
    rng: &mut RandomSource,
) -> (r: Result<BuildingPlan, GenerationError>)
    ensures
        *final(rng) == spec_generate(room_iters@, *old(rng)).1,
        r is Ok <==> spec_generate(room_iters@, *old(rng)).0 is Ok,
        r is Ok ==> (r->Ok_0)@ == spec_generate(room_iters@, *old(rng)).0->Ok_0,
        r is Err <==> spec_validate(room_iters@) is Some,
        r is Err ==> r->Err_0 == spec_validate(room_iters@)->Some_0,
        r is Ok ==> (r->Ok_0)@.root.wf() && (r->Ok_0)@.root.rect == (r->Ok_0)@.bounds,
{
    let ghost iters = room_iters@;
    let ghost rs0 = *rng;
    if let Some(e) = validate(&room_iters) {
        return Err(e);
    }
    let total_capped = plan_total_capped(&room_iters);
    proof {
        lemma_plan_capped(iters, 0);
        lemma_plan_total_nonneg(iters);
        assert(total_capped as int == spec_plan_total(iters));
    }
    let area: u64 = if total_capped < MINIMUM_BUILDING_SIZE {
        MINIMUM_BUILDING_SIZE
    } else {
        total_capped
    };
    let side = isqrt(area);
    proof {
        assert(side <= 0x4000000) by (nonlinear_arith)
            requires
                is_isqrt(side as int, area as int),
                area as int <= AREA_LIMIT as int,
                AREA_LIMIT as int == 0x10000000000000,
        ;
    }
    let wfac = rng.next_in_range(BREADTH_LO, BREADTH_HI);
    let hfac = rng.next_in_range(BREADTH_LO, BREADTH_HI);
    let sfac = rng.next_in_range(SCALE_LO, SCALE_HI);
    proof {
        assert((side as int) * (wfac as int) * (sfac as int) <= 0x4000000 * 831 * 2999)
            by (nonlinear_arith)
            requires
                0 <= side as int <= 0x4000000,
                0 <= wfac as int <= 831,
                0 <= sfac as int <= 2999,
        ;
        assert((side as int) * (hfac as int) * (sfac as int) <= 0x4000000 * 831 * 2999)
            by (nonlinear_arith)
            requires
                0 <= side as int <= 0x4000000,
                0 <= hfac as int <= 831,
                0 <= sfac as int <= 2999,
        ;
        assert(0 <= (side as int) * (wfac as int) * (sfac as int)) by (nonlinear_arith)
            requires
                0 <= side as int,
                0 <= wfac as int,
                0 <= sfac as int,
        ;
        assert(0 <= (side as int) * (hfac as int) * (sfac as int)) by (nonlinear_arith)
            requires
                0 <= side as int,
                0 <= hfac as int,
                0 <= sfac as int,
        ;
        assert(0 <= (side as int) * (wfac as int) <= 0x4000000 * 831) by (nonlinear_arith)
            requires
                0 <= side as int <= 0x4000000,
                0 <= wfac as int <= 831,
        ;
        assert(0 <= (side as int) * (hfac as int) <= 0x4000000 * 831) by (nonlinear_arith)
            requires
                0 <= side as int <= 0x4000000,
                0 <= hfac as int <= 831,
        ;
        vstd::arithmetic::div_mod::lemma_div_is_ordered(
            (side as int) * (wfac as int) * (sfac as int),
            0x4000000int * 831 * 2999,
            PER_MILLE_SQ as int,
        );
        vstd::arithmetic::div_mod::lemma_div_is_ordered(
            (side as int) * (hfac as int) * (sfac as int),
            0x4000000int * 831 * 2999,
            PER_MILLE_SQ as int,
        );
        vstd::arithmetic::div_mod::lemma_div_pos_is_pos(
            (side as int) * (wfac as int) * (sfac as int),
            PER_MILLE_SQ as int,
        );
        vstd::arithmetic::div_mod::lemma_div_pos_is_pos(
            (side as int) * (hfac as int) * (sfac as int),
            PER_MILLE_SQ as int,
        );
    }
    let w = side * wfac * sfac / PER_MILLE_SQ;
    let h = side * hfac * sfac / PER_MILLE_SQ;
    let bounds = Rect { min_x: 0, min_y: 0, max_x: w, max_y: h };
    proof {
        assert(bounds.wf());
    }
    let mut doors_root = Doors::empty();
    doors_root.north.push(DoorEnum::Exterior);
    let mut root = BuildingChunk {
        rect: bounds,
        divided_chunks: None,
        doors: doors_root,
        horizontal: false,
    };
    let ghost root_seed = root@;
    proof {
        assert(root_seed.doors.north =~= seq![DoorEnum::Exterior]);
        assert(root_seed.doors == (DoorsModel {
            north: seq![DoorEnum::Exterior],
            east: Seq::<DoorEnum>::empty(),
            south: Seq::<DoorEnum>::empty(),
            west: Seq::<DoorEnum>::empty(),
        }));
        assert(root_seed.wf());
    }
    root.divide_evenly(2, true, 0, PROB_SCALE, false, rng);
    proof {
        assert((root@, *rng) == spec_initial(iters, rs0));
        crate::laws::lemma_divide_evenly_wf(root_seed, 2, true, 0, PROB_SCALE, false,
            spec_initial_rs3(iters, rs0));
        assert(root@.wf());
        assert(root@.rect == bounds);
    }
    let ghost g_root1 = root@;
    let ghost g_rs1 = *rng;
    let mut reqs_out: Vec<RoomSpec> = Vec::new();
    let mut i: usize = 0;
    let n = room_iters.len();
    proof {
        assert(iters.subrange(0, n as int) =~= iters);
        assert(reqs_out@ + spec_run_rounds(root@, iters, bounds, *rng).1 =~= spec_run_rounds(
            root@,
            iters,
            bounds,
            *rng,
        ).1);
    }
    while i < n
        invariant
            i <= n,
            n == iters.len(),
            room_iters@ == iters,
            root@.wf(),
            spec_validate(iters) is None,
            bounds.wf(),
            spec_run_rounds(g_root1, iters, bounds, g_rs1).0 == spec_run_rounds(
                root@,
                iters.subrange(i as int, n as int),
                bounds,
                *rng,
            ).0,
            spec_run_rounds(g_root1, iters, bounds, g_rs1).1 == reqs_out@ + spec_run_rounds(
                root@,
                iters.subrange(i as int, n as int),
                bounds,
                *rng,
            ).1,
            spec_run_rounds(g_root1, iters, bounds, g_rs1).2 == spec_run_rounds(
                root@,
                iters.subrange(i as int, n as int),
                bounds,
                *rng,
            ).2,
        decreases n - i,
    {
        let ghost pre = iters.subrange(i as int, n as int);
        proof {
            assert(pre[0] == iters[i as int]);
            assert(pre.subrange(1, pre.len() as int) =~= iters.subrange(i + 1 as int, n as int));
            assert(split_ok(iters[i as int].0@) && aspect_ok(iters[i as int].0@) && reqs_ok(
                iters[i as int].0@,
            ));
        }
        let p = &room_iters[i].0;
        let reps = room_iters[i].1;
        let ghost g_div0 = root@;
        let ghost g_rsd = *rng;
        let mut j: usize = 0;
        while j < reps
            invariant
                j <= reps,
                root@.wf(),
                p@.wf(),
                spec_divide_n(g_div0, p@, reps as int, g_rsd).0 == spec_divide_n(
                    root@,
                    p@,
                    (reps - j) as int,
                    *rng,
                ).0,
                spec_divide_n(g_div0, p@, reps as int, g_rsd).1 == spec_divide_n(
                    root@,
                    p@,
                    (reps - j) as int,
                    *rng,
                ).1,
            decreases reps - j,
        {
            let ghost before = root@;
            let ghost rs_before = *rng;
            root = root.divide(p, rng);
            proof {
                crate::laws::lemma_divide_wf(before, p@, rs_before);
                assert(spec_divide_n(before, p@, (reps - j) as int, rs_before)
                    == spec_divide_n(root@, p@, (reps - j - 1) as int, *rng));
            }
            j = j + 1;
        }
        let ghost g_as0 = root@;
        let ghost g_rsa = *rng;
        let mut round_out: Vec<RoomSpec> = Vec::new();
        let mut q: usize = 0;
        let m = p.room_requirements.len();
        proof {
            assert(p@.reqs.subrange(0, m as int) =~= p@.reqs);
            assert(round_out@ + spec_assign_pass(root@, p@.reqs, bounds, *rng).1
                =~= spec_assign_pass(root@, p@.reqs, bounds, *rng).1);
        }
        while q < m
            invariant
                q <= m,
                i < n,
                n == iters.len(),
                m == p@.reqs.len(),
                p@ == iters[i as int].0@,
                root@.wf(),
                bounds.wf(),
                spec_validate(iters) is None,
                spec_assign_pass(g_as0, p@.reqs, bounds, g_rsa).0 == spec_assign_pass(
                    root@,
                    p@.reqs.subrange(q as int, m as int),
                    bounds,
                    *rng,
                ).0,
                spec_assign_pass(g_as0, p@.reqs, bounds, g_rsa).1 == round_out@
                    + spec_assign_pass(
                    root@,
                    p@.reqs.subrange(q as int, m as int),
                    bounds,
                    *rng,
                ).1,
                spec_assign_pass(g_as0, p@.reqs, bounds, g_rsa).2 == spec_assign_pass(
                    root@,
                    p@.reqs.subrange(q as int, m as int),
                    bounds,
                    *rng,
                ).2,
            decreases m - q,
        {
            let ghost rpre = p@.reqs.subrange(q as int, m as int);
            proof {
                assert(rpre[0] == p@.reqs[q as int]);
                assert(rpre.subrange(1, rpre.len() as int) =~= p@.reqs.subrange(
                    q + 1 as int,
                    m as int,
                ));
                assert(reqs_ok(iters[i as int].0@));
                assert(p@.reqs[q as int].wf());
            }
            let req = p.room_requirements[q];
            if req.room.is_none() {
                proof {
                    lemma_center_in_round(p@.reqs, q as int);
                    lemma_round_in_plan(iters, i as int);
                    assert(req.spec_center() <= AREA_LIMIT);
                }
                let ghost before = root@;
                let ghost rs_before = *rng;
                let (new_root, assigned) = root.assign_requirement(&req, &bounds, rng);
                root = new_root;
                round_out.push(
                    RoomSpec {
                        area_min: req.area_min,
                        area_max: req.area_max,
                        has_direct_access: req.has_direct_access,
                        room: assigned,
                    },
                );
                proof {
                    crate::laws::lemma_assign_wf(before, req, bounds, rs_before);
                    assert(round_out@.drop_last() + (seq![round_out@.last()] + spec_assign_pass(
                        root@,
                        p@.reqs.subrange(q + 1 as int, m as int),
                        bounds,
                        *rng,
                    ).1) =~= round_out@ + spec_assign_pass(
                        root@,
                        p@.reqs.subrange(q + 1 as int, m as int),
                        bounds,
                        *rng,
                    ).1);
                }
            } else {
                round_out.push(req);
                proof {
                    assert(round_out@.drop_last() + (seq![round_out@.last()] + spec_assign_pass(
                        root@,
                        p@.reqs.subrange(q + 1 as int, m as int),
                        bounds,
                        *rng,
                    ).1) =~= round_out@ + spec_assign_pass(
                        root@,
                        p@.reqs.subrange(q + 1 as int, m as int),
                        bounds,
                        *rng,
                    ).1);
                }
            }
            q = q + 1;
        }
        proof {
            assert(p@.reqs.subrange(m as int, m as int) =~= Seq::<RoomSpec>::empty());
            assert(round_out@ + Seq::<RoomSpec>::empty() =~= round_out@);
        }
        let ghost gro = round_out@;
        let ghost g_out_before = reqs_out@;
        let mut round_out = round_out;
        reqs_out.append(&mut round_out);
        proof {
            assert(reqs_out@ =~= g_out_before + gro);
            let t = spec_run_rounds(root@, iters.subrange(i + 1 as int, n as int), bounds, *rng);
            assert(g_out_before + (gro + t.1) =~= (g_out_before + gro) + t.1);
        }
        i = i + 1;
    }
    proof {
        assert(iters.subrange(n as int, n as int) =~= Seq::<(BuildingIterationParameters,
            usize)>::empty());
        assert(reqs_out@ + Seq::<RoomSpec>::empty() =~= reqs_out@);
    }
    proof {
        crate::laws::lemma_run_rounds_wf(g_root1, iters, bounds, g_rs1);
    }
    let plan = BuildingPlan { root, bounds, requirements: reqs_out };
    Ok(plan)
}

/// The random source as it stands after the three bounding-rectangle draws,
/// when the initial split's coin is flipped.
pub open spec fn spec_initial_rs3(iters: Seq<(BuildingIterationParameters, usize)>, rs: RandomSource) -> RandomSource {
    let (wfac, rs1) = rs.spec_next_in_range(BREADTH_LO, BREADTH_HI);
    let (hfac, rs2) = rs1.spec_next_in_range(BREADTH_LO, BREADTH_HI);
    let (sfac, rs3) = rs2.spec_next_in_range(SCALE_LO, SCALE_HI);
    rs3
}

} // verus!
