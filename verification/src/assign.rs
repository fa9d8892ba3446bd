//! Room assignment.
//!
//! After a subdivision round, each pending requirement is matched against the
//! untouched leaves: a leaf is a candidate when its area lies inside the
//! requirement's range and, for a perimeter-demanding requirement, its
//! rectangle reaches the boundary of the building bounds. Each candidate is
//! accepted independently by a weighted coin that favours candidates near the
//! requirement's target area; every accepted leaf becomes a room, and the
//! requirement keeps the rectangle of the last acceptance.

use vstd::prelude::*;
use crate::rect::Rect;
use crate::rng::RandomSource;
use crate::params::{RoomSpec, AREA_LIMIT};
use crate::tree::{BuildingChunk, BuildingChunkData, ChunkModel, ChunkState, models_of,
    lemma_models_of};

verus! {

/// Whether an untouched leaf with this rectangle is a candidate for the
/// requirement: area inside the inclusive range, and — when perimeter
/// access is demanded — touching the boundary of the building bounds.
/// Every leaf lies inside the bounds, so the perimeter test must ask for
/// boundary contact, not mere intersection: a strictly interior leaf is no
/// candidate for a room that needs an exterior wall.
pub open spec fn spec_candidate(rect: Rect, req: RoomSpec, bounds: Rect) -> bool {
    &&& req.area_min <= rect.spec_area() <= req.area_max
    &&& req.has_direct_access ==> rect.spec_touches_boundary(bounds)
}

/// What one requirement pass does to a node, returning the node, the
/// rectangle of the last accepted leaf (if any), and the advanced source.
/// An untouched candidate leaf flips one coin with probability
/// `center / (center + area)`; a degenerate candidate where that fraction is
/// zero over zero is rejected without a draw. Parents fold over their
/// children left to right, a later acceptance overriding an earlier one; a
/// tagged room is never considered again.
pub open spec fn spec_assign(c: ChunkModel, req: RoomSpec, bounds: Rect, rs: RandomSource) -> (
    ChunkModel,
    Option<Rect>,
    RandomSource,
)
    decreases c, 0nat,
{
    match c.state {
        ChunkState::Untouched => {
            if spec_candidate(c.rect, req, bounds) {
                let den = req.spec_center() + c.rect.spec_area();
                if den == 0 {
                    (c, None::<Rect>, rs)
                } else {
                    let (accepted, rs2) = rs.spec_coin(req.spec_center() as u64, den as u64);
                    if accepted {
                        (
                            ChunkModel {
                                rect: c.rect,
                                state: ChunkState::Tagged,
                                doors: c.doors,
                                horizontal: c.horizontal,
                            },
                            Some(c.rect),
                            rs2,
                        )
                    } else {
                        (c, None::<Rect>, rs2)
                    }
                }
            } else {
                (c, None::<Rect>, rs)
            }
        },
        ChunkState::Tagged => (c, None::<Rect>, rs),
        ChunkState::Parent(cs, hall) => {
            let r = spec_assign_seq(cs, req, bounds, rs);
            (
                ChunkModel {
                    rect: c.rect,
                    state: ChunkState::Parent(r.0, hall),
                    doors: c.doors,
                    horizontal: c.horizontal,
                },
                r.1,
                r.2,
            )
        },
    }
}

/// One requirement pass over a sequence of siblings, left to right; the
/// rightmost acceptance wins.
pub open spec fn spec_assign_seq(s: Seq<ChunkModel>, req: RoomSpec, bounds: Rect, rs: RandomSource) -> (Seq<ChunkModel>, Option<Rect>, RandomSource)
    decreases s, s.len(),
{
    if s.len() == 0 {
        (s, None::<Rect>, rs)
    } else {
        let h = spec_assign(s[0], req, bounds, rs);
        let t = spec_assign_seq(s.subrange(1, s.len() as int), req, bounds, h.2);
        (
            seq![h.0] + t.0,
            if t.1 is Some {
                t.1
            } else {
                h.1
            },
            t.2,
        )
    }
}

impl BuildingChunk {
    /// Attempt to claim one untouched leaf for `req`, walking the whole
    /// subtree; every candidate leaf is weighed independently, each accepted
    /// leaf becomes a room, and the rectangle of the last acceptance is
    /// returned. The result is exactly [`spec_assign`] of the starting state.
    pub fn assign_requirement(self, req: &RoomSpec, bounds: &Rect, rng: &mut RandomSource) -> (res: (BuildingChunk, Option<Rect>))
        requires
            self@.wf(),
            req.wf(),
            req.spec_center() <= AREA_LIMIT,
        ensures
            (res.0@, res.1, *final(rng)) == spec_assign(self@, *req, *bounds, *old(rng)),
        decreases self, 0nat,
    {
        let ghost m = self@;
        let ghost rs0 = *rng;
        let BuildingChunk { rect, divided_chunks, doors, horizontal } = self;
        match divided_chunks {
            None => {
                let node = BuildingChunk { rect, divided_chunks: None, doors, horizontal };
                proof {
                    assert(node@ == m);
                    crate::rect::lemma_area_bounded(rect);
                }
                let area = node.rect.area();
                let center = req.center();
                let candidate = req.area_min <= area && area <= req.area_max && (
                !req.has_direct_access || node.rect.touches_boundary(bounds));
                if !candidate {
                    return (node, None);
                }
                if center == 0 && area == 0 {
                    return (node, None);
                }
                let accepted = rng.coin(center, center + area);
                if accepted {
                    let room = BuildingChunk {
                        rect,
                        divided_chunks: Some(BuildingChunkData::Tagged),
                        doors: node.doors,
                        horizontal,
                    };
                    proof {
                        assert(room@ == spec_assign(m, *req, *bounds, rs0).0);
                    }
                    (room, Some(rect))
                } else {
                    (node, None)
                }
            },
            Some(BuildingChunkData::Tagged) => {
                let node = BuildingChunk {
                    rect,
                    divided_chunks: Some(BuildingChunkData::Tagged),
                    doors,
                    horizontal,
                };
                proof {
                    assert(node@ == m);
                }
                (node, None)
            },
            Some(BuildingChunkData::Parent(children, hall)) => {
                let ghost gchildren = children@;
                proof {
                    lemma_models_of(gchildren);
                    assert(m.children() == models_of(gchildren));
                    assert forall|j: int| 0 <= j < gchildren.len() implies (
                    #[trigger] gchildren[j])@.wf() by {
                        assert(m.children()[j] == gchildren[j]@);
                        assert(m.children()[j].wf());
                    }
                }
                let (new_children, assigned) = assign_vec(children, req, bounds, rng);
                let node = BuildingChunk {
                    rect,
                    divided_chunks: Some(BuildingChunkData::Parent(new_children, hall)),
                    doors,
                    horizontal,
                };
                proof {
                    assert(node@.children() == models_of(node.divided_chunks->Some_0->Parent_0@));
                    assert(node@ == spec_assign(m, *req, *bounds, rs0).0);
                }
                (node, assigned)
            },
        }
    }
}

/// One requirement pass over every chunk of a vector, left to right.
fn assign_vec(v: Vec<BuildingChunk>, req: &RoomSpec, bounds: &Rect, rng: &mut RandomSource) -> (res: (Vec<BuildingChunk>, Option<Rect>))
    requires
        forall|j: int| 0 <= j < v@.len() ==> (#[trigger] v@[j])@.wf(),
        req.wf(),
        req.spec_center() <= AREA_LIMIT,
    ensures
        (models_of(res.0@), res.1, *final(rng)) == spec_assign_seq(
            models_of(v@),
            *req,
            *bounds,
            *old(rng),
        ),
    decreases v@, 0nat,
{
    let ghost gv = v@;
    let ghost rs0 = *rng;
    let mut v = v;
    if v.len() == 0 {
        proof {
            assert(models_of(gv).len() == 0);
        }
        return (v, None);
    }
    let head = v.remove(0);
    let ghost gtail = v@;
    proof {
        lemma_models_of(gv);
        lemma_models_of(gtail);
        assert(head@.wf());
        assert forall|j: int| 0 <= j < gtail.len() implies (#[trigger] gtail[j])@.wf() by {
            assert(gtail[j] == gv[j + 1]);
        }
        assert forall|j: int| 0 <= j < gtail.len() implies models_of(gv).subrange(
            1,
            models_of(gv).len() as int,
        )[j] == models_of(gtail)[j] by {
            assert(models_of(gv)[j + 1] == gv[j + 1]@);
            assert(gv[j + 1] == gtail[j]);
        }
        assert(models_of(gv).subrange(1, models_of(gv).len() as int) =~= models_of(gtail));
        assert(models_of(gv)[0] == head@);
    }
    let (head2, head_assigned) = head.assign_requirement(req, bounds, rng);
    let (tail2, tail_assigned) = assign_vec(v, req, bounds, rng);
    let mut out: Vec<BuildingChunk> = Vec::new();
    out.push(head2);
    let ghost ghead2 = out@;
    let ghost gtail2 = tail2@;
    let mut tail2 = tail2;
    out.append(&mut tail2);
    let assigned = if tail_assigned.is_some() {
        tail_assigned
    } else {
        head_assigned
    };
    proof {
        assert(out@ =~= ghead2 + gtail2);
        lemma_models_of(out@);
        lemma_models_of(gtail2);
        let s = models_of(gv);
        let h = spec_assign(s[0], *req, *bounds, rs0);
        let t = spec_assign_seq(s.subrange(1, s.len() as int), *req, *bounds, h.2);
        assert forall|j: int| 0 <= j < out@.len() implies models_of(out@)[j] == (seq![h.0]
            + t.0)[j] by {
            assert(models_of(out@)[j] == out@[j]@);
            if j == 0 {
                assert(out@[0] == ghead2[0]);
            } else {
                assert(out@[j] == gtail2[j - 1]);
                assert(models_of(gtail2)[j - 1] == gtail2[j - 1]@);
            }
        }
        assert(models_of(out@) =~= seq![h.0] + t.0);
    }
    (out, assigned)
}

} // verus!
