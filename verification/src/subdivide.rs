//! The subdivision engine.
//!
//! One round of growth: an untouched node may split evenly into `k` children
//! along its pending orientation, a parent forwards the round to every child,
//! and a tagged room is terminal. A split is accepted with a probability
//! that favours near-square children and is rejected outright when a child
//! would fall below the minimum room dimension.

use vstd::prelude::*;
use crate::rect::Rect;
use crate::rng::RandomSource;
use crate::params::{BuildingIterationParameters, ParamsModel, MAX_SPLIT, MAX_ASPECT_FACTOR,
    MAX_ASPECT_OFFSET, PROB_SCALE};
use crate::tree::{BuildingChunk, BuildingChunkData, ChunkModel, ChunkState, Doors, DoorsModel,
    DoorEnum, HALL_WIDTH, models_of, lemma_models_of};
use vstd::arithmetic::div_mod::lemma_fundamental_div_mod;

verus! {

/// No split may produce a child whose width or height is at or below this.
pub const MIN_ROOM_DIM: u64 = 5;

/// The size of one child along the split axis: the axis length, less the
/// hallway gaps, divided evenly; zero when the gaps alone exceed the axis.
pub open spec fn spec_child_size(rect: Rect, k: int, gap: int, hor: bool) -> int {
    let dim = if hor {
        rect.spec_height()
    } else {
        rect.spec_width()
    };
    let gaps = gap * (k - 1);
    if dim >= gaps {
        (dim - gaps) / k
    } else {
        0
    }
}

/// The acceptance denominator: `2 * (w + h) * PROB_SCALE`.
pub open spec fn spec_accept_den(room_w: int, room_h: int) -> int {
    2 * (room_w + room_h) * (PROB_SCALE as int)
}

/// The acceptance numerator: the probability
/// `offset/PROB_SCALE - imbalance * factor/PROB_SCALE`, where the imbalance
/// `|w/(w+h) - 1/2|` equals `|w - h| / (2*(w+h))`, brought over the common
/// denominator and clamped to `[0, 1]`.
pub open spec fn spec_accept_num(room_w: int, room_h: int, factor: u64, offset: u64) -> int {
    let den = spec_accept_den(room_w, room_h);
    let raw_pos = (offset as int) * (2 * (room_w + room_h));
    let raw_neg = (if room_w >= room_h {
        room_w - room_h
    } else {
        room_h - room_w
    }) * (factor as int);
    if raw_pos <= raw_neg {
        0
    } else if raw_pos - raw_neg > den {
        den
    } else {
        raw_pos - raw_neg
    }
}

/// The rectangle of child `i` of an accepted split: children are laid out
/// one after another along the split axis, one gap apart, and the last child
/// absorbs the integer-division remainder so the row ends exactly at the
/// parent's far edge.
pub open spec fn spec_child_rect(parent: Rect, i: int, k: int, size: int, gap: int, hor: bool) -> Rect {
    if hor {
        Rect {
            min_x: parent.min_x,
            max_x: parent.max_x,
            min_y: (parent.min_y + i * (size + gap)) as u64,
            max_y: if i == k - 1 {
                parent.max_y
            } else {
                (parent.min_y + i * (size + gap) + size) as u64
            },
        }
    } else {
        Rect {
            min_y: parent.min_y,
            max_y: parent.max_y,
            min_x: (parent.min_x + i * (size + gap)) as u64,
            max_x: if i == k - 1 {
                parent.max_x
            } else {
                (parent.min_x + i * (size + gap) + size) as u64
            },
        }
    }
}

/// The doors of child `i`: a hallway split stamps a hallway door on each
/// side that faces a sibling; a plain split hands every child a copy of the
/// parent's doors.
pub open spec fn spec_child_doors(parent: DoorsModel, i: int, k: int, is_hall: bool, hor: bool) -> DoorsModel {
    if is_hall {
        DoorsModel {
            north: if hor && i > 0 {
                seq![DoorEnum::Hallway]
            } else {
                Seq::empty()
            },
            south: if hor && i < k - 1 {
                seq![DoorEnum::Hallway]
            } else {
                Seq::empty()
            },
            west: if !hor && i > 0 {
                seq![DoorEnum::Hallway]
            } else {
                Seq::empty()
            },
            east: if !hor && i < k - 1 {
                seq![DoorEnum::Hallway]
            } else {
                Seq::empty()
            },
        }
    } else {
        parent
    }
}

/// Child `i` of an accepted split of `c`: untouched, carrying the split
/// orientation.
pub open spec fn spec_child(c: ChunkModel, i: int, k: int, size: int, gap: int, hor: bool, is_hall: bool) -> ChunkModel {
    ChunkModel {
        rect: spec_child_rect(c.rect, i, k, size, gap, hor),
        state: ChunkState::Untouched,
        doors: spec_child_doors(c.doors, i, k, is_hall, hor),
        horizontal: hor,
    }
}

/// What one even-split attempt does to a node: nothing unless the node is
/// untouched and `k >= 2`; otherwise the candidate child dimensions are
/// computed, the attempt is rejected outright when either falls at or below
/// `MIN_ROOM_DIM`, and otherwise one coin with the aspect-ratio probability
/// decides. On acceptance the node becomes a parent of `k` fresh untouched
/// children.
pub open spec fn spec_divide_evenly(c: ChunkModel, k: int, is_hall: bool, factor: u64, offset: u64, hor: bool, rs: RandomSource) -> (ChunkModel, RandomSource) {
    if k <= 1 || !c.is_untouched() {
        (c, rs)
    } else {
        let gap: int = if is_hall {
            HALL_WIDTH as int
        } else {
            0
        };
        let size = spec_child_size(c.rect, k, gap, hor);
        let room_w = if hor {
            c.rect.spec_width()
        } else {
            size
        };
        let room_h = if hor {
            size
        } else {
            c.rect.spec_height()
        };
        if !(room_w > MIN_ROOM_DIM as int && room_h > MIN_ROOM_DIM as int) {
            (c, rs)
        } else {
            let den = spec_accept_den(room_w, room_h);
            let num = spec_accept_num(room_w, room_h, factor, offset);
            let (draw, rs2) = rs.spec_next_below(den as u64);
            if !(draw < num as u64) {
                (c, rs2)
            } else {
                let children = Seq::new(
                    k as nat,
                    |i: int| spec_child(c, i, k, size, gap, hor, is_hall),
                );
                (
                    ChunkModel {
                        rect: c.rect,
                        state: ChunkState::Parent(children, is_hall),
                        doors: c.doors,
                        horizontal: c.horizontal,
                    },
                    rs2,
                )
            }
        }
    }
}

impl BuildingChunk {
    /// Attempt one even split of this node into `room_count` children along
    /// the given orientation, drawing the acceptance coin from `rng`.
    /// The result is exactly [`spec_divide_evenly`] of the starting state.
    #[verifier::rlimit(60)]
    pub fn divide_evenly(&mut self, room_count: usize, is_hallway: bool, aspect_factor: u64, aspect_offset: u64, horizontal: bool, rng: &mut RandomSource)
        requires
            old(self)@.rect.wf(),
            room_count <= MAX_SPLIT,
            aspect_offset <= MAX_ASPECT_OFFSET,
            aspect_factor <= MAX_ASPECT_FACTOR,
        ensures
            ((*final(self))@, *final(rng)) == spec_divide_evenly(
                old(self)@,
                room_count as int,
                is_hallway,
                aspect_factor,
                aspect_offset,
                horizontal,
                *old(rng),
            ),
    {
        let ghost m = self@;
        let ghost rs0 = *rng;
        if room_count <= 1 {
            return ;
        }
        if !self.divided_chunks.is_none() {
            return ;
        }
        let width = self.rect.width();
        let height = self.rect.height();
        let gap: u64 = if is_hallway {
            HALL_WIDTH
        } else {
            0
        };
        proof {
            assert((gap as int) * ((room_count - 1) as int) <= 2 * (MAX_SPLIT as int))
                by (nonlinear_arith)
                requires
                    0 <= gap as int <= 2,
                    0 <= (room_count - 1) as int <= MAX_SPLIT as int,
            ;
        }
        let gaps: u64 = gap * ((room_count - 1) as u64);
        let dim: u64 = if horizontal {
            height
        } else {
            width
        };
        let size: u64 = if dim >= gaps {
            (dim - gaps) / (room_count as u64)
        } else {
            0
        };
        proof {
            assert(size == spec_child_size(m.rect, room_count as int, gap as int, horizontal));
        }
        let room_w: u64 = if horizontal {
            width
        } else {
            size
        };
        let room_h: u64 = if horizontal {
            size
        } else {
            height
        };
        if !(room_w > MIN_ROOM_DIM && room_h > MIN_ROOM_DIM) {
            return ;
        }
        proof {
            let cap = crate::rect::MAX_COORD as int;
            if dim >= gaps {
                lemma_fundamental_div_mod((dim - gaps) as int, room_count as int);
                assert(size as int == (dim - gaps) as int / (room_count as int));
                assert((size as int) * (room_count as int) <= (dim - gaps) as int)
                    by (nonlinear_arith)
                    requires
                        (dim - gaps) as int == (room_count as int) * (size as int) + (dim
                            - gaps) as int % (room_count as int),
                        (dim - gaps) as int % (room_count as int) >= 0,
                ;
                assert(size as int <= dim as int) by (nonlinear_arith)
                    requires
                        2 <= room_count as int,
                        0 <= size as int,
                        (size as int) * (room_count as int) <= (dim - gaps) as int,
                        0 <= gaps as int,
                        0 <= dim as int,
                ;
            }
            assert(room_w <= cap && room_h <= cap);
            assert((2 * (room_w as int + room_h as int)) * (PROB_SCALE as int) < 0x10000000000)
                by (nonlinear_arith)
                requires
                    0 <= room_w as int <= cap,
                    0 <= room_h as int <= cap,
                    cap == 0x10000000,
                    PROB_SCALE as int == 1000,
            ;
            assert((aspect_offset as int) * (2 * (room_w as int + room_h as int))
                < 0x1000000000000) by (nonlinear_arith)
                requires
                    0 <= room_w as int <= cap,
                    0 <= room_h as int <= cap,
                    cap == 0x10000000,
                    0 <= aspect_offset as int <= 100000,
            ;
        }
        let den: u64 = 2 * (room_w + room_h) * PROB_SCALE;
        let raw_pos: u64 = aspect_offset * (2 * (room_w + room_h));
        let diff: u64 = if room_w >= room_h {
            room_w - room_h
        } else {
            room_h - room_w
        };
        proof {
            assert((diff as int) * (aspect_factor as int) <= 0x10000000 * (
            MAX_ASPECT_FACTOR as int)) by (nonlinear_arith)
                requires
                    0 <= diff as int <= 0x10000000,
                    0 <= aspect_factor as int <= MAX_ASPECT_FACTOR as int,
            ;
        }
        let raw_neg: u64 = diff * aspect_factor;
        let num: u64 = if raw_pos <= raw_neg {
            0
        } else if raw_pos - raw_neg > den {
            den
        } else {
            raw_pos - raw_neg
        };
        proof {
            assert(den == spec_accept_den(room_w as int, room_h as int));
            assert(num == spec_accept_num(room_w as int, room_h as int, aspect_factor,
                aspect_offset));
        }
        let draw = rng.next_below(den);
        if !(draw < num) {
            return ;
        }
        // The split is accepted: lay the children out along the axis.
        let ghost k = room_count as int;
        proof {
            assert(dim >= gaps);
            lemma_fundamental_div_mod((dim - gaps) as int, k);
            assert(k * size <= dim - gaps) by (nonlinear_arith)
                requires
                    (dim - gaps) as int == k * (size as int) + (dim - gaps) as int % k,
                    (dim - gaps) as int % k >= 0,
            ;
        }
        let mut children: Vec<BuildingChunk> = Vec::new();
        let mut i: usize = 0;
        while i < room_count
            invariant
                2 <= room_count <= MAX_SPLIT,
                i <= room_count,
                k == room_count as int,
                self@ == m,
                m.rect.wf(),
                m.is_untouched(),
                gap == (if is_hallway { HALL_WIDTH as int } else { 0 }),
                gaps == gap * (k - 1),
                dim == (if horizontal { m.rect.spec_height() } else { m.rect.spec_width() }),
                size == spec_child_size(m.rect, k, gap as int, horizontal),
                size > 0,
                k * size <= dim - gaps,
                dim <= crate::rect::MAX_COORD,
                children@.len() == i,
                forall|j: int|
                    0 <= j < i ==> (#[trigger] children@[j])@ == spec_child(
                        m,
                        j,
                        k,
                        size as int,
                        gap as int,
                        horizontal,
                        is_hallway,
                    ),
            decreases room_count - i,
        {
            proof {
                assert((i as int) * (size + gap) + size <= (k - 1) * (size + gap) + size)
                    by (nonlinear_arith)
                    requires
                        0 <= i as int <= k - 1,
                        size + gap >= 0,
                ;
                assert((k - 1) * (size + gap) + size == k * size + gap * (k - 1))
                    by (nonlinear_arith);
                assert((i as int) * (size + gap) + size <= dim);
                assert(0 <= (i as int) * (size + gap)) by (nonlinear_arith)
                    requires
                        0 <= i as int,
                        size + gap >= 0,
                ;
            }
            let offset_along: u64 = (i as u64) * (size + gap);
            let last = i == room_count - 1;
            let rect_i: Rect = if horizontal {
                Rect {
                    min_x: self.rect.min_x,
                    max_x: self.rect.max_x,
                    min_y: self.rect.min_y + offset_along,
                    max_y: if last {
                        self.rect.max_y
                    } else {
                        self.rect.min_y + offset_along + size
                    },
                }
            } else {
                Rect {
                    min_y: self.rect.min_y,
                    max_y: self.rect.max_y,
                    min_x: self.rect.min_x + offset_along,
                    max_x: if last {
                        self.rect.max_x
                    } else {
                        self.rect.min_x + offset_along + size
                    },
                }
            };
            let doors_i: Doors = if is_hallway {
                let mut d = Doors::empty();
                if i > 0 {
                    if horizontal {
                        d.north.push(DoorEnum::Hallway);
                    } else {
                        d.west.push(DoorEnum::Hallway);
                    }
                }
                if i < room_count - 1 {
                    if horizontal {
                        d.south.push(DoorEnum::Hallway);
                    } else {
                        d.east.push(DoorEnum::Hallway);
                    }
                }
                d
            } else {
                self.doors.copy()
            };
            proof {
                let sd = spec_child_doors(m.doors, i as int, k, is_hallway, horizontal);
                if is_hallway {
                    assert(doors_i@.north =~= sd.north);
                    assert(doors_i@.east =~= sd.east);
                    assert(doors_i@.south =~= sd.south);
                    assert(doors_i@.west =~= sd.west);
                }
                assert(doors_i@ == sd);
            }
            let child = BuildingChunk {
                rect: rect_i,
                divided_chunks: None,
                doors: doors_i,
                horizontal,
            };
            proof {
                assert(child@ == spec_child(m, i as int, k, size as int, gap as int, horizontal,
                    is_hallway));
            }
            children.push(child);
            i = i + 1;
        }
        let ghost gchildren = children@;
        self.divided_chunks = Some(BuildingChunkData::Parent(children, is_hallway));
        proof {
            let target = Seq::new(
                k as nat,
                |j: int| spec_child(m, j, k, size as int, gap as int, horizontal, is_hallway),
            );
            lemma_models_of(gchildren);
            let cs = self@.children();
            assert(self.divided_chunks->Some_0->Parent_0@ == gchildren);
            assert(cs == models_of(gchildren));
            assert(cs.len() == k);
            assert forall|j: int| 0 <= j < k implies cs[j] == target[j] by {
                assert(models_of(gchildren)[j] == gchildren[j]@);
                assert(gchildren[j]@ == spec_child(m, j, k, size as int, gap as int, horizontal,
                    is_hallway));
            }
            assert(cs =~= target);
            assert((self@, *rng) == spec_divide_evenly(
                m,
                room_count as int,
                is_hallway,
                aspect_factor,
                aspect_offset,
                horizontal,
                rs0,
            ));
        }
    }
}
/// What one subdivision round does to a node: an untouched node draws a
/// child count uniformly from the round's inclusive range and attempts one
/// even split with the orientation flipped from its own; a parent forwards
/// the round to every child in order; a tagged room is left alone.
pub open spec fn spec_divide(c: ChunkModel, p: ParamsModel, rs: RandomSource) -> (
    ChunkModel,
    RandomSource,
)
    decreases c, 0nat,
{
    match c.state {
        ChunkState::Untouched => {
            let (kv, rs2) = rs.spec_next_in_range(p.min_rooms as u64, p.max_rooms as u64);
            spec_divide_evenly(
                c,
                kv as int,
                p.is_hallway,
                p.aspect_factor,
                p.aspect_offset,
                !c.horizontal,
                rs2,
            )
        },
        ChunkState::Tagged => (c, rs),
        ChunkState::Parent(cs, hall) => {
            let r = spec_divide_seq(cs, p, rs);
            (
                ChunkModel {
                    rect: c.rect,
                    state: ChunkState::Parent(r.0, hall),
                    doors: c.doors,
                    horizontal: c.horizontal,
                },
                r.1,
            )
        },
    }
}

/// One round applied to a sequence of siblings, left to right, threading the
/// random source through.
pub open spec fn spec_divide_seq(s: Seq<ChunkModel>, p: ParamsModel, rs: RandomSource) -> (
    Seq<ChunkModel>,
    RandomSource,
)
    decreases s, s.len(),
{
    if s.len() == 0 {
        (s, rs)
    } else {
        let h = spec_divide(s[0], p, rs);
        let t = spec_divide_seq(s.subrange(1, s.len() as int), p, h.1);
        (seq![h.0] + t.0, t.1)
    }
}

impl BuildingChunk {
    /// Run one subdivision round on this subtree, drawing from `rng`.
    /// The result is exactly [`spec_divide`] of the starting state.
    pub fn divide(self, parameters: &BuildingIterationParameters, rng: &mut RandomSource) -> (r:
        BuildingChunk)
        requires
            self@.wf(),
            parameters@.wf(),
        ensures
            r@ == spec_divide(self@, parameters@, *old(rng)).0,
            *final(rng) == spec_divide(self@, parameters@, *old(rng)).1,
        decreases self, 0nat,
    {
        let ghost m = self@;
        let ghost rs0 = *rng;
        let BuildingChunk { rect, divided_chunks, doors, horizontal } = self;
        match divided_chunks {
            None => {
                let mut node = BuildingChunk { rect, divided_chunks: None, doors, horizontal };
                proof {
                    assert(node@ == m);
                }
                let kv = rng.next_in_range(
                    parameters.min_rooms_in_split as u64,
                    parameters.max_rooms_in_split as u64,
                );
                let k = kv as usize;
                node.divide_evenly(
                    k,
                    parameters.is_hallway,
                    parameters.aspect_ratio_probability_factor,
                    parameters.aspect_ratio_probability_offset,
                    !horizontal,
                    rng,
                );
                proof {
                    assert(k as int == kv as int);
                }
                node
            },
            Some(BuildingChunkData::Tagged) => {
                let node = BuildingChunk {
                    rect,
                    divided_chunks: Some(BuildingChunkData::Tagged),
                    doors,
                    horizontal,
                };
                proof {
                    assert(node@ == m);
                }
                node
            },
            Some(BuildingChunkData::Parent(children, hall)) => {
                let ghost gchildren = children@;
                proof {
                    lemma_models_of(gchildren);
                    assert(m.children() == models_of(gchildren));
                    assert forall|j: int| 0 <= j < gchildren.len() implies (
                    #[trigger] gchildren[j])@.wf() by {
                        assert(m.children()[j] == gchildren[j]@);
                        assert(m.children()[j].wf());
                    }
                }
                let new_children = divide_vec(children, parameters, rng);
                let node = BuildingChunk {
                    rect,
                    divided_chunks: Some(BuildingChunkData::Parent(new_children, hall)),
                    doors,
                    horizontal,
                };
                proof {
                    assert(node@.children() == models_of(new_children@));
                    assert(node@ == spec_divide(m, parameters@, rs0).0);
                }
                node
            },
        }
    }
}

/// One round applied to every chunk of a vector, left to right.
fn divide_vec(v: Vec<BuildingChunk>, parameters: &BuildingIterationParameters, rng: &mut RandomSource) -> (r: Vec<BuildingChunk>)
    requires
        forall|j: int| 0 <= j < v@.len() ==> (#[trigger] v@[j])@.wf(),
        parameters@.wf(),
    ensures
        models_of(r@) == spec_divide_seq(models_of(v@), parameters@, *old(rng)).0,
        *final(rng) == spec_divide_seq(models_of(v@), parameters@, *old(rng)).1,
    decreases v@, 0nat,
{
    let ghost gv = v@;
    let ghost rs0 = *rng;
    let mut v = v;
    if v.len() == 0 {
        proof {
            assert(models_of(gv).len() == 0);
        }
        return v;
    }
    let head = v.remove(0);
    let ghost gtail = v@;
    proof {
        lemma_models_of(gv);
        lemma_models_of(gtail);
        assert(head@.wf());
        assert forall|j: int| 0 <= j < gtail.len() implies (#[trigger] gtail[j])@.wf() by {
            assert(gtail[j] == gv[j + 1]);
        }
        assert forall|j: int| 0 <= j < gtail.len() implies models_of(gv).subrange(
            1,
            models_of(gv).len() as int,
        )[j] == models_of(gtail)[j] by {
            assert(models_of(gv)[j + 1] == gv[j + 1]@);
            assert(gv[j + 1] == gtail[j]);
        }
        assert(models_of(gv).subrange(1, models_of(gv).len() as int) =~= models_of(gtail));
        assert(models_of(gv)[0] == head@);
    }
    let head2 = head.divide(parameters, rng);
    let mut tail2 = divide_vec(v, parameters, rng);
    let mut out: Vec<BuildingChunk> = Vec::new();
    out.push(head2);
    let ghost ghead2 = out@;
    let ghost gtail2 = tail2@;
    out.append(&mut tail2);
    proof {
        assert(out@ =~= ghead2 + gtail2);
        lemma_models_of(out@);
        lemma_models_of(gtail2);
        let s = models_of(gv);
        let h = spec_divide(s[0], parameters@, rs0);
        let t = spec_divide_seq(s.subrange(1, s.len() as int), parameters@, h.1);
        assert forall|j: int| 0 <= j < out@.len() implies models_of(out@)[j] == (seq![h.0]
            + t.0)[j] by {
            assert(models_of(out@)[j] == out@[j]@);
            if j == 0 {
                assert(out@[0] == ghead2[0]);
            } else {
                assert(out@[j] == gtail2[j - 1]);
                assert(models_of(gtail2)[j - 1] == gtail2[j - 1]@);
            }
        }
        assert(models_of(out@) =~= seq![h.0] + t.0);
    }
    out
}

} // verus!
