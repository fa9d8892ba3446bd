//! Structural laws of the generator, proved over the spec-level model.
//!
//! The central invariant is [`ChunkModel::wf`]: every parent's children tile
//! its rectangle exactly up to hallway gaps. The lemmas here show that the
//! invariant survives subdivision and room assignment, that both passes leave
//! every node's rectangle and orientation in place, and that rooms are
//! terminal.

use vstd::prelude::*;
use crate::rect::Rect;
use crate::rng::RandomSource;
use crate::params::ParamsModel;
use crate::tree::{ChunkModel, ChunkState, parent_shape, HALL_WIDTH, spec_room_rects,
    spec_room_rects_seq, spec_all_nodes, spec_all_nodes_seq, spec_lowest_rects};
use crate::subdivide::{spec_divide, spec_divide_seq, spec_divide_evenly, spec_child,
    spec_child_size, spec_child_rect, MIN_ROOM_DIM};
use crate::assign::{spec_assign, spec_assign_seq, spec_candidate};
use crate::params::RoomSpec;
use vstd::arithmetic::div_mod::lemma_fundamental_div_mod;

verus! {

/// One even-split attempt keeps the node's rectangle and orientation and
/// preserves the tiling invariant: an accepted split's children tile the
/// parent exactly.
pub proof fn lemma_divide_evenly_wf(
    c: ChunkModel,
    k: int,
    is_hall: bool,
    factor: u64,
    offset: u64,
    hor: bool,
    rs: RandomSource,
)
    requires
        c.wf(),
    ensures
        spec_divide_evenly(c, k, is_hall, factor, offset, hor, rs).0.wf(),
        spec_divide_evenly(c, k, is_hall, factor, offset, hor, rs).0.rect == c.rect,
        spec_divide_evenly(c, k, is_hall, factor, offset, hor, rs).0.horizontal == c.horizontal,
        spec_divide_evenly(c, k, is_hall, factor, offset, hor, rs).0.doors == c.doors,
{
    let r = spec_divide_evenly(c, k, is_hall, factor, offset, hor, rs).0;
    if k <= 1 || !c.is_untouched() {
    } else {
        let gap: int = if is_hall {
            HALL_WIDTH as int
        } else {
            0
        };
        let size = spec_child_size(c.rect, k, gap, hor);
        let room_w = if hor {
            c.rect.spec_width()
        } else {
            size
        };
        let room_h = if hor {
            size
        } else {
            c.rect.spec_height()
        };
        if room_w > MIN_ROOM_DIM as int && room_h > MIN_ROOM_DIM as int {
            let den = crate::subdivide::spec_accept_den(room_w, room_h);
            let num = crate::subdivide::spec_accept_num(room_w, room_h, factor, offset);
            let (draw, _) = rs.spec_next_below(den as u64);
            if draw < num as u64 {
                let dim = if hor {
                    c.rect.spec_height()
                } else {
                    c.rect.spec_width()
                };
                let gaps = gap * (k - 1);
                assert(dim >= gaps);
                lemma_fundamental_div_mod(dim - gaps, k);
                assert(k * size <= dim - gaps) by (nonlinear_arith)
                    requires
                        dim - gaps == k * size + (dim - gaps) % k,
                        (dim - gaps) % k >= 0,
                ;
                let cs = r.children();
                assert(cs.len() == k);
                assert forall|i: int| 0 <= i < k implies (#[trigger] cs[i]) == spec_child(
                    c,
                    i,
                    k,
                    size,
                    gap,
                    hor,
                    is_hall,
                ) by {
                }
                assert forall|i: int| 0 <= i < k implies (#[trigger] cs[i]).wf() by {
                    assert(cs[i] == spec_child(c, i, k, size, gap, hor, is_hall));
                    lemma_child_offset_bounds(i, k, size, gap, dim, gaps);
                }
                assert forall|i: int| 0 <= i < k - 1 implies (#[trigger] (cs[i + 1]).rect).min_y
                    == cs[i].rect.max_y + gap || !hor by {
                    if hor {
                        lemma_child_offset_bounds(i, k, size, gap, dim, gaps);
                        lemma_child_offset_bounds(i + 1, k, size, gap, dim, gaps);
                        assert((i + 1) * (size + gap) == i * (size + gap) + size + gap)
                            by (nonlinear_arith);
                    }
                }
                assert forall|i: int| 0 <= i < k - 1 implies (#[trigger] (cs[i + 1]).rect).min_x
                    == cs[i].rect.max_x + gap || hor by {
                    if !hor {
                        lemma_child_offset_bounds(i, k, size, gap, dim, gaps);
                        lemma_child_offset_bounds(i + 1, k, size, gap, dim, gaps);
                        assert((i + 1) * (size + gap) == i * (size + gap) + size + gap)
                            by (nonlinear_arith);
                    }
                }
                assert(cs[k - 1] == spec_child(c, k - 1, k, size, gap, hor, is_hall));
                assert(parent_shape(c.rect, cs, r.gap()));
            }
        }
    }
}

/// The offset of child `i` stays inside the parent's axis length.
proof fn lemma_child_offset_bounds(i: int, k: int, size: int, gap: int, dim: int, gaps: int)
    requires
        0 <= i < k,
        0 <= size,
        0 <= gap,
        gaps == gap * (k - 1),
        k * size <= dim - gaps,
    ensures
        0 <= i * (size + gap),
        i * (size + gap) + size <= dim,
{
    assert(0 <= i * (size + gap)) by (nonlinear_arith)
        requires
            0 <= i,
            0 <= size + gap,
    ;
    assert(i * (size + gap) + size <= (k - 1) * (size + gap) + size) by (nonlinear_arith)
        requires
            0 <= i <= k - 1,
            0 <= size + gap,
    ;
    assert((k - 1) * (size + gap) + size == k * size + gap * (k - 1)) by (nonlinear_arith);
}

/// One subdivision round keeps every node's rectangle and orientation and
/// preserves the tiling invariant.
pub proof fn lemma_divide_wf(c: ChunkModel, p: ParamsModel, rs: RandomSource)
    requires
        c.wf(),
    ensures
        spec_divide(c, p, rs).0.wf(),
        spec_divide(c, p, rs).0.rect == c.rect,
        spec_divide(c, p, rs).0.horizontal == c.horizontal,
        spec_divide(c, p, rs).0.doors == c.doors,
    decreases c, 1nat,
{
    match c.state {
        ChunkState::Untouched => {
            let (kv, rs2) = rs.spec_next_in_range(p.min_rooms as u64, p.max_rooms as u64);
            lemma_divide_evenly_wf(
                c,
                kv as int,
                p.is_hallway,
                p.aspect_factor,
                p.aspect_offset,
                !c.horizontal,
                rs2,
            );
        },
        ChunkState::Tagged => {
        },
        ChunkState::Parent(cs, hall) => {
            let r = spec_divide_seq(cs, p, rs);
            lemma_divide_seq_wf(cs, p, rs);
            let out = spec_divide(c, p, rs).0;
            assert(out.children() == r.0);
            assert(parent_shape(c.rect, cs, c.gap()));
            assert(cs.len() >= 1);
            assert(parent_shape(out.rect, r.0, out.gap()));
        },
    }
}

/// One subdivision round over a sibling sequence keeps its length and every
/// sibling's rectangle and orientation, and preserves the invariant
/// pointwise.
pub proof fn lemma_divide_seq_wf(s: Seq<ChunkModel>, p: ParamsModel, rs: RandomSource)
    requires
        forall|i: int| 0 <= i < s.len() ==> (#[trigger] s[i]).wf(),
    ensures
        spec_divide_seq(s, p, rs).0.len() == s.len(),
        forall|i: int|
            0 <= i < s.len() ==> {
                let out = #[trigger] spec_divide_seq(s, p, rs).0[i];
                &&& out.wf()
                &&& out.rect == s[i].rect
                &&& out.horizontal == s[i].horizontal
            },
    decreases s, 0nat,
{
    if s.len() > 0 {
        let h = spec_divide(s[0], p, rs);
        let sub = s.subrange(1, s.len() as int);
        lemma_divide_wf(s[0], p, rs);
        assert forall|i: int| 0 <= i < sub.len() implies (#[trigger] sub[i]).wf() by {
            assert(sub[i] == s[i + 1]);
        }
        lemma_divide_seq_wf(sub, p, h.1);
        let t = spec_divide_seq(sub, p, h.1);
        assert forall|i: int|
            0 <= i < s.len() implies {
            let out = #[trigger] spec_divide_seq(s, p, rs).0[i];
            &&& out.wf()
            &&& out.rect == s[i].rect
            &&& out.horizontal == s[i].horizontal
        } by {
            if i == 0 {
                assert(spec_divide_seq(s, p, rs).0[0] == h.0);
            } else {
                assert(spec_divide_seq(s, p, rs).0[i] == t.0[i - 1]);
                assert(sub[i - 1] == s[i]);
            }
        }
    }
}

/// The summed areas of a sibling sequence.
pub open spec fn sum_areas(s: Seq<ChunkModel>) -> int
    decreases s,
{
    if s.len() == 0 {
        0
    } else {
        s[0].rect.spec_area() + sum_areas(s.subrange(1, s.len() as int))
    }
}

/// Two rectangles share no interior point: they are separated (or touch at
/// most along a line) on some axis.
pub open spec fn rects_disjoint(a: Rect, b: Rect) -> bool {
    ||| a.max_x <= b.min_x
    ||| b.max_x <= a.min_x
    ||| a.max_y <= b.min_y
    ||| b.max_y <= a.min_y
}

/// The length of the parent edge that the hallway strips run along.
pub open spec fn strip_breadth(c: ChunkModel) -> int
    recommends
        c.is_parent(),
        c.children().len() > 0,
{
    if c.children()[0].horizontal {
        c.rect.spec_width()
    } else {
        c.rect.spec_height()
    }
}

/// Tiling invariant, arithmetic form: for every well-formed parent, the
/// children's areas sum to the parent's area minus the hallway strips, and
/// no two children overlap.
pub proof fn lemma_parent_tiling(c: ChunkModel)
    requires
        c.wf(),
        c.is_parent(),
    ensures
        sum_areas(c.children()) + (c.children().len() - 1) * c.gap() * strip_breadth(c)
            == c.rect.spec_area(),
        forall|i: int, j: int|
            0 <= i < j < c.children().len() ==> rects_disjoint(
                (#[trigger] c.children()[i]).rect,
                (#[trigger] c.children()[j]).rect,
            ),
{
    let cs = c.children();
    let gap = c.gap();
    assert forall|i: int| 0 <= i < cs.len() implies (#[trigger] cs[i]).rect.wf() by {
        assert(cs[i].wf());
    }
    if cs[0].horizontal {
        lemma_strip_sum_y(cs, c.rect, gap, c.rect.min_y as int);
        assert forall|i: int, j: int| 0 <= i < j < cs.len() implies rects_disjoint(
            (#[trigger] cs[i]).rect,
            (#[trigger] cs[j]).rect,
        ) by {
            lemma_chain_y(cs, gap, i, j);
        }
        assert(sum_areas(cs) + (cs.len() - 1) * gap * strip_breadth(c) == c.rect.spec_area())
            by (nonlinear_arith)
            requires
                sum_areas(cs) == (c.rect.max_y - c.rect.min_y as int - (cs.len() - 1) * gap)
                    * c.rect.spec_width(),
                strip_breadth(c) == c.rect.spec_width(),
                c.rect.spec_area() == c.rect.spec_width() * c.rect.spec_height(),
                c.rect.spec_height() == c.rect.max_y - c.rect.min_y,
        ;
    } else {
        lemma_strip_sum_x(cs, c.rect, gap, c.rect.min_x as int);
        assert forall|i: int, j: int| 0 <= i < j < cs.len() implies rects_disjoint(
            (#[trigger] cs[i]).rect,
            (#[trigger] cs[j]).rect,
        ) by {
            lemma_chain_x(cs, gap, i, j);
        }
        assert(sum_areas(cs) + (cs.len() - 1) * gap * strip_breadth(c) == c.rect.spec_area())
            by (nonlinear_arith)
            requires
                sum_areas(cs) == (c.rect.max_x - c.rect.min_x as int - (cs.len() - 1) * gap)
                    * c.rect.spec_height(),
                strip_breadth(c) == c.rect.spec_height(),
                c.rect.spec_area() == c.rect.spec_width() * c.rect.spec_height(),
                c.rect.spec_width() == c.rect.max_x - c.rect.min_x,
        ;
    }
}

/// Telescoped area sum of a horizontal stack: contiguous full-width children
/// from `y0` to the parent's bottom edge cover the height minus the gaps.
proof fn lemma_strip_sum_y(cs: Seq<ChunkModel>, rect: Rect, gap: int, y0: int)
    requires
        cs.len() >= 1,
        forall|i: int| 0 <= i < cs.len() ==> (#[trigger] cs[i]).rect.wf(),
        forall|i: int|
            0 <= i < cs.len() ==> (#[trigger] cs[i]).rect.min_x == rect.min_x && cs[i].rect.max_x
                == rect.max_x,
        cs[0].rect.min_y == y0,
        cs[cs.len() - 1].rect.max_y == rect.max_y,
        forall|i: int|
            0 <= i < cs.len() - 1 ==> (#[trigger] cs[i + 1].rect.min_y) == cs[i].rect.max_y + gap,
    ensures
        sum_areas(cs) == (rect.max_y - y0 - (cs.len() - 1) * gap) * rect.spec_width(),
    decreases cs.len(),
{
    let w = rect.spec_width();
    let h0 = cs[0].rect.max_y - y0;
    assert(cs[0].rect.spec_area() == h0 * w) by (nonlinear_arith)
        requires
            cs[0].rect.spec_area() == (cs[0].rect.max_x - cs[0].rect.min_x) * (cs[0].rect.max_y
                - cs[0].rect.min_y),
            cs[0].rect.max_x - cs[0].rect.min_x == w,
            cs[0].rect.max_y - cs[0].rect.min_y == h0,
    ;
    if cs.len() == 1 {
        assert(sum_areas(cs) == cs[0].rect.spec_area() + sum_areas(
            cs.subrange(1, cs.len() as int),
        ));
        assert(cs.subrange(1, cs.len() as int) =~= Seq::<ChunkModel>::empty());
    } else {
        let sub = cs.subrange(1, cs.len() as int);
        assert forall|i: int| 0 <= i < sub.len() implies (#[trigger] sub[i]).rect.wf()
            && sub[i].rect.min_x == rect.min_x && sub[i].rect.max_x == rect.max_x by {
            assert(sub[i] == cs[i + 1]);
        }
        assert forall|i: int| 0 <= i < sub.len() - 1 implies (#[trigger] sub[i + 1].rect.min_y)
            == sub[i].rect.max_y + gap by {
            assert(sub[i] == cs[i + 1]);
            assert(sub[i + 1] == cs[i + 2]);
            assert(cs[i + 2].rect.min_y == cs[i + 1].rect.max_y + gap);
        }
        assert(sub[0] == cs[1]);
        assert(sub[sub.len() - 1] == cs[cs.len() - 1]);
        lemma_strip_sum_y(sub, rect, gap, cs[0].rect.max_y + gap);
        assert(sum_areas(cs) == h0 * w + (rect.max_y - (cs[0].rect.max_y + gap) - (cs.len() - 2)
            * gap) * w == (rect.max_y - y0 - (cs.len() - 1) * gap) * w) by (nonlinear_arith)
            requires
                sum_areas(cs) == cs[0].rect.spec_area() + sum_areas(
                    cs.subrange(1, cs.len() as int),
                ),
                cs[0].rect.spec_area() == h0 * w,
                h0 == cs[0].rect.max_y - y0,
                sum_areas(cs.subrange(1, cs.len() as int)) == (rect.max_y - (cs[0].rect.max_y
                    + gap) - (cs.len() - 2) * gap) * w,
                cs.len() >= 2,
        ;
    }
}

/// Telescoped area sum of a vertical row: the mirror image of
/// `lemma_strip_sum_y`.
proof fn lemma_strip_sum_x(cs: Seq<ChunkModel>, rect: Rect, gap: int, x0: int)
    requires
        cs.len() >= 1,
        forall|i: int| 0 <= i < cs.len() ==> (#[trigger] cs[i]).rect.wf(),
        forall|i: int|
            0 <= i < cs.len() ==> (#[trigger] cs[i]).rect.min_y == rect.min_y && cs[i].rect.max_y
                == rect.max_y,
        cs[0].rect.min_x == x0,
        cs[cs.len() - 1].rect.max_x == rect.max_x,
        forall|i: int|
            0 <= i < cs.len() - 1 ==> (#[trigger] cs[i + 1].rect.min_x) == cs[i].rect.max_x + gap,
    ensures
        sum_areas(cs) == (rect.max_x - x0 - (cs.len() - 1) * gap) * rect.spec_height(),
    decreases cs.len(),
{
    let h = rect.spec_height();
    let w0 = cs[0].rect.max_x - x0;
    assert(cs[0].rect.spec_area() == w0 * h) by (nonlinear_arith)
        requires
            cs[0].rect.spec_area() == (cs[0].rect.max_x - cs[0].rect.min_x) * (cs[0].rect.max_y
                - cs[0].rect.min_y),
            cs[0].rect.max_y - cs[0].rect.min_y == h,
            cs[0].rect.max_x - cs[0].rect.min_x == w0,
    ;
    if cs.len() == 1 {
        assert(sum_areas(cs) == cs[0].rect.spec_area() + sum_areas(
            cs.subrange(1, cs.len() as int),
        ));
        assert(cs.subrange(1, cs.len() as int) =~= Seq::<ChunkModel>::empty());
    } else {
        let sub = cs.subrange(1, cs.len() as int);
        assert forall|i: int| 0 <= i < sub.len() implies (#[trigger] sub[i]).rect.wf()
            && sub[i].rect.min_y == rect.min_y && sub[i].rect.max_y == rect.max_y by {
            assert(sub[i] == cs[i + 1]);
        }
        assert forall|i: int| 0 <= i < sub.len() - 1 implies (#[trigger] sub[i + 1].rect.min_x)
            == sub[i].rect.max_x + gap by {
            assert(sub[i] == cs[i + 1]);
            assert(sub[i + 1] == cs[i + 2]);
            assert(cs[i + 2].rect.min_x == cs[i + 1].rect.max_x + gap);
        }
        assert(sub[0] == cs[1]);
        assert(sub[sub.len() - 1] == cs[cs.len() - 1]);
        lemma_strip_sum_x(sub, rect, gap, cs[0].rect.max_x + gap);
        assert(sum_areas(cs) == w0 * h + (rect.max_x - (cs[0].rect.max_x + gap) - (cs.len() - 2)
            * gap) * h == (rect.max_x - x0 - (cs.len() - 1) * gap) * h) by (nonlinear_arith)
            requires
                sum_areas(cs) == cs[0].rect.spec_area() + sum_areas(
                    cs.subrange(1, cs.len() as int),
                ),
                cs[0].rect.spec_area() == w0 * h,
                w0 == cs[0].rect.max_x - x0,
                sum_areas(cs.subrange(1, cs.len() as int)) == (rect.max_x - (cs[0].rect.max_x
                    + gap) - (cs.len() - 2) * gap) * h,
                cs.len() >= 2,
        ;
    }
}

/// In a horizontal stack, an earlier child's bottom edge never passes a
/// later child's top edge.
proof fn lemma_chain_y(cs: Seq<ChunkModel>, gap: int, i: int, j: int)
    requires
        0 <= i < j < cs.len(),
        0 <= gap,
        forall|l: int| 0 <= l < cs.len() ==> (#[trigger] cs[l]).rect.wf(),
        forall|l: int|
            0 <= l < cs.len() - 1 ==> (#[trigger] cs[l + 1].rect.min_y) == cs[l].rect.max_y + gap,
    ensures
        cs[i].rect.max_y <= cs[j].rect.min_y,
    decreases j - i,
{
    assert(cs[i + 1].rect.min_y == cs[i].rect.max_y + gap);
    if i + 1 < j {
        lemma_chain_y(cs, gap, i + 1, j);
    }
}

/// In a vertical row, an earlier child's right edge never passes a later
/// child's left edge.
proof fn lemma_chain_x(cs: Seq<ChunkModel>, gap: int, i: int, j: int)
    requires
        0 <= i < j < cs.len(),
        0 <= gap,
        forall|l: int| 0 <= l < cs.len() ==> (#[trigger] cs[l]).rect.wf(),
        forall|l: int|
            0 <= l < cs.len() - 1 ==> (#[trigger] cs[l + 1].rect.min_x) == cs[l].rect.max_x + gap,
    ensures
        cs[i].rect.max_x <= cs[j].rect.min_x,
    decreases j - i,
{
    assert(cs[i + 1].rect.min_x == cs[i].rect.max_x + gap);
    if i + 1 < j {
        lemma_chain_x(cs, gap, i + 1, j);
    }
}

/// Every node of a well-formed tree is itself well formed.
pub proof fn lemma_all_nodes_wf(c: ChunkModel)
    requires
        c.wf(),
    ensures
        forall|n: ChunkModel| spec_all_nodes(c).contains(n) ==> n.wf(),
    decreases c, 1nat,
{
    if c.is_parent() {
        let cs = c.children();
        assert forall|i: int| 0 <= i < cs.len() implies (#[trigger] cs[i]).wf() by {}
        lemma_all_nodes_seq_wf(cs);
        let head = spec_all_nodes_seq(cs);
        assert forall|n: ChunkModel| spec_all_nodes(c).contains(n) implies n.wf() by {
            let i = choose|i: int| 0 <= i < spec_all_nodes(c).len() && spec_all_nodes(c)[i] == n;
            if i < head.len() {
                assert(head.contains(n));
            } else {
                assert(n == c);
            }
        }
    } else {
        assert forall|n: ChunkModel| spec_all_nodes(c).contains(n) implies n.wf() by {
            assert(n == c);
        }
    }
}

proof fn lemma_all_nodes_seq_wf(s: Seq<ChunkModel>)
    requires
        forall|i: int| 0 <= i < s.len() ==> (#[trigger] s[i]).wf(),
    ensures
        forall|n: ChunkModel| spec_all_nodes_seq(s).contains(n) ==> n.wf(),
    decreases s, 0nat,
{
    if s.len() > 0 {
        let sub = s.subrange(1, s.len() as int);
        assert forall|i: int| 0 <= i < sub.len() implies (#[trigger] sub[i]).wf() by {
            assert(sub[i] == s[i + 1]);
        }
        lemma_all_nodes_wf(s[0]);
        lemma_all_nodes_seq_wf(sub);
        let head = spec_all_nodes(s[0]);
        let tail = spec_all_nodes_seq(sub);
        assert forall|n: ChunkModel| spec_all_nodes_seq(s).contains(n) implies n.wf() by {
            let i = choose|i: int|
                0 <= i < spec_all_nodes_seq(s).len() && spec_all_nodes_seq(s)[i] == n;
            if i < head.len() {
                assert(head.contains(n));
            } else {
                assert(tail[i - head.len()] == n);
                assert(tail.contains(n));
            }
        }
    }
}

/// Tiling invariant, whole-tree form: in any well-formed tree, every parent
/// node anywhere in the tree is tiled exactly by its children — their areas
/// sum to its own minus the hallway strips, and no two of them overlap.
pub proof fn lemma_tree_tiling(c: ChunkModel, n: ChunkModel)
    requires
        c.wf(),
        spec_all_nodes(c).contains(n),
        n.is_parent(),
    ensures
        sum_areas(n.children()) + (n.children().len() - 1) * n.gap() * strip_breadth(n)
            == n.rect.spec_area(),
        forall|i: int, j: int|
            0 <= i < j < n.children().len() ==> rects_disjoint(
                (#[trigger] n.children()[i]).rect,
                (#[trigger] n.children()[j]).rect,
            ),
{
    lemma_all_nodes_wf(c);
    lemma_parent_tiling(n);
}

/// The summed area of every leaf of the tree.
pub open spec fn leaf_area_sum(c: ChunkModel) -> int
    decreases c, 0nat,
{
    if c.is_parent() {
        leaf_area_sum_seq(c.children())
    } else {
        c.rect.spec_area()
    }
}

pub open spec fn leaf_area_sum_seq(s: Seq<ChunkModel>) -> int
    decreases s, s.len(),
{
    if s.len() == 0 {
        0
    } else {
        leaf_area_sum(s[0]) + leaf_area_sum_seq(s.subrange(1, s.len() as int))
    }
}

/// The total area lost to hallway strips, over the whole tree.
pub open spec fn gap_area(c: ChunkModel) -> int
    decreases c, 0nat,
{
    if c.is_parent() {
        (c.children().len() - 1) * c.gap() * strip_breadth(c) + gap_area_seq(c.children())
    } else {
        0
    }
}

pub open spec fn gap_area_seq(s: Seq<ChunkModel>) -> int
    decreases s, s.len(),
{
    if s.len() == 0 {
        0
    } else {
        gap_area(s[0]) + gap_area_seq(s.subrange(1, s.len() as int))
    }
}

/// Leaf exhaustiveness: for any well-formed tree, the areas of the leaves
/// (untouched or room) sum to the root rectangle's area minus the total
/// hallway gap area.
pub proof fn lemma_leaf_exhaustiveness(c: ChunkModel)
    requires
        c.wf(),
    ensures
        leaf_area_sum(c) + gap_area(c) == c.rect.spec_area(),
    decreases c, 1nat,
{
    if c.is_parent() {
        let cs = c.children();
        assert forall|i: int| 0 <= i < cs.len() implies (#[trigger] cs[i]).wf() by {}
        lemma_leaf_seq(cs);
        lemma_parent_tiling(c);
    }
}

/// Leaf exhaustiveness over a sibling sequence: leaf areas plus gap areas
/// make up the siblings' own areas.
proof fn lemma_leaf_seq(s: Seq<ChunkModel>)
    requires
        forall|i: int| 0 <= i < s.len() ==> (#[trigger] s[i]).wf(),
    ensures
        leaf_area_sum_seq(s) + gap_area_seq(s) == sum_areas(s),
    decreases s, 0nat,
{
    if s.len() > 0 {
        let sub = s.subrange(1, s.len() as int);
        assert forall|i: int| 0 <= i < sub.len() implies (#[trigger] sub[i]).wf() by {
            assert(sub[i] == s[i + 1]);
        }
        lemma_leaf_exhaustiveness(s[0]);
        lemma_leaf_seq(sub);
    }
}

/// The summed area of a sequence of rectangles.
pub open spec fn sum_rect_areas(s: Seq<Rect>) -> int
    decreases s,
{
    if s.len() == 0 {
        0
    } else {
        s[0].spec_area() + sum_rect_areas(s.subrange(1, s.len() as int))
    }
}

proof fn lemma_sum_rect_areas_concat(a: Seq<Rect>, b: Seq<Rect>)
    ensures
        sum_rect_areas(a + b) == sum_rect_areas(a) + sum_rect_areas(b),
    decreases a,
{
    if a.len() == 0 {
        assert(a + b =~= b);
    } else {
        let sub = a.subrange(1, a.len() as int);
        lemma_sum_rect_areas_concat(sub, b);
        assert((a + b).subrange(1, (a + b).len() as int) =~= sub + b);
        assert((a + b)[0] == a[0]);
    }
}

/// Summing the rectangles of the leaf traversal gives the tree's leaf area.
pub proof fn lemma_lowest_rects_area(c: ChunkModel)
    ensures
        sum_rect_areas(spec_lowest_rects(c)) == leaf_area_sum(c),
    decreases c, 1nat,
{
    if c.is_parent() {
        lemma_lowest_rects_area_seq(c.children());
    } else {
        let single = seq![c.rect];
        assert(spec_lowest_rects(c) == single);
        assert(single.subrange(1, single.len() as int) =~= Seq::<Rect>::empty());
        assert(sum_rect_areas(single) == c.rect.spec_area() + sum_rect_areas(
            single.subrange(1, single.len() as int),
        ));
        assert(sum_rect_areas(Seq::<Rect>::empty()) == 0);
    }
}

proof fn lemma_lowest_rects_area_seq(s: Seq<ChunkModel>)
    ensures
        sum_rect_areas(crate::tree::spec_lowest_rects_seq(s)) == leaf_area_sum_seq(s),
    decreases s, 0nat,
{
    if s.len() > 0 {
        let sub = s.subrange(1, s.len() as int);
        lemma_lowest_rects_area(s[0]);
        lemma_lowest_rects_area_seq(sub);
        lemma_sum_rect_areas_concat(
            crate::tree::spec_lowest_rects(s[0]),
            crate::tree::spec_lowest_rects_seq(sub),
        );
    }
}

/// Leaf exhaustiveness through the public traversal: the rectangles that
/// `get_lowest_rects` returns cover the root rectangle's area exactly, up to
/// the total hallway gap area, for any well-formed tree.
pub proof fn lemma_leaves_cover_building(c: ChunkModel)
    requires
        c.wf(),
    ensures
        sum_rect_areas(crate::tree::spec_lowest_rects(c)) + gap_area(c) == c.rect.spec_area(),
{
    lemma_lowest_rects_area(c);
    lemma_leaf_exhaustiveness(c);
}

/// Determinism under a fixed seed: generation is a function of the round
/// schedule and the random source, so two runs from equal inputs and equal
/// sources produce identical plans — the same rectangles, states, doors and
/// requirement outcomes. (`generate_building` returns exactly
/// `spec_generate` of its inputs, which ties its runtime behaviour to this
/// statement.)
pub proof fn lemma_generate_deterministic(
    iters1: Seq<(crate::params::BuildingIterationParameters, usize)>,
    rs1: RandomSource,
    iters2: Seq<(crate::params::BuildingIterationParameters, usize)>,
    rs2: RandomSource,
)
    requires
        iters1 == iters2,
        rs1 == rs2,
    ensures
        crate::generate::spec_generate(iters1, rs1) == crate::generate::spec_generate(
            iters2,
            rs2,
        ),
{
}

/// A certain two-child hallway split: with the acceptance offset at
/// certainty, no aspect suppression, and both candidate dimensions above the
/// floor, the split always happens — one parent with exactly two untouched
/// children side by side around one hallway strip, each of the even width.
pub proof fn lemma_certain_even_split(c: ChunkModel, offset: u64, rs: RandomSource)
    requires
        c.is_untouched(),
        c.rect.wf(),
        (c.rect.spec_width() - HALL_WIDTH) / 2 > MIN_ROOM_DIM as int,
        c.rect.spec_height() > MIN_ROOM_DIM as int,
        crate::params::PROB_SCALE <= offset <= crate::params::MAX_ASPECT_OFFSET,
    ensures
        ({
            let out = spec_divide_evenly(c, 2, true, 0, offset, false, rs).0;
            let size = (c.rect.spec_width() - HALL_WIDTH) / 2;
            &&& out.is_parent()
            &&& out.via_hallway()
            &&& out.children().len() == 2
            &&& out.children()[0].is_untouched()
            &&& out.children()[1].is_untouched()
            &&& out.children()[0].rect == (Rect {
                min_x: c.rect.min_x,
                min_y: c.rect.min_y,
                max_x: (c.rect.min_x + size) as u64,
                max_y: c.rect.max_y,
            })
            &&& out.children()[1].rect == (Rect {
                min_x: (c.rect.min_x + size + HALL_WIDTH) as u64,
                min_y: c.rect.min_y,
                max_x: c.rect.max_x,
                max_y: c.rect.max_y,
            })
            &&& out.children()[0].doors.east == seq![crate::tree::DoorEnum::Hallway]
            &&& out.children()[0].doors.west == Seq::<crate::tree::DoorEnum>::empty()
            &&& out.children()[1].doors.west == seq![crate::tree::DoorEnum::Hallway]
            &&& out.children()[1].doors.east == Seq::<crate::tree::DoorEnum>::empty()
        }),
{
    let gap: int = HALL_WIDTH as int;
    let size = spec_child_size(c.rect, 2, gap, false);
    let room_w = size;
    let room_h = c.rect.spec_height();
    assert(size == (c.rect.spec_width() - gap) / 2);
    let den = crate::subdivide::spec_accept_den(room_w, room_h);
    let num = crate::subdivide::spec_accept_num(room_w, room_h, 0, offset);
    let raw_pos = (offset as int) * (2 * (room_w + room_h));
    assert(den == 2 * (room_w + room_h) * (crate::params::PROB_SCALE as int));
    assert(den > 0) by (nonlinear_arith)
        requires
            room_w > 0,
            room_h > 0,
            den == 2 * (room_w + room_h) * 1000,
    ;
    assert(den < 0x10000000000000000) by (nonlinear_arith)
        requires
            den == 2 * (room_w + room_h) * 1000,
            0 < room_w <= 0x10000000,
            0 < room_h <= 0x10000000,
    ;
    assert(raw_pos >= den) by (nonlinear_arith)
        requires
            raw_pos == (offset as int) * (2 * (room_w + room_h)),
            den == 2 * (room_w + room_h) * 1000,
            offset as int >= 1000,
            room_w + room_h > 0,
    ;
    assert(num == den);
    let (draw, _) = rs.spec_next_below(den as u64);
    assert((draw as int) < den) by (nonlinear_arith)
        requires
            draw as int == (std_draw_of_at(rs, den as u64) as int) % ((den as u64) as int),
            0 < den < 0x10000000000000000,
            (den as u64) as int == den,
    ;
    assert(draw < num as u64);
    let out = spec_divide_evenly(c, 2, true, 0, offset, false, rs).0;
    assert(out.children() == Seq::new(
        2nat,
        |i: int| spec_child(c, i, 2, size, gap, false, true),
    ));
    assert(out.children()[0] == spec_child(c, 0, 2, size, gap, false, true));
    assert(out.children()[1] == spec_child(c, 1, 2, size, gap, false, true));
    assert(out.children()[0].rect == spec_child_rect(c.rect, 0, 2, size, gap, false));
    assert(out.children()[1].rect == spec_child_rect(c.rect, 1, 2, size, gap, false));
    lemma_fundamental_div_mod(c.rect.spec_width() - gap, 2);
    assert(0 * (size + gap) == 0 && 1 * (size + gap) == size + gap) by (nonlinear_arith);
}

/// The raw outside draw behind one step of a random source; a name for the
/// term the certain-split proof reduces modulo the bound.
pub open spec fn std_draw_of_at(rs: RandomSource, bound: u64) -> u64 {
    crate::rng::std_draw_of(crate::rng::spec_mix(rs.seed, rs.counter), bound)
}

/// Every non-negative number has an integer square root.
pub proof fn lemma_isqrt_exists(n: int)
    requires
        0 <= n,
    ensures
        crate::generate::is_isqrt(crate::generate::spec_isqrt(n), n),
    decreases n,
{
    if n == 0 {
        assert(crate::generate::is_isqrt(0, 0));
    } else {
        lemma_isqrt_exists(n - 1);
        let r = crate::generate::spec_isqrt(n - 1);
        if (r + 1) * (r + 1) <= n {
            assert((r + 2) * (r + 2) > n) by (nonlinear_arith)
                requires
                    0 <= r,
                    n - 1 < (r + 1) * (r + 1),
                    (r + 1) * (r + 1) <= n,
            ;
            assert(crate::generate::is_isqrt(r + 1, n));
        } else {
            assert(crate::generate::is_isqrt(r, n));
        }
    }
    assert(exists|q: int| crate::generate::is_isqrt(q, n));
}

/// Repeated subdivision preserves the tiling invariant, the root rectangle
/// and the orientation.
pub proof fn lemma_divide_n_wf(c: ChunkModel, p: ParamsModel, n: int, rs: RandomSource)
    requires
        c.wf(),
    ensures
        crate::generate::spec_divide_n(c, p, n, rs).0.wf(),
        crate::generate::spec_divide_n(c, p, n, rs).0.rect == c.rect,
        crate::generate::spec_divide_n(c, p, n, rs).0.doors == c.doors,
    decreases n,
{
    if n > 0 {
        let d = spec_divide(c, p, rs);
        lemma_divide_wf(c, p, rs);
        lemma_divide_n_wf(d.0, p, n - 1, d.1);
    }
}

/// One assignment pass preserves the tiling invariant and the root
/// rectangle.
pub proof fn lemma_assign_pass_wf(c: ChunkModel, reqs: Seq<RoomSpec>, bounds: Rect, rs: RandomSource)
    requires
        c.wf(),
    ensures
        crate::generate::spec_assign_pass(c, reqs, bounds, rs).0.wf(),
        crate::generate::spec_assign_pass(c, reqs, bounds, rs).0.rect == c.rect,
        crate::generate::spec_assign_pass(c, reqs, bounds, rs).0.doors == c.doors,
    decreases reqs,
{
    if reqs.len() > 0 {
        let req = reqs[0];
        let sub = reqs.subrange(1, reqs.len() as int);
        if req.room is Some {
            lemma_assign_pass_wf(c, sub, bounds, rs);
        } else {
            let a = spec_assign(c, req, bounds, rs);
            lemma_assign_wf(c, req, bounds, rs);
            lemma_assign_pass_wf(a.0, sub, bounds, a.2);
        }
    }
}

/// Requirement outcomes of one assignment pass: each outcome keeps its
/// requirement's range and access flag, a requirement that came in already
/// assigned passes through unchanged, and a fresh assignment's rectangle was
/// a candidate — its area in the range, reaching the bounds' boundary when
/// perimeter access is demanded.
pub proof fn lemma_assign_pass_compliance(c: ChunkModel, reqs: Seq<RoomSpec>, bounds: Rect, rs: RandomSource)
    ensures
        crate::generate::spec_assign_pass(c, reqs, bounds, rs).1.len() == reqs.len(),
        forall|i: int|
            0 <= i < reqs.len() ==> {
                let out = #[trigger] crate::generate::spec_assign_pass(c, reqs, bounds, rs).1[i];
                &&& out.area_min == reqs[i].area_min
                &&& out.area_max == reqs[i].area_max
                &&& out.has_direct_access == reqs[i].has_direct_access
                &&& (reqs[i].room is Some ==> out == reqs[i])
                &&& (out.room is Some ==> reqs[i].room is Some || spec_candidate(
                    out.room->Some_0,
                    reqs[i],
                    bounds,
                ))
            },
    decreases reqs,
{
    if reqs.len() > 0 {
        let req = reqs[0];
        let sub = reqs.subrange(1, reqs.len() as int);
        let full = crate::generate::spec_assign_pass(c, reqs, bounds, rs);
        if req.room is Some {
            lemma_assign_pass_compliance(c, sub, bounds, rs);
            let t = crate::generate::spec_assign_pass(c, sub, bounds, rs);
            assert forall|i: int|
                0 <= i < reqs.len() implies {
                let out = #[trigger] full.1[i];
                &&& out.area_min == reqs[i].area_min
                &&& out.area_max == reqs[i].area_max
                &&& out.has_direct_access == reqs[i].has_direct_access
                &&& (reqs[i].room is Some ==> out == reqs[i])
                &&& (out.room is Some ==> reqs[i].room is Some || spec_candidate(
                    out.room->Some_0,
                    reqs[i],
                    bounds,
                ))
            } by {
                if i == 0 {
                    assert(full.1[0] == req);
                } else {
                    assert(full.1[i] == t.1[i - 1]);
                    assert(sub[i - 1] == reqs[i]);
                }
            }
        } else {
            let a = spec_assign(c, req, bounds, rs);
            lemma_assign_result(c, req, bounds, rs);
            lemma_assign_pass_compliance(a.0, sub, bounds, a.2);
            let t = crate::generate::spec_assign_pass(a.0, sub, bounds, a.2);
            assert forall|i: int|
                0 <= i < reqs.len() implies {
                let out = #[trigger] full.1[i];
                &&& out.area_min == reqs[i].area_min
                &&& out.area_max == reqs[i].area_max
                &&& out.has_direct_access == reqs[i].has_direct_access
                &&& (reqs[i].room is Some ==> out == reqs[i])
                &&& (out.room is Some ==> reqs[i].room is Some || spec_candidate(
                    out.room->Some_0,
                    reqs[i],
                    bounds,
                ))
            } by {
                if i == 0 {
                    assert(full.1[0].room == a.1);
                    if full.1[0].room is Some {
                        assert(spec_candidate(a.1->Some_0, req, bounds));
                        assert(spec_candidate(full.1[0].room->Some_0, reqs[0], bounds));
                    }
                } else {
                    assert(full.1[i] == t.1[i - 1]);
                    assert(sub[i - 1] == reqs[i]);
                }
            }
        }
    }
}

/// The whole round schedule preserves the tiling invariant and the root
/// rectangle.
pub proof fn lemma_run_rounds_wf(
    c: ChunkModel,
    iters: Seq<(crate::params::BuildingIterationParameters, usize)>,
    bounds: Rect,
    rs: RandomSource,
)
    requires
        c.wf(),
    ensures
        crate::generate::spec_run_rounds(c, iters, bounds, rs).0.wf(),
        crate::generate::spec_run_rounds(c, iters, bounds, rs).0.rect == c.rect,
        crate::generate::spec_run_rounds(c, iters, bounds, rs).0.doors == c.doors,
    decreases iters,
{
    if iters.len() > 0 {
        let d = crate::generate::spec_divide_n(c, iters[0].0@, iters[0].1 as int, rs);
        lemma_divide_n_wf(c, iters[0].0@, iters[0].1 as int, rs);
        let a = crate::generate::spec_assign_pass(d.0, iters[0].0@.reqs, bounds, d.1);
        lemma_assign_pass_wf(d.0, iters[0].0@.reqs, bounds, d.1);
        lemma_run_rounds_wf(a.0, iters.subrange(1, iters.len() as int), bounds, a.2);
    }
}

/// The whole round schedule's requirement outcomes, when every supplied
/// requirement starts unassigned: every assigned outcome's rectangle has its
/// area inside that requirement's range and reaches the bounds' boundary
/// when the requirement demands perimeter access.
pub proof fn lemma_run_rounds_compliance(
    c: ChunkModel,
    iters: Seq<(crate::params::BuildingIterationParameters, usize)>,
    bounds: Rect,
    rs: RandomSource,
)
    requires
        forall|i: int, j: int|
            0 <= i < iters.len() && 0 <= j < (#[trigger] iters[i]).0@.reqs.len() ==> (
            #[trigger] iters[i].0@.reqs[j]).room is None,
    ensures
        forall|l: int|
            0 <= l < crate::generate::spec_run_rounds(c, iters, bounds, rs).1.len() ==> {
                let out = #[trigger] crate::generate::spec_run_rounds(c, iters, bounds, rs).1[l];
                out.room is Some ==> spec_candidate(out.room->Some_0, out, bounds)
            },
    decreases iters,
{
    if iters.len() > 0 {
        let d = crate::generate::spec_divide_n(c, iters[0].0@, iters[0].1 as int, rs);
        let reqs = iters[0].0@.reqs;
        let a = crate::generate::spec_assign_pass(d.0, reqs, bounds, d.1);
        let sub = iters.subrange(1, iters.len() as int);
        let t = crate::generate::spec_run_rounds(a.0, sub, bounds, a.2);
        lemma_assign_pass_compliance(d.0, reqs, bounds, d.1);
        assert forall|i: int, j: int|
            0 <= i < sub.len() && 0 <= j < (#[trigger] sub[i]).0@.reqs.len() implies (
        #[trigger] sub[i].0@.reqs[j]).room is None by {
            assert(sub[i] == iters[i + 1]);
            assert(iters[i + 1].0@.reqs[j].room is None);
        }
        lemma_run_rounds_compliance(a.0, sub, bounds, a.2);
        let full = crate::generate::spec_run_rounds(c, iters, bounds, rs);
        assert forall|l: int|
            0 <= l < full.1.len() implies {
            let out = #[trigger] full.1[l];
            out.room is Some ==> spec_candidate(out.room->Some_0, out, bounds)
        } by {
            if l < a.1.len() {
                assert(full.1[l] == a.1[l]);
                if a.1[l].room is Some {
                    assert(reqs[l].room is None);
                    assert(spec_candidate(a.1[l].room->Some_0, reqs[l], bounds));
                    assert(spec_candidate(a.1[l].room->Some_0, a.1[l], bounds));
                }
            } else {
                assert(full.1[l] == t.1[l - a.1.len()]);
            }
        }
    }
}

/// A successfully generated plan is sound as a whole: its tree satisfies the
/// tiling invariant everywhere, the root occupies exactly the plan bounds,
/// and — when every supplied requirement starts unassigned — every assigned
/// requirement received a rectangle whose area lies in its range, touching
/// the bounds whenever perimeter access was demanded.
pub proof fn lemma_generate_plan(
    iters: Seq<(crate::params::BuildingIterationParameters, usize)>,
    rs: RandomSource,
)
    requires
        forall|i: int, j: int|
            0 <= i < iters.len() && 0 <= j < (#[trigger] iters[i]).0@.reqs.len() ==> (
            #[trigger] iters[i].0@.reqs[j]).room is None,
    ensures
        crate::generate::spec_generate(iters, rs).0 is Ok ==> {
            let plan = crate::generate::spec_generate(iters, rs).0->Ok_0;
            &&& plan.root.wf()
            &&& plan.root.rect == plan.bounds
            &&& forall|l: int|
                0 <= l < plan.requirements.len() ==> {
                    let out = #[trigger] plan.requirements[l];
                    out.room is Some ==> spec_candidate(out.room->Some_0, out, plan.bounds)
                }
        },
{
    if crate::generate::spec_generate(iters, rs).0 is Ok {
        let (root0, rs1) = crate::generate::spec_initial(iters, rs);
        let bounds = root0.rect;
        lemma_initial_wf(iters, rs);
        lemma_run_rounds_wf(root0, iters, bounds, rs1);
        lemma_run_rounds_compliance(root0, iters, bounds, rs1);
    }
}

/// Every finished building has its exterior entrance: the root of a
/// generated plan still carries the exterior door it was seeded with on its
/// north wall — neither subdivision nor assignment ever rewrites a node's
/// own doors.
pub proof fn lemma_generate_exterior_door(
    iters: Seq<(crate::params::BuildingIterationParameters, usize)>,
    rs: RandomSource,
)
    ensures
        crate::generate::spec_generate(iters, rs).0 is Ok ==> crate::generate::spec_generate(
            iters,
            rs,
        ).0->Ok_0.root.doors.north == seq![crate::tree::DoorEnum::Exterior],
{
    if crate::generate::spec_generate(iters, rs).0 is Ok {
        let (root0, rs1) = crate::generate::spec_initial(iters, rs);
        let seeded = crate::generate::spec_initial_seed(iters, rs);
        lemma_divide_evenly_doors(
            seeded,
            2,
            true,
            0,
            crate::params::PROB_SCALE,
            false,
            crate::generate::spec_initial_rs3(iters, rs),
        );
        assert(root0.doors == seeded.doors);
        lemma_initial_wf(iters, rs);
        lemma_run_rounds_wf(root0, iters, root0.rect, rs1);
    }
}

/// An even-split attempt never rewrites the node's own doors, well formed or
/// not: rejection leaves the node alone and acceptance moves its doors onto
/// the new parent unchanged.
pub proof fn lemma_divide_evenly_doors(
    c: ChunkModel,
    k: int,
    is_hall: bool,
    factor: u64,
    offset: u64,
    hor: bool,
    rs: RandomSource,
)
    ensures
        spec_divide_evenly(c, k, is_hall, factor, offset, hor, rs).0.doors == c.doors,
{
}

/// The seeded root is well formed and occupies its own bounds, whenever the
/// plan passed validation.
pub proof fn lemma_initial_wf(
    iters: Seq<(crate::params::BuildingIterationParameters, usize)>,
    rs: RandomSource,
)
    requires
        crate::generate::spec_validate(iters) is None,
    ensures
        crate::generate::spec_initial(iters, rs).0.wf(),
{
    let target = crate::generate::spec_area_target(iters);
    assert(crate::generate::all_reqs_ok(iters));
    crate::generate::lemma_plan_total_nonneg(iters);
    assert(0 <= target <= crate::params::AREA_LIMIT as int);
    lemma_isqrt_exists(target);
    let side = crate::generate::spec_isqrt(target);
    assert(side <= 0x4000000) by (nonlinear_arith)
        requires
            0 <= side,
            side * side <= target,
            target <= 0x10000000000000,
    ;
    let (wfac, rs1) = rs.spec_next_in_range(crate::generate::BREADTH_LO,
        crate::generate::BREADTH_HI);
    let (hfac, rs2) = rs1.spec_next_in_range(crate::generate::BREADTH_LO,
        crate::generate::BREADTH_HI);
    let (sfac, rs3) = rs2.spec_next_in_range(crate::generate::SCALE_LO, crate::generate::SCALE_HI);
    lemma_range_draw(rs, crate::generate::BREADTH_LO, crate::generate::BREADTH_HI);
    lemma_range_draw(rs1, crate::generate::BREADTH_LO, crate::generate::BREADTH_HI);
    lemma_range_draw(rs2, crate::generate::SCALE_LO, crate::generate::SCALE_HI);
    let w = side * (wfac as int) * (sfac as int) / (crate::generate::PER_MILLE_SQ as int);
    let h = side * (hfac as int) * (sfac as int) / (crate::generate::PER_MILLE_SQ as int);
    assert(0 <= side * (wfac as int) * (sfac as int) <= 0x4000000int * 831 * 2999)
        by (nonlinear_arith)
        requires
            0 <= side <= 0x4000000,
            0 <= wfac as int <= 831,
            0 <= sfac as int <= 2999,
    ;
    assert(0 <= side * (hfac as int) * (sfac as int) <= 0x4000000int * 831 * 2999)
        by (nonlinear_arith)
        requires
            0 <= side <= 0x4000000,
            0 <= hfac as int <= 831,
            0 <= sfac as int <= 2999,
    ;
    vstd::arithmetic::div_mod::lemma_div_is_ordered(
        side * (wfac as int) * (sfac as int),
        0x4000000int * 831 * 2999,
        crate::generate::PER_MILLE_SQ as int,
    );
    vstd::arithmetic::div_mod::lemma_div_is_ordered(
        side * (hfac as int) * (sfac as int),
        0x4000000int * 831 * 2999,
        crate::generate::PER_MILLE_SQ as int,
    );
    vstd::arithmetic::div_mod::lemma_div_pos_is_pos(
        side * (wfac as int) * (sfac as int),
        crate::generate::PER_MILLE_SQ as int,
    );
    vstd::arithmetic::div_mod::lemma_div_pos_is_pos(
        side * (hfac as int) * (sfac as int),
        crate::generate::PER_MILLE_SQ as int,
    );
    let bounds = Rect { min_x: 0, min_y: 0, max_x: w as u64, max_y: h as u64 };
    assert(bounds.wf());
    let root = ChunkModel {
        rect: bounds,
        state: ChunkState::Untouched,
        doors: crate::tree::DoorsModel {
            north: seq![crate::tree::DoorEnum::Exterior],
            east: Seq::empty(),
            south: Seq::empty(),
            west: Seq::empty(),
        },
        horizontal: false,
    };
    assert(root.wf());
    lemma_divide_evenly_wf(root, 2, true, 0, crate::params::PROB_SCALE, false, rs3);
}

/// A ranged draw lands inside its inclusive range.
pub proof fn lemma_range_draw(rs: RandomSource, lo: u64, hi: u64)
    requires
        lo <= hi,
        (hi as int) - (lo as int) < 0xFFFFFFFFFFFFFFFF,
    ensures
        lo as int <= rs.spec_next_in_range(lo, hi).0 as int <= hi as int,
{
    let bound = (hi - lo + 1) as u64;
    let raw = std_draw_of_at(rs, bound);
    assert(0 <= (raw as int) % (bound as int) && (raw as int) % (bound as int) < bound as int)
        by (nonlinear_arith)
        requires
            bound as int > 0,
    ;
}

/// One requirement pass keeps every node's rectangle and orientation and
/// preserves the tiling invariant.
pub proof fn lemma_assign_wf(c: ChunkModel, req: RoomSpec, bounds: Rect, rs: RandomSource)
    requires
        c.wf(),
    ensures
        spec_assign(c, req, bounds, rs).0.wf(),
        spec_assign(c, req, bounds, rs).0.rect == c.rect,
        spec_assign(c, req, bounds, rs).0.horizontal == c.horizontal,
        spec_assign(c, req, bounds, rs).0.doors == c.doors,
    decreases c, 1nat,
{
    match c.state {
        ChunkState::Untouched => {
        },
        ChunkState::Tagged => {
        },
        ChunkState::Parent(cs, hall) => {
            let r = spec_assign_seq(cs, req, bounds, rs);
            lemma_assign_seq_wf(cs, req, bounds, rs);
            let out = spec_assign(c, req, bounds, rs).0;
            assert(out.children() == r.0);
            assert(parent_shape(c.rect, cs, c.gap()));
            assert(cs.len() >= 1);
            assert(parent_shape(out.rect, r.0, out.gap()));
        },
    }
}

/// How one requirement pass may change a tree: nothing moves, nothing is
/// released, and the only change of state is an untouched leaf that was a
/// candidate for the requirement becoming a room.
pub open spec fn tags_within(a: ChunkModel, b: ChunkModel, req: RoomSpec, bounds: Rect) -> bool
    decreases a,
{
    &&& b.rect == a.rect
    &&& b.doors == a.doors
    &&& b.horizontal == a.horizontal
    &&& match a.state {
        ChunkState::Untouched => b.state is Untouched || (b.state is Tagged && spec_candidate(
            a.rect,
            req,
            bounds,
        )),
        ChunkState::Tagged => b.state is Tagged,
        ChunkState::Parent(cs, hall) => {
            &&& b.state is Parent
            &&& b.via_hallway() == hall
            &&& b.children().len() == cs.len()
            &&& forall|i: int|
                0 <= i < cs.len() ==> tags_within(#[trigger] cs[i], b.children()[i], req, bounds)
        },
    }
}

/// Area-range and perimeter-access compliance, node level: one requirement
/// pass only ever turns candidate leaves into rooms — every new room's area
/// lies inside the requirement's range, and it reaches the bounds' boundary
/// when the requirement demands perimeter access. Rooms are never released.
pub proof fn lemma_assign_tags(c: ChunkModel, req: RoomSpec, bounds: Rect, rs: RandomSource)
    ensures
        tags_within(c, spec_assign(c, req, bounds, rs).0, req, bounds),
    decreases c, 1nat,
{
    match c.state {
        ChunkState::Untouched => {
        },
        ChunkState::Tagged => {
        },
        ChunkState::Parent(cs, hall) => {
            lemma_assign_seq_tags(cs, req, bounds, rs);
            let out = spec_assign(c, req, bounds, rs).0;
            assert(out.children() == spec_assign_seq(cs, req, bounds, rs).0);
        },
    }
}

/// Node-level compliance over a sibling sequence.
pub proof fn lemma_assign_seq_tags(s: Seq<ChunkModel>, req: RoomSpec, bounds: Rect, rs: RandomSource)
    ensures
        spec_assign_seq(s, req, bounds, rs).0.len() == s.len(),
        forall|i: int|
            0 <= i < s.len() ==> tags_within(
                #[trigger] s[i],
                spec_assign_seq(s, req, bounds, rs).0[i],
                req,
                bounds,
            ),
    decreases s, 0nat,
{
    if s.len() > 0 {
        let h = spec_assign(s[0], req, bounds, rs);
        let sub = s.subrange(1, s.len() as int);
        lemma_assign_tags(s[0], req, bounds, rs);
        lemma_assign_seq_tags(sub, req, bounds, h.2);
        let t = spec_assign_seq(sub, req, bounds, h.2);
        assert forall|i: int| 0 <= i < s.len() implies tags_within(
            #[trigger] s[i],
            spec_assign_seq(s, req, bounds, rs).0[i],
            req,
            bounds,
        ) by {
            if i == 0 {
                assert(spec_assign_seq(s, req, bounds, rs).0[0] == h.0);
            } else {
                assert(spec_assign_seq(s, req, bounds, rs).0[i] == t.0[i - 1]);
                assert(sub[i - 1] == s[i]);
            }
        }
    }
}

/// Area-range and perimeter-access compliance, requirement level: whatever
/// rectangle one requirement pass hands back was a candidate — its area lies
/// in the requirement's range and it reaches the bounds' boundary when
/// perimeter access is demanded.
pub proof fn lemma_assign_result(c: ChunkModel, req: RoomSpec, bounds: Rect, rs: RandomSource)
    ensures
        spec_assign(c, req, bounds, rs).1 is Some ==> spec_candidate(
            spec_assign(c, req, bounds, rs).1->Some_0,
            req,
            bounds,
        ),
    decreases c, 1nat,
{
    match c.state {
        ChunkState::Untouched => {
        },
        ChunkState::Tagged => {
        },
        ChunkState::Parent(cs, hall) => {
            lemma_assign_seq_result(cs, req, bounds, rs);
        },
    }
}

/// Requirement-level compliance over a sibling sequence.
pub proof fn lemma_assign_seq_result(s: Seq<ChunkModel>, req: RoomSpec, bounds: Rect, rs: RandomSource)
    ensures
        spec_assign_seq(s, req, bounds, rs).1 is Some ==> spec_candidate(
            spec_assign_seq(s, req, bounds, rs).1->Some_0,
            req,
            bounds,
        ),
    decreases s, 0nat,
{
    if s.len() > 0 {
        let h = spec_assign(s[0], req, bounds, rs);
        let sub = s.subrange(1, s.len() as int);
        lemma_assign_result(s[0], req, bounds, rs);
        lemma_assign_seq_result(sub, req, bounds, h.2);
    }
}

/// Terminality under subdivision: a subdivision round never creates,
/// removes, or moves a room — the sequence of room rectangles is unchanged.
/// Together with [`lemma_assign_tags`] (a pass never releases a room) this
/// says a room node, once made, stays a room through every later round.
pub proof fn lemma_divide_preserves_rooms(c: ChunkModel, p: ParamsModel, rs: RandomSource)
    ensures
        spec_room_rects(spec_divide(c, p, rs).0) == spec_room_rects(c),
    decreases c, 1nat,
{
    match c.state {
        ChunkState::Untouched => {
            let (kv, rs2) = rs.spec_next_in_range(p.min_rooms as u64, p.max_rooms as u64);
            lemma_divide_evenly_rooms(
                c,
                kv as int,
                p.is_hallway,
                p.aspect_factor,
                p.aspect_offset,
                !c.horizontal,
                rs2,
            );
        },
        ChunkState::Tagged => {
        },
        ChunkState::Parent(cs, hall) => {
            lemma_divide_seq_rooms(cs, p, rs);
            let out = spec_divide(c, p, rs).0;
            assert(out.children() == spec_divide_seq(cs, p, rs).0);
        },
    }
}

/// Room preservation over a sibling sequence.
pub proof fn lemma_divide_seq_rooms(s: Seq<ChunkModel>, p: ParamsModel, rs: RandomSource)
    ensures
        spec_room_rects_seq(spec_divide_seq(s, p, rs).0) == spec_room_rects_seq(s),
    decreases s, 0nat,
{
    if s.len() > 0 {
        let h = spec_divide(s[0], p, rs);
        let sub = s.subrange(1, s.len() as int);
        lemma_divide_preserves_rooms(s[0], p, rs);
        lemma_divide_seq_rooms(sub, p, h.1);
        let t = spec_divide_seq(sub, p, h.1);
        let out = seq![h.0] + t.0;
        assert(out[0] == h.0);
        assert(out.subrange(1, out.len() as int) =~= t.0);
        assert(spec_room_rects_seq(out) == spec_room_rects(h.0) + spec_room_rects_seq(t.0));
        assert(spec_room_rects_seq(s) == spec_room_rects(s[0]) + spec_room_rects_seq(sub));
    }
}

/// An even split never touches a room: the node it may change is untouched,
/// and the children it creates are all untouched.
pub proof fn lemma_divide_evenly_rooms(
    c: ChunkModel,
    k: int,
    is_hall: bool,
    factor: u64,
    offset: u64,
    hor: bool,
    rs: RandomSource,
)
    ensures
        spec_room_rects(spec_divide_evenly(c, k, is_hall, factor, offset, hor, rs).0)
            == spec_room_rects(c),
{
    let r = spec_divide_evenly(c, k, is_hall, factor, offset, hor, rs).0;
    if r != c {
        assert(c.is_untouched());
        assert(r.is_parent());
        lemma_room_rects_seq_untouched(r.children());
        assert(spec_room_rects(r) =~= spec_room_rects(c));
    }
}

/// A sequence of untouched leaves holds no rooms.
proof fn lemma_room_rects_seq_untouched(s: Seq<ChunkModel>)
    requires
        forall|i: int| 0 <= i < s.len() ==> (#[trigger] s[i]).is_untouched(),
    ensures
        spec_room_rects_seq(s) == Seq::<Rect>::empty(),
    decreases s,
{
    if s.len() > 0 {
        let sub = s.subrange(1, s.len() as int);
        assert forall|i: int| 0 <= i < sub.len() implies (#[trigger] sub[i]).is_untouched() by {
            assert(sub[i] == s[i + 1]);
        }
        lemma_room_rects_seq_untouched(sub);
        assert(s[0].is_untouched());
        assert(spec_room_rects(s[0]) == Seq::<Rect>::empty());
        assert(spec_room_rects_seq(s) == spec_room_rects(s[0]) + spec_room_rects_seq(sub));
        assert(spec_room_rects_seq(s) =~= Seq::<Rect>::empty());
    }
}

/// One requirement pass over a sibling sequence keeps its length and every
/// sibling's rectangle and orientation, and preserves the invariant
/// pointwise.
pub proof fn lemma_assign_seq_wf(s: Seq<ChunkModel>, req: RoomSpec, bounds: Rect, rs: RandomSource)
    requires
        forall|i: int| 0 <= i < s.len() ==> (#[trigger] s[i]).wf(),
    ensures
        spec_assign_seq(s, req, bounds, rs).0.len() == s.len(),
        forall|i: int|
            0 <= i < s.len() ==> {
                let out = #[trigger] spec_assign_seq(s, req, bounds, rs).0[i];
                &&& out.wf()
                &&& out.rect == s[i].rect
                &&& out.horizontal == s[i].horizontal
            },
    decreases s, 0nat,
{
    if s.len() > 0 {
        let h = spec_assign(s[0], req, bounds, rs);
        let sub = s.subrange(1, s.len() as int);
        lemma_assign_wf(s[0], req, bounds, rs);
        assert forall|i: int| 0 <= i < sub.len() implies (#[trigger] sub[i]).wf() by {
            assert(sub[i] == s[i + 1]);
        }
        lemma_assign_seq_wf(sub, req, bounds, h.2);
        let t = spec_assign_seq(sub, req, bounds, h.2);
        assert forall|i: int|
            0 <= i < s.len() implies {
            let out = #[trigger] spec_assign_seq(s, req, bounds, rs).0[i];
            &&& out.wf()
            &&& out.rect == s[i].rect
            &&& out.horizontal == s[i].horizontal
        } by {
            if i == 0 {
                assert(spec_assign_seq(s, req, bounds, rs).0[0] == h.0);
            } else {
                assert(spec_assign_seq(s, req, bounds, rs).0[i] == t.0[i - 1]);
                assert(sub[i - 1] == s[i]);
            }
        }
    }
}

} // verus!
