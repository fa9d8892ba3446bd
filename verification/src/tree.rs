//! The partition tree.
//!
//! A building plan is a strict tree of [`BuildingChunk`] nodes. Every node
//! owns a rectangle; a node is either untouched (eligible for further
//! subdivision or for room assignment), a parent whose children tile its
//! rectangle exactly up to hallway gaps, or tagged as a finished room.
//! Doors are bucketed per node by the four wall directions.
//!
//! Contracts speak of [`ChunkModel`], the mathematical image of a node:
//! the same shape with ghost sequences in place of vectors.

use vstd::prelude::*;
use crate::rect::Rect;

verus! {

/// Width of the corridor gap a hallway round leaves between siblings.
pub const HALL_WIDTH: u64 = 2;

/// A door, tagged by what it connects to.
#[derive(Clone, Copy, Debug, PartialEq, Eq, Structural)]
pub enum DoorEnum {
    /// A door through the building perimeter.
    Exterior,
    /// A door between two rooms; the flag records whether it is locked.
    Interior(bool),
    /// A door connecting a room to a hallway corridor.
    Hallway,
}

/// The doors of one node, bucketed by the wall they sit in. `north` is the
/// wall at minimal `y`, `south` at maximal `y`, `west` at minimal `x`,
/// `east` at maximal `x`; entries are ordered along their wall.
#[derive(Debug, PartialEq)]
pub struct Doors {
    pub north: Vec<DoorEnum>,
    pub east: Vec<DoorEnum>,
    pub south: Vec<DoorEnum>,
    pub west: Vec<DoorEnum>,
}

/// The mathematical image of [`Doors`]: one sequence per wall.
pub struct DoorsModel {
    pub north: Seq<DoorEnum>,
    pub east: Seq<DoorEnum>,
    pub south: Seq<DoorEnum>,
    pub west: Seq<DoorEnum>,
}

/// What has become of a node that is no longer untouched.
#[derive(Debug, PartialEq)]
pub enum BuildingChunkData {
    /// The node is a finished room, claimed by a requirement; terminal.
    Tagged,
    /// The node was split into the given children; the flag records whether
    /// the split left a hallway gap between them.
    Parent(Vec<BuildingChunk>, bool),
}

/// One node of the partition tree.
#[derive(Debug, PartialEq)]
pub struct BuildingChunk {
    /// The region this node occupies; never changes after creation.
    pub rect: Rect,
    /// `None` while the node is untouched.
    pub divided_chunks: Option<BuildingChunkData>,
    /// This node's doors.
    pub doors: Doors,
    /// Whether the split that created this node ran horizontally (children
    /// stacked along `y`); the next split below this node flips it.
    pub horizontal: bool,
}

/// The mathematical image of a node's state.
pub enum ChunkState {
    Untouched,
    Tagged,
    Parent(Seq<ChunkModel>, bool),
}

/// The mathematical image of one tree node.
pub struct ChunkModel {
    pub rect: Rect,
    pub state: ChunkState,
    pub doors: DoorsModel,
    pub horizontal: bool,
}

impl View for Doors {
    type V = DoorsModel;

    open spec fn view(&self) -> DoorsModel {
        DoorsModel { north: self.north@, east: self.east@, south: self.south@, west: self.west@ }
    }
}

impl DoorsModel {
    /// No doors on any wall.
    pub open spec fn empty() -> DoorsModel {
        DoorsModel {
            north: Seq::empty(),
            east: Seq::empty(),
            south: Seq::empty(),
            west: Seq::empty(),
        }
    }
}

impl Doors {
    pub fn empty() -> (r: Doors)
        ensures
            r@ == DoorsModel::empty(),
    {
        let r = Doors { north: Vec::new(), east: Vec::new(), south: Vec::new(), west: Vec::new() };
        proof {
            assert(r@.north =~= Seq::<DoorEnum>::empty());
            assert(r@.east =~= Seq::<DoorEnum>::empty());
            assert(r@.south =~= Seq::<DoorEnum>::empty());
            assert(r@.west =~= Seq::<DoorEnum>::empty());
        }
        r
    }

    /// An exact copy.
    pub fn copy(&self) -> (r: Doors)
        ensures
            r@ == self@,
    {
        Doors {
            north: copy_door_vec(&self.north),
            east: copy_door_vec(&self.east),
            south: copy_door_vec(&self.south),
            west: copy_door_vec(&self.west),
        }
    }
}

fn copy_door_vec(v: &Vec<DoorEnum>) -> (r: Vec<DoorEnum>)
    ensures
        r@ == v@,
{
    let mut r: Vec<DoorEnum> = Vec::new();
    let mut i: usize = 0;
    while i < v.len()
        invariant
            i <= v.len(),
            r@ == v@.subrange(0, i as int),
        decreases v.len() - i,
    {
        r.push(v[i]);
        proof {
            assert(r@ =~= v@.subrange(0, i + 1 as int));
        }
        i = i + 1;
    }
    proof {
        assert(r@ =~= v@);
    }
    r
}

/// The models of a sequence of nodes, in order.
pub open spec fn models_of(s: Seq<BuildingChunk>) -> Seq<ChunkModel>
    decreases s,
{
    if s.len() == 0 {
        Seq::empty()
    } else {
        seq![s[0]@] + models_of(s.subrange(1, s.len() as int))
    }
}

/// `models_of` maps the sequence pointwise.
pub proof fn lemma_models_of(s: Seq<BuildingChunk>)
    ensures
        models_of(s).len() == s.len(),
        forall|i: int| 0 <= i < s.len() ==> models_of(s)[i] == (#[trigger] s[i])@,
    decreases s.len(),
{
    if s.len() > 0 {
        let sub = s.subrange(1, s.len() as int);
        lemma_models_of(sub);
        assert(models_of(s) == seq![s[0]@] + models_of(sub));
        assert forall|i: int| 0 <= i < s.len() implies models_of(s)[i] == (#[trigger] s[i])@ by {
            if i > 0 {
                assert(sub[i - 1] == s[i]);
                assert(models_of(s)[i] == models_of(sub)[i - 1]);
            }
        }
    }
}

impl View for BuildingChunk {
    type V = ChunkModel;

    open spec fn view(&self) -> ChunkModel
        decreases self,
    {
        ChunkModel {
            rect: self.rect,
            state: match self.divided_chunks {
                None => ChunkState::Untouched,
                Some(BuildingChunkData::Tagged) => ChunkState::Tagged,
                Some(BuildingChunkData::Parent(cs, hall)) => ChunkState::Parent(
                    models_of(cs@),
                    hall,
                ),
            },
            doors: self.doors@,
            horizontal: self.horizontal,
        }
    }
}

impl ChunkModel {
    /// The node has not been split or claimed yet.
    pub open spec fn is_untouched(self) -> bool {
        self.state is Untouched
    }

    /// The node is a finished room.
    pub open spec fn is_tagged(self) -> bool {
        self.state is Tagged
    }

    /// The node has been split.
    pub open spec fn is_parent(self) -> bool {
        self.state is Parent
    }

    /// The children of a parent node.
    pub open spec fn children(self) -> Seq<ChunkModel>
        recommends
            self.is_parent(),
    {
        self.state->Parent_0
    }

    /// Whether the split that produced this parent left a hallway gap.
    pub open spec fn via_hallway(self) -> bool
        recommends
            self.is_parent(),
    {
        self.state->Parent_1
    }

    /// The hallway gap left between consecutive children of this parent.
    pub open spec fn gap(self) -> int
        recommends
            self.is_parent(),
    {
        if self.via_hallway() {
            HALL_WIDTH as int
        } else {
            0
        }
    }

    /// The tiling invariant, recursively at every node: a parent's children
    /// all use one split orientation, and their rectangles tile the parent's
    /// rectangle exactly, separated by the hallway gap and overlapping
    /// nowhere.
    pub open spec fn wf(self) -> bool
        decreases self,
    {
        &&& self.rect.wf()
        &&& self.is_parent() ==> {
            let cs = self.children();
            &&& cs.len() >= 2
            &&& parent_shape(self.rect, cs, self.gap())
            &&& forall|i: int| 0 <= i < cs.len() ==> (#[trigger] cs[i]).wf()
        }
    }
}

/// How a parent's children tile its rectangle. When the children were laid
/// horizontally (stacked along `y`) each child spans the parent's full width,
/// the first child starts at the parent's top edge, each later child starts
/// one gap below its predecessor's bottom edge, and the last child ends at
/// the parent's bottom edge; the vertical case is the mirror image.
pub open spec fn parent_shape(rect: Rect, cs: Seq<ChunkModel>, gap: int) -> bool {
    let hor = cs[0].horizontal;
    &&& cs.len() >= 1
    &&& forall|i: int| 0 <= i < cs.len() ==> (#[trigger] cs[i]).horizontal == hor
    &&& if hor {
        &&& forall|i: int|
            0 <= i < cs.len() ==> (#[trigger] cs[i]).rect.min_x == rect.min_x && cs[i].rect.max_x
                == rect.max_x
        &&& cs[0].rect.min_y == rect.min_y
        &&& cs[cs.len() - 1].rect.max_y == rect.max_y
        &&& forall|i: int|
            0 <= i < cs.len() - 1 ==> (#[trigger] cs[i + 1].rect.min_y) == cs[i].rect.max_y + gap
    } else {
        &&& forall|i: int|
            0 <= i < cs.len() ==> (#[trigger] cs[i]).rect.min_y == rect.min_y && cs[i].rect.max_y
                == rect.max_y
        &&& cs[0].rect.min_x == rect.min_x
        &&& cs[cs.len() - 1].rect.max_x == rect.max_x
        &&& forall|i: int|
            0 <= i < cs.len() - 1 ==> (#[trigger] cs[i + 1].rect.min_x) == cs[i].rect.max_x + gap
    }
}

/// Every node of the tree, in traversal order: children first (in insertion
/// order), then the node itself.
pub open spec fn spec_all_nodes(c: ChunkModel) -> Seq<ChunkModel>
    decreases c, 0nat,
{
    if c.is_parent() {
        spec_all_nodes_seq(c.children()) + seq![c]
    } else {
        seq![c]
    }
}

pub open spec fn spec_all_nodes_seq(s: Seq<ChunkModel>) -> Seq<ChunkModel>
    decreases s, s.len(),
{
    if s.len() == 0 {
        Seq::empty()
    } else {
        spec_all_nodes(s[0]) + spec_all_nodes_seq(s.subrange(1, s.len() as int))
    }
}

/// The rectangles of every leaf (untouched or tagged), in traversal order.
pub open spec fn spec_lowest_rects(c: ChunkModel) -> Seq<Rect>
    decreases c, 0nat,
{
    if c.is_parent() {
        spec_lowest_rects_seq(c.children())
    } else {
        seq![c.rect]
    }
}

pub open spec fn spec_lowest_rects_seq(s: Seq<ChunkModel>) -> Seq<Rect>
    decreases s, s.len(),
{
    if s.len() == 0 {
        Seq::empty()
    } else {
        spec_lowest_rects(s[0]) + spec_lowest_rects_seq(s.subrange(1, s.len() as int))
    }
}

/// The rectangles of every untouched leaf, in traversal order.
pub open spec fn spec_untaken_rects(c: ChunkModel) -> Seq<Rect>
    decreases c, 0nat,
{
    if c.is_parent() {
        spec_untaken_rects_seq(c.children())
    } else if c.is_untouched() {
        seq![c.rect]
    } else {
        Seq::empty()
    }
}

pub open spec fn spec_untaken_rects_seq(s: Seq<ChunkModel>) -> Seq<Rect>
    decreases s, s.len(),
{
    if s.len() == 0 {
        Seq::empty()
    } else {
        spec_untaken_rects(s[0]) + spec_untaken_rects_seq(s.subrange(1, s.len() as int))
    }
}

/// The rectangles of every tagged (room) leaf, in traversal order.
pub open spec fn spec_room_rects(c: ChunkModel) -> Seq<Rect>
    decreases c, 0nat,
{
    if c.is_parent() {
        spec_room_rects_seq(c.children())
    } else if c.is_tagged() {
        seq![c.rect]
    } else {
        Seq::empty()
    }
}

pub open spec fn spec_room_rects_seq(s: Seq<ChunkModel>) -> Seq<Rect>
    decreases s, s.len(),
{
    if s.len() == 0 {
        Seq::empty()
    } else {
        spec_room_rects(s[0]) + spec_room_rects_seq(s.subrange(1, s.len() as int))
    }
}

impl BuildingChunk {
    /// Every node of the tree, children before their parent, the root last.
    pub fn get_all(&self) -> (r: Vec<&BuildingChunk>)
        ensures
            models_of_refs(r@) == spec_all_nodes(self@),
        decreases *self, 0nat,
    {
        let mut out: Vec<&BuildingChunk> = Vec::new();
        if let Some(BuildingChunkData::Parent(children, _)) = &self.divided_chunks {
            out = all_nodes_from(children, 0);
            proof {
                assert(children@.subrange(0, children@.len() as int) =~= children@);
                assert(self@.children() == models_of(children@));
            }
        }
        let ghost prev = out@;
        out.push(self);
        proof {
            lemma_models_of_refs_push(prev, self);
            if self@.is_parent() {
                assert(models_of_refs(out@) == spec_all_nodes_seq(self@.children()) + seq![
                    self@,
                ]);
            } else {
                assert(models_of_refs(prev) =~= Seq::<ChunkModel>::empty());
                assert(models_of_refs(out@) =~= seq![self@]);
            }
        }
        out
    }
}

/// The models of a sequence of node references, in order.
pub open spec fn models_of_refs(s: Seq<&BuildingChunk>) -> Seq<ChunkModel>
    decreases s,
{
    if s.len() == 0 {
        Seq::empty()
    } else {
        seq![s[0]@] + models_of_refs(s.subrange(1, s.len() as int))
    }
}

/// `models_of_refs` maps the sequence pointwise.
pub proof fn lemma_models_of_refs(s: Seq<&BuildingChunk>)
    ensures
        models_of_refs(s).len() == s.len(),
        forall|i: int| 0 <= i < s.len() ==> models_of_refs(s)[i] == (#[trigger] s[i])@,
    decreases s.len(),
{
    if s.len() > 0 {
        let sub = s.subrange(1, s.len() as int);
        lemma_models_of_refs(sub);
        assert(models_of_refs(s) == seq![s[0]@] + models_of_refs(sub));
        assert forall|i: int| 0 <= i < s.len() implies models_of_refs(s)[i] == (
        #[trigger] s[i])@ by {
            if i > 0 {
                assert(sub[i - 1] == s[i]);
                assert(models_of_refs(s)[i] == models_of_refs(sub)[i - 1]);
            }
        }
    }
}

/// Appending one reference appends one model.
pub proof fn lemma_models_of_refs_push(s: Seq<&BuildingChunk>, c: &BuildingChunk)
    ensures
        models_of_refs(s.push(c)) == models_of_refs(s) + seq![c@],
{
    let p = s.push(c);
    lemma_models_of_refs(s);
    lemma_models_of_refs(p);
    assert forall|i: int| 0 <= i < p.len() implies models_of_refs(p)[i] == (models_of_refs(s)
        + seq![c@])[i] by {
        assert(models_of_refs(p)[i] == p[i]@);
        if i < s.len() {
            assert(p[i] == s[i]);
            assert(models_of_refs(s)[i] == s[i]@);
        } else {
            assert(p[i] == c);
        }
    }
    assert(models_of_refs(p) =~= models_of_refs(s) + seq![c@]);
}

/// Concatenating reference sequences concatenates their models.
pub proof fn lemma_models_of_refs_concat(a: Seq<&BuildingChunk>, b: Seq<&BuildingChunk>)
    ensures
        models_of_refs(a + b) == models_of_refs(a) + models_of_refs(b),
{
    let ab = a + b;
    lemma_models_of_refs(a);
    lemma_models_of_refs(b);
    lemma_models_of_refs(ab);
    assert forall|i: int| 0 <= i < ab.len() implies models_of_refs(ab)[i] == (models_of_refs(a)
        + models_of_refs(b))[i] by {
        assert(models_of_refs(ab)[i] == ab[i]@);
        if i < a.len() {
            assert(ab[i] == a[i]);
            assert(models_of_refs(a)[i] == a[i]@);
        } else {
            assert(ab[i] == b[i - a.len()]);
            assert(models_of_refs(b)[i - a.len()] == b[i - a.len()]@);
        }
    }
    assert(models_of_refs(ab) =~= models_of_refs(a) + models_of_refs(b));
}

impl BuildingChunk {
    /// The rectangle of every leaf — every node currently in untouched or
    /// room state — in traversal order.
    pub fn get_lowest_rects(&self) -> (r: Vec<Rect>)
        ensures
            r@ == spec_lowest_rects(self@),
        decreases *self, 0nat,
    {
        let mut out: Vec<Rect> = Vec::new();
        if let Some(data) = &self.divided_chunks {
            match data {
                BuildingChunkData::Parent(children, _) => {
                    out = lowest_rects_from(children, 0);
                    proof {
                        assert(children@.subrange(0, children@.len() as int) =~= children@);
                        assert(self@.children() == models_of(children@));
                    }
                },
                BuildingChunkData::Tagged => {
                    out.push(self.rect);
                    proof {
                        assert(out@ =~= spec_lowest_rects(self@));
                    }
                },
            }
        } else {
            out.push(self.rect);
            proof {
                assert(out@ =~= spec_lowest_rects(self@));
            }
        }
        out
    }

    /// The rectangle of every untouched leaf, in traversal order: the nodes
    /// still eligible for subdivision or room assignment. Tagged rooms never
    /// appear here.
    pub fn get_lowest_untaken(&self) -> (r: Vec<Rect>)
        ensures
            r@ == spec_untaken_rects(self@),
        decreases *self, 0nat,
    {
        let mut out: Vec<Rect> = Vec::new();
        if let Some(data) = &self.divided_chunks {
            match data {
                BuildingChunkData::Parent(children, _) => {
                    out = untaken_rects_from(children, 0);
                    proof {
                        assert(children@.subrange(0, children@.len() as int) =~= children@);
                        assert(self@.children() == models_of(children@));
                    }
                },
                BuildingChunkData::Tagged => {
                    proof {
                        assert(out@ =~= spec_untaken_rects(self@));
                    }
                },
            }
        } else {
            out.push(self.rect);
            proof {
                assert(out@ =~= spec_untaken_rects(self@));
            }
        }
        out
    }
}

fn lowest_rects_from(v: &Vec<BuildingChunk>, i: usize) -> (r: Vec<Rect>)
    requires
        i <= v.len(),
    ensures
        r@ == spec_lowest_rects_seq(models_of(v@.subrange(i as int, v@.len() as int))),
    decreases v@, v@.len() - i,
{
    let mut out: Vec<Rect> = Vec::new();
    if i < v.len() {
        let mut head = v[i].get_lowest_rects();
        let mut tail = lowest_rects_from(v, i + 1);
        let ghost gh = head@;
        let ghost gt = tail@;
        out.append(&mut head);
        out.append(&mut tail);
        proof {
            assert(out@ =~= gh + gt);
            let rest = v@.subrange(i as int, v@.len() as int);
            let rest_tail = v@.subrange(i + 1 as int, v@.len() as int);
            lemma_models_of(rest);
            lemma_models_of(rest_tail);
            assert forall|j: int| 0 <= j < rest_tail.len() implies models_of(rest).subrange(
                1,
                models_of(rest).len() as int,
            )[j] == models_of(rest_tail)[j] by {
                assert(models_of(rest)[j + 1] == rest[j + 1]@);
                assert(rest[j + 1] == rest_tail[j]);
            }
            assert(models_of(rest).subrange(1, models_of(rest).len() as int) =~= models_of(
                rest_tail,
            ));
            assert(models_of(rest)[0] == v@[i as int]@);
            assert(out@ =~= spec_lowest_rects_seq(models_of(rest)));
        }
    } else {
        proof {
            assert(v@.subrange(i as int, v@.len() as int) =~= Seq::<BuildingChunk>::empty());
        }
    }
    out
}

fn untaken_rects_from(v: &Vec<BuildingChunk>, i: usize) -> (r: Vec<Rect>)
    requires
        i <= v.len(),
    ensures
        r@ == spec_untaken_rects_seq(models_of(v@.subrange(i as int, v@.len() as int))),
    decreases v@, v@.len() - i,
{
    let mut out: Vec<Rect> = Vec::new();
    if i < v.len() {
        let mut head = v[i].get_lowest_untaken();
        let mut tail = untaken_rects_from(v, i + 1);
        let ghost gh = head@;
        let ghost gt = tail@;
        out.append(&mut head);
        out.append(&mut tail);
        proof {
            assert(out@ =~= gh + gt);
            let rest = v@.subrange(i as int, v@.len() as int);
            let rest_tail = v@.subrange(i + 1 as int, v@.len() as int);
            lemma_models_of(rest);
            lemma_models_of(rest_tail);
            assert forall|j: int| 0 <= j < rest_tail.len() implies models_of(rest).subrange(
                1,
                models_of(rest).len() as int,
            )[j] == models_of(rest_tail)[j] by {
                assert(models_of(rest)[j + 1] == rest[j + 1]@);
                assert(rest[j + 1] == rest_tail[j]);
            }
            assert(models_of(rest).subrange(1, models_of(rest).len() as int) =~= models_of(
                rest_tail,
            ));
            assert(models_of(rest)[0] == v@[i as int]@);
            assert(out@ =~= spec_untaken_rects_seq(models_of(rest)));
        }
    } else {
        proof {
            assert(v@.subrange(i as int, v@.len() as int) =~= Seq::<BuildingChunk>::empty());
        }
    }
    out
}

fn all_nodes_from<'a>(v: &'a Vec<BuildingChunk>, i: usize) -> (r: Vec<&'a BuildingChunk>)
    requires
        i <= v.len(),
    ensures
        models_of_refs(r@) == spec_all_nodes_seq(models_of(v@.subrange(i as int, v@.len() as int))),
    decreases v@, v@.len() - i,
{
    let mut out: Vec<&BuildingChunk> = Vec::new();
    if i < v.len() {
        let mut head = v[i].get_all();
        let mut tail = all_nodes_from(v, i + 1);
        let ghost gh = head@;
        let ghost gt = tail@;
        out.append(&mut head);
        out.append(&mut tail);
        proof {
            assert(out@ =~= gh + gt);
            lemma_models_of_refs_concat(gh, gt);
            let rest = v@.subrange(i as int, v@.len() as int);
            let rest_tail = v@.subrange(i + 1 as int, v@.len() as int);
            lemma_models_of(rest);
            lemma_models_of(rest_tail);
            assert forall|j: int| 0 <= j < rest_tail.len() implies models_of(rest).subrange(
                1,
                models_of(rest).len() as int,
            )[j] == models_of(rest_tail)[j] by {
                assert(models_of(rest)[j + 1] == rest[j + 1]@);
                assert(rest[j + 1] == rest_tail[j]);
            }
            assert(models_of(rest).subrange(1, models_of(rest).len() as int) =~= models_of(
                rest_tail,
            ));
            assert(models_of(rest)[0] == v@[i as int]@);
            assert(models_of_refs(out@) =~= spec_all_nodes_seq(models_of(rest)));
        }
    } else {
        proof {
            assert(v@.subrange(i as int, v@.len() as int) =~= Seq::<BuildingChunk>::empty());
        }
    }
    out
}

} // verus!
