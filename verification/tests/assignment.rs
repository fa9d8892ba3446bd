use floorplan::rect::Rect;
use floorplan::rng::RandomSource;
use floorplan::tree::{BuildingChunk, BuildingChunkData, Doors};
use floorplan::params::RoomSpec;

fn no_doors() -> Doors {
    Doors { north: Vec::new(), east: Vec::new(), south: Vec::new(), west: Vec::new() }
}

fn leaf(min_x: u64, min_y: u64, max_x: u64, max_y: u64, horizontal: bool) -> BuildingChunk {
    BuildingChunk {
        rect: Rect { min_x, min_y, max_x, max_y },
        divided_chunks: None,
        doors: no_doors(),
        horizontal,
    }
}

fn row(rect: Rect, children: Vec<BuildingChunk>) -> BuildingChunk {
    BuildingChunk {
        rect,
        divided_chunks: Some(BuildingChunkData::Parent(children, false)),
        doors: no_doors(),
        horizontal: true,
    }
}

const TOUCHING: Rect = Rect { min_x: 0, min_y: 0, max_x: 5, max_y: 10 };
const INTERIOR: Rect = Rect { min_x: 20, min_y: 10, max_x: 25, max_y: 20 };

/// A two-level tree checked against its own bounds, as generation uses them:
/// two leaves of area 50 — one on the building perimeter, one strictly
/// interior — among filler leaves whose areas lie outside every range these
/// tests use.
fn split_world() -> (BuildingChunk, Rect) {
    let bounds = Rect { min_x: 0, min_y: 0, max_x: 45, max_y: 30 };
    let band_a = row(
        Rect { min_x: 0, min_y: 0, max_x: 45, max_y: 10 },
        vec![leaf(0, 0, 5, 10, false), leaf(5, 0, 45, 10, false)],
    );
    let band_b = row(
        Rect { min_x: 0, min_y: 10, max_x: 45, max_y: 20 },
        vec![
            leaf(0, 10, 20, 20, false),
            leaf(20, 10, 25, 20, false),
            leaf(25, 10, 45, 20, false),
        ],
    );
    let band_c = leaf(0, 20, 45, 30, true);
    let root = BuildingChunk {
        rect: bounds,
        divided_chunks: Some(BuildingChunkData::Parent(vec![band_a, band_b, band_c], false)),
        doors: no_doors(),
        horizontal: false,
    };
    (root, bounds)
}

/// The rectangles of every tagged leaf, in traversal order.
fn tagged_rects(node: &BuildingChunk) -> Vec<Rect> {
    match &node.divided_chunks {
        None => vec![],
        Some(BuildingChunkData::Tagged) => vec![node.rect],
        Some(BuildingChunkData::Parent(children, _)) => {
            children.iter().flat_map(tagged_rects).collect()
        }
    }
}

#[test]
fn perimeter_demand_only_ever_assigns_the_touching_leaf() {
    // Two candidates of area 50 in range; one touches the building
    // perimeter, the other is strictly interior. A perimeter-demanding
    // requirement must never claim the interior one, whatever the seed.
    let req =
        RoomSpec { area_min: 30, area_max: 100, has_direct_access: true, room: None };
    let mut seen_assignment = false;
    for seed in 0..100 {
        let (root, bounds) = split_world();
        let mut rng = RandomSource::new(seed);
        let (after, assigned) = root.assign_requirement(&req, &bounds, &mut rng);
        if let Some(r) = assigned {
            assert_eq!(r, TOUCHING);
            seen_assignment = true;
        }
        for tagged in tagged_rects(&after) {
            assert_eq!(tagged, TOUCHING);
        }
    }
    assert!(seen_assignment, "no seed accepted the touching candidate");
}

#[test]
fn interior_leaf_draws_no_coin_for_a_perimeter_requirement() {
    // A tree holding only the interior candidate: a perimeter-demanding
    // pass must walk it without consuming any randomness at all.
    let req =
        RoomSpec { area_min: 30, area_max: 100, has_direct_access: true, room: None };
    let bounds = Rect { min_x: 0, min_y: 0, max_x: 45, max_y: 30 };
    let band_b = row(
        Rect { min_x: 0, min_y: 10, max_x: 45, max_y: 20 },
        vec![
            leaf(0, 10, 20, 20, false),
            leaf(20, 10, 25, 20, false),
            leaf(25, 10, 45, 20, false),
        ],
    );
    let mut rng = RandomSource::new(9);
    let before = rng;
    let (_, assigned) = band_b.assign_requirement(&req, &bounds, &mut rng);
    assert_eq!(assigned, None);
    assert_eq!(rng, before);
}

#[test]
fn without_perimeter_demand_both_leaves_are_candidates() {
    let req =
        RoomSpec { area_min: 30, area_max: 100, has_direct_access: false, room: None };
    let mut interior_assigned = false;
    for seed in 0..100 {
        let (root, bounds) = split_world();
        let mut rng = RandomSource::new(seed);
        let (_, assigned) = root.assign_requirement(&req, &bounds, &mut rng);
        if assigned == Some(INTERIOR) {
            interior_assigned = true;
        }
    }
    assert!(interior_assigned, "the interior leaf was never assigned without a perimeter demand");
}

#[test]
fn area_range_filters_candidates() {
    // both small leaves have area 50: outside [60, 100], so no seed may
    // ever assign anything
    let req =
        RoomSpec { area_min: 60, area_max: 100, has_direct_access: false, room: None };
    for seed in 0..50 {
        let (root, bounds) = split_world();
        let mut rng = RandomSource::new(seed);
        let (after, assigned) = root.assign_requirement(&req, &bounds, &mut rng);
        assert_eq!(assigned, None);
        assert!(tagged_rects(&after).is_empty());
    }
}

#[test]
fn tagged_rooms_are_never_candidates() {
    let req =
        RoomSpec { area_min: 30, area_max: 100, has_direct_access: false, room: None };
    for seed in 0..50 {
        let (mut root, bounds) = split_world();
        if let Some(BuildingChunkData::Parent(bands, _)) = &mut root.divided_chunks {
            for band in bands.iter_mut() {
                if let Some(BuildingChunkData::Parent(children, _)) = &mut band.divided_chunks {
                    for child in children.iter_mut() {
                        child.divided_chunks = Some(BuildingChunkData::Tagged);
                    }
                } else {
                    band.divided_chunks = Some(BuildingChunkData::Tagged);
                }
            }
        }
        let mut rng = RandomSource::new(seed);
        let (_, assigned) = root.assign_requirement(&req, &bounds, &mut rng);
        assert_eq!(assigned, None);
    }
}

#[test]
fn degenerate_zero_weight_candidate_is_rejected_without_a_draw() {
    // a zero-area leaf against a requirement centred on zero: the weighted
    // coin would be zero over zero, and the pass must simply decline
    let req = RoomSpec { area_min: 0, area_max: 0, has_direct_access: false, room: None };
    let node = leaf(3, 3, 3, 3, false);
    let bounds = Rect { min_x: 0, min_y: 0, max_x: 10, max_y: 10 };
    let mut rng = RandomSource::new(1);
    let before = rng;
    let (after, assigned) = node.assign_requirement(&req, &bounds, &mut rng);
    assert_eq!(assigned, None);
    assert!(after.divided_chunks.is_none());
    // no randomness was consumed
    assert_eq!(rng, before);
}

#[test]
fn default_requirement_is_a_small_unassigned_room() {
    let req = RoomSpec::default();
    assert_eq!(req.area_min, 8);
    assert_eq!(req.area_max, 15);
    assert!(!req.has_direct_access);
    assert_eq!(req.room, None);
}
