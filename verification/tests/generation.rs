use floorplan::rect::Rect;
use floorplan::rng::RandomSource;
use floorplan::tree::{BuildingChunk, BuildingChunkData, DoorEnum, HALL_WIDTH};
use floorplan::params::{BuildingIterationParameters, RoomSpec, PROB_SCALE, MAX_ASPECT_OFFSET,
    AREA_LIMIT};
use floorplan::generate::{generate_building, BuildingPlan, GenerationError};

fn round(
    min: usize,
    max: usize,
    hallway: bool,
    factor: u64,
    offset: u64,
    reqs: Vec<RoomSpec>,
) -> BuildingIterationParameters {
    BuildingIterationParameters {
        min_rooms_in_split: min,
        max_rooms_in_split: max,
        is_hallway: hallway,
        aspect_ratio_probability_factor: factor,
        aspect_ratio_probability_offset: offset,
        room_requirements: reqs,
    }
}

fn req(min: u64, max: u64, direct: bool) -> RoomSpec {
    RoomSpec { area_min: min, area_max: max, has_direct_access: direct, room: None }
}

fn house_schedule() -> Vec<(BuildingIterationParameters, usize)> {
    vec![
        (
            round(
                2,
                4,
                true,
                300,
                PROB_SCALE,
                vec![req(30, 300, false), req(30, 300, false), req(300, 1000, true)],
            ),
            2,
        ),
        (round(2, 3, false, 700, PROB_SCALE, vec![req(30, 300, false), req(30, 300, false)]), 4),
    ]
}

#[test]
fn empty_round_list_is_rejected() {
    let mut rng = RandomSource::new(0);
    assert_eq!(generate_building(vec![], &mut rng), Err(GenerationError::EmptyRounds));
}

#[test]
fn inverted_split_range_is_rejected() {
    let mut rng = RandomSource::new(0);
    let iters = vec![(round(3, 2, false, 0, PROB_SCALE, vec![]), 1)];
    assert_eq!(generate_building(iters, &mut rng), Err(GenerationError::InvalidSplitRange));
}

#[test]
fn overlarge_probability_offset_is_rejected() {
    let mut rng = RandomSource::new(0);
    let iters = vec![(round(2, 3, false, 0, MAX_ASPECT_OFFSET + 1, vec![]), 1)];
    assert_eq!(
        generate_building(iters, &mut rng),
        Err(GenerationError::InvalidAspectParameters)
    );
}

#[test]
fn offset_above_certainty_is_accepted_and_acts_like_certainty() {
    // an acceptance offset above one is legal — the probability is clamped
    // only after the imbalance suppression is subtracted — and with a zero
    // suppression factor it accepts every split, like certainty itself
    let mut rng = RandomSource::new(17);
    let iters = vec![(round(2, 2, true, 0, 2 * PROB_SCALE, vec![]), 1)];
    assert!(generate_building(iters, &mut rng).is_ok());
    for seed in 0..40 {
        let mut rng = RandomSource::new(seed);
        let mut node = floorplan::tree::BuildingChunk {
            rect: Rect { min_x: 0, min_y: 0, max_x: 20, max_y: 20 },
            divided_chunks: None,
            doors: floorplan::tree::Doors {
                north: Vec::new(),
                east: Vec::new(),
                south: Vec::new(),
                west: Vec::new(),
            },
            horizontal: false,
        };
        node.divide_evenly(2, true, 0, 2 * PROB_SCALE, false, &mut rng);
        assert!(matches!(
            node.divided_chunks,
            Some(BuildingChunkData::Parent(_, true))
        ));
    }
}

#[test]
fn inverted_area_range_is_rejected() {
    let mut rng = RandomSource::new(0);
    let iters = vec![(round(2, 3, false, 0, PROB_SCALE, vec![req(100, 30, false)]), 1)];
    assert_eq!(generate_building(iters, &mut rng), Err(GenerationError::InvalidAreaRange));
}

#[test]
fn oversized_plan_is_rejected() {
    let mut rng = RandomSource::new(0);
    let big = req(AREA_LIMIT, AREA_LIMIT, false);
    let iters = vec![(round(2, 3, false, 0, PROB_SCALE, vec![big, big]), 1)];
    assert_eq!(generate_building(iters, &mut rng), Err(GenerationError::PlanTooLarge));
}

#[test]
fn validation_draws_no_randomness() {
    let mut rng = RandomSource::new(123);
    let before = rng;
    let _ = generate_building(vec![], &mut rng);
    assert_eq!(rng, before);
}

#[test]
fn generation_is_deterministic_under_a_fixed_seed() {
    let mut rng1 = RandomSource::new(2024);
    let mut rng2 = RandomSource::new(2024);
    let plan1 = generate_building(house_schedule(), &mut rng1).unwrap();
    let plan2 = generate_building(house_schedule(), &mut rng2).unwrap();
    assert_eq!(plan1, plan2);
    assert_eq!(rng1, rng2);
}

#[test]
fn root_occupies_the_bounds_and_carries_the_exterior_door() {
    let mut rng = RandomSource::new(7);
    let plan = generate_building(house_schedule(), &mut rng).unwrap();
    assert_eq!(plan.root.rect, plan.bounds);
    assert_eq!(plan.bounds.min_x, 0);
    assert_eq!(plan.bounds.min_y, 0);
    assert_eq!(plan.root.doors.north, vec![DoorEnum::Exterior]);
}

/// Walk the tree checking the tiling invariant at every parent and summing
/// leaf and hallway-gap areas.
fn check_tiling(node: &BuildingChunk) -> (u64, u64) {
    match &node.divided_chunks {
        None | Some(BuildingChunkData::Tagged) => (node.rect.area(), 0),
        Some(BuildingChunkData::Parent(children, hallway)) => {
            let gap = if *hallway { HALL_WIDTH } else { 0 };
            assert!(children.len() >= 2);
            let horizontal = children[0].horizontal;
            let mut leaf_area: u64 = 0;
            let mut gap_area: u64 = 0;
            for (i, child) in children.iter().enumerate() {
                assert_eq!(child.horizontal, horizontal);
                if horizontal {
                    assert_eq!(child.rect.min_x, node.rect.min_x);
                    assert_eq!(child.rect.max_x, node.rect.max_x);
                    if i == 0 {
                        assert_eq!(child.rect.min_y, node.rect.min_y);
                    } else {
                        assert_eq!(child.rect.min_y, children[i - 1].rect.max_y + gap);
                    }
                    if i == children.len() - 1 {
                        assert_eq!(child.rect.max_y, node.rect.max_y);
                    }
                } else {
                    assert_eq!(child.rect.min_y, node.rect.min_y);
                    assert_eq!(child.rect.max_y, node.rect.max_y);
                    if i == 0 {
                        assert_eq!(child.rect.min_x, node.rect.min_x);
                    } else {
                        assert_eq!(child.rect.min_x, children[i - 1].rect.max_x + gap);
                    }
                    if i == children.len() - 1 {
                        assert_eq!(child.rect.max_x, node.rect.max_x);
                    }
                }
                let (l, g) = check_tiling(child);
                leaf_area += l;
                gap_area += g;
            }
            let strip = if horizontal { node.rect.width() } else { node.rect.height() };
            gap_area += (children.len() as u64 - 1) * gap * strip;
            (leaf_area, gap_area)
        }
    }
}

#[test]
fn leaves_tile_the_building_exactly() {
    for seed in 0..30 {
        let mut rng = RandomSource::new(seed);
        let plan = generate_building(house_schedule(), &mut rng).unwrap();
        let (leaf_area, gap_area) = check_tiling(&plan.root);
        assert_eq!(leaf_area + gap_area, plan.bounds.area());
        // the same sum through the public traversal
        let from_leaves: u64 = plan.root.get_lowest_rects().iter().map(|r| {
            (r.max_x - r.min_x) * (r.max_y - r.min_y)
        }).sum();
        assert_eq!(from_leaves, leaf_area);
    }
}

#[test]
fn assigned_requirements_comply_with_range_and_perimeter() {
    for seed in 0..30 {
        let mut rng = RandomSource::new(seed);
        let plan = generate_building(house_schedule(), &mut rng).unwrap();
        assert_eq!(plan.requirements.len(), 5);
        for r in &plan.requirements {
            if let Some(rect) = r.room {
                let area = (rect.max_x - rect.min_x) * (rect.max_y - rect.min_y);
                assert!(r.area_min <= area && area <= r.area_max);
                if r.has_direct_access {
                    // the room must reach the building perimeter, not merely
                    // lie somewhere inside the bounds
                    assert!(
                        rect.min_x == plan.bounds.min_x
                            || rect.max_x == plan.bounds.max_x
                            || rect.min_y == plan.bounds.min_y
                            || rect.max_y == plan.bounds.max_y
                    );
                }
            }
        }
    }
}

#[test]
fn unassigned_lists_exactly_the_requirements_without_rooms() {
    let mut rng = RandomSource::new(77);
    let plan = generate_building(house_schedule(), &mut rng).unwrap();
    let unassigned = plan.unassigned();
    let expected: Vec<RoomSpec> =
        plan.requirements.iter().copied().filter(|r| r.room.is_none()).collect();
    assert_eq!(unassigned, expected);
}

#[test]
fn rooms_match_tagged_leaves() {
    // every requirement that reports a room points at a leaf that is tagged
    // in the tree
    let mut rng = RandomSource::new(41);
    let plan = generate_building(house_schedule(), &mut rng).unwrap();
    let all = plan.root.get_all();
    for r in &plan.requirements {
        if let Some(rect) = r.room {
            assert!(all.iter().any(|n| {
                n.rect == rect && matches!(n.divided_chunks, Some(BuildingChunkData::Tagged))
            }));
        }
    }
}

#[test]
fn further_rounds_never_disturb_rooms() {
    // run a plan, remember its tagged leaves, then subdivide further:
    // the rooms must survive unchanged
    let mut rng = RandomSource::new(3);
    let plan = generate_building(house_schedule(), &mut rng).unwrap();
    let rooms_before: Vec<Rect> = plan
        .root
        .get_all()
        .iter()
        .filter(|n| matches!(n.divided_chunks, Some(BuildingChunkData::Tagged)))
        .map(|n| n.rect)
        .collect();
    let extra = round(2, 4, false, 0, PROB_SCALE, vec![]);
    let mut root = plan.root;
    for _ in 0..3 {
        root = root.divide(&extra, &mut rng);
    }
    let rooms_after: Vec<Rect> = root
        .get_all()
        .iter()
        .filter(|n| matches!(n.divided_chunks, Some(BuildingChunkData::Tagged)))
        .map(|n| n.rect)
        .collect();
    assert_eq!(rooms_before, rooms_after);
    for rect in &rooms_before {
        assert!(!root.get_lowest_untaken().contains(rect));
    }
}

#[test]
fn plan_reports_every_requirement_in_round_order() {
    let mut rng = RandomSource::new(5);
    let plan: BuildingPlan = generate_building(house_schedule(), &mut rng).unwrap();
    let expected: Vec<(u64, u64, bool)> =
        vec![(30, 300, false), (30, 300, false), (300, 1000, true), (30, 300, false), (30, 300, false)];
    let got: Vec<(u64, u64, bool)> = plan
        .requirements
        .iter()
        .map(|r| (r.area_min, r.area_max, r.has_direct_access))
        .collect();
    assert_eq!(got, expected);
}
