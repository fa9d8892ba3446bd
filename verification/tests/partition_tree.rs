use floorplan::rect::Rect;
use floorplan::rng::RandomSource;
use floorplan::tree::{BuildingChunk, BuildingChunkData, DoorEnum, Doors, HALL_WIDTH};
use floorplan::params::{BuildingIterationParameters, RoomSpec, PROB_SCALE};

fn no_doors() -> Doors {
    Doors { north: Vec::new(), east: Vec::new(), south: Vec::new(), west: Vec::new() }
}

fn leaf(min_x: u64, min_y: u64, max_x: u64, max_y: u64) -> BuildingChunk {
    BuildingChunk {
        rect: Rect { min_x, min_y, max_x, max_y },
        divided_chunks: None,
        doors: no_doors(),
        horizontal: false,
    }
}

/// A hand-built parent: two children side by side along x with a hallway gap.
fn two_leaf_parent() -> BuildingChunk {
    BuildingChunk {
        rect: Rect { min_x: 0, min_y: 0, max_x: 22, max_y: 10 },
        divided_chunks: Some(BuildingChunkData::Parent(
            vec![leaf(0, 0, 10, 10), leaf(12, 0, 22, 10)],
            true,
        )),
        doors: no_doors(),
        horizontal: false,
    }
}

#[test]
fn traversals_of_a_leaf() {
    let l = leaf(0, 0, 4, 4);
    assert_eq!(l.get_all().len(), 1);
    assert_eq!(l.get_lowest_rects(), vec![l.rect]);
    assert_eq!(l.get_lowest_untaken(), vec![l.rect]);
}

#[test]
fn traversals_visit_children_before_parent() {
    let p = two_leaf_parent();
    let all = p.get_all();
    assert_eq!(all.len(), 3);
    assert_eq!(all[0].rect, Rect { min_x: 0, min_y: 0, max_x: 10, max_y: 10 });
    assert_eq!(all[1].rect, Rect { min_x: 12, min_y: 0, max_x: 22, max_y: 10 });
    assert_eq!(all[2].rect, p.rect);
    assert_eq!(
        p.get_lowest_rects(),
        vec![
            Rect { min_x: 0, min_y: 0, max_x: 10, max_y: 10 },
            Rect { min_x: 12, min_y: 0, max_x: 22, max_y: 10 },
        ]
    );
}

#[test]
fn tagged_rooms_are_leaves_but_never_untaken() {
    let mut p = two_leaf_parent();
    if let Some(BuildingChunkData::Parent(children, _)) = &mut p.divided_chunks {
        children[0].divided_chunks = Some(BuildingChunkData::Tagged);
    }
    // the room still shows up among the leaves...
    assert_eq!(p.get_lowest_rects().len(), 2);
    // ...but never among the untouched leaves
    assert_eq!(p.get_lowest_untaken(), vec![Rect { min_x: 12, min_y: 0, max_x: 22, max_y: 10 }]);
}

#[test]
fn certain_split_lays_out_two_children_around_the_hallway() {
    // With the offset at certainty and no suppression, the split must happen
    // for every seed, and the children must flank one hallway strip.
    for seed in 0..40 {
        let mut rng = RandomSource::new(seed);
        let mut node = leaf(0, 0, 20, 20);
        node.divide_evenly(2, true, 0, PROB_SCALE, false, &mut rng);
        match &node.divided_chunks {
            Some(BuildingChunkData::Parent(children, true)) => {
                assert_eq!(children.len(), 2);
                // (20 - hallway) / 2 = 9 wide each
                assert_eq!(children[0].rect, Rect { min_x: 0, min_y: 0, max_x: 9, max_y: 20 });
                assert_eq!(
                    children[1].rect,
                    Rect { min_x: 9 + HALL_WIDTH, min_y: 0, max_x: 20, max_y: 20 }
                );
                assert!(children[0].divided_chunks.is_none());
                assert!(children[1].divided_chunks.is_none());
            }
            other => panic!("expected an accepted hallway split, found {:?}", other),
        }
    }
}

#[test]
fn hallway_split_stamps_doors_towards_siblings() {
    let mut rng = RandomSource::new(11);
    let mut node = leaf(0, 0, 20, 20);
    node.divide_evenly(2, true, 0, PROB_SCALE, false, &mut rng);
    if let Some(BuildingChunkData::Parent(children, _)) = &node.divided_chunks {
        // vertical layout: the first child faces its sibling to the east,
        // the second to the west
        assert_eq!(children[0].doors.east, vec![DoorEnum::Hallway]);
        assert!(children[0].doors.west.is_empty());
        assert_eq!(children[1].doors.west, vec![DoorEnum::Hallway]);
        assert!(children[1].doors.east.is_empty());
    } else {
        panic!("split did not happen");
    }
}

#[test]
fn plain_split_children_inherit_parent_doors() {
    let mut rng = RandomSource::new(5);
    let mut node = leaf(0, 0, 40, 40);
    node.doors.north.push(DoorEnum::Exterior);
    node.divide_evenly(2, false, 0, PROB_SCALE, false, &mut rng);
    if let Some(BuildingChunkData::Parent(children, false)) = &node.divided_chunks {
        assert_eq!(children.len(), 2);
        for child in children {
            assert_eq!(child.doors.north, vec![DoorEnum::Exterior]);
        }
        // no gap without a hallway: 40 / 2 = 20 each
        assert_eq!(children[0].rect, Rect { min_x: 0, min_y: 0, max_x: 20, max_y: 40 });
        assert_eq!(children[1].rect, Rect { min_x: 20, min_y: 0, max_x: 40, max_y: 40 });
    } else {
        panic!("split did not happen");
    }
}

#[test]
fn undersized_split_is_always_rejected() {
    // (10 - hallway) / 2 = 4, at most the minimum room dimension, so the
    // node must stay untouched whatever the seed.
    for seed in 0..40 {
        let mut rng = RandomSource::new(seed);
        let mut node = leaf(0, 0, 10, 10);
        node.divide_evenly(2, true, 0, PROB_SCALE, false, &mut rng);
        assert!(node.divided_chunks.is_none());
    }
}

#[test]
fn single_child_split_is_a_no_op() {
    let mut rng = RandomSource::new(3);
    let mut node = leaf(0, 0, 20, 20);
    node.divide_evenly(1, true, 0, PROB_SCALE, false, &mut rng);
    assert!(node.divided_chunks.is_none());
    node.divide_evenly(0, true, 0, PROB_SCALE, false, &mut rng);
    assert!(node.divided_chunks.is_none());
}

#[test]
fn rooms_are_terminal_under_subdivision() {
    let params = BuildingIterationParameters {
        min_rooms_in_split: 2,
        max_rooms_in_split: 4,
        is_hallway: false,
        aspect_ratio_probability_factor: 0,
        aspect_ratio_probability_offset: PROB_SCALE,
        room_requirements: vec![],
    };
    for seed in 0..20 {
        let mut rng = RandomSource::new(seed);
        let mut room = leaf(0, 0, 100, 100);
        room.divided_chunks = Some(BuildingChunkData::Tagged);
        let before_rect = room.rect;
        let room = room.divide(&params, &mut rng);
        assert!(matches!(room.divided_chunks, Some(BuildingChunkData::Tagged)));
        assert_eq!(room.rect, before_rect);
    }
}

#[test]
fn divide_recurses_into_children_not_parents() {
    let params = BuildingIterationParameters {
        min_rooms_in_split: 2,
        max_rooms_in_split: 2,
        is_hallway: false,
        aspect_ratio_probability_factor: 0,
        aspect_ratio_probability_offset: PROB_SCALE,
        room_requirements: vec![],
    };
    let mut rng = RandomSource::new(9);
    let p = two_leaf_parent().divide(&params, &mut rng);
    // the parent keeps exactly its two children; only they may deepen
    if let Some(BuildingChunkData::Parent(children, _)) = &p.divided_chunks {
        assert_eq!(children.len(), 2);
    } else {
        panic!("parent node lost its children");
    }
}
