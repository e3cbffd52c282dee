use dungeon_core::tile::{
    move_object, MoveIntent, PositionQuery, PositionQueryError, TileIndex, TilePosition,
};

fn everyone() -> PositionQuery {
    PositionQuery::new(vec![1, 2, 3, 4, 5, 6, 7, 8, 9])
}

fn bucket(index: &TileIndex, x: i32, y: i32) -> Vec<u64> {
    everyone().iter(index, &TilePosition::new(x, y))
}

#[test]
fn insert_and_query() {
    let mut index = TileIndex::new();
    index.on_position_set(1, TilePosition::new(0, 0));
    index.on_position_set(2, TilePosition::new(0, 0));
    index.on_position_set(3, TilePosition::new(1, 0));

    assert_eq!(bucket(&index, 0, 0), vec![1, 2]);
    assert_eq!(bucket(&index, 1, 0), vec![3]);
    assert_eq!(bucket(&index, 5, 5), Vec::<u64>::new());

    let q = everyone();
    assert_eq!(
        q.get(&index, &TilePosition::new(0, 0)),
        Err(PositionQueryError::MultipleMatches)
    );
    assert_eq!(q.get(&index, &TilePosition::new(1, 0)), Ok(3));
    assert_eq!(
        q.get(&index, &TilePosition::new(5, 5)),
        Err(PositionQueryError::NoMatchingEntity)
    );

    let mut q = everyone();
    let index2 = index;
    assert_eq!(q.get_mut(&index2, &TilePosition::new(1, 0)), Ok(3));
}

#[test]
fn filter_restricts_matches() {
    let mut index = TileIndex::new();
    index.on_position_set(1, TilePosition::new(2, 2));
    index.on_position_set(2, TilePosition::new(2, 2));

    let only_two = PositionQuery::new(vec![2]);
    assert_eq!(only_two.iter(&index, &TilePosition::new(2, 2)), vec![2]);
    assert_eq!(only_two.get(&index, &TilePosition::new(2, 2)), Ok(2));

    let nobody = PositionQuery::new(vec![]);
    assert_eq!(
        nobody.get(&index, &TilePosition::new(2, 2)),
        Err(PositionQueryError::NoMatchingEntity)
    );
}

#[test]
fn index_consistency_through_insert_move_remove() {
    let mut index = TileIndex::new();
    let positions = [(0, 0), (1, 0), (4, 4)];
    for (e, (x, y)) in positions.iter().enumerate() {
        index.on_position_set(e as u64 + 1, TilePosition::new(*x, *y));
    }

    // each live entity sits in exactly one bucket, exactly once
    let cells: Vec<(i32, i32)> = (0..6).flat_map(|x| (0..6).map(move |y| (x, y))).collect();
    let count_of = |index: &TileIndex, e: u64| -> usize {
        cells
            .iter()
            .map(|&(x, y)| bucket(index, x, y).iter().filter(|&&v| v == e).count())
            .sum()
    };
    for e in 1..=3u64 {
        assert_eq!(count_of(&index, e), 1);
    }

    // a committed move leaves one entry, at the new position
    let solid = PositionQuery::new(vec![]);
    let landed = move_object(
        &mut index,
        &solid,
        1,
        TilePosition::new(0, 0),
        MoveIntent { dx: 2, dy: 3 },
    );
    assert_eq!(landed, TilePosition::new(2, 3));
    assert_eq!(count_of(&index, 1), 1);
    assert_eq!(bucket(&index, 2, 3), vec![1]);
    assert_eq!(bucket(&index, 0, 0), Vec::<u64>::new());

    // a despawn leaves no stale entry
    index.on_position_changed(2, TilePosition::new(1, 0));
    assert_eq!(count_of(&index, 2), 0);
    assert_eq!(count_of(&index, 3), 1);
}

#[test]
fn movement_blocked_by_solid_occupant() {
    let mut index = TileIndex::new();
    index.on_position_set(1, TilePosition::new(0, 0));
    index.on_position_set(2, TilePosition::new(1, 0));
    let solid = PositionQuery::new(vec![2]);

    // blocked: the target holds a solid occupant, so nothing changes
    let landed = move_object(
        &mut index,
        &solid,
        1,
        TilePosition::new(0, 0),
        MoveIntent { dx: 1, dy: 0 },
    );
    assert_eq!(landed, TilePosition::new(0, 0));
    assert_eq!(bucket(&index, 0, 0), vec![1]);
    assert_eq!(bucket(&index, 1, 0), vec![2]);

    // once the occupant is gone, the same move succeeds
    index.on_position_changed(2, TilePosition::new(1, 0));
    let landed = move_object(
        &mut index,
        &solid,
        1,
        TilePosition::new(0, 0),
        MoveIntent { dx: 1, dy: 0 },
    );
    assert_eq!(landed, TilePosition::new(1, 0));
    assert_eq!(bucket(&index, 1, 0), vec![1]);
    assert_eq!(bucket(&index, 0, 0), Vec::<u64>::new());
}

#[test]
fn non_solid_occupants_do_not_block() {
    let mut index = TileIndex::new();
    index.on_position_set(1, TilePosition::new(0, 0));
    index.on_position_set(2, TilePosition::new(1, 0));
    let solid = PositionQuery::new(vec![9]);

    let landed = move_object(
        &mut index,
        &solid,
        1,
        TilePosition::new(0, 0),
        MoveIntent { dx: 1, dy: 0 },
    );
    assert_eq!(landed, TilePosition::new(1, 0));
    assert_eq!(bucket(&index, 1, 0), vec![2, 1]);
}

#[test]
fn solid_entity_blocks_its_own_standstill_move() {
    let mut index = TileIndex::new();
    index.on_position_set(1, TilePosition::new(2, 2));
    let solid = PositionQuery::new(vec![1]);

    // a zero move targets the entity's own occupied cell, which is solid
    let landed = move_object(
        &mut index,
        &solid,
        1,
        TilePosition::new(2, 2),
        MoveIntent { dx: 0, dy: 0 },
    );
    assert_eq!(landed, TilePosition::new(2, 2));
    assert_eq!(bucket(&index, 2, 2), vec![1]);
}

#[test]
fn default_index_is_empty() {
    let index = TileIndex::default();
    assert_eq!(bucket(&index, 0, 0), Vec::<u64>::new());
    assert_eq!(
        everyone().get(&index, &TilePosition::new(0, 0)),
        Err(PositionQueryError::NoMatchingEntity)
    );
}

#[test]
fn position_equality_is_structural() {
    assert_eq!(TilePosition::new(3, -4), TilePosition { x: 3, y: -4 });
    let mut index = TileIndex::new();
    index.on_position_set(1, TilePosition::new(3, -4));
    assert_eq!(bucket(&index, 3, -4), vec![1]);
    assert_eq!(bucket(&index, -4, 3), Vec::<u64>::new());
}

#[test]
fn clear_empties_every_bucket() {
    let mut index = TileIndex::new();
    index.on_position_set(1, TilePosition::new(0, 0));
    index.on_position_set(2, TilePosition::new(7, 3));
    index.clear();
    assert_eq!(bucket(&index, 0, 0), Vec::<u64>::new());
    assert_eq!(bucket(&index, 7, 3), Vec::<u64>::new());
}
