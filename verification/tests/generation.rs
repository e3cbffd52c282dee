use dungeon_core::mapgen::{BSPDungeonGenerator, Corridor, Dungeon, Rect, Tile};
use dungeon_core::rng::rng_with_seed;

fn interior_contains(r: &Rect, x: i32, y: i32) -> bool {
    r.x1 + 1 <= x && x <= r.x2 && r.y1 + 1 <= y && y <= r.y2
}

fn path_contains(c: &Corridor, x: i32, y: i32) -> bool {
    let horizontal = y == c.sy
        && if c.ex >= c.sx {
            c.sx < x && x <= c.ex
        } else {
            c.ex <= x && x < c.sx
        };
    let vertical = x == c.ex
        && if c.ey >= c.sy {
            c.sy < y && y <= c.ey
        } else {
            c.ey <= y && y < c.sy
        };
    horizontal || vertical
}

fn carved_somewhere(d: &Dungeon, x: i32, y: i32) -> bool {
    d.rooms.iter().any(|r| interior_contains(r, x, y))
        || d.corridors.iter().any(|c| path_contains(c, x, y))
}

#[test]
fn determinism_same_seed_same_grid() {
    let mut rng1 = rng_with_seed(7);
    let mut rng2 = rng_with_seed(7);
    let g1 = BSPDungeonGenerator::generate(&mut rng1, 64, 64);
    let g2 = BSPDungeonGenerator::generate(&mut rng2, 64, 64);
    assert_eq!(g1, g2);

    let mut rng3 = rng_with_seed(7);
    let mut rng4 = rng_with_seed(8);
    let d3 = BSPDungeonGenerator::generate_dungeon(&mut rng3, 64, 64);
    let d4 = BSPDungeonGenerator::generate_dungeon(&mut rng4, 64, 64);
    assert_eq!(g1, d3.tiles);
    assert_eq!(d3.rooms.len(), {
        let mut rng5 = rng_with_seed(7);
        BSPDungeonGenerator::generate_dungeon(&mut rng5, 64, 64).rooms.len()
    });
    // a different seed gives a different layout for these dimensions
    assert_ne!(d3.tiles, d4.tiles);
}

#[test]
fn border_ring_is_wall() {
    let mut rng = rng_with_seed(69);
    let tiles = BSPDungeonGenerator::generate(&mut rng, 64, 64);
    assert_eq!(tiles.len(), 64 * 64);
    for x in 0..64usize {
        assert_eq!(tiles[x], Tile::Wall);
        assert_eq!(tiles[63 * 64 + x], Tile::Wall);
    }
    for y in 0..64usize {
        assert_eq!(tiles[y * 64], Tile::Wall);
        assert_eq!(tiles[y * 64 + 63], Tile::Wall);
    }
}

#[test]
fn floor_cells_exactly_rooms_and_corridors() {
    let mut rng = rng_with_seed(69);
    let d = BSPDungeonGenerator::generate_dungeon(&mut rng, 64, 64);
    for y in 0..64i32 {
        for x in 0..64i32 {
            let tile = d.tiles[(y * 64 + x) as usize];
            let carved = carved_somewhere(&d, x, y);
            assert_eq!(tile == Tile::Floor, carved, "cell ({x}, {y})");
        }
    }
}

#[test]
fn rooms_pairwise_separated() {
    let mut rng = rng_with_seed(69);
    let d = BSPDungeonGenerator::generate_dungeon(&mut rng, 64, 64);
    for i in 0..d.rooms.len() {
        for j in 0..d.rooms.len() {
            if i == j {
                continue;
            }
            let a = &d.rooms[i];
            let b = &d.rooms[j];
            let separated = b.x1 >= a.x2 + 2
                || a.x1 >= b.x2 + 2
                || b.y1 >= a.y2 + 2
                || a.y1 >= b.y2 + 2;
            assert!(separated, "rooms {i} and {j} touch");
            // in particular their carved interiors are disjoint
            for y in a.y1 + 1..=a.y2 {
                for x in a.x1 + 1..=a.x2 {
                    assert!(!interior_contains(b, x, y));
                }
            }
        }
    }
}

#[test]
fn rooms_sorted_by_left_edge() {
    let mut rng = rng_with_seed(69);
    let d = BSPDungeonGenerator::generate_dungeon(&mut rng, 64, 64);
    for pair in d.rooms.windows(2) {
        assert!(pair[0].x1 <= pair[1].x1);
    }
}

#[test]
fn corridors_connect_consecutive_rooms() {
    let mut rng = rng_with_seed(69);
    let d = BSPDungeonGenerator::generate_dungeon(&mut rng, 64, 64);
    if d.rooms.is_empty() {
        assert!(d.corridors.is_empty());
    } else {
        assert_eq!(d.corridors.len(), d.rooms.len() - 1);
    }
    for (k, c) in d.corridors.iter().enumerate() {
        let a = &d.rooms[k];
        let b = &d.rooms[k + 1];
        assert!(a.x1 <= c.sx && c.sx <= a.x2 - 2);
        assert!(a.y1 <= c.sy && c.sy <= a.y2 - 2);
        assert!(b.x1 <= c.ex && c.ex <= b.x2 - 2);
        assert!(b.y1 <= c.ey && c.ey <= b.y2 - 2);
    }
}

#[test]
fn seed_69_yields_a_room_and_a_floor_wall_boundary() {
    let mut rng = rng_with_seed(69);
    let d = BSPDungeonGenerator::generate_dungeon(&mut rng, 64, 64);
    assert!(d.rooms.len() >= 1, "no room was placed");
    let at = |x: i32, y: i32| d.tiles[(y * 64 + x) as usize];
    let mut boundary = false;
    for y in 0..64i32 {
        for x in 0..64i32 {
            if at(x, y) == Tile::Floor {
                let neighbours = [(x + 1, y), (x - 1, y), (x, y + 1), (x, y - 1)];
                if neighbours
                    .iter()
                    .any(|&(nx, ny)| (0..64).contains(&nx) && (0..64).contains(&ny) && at(nx, ny) == Tile::Wall)
                {
                    boundary = true;
                }
            }
        }
    }
    assert!(boundary, "no floor cell borders a wall cell");
}

#[test]
fn single_span_draw_returns_the_value() {
    let mut rng = rng_with_seed(123);
    assert_eq!(rng.range_draw(5, 6), 5);
    assert_eq!(rng.range_draw(1, 1), 1);
    assert_eq!(rng.range_draw(3, 3), 3);
    assert_eq!(rng.range_draw(0, 1), 0);
}

#[test]
fn range_draw_stays_in_range_and_replays() {
    let mut rng1 = rng_with_seed(99);
    let mut rng2 = rng_with_seed(99);
    for _ in 0..100 {
        let a = rng1.range_draw(10, 20);
        let b = rng2.range_draw(10, 20);
        assert_eq!(a, b);
        assert!((10..20).contains(&a));
    }
}

#[test]
fn rng_follows_the_wyrand_stream() {
    for seed in [0u64, 1, 42, 69] {
        let mut ours = rng_with_seed(seed);
        let mut reference = wyrand::WyRand::new(seed);
        for _ in 0..8 {
            let drawn = ours.range_draw(0, 1_000_000);
            let expected = (reference.rand() % 1_000_000) as i32;
            assert_eq!(drawn, expected);
        }
    }
}

#[test]
fn tiny_grids_generate_without_failure() {
    let mut rng = rng_with_seed(5);
    let g = BSPDungeonGenerator::generate(&mut rng, 1, 1);
    assert_eq!(g.len(), 1);
    assert_eq!(g[0], Tile::Wall);

    let mut rng = rng_with_seed(5);
    let g = BSPDungeonGenerator::generate(&mut rng, 8, 8);
    assert_eq!(g.len(), 64);
    for x in 0..8usize {
        assert_eq!(g[x], Tile::Wall);
        assert_eq!(g[7 * 8 + x], Tile::Wall);
    }

    let mut rng = rng_with_seed(5);
    let g = BSPDungeonGenerator::generate(&mut rng, 16, 9);
    assert_eq!(g.len(), 144);
}

#[test]
fn build_matches_generate() {
    let mut rng1 = rng_with_seed(11);
    let g1 = BSPDungeonGenerator::generate(&mut rng1, 32, 32);
    let mut rng2 = rng_with_seed(11);
    let gen = BSPDungeonGenerator {
        width: 32,
        height: 32,
        tiles: vec![Tile::Wall; 32 * 32],
        rooms: Vec::new(),
        rects: Vec::new(),
    };
    let g2 = gen.build(&mut rng2);
    assert_eq!(g1, g2);
}

#[test]
fn rect_new_derives_far_corner() {
    let r = Rect::new(3, 4, 10, 20);
    assert_eq!(r.x1, 3);
    assert_eq!(r.y1, 4);
    assert_eq!(r.x2, 13);
    assert_eq!(r.y2, 24);
}

#[test]
fn properties_hold_across_seeds_and_sizes() {
    for (seed, w, h) in [
        (1u64, 48usize, 48usize),
        (2, 48, 48),
        (3, 40, 56),
        (4, 96, 32),
        (1234567, 64, 64),
        (u64::MAX, 48, 48),
    ] {
        let mut rng = rng_with_seed(seed);
        let d = BSPDungeonGenerator::generate_dungeon(&mut rng, w, h);
        assert_eq!(d.tiles.len(), w * h);

        // border ring stays wall
        for x in 0..w {
            assert_eq!(d.tiles[x], Tile::Wall);
            assert_eq!(d.tiles[(h - 1) * w + x], Tile::Wall);
        }
        for y in 0..h {
            assert_eq!(d.tiles[y * w], Tile::Wall);
            assert_eq!(d.tiles[y * w + w - 1], Tile::Wall);
        }

        // floor cells are exactly the recorded rooms and corridors
        for y in 0..h as i32 {
            for x in 0..w as i32 {
                let tile = d.tiles[(y * w as i32 + x) as usize];
                assert_eq!(
                    tile == Tile::Floor,
                    carved_somewhere(&d, x, y),
                    "seed {seed} cell ({x}, {y})"
                );
            }
        }

        // rooms stay sorted, apart, and inside the margin
        for pair in d.rooms.windows(2) {
            assert!(pair[0].x1 <= pair[1].x1);
        }
        for i in 0..d.rooms.len() {
            let a = &d.rooms[i];
            assert!(3 <= a.x1 && a.x2 <= w as i32 - 4);
            assert!(3 <= a.y1 && a.y2 <= h as i32 - 4);
            assert!((4..=9).contains(&(a.x2 - a.x1)));
            assert!((4..=9).contains(&(a.y2 - a.y1)));
            for j in i + 1..d.rooms.len() {
                let b = &d.rooms[j];
                assert!(
                    b.x1 >= a.x2 + 2 || a.x1 >= b.x2 + 2 || b.y1 >= a.y2 + 2
                        || a.y1 >= b.y2 + 2
                );
            }
        }
    }
}
