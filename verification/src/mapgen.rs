//! Procedural dungeon generation: randomized recursive subdivision with
//! rejection sampling places rooms on a grid, and L-shaped corridors join
//! consecutive rooms sorted by their left edge.  The whole pipeline is a
//! function of the seed, written out as a model that the executable code is
//! proven to follow, so a fixed seed replays the same level.

use vstd::prelude::*;

use crate::rng::{lemma_range_reduce_bounds, range_reduce, wy_stream, DungeonRng};

verus! {

/// One cell of the generated grid: solid rock or carved-out space.
#[derive(Clone, Copy, Debug, PartialEq, Eq, Structural)]
pub enum Tile {
    Wall,
    Floor,
}

/// An axis-aligned rectangle used while generating: a partition region, a
/// candidate room, or an accepted room.  `x2` and `y2` are derived as
/// `x1 + width` and `y1 + height`.
#[derive(Clone, Copy, Debug, PartialEq, Eq, Structural)]
pub struct Rect {
    pub x1: i32,
    pub x2: i32,
    pub y1: i32,
    pub y2: i32,
}

/// One carved connection between two rooms: an L-shaped walk that starts at
/// `(sx, sy)`, moves horizontally until it reaches `ex`, then vertically
/// until it reaches `ey`.
#[derive(Clone, Copy, Debug, PartialEq, Eq, Structural)]
pub struct Corridor {
    pub sx: i32,
    pub sy: i32,
    pub ex: i32,
    pub ey: i32,
}

/// Coordinates stay far below this cap throughout generation, which keeps
/// every intermediate computation inside `i32`.
pub const COORD_CAP: i32 = 0x100_0000;

/// Grid dimensions the generator accepts: positive, and small enough that
/// the flat grid length and all coordinate arithmetic fit the machine types.
pub open spec fn dims_ok(w: int, h: int) -> bool {
    1 <= w <= 16384 && 1 <= h <= 16384
}

pub open spec fn iabs(a: int) -> int {
    if a < 0 {
        -a
    } else {
        a
    }
}

pub open spec fn imax(a: int, b: int) -> int {
    if a > b {
        a
    } else {
        b
    }
}

pub open spec fn imin(a: int, b: int) -> int {
    if a < b {
        a
    } else {
        b
    }
}

/// The rectangle at `(x, y)` with the given width and height.
pub open spec fn rect_at(x: int, y: int, w: int, h: int) -> Rect {
    Rect { x1: x as i32, y1: y as i32, x2: (x + w) as i32, y2: (y + h) as i32 }
}

/// A rectangle whose corners sit inside the square `[2, b]` in both axes,
/// with at least one cell of extent each way.
pub open spec fn rect_in_box(r: Rect, b: int) -> bool {
    &&& 2 <= r.x1
    &&& r.x1 < r.x2 <= b
    &&& 2 <= r.y1
    &&& r.y1 < r.y2 <= b
}

/// The four equal quadrant subdivisions of a partition rectangle, in the
/// order they are pushed onto the worklist: top-left, bottom-left,
/// top-right, bottom-right.
pub open spec fn quad_split(r: Rect) -> Seq<Rect> {
    let w = iabs(r.x1 - r.x2);
    let h = iabs(r.y1 - r.y2);
    let hw = imax(w / 2, 1);
    let hh = imax(h / 2, 1);
    seq![
        rect_at(r.x1 as int, r.y1 as int, hw, hh),
        rect_at(r.x1 as int, r.y1 + hh, hw, hh),
        rect_at(r.x1 + hw, r.y1 as int, hw, hh),
        rect_at(r.x1 + hw, r.y1 + hh, hw, hh),
    ]
}

/// Which worklist entry a raw draw selects: a lone entry is taken as is;
/// otherwise the draw picks uniformly among indices `1 .. len`, so the root
/// entry at index 0 is never selected again once the list has grown.
pub open spec fn pick_rect(rects: Seq<Rect>, raw: u64) -> Rect {
    if rects.len() == 1 {
        rects[0]
    } else {
        rects[range_reduce(raw, 1, rects.len() as int)]
    }
}

/// The candidate room that four raw draws carve out of a parent partition
/// rectangle: a random size of 4 to 9 cells each way (clamped by the parent
/// extent), jittered by 0 to 4 cells from the parent origin in each axis.
pub open spec fn sub_rect_model(parent: Rect, d0: u64, d1: u64, d2: u64, d3: u64) -> Rect {
    let pw = iabs(parent.x1 - parent.x2);
    let ph = iabs(parent.y1 - parent.y2);
    let w = imax(3, range_reduce(d0, 1, imin(pw, 10)) - 1) + 1;
    let h = imax(3, range_reduce(d1, 1, imin(ph, 10)) - 1) + 1;
    let x = parent.x1 + (range_reduce(d2, 1, 6) - 1);
    let y = parent.y1 + (range_reduce(d3, 1, 6) - 1);
    rect_at(x, y, w, h)
}

/// A binary-space-partition style dungeon generator: a worklist of partition
/// rectangles, the rooms accepted so far, and the grid being carved.
pub struct BSPDungeonGenerator {
    pub width: usize,
    pub height: usize,
    pub tiles: Vec<Tile>,
    pub rooms: Vec<Rect>,
    pub rects: Vec<Rect>,
}

impl Rect {
    /// The rectangle at `(x, y)` with width `w` and height `h`.
    pub fn new(x: i32, y: i32, w: i32, h: i32) -> (r: Rect)
        requires
            x + w <= i32::MAX,
            y + h <= i32::MAX,
            x + w >= i32::MIN,
            y + h >= i32::MIN,
        ensures
            r == (Rect { x1: x, y1: y, x2: (x + w) as i32, y2: (y + h) as i32 }),
    {
        Rect { x1: x, y1: y, x2: x + w, y2: y + h }
    }
}

impl BSPDungeonGenerator {
    /// Pushes the four quadrant subdivisions of `rect` onto the worklist.
    fn add_subrects(&mut self, rect: Rect)
        requires
            -COORD_CAP <= rect.x1 <= COORD_CAP,
            -COORD_CAP <= rect.x2 <= COORD_CAP,
            -COORD_CAP <= rect.y1 <= COORD_CAP,
            -COORD_CAP <= rect.y2 <= COORD_CAP,
        ensures
            final(self).rects@ == old(self).rects@ + quad_split(rect),
            final(self).tiles == old(self).tiles,
            final(self).rooms == old(self).rooms,
            final(self).width == old(self).width,
            final(self).height == old(self).height,
    {
        let w = if rect.x1 > rect.x2 {
            rect.x1 - rect.x2
        } else {
            rect.x2 - rect.x1
        };
        let h = if rect.y1 > rect.y2 {
            rect.y1 - rect.y2
        } else {
            rect.y2 - rect.y1
        };
        let hw = if w / 2 > 1 {
            w / 2
        } else {
            1
        };
        let hh = if h / 2 > 1 {
            h / 2
        } else {
            1
        };

        self.rects.push(Rect::new(rect.x1, rect.y1, hw, hh));
        self.rects.push(Rect::new(rect.x1, rect.y1 + hh, hw, hh));
        self.rects.push(Rect::new(rect.x1 + hw, rect.y1, hw, hh));
        self.rects.push(Rect::new(rect.x1 + hw, rect.y1 + hh, hw, hh));

        proof {
            assert(final(self).rects@ =~= old(self).rects@ + quad_split(rect));
        }
    }

    /// Picks a partition rectangle from the worklist: the lone entry if only
    /// one exists, otherwise a uniform pick among indices `1 .. len`.
    fn get_random_rect(&self, rng: &mut DungeonRng) -> (r: Rect)
        requires
            1 <= self.rects.len() <= 100000,
        ensures
            final(rng).seed() == old(rng).seed(),
            self.rects.len() == 1 ==> final(rng).drawn() == old(rng).drawn() && r
                == self.rects@[0],
            self.rects.len() >= 2 ==> final(rng).drawn() == old(rng).drawn() + 1 && r
                == pick_rect(self.rects@, wy_stream(old(rng).seed(), old(rng).drawn())),
    {
        if self.rects.len() == 1 {
            return self.rects[0];
        }
        let idx = rng.range_draw(1, self.rects.len() as i32);
        self.rects[idx as usize]
    }

    /// Derives a candidate room inside the parent rectangle: random size,
    /// jittered origin, four draws in all.
    fn get_random_sub_rect(&self, rect: Rect, rng: &mut DungeonRng) -> (r: Rect)
        requires
            rect_in_box(rect, COORD_CAP as int),
        ensures
            final(rng).seed() == old(rng).seed(),
            final(rng).drawn() == old(rng).drawn() + 4,
            r == sub_rect_model(
                rect,
                wy_stream(old(rng).seed(), old(rng).drawn()),
                wy_stream(old(rng).seed(), old(rng).drawn() + 1),
                wy_stream(old(rng).seed(), old(rng).drawn() + 2),
                wy_stream(old(rng).seed(), old(rng).drawn() + 3),
            ),
            rect.x1 <= r.x1 <= rect.x1 + 4,
            rect.y1 <= r.y1 <= rect.y1 + 4,
            4 <= r.x2 - r.x1 <= 9,
            4 <= r.y2 - r.y1 <= 9,
    {
        let pw = rect.x2 - rect.x1;
        let ph = rect.y2 - rect.y1;
        let wcap = if pw < 10 {
            pw
        } else {
            10
        };
        let hcap = if ph < 10 {
            ph
        } else {
            10
        };

        let dw = rng.range_draw(1, wcap);
        let dh = rng.range_draw(1, hcap);
        let w = if dw - 1 > 3 {
            dw
        } else {
            4
        };
        let h = if dh - 1 > 3 {
            dh
        } else {
            4
        };

        let jx = rng.range_draw(1, 6) - 1;
        let jy = rng.range_draw(1, 6) - 1;

        let x1 = rect.x1 + jx;
        let y1 = rect.y1 + jy;
        Rect { x1, y1, x2: x1 + w, y2: y1 + h }
    }
}

} // verus!

verus! {

/// The cells a room actually carves: its bounds inset by one on the low side,
/// so a room rectangle of width `w` yields `w` carved columns starting one
/// cell right of `x1`.
pub open spec fn in_interior(r: Rect, x: int, y: int) -> bool {
    r.x1 + 1 <= x <= r.x2 && r.y1 + 1 <= y <= r.y2
}

/// The validation region of a candidate room: its bounds grown by two cells
/// in every direction.
pub open spec fn in_expanded(r: Rect, x: int, y: int) -> bool {
    r.x1 - 2 <= x <= r.x2 + 2 && r.y1 - 2 <= y <= r.y2 + 2
}

/// The interior of the grid with a one-cell border reserved on every side.
pub open spec fn in_margin(w: int, h: int, x: int, y: int) -> bool {
    1 <= x <= w - 2 && 1 <= y <= h - 2
}

/// One cell of the validation scan: the cell lies inside the reserved
/// margin and is still solid rock.
pub open spec fn cell_ok(tiles: Seq<Tile>, w: int, h: int, x: int, y: int) -> bool {
    in_margin(w, h, x, y) && tiles[y * w + x] == Tile::Wall
}

/// Whether a candidate room may be carved: every cell of its expanded bounds
/// must lie inside the reserved margin and still be solid rock.
pub open spec fn is_possible_s(tiles: Seq<Tile>, w: int, h: int, c: Rect) -> bool {
    forall|x: int, y: int| in_expanded(c, x, y) ==> #[trigger] cell_ok(tiles, w, h, x, y)
}

/// The grid after carving one room's interior to floor.
pub open spec fn carved(tiles: Seq<Tile>, w: int, room: Rect) -> Seq<Tile> {
    Seq::new(
        tiles.len(),
        |i: int|
            if in_interior(room, i % w, i / w) {
                Tile::Floor
            } else {
                tiles[i]
            },
    )
}

/// Row-major addressing: the flat index of column `x` in row `y` decomposes
/// back into that very row and column.
pub proof fn lemma_cell_index(w: int, x: int, y: int)
    requires
        0 < w,
        0 <= x < w,
        0 <= y,
    ensures
        (y * w + x) / w == y,
        (y * w + x) % w == x,
        y * w + x >= 0,
{
    assert((y * w + x) / w == y && (y * w + x) % w == x && y * w + x >= 0) by (nonlinear_arith)
        requires
            0 < w,
            0 <= x < w,
            0 <= y,
    ;
}

/// Row-major addressing: a flat index below `w * h` decomposes into a row
/// below `h` and a column below `w`.
pub proof fn lemma_cell_decompose(w: int, h: int, i: int)
    requires
        0 < w,
        0 < h,
        0 <= i < w * h,
    ensures
        0 <= i % w < w,
        0 <= i / w < h,
        i == (i / w) * w + i % w,
{
    assert(0 <= i % w < w && 0 <= i / w < h && i == (i / w) * w + i % w) by (nonlinear_arith)
        requires
            0 < w,
            0 < h,
            0 <= i < w * h,
    ;
}

impl BSPDungeonGenerator {
    /// The well-formedness of the grid fields that every phase preserves.
    pub open spec fn grid_wf(self) -> bool {
        &&& dims_ok(self.width as int, self.height as int)
        &&& self.tiles@.len() == self.width * self.height
    }

    /// Checks whether a candidate room can be carved: every cell of its
    /// bounds expanded by two must fall inside the reserved margin and be
    /// solid rock.  Rejection keeps accepted rooms apart and off the border.
    #[verifier::loop_isolation(false)]
    fn is_possible(&self, rect: Rect) -> (r: bool)
        requires
            self.grid_wf(),
            -COORD_CAP <= rect.x1 <= COORD_CAP,
            -COORD_CAP <= rect.x2 <= COORD_CAP,
            -COORD_CAP <= rect.y1 <= COORD_CAP,
            -COORD_CAP <= rect.y2 <= COORD_CAP,
        ensures
            r == is_possible_s(self.tiles@, self.width as int, self.height as int, rect),
    {
        let w = self.width;
        let h = self.height;
        let xs = rect.x1 - 2;
        let xe = rect.x2 + 2;
        let ys = rect.y1 - 2;
        let ye = rect.y2 + 2;

        let mut y = ys;
        while y <= ye
            invariant
                ys <= y,
                y <= imax(ye + 1, ys as int),
                forall|yy: int, xx: int|
                    ys <= yy < y && xs <= xx <= xe ==> #[trigger] cell_ok(
                        self.tiles@,
                        w as int,
                        h as int,
                        xx,
                        yy,
                    ),
            decreases ye + 1 - y,
        {
            let mut x = xs;
            while x <= xe
                invariant
                    y <= ye,
                    xs <= x,
                    x <= imax(xe + 1, xs as int),
                    forall|xx: int|
                        xs <= xx < x ==> #[trigger] cell_ok(
                            self.tiles@,
                            w as int,
                            h as int,
                            xx,
                            y as int,
                        ),
                decreases xe + 1 - x,
            {
                if x < 1 || y < 1 || x > w as i32 - 2 || y > h as i32 - 2 {
                    proof {
                        assert(in_expanded(rect, x as int, y as int));
                        assert(!cell_ok(self.tiles@, w as int, h as int, x as int, y as int));
                    }
                    return false;
                }
                proof {
                    lemma_cell_index(w as int, x as int, y as int);
                    assert((y as int) * (w as int) + (x as int) < (h as int) * (w as int) && (
                    h as int) * (w as int) <= 0x1000_0000) by (nonlinear_arith)
                        requires
                            0 <= x as int <= w as int - 2,
                            0 <= y as int <= h as int - 2,
                            2 <= w as int <= 16384,
                            2 <= h as int <= 16384,
                    ;
                }
                let idx: usize = y as usize * w + x as usize;
                if self.tiles[idx] != Tile::Wall {
                    proof {
                        assert(in_expanded(rect, x as int, y as int));
                        assert(!cell_ok(self.tiles@, w as int, h as int, x as int, y as int));
                    }
                    return false;
                }
                proof {
                    assert(idx as int == (y as int) * (w as int) + (x as int));
                    assert(cell_ok(self.tiles@, w as int, h as int, x as int, y as int));
                }
                x += 1;
            }
            y += 1;
        }
        proof {
            assert forall|px: int, py: int| in_expanded(rect, px, py) implies #[trigger] cell_ok(
                self.tiles@,
                w as int,
                h as int,
                px,
                py,
            ) by {
                assert(ys <= py <= ye);
                assert(xs <= px <= xe);
            }
        }
        true
    }
}

} // verus!

verus! {

/// The grid part-way through carving a room, scanning row-major: rows of the
/// interior strictly below `y` are fully carved, and within row `y` the
/// columns strictly below `x` are carved.
pub open spec fn carved_upto(tiles: Seq<Tile>, w: int, room: Rect, y: int, x: int) -> Seq<Tile> {
    Seq::new(
        tiles.len(),
        |i: int|
            if in_interior(room, i % w, i / w) && (i / w < y || (i / w == y && i % w < x)) {
                Tile::Floor
            } else {
                tiles[i]
            },
    )
}

impl BSPDungeonGenerator {
    /// Carves an accepted room's interior to floor: its bounds inset by one
    /// on the low side, through `x2` and `y2` inclusive.
    #[verifier::loop_isolation(false)]
    fn apply_room_to_map(&mut self, room: &Rect)
        requires
            old(self).grid_wf(),
            0 <= room.x1,
            room.x2 <= old(self).width as int - 2,
            0 <= room.y1,
            room.y2 <= old(self).height as int - 2,
            room.x1 <= room.x2,
            room.y1 <= room.y2,
        ensures
            final(self).grid_wf(),
            final(self).tiles@ == carved(old(self).tiles@, old(self).width as int, *room),
            final(self).width == old(self).width,
            final(self).height == old(self).height,
            final(self).rooms == old(self).rooms,
            final(self).rects == old(self).rects,
    {
        let w = self.width;
        let h = self.height;
        let xs = room.x1 + 1;
        let ys = room.y1 + 1;

        proof {
            assert(self.tiles@ =~= carved_upto(
                old(self).tiles@,
                w as int,
                *room,
                ys as int,
                xs as int,
            ));
        }

        let mut y = ys;
        while y <= room.y2
            invariant
                ys <= y <= room.y2 + 1,
                self.width == old(self).width,
                self.height == old(self).height,
                self.rooms == old(self).rooms,
                self.rects == old(self).rects,
                self.tiles@.len() == old(self).tiles@.len(),
                self.tiles@ == carved_upto(old(self).tiles@, w as int, *room, y as int, xs as int),
            decreases room.y2 + 1 - y,
        {
            let mut x = xs;
            while x <= room.x2
                invariant
                    ys <= y <= room.y2,
                    xs <= x <= room.x2 + 1,
                    self.width == old(self).width,
                    self.height == old(self).height,
                    self.rooms == old(self).rooms,
                    self.rects == old(self).rects,
                    self.tiles@.len() == old(self).tiles@.len(),
                    self.tiles@ == carved_upto(
                        old(self).tiles@,
                        w as int,
                        *room,
                        y as int,
                        x as int,
                    ),
                decreases room.x2 + 1 - x,
            {
                proof {
                    lemma_cell_index(w as int, x as int, y as int);
                    assert((y as int) * (w as int) + (x as int) < (h as int) * (w as int) && (
                    h as int) * (w as int) <= 0x1000_0000) by (nonlinear_arith)
                        requires
                            0 <= x as int <= w as int - 2,
                            0 <= y as int <= h as int - 2,
                            2 <= w as int <= 16384,
                            2 <= h as int <= 16384,
                    ;
                }
                let idx: usize = y as usize * w + x as usize;
                let ghost prev = self.tiles@;
                self.tiles.set(idx, Tile::Floor);
                proof {
                    assert(idx as int == (y as int) * (w as int) + (x as int));
                    assert forall|i: int| 0 <= i < self.tiles@.len() implies self.tiles@[i]
                        == carved_upto(
                        old(self).tiles@,
                        w as int,
                        *room,
                        y as int,
                        x as int + 1,
                    )[i] by {
                        lemma_cell_decompose(w as int, h as int, i);
                        if i != idx as int {
                            assert(!(i / (w as int) == y as int && i % (w as int) == x as int));
                        }
                    }
                    assert(self.tiles@ =~= carved_upto(
                        old(self).tiles@,
                        w as int,
                        *room,
                        y as int,
                        x as int + 1,
                    ));
                }
                x += 1;
            }
            proof {
                assert forall|i: int| 0 <= i < self.tiles@.len() implies self.tiles@[i]
                    == carved_upto(
                    old(self).tiles@,
                    w as int,
                    *room,
                    y as int + 1,
                    xs as int,
                )[i] by {
                    lemma_cell_decompose(w as int, h as int, i);
                }
                assert(self.tiles@ =~= carved_upto(
                    old(self).tiles@,
                    w as int,
                    *room,
                    y as int + 1,
                    xs as int,
                ));
            }
            y += 1;
        }
        proof {
            assert forall|i: int| 0 <= i < self.tiles@.len() implies self.tiles@[i] == carved(
                old(self).tiles@,
                w as int,
                *room,
            )[i] by {
                lemma_cell_decompose(w as int, h as int, i);
            }
            assert(self.tiles@ =~= carved(old(self).tiles@, w as int, *room));
        }
    }
}

} // verus!

verus! {

/// The grid after walking an L-shaped corridor from `(x, y)` toward
/// `(ex, ey)`: each step moves one cell horizontally until the x coordinates
/// agree, then one cell vertically, carving every cell it steps onto.
pub open spec fn corr_model(tiles: Seq<Tile>, w: int, x: int, y: int, ex: int, ey: int) -> Seq<
    Tile,
>
    decreases iabs(ex - x) + iabs(ey - y),
{
    if x == ex && y == ey {
        tiles
    } else {
        let nx = if x < ex {
            x + 1
        } else if x > ex {
            x - 1
        } else {
            x
        };
        let ny = if x != ex {
            y
        } else if y < ey {
            y + 1
        } else {
            y - 1
        };
        corr_model(tiles.update(ny * w + nx, Tile::Floor), w, nx, ny, ex, ey)
    }
}

impl BSPDungeonGenerator {
    /// Carves an L-shaped corridor: one cell at a time horizontally from the
    /// start toward the target column, then vertically toward the target
    /// row, marking each visited cell as floor.
    #[verifier::loop_isolation(false)]
    fn draw_corridor(&mut self, x1: i32, y1: i32, x2: i32, y2: i32)
        requires
            old(self).grid_wf(),
            1 <= x1 <= old(self).width as int - 2,
            1 <= x2 <= old(self).width as int - 2,
            1 <= y1 <= old(self).height as int - 2,
            1 <= y2 <= old(self).height as int - 2,
        ensures
            final(self).grid_wf(),
            final(self).tiles@ == corr_model(
                old(self).tiles@,
                old(self).width as int,
                x1 as int,
                y1 as int,
                x2 as int,
                y2 as int,
            ),
            final(self).width == old(self).width,
            final(self).height == old(self).height,
            final(self).rooms == old(self).rooms,
            final(self).rects == old(self).rects,
    {
        let w = self.width;
        let h = self.height;
        let mut x = x1;
        let mut y = y1;

        while x != x2 || y != y2
            invariant
                1 <= x <= w as int - 2,
                1 <= y <= h as int - 2,
                self.width == old(self).width,
                self.height == old(self).height,
                self.rooms == old(self).rooms,
                self.rects == old(self).rects,
                self.tiles@.len() == old(self).tiles@.len(),
                corr_model(self.tiles@, w as int, x as int, y as int, x2 as int, y2 as int)
                    == corr_model(
                    old(self).tiles@,
                    w as int,
                    x1 as int,
                    y1 as int,
                    x2 as int,
                    y2 as int,
                ),
            decreases iabs(x2 - x) + iabs(y2 - y),
        {
            let ghost px = x as int;
            let ghost py = y as int;
            if x < x2 {
                x += 1;
            } else if x > x2 {
                x -= 1;
            } else if y < y2 {
                y += 1;
            } else {
                y -= 1;
            }
            proof {
                lemma_cell_index(w as int, x as int, y as int);
                assert((y as int) * (w as int) + (x as int) < (h as int) * (w as int) && (
                h as int) * (w as int) <= 0x1000_0000) by (nonlinear_arith)
                    requires
                        0 <= x as int <= w as int - 2,
                        0 <= y as int <= h as int - 2,
                        2 <= w as int <= 16384,
                        2 <= h as int <= 16384,
                ;
            }
            let idx: usize = y as usize * w + x as usize;
            let ghost prev = self.tiles@;
            self.tiles.set(idx, Tile::Floor);
            proof {
                assert(idx as int == (y as int) * (w as int) + (x as int));
                assert(self.tiles@ == prev.update((y as int) * (w as int) + (x as int), Tile::Floor));
                assert(corr_model(prev, w as int, px, py, x2 as int, y2 as int) == corr_model(
                    self.tiles@,
                    w as int,
                    x as int,
                    y as int,
                    x2 as int,
                    y2 as int,
                ));
            }
        }
    }
}

} // verus!

verus! {

/// Rooms listed left to right: left edges never decrease.
pub open spec fn sorted_by_x1(s: Seq<Rect>) -> bool {
    forall|i: int, j: int| 0 <= i <= j < s.len() ==> s[i].x1 <= s[j].x1
}

/// Where a room lands among already-sorted rooms: after every room whose
/// left edge does not exceed its own, so rooms with equal left edges keep
/// their earlier order.
pub open spec fn insert_model(s: Seq<Rect>, r: Rect) -> Seq<Rect>
    decreases s.len(),
{
    if s.len() == 0 {
        seq![r]
    } else if s.last().x1 > r.x1 {
        insert_model(s.drop_last(), r).push(s.last())
    } else {
        s.push(r)
    }
}

/// Stable insertion sort of the room list by left edge, the order in which
/// corridor drawing pairs rooms up.
pub open spec fn sort_model(s: Seq<Rect>) -> Seq<Rect>
    decreases s.len(),
{
    if s.len() == 0 {
        s
    } else {
        insert_model(sort_model(s.drop_last()), s.last())
    }
}

/// Inserting into a split point `m` — everything before `m` at most `r.x1`,
/// everything from `m` on strictly greater — lands `r` exactly at `m`.
proof fn lemma_insert_model_split(s: Seq<Rect>, r: Rect, m: int)
    requires
        0 <= m <= s.len(),
        forall|k: int| 0 <= k < m ==> s[k].x1 <= r.x1,
        forall|k: int| m <= k < s.len() ==> s[k].x1 > r.x1,
    ensures
        insert_model(s, r) == s.take(m) + seq![r] + s.skip(m),
    decreases s.len(),
{
    if s.len() == 0 {
        assert(insert_model(s, r) =~= s.take(m) + seq![r] + s.skip(m));
    } else if s.last().x1 > r.x1 {
        assert(m < s.len()) by {
            if m == s.len() {
                assert(s[s.len() - 1].x1 <= r.x1);
            }
        }
        lemma_insert_model_split(s.drop_last(), r, m);
        assert(s.drop_last().take(m) =~= s.take(m));
        assert(insert_model(s, r) =~= s.take(m) + seq![r] + s.skip(m));
    } else {
        assert(m == s.len()) by {
            if m < s.len() {
                assert(s[s.len() - 1].x1 > r.x1);
            }
        }
        assert(insert_model(s, r) =~= s.take(m) + seq![r] + s.skip(m));
    }
}

/// Inserting into a sorted room list keeps it sorted, adds exactly the new
/// room to its contents, and grows it by one.
proof fn lemma_insert_model_props(s: Seq<Rect>, r: Rect)
    requires
        sorted_by_x1(s),
    ensures
        sorted_by_x1(insert_model(s, r)),
        insert_model(s, r).to_multiset() == s.to_multiset().insert(r),
        insert_model(s, r).len() == s.len() + 1,
    decreases s.len(),
{
    broadcast use vstd::seq_lib::group_to_multiset_ensures;
    broadcast use vstd::multiset::group_multiset_axioms;

    if s.len() == 0 {
        assert(insert_model(s, r) =~= Seq::empty().push(r));
        assert(s =~= Seq::<Rect>::empty());
        assert(insert_model(s, r).to_multiset() =~= s.to_multiset().insert(r));
    } else if s.last().x1 > r.x1 {
        let dl = s.drop_last();
        assert(sorted_by_x1(dl));
        lemma_insert_model_props(dl, r);
        let t = insert_model(dl, r);
        assert forall|i: int| 0 <= i < t.len() implies t[i].x1 <= s.last().x1 by {
            assert(t.to_multiset().count(t[i]) > 0);
            assert(t.to_multiset() == dl.to_multiset().insert(r));
            if t[i] == r {
            } else {
                assert(dl.to_multiset().count(t[i]) > 0);
                assert(dl.contains(t[i]));
                let k = choose|k: int| 0 <= k < dl.len() && dl[k] == t[i];
                assert(s[k].x1 <= s.last().x1);
            }
        }
        assert(sorted_by_x1(t.push(s.last())));
        assert(s =~= dl.push(s.last()));
        assert(s.to_multiset() == dl.to_multiset().insert(s.last()));
        assert(insert_model(s, r).to_multiset() =~= s.to_multiset().insert(r));
    } else {
        assert forall|i: int, j: int|
            0 <= i <= j < s.push(r).len() implies s.push(r)[i].x1 <= s.push(r)[j].x1 by {
            if j == s.len() as int {
                if i < j {
                    assert(s[i].x1 <= s.last().x1);
                }
            }
        }
        assert(sorted_by_x1(s.push(r)));
    }
}

/// The stable sort of a room list is sorted by left edge and holds exactly
/// the same rooms.
pub proof fn lemma_sort_model_props(s: Seq<Rect>)
    ensures
        sorted_by_x1(sort_model(s)),
        sort_model(s).to_multiset() == s.to_multiset(),
        sort_model(s).len() == s.len(),
    decreases s.len(),
{
    broadcast use vstd::seq_lib::group_to_multiset_ensures;

    if s.len() == 0 {
    } else {
        let dl = s.drop_last();
        lemma_sort_model_props(dl);
        lemma_insert_model_props(sort_model(dl), s.last());
        assert(s =~= dl.push(s.last()));
        assert(s.to_multiset() == dl.to_multiset().insert(s.last()));
    }
}

impl BSPDungeonGenerator {
    /// Sorts the accepted rooms by their left edge, the tie-break that
    /// decides which rooms the corridors connect.
    #[verifier::loop_isolation(false)]
    fn sort_rooms(&mut self)
        ensures
            final(self).rooms@ == sort_model(old(self).rooms@),
            final(self).tiles == old(self).tiles,
            final(self).rects == old(self).rects,
            final(self).width == old(self).width,
            final(self).height == old(self).height,
    {
        let n = self.rooms.len();
        if n <= 1 {
            proof {
                if n == 1 {
                    let s = old(self).rooms@;
                    assert(s.drop_last().len() == 0);
                    assert(sort_model(s.drop_last()) == s.drop_last());
                    assert(sort_model(s) == insert_model(s.drop_last(), s.last()));
                    assert(insert_model(s.drop_last(), s.last()) == seq![s.last()]);
                    assert(self.rooms@ =~= seq![s.last()]);
                }
            }
            return;
        }
        proof {
            let t1 = old(self).rooms@.take(1);
            assert(t1.len() == 1);
            assert(t1.drop_last().len() == 0);
            assert(sort_model(t1.drop_last()) == t1.drop_last());
            assert(sort_model(t1) == insert_model(t1.drop_last(), t1.last()));
            assert(insert_model(t1.drop_last(), t1.last()) == seq![t1.last()]);
            assert(self.rooms@.take(1) =~= seq![t1.last()]);
        }
        let mut i: usize = 1;
        while i < n
            invariant
                1 <= i <= n,
                n == self.rooms.len(),
                self.tiles == old(self).tiles,
                self.rects == old(self).rects,
                self.width == old(self).width,
                self.height == old(self).height,
                self.rooms@.take(i as int) == sort_model(old(self).rooms@.take(i as int)),
                self.rooms@.skip(i as int) == old(self).rooms@.skip(i as int),
            decreases n - i,
        {
            let key = self.rooms[i];
            let ghost pre = self.rooms@;
            proof {
                lemma_sort_model_props(old(self).rooms@.take(i as int));
                assert(sorted_by_x1(pre.take(i as int)));
                assert(key == old(self).rooms@[i as int]) by {
                    assert(pre.skip(i as int)[0] == pre[i as int]);
                    assert(old(self).rooms@.skip(i as int)[0] == old(self).rooms@[i as int]);
                }
            }
            let mut j: usize = i;
            while j > 0 && self.rooms[j - 1].x1 > key.x1
                invariant
                    0 <= j <= i,
                    n == self.rooms.len(),
                    self.tiles == old(self).tiles,
                    self.rects == old(self).rects,
                    self.width == old(self).width,
                    self.height == old(self).height,
                    self.rooms@ == pre.take(j as int + 1) + pre.subrange(j as int, i as int)
                        + pre.skip(i as int + 1),
                    forall|m: int| j <= m < i ==> pre[m].x1 > key.x1,
                decreases j,
            {
                let moved = self.rooms[j - 1];
                proof {
                    assert(self.rooms@[j - 1] == pre[j as int - 1]);
                }
                self.rooms.set(j, moved);
                proof {
                    assert(self.rooms@ =~= pre.take(j as int) + pre.subrange(
                        j as int - 1,
                        i as int,
                    ) + pre.skip(i as int + 1));
                }
                j -= 1;
            }
            proof {
                assert(j == 0 || pre[j as int - 1].x1 <= key.x1);
            }
            self.rooms.set(j, key);
            proof {
                let ghost ii = i as int;
                let ghost jj = j as int;
                let sorted_prefix = pre.take(ii);
                assert forall|k: int| 0 <= k < jj implies sorted_prefix[k].x1 <= key.x1 by {
                    assert(sorted_prefix[jj - 1].x1 <= key.x1);
                    assert(sorted_prefix[k].x1 <= sorted_prefix[jj - 1].x1);
                }
                lemma_insert_model_split(sorted_prefix, key, jj);
                assert(old(self).rooms@.take(ii + 1).drop_last() =~= old(self).rooms@.take(ii));
                assert(old(self).rooms@.take(ii + 1).last() == old(self).rooms@[ii]);
                assert(sort_model(old(self).rooms@.take(ii + 1)) == insert_model(
                    sorted_prefix,
                    key,
                ));
                assert(self.rooms@.take(ii + 1) =~= sorted_prefix.take(jj) + seq![key]
                    + sorted_prefix.skip(jj)) by {
                    assert(self.rooms@ =~= pre.take(jj) + seq![key] + pre.subrange(jj, ii)
                        + pre.skip(ii + 1));
                }
                assert(self.rooms@.take(ii + 1) == sort_model(old(self).rooms@.take(ii + 1)));
                assert(self.rooms@.skip(ii + 1) =~= old(self).rooms@.skip(ii + 1)) by {
                    assert(self.rooms@ =~= pre.take(jj) + seq![key] + pre.subrange(jj, ii)
                        + pre.skip(ii + 1));
                    assert forall|k: int| 0 <= k < pre.len() - (ii + 1) implies #[trigger] pre.skip(
                        ii + 1,
                    )[k] == old(self).rooms@.skip(ii + 1)[k] by {
                        assert(pre.skip(ii)[k + 1] == old(self).rooms@.skip(ii)[k + 1]);
                    }
                    assert(pre.skip(ii + 1) =~= old(self).rooms@.skip(ii + 1));
                }
            }
            i += 1;
        }
        proof {
            assert(self.rooms@.take(n as int) =~= self.rooms@);
            assert(old(self).rooms@.take(n as int) =~= old(self).rooms@);
        }
    }
}

} // verus!

verus! {

/// The whole generator state as the model sees it: the grid, the accepted
/// rooms, the partition worklist, the corridors drawn, and how many raw
/// draws have been consumed.
pub struct GenModel {
    pub tiles: Seq<Tile>,
    pub rooms: Seq<Rect>,
    pub rects: Seq<Rect>,
    pub corrs: Seq<Corridor>,
    pub drawn: nat,
}

/// The model state an executable generator currently embodies.
pub open spec fn state_of(
    g: BSPDungeonGenerator,
    corrs: Seq<Corridor>,
    drawn: nat,
) -> GenModel {
    GenModel { tiles: g.tiles@, rooms: g.rooms@, rects: g.rects@, corrs, drawn }
}

/// The initial partition rectangle: the grid inset by two on the low sides
/// and by three on the high sides.
pub open spec fn root_rect(w: int, h: int) -> Rect {
    Rect { x1: 2, y1: 2, x2: (w - 3) as i32, y2: (h - 3) as i32 }
}

/// The state generation starts from: an all-wall grid, no rooms, and the
/// worklist seeded with the root rectangle and its four quadrants.
pub open spec fn gen_init(drawn0: nat, w: int, h: int) -> GenModel {
    GenModel {
        tiles: Seq::new((w * h) as nat, |i: int| Tile::Wall),
        rooms: Seq::empty(),
        rects: seq![root_rect(w, h)] + quad_split(root_rect(w, h)),
        corrs: Seq::empty(),
        drawn: drawn0,
    }
}

/// One iteration of room placement: pick a parent from the worklist (one
/// draw), derive a candidate inside it (four draws), and carve it only if
/// its expanded bounds are still clear; the parent is subdivided on success.
pub open spec fn place_step(st: GenModel, seed: u64, w: int, h: int) -> GenModel {
    let parent = pick_rect(st.rects, wy_stream(seed, st.drawn));
    let cand = sub_rect_model(
        parent,
        wy_stream(seed, (st.drawn + 1) as nat),
        wy_stream(seed, (st.drawn + 2) as nat),
        wy_stream(seed, (st.drawn + 3) as nat),
        wy_stream(seed, (st.drawn + 4) as nat),
    );
    if is_possible_s(st.tiles, w, h, cand) {
        GenModel {
            tiles: carved(st.tiles, w, cand),
            rooms: st.rooms.push(cand),
            rects: st.rects + quad_split(parent),
            corrs: st.corrs,
            drawn: (st.drawn + 5) as nat,
        }
    } else {
        GenModel {
            tiles: st.tiles,
            rooms: st.rooms,
            rects: st.rects,
            corrs: st.corrs,
            drawn: (st.drawn + 5) as nat,
        }
    }
}

/// `n` placement iterations in a row.
pub open spec fn place_iter(st: GenModel, seed: u64, w: int, h: int, n: nat) -> GenModel
    decreases n,
{
    if n == 0 {
        st
    } else {
        place_step(place_iter(st, seed, w, h, (n - 1) as nat), seed, w, h)
    }
}

/// Corridor drawing from pair `i` on: consecutive rooms in sorted order are
/// joined by an L-shaped corridor whose endpoints take four draws, one
/// jittered point in each room.
pub open spec fn corr_phase(st: GenModel, seed: u64, w: int, i: nat) -> GenModel
    decreases st.rooms.len() - i,
{
    if i + 1 >= st.rooms.len() {
        st
    } else {
        let room = st.rooms[i as int];
        let next = st.rooms[i as int + 1];
        let sx = room.x1 + (range_reduce(
            wy_stream(seed, st.drawn),
            1,
            iabs(room.x1 - room.x2),
        ) - 1);
        let sy = room.y1 + (range_reduce(
            wy_stream(seed, (st.drawn + 1) as nat),
            1,
            iabs(room.y1 - room.y2),
        ) - 1);
        let ex = next.x1 + (range_reduce(
            wy_stream(seed, (st.drawn + 2) as nat),
            1,
            iabs(next.x1 - next.x2),
        ) - 1);
        let ey = next.y1 + (range_reduce(
            wy_stream(seed, (st.drawn + 3) as nat),
            1,
            iabs(next.y1 - next.y2),
        ) - 1);
        let st2 = GenModel {
            tiles: corr_model(st.tiles, w, sx, sy, ex, ey),
            rooms: st.rooms,
            rects: st.rects,
            corrs: st.corrs.push(
                Corridor { sx: sx as i32, sy: sy as i32, ex: ex as i32, ey: ey as i32 },
            ),
            drawn: (st.drawn + 4) as nat,
        };
        corr_phase(st2, seed, w, (i + 1) as nat)
    }
}

/// The iteration budget of the placement loop: rejected candidates consume
/// a slot too, so fewer rooms than this may be placed.
pub const PLACEMENT_BUDGET: usize = 240;

/// The whole generation pipeline as a function of the seed, the number of
/// draws already taken from it, and the grid dimensions: place rooms under
/// the fixed budget, sort them by left edge, then connect consecutive rooms.
pub open spec fn gen_model(seed: u64, drawn0: nat, w: int, h: int) -> GenModel {
    let placed = place_iter(gen_init(drawn0, w, h), seed, w, h, PLACEMENT_BUDGET as nat);
    let sorted = GenModel {
        tiles: placed.tiles,
        rooms: sort_model(placed.rooms),
        rects: placed.rects,
        corrs: placed.corrs,
        drawn: placed.drawn,
    };
    corr_phase(sorted, seed, w, 0)
}

/// An accepted room of a `w` by `h` grid: three cells clear of the low
/// edges, four of the high ones, and four to nine cells of extent each way.
pub open spec fn room_wf(r: Rect, w: int, h: int) -> bool {
    &&& 3 <= r.x1
    &&& r.x2 <= w - 4
    &&& 3 <= r.y1
    &&& r.y2 <= h - 4
    &&& 4 <= r.x2 - r.x1 <= 9
    &&& 4 <= r.y2 - r.y1 <= 9
}

/// Two accepted rooms keep their distance: in some axis at least two clear
/// cells separate their carved interiors.
pub open spec fn rooms_separated(a: Rect, b: Rect) -> bool {
    ||| b.x1 >= a.x2 + 2
    ||| a.x1 >= b.x2 + 2
    ||| b.y1 >= a.y2 + 2
    ||| a.y1 >= b.y2 + 2
}

/// A corridor joining rooms `a` and `b`: it starts at a jittered point of
/// `a`'s span and ends at one of `b`'s, each kept two cells off the far
/// room edge.
pub open spec fn corridor_connects(c: Corridor, a: Rect, b: Rect) -> bool {
    &&& a.x1 <= c.sx <= a.x2 - 2
    &&& a.y1 <= c.sy <= a.y2 - 2
    &&& b.x1 <= c.ex <= b.x2 - 2
    &&& b.y1 <= c.ey <= b.y2 - 2
}

/// The cells an L-shaped corridor walk marks: the horizontal leg after the
/// start cell, then the vertical leg after the turn.
pub open spec fn on_l_path(c: Corridor, x: int, y: int) -> bool {
    ||| (y == c.sy && (if c.ex >= c.sx {
        c.sx < x <= c.ex
    } else {
        c.ex <= x < c.sx
    }))
    ||| (x == c.ex && (if c.ey >= c.sy {
        c.sy < y <= c.ey
    } else {
        c.ey <= y < c.sy
    }))
}

/// Whether the cell at `(x, y)` was carved: it lies in some accepted room's
/// interior or on some corridor's path.
pub open spec fn cell_carved(rooms: Seq<Rect>, corrs: Seq<Corridor>, x: int, y: int) -> bool {
    ||| (exists|k: int| 0 <= k < rooms.len() && in_interior(#[trigger] rooms[k], x, y))
    ||| (exists|k: int| 0 <= k < corrs.len() && on_l_path(#[trigger] corrs[k], x, y))
}

/// The carve-consistency of a grid: a cell is floor exactly when some
/// recorded room or corridor carved it.
pub open spec fn floor_exactly(
    tiles: Seq<Tile>,
    w: int,
    rooms: Seq<Rect>,
    corrs: Seq<Corridor>,
) -> bool {
    forall|i: int|
        0 <= i < tiles.len() ==> (#[trigger] tiles[i] == Tile::Floor <==> cell_carved(
            rooms,
            corrs,
            i % w,
            i / w,
        ))
}

/// Every cell of the outermost ring of the grid is wall.
pub open spec fn border_walls(tiles: Seq<Tile>, w: int, h: int) -> bool {
    forall|x: int, y: int|
        0 <= x < w && 0 <= y < h && (x == 0 || x == w - 1 || y == 0 || y == h - 1)
            ==> #[trigger] tiles[y * w + x] == Tile::Wall
}

} // verus!

verus! {

/// Subdividing a rectangle that sits inside a box yields quadrants that sit
/// inside the box grown by two cells, and each quadrant is non-degenerate
/// with its corner at or beyond the parent's.
proof fn lemma_quad_split_box(r: Rect, b: int)
    requires
        rect_in_box(r, b),
        b <= COORD_CAP as int,
    ensures
        forall|k: int| 0 <= k < 4 ==> rect_in_box(#[trigger] quad_split(r)[k], b + 2),
{
    let w = iabs(r.x1 - r.x2);
    let h = iabs(r.y1 - r.y2);
    let hw = imax(w / 2, 1);
    let hh = imax(h / 2, 1);
    assert(2 * (w / 2) <= w && w / 2 >= 0) by (nonlinear_arith)
        requires
            w >= 0,
    ;
    assert(2 * (h / 2) <= h && h / 2 >= 0) by (nonlinear_arith)
        requires
            h >= 0,
    ;
    assert(r.x1 + 2 * hw <= b + 2);
    assert(r.y1 + 2 * hh <= b + 2);
    assert forall|k: int| 0 <= k < 4 implies rect_in_box(#[trigger] quad_split(r)[k], b + 2) by {
        if k == 0 {
            assert(quad_split(r)[0] == rect_at(r.x1 as int, r.y1 as int, hw, hh));
        } else if k == 1 {
            assert(quad_split(r)[1] == rect_at(r.x1 as int, r.y1 + hh, hw, hh));
        } else if k == 2 {
            assert(quad_split(r)[2] == rect_at(r.x1 + hw, r.y1 as int, hw, hh));
        } else {
            assert(quad_split(r)[3] == rect_at(r.x1 + hw, r.y1 + hh, hw, hh));
        }
    }
}

/// The root rectangle's quadrants sit inside the starting box.
proof fn lemma_root_quads_box(w: int, h: int)
    requires
        dims_ok(w, h),
    ensures
        forall|k: int| 0 <= k < 4 ==> rect_in_box(
            #[trigger] quad_split(root_rect(w, h))[k],
            imax(imax(w, h), 8) + 2,
        ),
{
    let r = root_rect(w, h);
    let ww = iabs(r.x1 - r.x2);
    let hh0 = iabs(r.y1 - r.y2);
    let hw = imax(ww / 2, 1);
    let hh = imax(hh0 / 2, 1);
    assert(2 * (ww / 2) <= ww && ww / 2 >= 0) by (nonlinear_arith)
        requires
            ww >= 0,
    ;
    assert(2 * (hh0 / 2) <= hh0 && hh0 / 2 >= 0) by (nonlinear_arith)
        requires
            hh0 >= 0,
    ;
    let b = imax(imax(w, h), 8);
    assert(2 + 2 * hw <= b + 2);
    assert(2 + 2 * hh <= b + 2);
    assert forall|k: int| 0 <= k < 4 implies rect_in_box(
        #[trigger] quad_split(r)[k],
        b + 2,
    ) by {
        if k == 0 {
            assert(quad_split(r)[0] == rect_at(r.x1 as int, r.y1 as int, hw, hh));
        } else if k == 1 {
            assert(quad_split(r)[1] == rect_at(r.x1 as int, r.y1 + hh, hw, hh));
        } else if k == 2 {
            assert(quad_split(r)[2] == rect_at(r.x1 + hw, r.y1 as int, hw, hh));
        } else {
            assert(quad_split(r)[3] == rect_at(r.x1 + hw, r.y1 + hh, hw, hh));
        }
    }
}

/// A candidate whose expanded bounds scan only walls keeps its distance from
/// every room whose interior is already carved to floor.
proof fn lemma_sep_from_walls(tiles: Seq<Tile>, w: int, h: int, c: Rect, a: Rect)
    requires
        is_possible_s(tiles, w, h, c),
        c.x1 <= c.x2,
        c.y1 <= c.y2,
        room_wf(a, w, h),
        forall|x: int, y: int| in_interior(a, x, y) ==> #[trigger] tiles[y * w + x]
            == Tile::Floor,
    ensures
        rooms_separated(c, a),
{
    if !rooms_separated(c, a) {
        let x0 = imax(c.x1 - 2, a.x1 + 1);
        let y0 = imax(c.y1 - 2, a.y1 + 1);
        assert(in_expanded(c, x0, y0));
        assert(in_interior(a, x0, y0));
        assert(cell_ok(tiles, w, h, x0, y0));
        assert(tiles[y0 * w + x0] == Tile::Wall);
        assert(tiles[y0 * w + x0] == Tile::Floor);
        assert(false);
    }
}

/// Walking a corridor from `(x, y)` to `(ex, ey)` carves exactly the cells
/// of the L-shaped path and leaves every other cell as it was.
pub proof fn lemma_corr_cells(tiles: Seq<Tile>, w: int, h: int, x: int, y: int, ex: int, ey: int)
    requires
        2 <= w <= 16384,
        2 <= h <= 16384,
        tiles.len() == w * h,
        1 <= x <= w - 2,
        1 <= ex <= w - 2,
        1 <= y <= h - 2,
        1 <= ey <= h - 2,
    ensures
        corr_model(tiles, w, x, y, ex, ey).len() == tiles.len(),
        forall|i: int|
            0 <= i < tiles.len() ==> #[trigger] corr_model(tiles, w, x, y, ex, ey)[i] == (
            if on_l_path(
                Corridor { sx: x as i32, sy: y as i32, ex: ex as i32, ey: ey as i32 },
                i % w,
                i / w,
            ) {
                Tile::Floor
            } else {
                tiles[i]
            }),
    decreases iabs(ex - x) + iabs(ey - y),
{
    let c = Corridor { sx: x as i32, sy: y as i32, ex: ex as i32, ey: ey as i32 };
    if x == ex && y == ey {
        assert forall|i: int| 0 <= i < tiles.len() implies #[trigger] corr_model(
            tiles,
            w,
            x,
            y,
            ex,
            ey,
        )[i] == (if on_l_path(c, i % w, i / w) {
            Tile::Floor
        } else {
            tiles[i]
        }) by {
            assert(!on_l_path(c, i % w, i / w));
        }
    } else {
        let nx = if x < ex {
            x + 1
        } else if x > ex {
            x - 1
        } else {
            x
        };
        let ny = if x != ex {
            y
        } else if y < ey {
            y + 1
        } else {
            y - 1
        };
        let cn = Corridor { sx: nx as i32, sy: ny as i32, ex: ex as i32, ey: ey as i32 };
        lemma_cell_index(w, nx, ny);
        assert(ny * w + nx < w * h && w * h <= 0x1000_0000) by (nonlinear_arith)
            requires
                0 <= nx <= w - 2,
                0 <= ny <= h - 2,
                2 <= w <= 16384,
                2 <= h <= 16384,
        ;
        assert(0 <= ny * w + nx < tiles.len());
        let tiles2 = tiles.update(ny * w + nx, Tile::Floor);
        assert(tiles2.len() == tiles.len());
        lemma_corr_cells(tiles2, w, h, nx, ny, ex, ey);
        assert(corr_model(tiles, w, x, y, ex, ey) == corr_model(tiles2, w, nx, ny, ex, ey));
        assert forall|i: int| 0 <= i < tiles.len() implies #[trigger] corr_model(
            tiles,
            w,
            x,
            y,
            ex,
            ey,
        )[i] == (if on_l_path(c, i % w, i / w) {
            Tile::Floor
        } else {
            tiles[i]
        }) by {
            lemma_cell_decompose(w, h, i);
            let cx = i % w;
            let cy = i / w;
            if cx == nx && cy == ny {
                assert(i == ny * w + nx);
                assert(on_l_path(c, cx, cy));
            } else {
                assert(i != ny * w + nx);
                assert(tiles2[i] == tiles[i]);
                assert(on_l_path(c, cx, cy) <==> on_l_path(cn, cx, cy));
            }
        }
    }
}

} // verus!

verus! {

/// Carving one more accepted room extends the carve-consistency of the grid
/// by exactly that room.
proof fn lemma_floor_after_carve(pre: Seq<Tile>, w: int, h: int, rooms: Seq<Rect>, c: Rect)
    requires
        2 <= w,
        2 <= h,
        pre.len() == w * h,
        floor_exactly(pre, w, rooms, Seq::empty()),
        room_wf(c, w, h),
    ensures
        floor_exactly(carved(pre, w, c), w, rooms.push(c), Seq::empty()),
{
    let post = carved(pre, w, c);
    let rooms2 = rooms.push(c);
    let nocorr = Seq::<Corridor>::empty();
    assert forall|i: int| 0 <= i < post.len() implies (#[trigger] post[i] == Tile::Floor
        <==> cell_carved(rooms2, nocorr, i % w, i / w)) by {
        lemma_cell_decompose(w, h, i);
        let x = i % w;
        let y = i / w;
        if post[i] == Tile::Floor {
            if in_interior(c, x, y) {
                assert(rooms2[rooms.len() as int] == c);
                assert(cell_carved(rooms2, nocorr, x, y));
            } else {
                assert(pre[i] == Tile::Floor);
                assert(cell_carved(rooms, nocorr, x, y));
                let k = choose|k: int| 0 <= k < rooms.len() && in_interior(#[trigger] rooms[k], x, y);
                assert(rooms2[k] == rooms[k]);
                assert(cell_carved(rooms2, nocorr, x, y));
            }
        }
        if cell_carved(rooms2, nocorr, x, y) {
            let k = choose|k: int|
                0 <= k < rooms2.len() && in_interior(#[trigger] rooms2[k], x, y);
            if k == rooms.len() as int {
                assert(in_interior(c, x, y));
                assert(post[i] == Tile::Floor);
            } else {
                assert(rooms2[k] == rooms[k]);
                assert(cell_carved(rooms, nocorr, x, y));
                assert(pre[i] == Tile::Floor);
                assert(post[i] == Tile::Floor);
            }
        }
    }
}

/// Drawing one more corridor extends the carve-consistency of the grid by
/// exactly that corridor's path.
proof fn lemma_floor_after_corridor(
    pre: Seq<Tile>,
    w: int,
    h: int,
    rooms: Seq<Rect>,
    corrs: Seq<Corridor>,
    c: Corridor,
)
    requires
        2 <= w <= 16384,
        2 <= h <= 16384,
        pre.len() == w * h,
        floor_exactly(pre, w, rooms, corrs),
        1 <= c.sx <= w - 2,
        1 <= c.ex <= w - 2,
        1 <= c.sy <= h - 2,
        1 <= c.ey <= h - 2,
    ensures
        floor_exactly(
            corr_model(pre, w, c.sx as int, c.sy as int, c.ex as int, c.ey as int),
            w,
            rooms,
            corrs.push(c),
        ),
{
    lemma_corr_cells(pre, w, h, c.sx as int, c.sy as int, c.ex as int, c.ey as int);
    let post = corr_model(pre, w, c.sx as int, c.sy as int, c.ex as int, c.ey as int);
    let corrs2 = corrs.push(c);
    assert(Corridor { sx: c.sx, sy: c.sy, ex: c.ex, ey: c.ey } == c);
    assert forall|i: int| 0 <= i < post.len() implies (#[trigger] post[i] == Tile::Floor
        <==> cell_carved(rooms, corrs2, i % w, i / w)) by {
        lemma_cell_decompose(w, h, i);
        let x = i % w;
        let y = i / w;
        if post[i] == Tile::Floor {
            if on_l_path(c, x, y) {
                assert(corrs2[corrs.len() as int] == c);
                assert(cell_carved(rooms, corrs2, x, y));
            } else {
                assert(pre[i] == Tile::Floor);
                assert(cell_carved(rooms, corrs, x, y));
                if exists|k: int| 0 <= k < corrs.len() && on_l_path(#[trigger] corrs[k], x, y) {
                    let k = choose|k: int|
                        0 <= k < corrs.len() && on_l_path(#[trigger] corrs[k], x, y);
                    assert(corrs2[k] == corrs[k]);
                }
                assert(cell_carved(rooms, corrs2, x, y));
            }
        }
        if cell_carved(rooms, corrs2, x, y) {
            if exists|k: int| 0 <= k < corrs2.len() && on_l_path(#[trigger] corrs2[k], x, y) {
                let k = choose|k: int|
                    0 <= k < corrs2.len() && on_l_path(#[trigger] corrs2[k], x, y);
                if k == corrs.len() as int {
                    assert(on_l_path(c, x, y));
                    assert(post[i] == Tile::Floor);
                } else {
                    assert(corrs2[k] == corrs[k]);
                    assert(cell_carved(rooms, corrs, x, y));
                    assert(pre[i] == Tile::Floor);
                }
            } else {
                assert(cell_carved(rooms, corrs, x, y));
                assert(pre[i] == Tile::Floor);
            }
            assert(post[i] == Tile::Floor);
        }
    }
}

} // verus!

verus! {

impl BSPDungeonGenerator {
    /// The room-placement loop: under the fixed iteration budget, pick a
    /// partition rectangle, derive a candidate room inside it, and carve the
    /// candidate only if its surroundings are clear; the parent rectangle is
    /// subdivided on every success.  Rejected candidates still spend an
    /// iteration, so fewer rooms than the budget may come out.
    #[verifier::loop_isolation(false)]
    fn place_rooms(&mut self, rng: &mut DungeonRng)
        requires
            old(self).grid_wf(),
            old(self).rooms@.len() == 0,
            old(self).rects@.len() == 5,
            forall|t: int|
                1 <= t < 5 ==> rect_in_box(
                    #[trigger] old(self).rects@[t],
                    imax(imax(old(self).width as int, old(self).height as int), 8) + 2,
                ),
            forall|i: int|
                0 <= i < old(self).tiles@.len() ==> old(self).tiles@[i] == Tile::Wall,
        ensures
            final(self).width == old(self).width,
            final(self).height == old(self).height,
            final(self).grid_wf(),
            final(rng).seed() == old(rng).seed(),
            state_of(*final(self), Seq::empty(), final(rng).drawn()) == place_iter(
                state_of(*old(self), Seq::empty(), old(rng).drawn()),
                old(rng).seed(),
                old(self).width as int,
                old(self).height as int,
                PLACEMENT_BUDGET as nat,
            ),
            final(self).rooms@.len() <= PLACEMENT_BUDGET,
            forall|t: int|
                0 <= t < final(self).rooms@.len() ==> room_wf(
                    #[trigger] final(self).rooms@[t],
                    old(self).width as int,
                    old(self).height as int,
                ),
            forall|i: int, j: int|
                #![trigger final(self).rooms@[i], final(self).rooms@[j]]
                0 <= i < j < final(self).rooms@.len() ==> rooms_separated(
                    final(self).rooms@[i],
                    final(self).rooms@[j],
                ),
            floor_exactly(
                final(self).tiles@,
                old(self).width as int,
                final(self).rooms@,
                Seq::empty(),
            ),
    {
        let ghost init = state_of(*old(self), Seq::<Corridor>::empty(), old(rng).drawn());
        let ghost seed = old(rng).seed();
        let ghost w = old(self).width as int;
        let ghost h = old(self).height as int;
        let ghost bbase = imax(imax(w, h), 8);
        let ghost nocorr = Seq::<Corridor>::empty();

        let mut k: usize = 0;
        while k < PLACEMENT_BUDGET
            invariant
                0 <= k <= PLACEMENT_BUDGET,
                self.width == old(self).width,
                self.height == old(self).height,
                self.grid_wf(),
                rng.seed() == seed,
                state_of(*self, nocorr, rng.drawn()) == place_iter(init, seed, w, h, k as nat),
                self.rects@.len() == 5 + 4 * self.rooms@.len(),
                self.rooms@.len() <= k,
                forall|t: int|
                    1 <= t < self.rects@.len() ==> rect_in_box(
                        #[trigger] self.rects@[t],
                        bbase + 2 + 2 * (k as int),
                    ),
                forall|t: int|
                    0 <= t < self.rooms@.len() ==> room_wf(#[trigger] self.rooms@[t], w, h),
                forall|i: int, j: int|
                    #![trigger self.rooms@[i], self.rooms@[j]]
                    0 <= i < j < self.rooms@.len() ==> rooms_separated(
                        self.rooms@[i],
                        self.rooms@[j],
                    ),
                floor_exactly(self.tiles@, w, self.rooms@, nocorr),
            decreases PLACEMENT_BUDGET - k,
        {
            let ghost st_k = place_iter(init, seed, w, h, k as nat);
            let ghost drawn0 = rng.drawn();

            let rect = self.get_random_rect(rng);
            proof {
                lemma_range_reduce_bounds(wy_stream(seed, drawn0), 1, self.rects@.len() as int);
                let idx = range_reduce(wy_stream(seed, drawn0), 1, self.rects@.len() as int);
                assert(rect == self.rects@[idx]);
                assert(rect_in_box(rect, bbase + 2 + 2 * (k as int)));
                assert(rect_in_box(rect, COORD_CAP as int));
            }
            let candidate = self.get_random_sub_rect(rect, rng);

            if self.is_possible(candidate) {
                proof {
                    assert(in_expanded(candidate, candidate.x1 - 2, candidate.y1 - 2));
                    assert(cell_ok(
                        self.tiles@,
                        w,
                        h,
                        candidate.x1 - 2,
                        candidate.y1 - 2,
                    ));
                    assert(in_expanded(candidate, candidate.x2 + 2, candidate.y2 + 2));
                    assert(cell_ok(
                        self.tiles@,
                        w,
                        h,
                        candidate.x2 + 2,
                        candidate.y2 + 2,
                    ));
                    assert(room_wf(candidate, w, h));
                    assert forall|t: int| 0 <= t < self.rooms@.len() implies rooms_separated(
                        self.rooms@[t],
                        candidate,
                    ) by {
                        let a = self.rooms@[t];
                        assert forall|x: int, y: int| in_interior(a, x, y)
                            implies #[trigger] self.tiles@[y * w + x] == Tile::Floor by {
                            lemma_cell_index(w, x, y);
                            assert(y * w + x < w * h && w * h <= 0x1000_0000) by (
                            nonlinear_arith)
                                requires
                                    0 <= x <= w - 2,
                                    0 <= y <= h - 2,
                                    2 <= w <= 16384,
                                    2 <= h <= 16384,
                            ;
                            assert(cell_carved(self.rooms@, nocorr, x, y));
                        }
                        lemma_sep_from_walls(self.tiles@, w, h, candidate, a);
                    }
                }
                let ghost pre_tiles = self.tiles@;
                let ghost pre_rooms = self.rooms@;
                self.apply_room_to_map(&candidate);
                self.rooms.push(candidate);
                self.add_subrects(rect);
                proof {
                    lemma_floor_after_carve(pre_tiles, w, h, pre_rooms, candidate);
                    lemma_quad_split_box(rect, bbase + 2 + 2 * (k as int));
                    assert forall|t: int| 1 <= t < self.rects@.len() implies rect_in_box(
                        #[trigger] self.rects@[t],
                        bbase + 2 + 2 * (k as int + 1),
                    ) by {
                        if t < self.rects@.len() - 4 {
                            assert(self.rects@[t] == st_k.rects[t]);
                        } else {
                            let q = t - (self.rects@.len() - 4);
                            assert(self.rects@[t] == quad_split(rect)[q]);
                            assert(rect_in_box(
                                quad_split(rect)[q],
                                bbase + 2 + 2 * (k as int) + 2,
                            ));
                        }
                    }
                    assert(state_of(*self, nocorr, rng.drawn()) == place_step(st_k, seed, w, h));
                }
            } else {
                proof {
                    assert(state_of(*self, nocorr, rng.drawn()) == place_step(st_k, seed, w, h));
                }
            }
            proof {
                assert(place_iter(init, seed, w, h, (k + 1) as nat) == place_step(
                    st_k,
                    seed,
                    w,
                    h,
                ));
            }
            k += 1;
        }
    }
}

} // verus!

verus! {

impl BSPDungeonGenerator {
    /// Joins consecutive rooms of the sorted list with L-shaped corridors:
    /// for each adjacent pair, one jittered point is drawn in each room and
    /// the corridor walks horizontally, then vertically, between them.  With
    /// no pair of rooms there is nothing to connect.
    #[verifier::loop_isolation(false)]
    fn connect_rooms(&mut self, rng: &mut DungeonRng, corridors: &mut Vec<Corridor>)
        requires
            old(self).grid_wf(),
            old(corridors)@.len() == 0,
            old(self).rooms@.len() <= PLACEMENT_BUDGET,
            forall|t: int|
                0 <= t < old(self).rooms@.len() ==> room_wf(
                    #[trigger] old(self).rooms@[t],
                    old(self).width as int,
                    old(self).height as int,
                ),
            floor_exactly(
                old(self).tiles@,
                old(self).width as int,
                old(self).rooms@,
                Seq::empty(),
            ),
        ensures
            final(self).width == old(self).width,
            final(self).height == old(self).height,
            final(self).grid_wf(),
            final(self).rooms == old(self).rooms,
            final(self).rects == old(self).rects,
            final(rng).seed() == old(rng).seed(),
            state_of(*final(self), final(corridors)@, final(rng).drawn()) == corr_phase(
                state_of(*old(self), Seq::empty(), old(rng).drawn()),
                old(rng).seed(),
                old(self).width as int,
                0,
            ),
            floor_exactly(
                final(self).tiles@,
                old(self).width as int,
                final(self).rooms@,
                final(corridors)@,
            ),
            final(corridors)@.len() == (if old(self).rooms@.len() >= 1 {
                old(self).rooms@.len() - 1
            } else {
                0
            }),
            forall|t: int|
                0 <= t < final(corridors)@.len() ==> corridor_connects(
                    #[trigger] final(corridors)@[t],
                    final(self).rooms@[t],
                    final(self).rooms@[t + 1],
                ),
    {
        let ghost entry = state_of(*old(self), Seq::<Corridor>::empty(), old(rng).drawn());
        let ghost seed = old(rng).seed();
        let ghost w = old(self).width as int;
        let ghost h = old(self).height as int;

        proof {
            assert(corridors@ =~= Seq::<Corridor>::empty());
        }
        let n = self.rooms.len();
        let mut i: usize = 0;
        while i + 1 < n
            invariant
                0 <= i,
                i <= imax(n as int - 1, 0),
                n == self.rooms.len(),
                self.width == old(self).width,
                self.height == old(self).height,
                self.grid_wf(),
                self.rooms == old(self).rooms,
                self.rects == old(self).rects,
                rng.seed() == seed,
                corridors@.len() == i,
                corr_phase(state_of(*self, corridors@, rng.drawn()), seed, w, i as nat)
                    == corr_phase(entry, seed, w, 0),
                floor_exactly(self.tiles@, w, self.rooms@, corridors@),
                forall|t: int|
                    0 <= t < corridors@.len() ==> corridor_connects(
                        #[trigger] corridors@[t],
                        self.rooms@[t],
                        self.rooms@[t + 1],
                    ),
            decreases n - i,
        {
            let ghost st_i = state_of(*self, corridors@, rng.drawn());
            let ghost drawn0 = rng.drawn();

            let room = self.rooms[i];
            let next = self.rooms[i + 1];

            let wa = room.x2 - room.x1;
            let ha = room.y2 - room.y1;
            let wb = next.x2 - next.x1;
            let hb = next.y2 - next.y1;

            let start_x = room.x1 + (rng.range_draw(1, wa) - 1);
            let start_y = room.y1 + (rng.range_draw(1, ha) - 1);
            let end_x = next.x1 + (rng.range_draw(1, wb) - 1);
            let end_y = next.y1 + (rng.range_draw(1, hb) - 1);

            proof {
                assert(wa as int == iabs(room.x1 - room.x2));
                assert(ha as int == iabs(room.y1 - room.y2));
                assert(wb as int == iabs(next.x1 - next.x2));
                assert(hb as int == iabs(next.y1 - next.y2));
                assert(room.x1 <= start_x <= room.x2 - 2);
                assert(room.y1 <= start_y <= room.y2 - 2);
                assert(next.x1 <= end_x <= next.x2 - 2);
                assert(next.y1 <= end_y <= next.y2 - 2);
            }

            let c = Corridor { sx: start_x, sy: start_y, ex: end_x, ey: end_y };
            let ghost pre_tiles = self.tiles@;
            let ghost pre_corrs = corridors@;
            self.draw_corridor(start_x, start_y, end_x, end_y);
            corridors.push(c);

            proof {
                lemma_floor_after_corridor(pre_tiles, w, h, self.rooms@, pre_corrs, c);
                assert(corridor_connects(c, self.rooms@[i as int], self.rooms@[i as int + 1]));
                let st2 = GenModel {
                    tiles: corr_model(
                        st_i.tiles,
                        w,
                        start_x as int,
                        start_y as int,
                        end_x as int,
                        end_y as int,
                    ),
                    rooms: st_i.rooms,
                    rects: st_i.rects,
                    corrs: st_i.corrs.push(c),
                    drawn: (st_i.drawn + 4) as nat,
                };
                assert(state_of(*self, corridors@, rng.drawn()) == st2);
                assert(corr_phase(st_i, seed, w, i as nat) == corr_phase(
                    st2,
                    seed,
                    w,
                    (i + 1) as nat,
                ));
            }
            i += 1;
        }
        proof {
            let st_end = state_of(*self, corridors@, rng.drawn());
            assert(corr_phase(st_end, seed, w, i as nat) == st_end);
        }
    }
}

} // verus!

verus! {

/// Room well-formedness and pairwise separation survive any reordering of
/// the room list, such as the sort before corridor drawing.
proof fn lemma_rooms_perm_props(s: Seq<Rect>, t: Seq<Rect>, w: int, h: int)
    requires
        t.to_multiset() == s.to_multiset(),
        forall|k: int| 0 <= k < s.len() ==> room_wf(#[trigger] s[k], w, h),
        forall|i: int, j: int|
            #![trigger s[i], s[j]]
            0 <= i < j < s.len() ==> rooms_separated(s[i], s[j]),
    ensures
        forall|k: int| 0 <= k < t.len() ==> room_wf(#[trigger] t[k], w, h),
        forall|i: int, j: int|
            #![trigger t[i], t[j]]
            0 <= i < j < t.len() ==> rooms_separated(t[i], t[j]),
{
    broadcast use vstd::seq_lib::group_to_multiset_ensures;

    assert forall|k: int| 0 <= k < t.len() implies room_wf(#[trigger] t[k], w, h) by {
        assert(t.contains(t[k]));
        assert(t.to_multiset().count(t[k]) > 0);
        assert(s.to_multiset().count(t[k]) > 0);
        assert(s.contains(t[k]));
        let m = choose|m: int| 0 <= m < s.len() && s[m] == t[k];
        assert(room_wf(s[m], w, h));
    }
    assert(s.no_duplicates()) by {
        assert forall|i: int, j: int|
            0 <= i < s.len() && 0 <= j < s.len() && i != j implies s[i] != s[j] by {
            if s[i] == s[j] {
                let a = if i < j {
                    i
                } else {
                    j
                };
                let b = if i < j {
                    j
                } else {
                    i
                };
                assert(rooms_separated(s[a], s[b]));
                assert(room_wf(s[a], w, h));
            }
        }
    }
    s.lemma_multiset_has_no_duplicates();
    assert forall|x: Rect| t.to_multiset().contains(x) implies t.to_multiset().count(x) == 1 by {
        assert(s.to_multiset().contains(x));
    }
    t.lemma_multiset_has_no_duplicates_conv();
    assert forall|i: int, j: int|
        #![trigger t[i], t[j]]
        0 <= i < j < t.len() implies rooms_separated(t[i], t[j]) by {
        assert(t[i] != t[j]);
        assert(t.contains(t[i]));
        assert(t.contains(t[j]));
        assert(t.to_multiset().count(t[i]) > 0);
        assert(t.to_multiset().count(t[j]) > 0);
        assert(s.to_multiset().count(t[i]) > 0);
        assert(s.to_multiset().count(t[j]) > 0);
        assert(s.contains(t[i]));
        assert(s.contains(t[j]));
        let mi = choose|m: int| 0 <= m < s.len() && s[m] == t[i];
        let mj = choose|m: int| 0 <= m < s.len() && s[m] == t[j];
        assert(mi != mj);
        if mi < mj {
            assert(rooms_separated(s[mi], s[mj]));
        } else {
            assert(rooms_separated(s[mj], s[mi]));
        }
    }
}

/// Carve-consistency of the grid survives any reordering of the room list.
proof fn lemma_floor_perm(
    tiles: Seq<Tile>,
    w: int,
    s: Seq<Rect>,
    t: Seq<Rect>,
    corrs: Seq<Corridor>,
)
    requires
        floor_exactly(tiles, w, s, corrs),
        t.to_multiset() == s.to_multiset(),
    ensures
        floor_exactly(tiles, w, t, corrs),
{
    broadcast use vstd::seq_lib::group_to_multiset_ensures;

    assert forall|i: int| 0 <= i < tiles.len() implies (#[trigger] tiles[i] == Tile::Floor
        <==> cell_carved(t, corrs, i % w, i / w)) by {
        let x = i % w;
        let y = i / w;
        if exists|k: int| 0 <= k < s.len() && in_interior(#[trigger] s[k], x, y) {
            let k = choose|k: int| 0 <= k < s.len() && in_interior(#[trigger] s[k], x, y);
            assert(s.contains(s[k]));
            assert(s.to_multiset().count(s[k]) > 0);
            assert(t.to_multiset().count(s[k]) > 0);
            assert(t.contains(s[k]));
            let m = choose|m: int| 0 <= m < t.len() && t[m] == s[k];
            assert(in_interior(t[m], x, y));
        }
        if exists|k: int| 0 <= k < t.len() && in_interior(#[trigger] t[k], x, y) {
            let k = choose|k: int| 0 <= k < t.len() && in_interior(#[trigger] t[k], x, y);
            assert(t.contains(t[k]));
            assert(t.to_multiset().count(t[k]) > 0);
            assert(s.to_multiset().count(t[k]) > 0);
            assert(s.contains(t[k]));
            let m = choose|m: int| 0 <= m < s.len() && s[m] == t[k];
            assert(in_interior(s[m], x, y));
        }
    }
}

/// A grid whose floor cells all come from well-formed rooms and in-margin
/// corridors keeps its whole outermost ring wall.
proof fn lemma_border_from_carve(
    tiles: Seq<Tile>,
    w: int,
    h: int,
    rooms: Seq<Rect>,
    corrs: Seq<Corridor>,
)
    requires
        1 <= w <= 16384,
        1 <= h <= 16384,
        tiles.len() == w * h,
        floor_exactly(tiles, w, rooms, corrs),
        forall|k: int| 0 <= k < rooms.len() ==> room_wf(#[trigger] rooms[k], w, h),
        forall|k: int|
            0 <= k < corrs.len() ==> {
                let c = #[trigger] corrs[k];
                1 <= c.sx <= w - 2 && 1 <= c.ex <= w - 2 && 1 <= c.sy <= h - 2 && 1 <= c.ey <= h
                    - 2
            },
    ensures
        border_walls(tiles, w, h),
{
    assert forall|x: int, y: int|
        0 <= x < w && 0 <= y < h && (x == 0 || x == w - 1 || y == 0 || y == h - 1)
        implies #[trigger] tiles[y * w + x] == Tile::Wall by {
        lemma_cell_index(w, x, y);
        assert(y * w + x < w * h) by (nonlinear_arith)
            requires
                0 <= x < w,
                0 <= y < h,
                0 < w,
                0 < h,
        ;
        let i = y * w + x;
        if tiles[i] == Tile::Floor {
            assert(cell_carved(rooms, corrs, x, y));
            if exists|k: int| 0 <= k < rooms.len() && in_interior(#[trigger] rooms[k], x, y) {
                let k = choose|k: int|
                    0 <= k < rooms.len() && in_interior(#[trigger] rooms[k], x, y);
                assert(room_wf(rooms[k], w, h));
                assert(false);
            } else {
                let k = choose|k: int|
                    0 <= k < corrs.len() && on_l_path(#[trigger] corrs[k], x, y);
                assert(false);
            }
        }
    }
}

} // verus!

verus! {

/// A generated dungeon: the tile grid in row-major order together with the
/// accepted rooms, sorted by left edge, and the corridors that join
/// consecutive rooms of that order.
pub struct Dungeon {
    pub width: usize,
    pub height: usize,
    pub tiles: Vec<Tile>,
    pub rooms: Vec<Rect>,
    pub corridors: Vec<Corridor>,
}

/// Everything the generator promises of its output, relative to the model
/// state `m` that the seed and dimensions determine.
pub open spec fn dungeon_ok(d: Dungeon, m: GenModel, w: int, h: int) -> bool {
    &&& d.width == w
    &&& d.height == h
    &&& d.tiles@.len() == w * h
    &&& d.tiles@ == m.tiles
    &&& d.rooms@ == m.rooms
    &&& d.corridors@ == m.corrs
    &&& border_walls(d.tiles@, w, h)
    &&& floor_exactly(d.tiles@, w, d.rooms@, d.corridors@)
    &&& sorted_by_x1(d.rooms@)
    &&& d.rooms@.len() <= PLACEMENT_BUDGET
    &&& (forall|k: int| 0 <= k < d.rooms@.len() ==> room_wf(#[trigger] d.rooms@[k], w, h))
    &&& (forall|i: int, j: int|
        #![trigger d.rooms@[i], d.rooms@[j]]
        0 <= i < j < d.rooms@.len() ==> rooms_separated(d.rooms@[i], d.rooms@[j]))
    &&& d.corridors@.len() == (if d.rooms@.len() >= 1 {
        (d.rooms@.len() - 1) as nat
    } else {
        0nat
    })
    &&& (forall|k: int|
        0 <= k < d.corridors@.len() ==> corridor_connects(
            #[trigger] d.corridors@[k],
            d.rooms@[k],
            d.rooms@[k + 1],
        ))
}

/// A grid of walls, ready for carving.
fn wall_grid(total: usize) -> (v: Vec<Tile>)
    ensures
        v@.len() == total,
        forall|i: int| 0 <= i < total ==> v@[i] == Tile::Wall,
{
    let mut v: Vec<Tile> = Vec::new();
    let mut i: usize = 0;
    while i < total
        invariant
            i <= total,
            v@.len() == i,
            forall|k: int| 0 <= k < i ==> v@[k] == Tile::Wall,
        decreases total - i,
    {
        v.push(Tile::Wall);
        i += 1;
    }
    v
}

impl BSPDungeonGenerator {
    /// Runs the whole generation pipeline on a freshly initialized
    /// generator: seed the worklist with the interior rectangle and its
    /// quadrants, place rooms under the iteration budget, sort them by left
    /// edge, and join consecutive rooms with corridors.
    pub fn build_dungeon(self, rng: &mut DungeonRng) -> (d: Dungeon)
        requires
            self.grid_wf(),
            self.rooms@.len() == 0,
            self.rects@.len() == 0,
            forall|i: int| 0 <= i < self.tiles@.len() ==> self.tiles@[i] == Tile::Wall,
        ensures
            final(rng).seed() == old(rng).seed(),
            final(rng).drawn() == gen_model(
                old(rng).seed(),
                old(rng).drawn(),
                self.width as int,
                self.height as int,
            ).drawn,
            dungeon_ok(
                d,
                gen_model(
                    old(rng).seed(),
                    old(rng).drawn(),
                    self.width as int,
                    self.height as int,
                ),
                self.width as int,
                self.height as int,
            ),
    {
        let mut this = self;
        let ghost seed = old(rng).seed();
        let ghost d0 = old(rng).drawn();
        let ghost w = this.width as int;
        let ghost h = this.height as int;
        let ghost m = gen_model(seed, d0, w, h);
        let ghost placed = place_iter(gen_init(d0, w, h), seed, w, h, PLACEMENT_BUDGET as nat);
        let ghost sorted_st = GenModel {
            tiles: placed.tiles,
            rooms: sort_model(placed.rooms),
            rects: placed.rects,
            corrs: placed.corrs,
            drawn: placed.drawn,
        };

        let root = Rect::new(2, 2, this.width as i32 - 5, this.height as i32 - 5);
        this.rects.push(root);
        let first = this.rects[0];
        this.add_subrects(first);

        proof {
            assert(root == root_rect(w, h));
            assert(this.rects@ =~= seq![root_rect(w, h)] + quad_split(root_rect(w, h)));
            lemma_root_quads_box(w, h);
            assert forall|t: int| 1 <= t < 5 implies rect_in_box(
                #[trigger] this.rects@[t],
                imax(imax(w, h), 8) + 2,
            ) by {
                assert(this.rects@[t] == quad_split(root_rect(w, h))[t - 1]);
            }
            assert(this.tiles@ =~= Seq::new((w * h) as nat, |i: int| Tile::Wall));
            assert(this.rooms@ =~= Seq::<Rect>::empty());
            assert(state_of(this, Seq::<Corridor>::empty(), rng.drawn()) == gen_init(d0, w, h));
        }

        this.place_rooms(rng);

        proof {
            assert(state_of(this, Seq::<Corridor>::empty(), rng.drawn()) == placed);
        }

        this.sort_rooms();

        proof {
            lemma_sort_model_props(placed.rooms);
            lemma_rooms_perm_props(placed.rooms, this.rooms@, w, h);
            lemma_floor_perm(
                this.tiles@,
                w,
                placed.rooms,
                this.rooms@,
                Seq::<Corridor>::empty(),
            );
            assert(state_of(this, Seq::<Corridor>::empty(), rng.drawn()) == sorted_st);
        }

        let mut corridors: Vec<Corridor> = Vec::new();
        this.connect_rooms(rng, &mut corridors);

        proof {
            assert(state_of(this, corridors@, rng.drawn()) == corr_phase(sorted_st, seed, w, 0));
            assert(corr_phase(sorted_st, seed, w, 0) == m);
            assert forall|k: int| 0 <= k < corridors@.len() implies {
                let c = #[trigger] corridors@[k];
                1 <= c.sx <= w - 2 && 1 <= c.ex <= w - 2 && 1 <= c.sy <= h - 2 && 1 <= c.ey <= h
                    - 2
            } by {
                assert(corridor_connects(corridors@[k], this.rooms@[k], this.rooms@[k + 1]));
                assert(room_wf(this.rooms@[k], w, h));
                assert(room_wf(this.rooms@[k + 1], w, h));
            }
            lemma_border_from_carve(this.tiles@, w, h, this.rooms@, corridors@);
        }

        Dungeon {
            width: this.width,
            height: this.height,
            tiles: this.tiles,
            rooms: this.rooms,
            corridors,
        }
    }

    /// Generates a dungeon grid of the given dimensions, consuming draws
    /// from the random source; the grid is all wall except the carved rooms
    /// and corridors, whose exact layout the seed determines.
    pub fn generate(rng: &mut DungeonRng, width: usize, height: usize) -> (tiles: Vec<Tile>)
        requires
            dims_ok(width as int, height as int),
        ensures
            ({
                let m = gen_model(old(rng).seed(), old(rng).drawn(), width as int, height as int);
                &&& tiles@ == m.tiles
                &&& tiles@.len() == width * height
                &&& final(rng).seed() == old(rng).seed()
                &&& final(rng).drawn() == m.drawn
                &&& border_walls(tiles@, width as int, height as int)
                &&& floor_exactly(tiles@, width as int, m.rooms, m.corrs)
            }),
    {
        let d = Self::generate_dungeon(rng, width, height);
        d.tiles
    }

    /// Like `generate`, but also hands back the accepted rooms and the
    /// corridors, for callers that place things inside rooms or check the
    /// layout.
    pub fn generate_dungeon(rng: &mut DungeonRng, width: usize, height: usize) -> (d: Dungeon)
        requires
            dims_ok(width as int, height as int),
        ensures
            final(rng).seed() == old(rng).seed(),
            final(rng).drawn() == gen_model(
                old(rng).seed(),
                old(rng).drawn(),
                width as int,
                height as int,
            ).drawn,
            dungeon_ok(
                d,
                gen_model(old(rng).seed(), old(rng).drawn(), width as int, height as int),
                width as int,
                height as int,
            ),
    {
        proof {
            assert(width * height <= 0x1000_0000) by (nonlinear_arith)
                requires
                    1 <= width as int <= 16384,
                    1 <= height as int <= 16384,
            ;
        }
        let total: usize = width * height;
        let tiles = wall_grid(total);
        let gen = BSPDungeonGenerator {
            width,
            height,
            tiles,
            rooms: Vec::new(),
            rects: Vec::new(),
        };
        gen.build_dungeon(rng)
    }

    /// Runs the pipeline on a generator whose grid is still all wall,
    /// returning the tile grid alone, as the plain generation entry point
    /// does.
    pub fn build(self, rng: &mut DungeonRng) -> (tiles: Vec<Tile>)
        requires
            self.grid_wf(),
            self.rooms@.len() == 0,
            self.rects@.len() == 0,
            forall|i: int| 0 <= i < self.tiles@.len() ==> self.tiles@[i] == Tile::Wall,
        ensures
            ({
                let m = gen_model(
                    old(rng).seed(),
                    old(rng).drawn(),
                    self.width as int,
                    self.height as int,
                );
                &&& tiles@ == m.tiles
                &&& tiles@.len() == self.width * self.height
                &&& final(rng).seed() == old(rng).seed()
                &&& final(rng).drawn() == m.drawn
            }),
    {
        let d = self.build_dungeon(rng);
        d.tiles
    }
}

/// Separated rooms carve disjoint cells: no grid cell lies in the interiors
/// of two rooms that keep the generator's two-cell distance, so no two
/// accepted rooms overlap.
pub proof fn lemma_separated_interiors_disjoint(a: Rect, b: Rect)
    requires
        rooms_separated(a, b),
    ensures
        forall|x: int, y: int| !(in_interior(a, x, y) && #[trigger] in_interior(b, x, y)),
{
}

/// Determinism of generation: the resulting grid is a function of the seed
/// and the grid dimensions alone, so generating twice with fresh sources
/// seeded identically yields bit-identical grids.
pub proof fn lemma_generate_deterministic(
    seed: u64,
    w: int,
    h: int,
    g1: Seq<Tile>,
    g2: Seq<Tile>,
)
    requires
        g1 == gen_model(seed, 0, w, h).tiles,
        g2 == gen_model(seed, 0, w, h).tiles,
    ensures
        g1 == g2,
{
}

} // verus!
