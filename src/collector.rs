use vstd::prelude::*;
use crate::image::{blank_byte, png_rgba8_of, Image, ImageError};
use crate::tiles::{TilePlan, TILE_HEIGHT, TILE_WIDTH};

verus! {

/// A finished tile: its pixels row by row in scene coordinates (row 0 at the
/// bottom), and its column and row among the tiles.
pub struct Tile {
    pub pixels: Vec<[u8; 3]>,
    pub x_index: u32,
    pub y_index: u32,
}

/// What the collector asks for after taking in a tile.
#[derive(Clone, Copy, Debug, PartialEq, Eq, Structural)]
pub enum Progress {
    /// Keep waiting for tiles.
    Pending,
    /// Persist the image now, then keep waiting.
    Snapshot,
    /// Every tile is in: persist the image and stop.
    Finished,
}

/// What follows the arrival of the `count`-th of `total` tiles with `workers` workers.
pub open spec fn progress_after(count: nat, workers: nat, total: nat) -> Progress {
    if count == total {
        Progress::Finished
    } else if count % workers == 0 {
        Progress::Snapshot
    } else {
        Progress::Pending
    }
}

impl Tile {
    /// The tile has one pixel per place and lies inside the plan's grid.
    pub open spec fn fits(&self, plan: TilePlan) -> bool {
        &&& self.pixels@.len() == TILE_WIDTH * TILE_HEIGHT
        &&& self.x_index < plan.tiles_x()
        &&& self.y_index < plan.tiles_y()
    }

    /// Scene row of raster row `py`: the raster stores the top row first.
    pub open spec fn scene_row(plan: TilePlan, py: nat) -> int {
        plan.height - 1 - py
    }

    /// Whether raster pixel `(px, py)` lies inside this tile.
    pub open spec fn covers(&self, plan: TilePlan, px: nat, py: nat) -> bool {
        let sy = Self::scene_row(plan, py);
        &&& self.x_index * TILE_WIDTH <= px < self.x_index * TILE_WIDTH + TILE_WIDTH
        &&& self.y_index * TILE_HEIGHT <= sy < self.y_index * TILE_HEIGHT + TILE_HEIGHT
    }

    /// The tile's number: tiles are numbered row by row.
    pub open spec fn index(&self, plan: TilePlan) -> nat {
        (self.y_index * plan.tiles_x() + self.x_index) as nat
    }

    /// The opaque RGBA value that this tile gives raster pixel `(px, py)`.
    pub open spec fn rgba_at(&self, plan: TilePlan, px: nat, py: nat) -> Seq<u8> {
        let sy = Self::scene_row(plan, py);
        let k = (sy - self.y_index * TILE_HEIGHT) * TILE_WIDTH + (px - self.x_index * TILE_WIDTH);
        let p = self.pixels@[k];
        seq![p[0], p[1], p[2], 255u8]
    }
}

/// How many entries of `s` are set.
pub open spec fn count_set(s: Seq<bool>) -> nat
    decreases s.len(),
{
    if s.len() == 0 {
        0
    } else {
        count_set(s.drop_last()) + if s.last() {
            1nat
        } else {
            0nat
        }
    }
}

proof fn lemma_count_set_bound(s: Seq<bool>)
    ensures
        count_set(s) <= s.len(),
        count_set(s) == s.len() ==> forall|i: int| 0 <= i < s.len() ==> #[trigger] s[i],
    decreases s.len(),
{
    if s.len() > 0 {
        lemma_count_set_bound(s.drop_last());
        assert forall|i: int| 0 <= i < s.len() && count_set(s) == s.len() implies #[trigger] s[i] by {
            if i < s.len() - 1 {
                assert(s.drop_last()[i] == s[i]);
            }
        }
    }
}

proof fn lemma_count_set_update(s: Seq<bool>, k: int)
    requires
        0 <= k < s.len(),
        !s[k],
    ensures
        count_set(s.update(k, true)) == count_set(s) + 1,
    decreases s.len(),
{
    let t = s.update(k, true);
    if k == s.len() - 1 {
        assert(t.drop_last() =~= s.drop_last());
    } else {
        assert(t.drop_last() =~= s.drop_last().update(k, true));
        lemma_count_set_update(s.drop_last(), k);
    }
}

proof fn lemma_count_set_none(s: Seq<bool>)
    requires
        forall|i: int| 0 <= i < s.len() ==> !#[trigger] s[i],
    ensures
        count_set(s) == 0,
    decreases s.len(),
{
    if s.len() > 0 {
        lemma_count_set_none(s.drop_last());
    }
}

/// The single owner of the frame buffer: takes in finished tiles, writes them
/// into the image flipped vertically, and says when to persist it.
pub struct Collector {
    pub plan: TilePlan,
    pub image: Image,
    pub received: u32,
    /// Entry `t` is set once tile number `t` has been taken in.
    pub arrived: Vec<bool>,
}

impl Collector {
    pub open spec fn wf(&self) -> bool {
        &&& self.plan.wf()
        &&& self.image.wf()
        &&& self.image.width == self.plan.width
        &&& self.image.height == self.plan.height
        &&& self.received <= self.plan.tile_count()
        &&& self.arrived@.len() == self.plan.tile_count()
        &&& self.received == count_set(self.arrived@)
    }

    /// Every tile has been taken in.
    pub open spec fn all_arrived(&self) -> bool {
        forall|t: int| 0 <= t < self.arrived@.len() ==> #[trigger] self.arrived@[t]
    }

    /// What persisting the image gives: the PNG file of the image when it has
    /// pixels, and an encoding error when it is empty.
    pub open spec fn snapshot_outcome(&self, r: Result<Vec<u8>, ImageError>) -> bool {
        &&& self.plan.width > 0 && self.plan.height > 0 ==> (r matches Ok(b) && b@ == self.persisted())
        &&& self.plan.width == 0 || self.plan.height == 0 ==> r == Err::<Vec<u8>, ImageError>(
            ImageError::Encoding,
        )
    }

    /// The file contents that persisting the image now writes.
    pub open spec fn persisted(&self) -> Seq<u8> {
        png_rgba8_of(self.image.width, self.image.height, self.image.bytes@)
    }

    /// A collector for `plan` with a blank image and no tile received.
    pub fn new(plan: TilePlan) -> (r: Collector)
        requires
            plan.wf(),
        ensures
            r.wf(),
            r.plan == plan,
            r.received == 0,
            forall|t: int| 0 <= t < r.arrived@.len() ==> !#[trigger] r.arrived@[t],
            forall|i: int| 0 <= i < r.image.bytes@.len() ==> r.image.bytes@[i] == blank_byte(i),
    {
        let image = Image::blank(plan.width, plan.height);
        let total: u32 = plan.num_tiles();
        let mut arrived: Vec<bool> = Vec::new();
        let mut t: u32 = 0;
        while t < total
            invariant
                t <= total,
                arrived@.len() == t,
                forall|i: int| 0 <= i < arrived@.len() ==> !#[trigger] arrived@[i],
            decreases total - t,
        {
            arrived.push(false);
            t = t + 1;
        }
        proof {
            lemma_count_set_none(arrived@);
        }
        Collector { plan, image, received: 0, arrived }
    }

    /// Whether every tile has been received.
    pub fn is_finished(&self) -> (r: bool)
        requires
            self.wf(),
        ensures
            r == (self.received == self.plan.tile_count()),
            r == self.all_arrived(),
    {
        proof {
            lemma_count_set_bound(self.arrived@);
            if self.all_arrived() {
                lemma_count_set_all(self.arrived@);
            }
        }
        self.received == self.plan.num_tiles()
    }

    /// Whether `tile` can be taken in: it fits the plan and has not arrived before.
    pub fn can_accept(&self, tile: &Tile) -> (r: bool)
        requires
            self.wf(),
        ensures
            r == (tile.fits(self.plan) && !self.arrived@[tile.index(self.plan) as int]),
    {
        let tiles_x: u32 = self.plan.width / TILE_WIDTH;
        let total: u32 = self.plan.num_tiles();
        if tile.pixels.len() == 100 && tile.x_index < tiles_x && tile.y_index < self.plan.height
            / TILE_HEIGHT {
            proof {
                lemma_tile_index_bound(self.plan, *tile);
            }
            !self.arrived[(tile.y_index * tiles_x + tile.x_index) as usize]
        } else {
            false
        }
    }

    /// Writes `tile` into the image, raster row `height - 1 - scene row`, counts
    /// it, and says what follows: `Finished` once every tile is in, `Snapshot`
    /// whenever the count is a multiple of the worker count, else `Pending`.
    pub fn accept(&mut self, tile: &Tile) -> (r: Progress)
        requires
            old(self).wf(),
            tile.fits(old(self).plan),
            !old(self).arrived@[tile.index(old(self).plan) as int],
        ensures
            final(self).wf(),
            final(self).plan == old(self).plan,
            final(self).received == old(self).received + 1,
            final(self).arrived@ == old(self).arrived@.update(tile.index(old(self).plan) as int, true),
            r == Progress::Finished <==> final(self).all_arrived(),
            final(self).image.bytes@.len() == old(self).image.bytes@.len(),
            forall|px: nat, py: nat|
                px < old(self).plan.width && py < old(self).plan.height ==> #[trigger] final(self).image.pixel(px, py) == if tile.covers(old(self).plan, px, py) {
                    tile.rgba_at(old(self).plan, px, py)
                } else {
                    old(self).image.pixel(px, py)
                },
            r == progress_after(
                final(self).received as nat,
                old(self).plan.workers as nat,
                old(self).plan.tile_count(),
            ),
    {
        let plan = self.plan;
        let height: u32 = plan.height;
        proof {
            assert(tile.x_index * 10 + 10 <= plan.width && tile.y_index * 10 + 10 <= plan.height)
                by (nonlinear_arith)
                requires
                    tile.x_index < plan.width / 10,
                    tile.y_index < plan.height / 10,
            ;
        }
        let x0: u32 = tile.x_index * TILE_WIDTH;
        let y0: u32 = tile.y_index * TILE_HEIGHT;
        let mut y: u32 = 0;
        while y < TILE_HEIGHT
            invariant
                self.wf(),
                self.plan == plan,
                self.received == old(self).received,
                self.arrived@ == old(self).arrived@,
                self.image.bytes@.len() == old(self).image.bytes@.len(),
                tile.fits(plan),
                height == plan.height,
                x0 == tile.x_index * 10,
                y0 == tile.y_index * 10,
                x0 + 10 <= plan.width,
                y0 + 10 <= plan.height,
                y <= TILE_HEIGHT,
                forall|px: nat, py: nat|
                    px < plan.width && py < plan.height ==> #[trigger] self.image.pixel(px, py) == if tile.covers(
                        plan,
                        px,
                        py,
                    ) && Tile::scene_row(plan, py) < y0 + y {
                        tile.rgba_at(plan, px, py)
                    } else {
                        old(self).image.pixel(px, py)
                    },
            decreases TILE_HEIGHT - y,
        {
            let mut x: u32 = 0;
            while x < TILE_WIDTH
                invariant
                    self.wf(),
                    self.plan == plan,
                    self.received == old(self).received,
                    self.arrived@ == old(self).arrived@,
                    self.image.bytes@.len() == old(self).image.bytes@.len(),
                    tile.fits(plan),
                    height == plan.height,
                    x0 == tile.x_index * 10,
                    y0 == tile.y_index * 10,
                    x0 + 10 <= plan.width,
                    y0 + 10 <= plan.height,
                    y < TILE_HEIGHT,
                    x <= TILE_WIDTH,
                    forall|px: nat, py: nat|
                        px < plan.width && py < plan.height ==> #[trigger] self.image.pixel(px, py)
                            == if tile.covers(plan, px, py) && (Tile::scene_row(plan, py) < y0 + y || (
                        Tile::scene_row(plan, py) == y0 + y && px < x0 + x)) {
                            tile.rgba_at(plan, px, py)
                        } else {
                            old(self).image.pixel(px, py)
                        },
                decreases TILE_WIDTH - x,
            {
                let k: usize = (y * TILE_WIDTH + x) as usize;
                let p: [u8; 3] = tile.pixels[k];
                let px: u32 = x0 + x;
                let py: u32 = height - (y0 + y) - 1;
                let rgba: [u8; 4] = [p[0], p[1], p[2], 255];
                self.image.write_to_pixel(px, py, rgba);
                assert(rgba@ =~= tile.rgba_at(plan, px as nat, py as nat));
                x = x + 1;
            }
            y = y + 1;
        }
        let total: u32 = self.plan.num_tiles();
        proof {
            lemma_tile_index_bound(plan, *tile);
        }
        let index: u32 = tile.y_index * (plan.width / TILE_WIDTH) + tile.x_index;
        proof {
            lemma_count_set_update(self.arrived@, index as int);
            lemma_count_set_bound(self.arrived@);
        }
        self.arrived.set(index as usize, true);
        self.received = self.received + 1;
        proof {
            lemma_count_set_bound(self.arrived@);
            if self.all_arrived() {
                lemma_count_set_all(self.arrived@);
            }
        }
        if self.received == total {
            Progress::Finished
        } else if self.received % self.plan.workers == 0 {
            Progress::Snapshot
        } else {
            Progress::Pending
        }
    }

    /// The image as the bytes of the file that persists it; the collector is
    /// left as it was.
    pub fn snapshot(&self) -> (r: Result<Vec<u8>, ImageError>)
        requires
            self.wf(),
        ensures
            self.snapshot_outcome(r),
    {
        proof {
            assert(self.image.width * self.image.height * 4 == 4 * self.image.width * self.image.height)
                by (nonlinear_arith);
        }
        self.image.encode_png()
    }
}

/// Tiles do not overlap: raster pixel `(px, py)` lies in a tile exactly when the
/// tile is the one at column `px / TILE_WIDTH` and row `scene row / TILE_HEIGHT`.
pub proof fn lemma_tile_covers_unique(plan: TilePlan, tile: Tile, px: nat, py: nat)
    requires
        py < plan.height,
    ensures
        tile.covers(plan, px, py) <==> tile.x_index == px / (TILE_WIDTH as nat) && tile.y_index == (
        Tile::scene_row(plan, py) as nat) / (TILE_HEIGHT as nat),
{
    let sy = Tile::scene_row(plan, py) as nat;
    let xi = tile.x_index as nat;
    let yi = tile.y_index as nat;
    assert(xi * 10 <= px < xi * 10 + 10 <==> xi == px / 10) by (nonlinear_arith);
    assert(yi * 10 <= sy < yi * 10 + 10 <==> yi == sy / 10) by (nonlinear_arith);
}

/// Persisting twice with no tile taken in between writes the same file both
/// times: two snapshots of one state of a collector with pixels both succeed
/// and give the same bytes.
pub proof fn lemma_snapshot_idempotent(
    c: Collector,
    first: Result<Vec<u8>, ImageError>,
    second: Result<Vec<u8>, ImageError>,
)
    requires
        c.wf(),
        c.plan.width > 0,
        c.plan.height > 0,
        c.snapshot_outcome(first),
        c.snapshot_outcome(second),
    ensures
        first is Ok,
        second is Ok,
        first->Ok_0@ == second->Ok_0@,
{
}

proof fn lemma_tile_index_bound(plan: TilePlan, tile: Tile)
    requires
        tile.x_index < plan.tiles_x(),
        tile.y_index < plan.tiles_y(),
    ensures
        tile.index(plan) < plan.tile_count(),
{
    assert(tile.y_index * plan.tiles_x() + tile.x_index < plan.tiles_x() * plan.tiles_y())
        by (nonlinear_arith)
        requires
            tile.x_index < plan.tiles_x(),
            tile.y_index < plan.tiles_y(),
    ;
}

proof fn lemma_count_set_all(s: Seq<bool>)
    requires
        forall|i: int| 0 <= i < s.len() ==> #[trigger] s[i],
    ensures
        count_set(s) == s.len(),
    decreases s.len(),
{
    if s.len() > 0 {
        lemma_count_set_all(s.drop_last());
    }
}

} // verus!
