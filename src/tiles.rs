use vstd::prelude::*;

verus! {

/// Width of a tile, in pixels.
pub const TILE_WIDTH: u32 = 10;

/// Height of a tile, in pixels.
pub const TILE_HEIGHT: u32 = 10;

/// The tile that worker `worker` renders `i`-th when `workers` workers share the tiles
/// round-robin.
pub open spec fn dealt_tile(workers: nat, worker: nat, i: nat) -> nat {
    worker + i * workers
}

/// How many of `num_tiles` tiles worker `worker` renders when `workers` workers share
/// them round-robin.
pub open spec fn dealt_count(num_tiles: nat, workers: nat, worker: nat) -> nat {
    if worker < num_tiles {
        ((num_tiles - 1 - worker) as nat / workers + 1) as nat
    } else {
        0
    }
}

/// The tiles of worker `worker`, in the order in which it renders them.
pub open spec fn dealt_tiles(num_tiles: nat, workers: nat, worker: nat) -> Seq<nat> {
    Seq::new(dealt_count(num_tiles, workers, worker), |i: int| dealt_tile(workers, worker, i as nat))
}

proof fn lemma_dealt_bound(num_tiles: nat, workers: nat, worker: nat, i: nat)
    requires
        workers > 0,
        worker < workers,
    ensures
        dealt_tile(workers, worker, i) < num_tiles <==> i < dealt_count(num_tiles, workers, worker),
{
    if worker < num_tiles {
        let m = (num_tiles - 1 - worker) as nat;
        assert(i * workers <= m <==> i <= m / workers) by (nonlinear_arith)
            requires
                workers > 0,
        ;
    } else {
        assert(i * workers >= 0) by (nonlinear_arith);
    }
}

proof fn lemma_dealt_unique(workers: nat, w1: nat, i1: nat, w2: nat, i2: nat)
    requires
        w1 < workers,
        w2 < workers,
        dealt_tile(workers, w1, i1) == dealt_tile(workers, w2, i2),
    ensures
        w1 == w2,
        i1 == i2,
{
    assert(i1 == i2) by (nonlinear_arith)
        requires
            w1 < workers,
            w2 < workers,
            w1 + i1 * workers == w2 + i2 * workers,
    ;
}

/// Dealing tiles round-robin gives every tile of `0..num_tiles` to exactly one
/// worker, exactly once: each dealt index is a tile, tile `t` goes to worker
/// `t % workers` as its `t / workers`-th, and no two deals give the same tile.
pub proof fn lemma_tiles_partitioned(num_tiles: nat, workers: nat)
    requires
        workers > 0,
    ensures
        forall|w: nat, i: int|
            w < workers && 0 <= i < dealt_tiles(num_tiles, workers, w).len() ==> #[trigger] dealt_tiles(
                num_tiles,
                workers,
                w,
            )[i] < num_tiles,
        forall|t: nat|
            #![trigger t % workers, t / workers]
            t < num_tiles ==> t / workers < dealt_tiles(num_tiles, workers, t % workers).len()
                && dealt_tiles(num_tiles, workers, t % workers)[(t / workers) as int] == t,
        forall|w1: nat, i1: int, w2: nat, i2: int|
            w1 < workers && w2 < workers && 0 <= i1 < dealt_tiles(num_tiles, workers, w1).len() && 0
                <= i2 < dealt_tiles(num_tiles, workers, w2).len() && #[trigger] dealt_tiles(
                num_tiles,
                workers,
                w1,
            )[i1] == #[trigger] dealt_tiles(num_tiles, workers, w2)[i2] ==> w1 == w2 && i1 == i2,
{
    assert forall|w: nat, i: int|
        w < workers && 0 <= i < dealt_tiles(num_tiles, workers, w).len() implies #[trigger] dealt_tiles(
        num_tiles,
        workers,
        w,
    )[i] < num_tiles by {
        lemma_dealt_bound(num_tiles, workers, w, i as nat);
    }
    assert forall|t: nat|
        #![trigger t % workers, t / workers]
        t < num_tiles implies t / workers < dealt_tiles(num_tiles, workers, t % workers).len()
            && dealt_tiles(num_tiles, workers, t % workers)[(t / workers) as int] == t by {
        let w = t % workers;
        let i = t / workers;
        assert(t == w + i * workers) by (nonlinear_arith)
            requires
                workers > 0,
                w == t % workers,
                i == t / workers,
        ;
        lemma_dealt_bound(num_tiles, workers, w, i);
    }
    assert forall|w1: nat, i1: int, w2: nat, i2: int|
        w1 < workers && w2 < workers && 0 <= i1 < dealt_tiles(num_tiles, workers, w1).len() && 0 <= i2
            < dealt_tiles(num_tiles, workers, w2).len() && #[trigger] dealt_tiles(num_tiles, workers, w1)[i1]
            == #[trigger] dealt_tiles(num_tiles, workers, w2)[i2] implies w1 == w2 && i1 == i2 by {
        lemma_dealt_unique(workers, w1, i1 as nat, w2, i2 as nat);
    }
}

/// Tiles dealt to workers `0..k` together.
pub open spec fn dealt_total(num_tiles: nat, workers: nat, k: nat) -> nat
    decreases k,
{
    if k == 0 {
        0
    } else {
        dealt_total(num_tiles, workers, (k - 1) as nat) + dealt_count(num_tiles, workers, (k - 1) as nat)
    }
}

proof fn lemma_dealt_count_step(num_tiles: nat, workers: nat, worker: nat)
    requires
        workers > 0,
        worker < workers,
    ensures
        dealt_count(num_tiles + 1, workers, worker) == dealt_count(num_tiles, workers, worker) + if num_tiles
            % workers == worker {
            1nat
        } else {
            0nat
        },
{
    if worker < num_tiles {
        let m = (num_tiles - 1 - worker) as nat;
        assert((m + 1) / workers == m / workers + if (m + 1) % workers == 0 {
            1nat
        } else {
            0nat
        }) by (nonlinear_arith)
            requires
                workers > 0,
        {
            vstd::arithmetic::div_mod::lemma_fundamental_div_mod(m as int, workers as int);
            vstd::arithmetic::div_mod::lemma_fundamental_div_mod((m + 1) as int, workers as int);
        }
        assert((m + 1) % workers == 0 <==> num_tiles % workers == worker) by (nonlinear_arith)
            requires
                workers > 0,
                worker < workers,
                m + 1 + worker == num_tiles,
        {
            vstd::arithmetic::div_mod::lemma_fundamental_div_mod((m + 1) as int, workers as int);
            vstd::arithmetic::div_mod::lemma_fundamental_div_mod(num_tiles as int, workers as int);
        }
    } else if worker == num_tiles {
        vstd::arithmetic::div_mod::lemma_small_mod(num_tiles, workers);
    } else {
        vstd::arithmetic::div_mod::lemma_small_mod(num_tiles, workers);
    }
}

proof fn lemma_dealt_total_step(num_tiles: nat, workers: nat, k: nat)
    requires
        workers > 0,
        k <= workers,
    ensures
        dealt_total(num_tiles + 1, workers, k) == dealt_total(num_tiles, workers, k) + if num_tiles
            % workers < k {
            1nat
        } else {
            0nat
        },
    decreases k,
{
    if k > 0 {
        lemma_dealt_total_step(num_tiles, workers, (k - 1) as nat);
        lemma_dealt_count_step(num_tiles, workers, (k - 1) as nat);
    }
}

/// The workers together are dealt exactly as many tiles as there are, so a
/// collector that waits for the tile count receives its last tile.
pub proof fn lemma_dealt_total(num_tiles: nat, workers: nat)
    requires
        workers > 0,
    ensures
        dealt_total(num_tiles, workers, workers) == num_tiles,
    decreases num_tiles,
{
    if num_tiles == 0 {
        lemma_dealt_total_zero(workers, workers);
    } else {
        let n = (num_tiles - 1) as nat;
        lemma_dealt_total(n, workers);
        lemma_dealt_total_step(n, workers, workers);
        vstd::arithmetic::div_mod::lemma_mod_bound(n as int, workers as int);
    }
}

proof fn lemma_dealt_total_zero(workers: nat, k: nat)
    ensures
        dealt_total(0, workers, k) == 0,
    decreases k,
{
    if k > 0 {
        lemma_dealt_total_zero(workers, (k - 1) as nat);
    }
}

/// How an image is cut into tiles of `TILE_WIDTH` by `TILE_HEIGHT` pixels and
/// dealt out to a fixed pool of workers.
#[derive(Clone, Copy, Debug, PartialEq, Eq)]
pub struct TilePlan {
    pub width: u32,
    pub height: u32,
    pub workers: u32,
}

impl TilePlan {
    /// Whole tiles in a row of the image.
    pub open spec fn tiles_x(&self) -> nat {
        (self.width / TILE_WIDTH) as nat
    }

    /// Whole tiles in a column of the image.
    pub open spec fn tiles_y(&self) -> nat {
        (self.height / TILE_HEIGHT) as nat
    }

    /// Number of tiles rendered; pixels beyond the last whole tile are left out.
    pub open spec fn tile_count(&self) -> nat {
        self.tiles_x() * self.tiles_y()
    }

    /// At least one worker, and the image's RGBA buffer size fits in `u32`.
    pub open spec fn wf(&self) -> bool {
        &&& self.workers > 0
        &&& self.width * self.height * 4 <= u32::MAX
    }

    /// Scene coordinates of the `k`-th pixel of tile `(tx, ty)`, row by row.
    pub open spec fn tile_pixel(tx: nat, ty: nat, k: nat) -> (nat, nat) {
        ((tx * TILE_WIDTH + k % (TILE_WIDTH as nat)) as nat, (ty * TILE_HEIGHT + k / (TILE_WIDTH as nat)) as nat)
    }

    /// A plan for an image of `width` by `height` pixels and `workers` workers.
    pub fn new(width: u32, height: u32, workers: u32) -> (r: TilePlan)
        requires
            workers > 0,
            width * height * 4 <= u32::MAX,
        ensures
            r.wf(),
            r == (TilePlan { width, height, workers }),
    {
        TilePlan { width, height, workers }
    }

    /// The number of tiles.
    pub fn num_tiles(&self) -> (r: u32)
        requires
            self.wf(),
        ensures
            r == self.tile_count(),
    {
        proof {
            assert(self.tile_count() <= self.width * self.height) by (nonlinear_arith)
                requires
                    self.tiles_x() * 10 <= self.width,
                    self.tiles_y() * 10 <= self.height,
                    self.tile_count() == self.tiles_x() * self.tiles_y(),
            ;
        }
        (self.width / TILE_WIDTH) * (self.height / TILE_HEIGHT)
    }

    /// Column and row, in tiles, of tile number `tile`; tiles are numbered row by row.
    pub fn tile_position(&self, tile: u32) -> (r: (u32, u32))
        requires
            self.wf(),
            tile < self.tile_count(),
        ensures
            r.0 == tile as nat % self.tiles_x(),
            r.1 == tile as nat / self.tiles_x(),
            r.0 < self.tiles_x(),
            r.1 < self.tiles_y(),
    {
        let tiles_x: u32 = self.width / TILE_WIDTH;
        proof {
            assert(tiles_x > 0) by (nonlinear_arith)
                requires
                    tile < tiles_x * self.tiles_y(),
            ;
            assert(tile / tiles_x < self.tiles_y()) by (nonlinear_arith)
                requires
                    tiles_x > 0,
                    tile < tiles_x * self.tiles_y(),
            ;
        }
        (tile % tiles_x, tile / tiles_x)
    }

    /// The tiles that worker `worker` renders, in order: `worker`, `worker + workers`,
    /// `worker + 2 * workers`, and so on while below the tile count.
    pub fn worker_tiles(&self, worker: u32) -> (r: Vec<u32>)
        requires
            self.wf(),
            worker < self.workers,
        ensures
            r@.len() == dealt_count(self.tile_count(), self.workers as nat, worker as nat),
            forall|i: int|
                0 <= i < r@.len() ==> r@[i] as nat == #[trigger] dealt_tiles(
                    self.tile_count(),
                    self.workers as nat,
                    worker as nat,
                )[i],
    {
        let num: u32 = self.num_tiles();
        let workers: u64 = self.workers as u64;
        let rounds: u64 = (num as u64) / workers + 1;
        let mut tiles: Vec<u32> = Vec::new();
        let mut j: u64 = 0;
        proof {
            if worker < num {
                let m = (num - 1 - worker) as nat;
                assert(m / workers as nat <= num as nat / workers as nat) by (nonlinear_arith)
                    requires
                        m <= num,
                        workers > 0,
                ;
            }
        }
        while j < rounds
            invariant
                num == self.tile_count(),
                workers == self.workers,
                workers > 0,
                worker < workers,
                rounds == num as nat / workers as nat + 1,
                dealt_count(num as nat, workers as nat, worker as nat) <= rounds,
                j <= rounds,
                tiles@.len() == j,
                j <= dealt_count(num as nat, workers as nat, worker as nat),
                forall|i: int|
                    0 <= i < tiles@.len() ==> tiles@[i] as nat == dealt_tile(
                        workers as nat,
                        worker as nat,
                        i as nat,
                    ),
            ensures
                tiles@.len() == dealt_count(num as nat, workers as nat, worker as nat),
                forall|i: int|
                    0 <= i < tiles@.len() ==> tiles@[i] as nat == dealt_tile(
                        workers as nat,
                        worker as nat,
                        i as nat,
                    ),
            decreases rounds - j,
        {
            proof {
                assert(j * workers <= num as nat + workers) by (nonlinear_arith)
                    requires
                        j < rounds,
                        rounds == num as nat / workers as nat + 1,
                        workers > 0,
                ;
            }
            let tile: u64 = j * workers + worker as u64;
            proof {
                lemma_dealt_bound(num as nat, workers as nat, worker as nat, j as nat);
            }
            if tile >= num as u64 {
                break;
            }
            tiles.push(tile as u32);
            j = j + 1;
        }
        tiles
    }

    /// Scene coordinates of the pixels of tile `(tx, ty)`, row by row, as the
    /// tile's pixel buffer holds them.
    pub fn tile_pixels(&self, tx: u32, ty: u32) -> (r: Vec<(u32, u32)>)
        requires
            self.wf(),
            tx < self.tiles_x(),
            ty < self.tiles_y(),
        ensures
            r@.len() == TILE_WIDTH * TILE_HEIGHT,
            forall|k: int|
                0 <= k < r@.len() ==> (r@[k].0 as nat, r@[k].1 as nat) == #[trigger] Self::tile_pixel(
                    tx as nat,
                    ty as nat,
                    k as nat,
                ),
    {
        let mut pixels: Vec<(u32, u32)> = Vec::new();
        let mut y: u32 = 0;
        while y < TILE_HEIGHT
            invariant
                y <= TILE_HEIGHT,
                tx < self.tiles_x(),
                ty < self.tiles_y(),
                pixels@.len() == y * TILE_WIDTH,
                forall|k: int|
                    0 <= k < pixels@.len() ==> (pixels@[k].0 as nat, pixels@[k].1 as nat)
                        == #[trigger] Self::tile_pixel(tx as nat, ty as nat, k as nat),
            decreases TILE_HEIGHT - y,
        {
            let mut x: u32 = 0;
            while x < TILE_WIDTH
                invariant
                    y < TILE_HEIGHT,
                    x <= TILE_WIDTH,
                    tx < self.tiles_x(),
                    ty < self.tiles_y(),
                    pixels@.len() == y * TILE_WIDTH + x,
                    forall|k: int|
                        0 <= k < pixels@.len() ==> (pixels@[k].0 as nat, pixels@[k].1 as nat)
                            == #[trigger] Self::tile_pixel(tx as nat, ty as nat, k as nat),
                decreases TILE_WIDTH - x,
            {
                proof {
                    assert(tx * 10 + 10 <= self.width && ty * 10 + 10 <= self.height) by (nonlinear_arith)
                        requires
                            tx < self.width / 10,
                            ty < self.height / 10,
                    ;
                    let k = (y * TILE_WIDTH + x) as nat;
                    assert(k % 10 == x && k / 10 == y) by (nonlinear_arith)
                        requires
                            k == y * 10 + x,
                            x < 10,
                    ;
                }
                pixels.push((tx * TILE_WIDTH + x, ty * TILE_HEIGHT + y));
                x = x + 1;
            }
            y = y + 1;
        }
        pixels
    }
}

} // verus!
