use raytracer::collector::{Collector, Progress, Tile};
use raytracer::tiles::TilePlan;

fn solid_tile(x_index: u32, y_index: u32, rgb: [u8; 3]) -> Tile {
    Tile { pixels: vec![rgb; 100], x_index, y_index }
}

fn pixel(c: &Collector, x: u32, y: u32) -> [u8; 4] {
    let o = ((y * c.image.width + x) * 4) as usize;
    [c.image.bytes[o], c.image.bytes[o + 1], c.image.bytes[o + 2], c.image.bytes[o + 3]]
}

#[test]
fn new_collector_holds_blank_image() {
    let c = Collector::new(TilePlan::new(20, 20, 2));
    assert_eq!(c.received, 0);
    assert!(!c.is_finished());
    assert_eq!(c.image.bytes.len(), 20 * 20 * 4);
    assert_eq!(pixel(&c, 5, 5), [0, 0, 0, 255]);
}

#[test]
fn tile_is_written_flipped() {
    let mut c = Collector::new(TilePlan::new(20, 30, 4));
    let mut tile = solid_tile(1, 0, [9, 9, 9]);
    tile.pixels[0] = [1, 2, 3];
    tile.pixels[99] = [4, 5, 6];
    c.accept(&tile);
    // scene (10, 0) is raster (10, 29); scene (19, 9) is raster (19, 20)
    assert_eq!(pixel(&c, 10, 29), [1, 2, 3, 255]);
    assert_eq!(pixel(&c, 19, 20), [4, 5, 6, 255]);
    assert_eq!(pixel(&c, 15, 25), [9, 9, 9, 255]);
    assert_eq!(pixel(&c, 9, 29), [0, 0, 0, 255]);
    assert_eq!(pixel(&c, 10, 19), [0, 0, 0, 255]);
}

#[test]
fn progress_follows_worker_count() {
    let plan = TilePlan::new(50, 10, 2);
    let mut c = Collector::new(plan);
    let expected = [
        Progress::Pending,
        Progress::Snapshot,
        Progress::Pending,
        Progress::Snapshot,
        Progress::Finished,
    ];
    for (n, want) in expected.iter().enumerate() {
        let tile = solid_tile(n as u32, 0, [n as u8, 0, 0]);
        assert!(c.can_accept(&tile));
        assert_eq!(c.accept(&tile), *want);
    }
    assert!(c.is_finished());
    assert!(!c.can_accept(&solid_tile(0, 0, [0, 0, 0])));
}

#[test]
fn last_tile_finishes_even_on_a_multiple() {
    let mut c = Collector::new(TilePlan::new(20, 10, 2));
    assert_eq!(c.accept(&solid_tile(1, 0, [1, 1, 1])), Progress::Pending);
    assert_eq!(c.accept(&solid_tile(0, 0, [2, 2, 2])), Progress::Finished);
}

#[test]
fn misfit_tiles_are_refused() {
    let c = Collector::new(TilePlan::new(20, 10, 1));
    assert!(!c.can_accept(&solid_tile(2, 0, [0, 0, 0])));
    assert!(!c.can_accept(&solid_tile(0, 1, [0, 0, 0])));
    let short = Tile { pixels: vec![[0, 0, 0]; 99], x_index: 0, y_index: 0 };
    assert!(!c.can_accept(&short));
}

#[test]
fn snapshot_twice_is_identical() {
    let mut c = Collector::new(TilePlan::new(20, 20, 3));
    c.accept(&solid_tile(1, 1, [200, 100, 50]));
    let first = c.snapshot().unwrap();
    let second = c.snapshot().unwrap();
    assert_eq!(first, second);
    assert_eq!(&first[..8], &[137, 80, 78, 71, 13, 10, 26, 10]);
}

#[test]
fn snapshot_changes_with_new_tile() {
    let mut c = Collector::new(TilePlan::new(20, 20, 3));
    let before = c.snapshot().unwrap();
    c.accept(&solid_tile(0, 0, [7, 7, 7]));
    assert_ne!(before, c.snapshot().unwrap());
}

#[test]
fn snapshot_of_empty_image_fails() {
    let c = Collector::new(TilePlan::new(0, 0, 1));
    assert!(c.snapshot().is_err());
}

#[test]
fn repeated_tile_is_refused() {
    let mut c = Collector::new(TilePlan::new(20, 10, 2));
    let tile = solid_tile(1, 0, [3, 3, 3]);
    assert!(c.can_accept(&tile));
    assert_eq!(c.accept(&tile), Progress::Pending);
    assert!(!c.can_accept(&tile));
    assert!(c.arrived[1]);
    assert!(!c.arrived[0]);
    assert!(!c.is_finished());
}

#[test]
fn snapshot_is_the_png_of_the_image() {
    let mut c = Collector::new(TilePlan::new(10, 10, 1));
    c.accept(&solid_tile(0, 0, [12, 34, 56]));
    assert_eq!(c.snapshot().unwrap(), c.image.encode_png().unwrap());
}
