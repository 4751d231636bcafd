use raytracer::tiles::{TilePlan, TILE_HEIGHT, TILE_WIDTH};

#[test]
fn thirty_seven_tiles_over_five_workers() {
    let plan = TilePlan::new(370, 10, 5);
    assert_eq!(plan.num_tiles(), 37);
    let mut seen = vec![0u32; 37];
    for w in 0..5 {
        let tiles = plan.worker_tiles(w);
        for (i, t) in tiles.iter().enumerate() {
            assert_eq!(*t, w + 5 * i as u32);
            seen[*t as usize] += 1;
        }
    }
    assert!(seen.iter().all(|c| *c == 1));
}

#[test]
fn worker_tiles_are_round_robin() {
    let plan = TilePlan::new(370, 10, 5);
    assert_eq!(plan.worker_tiles(0), vec![0, 5, 10, 15, 20, 25, 30, 35]);
    assert_eq!(plan.worker_tiles(1), vec![1, 6, 11, 16, 21, 26, 31, 36]);
    assert_eq!(plan.worker_tiles(2), vec![2, 7, 12, 17, 22, 27, 32]);
    assert_eq!(plan.worker_tiles(4), vec![4, 9, 14, 19, 24, 29, 34]);
}

#[test]
fn more_workers_than_tiles() {
    let plan = TilePlan::new(20, 10, 5);
    assert_eq!(plan.num_tiles(), 2);
    assert_eq!(plan.worker_tiles(0), vec![0]);
    assert_eq!(plan.worker_tiles(1), vec![1]);
    assert!(plan.worker_tiles(2).is_empty());
    assert!(plan.worker_tiles(4).is_empty());
}

#[test]
fn partial_tiles_are_left_out() {
    let plan = TilePlan::new(205, 109, 3);
    assert_eq!(plan.num_tiles(), 200);
    let empty = TilePlan::new(9, 100, 1);
    assert_eq!(empty.num_tiles(), 0);
    assert!(empty.worker_tiles(0).is_empty());
}

#[test]
fn tiles_are_numbered_row_by_row() {
    let plan = TilePlan::new(200, 100, 20);
    assert_eq!(plan.tile_position(0), (0, 0));
    assert_eq!(plan.tile_position(19), (19, 0));
    assert_eq!(plan.tile_position(20), (0, 1));
    assert_eq!(plan.tile_position(199), (19, 9));
}

#[test]
fn tile_pixels_run_row_by_row() {
    let plan = TilePlan::new(200, 100, 20);
    let pixels = plan.tile_pixels(3, 2);
    assert_eq!(pixels.len(), (TILE_WIDTH * TILE_HEIGHT) as usize);
    assert_eq!(pixels[0], (30, 20));
    assert_eq!(pixels[9], (39, 20));
    assert_eq!(pixels[10], (30, 21));
    assert_eq!(pixels[99], (39, 29));
}

#[test]
fn workers_together_get_every_tile() {
    for (width, height, workers) in [(370, 10, 5), (200, 100, 20), (200, 100, 7), (30, 30, 1), (20, 10, 9)] {
        let plan = TilePlan::new(width, height, workers);
        let total: usize = (0..workers).map(|w| plan.worker_tiles(w).len()).sum();
        assert_eq!(total, plan.num_tiles() as usize);
    }
}
