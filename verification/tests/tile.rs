use raytracer::tile::{Tile, TileGrid};

fn all_tiles(grid: &TileGrid) -> Vec<Tile> {
    (0..grid.tile_count()).map(|i| grid.tile_at(i)).collect()
}

#[test]
fn grid_of_the_default_render() {
    let grid = TileGrid::new(1200, 800, 64, 64);
    assert_eq!(grid.tile_count_x(), 19);
    assert_eq!(grid.tile_count_y(), 13);
    assert_eq!(grid.tile_count(), 247);
    assert_eq!(grid.tile(0, 0), Tile { x: 0, y: 0, x2: 64, y2: 64 });
    assert_eq!(grid.tile(1, 2), Tile { x: 64, y: 128, x2: 128, y2: 192 });
    assert_eq!(grid.tile(18, 0), Tile { x: 1152, y: 0, x2: 1200, y2: 64 });
    assert_eq!(grid.tile(0, 12), Tile { x: 0, y: 768, x2: 64, y2: 800 });
    assert_eq!(grid.tile(18, 12), Tile { x: 1152, y: 768, x2: 1200, y2: 800 });
}

#[test]
fn tiles_are_numbered_row_by_row() {
    let grid = TileGrid::new(1200, 800, 64, 64);
    assert_eq!(grid.tile_at(0), grid.tile(0, 0));
    assert_eq!(grid.tile_at(1), grid.tile(1, 0));
    assert_eq!(grid.tile_at(18), grid.tile(18, 0));
    assert_eq!(grid.tile_at(19), grid.tile(0, 1));
    assert_eq!(grid.tile_at(246), grid.tile(18, 12));
    for row in 0..13u32 {
        for col in 0..19u32 {
            assert_eq!(grid.tile_at(row as u64 * 19 + col as u64), grid.tile(col, row));
        }
    }
}

#[test]
fn exact_multiple_is_not_clipped() {
    let grid = TileGrid::new(128, 64, 64, 32);
    assert_eq!(grid.tile_count_x(), 2);
    assert_eq!(grid.tile_count_y(), 2);
    assert_eq!(
        all_tiles(&grid),
        vec![
            Tile { x: 0, y: 0, x2: 64, y2: 32 },
            Tile { x: 64, y: 0, x2: 128, y2: 32 },
            Tile { x: 0, y: 32, x2: 64, y2: 64 },
            Tile { x: 64, y: 32, x2: 128, y2: 64 },
        ]
    );
}

#[test]
fn tile_larger_than_image_is_clipped_to_it() {
    let grid = TileGrid::new(2, 2, 64, 64);
    assert_eq!(grid.tile_count_x(), 1);
    assert_eq!(grid.tile_count_y(), 1);
    assert_eq!(grid.tile_count(), 1);
    assert_eq!(grid.tile_at(0), Tile { x: 0, y: 0, x2: 2, y2: 2 });
}

#[test]
fn empty_image_has_no_tiles() {
    let grid = TileGrid::new(0, 800, 64, 64);
    assert_eq!(grid.tile_count_x(), 0);
    assert_eq!(grid.tile_count_y(), 13);
    assert_eq!(grid.tile_count(), 0);
    let grid = TileGrid::new(1200, 0, 64, 64);
    assert_eq!(grid.tile_count_y(), 0);
    assert_eq!(grid.tile_count(), 0);
}

#[test]
fn one_pixel_tiles() {
    let grid = TileGrid::new(3, 2, 1, 1);
    assert_eq!(grid.tile_count(), 6);
    assert_eq!(grid.tile_at(4), Tile { x: 1, y: 1, x2: 2, y2: 2 });
}

#[test]
fn sizes_at_the_limit_do_not_overflow() {
    let grid = TileGrid::new(u32::MAX, u32::MAX, 1 << 31, u32::MAX);
    assert_eq!(grid.tile_count_x(), 2);
    assert_eq!(grid.tile_count_y(), 1);
    assert_eq!(grid.tile(0, 0), Tile { x: 0, y: 0, x2: 1 << 31, y2: u32::MAX });
    assert_eq!(grid.tile(1, 0), Tile { x: 1 << 31, y: 0, x2: u32::MAX, y2: u32::MAX });
    let fine = TileGrid::new(u32::MAX, u32::MAX, 1, 1);
    assert_eq!(fine.tile_count_x(), u32::MAX);
    assert_eq!(fine.tile_count(), u32::MAX as u64 * u32::MAX as u64);
    assert_eq!(
        fine.tile(u32::MAX - 1, u32::MAX - 1),
        Tile { x: u32::MAX - 1, y: u32::MAX - 1, x2: u32::MAX, y2: u32::MAX }
    );
}

#[test]
fn every_pixel_lies_in_exactly_one_tile() {
    for (width, height, tile_w, tile_h) in
        [(10u32, 7u32, 4u32, 3u32), (8, 8, 4, 4), (5, 9, 7, 2), (1, 1, 1, 1), (13, 1, 5, 5)]
    {
        let grid = TileGrid::new(width, height, tile_w, tile_h);
        let tiles = all_tiles(&grid);
        let mut hits = vec![0u32; (width * height) as usize];
        for t in &tiles {
            assert!(t.x < t.x2 && t.x2 <= width);
            assert!(t.y < t.y2 && t.y2 <= height);
            assert!(t.x2 - t.x <= tile_w && t.y2 - t.y <= tile_h);
            for y in t.y..t.y2 {
                for x in t.x..t.x2 {
                    hits[(y * width + x) as usize] += 1;
                }
            }
        }
        assert!(hits.iter().all(|&n| n == 1));
    }
}

#[test]
fn the_tile_of_a_pixel_is_found_by_division() {
    let grid = TileGrid::new(1200, 800, 64, 64);
    for (px, py) in [(0u32, 0u32), (63, 63), (64, 64), (1199, 799), (1151, 767), (1152, 768)] {
        let t = grid.tile(px / 64, py / 64);
        assert!(t.x <= px && px < t.x2 && t.y <= py && py < t.y2);
    }
}

#[test]
fn pixel_counts() {
    assert_eq!(Tile { x: 0, y: 0, x2: 64, y2: 64 }.pixel_count(), 4096);
    assert_eq!(Tile { x: 1152, y: 768, x2: 1200, y2: 800 }.pixel_count(), 48 * 32);
    assert_eq!(Tile { x: 5, y: 5, x2: 5, y2: 9 }.pixel_count(), 0);
    assert_eq!(
        Tile { x: 0, y: 0, x2: u32::MAX, y2: u32::MAX }.pixel_count(),
        u32::MAX as u64 * u32::MAX as u64
    );
    let grid = TileGrid::new(1200, 800, 64, 64);
    let total: u64 = all_tiles(&grid).iter().map(|t| t.pixel_count()).sum();
    assert_eq!(total, 1200 * 800);
}
