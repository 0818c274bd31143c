use raytracer::image::Image;
use raytracer::image::Tile;

type Rgb = (f32, f32, f32);

fn numbered(width: usize, height: usize) -> Image<u32> {
    let mut img = Image::new(width, height, 0u32);
    for y in 0..height as u32 {
        for x in 0..width as u32 {
            img.put_pixel(x, y, y * 1000 + x);
        }
    }
    img
}

fn same_pixels(a: &Image<u32>, b: &Image<u32>) -> bool {
    if a.width() != b.width() || a.height() != b.height() {
        return false;
    }
    for y in 0..a.height() {
        for x in 0..a.width() {
            if a.get_pixel(x, y) != b.get_pixel(x, y) {
                return false;
            }
        }
    }
    true
}

#[test]
fn new_image_is_filled() {
    let black: Rgb = (0.0, 0.0, 0.0);
    let img = Image::new(4, 3, black);
    assert_eq!(img.width(), 4);
    assert_eq!(img.height(), 3);
    for y in 0..3 {
        for x in 0..4 {
            assert_eq!(*img.get_pixel(x, y), black);
        }
    }
}

#[test]
fn put_pixel_changes_one_pixel() {
    let mut img = Image::new(3, 2, (0.0f32, 0.0f32, 0.0f32));
    img.put_pixel(2, 1, (0.5, 0.25, 1.0));
    assert_eq!(*img.get_pixel(2, 1), (0.5, 0.25, 1.0));
    assert_eq!(*img.get_pixel(1, 1), (0.0, 0.0, 0.0));
    assert_eq!(*img.get_pixel(2, 0), (0.0, 0.0, 0.0));
}

#[test]
fn get_tile_copies_block() {
    let img = numbered(6, 5);
    let tile = img.get_tile(2, 1, 3, 2);
    assert_eq!(tile.x, 2);
    assert_eq!(tile.y, 1);
    assert_eq!(tile.id, 0);
    assert_eq!(tile.image.width(), 3);
    assert_eq!(tile.image.height(), 2);
    assert_eq!(*tile.image.get_pixel(0, 0), 1002);
    assert_eq!(*tile.image.get_pixel(2, 0), 1004);
    assert_eq!(*tile.image.get_pixel(1, 1), 2003);
    assert_eq!(*tile.image.get_pixel(2, 1), 2004);
}

#[test]
fn split_into_tiles_layout() {
    let img = numbered(8, 6);
    let tiles = img.split_into_tiles(4, 3);
    assert_eq!(tiles.len(), 12);
    // Tiles run down each column of the grid; ids run along its rows.
    let t = &tiles[0];
    assert_eq!((t.x, t.y, t.id), (0, 0, 0));
    let t = &tiles[1];
    assert_eq!((t.x, t.y, t.id), (0, 2, 4));
    let t = &tiles[3];
    assert_eq!((t.x, t.y, t.id), (2, 0, 1));
    let t = &tiles[11];
    assert_eq!((t.x, t.y, t.id), (6, 4, 11));
    assert_eq!(t.image.width(), 2);
    assert_eq!(t.image.height(), 2);
    assert_eq!(*t.image.get_pixel(0, 0), 4006);
    assert_eq!(*t.image.get_pixel(1, 1), 5007);
    let mut ids: Vec<u32> = tiles.iter().map(|t| t.id).collect();
    ids.sort();
    assert_eq!(ids, (0..12).collect::<Vec<u32>>());
}

#[test]
fn split_into_single_tile() {
    let img = numbered(5, 3);
    let tiles = img.split_into_tiles(1, 1);
    assert_eq!(tiles.len(), 1);
    assert!(same_pixels(&tiles[0].image, &img));
}

#[test]
fn can_split_into_tiles_checks_grid() {
    let img = Image::new(1024, 768, 0u8);
    assert!(img.can_split_into_tiles(16, 16));
    assert!(!img.can_split_into_tiles(0, 16));
    assert!(!img.can_split_into_tiles(16, 0));
    assert!(!img.can_split_into_tiles(10, 16));
    assert!(!img.can_split_into_tiles(16, 10));
    let empty = Image::new(0, 0, 0u8);
    assert!(empty.can_split_into_tiles(3, 5));
    assert!(!empty.can_split_into_tiles(usize::MAX, 2));
}

#[test]
fn set_tile_pastes_at_offset() {
    let mut img = Image::new(4, 4, 0u32);
    let mut patch = Image::new(2, 3, 0u32);
    patch.put_pixel(0, 0, 7);
    patch.put_pixel(1, 2, 9);
    let tile = Tile { x: 1, y: 1, id: 5, image: patch };
    img.set_tile(&tile);
    assert_eq!(*img.get_pixel(1, 1), 7);
    assert_eq!(*img.get_pixel(2, 3), 9);
    assert_eq!(*img.get_pixel(0, 0), 0);
    assert_eq!(*img.get_pixel(3, 3), 0);
}

#[test]
fn set_tiles_last_tile_wins() {
    let mut img = Image::new(3, 1, 0u32);
    let a = Tile { x: 0, y: 0, id: 0, image: Image::new(2, 1, 1u32) };
    let b = Tile { x: 1, y: 0, id: 1, image: Image::new(2, 1, 2u32) };
    img.set_tiles(&vec![a, b]);
    assert_eq!(*img.get_pixel(0, 0), 1);
    assert_eq!(*img.get_pixel(1, 0), 2);
    assert_eq!(*img.get_pixel(2, 0), 2);
}

#[test]
fn tiling_round_trip_onto_blank_image() {
    let img = numbered(12, 8);
    let tiles = img.split_into_tiles(3, 4);
    let mut out = Image::new(12, 8, u32::MAX);
    out.set_tiles(&tiles);
    assert!(same_pixels(&out, &img));
}

#[test]
fn tiling_round_trip_onto_itself() {
    let original = numbered(6, 6);
    let mut img = numbered(6, 6);
    let tiles = img.split_into_tiles(2, 3);
    for t in &tiles {
        img.set_tile(t);
    }
    assert!(same_pixels(&img, &original));
}

#[test]
fn tiling_round_trip_with_colors() {
    let mut img = Image::new(4, 2, (0.0f32, 0.0f32, 0.0f32));
    img.put_pixel(3, 1, (0.1, 0.2, 0.3));
    img.put_pixel(0, 0, (1.0, 0.5, 0.25));
    let tiles = img.split_into_tiles(2, 2);
    let mut out = Image::new(4, 2, (9.0f32, 9.0f32, 9.0f32));
    out.set_tiles(&tiles);
    for y in 0..2 {
        for x in 0..4 {
            assert_eq!(out.get_pixel(x, y), img.get_pixel(x, y));
        }
    }
}

#[test]
fn split_empty_image() {
    let img = Image::new(0, 0, 0u8);
    let tiles = img.split_into_tiles(2, 2);
    assert_eq!(tiles.len(), 4);
    for t in &tiles {
        assert_eq!(t.image.width(), 0);
        assert_eq!(t.image.height(), 0);
    }
}

#[test]
fn tile_to_image_coordinates_adds_offset() {
    let img = numbered(8, 8);
    let tiles = img.split_into_tiles(2, 2);
    let t = &tiles[3];
    assert_eq!((t.x, t.y), (4, 4));
    assert_eq!(t.tile_to_image_coordinates(0, 0), (4, 4));
    assert_eq!(t.tile_to_image_coordinates(3, 1), (7, 5));
    assert_eq!(*img.get_pixel(7, 5), *t.image.get_pixel(3, 1));
}
