use image::{GenericImage, GenericImageView, ImageBuffer, Rgba, RgbaImage};
use packer::asset::ImageTexture;
use packer::atlas::pack;
use packer::compositor::compose;
use packer::config::Config;
use packer::geometry::Placement;
use packer::packer::Layout;
use packer::texture::Texture2D;

fn pattern(width: u32, height: u32, seed: u8) -> Texture2D {
    let mut data = Vec::new();
    for y in 0..height {
        for x in 0..width {
            data.push(seed);
            data.push(x as u8);
            data.push(y as u8);
            data.push(255);
        }
    }
    Texture2D::from_raw(width, height, data).unwrap()
}

#[test]
fn a_buffer_needs_four_bytes_a_pixel() {
    assert!(Texture2D::from_raw(2, 2, vec![0; 16]).is_some());
    assert!(Texture2D::from_raw(2, 2, vec![0; 15]).is_none());
    assert!(Texture2D::from_raw(2, 2, vec![0; 17]).is_none());
    assert!(Texture2D::from_raw(0, 7, vec![]).is_some());
    assert!(Texture2D::from_raw(u32::MAX, u32::MAX, vec![0; 4]).is_none());
}

#[test]
fn a_new_canvas_is_transparent() {
    let canvas = Texture2D::transparent(3, 2);
    assert_eq!((canvas.width(), canvas.height()), (3, 2));
    assert_eq!(canvas.data(), &vec![0u8; 24]);
    assert_eq!(canvas.get_pixel(2, 1), Some((0, 0, 0, 0)));
    assert_eq!(canvas.get_pixel(3, 1), None);
    assert_eq!(canvas.get_pixel(2, 2), None);
}

#[test]
fn pixels_are_read_row_by_row() {
    let data: Vec<u8> = (0..24).collect();
    let texture = Texture2D::from_raw(3, 2, data.clone()).unwrap();
    assert_eq!(texture.get_pixel(0, 0), Some((0, 1, 2, 3)));
    assert_eq!(texture.get_pixel(2, 0), Some((8, 9, 10, 11)));
    assert_eq!(texture.get_pixel(0, 1), Some((12, 13, 14, 15)));
    assert_eq!(texture.get_pixel(2, 1), Some((20, 21, 22, 23)));
    assert_eq!(texture.into_raw(), data);
}

#[test]
fn blit_copies_into_the_box_and_nowhere_else() {
    let mut canvas = Texture2D::transparent(4, 4);
    let source = pattern(2, 2, 9);
    assert!(canvas.blit(&source, 1, 2));
    for y in 0..4u32 {
        for x in 0..4u32 {
            let expected = if (1..3).contains(&x) && (2..4).contains(&y) {
                (9, (x - 1) as u8, (y - 2) as u8, 255)
            } else {
                (0, 0, 0, 0)
            };
            assert_eq!(canvas.get_pixel(x, y), Some(expected));
        }
    }
}

#[test]
fn blit_that_does_not_fit_changes_nothing() {
    let mut canvas = Texture2D::transparent(4, 4);
    let source = pattern(2, 2, 9);
    assert!(!canvas.blit(&source, 3, 0));
    assert!(!canvas.blit(&source, 0, 3));
    assert!(!canvas.blit(&source, u32::MAX, 0));
    assert!(!canvas.blit(&pattern(5, 1, 1), 0, 0));
    assert_eq!(canvas.data(), &vec![0u8; 64]);
    assert!(canvas.blit(&source, 2, 2));
    assert_eq!(canvas.get_pixel(3, 3), Some((9, 1, 1, 255)));
}

#[test]
fn compose_shows_every_image_at_its_box() {
    let images = vec![
        ImageTexture::new("a".to_string(), pattern(2, 3, 1), None),
        ImageTexture::new("b".to_string(), pattern(4, 1, 2), None),
    ];
    let layout = Layout {
        width: 8,
        height: 4,
        slots: vec![
            Placement { x: 5, y: 1, width: 2, height: 3 },
            Placement { x: 0, y: 0, width: 4, height: 1 },
        ],
    };
    let sheet = compose(&layout, &images);
    assert_eq!((sheet.width(), sheet.height()), (8, 4));
    for y in 0..4u32 {
        for x in 0..8u32 {
            let expected = if (5..7).contains(&x) && (1..4).contains(&y) {
                (1, (x - 5) as u8, (y - 1) as u8, 255)
            } else if x < 4 && y == 0 {
                (2, x as u8, 0, 255)
            } else {
                (0, 0, 0, 0)
            };
            assert_eq!(sheet.get_pixel(x, y), Some(expected), "at {} {}", x, y);
        }
    }
}

#[test]
fn a_packed_sheet_holds_every_source_pixel() {
    let sources = vec![(7u32, 5u32, 10u8), (16, 16, 20), (3, 9, 30), (1, 1, 40), (12, 2, 50)];
    let mut images = Vec::new();
    for (i, (w, h, seed)) in sources.iter().enumerate() {
        images.push(ImageTexture::new(format!("image{}", i), pattern(*w, *h, *seed), None));
    }
    let config = Config::new("atlas".to_string(), "out".to_string(), Vec::new());
    let packed = pack(&config, &images).unwrap();
    let mut covered = vec![false; (packed.sheet.width() * packed.sheet.height()) as usize];
    for (i, (w, h, seed)) in sources.iter().enumerate() {
        let slot = packed.layout.slots[i];
        assert_eq!((slot.width, slot.height), (*w, *h));
        for y in 0..*h {
            for x in 0..*w {
                assert_eq!(
                    packed.sheet.get_pixel(slot.x + x, slot.y + y),
                    Some((*seed, x as u8, y as u8, 255))
                );
                let at = ((slot.y + y) * packed.sheet.width() + slot.x + x) as usize;
                assert!(!covered[at]);
                covered[at] = true;
            }
        }
    }
    for y in 0..packed.sheet.height() {
        for x in 0..packed.sheet.width() {
            if !covered[(y * packed.sheet.width() + x) as usize] {
                assert_eq!(packed.sheet.get_pixel(x, y), Some((0, 0, 0, 0)));
            }
        }
    }
}

#[test]
fn the_sheet_is_what_copying_images_gives() {
    let sources = vec![(9u32, 4u32, 11u8), (6, 6, 22), (2, 13, 33), (5, 5, 44)];
    let mut images = Vec::new();
    for (i, (w, h, seed)) in sources.iter().enumerate() {
        images.push(ImageTexture::new(format!("image{}", i), pattern(*w, *h, *seed), None));
    }
    let config = Config::new("atlas".to_string(), "out".to_string(), Vec::new());
    let packed = pack(&config, &images).unwrap();
    let mut expected: RgbaImage =
        ImageBuffer::from_fn(packed.layout.width, packed.layout.height, |_, _| Rgba([0, 0, 0, 0]));
    for (i, (w, h, seed)) in sources.iter().enumerate() {
        let slot = packed.layout.slots[i];
        let source: RgbaImage = ImageBuffer::from_raw(*w, *h, pattern(*w, *h, *seed).into_raw()).unwrap();
        let view = source.view(0, 0, slot.width, slot.height);
        expected.copy_from(&*view, slot.x, slot.y).unwrap();
    }
    assert_eq!(packed.sheet.data(), &expected.into_raw());
    let mut canvas = Texture2D::transparent(4, 4);
    let blank: RgbaImage = ImageBuffer::from_fn(4, 4, |_, _| Rgba([0, 0, 0, 0]));
    assert_eq!(canvas.data(), &blank.clone().into_raw());
    let source = pattern(3, 3, 5);
    let mut target = blank;
    let other: RgbaImage = ImageBuffer::from_raw(3, 3, source.data().clone()).unwrap();
    assert_eq!(canvas.blit(&source, 2, 0), target.copy_from(&other, 2, 0).is_ok());
    assert_eq!(canvas.blit(&source, 1, 1), target.copy_from(&other, 1, 1).is_ok());
    assert_eq!(canvas.data(), &target.into_raw());
}
