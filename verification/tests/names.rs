use packer::asset::ImageTexture;
use packer::config::MultiFrameMode;
use packer::discovery::{
    choose_region, classify, expand_frames, frame_name, logical_name, resolve_nine_patch,
    sidecar_paths, tile, FileKind, Sidecar,
};
use packer::geometry::Rect;
use packer::paths::{
    extension_of, join_paths, normalize_separators, parent_of, replace_extension, strip_extension,
};
use packer::texture::Texture2D;

fn frame(width: u32, height: u32, seed: u8) -> Texture2D {
    let mut data = Vec::new();
    for y in 0..height {
        for x in 0..width {
            data.extend_from_slice(&[seed, x as u8, y as u8, 255]);
        }
    }
    Texture2D::from_raw(width, height, data).unwrap()
}

#[test]
fn separators_become_forward_slashes() {
    assert_eq!(normalize_separators("a\\b\\c.png"), "a/b/c.png");
    assert_eq!(normalize_separators("a/b"), "a/b");
    assert_eq!(normalize_separators(""), "");
    assert_eq!(normalize_separators("\\\\"), "//");
    assert_eq!(normalize_separators("ü\\é"), "ü/é");
}

#[test]
fn the_extension_follows_the_last_dot_of_the_file_name() {
    assert_eq!(extension_of("a/b/c.png"), Some("png".to_string()));
    assert_eq!(extension_of("archive.tar.gz"), Some("gz".to_string()));
    assert_eq!(extension_of("a.b/c"), None);
    assert_eq!(extension_of(".hidden"), None);
    assert_eq!(extension_of("dir/.hidden.txt"), Some("txt".to_string()));
    assert_eq!(extension_of("name."), Some("".to_string()));
    assert_eq!(extension_of(""), None);
    assert_eq!(extension_of(".."), None);
    assert_eq!(extension_of("a/.."), None);
    assert_eq!(extension_of("a/"), None);
}

#[test]
fn an_extension_is_replaced_added_or_taken_away() {
    assert_eq!(replace_extension("out/atlas", "json"), "out/atlas.json");
    assert_eq!(replace_extension("out/atlas.png", "json"), "out/atlas.json");
    assert_eq!(replace_extension("out/atlas.v2", "png"), "out/atlas.png");
    assert_eq!(replace_extension("out.d/atlas", "bin"), "out.d/atlas.bin");
    assert_eq!(replace_extension("out/atlas.png", ""), "out/atlas");
    assert_eq!(replace_extension("out/", "png"), "out/");
    assert_eq!(replace_extension("..", "png"), "..");
    assert_eq!(replace_extension("", "png"), "");
    assert_eq!(strip_extension("a/b.c.d"), "a/b.c");
    assert_eq!(strip_extension("a/b"), "a/b");
}

#[test]
fn paths_are_joined_with_one_slash() {
    assert_eq!(join_paths("out", "atlas"), "out/atlas");
    assert_eq!(join_paths("out/", "atlas"), "out/atlas");
    assert_eq!(join_paths("", "atlas"), "atlas");
    assert_eq!(join_paths("out", "/abs/atlas"), "/abs/atlas");
    assert_eq!(join_paths("out", ""), "out/");
}

#[test]
fn the_parent_is_what_stands_before_the_last_slash() {
    assert_eq!(parent_of("a/b/c.json"), Some("a/b".to_string()));
    assert_eq!(parent_of("c.json"), Some("".to_string()));
    assert_eq!(parent_of("/c.json"), Some("/".to_string()));
    assert_eq!(parent_of("/"), None);
    assert_eq!(parent_of(""), None);
    assert_eq!(parent_of("a/b/"), Some("a/b".to_string()));
    assert_eq!(parent_of("a//b"), Some("a/".to_string()));
}

#[test]
fn a_path_that_ends_in_a_slash_names_no_file() {
    assert_eq!(extension_of("a/b.png/"), None);
    assert_eq!(replace_extension("a/b.png/", "json"), "a/b.png/");
    assert_eq!(strip_extension("a/b.png/"), "a/b.png/");
}

#[test]
fn only_recognized_files_are_looked_at() {
    let none: Vec<String> = Vec::new();
    assert_eq!(classify("assets/a.png", &none), FileKind::Image);
    assert_eq!(classify("assets/a.PNG", &none), FileKind::Ignored);
    assert_eq!(classify("assets/a.json", &none), FileKind::Ignored);
    assert_eq!(classify("assets/png", &none), FileKind::Ignored);
    assert_eq!(classify("assets/a.aseprite", &none), FileKind::Ignored);
    let containers = vec!["aseprite".to_string(), "ase".to_string()];
    assert_eq!(classify("assets/a.aseprite", &containers), FileKind::Container);
    assert_eq!(classify("assets/a.ase", &containers), FileKind::Container);
    assert_eq!(classify("assets/a.png", &containers), FileKind::Image);
    assert_eq!(classify("assets/a.gif", &containers), FileKind::Ignored);
}

#[test]
fn a_logical_name_is_relative_and_normalized() {
    assert_eq!(logical_name("assets", "assets/ui/button.png", true), "ui/button.png");
    assert_eq!(logical_name("assets", "assets/ui/button.png", false), "ui/button");
    assert_eq!(logical_name("assets", "assets\\ui\\button.png", false), "ui/button");
    assert_eq!(logical_name("assets/", "assets/a.png", false), "a");
    assert_eq!(logical_name(".", "./a/b.png", false), "a/b");
    assert_eq!(logical_name("", "./a/b.png", true), "a/b.png");
    assert_eq!(logical_name("other", "assets/a.png", false), "assets/a");
    assert_eq!(logical_name("ass", "assets/a.png", false), "assets/a");
    assert_eq!(logical_name("assets", "assets/a.b/c", false), "a.b/c");
}

#[test]
fn two_files_can_share_a_logical_name() {
    let first = logical_name("one", "one/icon.png", false);
    let second = logical_name("two", "two\\icon.png", false);
    assert_eq!(first, "icon");
    assert_eq!(first, second);
}

#[test]
fn the_region_is_looked_for_beside_the_image() {
    let (json, ron) = sidecar_paths("assets/ui/button.png");
    assert_eq!(json, "assets/ui/button.json");
    assert_eq!(ron, "assets/ui/button.ron");
}

#[test]
fn the_second_place_counts_only_when_the_first_is_missing() {
    let a = Rect { x: 1, y: 2, w: 3, h: 4 };
    let b = Rect { x: 5, y: 6, w: 7, h: 8 };
    assert_eq!(choose_region(Sidecar::Region(a), Sidecar::Region(b)), Some(a));
    assert_eq!(choose_region(Sidecar::Region(a), Sidecar::Missing), Some(a));
    assert_eq!(choose_region(Sidecar::Missing, Sidecar::Region(b)), Some(b));
    assert_eq!(choose_region(Sidecar::Malformed, Sidecar::Region(b)), None);
    assert_eq!(choose_region(Sidecar::Missing, Sidecar::Malformed), None);
    assert_eq!(choose_region(Sidecar::Missing, Sidecar::Missing), None);
}

#[test]
fn a_region_counts_only_within_its_image() {
    let region = Rect { x: 4, y: 4, w: 8, h: 8 };
    assert_eq!(resolve_nine_patch(true, Some(region), 16, 16), Some(region));
    assert_eq!(resolve_nine_patch(true, Some(region), 12, 12), Some(region));
    assert_eq!(resolve_nine_patch(true, Some(region), 11, 16), None);
    assert_eq!(resolve_nine_patch(true, Some(region), 16, 11), None);
    assert_eq!(resolve_nine_patch(false, Some(region), 16, 16), None);
    assert_eq!(resolve_nine_patch(true, None, 16, 16), None);
    let far = Rect { x: u32::MAX, y: 0, w: 2, h: 1 };
    assert_eq!(resolve_nine_patch(true, Some(far), 16, 16), None);
    assert!(region.fits_within(12, 12));
    assert!(!region.fits_within(12, 11));
}

#[test]
fn frames_are_named_by_their_index() {
    assert_eq!(frame_name("hero", 0), "hero/0");
    assert_eq!(frame_name("hero", 7), "hero/7");
    assert_eq!(frame_name("hero", 10), "hero/10");
    assert_eq!(frame_name("a/b", 1234567890), "a/b/1234567890");
    assert_eq!(frame_name("", 305), "/305");
}

#[test]
fn separate_frames_keep_their_pixels_and_the_region() {
    let region = Rect { x: 1, y: 1, w: 2, h: 2 };
    let frames = vec![frame(4, 4, 1), frame(4, 4, 2), frame(4, 4, 3)];
    let images = expand_frames("hero", frames, MultiFrameMode::SeparateFrames, Some(region));
    assert_eq!(images.len(), 3);
    for (i, image) in images.iter().enumerate() {
        assert_eq!(image.name(), &format!("hero/{}", i));
        assert_eq!(image.nine_patch(), Some(region));
        assert_eq!(image.img().get_pixel(3, 2), Some((i as u8 + 1, 3, 2, 255)));
    }
}

#[test]
fn a_source_of_one_frame_keeps_its_name() {
    for mode in [MultiFrameMode::SeparateFrames, MultiFrameMode::SingleSheet] {
        let images = expand_frames("hero", vec![frame(4, 4, 1)], mode, None);
        assert_eq!(images.len(), 1);
        assert_eq!(images[0].name(), "hero");
        assert_eq!((images[0].img().width(), images[0].img().height()), (4, 4));
    }
    let none = expand_frames("hero", Vec::new(), MultiFrameMode::SingleSheet, None);
    assert!(none.is_empty());
}

#[test]
fn a_region_outside_a_frame_is_dropped() {
    let region = Rect { x: 3, y: 3, w: 2, h: 2 };
    let images = expand_frames("hero", vec![frame(4, 4, 1)], MultiFrameMode::SeparateFrames, Some(region));
    assert_eq!(images[0].nine_patch(), None);
}

#[test]
fn five_frames_make_one_tall_sheet() {
    let frames: Vec<Texture2D> = (0..5).map(|i| frame(3, 2, 10 + i)).collect();
    let images = expand_frames("hero", frames, MultiFrameMode::SingleSheet, None);
    assert_eq!(images.len(), 1);
    assert_eq!(images[0].name(), "hero");
    let sheet = images[0].img();
    assert_eq!((sheet.width(), sheet.height()), (3, 10));
    for i in 0..5u32 {
        for y in 0..2u32 {
            for x in 0..3u32 {
                assert_eq!(sheet.get_pixel(x, i * 2 + y), Some((10 + i as u8, x as u8, y as u8, 255)));
            }
        }
    }
}

#[test]
fn nine_frames_fill_rows_of_two() {
    let mut images = Vec::new();
    for i in 0..9u8 {
        images.push(ImageTexture::new(format!("f{}", i), frame(2, 3, i), None));
    }
    let sheet = tile(&images).unwrap();
    assert_eq!((sheet.width(), sheet.height()), (4, 15));
    for i in 0..9u32 {
        let (left, top) = ((i % 2) * 2, (i / 2) * 3);
        for y in 0..3u32 {
            for x in 0..2u32 {
                assert_eq!(sheet.get_pixel(left + x, top + y), Some((i as u8, x as u8, y as u8, 255)));
            }
        }
    }
    for y in 12..15 {
        for x in 2..4 {
            assert_eq!(sheet.get_pixel(x, y), Some((0, 0, 0, 0)));
        }
    }
}

#[test]
fn tiling_follows_the_column_rule() {
    for (n, columns, rows) in [(2u32, 1u32, 2u32), (3, 1, 3), (4, 1, 4), (7, 1, 7), (8, 2, 4), (13, 3, 5), (16, 4, 4)] {
        let mut images = Vec::new();
        for i in 0..n {
            images.push(ImageTexture::new(format!("f{}", i), frame(2, 2, i as u8), None));
        }
        let sheet = tile(&images).unwrap();
        assert_eq!((sheet.width(), sheet.height()), (columns * 2, rows * 2), "{} frames", n);
    }
}

#[test]
fn frames_of_different_sizes_are_not_tiled() {
    let images = vec![
        ImageTexture::new("a".to_string(), frame(2, 2, 1), None),
        ImageTexture::new("b".to_string(), frame(2, 3, 2), None),
    ];
    assert!(tile(&images).is_none());
    let one = vec![ImageTexture::new("a".to_string(), frame(2, 2, 1), None)];
    assert!(tile(&one).is_none());
    let frames = vec![frame(2, 2, 1), frame(3, 2, 2)];
    assert!(expand_frames("hero", frames, MultiFrameMode::SingleSheet, None).is_empty());
}
