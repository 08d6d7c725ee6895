use binary_rw::{BinaryReader, BinaryWriter, Endian, MemoryStream};
use packer::atlas::{PackerAtlas, TextureData};
use packer::binary::{decode_binary, encode_binary, is_encodable, DecodeError};
use packer::error::PackerError;
use packer::geometry::Rect;
use packer::text::{finish_text, TextKind};
use serde_json::Value;

fn sample() -> PackerAtlas {
    let mut atlas = PackerAtlas::default();
    atlas.add_sheet_path("out/atlas.png");
    atlas.add("hero/idle", 0, 0, 32, 32, Some(Rect { x: 4, y: 4, w: 8, h: 8 }));
    atlas.add("tiles/grass", 32, 0, 16, 16, None);
    atlas.add("ui/ünïcode", 48, 16, 300, 70000, None);
    atlas
}

fn same(a: &PackerAtlas, b: &PackerAtlas) -> bool {
    if a.sheet_path() != b.sheet_path() || a.len() != b.len() {
        return false;
    }
    for i in 0..a.len() {
        let x = a.frame(i).unwrap();
        let y = b.frame(i).unwrap();
        if x.name != y.name || x.data != y.data {
            return false;
        }
    }
    true
}

#[test]
fn a_frame_is_written_byte_for_byte() {
    let mut atlas = PackerAtlas::default();
    atlas.add_sheet_path("a.png");
    atlas.add("x", 1, 2, 3, 0x0403_0201, None);
    let bytes = encode_binary(&atlas, false).unwrap();
    let expected: Vec<u8> = vec![
        5, b'a', b'.', b'p', b'n', b'g', // sheet path
        1, 0, 0, 0, // frame count
        1, b'x', // name
        1, 0, 0, 0, 2, 0, 0, 0, 3, 0, 0, 0, 1, 2, 3, 4,
    ];
    assert_eq!(bytes, expected);
}

#[test]
fn an_empty_atlas_is_five_bytes() {
    let atlas = PackerAtlas::default();
    assert_eq!(encode_binary(&atlas, false).unwrap(), vec![0, 0, 0, 0, 0]);
    assert_eq!(encode_binary(&atlas, true).unwrap(), vec![0, 0, 0, 0, 0]);
}

#[test]
fn stretch_regions_are_written_with_the_feature_on() {
    let mut atlas = PackerAtlas::default();
    atlas.add("p", 0, 0, 16, 16, Some(Rect { x: 4, y: 5, w: 6, h: 7 }));
    atlas.add("q", 16, 0, 8, 8, None);
    let on = encode_binary(&atlas, true).unwrap();
    let expected: Vec<u8> = vec![
        0, 2, 0, 0, 0, // no sheet path, two frames
        1, b'p', 0, 0, 0, 0, 0, 0, 0, 0, 16, 0, 0, 0, 16, 0, 0, 0, // first box
        1, 4, 0, 0, 0, 5, 0, 0, 0, 6, 0, 0, 0, 7, 0, 0, 0, // its region
        1, b'q', 16, 0, 0, 0, 0, 0, 0, 0, 8, 0, 0, 0, 8, 0, 0, 0, // second box
        0, // no region
    ];
    assert_eq!(on, expected);
    let off = encode_binary(&atlas, false).unwrap();
    assert_eq!(off.len(), expected.len() - 18);
}

#[test]
fn backslashes_are_written_as_slashes() {
    let mut atlas = PackerAtlas::default();
    atlas.add_sheet_path("out\\atlas.png");
    atlas.add("a\\b", 0, 0, 1, 1, None);
    let bytes = encode_binary(&atlas, false).unwrap();
    assert_eq!(&bytes[1..14], b"out/atlas.png");
    assert_eq!(&bytes[19..22], b"a/b");
    let back = decode_binary(&bytes, false).unwrap();
    assert_eq!(back.sheet_path(), "out/atlas.png");
    assert!(back.get("a/b").is_some());
    assert!(back.get("a\\b").is_none());
}

#[test]
fn a_name_of_255_bytes_is_the_longest_that_is_written() {
    let mut atlas = PackerAtlas::default();
    atlas.add(&"n".repeat(255), 0, 0, 1, 1, None);
    assert!(is_encodable(&atlas));
    let bytes = encode_binary(&atlas, false).unwrap();
    assert_eq!(bytes[5], 255);
    assert_eq!(bytes.len(), 1 + 4 + 1 + 255 + 16);
    assert!(same(&atlas, &decode_binary(&bytes, false).unwrap()));
    let mut atlas = PackerAtlas::default();
    atlas.add("short", 0, 0, 1, 1, None);
    atlas.add(&"n".repeat(256), 0, 0, 1, 1, None);
    assert!(!is_encodable(&atlas));
    assert!(matches!(encode_binary(&atlas, false), Err(PackerError::Serialization)));
    assert!(matches!(encode_binary(&atlas, true), Err(PackerError::Serialization)));
}

#[test]
fn a_sheet_path_of_more_than_255_bytes_is_not_written() {
    let mut atlas = PackerAtlas::default();
    atlas.add("a", 0, 0, 1, 1, None);
    atlas.add_sheet_path(&format!("{}/atlas.png", "d".repeat(246)));
    assert!(matches!(encode_binary(&atlas, false), Err(PackerError::Serialization)));
    atlas.add_sheet_path(&format!("{}/atlas.png", "d".repeat(245)));
    let bytes = encode_binary(&atlas, false).unwrap();
    assert_eq!(bytes[0], 255);
    assert!(same(&atlas, &decode_binary(&bytes, false).unwrap()));
}

#[test]
fn the_length_of_a_name_is_counted_in_bytes() {
    let mut atlas = PackerAtlas::default();
    atlas.add(&"ü".repeat(127), 0, 0, 1, 1, None);
    let bytes = encode_binary(&atlas, false).unwrap();
    assert_eq!(bytes[5], 254);
    assert!(same(&atlas, &decode_binary(&bytes, false).unwrap()));
    atlas.add(&"ü".repeat(128), 0, 0, 1, 1, None);
    assert!(matches!(encode_binary(&atlas, false), Err(PackerError::Serialization)));
}

#[test]
fn what_is_written_is_read_back() {
    let atlas = sample();
    let bytes = encode_binary(&atlas, true).unwrap();
    let back = decode_binary(&bytes, true).unwrap();
    assert!(same(&atlas, &back));
    assert_eq!(back.sheet_path(), "out/atlas.png");
    assert_eq!(
        back.get("hero/idle"),
        Some(TextureData {
            x: 0,
            y: 0,
            width: 32,
            height: 32,
            nine_patch: Some(Rect { x: 4, y: 4, w: 8, h: 8 }),
        })
    );
    assert_eq!(
        back.get("ui/ünïcode"),
        Some(TextureData { x: 48, y: 16, width: 300, height: 70000, nine_patch: None })
    );
}

#[test]
fn without_the_feature_regions_are_not_read_back() {
    let atlas = sample();
    let bytes = encode_binary(&atlas, false).unwrap();
    let back = decode_binary(&bytes, false).unwrap();
    assert_eq!(back.len(), 3);
    assert_eq!(
        back.get("hero/idle"),
        Some(TextureData { x: 0, y: 0, width: 32, height: 32, nine_patch: None })
    );
    let mut plain = PackerAtlas::default();
    plain.add_sheet_path("s");
    plain.add("a", 1, 2, 3, 4, None);
    let back = decode_binary(&encode_binary(&plain, false).unwrap(), false).unwrap();
    assert!(same(&plain, &back));
}

#[test]
fn a_stream_that_ends_early_is_refused() {
    let bytes = encode_binary(&sample(), true).unwrap();
    for cut in 0..bytes.len() {
        assert!(
            matches!(decode_binary(&bytes[..cut], true), Err(DecodeError::UnexpectedEnd)),
            "cut at {}",
            cut
        );
    }
    assert!(decode_binary(&bytes, true).is_ok());
}

#[test]
fn bytes_after_the_last_frame_are_refused() {
    let mut bytes = encode_binary(&sample(), true).unwrap();
    bytes.push(0);
    assert!(matches!(decode_binary(&bytes, true), Err(DecodeError::TrailingBytes)));
    assert!(matches!(decode_binary(&[0, 0, 0, 0, 0, 9], false), Err(DecodeError::TrailingBytes)));
}

#[test]
fn a_name_that_is_not_utf8_is_refused() {
    let bytes = vec![1, 0xff, 0, 0, 0, 0];
    assert!(matches!(decode_binary(&bytes, false), Err(DecodeError::InvalidUtf8)));
    let bytes = vec![0, 1, 0, 0, 0, 2, 0xc3, 0x28, 0, 0, 0, 0, 0, 0, 0, 0, 0, 0, 0, 0, 0, 0, 0, 0];
    assert!(matches!(decode_binary(&bytes, false), Err(DecodeError::InvalidUtf8)));
}

#[test]
fn any_byte_but_zero_announces_a_region() {
    let mut bytes: Vec<u8> = vec![0, 1, 0, 0, 0, 1, b'p'];
    bytes.extend_from_slice(&[0; 16]);
    bytes.push(7);
    bytes.extend_from_slice(&[1, 0, 0, 0, 2, 0, 0, 0, 3, 0, 0, 0, 4, 0, 0, 0]);
    let atlas = decode_binary(&bytes, true).unwrap();
    assert_eq!(atlas.get("p").unwrap().nine_patch, Some(Rect { x: 1, y: 2, w: 3, h: 4 }));
}

#[test]
fn of_two_frames_with_one_name_the_later_is_read() {
    let mut bytes: Vec<u8> = vec![0, 2, 0, 0, 0];
    bytes.extend_from_slice(&[1, b'a', 1, 0, 0, 0, 1, 0, 0, 0, 1, 0, 0, 0, 1, 0, 0, 0]);
    bytes.extend_from_slice(&[1, b'a', 2, 0, 0, 0, 2, 0, 0, 0, 2, 0, 0, 0, 2, 0, 0, 0]);
    let atlas = decode_binary(&bytes, false).unwrap();
    assert_eq!(atlas.len(), 1);
    assert_eq!(atlas.get("a").unwrap().x, 2);
}

#[test]
fn a_little_endian_reader_reads_the_stream() {
    let atlas = sample();
    let bytes = encode_binary(&atlas, true).unwrap();
    let mut stream = MemoryStream::from(bytes);
    let mut reader = BinaryReader::new(&mut stream, Endian::Little);
    let n = reader.read_u8().unwrap() as usize;
    let path = String::from_utf8(reader.read_bytes(n).unwrap()).unwrap();
    assert_eq!(path, "out/atlas.png");
    let count = reader.read_u32().unwrap();
    assert_eq!(count, 3);
    for i in 0..3 {
        let n = reader.read_u8().unwrap() as usize;
        let name = String::from_utf8(reader.read_bytes(n).unwrap()).unwrap();
        let entry = atlas.frame(i).unwrap();
        assert_eq!(name, entry.name);
        assert_eq!(reader.read_u32().unwrap(), entry.data.x);
        assert_eq!(reader.read_u32().unwrap(), entry.data.y);
        assert_eq!(reader.read_u32().unwrap(), entry.data.width);
        assert_eq!(reader.read_u32().unwrap(), entry.data.height);
        let has = reader.read_bool().unwrap();
        assert_eq!(has, entry.data.nine_patch.is_some());
        if let Some(region) = entry.data.nine_patch {
            assert_eq!(reader.read_u32().unwrap(), region.x);
            assert_eq!(reader.read_u32().unwrap(), region.y);
            assert_eq!(reader.read_u32().unwrap(), region.w);
            assert_eq!(reader.read_u32().unwrap(), region.h);
        }
    }
    assert!(reader.read_u8().is_err());
}

fn written_by_stream(atlas: &PackerAtlas, nine_patch: bool) -> Vec<u8> {
    let mut stream = MemoryStream::new();
    let mut writer = BinaryWriter::new(&mut stream, Endian::Little);
    let sheet_path = atlas.sheet_path().replace('\\', "/");
    writer.write_u8(sheet_path.len() as u8).unwrap();
    writer.write_bytes(sheet_path.as_bytes()).unwrap();
    writer.write_u32(atlas.len() as u32).unwrap();
    for i in 0..atlas.len() {
        let entry = atlas.frame(i).unwrap();
        let name = entry.name.replace('\\', "/");
        writer.write_u8(name.len() as u8).unwrap();
        writer.write_bytes(name.as_bytes()).unwrap();
        writer.write_u32(entry.data.x).unwrap();
        writer.write_u32(entry.data.y).unwrap();
        writer.write_u32(entry.data.width).unwrap();
        writer.write_u32(entry.data.height).unwrap();
        if !nine_patch {
            continue;
        }
        writer.write_bool(entry.data.nine_patch.is_some()).unwrap();
        if let Some(region) = entry.data.nine_patch {
            writer.write_u32(region.x).unwrap();
            writer.write_u32(region.y).unwrap();
            writer.write_u32(region.w).unwrap();
            writer.write_u32(region.h).unwrap();
        }
    }
    stream.into()
}

#[test]
fn a_little_endian_writer_writes_the_same_stream() {
    let mut odd = PackerAtlas::default();
    odd.add_sheet_path("C:\\out\\atlas.qoi");
    odd.add(&"long/".repeat(51), 1, 2, 3, 4, Some(Rect { x: 0, y: 0, w: 1, h: 1 }));
    odd.add("back\\slash", u32::MAX, 0, 0x0102_0304, 7, None);
    odd.add("", 0, 0, 0, 0, None);
    for atlas in [sample(), odd, PackerAtlas::default()] {
        for nine_patch in [false, true] {
            assert_eq!(encode_binary(&atlas, nine_patch).unwrap(), written_by_stream(&atlas, nine_patch));
        }
    }
}

fn as_json(atlas: &PackerAtlas) -> Vec<u8> {
    let mut frames = serde_json::Map::new();
    for i in 0..atlas.len() {
        let entry = atlas.frame(i).unwrap();
        let mut frame = serde_json::Map::new();
        frame.insert("x".to_string(), Value::from(entry.data.x));
        frame.insert("y".to_string(), Value::from(entry.data.y));
        frame.insert("width".to_string(), Value::from(entry.data.width));
        frame.insert("height".to_string(), Value::from(entry.data.height));
        if let Some(region) = entry.data.nine_patch {
            let mut patch = serde_json::Map::new();
            patch.insert("x".to_string(), Value::from(region.x));
            patch.insert("y".to_string(), Value::from(region.y));
            patch.insert("w".to_string(), Value::from(region.w));
            patch.insert("h".to_string(), Value::from(region.h));
            frame.insert("nine_patch".to_string(), Value::Object(patch));
        }
        frames.insert(entry.name.clone(), Value::Object(frame));
    }
    let mut root = serde_json::Map::new();
    root.insert("sheet_path".to_string(), Value::from(atlas.sheet_path().as_str()));
    root.insert("frames".to_string(), Value::Object(frames));
    let text = serde_json::to_string_pretty(&Value::Object(root)).unwrap();
    finish_text(TextKind::Json, text.as_bytes())
}

#[test]
fn json_and_binary_hold_the_same_frames() {
    let atlas = sample();
    let json: Value = serde_json::from_slice(&as_json(&atlas)).unwrap();
    let binary = decode_binary(&encode_binary(&atlas, true).unwrap(), true).unwrap();
    assert_eq!(json["sheet_path"].as_str().unwrap(), binary.sheet_path().as_str());
    let frames = json["frames"].as_object().unwrap();
    assert_eq!(frames.len(), binary.len());
    for (name, frame) in frames {
        let entry = binary.get(name).unwrap();
        assert_eq!(frame["x"].as_u64().unwrap(), entry.x as u64);
        assert_eq!(frame["y"].as_u64().unwrap(), entry.y as u64);
        assert_eq!(frame["width"].as_u64().unwrap(), entry.width as u64);
        assert_eq!(frame["height"].as_u64().unwrap(), entry.height as u64);
        match entry.nine_patch {
            Some(region) => {
                assert_eq!(frame["nine_patch"]["x"].as_u64().unwrap(), region.x as u64);
                assert_eq!(frame["nine_patch"]["y"].as_u64().unwrap(), region.y as u64);
                assert_eq!(frame["nine_patch"]["w"].as_u64().unwrap(), region.w as u64);
                assert_eq!(frame["nine_patch"]["h"].as_u64().unwrap(), region.h as u64);
            }
            None => assert!(frame.get("nine_patch").is_none()),
        }
    }
}
