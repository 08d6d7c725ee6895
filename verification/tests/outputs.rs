use packer::atlas::PackerAtlas;
use packer::binary::encode_binary;
use packer::config::{
    default_allow_normal_output, Config, Features, ImageOptions, MultiFrameMode,
    OutputExtensionType, OutputType, TemplatePath,
};
use packer::error::PackerError;
use packer::output::{
    plan_outputs, requested_kinds, resolve_template, save_output, save_output_from, Artifact,
    BinaryOutput, JsonOutput, Output, RonOutput, TemplateOutput, TomlOutput, Work,
};
use packer::sheet::{base_path, encode_qoi, sheet_extension, sheet_path};
use packer::text::{collapse_escaped, finish_text, replace_backslashes, TextKind};
use packer::texture::Texture2D;

fn request() -> Config {
    Config::new("atlas".to_string(), "out".to_string(), vec!["assets".to_string()])
}

fn sample() -> PackerAtlas {
    let mut atlas = PackerAtlas::default();
    atlas.add_sheet_path("out/atlas.png");
    atlas.add("a", 0, 0, 32, 32, None);
    atlas
}

fn serialized(artifact: &Artifact) -> Option<TextKind> {
    match &artifact.work {
        Work::Serialize(kind) => Some(*kind),
        _ => None,
    }
}

fn rendered(artifact: &Artifact) -> Option<&str> {
    match &artifact.work {
        Work::Render(template) => Some(template.as_str()),
        _ => None,
    }
}

#[test]
fn a_new_request_has_the_defaults() {
    let config = request();
    assert_eq!(config.name, "atlas");
    assert_eq!(config.output_path, "out");
    assert_eq!(config.folders, vec!["assets".to_string()]);
    assert!(config.allow_normal_output);
    assert!(config.template_path.is_none());
    assert_eq!(config.output_types, vec![OutputType::Json]);
    assert_eq!(config.image_options, ImageOptions::default());
    assert_eq!(config.image_options.max_size, 1024);
    assert!(config.image_options.show_extension);
    assert_eq!(config.image_options.output_extension, OutputExtensionType::Png);
    assert_eq!(config.image_options.multi_frame_mode, MultiFrameMode::SeparateFrames);
    assert_eq!(config.features, Features::default());
    assert!(!config.features.nine_patch);
    assert!(default_allow_normal_output());
    assert_eq!(OutputType::default(), OutputType::Json);
    assert_eq!(OutputExtensionType::default(), OutputExtensionType::Png);
    assert_eq!(MultiFrameMode::default(), MultiFrameMode::SeparateFrames);
}

#[test]
fn failures_have_their_messages() {
    assert_eq!(PackerError::FailedToPacked.message(), "Failed to packed an image.");
    assert_eq!(PackerError::NoTemplateFile.message(), "No template file has been configured.");
    assert_eq!(PackerError::Persistence.message(), "Failed to encode the sheet image.");
    assert_eq!(PackerError::Serialization.message(), "The atlas does not fit the binary format.");
}

#[test]
fn every_backslash_of_a_template_becomes_a_slash() {
    assert_eq!(replace_backslashes(b"a\\b\\\\c"), b"a/b//c".to_vec());
    assert_eq!(finish_text(TextKind::Template, b"out\\atlas \\n"), b"out/atlas /n".to_vec());
    assert_eq!(finish_text(TextKind::Template, b""), Vec::<u8>::new());
}

#[test]
fn escaped_backslashes_of_json_become_slashes() {
    assert_eq!(collapse_escaped(b"\\\\"), b"/".to_vec());
    assert_eq!(collapse_escaped(b"\\"), b"\\".to_vec());
    assert_eq!(collapse_escaped(b"\\\\\\"), b"/\\".to_vec());
    assert_eq!(collapse_escaped(b"\\\\\\\\"), b"//".to_vec());
    assert_eq!(collapse_escaped(b"a\\nb"), b"a\\nb".to_vec());
    let json = b"{\"sheet_path\": \"out\\\\atlas.png\", \"q\": \"say \\\"hi\\\"\"}";
    let expected = b"{\"sheet_path\": \"out/atlas.png\", \"q\": \"say \\\"hi\\\"\"}";
    assert_eq!(finish_text(TextKind::Json, json), expected.to_vec());
    assert_eq!(finish_text(TextKind::Ron, json), expected.to_vec());
}

#[test]
fn toml_keeps_no_backslash() {
    let toml = b"sheet_path = \"out\\\\atlas.png\"\nq = \"a\\tb\"";
    let expected = b"sheet_path = \"out/atlas.png\"\nq = \"a/tb\"";
    assert_eq!(finish_text(TextKind::Toml, toml), expected.to_vec());
}

#[test]
fn text_without_backslashes_is_left_alone() {
    let text = "{ \"name\": \"grüße/a\" }".as_bytes();
    for kind in [TextKind::Json, TextKind::Ron, TextKind::Toml, TextKind::Template] {
        assert_eq!(finish_text(kind, text), text.to_vec());
    }
}

#[test]
fn the_sheet_is_named_after_the_request() {
    let mut config = request();
    assert_eq!(base_path(&config), "out/atlas");
    assert_eq!(sheet_path(&config), "out/atlas.png");
    config.image_options.output_extension = OutputExtensionType::Qoi;
    assert_eq!(sheet_path(&config), "out/atlas.qoi");
    config.image_options.output_extension = OutputExtensionType::Jpg;
    config.output_path = "build\\out/".to_string();
    assert_eq!(sheet_path(&config), "build\\out/atlas.jpg");
    assert_eq!(sheet_extension(OutputExtensionType::Png), "png");
    assert_eq!(sheet_extension(OutputExtensionType::Qoi), "qoi");
    assert_eq!(sheet_extension(OutputExtensionType::Jpg), "jpg");
}

#[test]
fn the_default_request_writes_one_json_file() {
    let artifacts = plan_outputs(&request(), &None, &sample()).unwrap();
    assert_eq!(artifacts.len(), 1);
    assert_eq!(artifacts[0].path, "out/atlas.json");
    assert_eq!(serialized(&artifacts[0]), Some(TextKind::Json));
}

#[test]
fn every_encoding_is_written_once() {
    let mut config = request();
    config.output_types = vec![
        OutputType::Toml,
        OutputType::Binary,
        OutputType::Toml,
        OutputType::Json,
        OutputType::Ron,
        OutputType::Binary,
    ];
    assert_eq!(
        requested_kinds(&config),
        vec![OutputType::Toml, OutputType::Binary, OutputType::Json, OutputType::Ron]
    );
    let atlas = sample();
    let artifacts = plan_outputs(&config, &None, &atlas).unwrap();
    assert_eq!(artifacts.len(), 4);
    assert_eq!(artifacts[0].path, "out/atlas.toml");
    assert_eq!(serialized(&artifacts[0]), Some(TextKind::Toml));
    assert_eq!(artifacts[1].path, "out/atlas.bin");
    match &artifacts[1].work {
        Work::Write(bytes) => assert_eq!(bytes, &encode_binary(&atlas, false).unwrap()),
        _ => panic!("the binary form is made at once"),
    }
    assert_eq!(artifacts[2].path, "out/atlas.json");
    assert_eq!(serialized(&artifacts[2]), Some(TextKind::Json));
    assert_eq!(artifacts[3].path, "out/atlas.ron");
    assert_eq!(serialized(&artifacts[3]), Some(TextKind::Ron));
}

#[test]
fn no_encoding_is_written_when_none_is_allowed() {
    let mut config = request();
    config.allow_normal_output = false;
    assert!(requested_kinds(&config).is_empty());
    assert!(plan_outputs(&config, &None, &sample()).unwrap().is_empty());
    config.allow_normal_output = true;
    config.output_types = Vec::new();
    assert!(plan_outputs(&config, &None, &sample()).unwrap().is_empty());
}

#[test]
fn the_binary_encoder_follows_the_nine_patch_feature() {
    let mut atlas = PackerAtlas::default();
    atlas.add("a", 0, 0, 8, 8, None);
    let mut config = request();
    let off = save_output_from(BinaryOutput(&config), "out/atlas", &atlas).unwrap();
    config.features.nine_patch = true;
    let on = save_output_from(BinaryOutput(&config), "out/atlas", &atlas).unwrap();
    assert_eq!(off[0].path, "out/atlas.bin");
    match (&off[0].work, &on[0].work) {
        (Work::Write(off), Work::Write(on)) => {
            assert_eq!(off, &encode_binary(&atlas, false).unwrap());
            assert_eq!(on, &encode_binary(&atlas, true).unwrap());
            assert_eq!(on.len(), off.len() + 1);
        }
        _ => panic!("the binary form is made at once"),
    }
}

#[test]
fn a_name_that_does_not_fit_fails_the_binary_encoder_only() {
    let mut atlas = sample();
    atlas.add(&"n".repeat(256), 0, 0, 8, 8, None);
    let mut config = request();
    let direct = save_output_from(BinaryOutput(&config), "out/atlas", &atlas);
    assert!(matches!(direct, Err(PackerError::Serialization)));
    assert!(matches!(BinaryOutput(&config).out("out/atlas", &atlas), Err(PackerError::Serialization)));
    assert_eq!(plan_outputs(&config, &None, &atlas).unwrap().len(), 1);
    config.output_types = vec![OutputType::Json, OutputType::Binary, OutputType::Ron];
    assert!(matches!(plan_outputs(&config, &None, &atlas), Err(PackerError::Serialization)));
    config.allow_normal_output = false;
    assert!(plan_outputs(&config, &None, &atlas).unwrap().is_empty());
    config.allow_normal_output = true;
    config.template_path = Some(TemplatePath::Multiple(Vec::new()));
    assert!(matches!(plan_outputs(&config, &None, &atlas), Err(PackerError::NoTemplateFile)));
}

#[test]
fn encoders_name_their_files() {
    let atlas = sample();
    let json = save_output::<JsonOutput>("out/atlas", &atlas).unwrap();
    let ron = save_output::<RonOutput>("out/atlas.old", &atlas).unwrap();
    let toml = save_output::<TomlOutput>("atlas", &atlas).unwrap();
    assert_eq!((json[0].path.as_str(), serialized(&json[0])), ("out/atlas.json", Some(TextKind::Json)));
    assert_eq!((ron[0].path.as_str(), serialized(&ron[0])), ("out/atlas.ron", Some(TextKind::Ron)));
    assert_eq!((toml[0].path.as_str(), serialized(&toml[0])), ("atlas.toml", Some(TextKind::Toml)));
    let direct = JsonOutput.out("x/y", &atlas).unwrap();
    assert_eq!(direct[0].path, "x/y.json");
}

#[test]
fn a_template_is_written_under_its_own_extension() {
    let mut config = request();
    config.template_path = Some(TemplatePath::Single("templates/atlas.cs".to_string()));
    config.allow_normal_output = false;
    let artifacts = plan_outputs(&config, &None, &sample()).unwrap();
    assert_eq!(artifacts.len(), 1);
    assert_eq!(artifacts[0].path, "out/atlas.cs");
    assert_eq!(rendered(&artifacts[0]), Some("templates/atlas.cs"));
}

#[test]
fn templates_are_read_beside_the_request_file() {
    let mut config = request();
    config.template_path = Some(TemplatePath::Multiple(vec![
        "a.hbs".to_string(),
        "sub/b.txt".to_string(),
        "/abs/c".to_string(),
    ]));
    let file = Some("project/pack.toml".to_string());
    let artifacts = plan_outputs(&config, &file, &sample()).unwrap();
    assert_eq!(artifacts.len(), 4);
    assert_eq!((artifacts[0].path.as_str(), rendered(&artifacts[0])), ("out/atlas.hbs", Some("project/a.hbs")));
    assert_eq!((artifacts[1].path.as_str(), rendered(&artifacts[1])), ("out/atlas.txt", Some("project/sub/b.txt")));
    assert_eq!((artifacts[2].path.as_str(), rendered(&artifacts[2])), ("out/atlas", Some("/abs/c")));
    assert_eq!(artifacts[3].path, "out/atlas.json");
    assert_eq!(resolve_template("a.hbs", &Some("pack.toml".to_string())), "a.hbs");
    assert_eq!(resolve_template("a.hbs", &Some("/pack.toml".to_string())), "/a.hbs");
    assert_eq!(resolve_template("a.hbs", &Some("".to_string())), "a.hbs");
    assert_eq!(resolve_template("a.hbs", &None), "a.hbs");
}

#[test]
fn templates_without_a_template_fail() {
    let mut config = request();
    config.template_path = Some(TemplatePath::Multiple(Vec::new()));
    let result = plan_outputs(&config, &None, &sample());
    assert!(matches!(result, Err(PackerError::NoTemplateFile)));
    let templates = TemplatePath::Multiple(Vec::new());
    let direct = save_output_from(TemplateOutput(&config, &templates, &None), "out/atlas", &sample());
    assert!(matches!(direct, Err(PackerError::NoTemplateFile)));
}

#[test]
fn a_sheet_is_encoded_as_qoi() {
    let mut data = Vec::new();
    for i in 0..(5 * 3) {
        data.extend_from_slice(&[i as u8, (i * 7) as u8, 200, if i % 2 == 0 { 255 } else { 10 }]);
    }
    let sheet = Texture2D::from_raw(5, 3, data.clone()).unwrap();
    let stream = encode_qoi(&sheet).unwrap();
    assert_eq!(&stream[0..4], b"qoif");
    assert_eq!(&stream[4..8], &5u32.to_be_bytes());
    assert_eq!(&stream[8..12], &3u32.to_be_bytes());
    assert_ne!(stream, data);
    let (header, pixels) = rapid_qoi::Qoi::decode_alloc(&stream).unwrap();
    assert_eq!((header.width, header.height), (5, 3));
    assert_eq!(pixels, data);
}

#[test]
fn an_empty_sheet_is_encoded_as_qoi() {
    let sheet = Texture2D::from_raw(0, 0, Vec::new()).unwrap();
    let stream = encode_qoi(&sheet).unwrap();
    assert_eq!(&stream[0..4], b"qoif");
    assert_eq!(stream.len(), 22);
}
