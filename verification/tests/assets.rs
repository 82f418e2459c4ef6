use factorio_export::bundle::module_file_path;
use factorio_export::bundle::module_name_of_path;
use factorio_export::bundle::Mods;
use factorio_export::normalize::is_power_of_two;
use factorio_export::normalize::next_power_of_two;
use factorio_export::normalize::normalization_plan;
use factorio_export::normalize::normalize_image;
use factorio_export::normalize::scratch_path;
use factorio_export::normalize::NormOutcome;
use factorio_export::serve::crop_rect;
use factorio_export::serve::strip_namespace_markers;
use factorio_export::serve::GraphicsPathParams;
use factorio_export::serve::GraphicsQueryParams;
use factorio_export::serve::ProxyQueryParams;

#[test]
fn power_of_two_test_is_integer_exact() {
    assert!(is_power_of_two(1));
    assert!(is_power_of_two(2));
    assert!(is_power_of_two(256));
    assert!(is_power_of_two(0x8000_0000));
    assert!(!is_power_of_two(0));
    assert!(!is_power_of_two(3));
    assert!(!is_power_of_two(130));
    assert!(!is_power_of_two(0x8000_0001));
    assert!(!is_power_of_two(u32::MAX));
}

#[test]
fn next_power_of_two_rounds_up() {
    assert_eq!(next_power_of_two(1), 1);
    assert_eq!(next_power_of_two(2), 2);
    assert_eq!(next_power_of_two(3), 4);
    assert_eq!(next_power_of_two(130), 256);
    assert_eq!(next_power_of_two(256), 256);
    assert_eq!(next_power_of_two(0x8000_0000), 0x8000_0000);
}

#[test]
fn compliant_dimensions_need_no_canvas() {
    assert!(normalization_plan(256, 128).is_none());
    assert!(normalization_plan(1, 1).is_none());
}

#[test]
fn non_compliant_dimensions_get_the_smallest_canvas() {
    let plan = normalization_plan(130, 64).unwrap();
    assert_eq!(plan.width, 256);
    assert_eq!(plan.height, 64);
    let plan = normalization_plan(64, 130).unwrap();
    assert_eq!(plan.width, 64);
    assert_eq!(plan.height, 256);
}

#[test]
fn normalize_is_identity_for_compliant_images() {
    let data = b"not even an image".to_vec();
    match normalize_image(&data, 256, 128) {
        NormOutcome::Unchanged => {},
        _ => panic!("compliant dimensions must not be touched"),
    }
}

#[test]
fn normalize_pads_a_130_by_64_image_onto_256_by_64() {
    let img = image::RgbaImage::from_pixel(130, 64, image::Rgba([255, 0, 0, 255]));
    let mut cursor = std::io::Cursor::new(Vec::new());
    image::DynamicImage::ImageRgba8(img)
        .write_to(&mut cursor, image::ImageFormat::Png)
        .unwrap();
    let data = cursor.into_inner();
    match normalize_image(&data, 130, 64) {
        NormOutcome::Padded { bytes, width, height } => {
            assert_eq!(width, 256);
            assert_eq!(height, 64);
            let padded = image::load_from_memory(&bytes).unwrap().to_rgba8();
            assert_eq!(padded.width(), 256);
            assert_eq!(padded.height(), 64);
            // the source is composited at the origin
            assert_eq!(padded.get_pixel(0, 0).0, [255, 0, 0, 255]);
            assert_eq!(padded.get_pixel(129, 63).0, [255, 0, 0, 255]);
            // the padding is transparent
            assert_eq!(padded.get_pixel(200, 10).0[3], 0);
        },
        _ => panic!("non-compliant dimensions must be padded"),
    }
}

#[test]
fn normalize_fails_on_undecodable_data() {
    let data = b"not an image".to_vec();
    match normalize_image(&data, 130, 64) {
        NormOutcome::Failed => {},
        _ => panic!("undecodable data must fail"),
    }
}

#[test]
fn normalize_fails_when_the_canvas_cannot_fit_in_memory() {
    // both canvas dimensions round up to the largest power of two, whose
    // four-byte-per-pixel buffer length exceeds the machine word
    let data = b"x".to_vec();
    match normalize_image(&data, 0x6000_0000, 0x6000_0000) {
        NormOutcome::Failed => {},
        _ => panic!("an impossible canvas must fail the item"),
    }
}

#[test]
fn scratch_paths_mirror_the_input_path() {
    assert_eq!(
        scratch_path(b"/tmp/scratch", b"data/core/icons/a.png"),
        b"/tmp/scratch/data/core/icons/a.png".to_vec()
    );
}

#[test]
fn mods_add_groups_by_component() {
    let mut mods = Mods::new("data".to_string());
    mods.add("lualib", "serpent", "serpent source".to_string());
    mods.add("lualib", "defines", "defines table".to_string());
    mods.add("core", "data", "core data".to_string());
    assert_eq!(mods.content_of("lualib", "serpent").unwrap(), "serpent source");
    assert_eq!(mods.content_of("lualib", "defines").unwrap(), "defines table");
    assert_eq!(mods.content_of("core", "data").unwrap(), "core data");
    assert!(mods.content_of("core", "serpent").is_none());
    assert!(mods.content_of("base", "data").is_none());
}

#[test]
fn mods_add_overrides_same_module_name() {
    let mut mods = Mods::new("data".to_string());
    mods.add("lualib", "util", "first".to_string());
    mods.add("lualib", "util", "second".to_string());
    assert_eq!(mods.content_of("lualib", "util").unwrap(), "second");
}

#[test]
fn module_paths_round_trip_dots_and_separators() {
    assert_eq!(
        module_file_path(b"data", b"base", b"data-updates"),
        b"data/base/data-updates.lua".to_vec()
    );
    assert_eq!(module_file_path(b"data", b"core", b"a.b"), b"data/core/a/b.lua".to_vec());
    assert_eq!(module_name_of_path(b"core/lualib/util.lua"), b"core.lualib.util".to_vec());
    assert_eq!(module_name_of_path(b"dataloader.lua"), b"dataloader".to_vec());
}

#[test]
fn crop_rect_defaults_to_the_whole_image() {
    let q = GraphicsQueryParams { x: 0, y: 0, w: None, h: None };
    assert_eq!(crop_rect(&q, 100, 50), (0, 0, 100, 50));
}

#[test]
fn crop_rect_clamps_to_the_image() {
    let q = GraphicsQueryParams { x: 10, y: 5, w: Some(1000), h: Some(2) };
    assert_eq!(crop_rect(&q, 100, 50), (10, 5, 90, 2));
    let q = GraphicsQueryParams { x: 500, y: 0, w: Some(10), h: None };
    assert_eq!(crop_rect(&q, 100, 50), (100, 0, 0, 50));
}

#[test]
fn namespace_markers_are_stripped_twice() {
    assert_eq!(
        strip_namespace_markers(b"__base__/graphics/icon.png"),
        b"base/graphics/icon.png".to_vec()
    );
    assert_eq!(strip_namespace_markers(b"__a__/__b__"), b"a/__b__".to_vec());
    assert_eq!(strip_namespace_markers(b"plain/path.png"), b"plain/path.png".to_vec());
}

#[test]
fn query_parameter_holders_carry_their_fields() {
    let p = ProxyQueryParams { url: "https://example.net/x".to_string() };
    assert_eq!(p.url, "https://example.net/x");
    let g = GraphicsPathParams { src: "__base__/icon.png".to_string() };
    assert_eq!(g.src, "__base__/icon.png");
}
