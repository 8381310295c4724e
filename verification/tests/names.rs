use watermark_core::identifier_matches;
use watermark_core::{
    average_hash, batch_status, is_supported_image, parse_profile, sha256_hex, AlgorithmProfile,
    EvidenceExportFormat, OutputFormat, RgbaRaster,
};

#[test]
fn profile_parameters() {
    assert_eq!(AlgorithmProfile::Fidelity.repetitions(), 3);
    assert_eq!(AlgorithmProfile::Balanced.repetitions(), 5);
    assert_eq!(AlgorithmProfile::Strong.repetitions(), 7);
    assert_eq!(AlgorithmProfile::Fidelity.default_strength(), 8);
    assert_eq!(AlgorithmProfile::Balanced.default_strength(), 14);
    assert_eq!(AlgorithmProfile::Strong.default_strength(), 22);
    assert_eq!(
        AlgorithmProfile::all(),
        [AlgorithmProfile::Balanced, AlgorithmProfile::Strong, AlgorithmProfile::Fidelity]
    );
}

#[test]
fn profile_names_round_trip() {
    for profile in AlgorithmProfile::all() {
        assert_eq!(parse_profile(profile.name()), profile);
    }
    assert_eq!(AlgorithmProfile::Strong.name(), "strong");
    assert_eq!(parse_profile("Strong"), AlgorithmProfile::Balanced);
    assert_eq!(parse_profile(""), AlgorithmProfile::Balanced);
}

#[test]
fn output_extension_follows_format() {
    assert_eq!(OutputFormat::Preserve.extension(Some("JPEG")), "jpg");
    assert_eq!(OutputFormat::Preserve.extension(Some("jpg")), "jpg");
    assert_eq!(OutputFormat::Preserve.extension(Some("WebP")), "webp");
    assert_eq!(OutputFormat::Preserve.extension(Some("tiff")), "png");
    assert_eq!(OutputFormat::Preserve.extension(None), "png");
    assert_eq!(OutputFormat::Jpeg.extension(Some("png")), "jpg");
    assert_eq!(OutputFormat::Png.extension(Some("jpg")), "png");
    assert_eq!(OutputFormat::Webp.extension(None), "webp");
}

#[test]
fn supported_image_extensions() {
    for ext in ["jpg", "JPEG", "png", "WebP", "tif", "TIFF"] {
        assert!(is_supported_image(Some(ext)));
    }
    for ext in ["gif", "bmp", "", "jpgx", "Ã©png"] {
        assert!(!is_supported_image(Some(ext)));
    }
    assert!(!is_supported_image(None));
}

#[test]
fn export_format_names() {
    assert_eq!(EvidenceExportFormat::parse("JSON").unwrap(), EvidenceExportFormat::Json);
    assert_eq!(EvidenceExportFormat::parse("csv").unwrap(), EvidenceExportFormat::Csv);
    assert_eq!("Pdf".parse::<EvidenceExportFormat>().unwrap(), EvidenceExportFormat::Pdf);
    let err = EvidenceExportFormat::parse("xml").unwrap_err();
    assert_eq!(err.value, "xml");
}

#[test]
fn batch_status_names() {
    assert_eq!(batch_status(0), "completed");
    assert_eq!(batch_status(3), "completed-with-errors");
}

#[test]
fn sha256_hex_digests() {
    assert_eq!(
        sha256_hex(b"abc"),
        "ba7816bf8f01cfea414140de5dae2223b00361a396177a9cb410ff61f20015ad"
    );
    assert_eq!(
        sha256_hex(b""),
        "e3b0c44298fc1c149afbf4c8996fb92427ae41e4649b934ca495991b7852b855"
    );
}

fn gray_raster(width: u32, height: u32, value: impl Fn(u32, u32) -> u8) -> RgbaRaster {
    let mut pixels = Vec::new();
    for y in 0..height {
        for x in 0..width {
            let v = value(x, y);
            pixels.extend_from_slice(&[v, v, v, 255]);
        }
    }
    RgbaRaster { width, height, pixels }
}

#[test]
fn average_hash_marks_bright_half() {
    let image = gray_raster(8, 8, |_, y| if y < 4 { 0 } else { 200 });
    assert_eq!(average_hash(&image), "00000000ffffffff");
}

#[test]
fn average_hash_of_flat_image_sets_every_bit() {
    let image = gray_raster(16, 16, |_, _| 77);
    assert_eq!(average_hash(&image), "ffffffffffffffff");
}

#[test]
fn output_extensions_are_collected_again() {
    for format in [OutputFormat::Preserve, OutputFormat::Jpeg, OutputFormat::Png, OutputFormat::Webp] {
        for input in [None, Some("JPG"), Some("webp"), Some("bmp"), Some("")] {
            assert!(is_supported_image(Some(format.extension(input))));
        }
    }
}

#[test]
fn repetitions_are_odd_and_grow_with_strength() {
    let profiles = [AlgorithmProfile::Fidelity, AlgorithmProfile::Balanced, AlgorithmProfile::Strong];
    for profile in profiles {
        assert_eq!(profile.repetitions() % 2, 1);
    }
    for pair in profiles.windows(2) {
        assert!(pair[0].repetitions() < pair[1].repetitions());
        assert!(pair[0].default_strength() < pair[1].default_strength());
    }
}

#[test]
fn identifier_verdict() {
    let id = [3u8; 16];
    let mut other = id;
    other[15] = 4;
    assert!(identifier_matches(Some(id), id));
    assert!(!identifier_matches(Some(other), id));
    assert!(!identifier_matches(None, id));
}
