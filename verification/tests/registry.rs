use wgpu_lut::formats::cube::{scan, CubeScan};
use wgpu_lut::{FilterMode, LutError, Processor, ResourceKind};

fn float_bits(sc: &CubeScan) -> Vec<Option<u32>> {
    sc.tokens
        .iter()
        .map(|t| {
            std::str::from_utf8(t)
                .ok()
                .and_then(|s| s.parse::<f32>().ok())
                .map(|f| f.to_bits())
        })
        .collect()
}

fn add_lut_text(p: &mut Processor, name: &str, format: &str, text: &[u8]) -> Result<(), LutError> {
    let sc = scan(text);
    let bits = float_bits(&sc);
    p.add_lut(name, format, sc, &bits)
}

const IDENTITY2: &[u8] =
    b"LUT_3D_SIZE 2\n0 0 0\n1 0 0\n0 1 0\n1 1 0\n0 0 1\n1 0 1\n0 1 1\n1 1 1\n";

/// The 24 channel words of the 2x2x2 identity LUT, in LUT-index order.
fn identity2_words() -> Vec<u32> {
    let mut words = Vec::new();
    for b in 0..2u32 {
        for g in 0..2u32 {
            for r in 0..2u32 {
                words.push((r as f32).to_bits());
                words.push((g as f32).to_bits());
                words.push((b as f32).to_bits());
            }
        }
    }
    words
}

/// The identity LUT pre-expanded to RGBA float32 bytes with alpha 1.0.
fn identity2_rgba_bytes() -> Vec<u8> {
    let words = identity2_words();
    let mut bytes = Vec::new();
    for voxel in words.chunks(3) {
        for w in voxel {
            bytes.extend_from_slice(&w.to_le_bytes());
        }
        bytes.extend_from_slice(&1.0f32.to_bits().to_le_bytes());
    }
    bytes
}

#[test]
fn new_seeds_nearest_and_linear() {
    let p = Processor::new();
    assert_eq!(p.get_sampler("nearest"), Some(FilterMode::Nearest));
    assert_eq!(p.get_sampler("linear"), Some(FilterMode::Linear));
    assert_eq!(p.get_sampler("cubic"), None);
    assert!(p.get_lut("anything").is_none());
}

#[test]
fn add_lut_raw_wrong_length_fails() {
    let mut p = Processor::new();
    let words = vec![0u32; 23];
    let e = p.add_lut_raw("short", 2, &words).unwrap_err();
    assert!(matches!(e, LutError::SizeMismatch { dim: 2, len: 23 }));
    assert!(p.get_lut("short").is_none());
}

#[test]
fn add_lut_raw_alpha_wrong_length_fails() {
    let mut p = Processor::new();
    let bytes = vec![0u8; 127];
    let e = p.add_lut_raw_alpha("short", 2, &bytes).unwrap_err();
    assert!(matches!(e, LutError::SizeMismatch { dim: 2, len: 127 }));
}

#[test]
fn raw_and_alpha_paths_store_identical_bytes() {
    let mut p = Processor::new();
    p.add_lut_raw("via_raw", 2, &identity2_words()).unwrap();
    p.add_lut_raw_alpha("via_alpha", 2, &identity2_rgba_bytes())
        .unwrap();
    let raw = p.get_lut("via_raw").unwrap();
    let alpha = p.get_lut("via_alpha").unwrap();
    assert_eq!(raw.dim, 2);
    assert_eq!(alpha.dim, 2);
    assert_eq!(raw.bytes, alpha.bytes);
    assert_eq!(raw.bytes.len(), 128);
}

#[test]
fn parsed_text_matches_raw_upload() {
    let mut p = Processor::new();
    add_lut_text(&mut p, "from_text", "cube", IDENTITY2).unwrap();
    p.add_lut_raw("from_words", 2, &identity2_words()).unwrap();
    let a = p.get_lut("from_text").unwrap();
    let b = p.get_lut("from_words").unwrap();
    assert_eq!(a.dim, b.dim);
    assert_eq!(a.bytes, b.bytes);
}

#[test]
fn add_lut_is_idempotent() {
    let mut p = Processor::new();
    add_lut_text(&mut p, "lut", "cube", IDENTITY2).unwrap();
    let before = p.get_lut("lut").unwrap();
    // A second registration under the same name, with different content,
    // succeeds and leaves the first content untouched.
    let other = b"LUT_3D_SIZE 2\n1 1 1\n1 1 1\n1 1 1\n1 1 1\n1 1 1\n1 1 1\n1 1 1\n1 1 1\n";
    add_lut_text(&mut p, "lut", "cube", other).unwrap();
    let after = p.get_lut("lut").unwrap();
    assert_eq!(before.dim, after.dim);
    assert_eq!(before.bytes, after.bytes);
}

#[test]
fn add_lut_existing_name_short_circuits() {
    // The no-op branch fires before the format check and the parse: garbage
    // under a known name still succeeds and changes nothing.
    let mut p = Processor::new();
    add_lut_text(&mut p, "lut", "cube", IDENTITY2).unwrap();
    add_lut_text(&mut p, "lut", "weird", b"garbage").unwrap();
    let entry = p.get_lut("lut").unwrap();
    assert_eq!(entry.dim, 2);
}

#[test]
fn add_lut_raw_alpha_always_replaces() {
    let mut p = Processor::new();
    p.add_lut_raw_alpha("lut", 2, &identity2_rgba_bytes()).unwrap();
    let replacement = vec![7u8; 128];
    p.add_lut_raw_alpha("lut", 2, &replacement).unwrap();
    let entry = p.get_lut("lut").unwrap();
    assert_eq!(entry.bytes, replacement);
}

#[test]
fn add_lut_unknown_format_fails() {
    let mut p = Processor::new();
    let e = add_lut_text(&mut p, "lut", "3dl", IDENTITY2).unwrap_err();
    match e {
        LutError::UnsupportedFormat { format } => assert_eq!(format, "3dl"),
        other => panic!("expected UnsupportedFormat, got {:?}", other),
    }
    assert!(p.get_lut("lut").is_none());
}

#[test]
fn add_lut_bad_text_fails() {
    let mut p = Processor::new();
    let e = add_lut_text(&mut p, "lut", "cube", b"LUT_3D_SIZE 2\n0 0\n").unwrap_err();
    assert!(matches!(e, LutError::Format(_)));
    assert!(p.get_lut("lut").is_none());
}

#[test]
fn del_lut_removes_and_tolerates_unknown_names() {
    let mut p = Processor::new();
    p.add_lut_raw("lut", 2, &identity2_words()).unwrap();
    assert!(p.get_lut("lut").is_some());
    p.del_lut("lut");
    assert!(p.get_lut("lut").is_none());
    // removing again is a silent no-op
    p.del_lut("lut");
    p.del_lut("never_registered");
}

#[test]
fn not_found_errors_name_the_resource() {
    let p = Processor::new();
    let data = vec![0u8; 16];
    let e = p
        .begin_process("nope", "linear", "rgba8", 2, 2, &data)
        .unwrap_err();
    match e {
        LutError::NotFound { kind, name } => {
            assert_eq!(kind, ResourceKind::Lut);
            assert_eq!(name, "nope");
        }
        other => panic!("expected NotFound, got {:?}", other),
    }
}
