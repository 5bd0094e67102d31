use wgpu_lut::errors::FormatError;
use wgpu_lut::formats::cube::{parse, scan, CubeScan};

fn float_bits(sc: &CubeScan) -> Vec<Option<u32>> {
    sc.tokens
        .iter()
        .map(|t| {
            std::str::from_utf8(t)
                .ok()
                .and_then(|s| s.parse::<f32>().ok())
                .map(|f| f.to_bits())
        })
        .collect()
}

fn parse_text(text: &[u8]) -> Result<(u32, Vec<u8>), FormatError> {
    let sc = scan(text);
    let bits = float_bits(&sc);
    parse(sc, &bits)
}

const IDENTITY2: &[u8] =
    b"LUT_3D_SIZE 2\n0 0 0\n1 0 0\n0 1 0\n1 1 0\n0 0 1\n1 0 1\n0 1 1\n1 1 1\n";

#[test]
fn parse_identity_dim2() {
    let (dim, bytes) = parse_text(IDENTITY2).unwrap();
    assert_eq!(dim, 2);
    assert_eq!(bytes.len(), 2 * 2 * 2 * 4 * 4);
    // voxel 0: rgb = (0, 0, 0), alpha forced to 1.0
    assert_eq!(&bytes[0..4], &0.0f32.to_bits().to_le_bytes());
    assert_eq!(&bytes[12..16], &1.0f32.to_bits().to_le_bytes());
    // voxel 1 is grid index (1, 0, 0): red channel 1.0
    assert_eq!(&bytes[16..20], &1.0f32.to_bits().to_le_bytes());
    assert_eq!(&bytes[20..24], &0.0f32.to_bits().to_le_bytes());
    // last voxel (1, 1, 1): all channels 1.0
    let one = 1.0f32.to_bits().to_le_bytes();
    assert_eq!(&bytes[112..116], &one);
    assert_eq!(&bytes[116..120], &one);
    assert_eq!(&bytes[120..124], &one);
    assert_eq!(&bytes[124..128], &one);
}

#[test]
fn parse_size_one_fails() {
    let e = parse_text(b"LUT_3D_SIZE 1\n").unwrap_err();
    assert!(matches!(e, FormatError::SizeOutOfRange { size: 1 }));
}

#[test]
fn parse_size_65536_fails() {
    let e = parse_text(b"LUT_3D_SIZE 65536\n").unwrap_err();
    assert!(matches!(e, FormatError::SizeOutOfRange { size: 65536 }));
}

#[test]
fn parse_size_65535_is_accepted() {
    // The directive itself is in range; the parse then fails only because no
    // data lines follow.
    let e = parse_text(b"LUT_3D_SIZE 65535\n").unwrap_err();
    let d = 65535u64;
    match e {
        FormatError::WrongLineCount { expected, got } => {
            assert_eq!(expected, d * d * d);
            assert_eq!(got, 0);
        }
        other => panic!("expected WrongLineCount, got {:?}", other),
    }
}

#[test]
fn parse_two_tokens_fails() {
    let e = parse_text(b"LUT_3D_SIZE 2\n0 0\n").unwrap_err();
    match e {
        FormatError::WrongTokenCount { line, count } => {
            assert_eq!(line, b"0 0".to_vec());
            assert_eq!(count, 2);
        }
        other => panic!("expected WrongTokenCount, got {:?}", other),
    }
}

#[test]
fn parse_four_tokens_fails() {
    let e = parse_text(b"LUT_3D_SIZE 2\n0 0 0 0\n").unwrap_err();
    assert!(matches!(e, FormatError::WrongTokenCount { count: 4, .. }));
}

#[test]
fn parse_too_few_lines_fails() {
    let e = parse_text(b"LUT_3D_SIZE 2\n0 0 0\n1 0 0\n").unwrap_err();
    match e {
        FormatError::WrongLineCount { expected, got } => {
            assert_eq!(expected, 8);
            assert_eq!(got, 2);
        }
        other => panic!("expected WrongLineCount, got {:?}", other),
    }
}

#[test]
fn parse_too_many_lines_fails() {
    let mut text = IDENTITY2.to_vec();
    text.extend_from_slice(b"0 0 0\n");
    let e = parse_text(&text).unwrap_err();
    assert!(matches!(
        e,
        FormatError::WrongLineCount {
            expected: 8,
            got: 9
        }
    ));
}

#[test]
fn parse_bad_float_reports_token() {
    let e = parse_text(b"LUT_3D_SIZE 2\n0 0 zero\n").unwrap_err();
    match e {
        FormatError::BadFloat { token } => assert_eq!(token, b"zero".to_vec()),
        other => panic!("expected BadFloat, got {:?}", other),
    }
}

#[test]
fn parse_data_before_size_fails() {
    let e = parse_text(b"0 0 0\nLUT_3D_SIZE 2\n").unwrap_err();
    assert!(matches!(e, FormatError::MissingSize));
}

#[test]
fn parse_empty_input_fails() {
    let e = parse_text(b"").unwrap_err();
    assert!(matches!(e, FormatError::MissingSize));
}

#[test]
fn parse_bad_size_token_fails() {
    let e = parse_text(b"LUT_3D_SIZE two\n").unwrap_err();
    match e {
        FormatError::BadSizeToken { token } => assert_eq!(token, b"two".to_vec()),
        other => panic!("expected BadSizeToken, got {:?}", other),
    }
}

#[test]
fn parse_skips_titles_and_blank_lines() {
    let text = b"TITLE \"identity\"\n\nLUT_3D_SIZE 2\n\n0 0 0\n1 0 0\n0 1 0\n1 1 0\n\n0 0 1\n1 0 1\n0 1 1\n1 1 1\n";
    let (dim, bytes) = parse_text(text).unwrap();
    assert_eq!(dim, 2);
    assert_eq!(bytes.len(), 128);
}

#[test]
fn parse_quoted_size() {
    let text = b"LUT_3D_SIZE \"2\"\n0 0 0\n1 0 0\n0 1 0\n1 1 0\n0 0 1\n1 0 1\n0 1 1\n1 1 1\n";
    let (dim, _) = parse_text(text).unwrap();
    assert_eq!(dim, 2);
}

#[test]
fn parse_crlf_line_endings() {
    let text = b"LUT_3D_SIZE 2\r\n0 0 0\r\n1 0 0\r\n0 1 0\r\n1 1 0\r\n0 0 1\r\n1 0 1\r\n0 1 1\r\n1 1 1\r\n";
    let (dim, bytes) = parse_text(text).unwrap();
    assert_eq!(dim, 2);
    assert_eq!(bytes.len(), 128);
}

#[test]
fn parse_scientific_notation_floats() {
    let text = b"LUT_3D_SIZE 2\n0e0 0 0\n1e0 0 0\n0 1 0\n1 1 0\n0 0 1\n1 0 1\n0 1 1\n1 1 1\n";
    let (dim, bytes) = parse_text(text).unwrap();
    assert_eq!(dim, 2);
    assert_eq!(&bytes[16..20], &1.0f32.to_bits().to_le_bytes());
}
