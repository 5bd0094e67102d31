use wgpu_lut::utils::BufferAlign;
use wgpu_lut::{finish_process, FilterMode, LutError, PixelFormat, Processor};

/// The 24 channel words of the 2x2x2 identity LUT, in LUT-index order.
fn identity2_words() -> Vec<u32> {
    let mut words = Vec::new();
    for b in 0..2u32 {
        for g in 0..2u32 {
            for r in 0..2u32 {
                words.push((r as f32).to_bits());
                words.push((g as f32).to_bits());
                words.push((b as f32).to_bits());
            }
        }
    }
    words
}

fn processor_with_identity() -> Processor {
    let mut p = Processor::new();
    p.add_lut_raw("identity", 2, &identity2_words()).unwrap();
    p
}

#[test]
fn align_width3_pads_to_256() {
    let a = BufferAlign::new(3, 4);
    assert_eq!(a.width, 3);
    assert_eq!(a.unpadded_bytes_per_row, 12);
    assert_eq!(a.padded_bytes_per_row, 256);
}

#[test]
fn align_exact_multiple_stays_unpadded() {
    let a = BufferAlign::new(64, 4);
    assert_eq!(a.unpadded_bytes_per_row, 256);
    assert_eq!(a.padded_bytes_per_row, 256);
    let b = BufferAlign::new(128, 4);
    assert_eq!(b.unpadded_bytes_per_row, 512);
    assert_eq!(b.padded_bytes_per_row, 512);
}

#[test]
fn align_zero_width() {
    let a = BufferAlign::new(0, 4);
    assert_eq!(a.unpadded_bytes_per_row, 0);
    assert_eq!(a.padded_bytes_per_row, 0);
}

#[test]
fn begin_process_stages_padded_rows() {
    let p = processor_with_identity();
    // a 2x2 rgba8 image: 4 pixels, 16 bytes, rows of 8 bytes
    let data: Vec<u8> = (1..=16).collect();
    let plan = p
        .begin_process("identity", "linear", "rgba8", 2, 2, &data)
        .unwrap();
    assert_eq!(plan.filter, FilterMode::Linear);
    assert_eq!(plan.format, PixelFormat::Rgba8);
    assert_eq!(plan.lut_dim, 2);
    assert_eq!(plan.lut_bytes.len(), 128);
    assert_eq!(plan.width, 2);
    assert_eq!(plan.height, 2);
    assert_eq!(plan.unpadded_bytes_per_row, 8);
    assert_eq!(plan.padded_bytes_per_row, 256);
    assert_eq!(plan.staging.len(), 512);
    // row 0 at offset 0, row 1 at the padded stride, pad bytes zero
    assert_eq!(&plan.staging[0..8], &data[0..8]);
    assert!(plan.staging[8..256].iter().all(|&b| b == 0));
    assert_eq!(&plan.staging[256..264], &data[8..16]);
    assert!(plan.staging[264..512].iter().all(|&b| b == 0));
    // the original's over-dispatching workgroup count: width/32 + 1
    assert_eq!(plan.groups_x, 1);
    assert_eq!(plan.groups_y, 1);
}

#[test]
fn begin_process_workgroups_over_dispatch() {
    let p = processor_with_identity();
    let data = vec![0u8; 64 * 32 * 4];
    let plan = p
        .begin_process("identity", "nearest", "rgba8", 64, 32, &data)
        .unwrap();
    assert_eq!(plan.groups_x, 64 / 32 + 1);
    assert_eq!(plan.groups_y, 32 / 32 + 1);
}

#[test]
fn begin_process_unknown_format_fails() {
    let p = processor_with_identity();
    let data = vec![0u8; 16];
    let e = p
        .begin_process("identity", "linear", "rgb565", 2, 2, &data)
        .unwrap_err();
    match e {
        LutError::UnsupportedFormat { format } => assert_eq!(format, "rgb565"),
        other => panic!("expected UnsupportedFormat, got {:?}", other),
    }
}

#[test]
fn begin_process_unknown_sampler_fails_without_touching_buffer() {
    let p = processor_with_identity();
    let data = vec![9u8; 16];
    let e = p
        .begin_process("identity", "cubic", "rgba8", 2, 2, &data)
        .unwrap_err();
    assert!(matches!(e, LutError::NotFound { .. }));
    assert_eq!(data, vec![9u8; 16]);
}

#[test]
fn begin_process_unknown_lut_fails_without_touching_buffer() {
    let p = processor_with_identity();
    let data = vec![9u8; 16];
    let e = p
        .begin_process("other", "linear", "rgba8", 2, 2, &data)
        .unwrap_err();
    assert!(matches!(e, LutError::NotFound { .. }));
    assert_eq!(data, vec![9u8; 16]);
}

#[test]
fn begin_process_wrong_buffer_length_fails() {
    let p = processor_with_identity();
    let data = vec![0u8; 15];
    let e = p
        .begin_process("identity", "linear", "rgba8", 2, 2, &data)
        .unwrap_err();
    assert!(matches!(e, LutError::SizeMismatch { dim: 2, len: 15 }));
}

#[test]
fn staging_round_trip_returns_identical_buffer() {
    // The host-side half of the end-to-end identity property: a device step
    // that returns the staged rows unchanged (as the identity LUT does)
    // leaves the caller's 2x2 rgba8 buffer byte-identical.
    let p = processor_with_identity();
    let original: Vec<u8> = (1..=16).collect();
    let mut data = original.clone();
    let plan = p
        .begin_process("identity", "linear", "rgba8", 2, 2, &data)
        .unwrap();
    let device_out = plan.staging.clone();
    finish_process(&plan, &device_out, &mut data);
    assert_eq!(data, original);
}

#[test]
fn finish_process_unpacks_padded_rows() {
    let p = processor_with_identity();
    let mut data = vec![0u8; 16];
    let plan = p
        .begin_process("identity", "linear", "rgba8", 2, 2, &data)
        .unwrap();
    let mut device_out = vec![0u8; 512];
    for (i, b) in device_out[0..8].iter_mut().enumerate() {
        *b = (i + 1) as u8;
    }
    for (i, b) in device_out[256..264].iter_mut().enumerate() {
        *b = (i + 101) as u8;
    }
    finish_process(&plan, &device_out, &mut data);
    let expected: Vec<u8> = (1..=8).chain(101..=108).collect();
    assert_eq!(data, expected);
}
