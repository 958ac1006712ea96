use gguf_engine::cpu_features::CpuFeatures;
use gguf_engine::error::GgufError;
use gguf_engine::io::{f16_to_f32, Reader};
use gguf_engine::tensor_loader::{
    extract_scale_min_k4, get_quantized_value_q4k, load_tensor, unpack_q4k_byte,
    unpack_q6k_triplet,
};
use gguf_engine::types::{TensorInfo, TensorType};

fn unpack_q4_bytes(packed: &[u8]) -> Vec<u8> {
    let mut quantized = Vec::new();
    for byte in packed {
        let (low, high) = unpack_q4k_byte(*byte);
        quantized.push(low);
        quantized.push(high);
    }
    quantized
}

#[test]
fn test_q4k_unpack_simple() {
    assert_eq!(unpack_q4_bytes(&[0x3A]), vec![10, 3]);
}

#[test]
fn test_q4k_unpack_multiple() {
    assert_eq!(unpack_q4_bytes(&[0x12, 0x34, 0x56]), vec![2, 1, 4, 3, 6, 5]);
}

#[test]
fn test_q4k_unpack_edges() {
    assert_eq!(unpack_q4_bytes(&[0x00, 0xFF]), vec![0, 0, 15, 15]);
}

#[test]
fn test_q6k_unpack_simple() {
    let (value0, value1, value2, value3) = unpack_q6k_triplet(0x3A, 0x5C, 0x7E);
    assert_eq!(value0, 58);
    assert_eq!(value1, 48);
    assert_eq!(value2, 37);
    assert_eq!(value3, 31);
}

#[test]
fn test_q6k_unpack_zeros() {
    let (value0, value1, value2, value3) = unpack_q6k_triplet(0x00, 0x00, 0x00);
    assert_eq!(value0, 0);
    assert_eq!(value1, 0);
    assert_eq!(value2, 0);
    assert_eq!(value3, 0);
}

#[test]
fn test_q6k_unpack_max() {
    let (value0, value1, value2, value3) = unpack_q6k_triplet(0xFF, 0xFF, 0xFF);
    assert_eq!(value0, 63);
    assert_eq!(value1, 63);
    assert_eq!(value2, 63);
    assert_eq!(value3, 63);
}

#[test]
fn test_q6k_unpack_sequence() {
    let packed = vec![0x12u8, 0x34, 0x56, 0x78, 0x9A, 0xBC];
    let mut quantized = Vec::new();
    for i in (0..packed.len()).step_by(3) {
        if i + 2 < packed.len() {
            let (v0, v1, v2, v3) = unpack_q6k_triplet(packed[i], packed[i + 1], packed[i + 2]);
            quantized.push(v0);
            quantized.push(v1);
            quantized.push(v2);
            quantized.push(v3);
        }
    }
    assert_eq!(quantized.len(), 8);
    for &val in &quantized {
        assert!(val <= 63, "Value {} exceeds 6-bit range", val);
    }
}

#[test]
fn test_cpu_features_detection() {
    let features = CpuFeatures::detect();
    let _ = features.describe();
}

#[test]
fn test_cpu_features_describe() {
    let features = CpuFeatures { neon: true, dotprod: false };
    let desc = features.describe();
    assert!(desc.contains("NEON"));

    let features = CpuFeatures { neon: false, dotprod: false };
    let desc = features.describe();
    assert!(desc.contains("None"));
}

#[test]
fn cpu_features_describe_lists_both_and_simd_follows_neon() {
    let both = CpuFeatures { neon: true, dotprod: true };
    assert_eq!(both.describe(), "NEON, DOTPROD");
    assert!(both.has_simd());
    let dot = CpuFeatures { neon: false, dotprod: true };
    assert_eq!(dot.describe(), "DOTPROD");
    assert!(!dot.has_simd());
    assert!(!CpuFeatures::detect().has_simd());
}

#[test]
fn half_precision_widening_covers_every_class() {
    assert_eq!(f16_to_f32(0x3C00), 1.0f32.to_bits());
    assert_eq!(f16_to_f32(0xC000), (-2.0f32).to_bits());
    assert_eq!(f16_to_f32(0x3800), 0.5f32.to_bits());
    assert_eq!(f16_to_f32(0x0000), 0.0f32.to_bits());
    assert_eq!(f16_to_f32(0x8000), (-0.0f32).to_bits());
    assert_eq!(f16_to_f32(0x7C00), f32::INFINITY.to_bits());
    assert_eq!(f16_to_f32(0xFC00), f32::NEG_INFINITY.to_bits());
    assert_eq!(f16_to_f32(0x7E00), 0x7FC0_0000);
    assert_eq!(f32::from_bits(f16_to_f32(0x0001)), 2.0f32.powi(-24));
    assert_eq!(f32::from_bits(f16_to_f32(0x03FF)), 1023.0 * 2.0f32.powi(-24));
    assert_eq!(f32::from_bits(f16_to_f32(0x7BFF)), 65504.0);
}

#[test]
fn scale_codes_unpack_both_halves() {
    let scales: Vec<u8> = vec![
        0b1100_0001, 0x02, 0x03, 0x04, 0b0100_0101, 0x06, 0x07, 0x08, 0x9A, 0xBC, 0xDE, 0xF0,
    ];
    assert_eq!(extract_scale_min_k4(0, &scales), (1, 5));
    assert_eq!(extract_scale_min_k4(3, &scales), (4, 8));
    // Block 4: low bits 0x9A -> scale 0xA | (0b11 << 4), offset 0x9 | (0b01 << 4).
    assert_eq!(extract_scale_min_k4(4, &scales), (0x3A, 0x19));
    assert_eq!(extract_scale_min_k4(7, &scales), (0x00, 0x0F));
}

#[test]
fn q4k_code_low_nibble_is_even_element() {
    let mut qs = vec![0u8; 128];
    qs[0] = 0x3A;
    qs[127] = 0xF1;
    assert_eq!(get_quantized_value_q4k(0, &qs), 10);
    assert_eq!(get_quantized_value_q4k(1, &qs), 3);
    assert_eq!(get_quantized_value_q4k(254, &qs), 1);
    assert_eq!(get_quantized_value_q4k(255, &qs), 15);
    let mut longer = qs.clone();
    longer.push(0xEE);
    assert_eq!(get_quantized_value_q4k(1, &longer), 3);
}

fn superblock(d: u16, dmin: u16, codes: &[u8; 12], body: &[u8]) -> Vec<u8> {
    let mut b = Vec::new();
    b.extend_from_slice(&d.to_le_bytes());
    b.extend_from_slice(&dmin.to_le_bytes());
    b.extend_from_slice(codes);
    b.extend_from_slice(body);
    b
}

fn info(name: &str, dims: Vec<u64>, type_id: u32, offset: u64) -> TensorInfo {
    TensorInfo { name: name.to_string(), n_dimensions: dims.len() as u32, dimensions: dims, type_id, offset }
}

fn dequantize(code: u8, scale: gguf_engine::types::BlockScale, offset: gguf_engine::types::BlockScale) -> f32 {
    let s = f32::from_bits(scale.base) * scale.code as f32;
    let m = f32::from_bits(offset.base) * offset.code as f32;
    code as f32 * s + m
}

#[test]
fn q4k_tensor_dequantizes_per_block_across_boundaries() {
    // d = 1.0, dmin = 0.5; blocks 0..3 scale codes 1..4, offset codes 2..5.
    let codes: [u8; 12] = [1, 2, 3, 4, 2, 3, 4, 5, 0, 0, 0, 0];
    let mut body = vec![0u8; 128];
    for (i, b) in body.iter_mut().enumerate() {
        *b = ((i % 16) as u8) | (((15 - i % 16) as u8) << 4);
    }
    let bytes = superblock(0x3C00, 0x3800, &codes, &body);
    let mut reader = Reader::new(bytes.clone(), 100);
    let t = load_tensor(&mut reader, &info("w", vec![64], 12, 100)).unwrap();
    assert_eq!(t.kind(), TensorType::Q4K);
    assert_eq!(t.num_elements(), 64);
    assert_eq!(reader.position(), 100 + 144);
    let q = t.quantized_data().unwrap();
    let scales = t.scales().unwrap();
    let mins = t.mins().unwrap();
    assert_eq!(q.len(), 64);
    assert_eq!(scales.len(), 2);
    assert_eq!(mins.len(), 2);
    for i in 0..64 {
        let byte = body[i / 2];
        let expected_code = if i % 2 == 0 { byte & 0x0F } else { byte >> 4 };
        assert_eq!(q[i], expected_code);
        let block = i / 32;
        let expected = expected_code as f32 * (block as f32 + 1.0) + 0.5 * (block as f32 + 2.0);
        assert!((dequantize(q[i], scales[block], mins[block]) - expected).abs() < 1e-6);
    }
    // Block boundary: element 31 in block 0, element 32 in block 1.
    assert_eq!(scales[0].code, 1);
    assert_eq!(scales[1].code, 2);
    assert_eq!(mins[1].code, 3);
    assert!(t.f32_data().is_none());
}

#[test]
fn q6k_tensor_unpacks_triplets_and_truncates() {
    let codes: [u8; 12] = [3, 0, 0, 0, 1, 0, 0, 0, 0, 0, 0, 0];
    let mut body = vec![0u8; 192];
    body[0] = 0xFF;
    body[1] = 0xFF;
    body[2] = 0xFF;
    body[3] = 0x3A;
    body[4] = 0x5C;
    body[5] = 0x7E;
    let bytes = superblock(0x4000, 0x3C00, &codes, &body);
    let mut reader = Reader::new(bytes, 0);
    let t = load_tensor(&mut reader, &info("w", vec![2, 3], 14, 0)).unwrap();
    assert_eq!(t.kind(), TensorType::Q6K);
    assert_eq!(t.quantized_data().unwrap(), &[63, 63, 63, 63, 58, 48][..]);
    let scales = t.scales().unwrap();
    assert_eq!(scales.len(), 1);
    assert_eq!(f32::from_bits(scales[0].base), 2.0);
    assert_eq!(scales[0].code, 3);
    let mins = t.mins().unwrap();
    assert_eq!(f32::from_bits(mins[0].base), 1.0);
    assert_eq!(mins[0].code, 1);
    assert!((dequantize(58, scales[0], mins[0]) - (58.0 * 6.0 + 1.0)).abs() < 1e-6);
}

#[test]
fn f32_tensor_reads_little_endian_elements() {
    let mut bytes = Vec::new();
    for v in [1.0f32, -3.5, 0.25] {
        bytes.extend_from_slice(&v.to_le_bytes());
    }
    let mut reader = Reader::new(bytes, 8);
    let t = load_tensor(&mut reader, &info("n", vec![3], 0, 8)).unwrap();
    let data: Vec<f32> = t.f32_data().unwrap().iter().map(|b| f32::from_bits(*b)).collect();
    assert_eq!(data, vec![1.0, -3.5, 0.25]);
    assert_eq!(t.dimensions(), &[3u64][..]);
    assert_eq!(t.name(), "n");
}

#[test]
fn load_tensor_errors_name_their_cause() {
    let bytes = vec![0u8; 16];
    let mut reader = Reader::new(bytes.clone(), 0);
    assert_eq!(
        load_tensor(&mut reader, &info("x", vec![2], 7, 0)).unwrap_err(),
        GgufError::UnsupportedTensorType { name: "x".to_string(), offset: 0, type_id: 7 }
    );
    assert_eq!(
        load_tensor(&mut reader, &info("x", vec![2], 0, 17)).unwrap_err(),
        GgufError::TensorOffsetOutOfRange { name: "x".to_string(), offset: 17 }
    );
    // An unsupported kind is reported as such whatever else is wrong.
    assert_eq!(
        load_tensor(&mut reader, &info("y", vec![2], 3, 99)).unwrap_err(),
        GgufError::UnsupportedTensorType { name: "y".to_string(), offset: 99, type_id: 3 }
    );
    assert_eq!(
        load_tensor(&mut reader, &info("y", vec![u64::MAX, 4], 13, 0)).unwrap_err(),
        GgufError::UnsupportedTensorType { name: "y".to_string(), offset: 0, type_id: 13 }
    );
    assert!(matches!(
        load_tensor(&mut reader, &info("x", vec![5], 0, 0)).unwrap_err(),
        GgufError::UnexpectedEof { .. }
    ));
    assert!(matches!(
        load_tensor(&mut reader, &info("x", vec![u64::MAX, 4], 0, 0)).unwrap_err(),
        GgufError::TensorTooLarge { .. }
    ));
    let t = load_tensor(&mut reader, &info("z", vec![3, 0], 12, 16)).unwrap();
    assert_eq!(t.num_elements(), 0);
}
