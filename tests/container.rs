use gguf_engine::attention::{KVCache, KVCacheError};
use gguf_engine::config::Config;
use gguf_engine::embeddings::{get_embedding_dim, get_vocab_size, lookup_embeddings, select_rows, Weight};
use gguf_engine::error::{GgufError, LoadFailure};
use gguf_engine::io::Reader;
use gguf_engine::kernels::{matmul_shape, KernelError};
use gguf_engine::parser::{
    distinct_kinds, get_k, get_kv_pair, get_tensor_metadata, get_value_type, u32_to_data_type,
};
use gguf_engine::store::parse_gguf;
use gguf_engine::tensor_loader::load_tensor;
use gguf_engine::types::{Data, DataType, ReadingInfo, TensorInfo};

fn put_str(b: &mut Vec<u8>, s: &str) {
    b.extend_from_slice(&(s.len() as u64).to_le_bytes());
    b.extend_from_slice(s.as_bytes());
}

fn put_info(b: &mut Vec<u8>, name: &str, dims: &[u64], kind: u32, offset: u64) {
    put_str(b, name);
    b.extend_from_slice(&(dims.len() as u32).to_le_bytes());
    for d in dims {
        b.extend_from_slice(&d.to_le_bytes());
    }
    b.extend_from_slice(&kind.to_le_bytes());
    b.extend_from_slice(&offset.to_le_bytes());
}

/// A container with two metadata entries and two tensors: a full-precision
/// embedding of shape [2, 3] (hidden 2, vocabulary 3) and a 4-bit tensor.
fn sample_container() -> (Vec<u8>, usize) {
    let mut b = Vec::new();
    b.extend_from_slice(b"GGUF");
    b.extend_from_slice(&3u32.to_le_bytes());
    b.extend_from_slice(&2u64.to_le_bytes());
    b.extend_from_slice(&2u64.to_le_bytes());
    put_str(&mut b, "general.name");
    b.extend_from_slice(&8u32.to_le_bytes());
    put_str(&mut b, "tiny");
    put_str(&mut b, "sizes");
    b.extend_from_slice(&9u32.to_le_bytes());
    b.extend_from_slice(&4u32.to_le_bytes());
    b.extend_from_slice(&3u64.to_le_bytes());
    for v in [7u32, 8, 9] {
        b.extend_from_slice(&v.to_le_bytes());
    }
    // Directory entries hold the payload offsets; compute them after.
    let dir_start = b.len();
    put_info(&mut b, "token_embd.weight", &[2, 3], 0, 0);
    put_info(&mut b, "blk.0.ffn", &[32], 12, 0);
    let header_len = b.len();
    let embd_offset = header_len as u64;
    let q_offset = embd_offset + 24;
    b.truncate(dir_start);
    put_info(&mut b, "token_embd.weight", &[2, 3], 0, embd_offset);
    put_info(&mut b, "blk.0.ffn", &[32], 12, q_offset);
    for v in [1.0f32, 2.0, 3.0, 4.0, 5.0, 6.0] {
        b.extend_from_slice(&v.to_le_bytes());
    }
    b.extend_from_slice(&0x3C00u16.to_le_bytes());
    b.extend_from_slice(&0x0000u16.to_le_bytes());
    b.extend_from_slice(&[2, 0, 0, 0, 0, 0, 0, 0, 0, 0, 0, 0]);
    b.extend_from_slice(&[0x21u8; 128]);
    (b, header_len)
}

#[test]
fn reader_reads_little_endian_integers() {
    let bytes = vec![0x01, 0x02, 0x03, 0x04, 0xFF, 0xFE, 0xFF, 0x80, 0x01, 0x02];
    let mut r = Reader::new(bytes, 10);
    assert_eq!(r.read_u32().unwrap(), 0x0403_0201);
    assert_eq!(r.position(), 14);
    assert_eq!(r.read_i8().unwrap(), -1);
    assert_eq!(r.read_i16().unwrap(), -2);
    assert_eq!(r.read_u8().unwrap(), 0x80);
    assert_eq!(r.read_u16().unwrap(), 0x0201);
    assert_eq!(r.read_u8().unwrap_err(), GgufError::UnexpectedEof { position: 20, requested: 1 });
    r.seek(10).unwrap();
    assert_eq!(r.read_bytes(2).unwrap(), vec![1, 2]);
    assert_eq!(r.seek(9).unwrap_err(), GgufError::SeekOutOfRange { requested: 9 });
    assert_eq!(r.seek(21).unwrap_err(), GgufError::SeekOutOfRange { requested: 21 });
    assert_eq!(r.position(), 12);
}

#[test]
fn reader_reads_wide_and_signed_values() {
    let mut bytes = Vec::new();
    bytes.extend_from_slice(&(-5i32).to_le_bytes());
    bytes.extend_from_slice(&u64::MAX.to_le_bytes());
    bytes.extend_from_slice(&i64::MIN.to_le_bytes());
    bytes.extend_from_slice(&1.5f32.to_le_bytes());
    bytes.extend_from_slice(&(-2.25f64).to_le_bytes());
    bytes.extend_from_slice(&0x3C00u16.to_le_bytes());
    bytes.extend_from_slice(&[1, 0, 2]);
    let mut r = Reader::new(bytes, 0);
    assert_eq!(r.read_i32().unwrap(), -5);
    assert_eq!(r.read_u64().unwrap(), u64::MAX);
    assert_eq!(r.read_i64().unwrap(), i64::MIN);
    assert_eq!(f32::from_bits(r.read_f32().unwrap()), 1.5);
    assert_eq!(f64::from_bits(r.read_f64().unwrap()), -2.25);
    assert_eq!(f32::from_bits(r.read_f16().unwrap()), 1.0);
    assert!(r.read_bool().unwrap());
    assert!(!r.read_bool().unwrap());
    assert_eq!(r.read_bool().unwrap_err(), GgufError::InvalidBool { value: 2 });
}

#[test]
fn reader_strings_must_be_utf8() {
    let mut bytes = Vec::new();
    put_str(&mut bytes, "héllo");
    bytes.extend_from_slice(&2u64.to_le_bytes());
    bytes.extend_from_slice(&[0xC3, 0x28]);
    let mut r = Reader::new(bytes, 0);
    assert_eq!(r.read_string().unwrap(), "héllo");
    assert_eq!(r.read_string().unwrap_err(), GgufError::InvalidUtf8 { position: 22 });
}

#[test]
fn value_types_map_codes_in_order() {
    assert_eq!(u32_to_data_type(0).unwrap(), DataType::Uint8);
    assert_eq!(u32_to_data_type(8).unwrap(), DataType::String);
    assert_eq!(u32_to_data_type(9).unwrap(), DataType::Array);
    assert_eq!(u32_to_data_type(12).unwrap(), DataType::Float64);
    assert_eq!(u32_to_data_type(13).unwrap_err(), GgufError::UnknownValueType { code: 13 });
    let mut r = Reader::new(11u32.to_le_bytes().to_vec(), 0);
    assert_eq!(get_value_type(&mut r).unwrap(), DataType::Int64);
    let mut r = Reader::new(40u32.to_le_bytes().to_vec(), 0);
    assert_eq!(get_value_type(&mut r).unwrap_err(), GgufError::UnknownValueType { code: 40 });
    let mut r = Reader::new(vec![1, 2, 3], 5);
    assert_eq!(
        get_value_type(&mut r).unwrap_err(),
        GgufError::UnexpectedEof { position: 5, requested: 4 }
    );
}

#[test]
fn nested_arrays_and_typed_values_decode() {
    let mut b = Vec::new();
    put_str(&mut b, "grid");
    b.extend_from_slice(&9u32.to_le_bytes());
    b.extend_from_slice(&9u32.to_le_bytes());
    b.extend_from_slice(&2u64.to_le_bytes());
    for row in [[1i16, -1], [2, -2]] {
        b.extend_from_slice(&3u32.to_le_bytes());
        b.extend_from_slice(&2u64.to_le_bytes());
        for v in row {
            b.extend_from_slice(&v.to_le_bytes());
        }
    }
    let mut r = Reader::new(b, 0);
    let (key, value) = get_kv_pair(&mut r).unwrap();
    assert_eq!(key, "grid");
    match value {
        Data::Array(rows) => {
            assert_eq!(rows.len(), 2);
            match &rows[1] {
                Data::Array(items) => {
                    assert!(matches!(items[0], Data::Int16(2)));
                    assert!(matches!(items[1], Data::Int16(-2)));
                }
                other => panic!("unexpected {:?}", other),
            }
        }
        other => panic!("unexpected {:?}", other),
    }
    let mut r = Reader::new(vec![7, 0, 0, 0, 0, 0, 0, 0, b'a'], 0);
    assert!(get_k(&mut r).is_err());
    let mut r = Reader::new(vec![0x2A], 0);
    let mut info = ReadingInfo { data_type: DataType::Uint8 };
    assert!(matches!(info.read_bytes_as(&mut r).unwrap(), Data::Uint8(42)));
}

#[test]
fn directory_entry_decodes() {
    let mut b = Vec::new();
    put_info(&mut b, "blk.1.attn_q.weight", &[4096, 4096], 12, 1234);
    let mut r = Reader::new(b, 0);
    let t: TensorInfo = get_tensor_metadata(&mut r).unwrap();
    assert_eq!(t.name, "blk.1.attn_q.weight");
    assert_eq!(t.n_dimensions, 2);
    assert_eq!(t.dimensions, vec![4096, 4096]);
    assert_eq!(t.type_id, 12);
    assert_eq!(t.offset, 1234);
}

#[test]
fn container_parses_declared_counts() {
    let (bytes, header_len) = sample_container();
    let mut r = Reader::new(bytes, 0);
    let g = parse_gguf(&mut r).unwrap();
    assert_eq!(r.position() as usize, header_len);
    assert_eq!(g.tensors_metadata().len(), 2);
    assert_eq!(g.metadata_keys().len(), 2);
    assert_eq!(g.metadata_keys()[0], "general.name");
    match g.get_metadata("general.name") {
        Some(Data::String(s)) => assert_eq!(s, "tiny"),
        other => panic!("unexpected {:?}", other),
    }
    match g.get_metadata("sizes") {
        Some(Data::Array(v)) => {
            assert_eq!(v.len(), 3);
            assert!(matches!(v[2], Data::Uint32(9)));
        }
        other => panic!("unexpected {:?}", other),
    }
    assert!(g.get_metadata("missing").is_none());
    assert_eq!(g.num_tensors(), 0);
    assert!(g.get_tensor("token_embd.weight").is_none());
}

#[test]
fn truncated_container_fails_at_every_cut() {
    let (bytes, header_len) = sample_container();
    for cut in 0..header_len {
        let mut r = Reader::new(bytes[..cut].to_vec(), 0);
        assert!(parse_gguf(&mut r).is_err(), "cut at {}", cut);
    }
    let mut bad = bytes.clone();
    bad[0] = b'X';
    let mut r = Reader::new(bad, 0);
    assert_eq!(parse_gguf(&mut r).unwrap_err(), GgufError::BadMagic);
}

#[test]
fn single_tensor_loads_at_most_once() {
    let (bytes, _) = sample_container();
    let mut r = Reader::new(bytes, 0);
    let mut g = parse_gguf(&mut r).unwrap();
    g.load_single_tensor(&mut r, "blk.0.ffn").unwrap();
    let after_first = r.position();
    assert_eq!(g.num_tensors(), 1);
    g.load_single_tensor(&mut r, "blk.0.ffn").unwrap();
    assert_eq!(r.position(), after_first);
    assert_eq!(g.num_tensors(), 1);
    let t = g.get_tensor("blk.0.ffn").unwrap();
    assert_eq!(t.quantized_data().unwrap(), &[1u8, 2].repeat(16)[..]);
    assert_eq!(
        g.load_single_tensor(&mut r, "nope").unwrap_err(),
        GgufError::TensorNotFound { name: "nope".to_string() }
    );
}

#[test]
fn load_all_fills_cache_or_names_failing_tensor() {
    let (bytes, _) = sample_container();
    let mut r = Reader::new(bytes.clone(), 0);
    let mut g = parse_gguf(&mut r).unwrap();
    g.load_tensors(&mut r).unwrap();
    assert_eq!(g.num_tensors(), 2);

    let cut = bytes.len() - 1;
    let mut r = Reader::new(bytes[..cut].to_vec(), 0);
    let mut g = parse_gguf(&mut r).unwrap();
    match g.load_tensors(&mut r).unwrap_err() {
        GgufError::TensorLoad { index, total, name, type_id, cause, .. } => {
            assert_eq!(index, 2);
            assert_eq!(total, 2);
            assert_eq!(name, "blk.0.ffn");
            assert_eq!(type_id, 12);
            assert_eq!(cause, LoadFailure::Truncated);
        }
        other => panic!("unexpected {:?}", other),
    }
    assert_eq!(g.num_tensors(), 1);
    assert!(g.get_tensor("token_embd.weight").is_some());
}

#[test]
fn embedding_rows_within_vocabulary() {
    let (bytes, _) = sample_container();
    let mut r = Reader::new(bytes, 0);
    let mut g = parse_gguf(&mut r).unwrap();
    assert_eq!(get_embedding_dim(&g).unwrap_err(), GgufError::EmbeddingNotFound);
    let rows = lookup_embeddings(&mut g, &mut r, &[0, 2]).unwrap();
    assert_eq!(rows.len(), 2);
    let row = |w: &Vec<Weight>| -> Vec<f32> {
        w.iter()
            .map(|e| match e {
                Weight::Full(bits) => f32::from_bits(*bits),
                other => panic!("unexpected {:?}", other),
            })
            .collect()
    };
    assert_eq!(row(&rows[0]), vec![1.0, 2.0]);
    assert_eq!(row(&rows[1]), vec![5.0, 6.0]);
    assert_eq!(get_embedding_dim(&g).unwrap(), 2);
    assert_eq!(get_vocab_size(&g).unwrap(), 3);
    for id in 0..3u32 {
        assert_eq!(lookup_embeddings(&mut g, &mut r, &[id]).unwrap()[0].len(), 2);
    }
    for id in [3u32, 4, 103] {
        assert_eq!(
            lookup_embeddings(&mut g, &mut r, &[0, id]).unwrap_err(),
            GgufError::TokenOutOfRange { token_id: id, vocab_size: 3 }
        );
    }
    // The first offending id is the one named.
    assert_eq!(
        lookup_embeddings(&mut g, &mut r, &[1, 7, 5]).unwrap_err(),
        GgufError::TokenOutOfRange { token_id: 7, vocab_size: 3 }
    );
}

#[test]
fn quantized_rows_carry_block_factors() {
    let (bytes, _) = sample_container();
    let mut r = Reader::new(bytes, 0);
    let mut g = parse_gguf(&mut r).unwrap();
    g.load_single_tensor(&mut r, "blk.0.ffn").unwrap();
    let t = g.get_tensor("blk.0.ffn").unwrap();
    assert_eq!(
        select_rows(t, &[0]).unwrap_err(),
        GgufError::NotTwoDimensional { rank: 1 }
    );
    match t.element(3) {
        Weight::Quantized { code, scale, offset } => {
            assert_eq!(code, 2);
            assert_eq!(scale.code, 2);
            assert_eq!(f32::from_bits(scale.base), 1.0);
            assert_eq!(offset.code, 0);
        }
        other => panic!("unexpected {:?}", other),
    }
}

fn weight_value(w: Weight) -> f32 {
    match w {
        Weight::Full(bits) => f32::from_bits(bits),
        Weight::Quantized { code, scale, offset } => {
            code as f32 * (f32::from_bits(scale.base) * scale.code as f32)
                + f32::from_bits(offset.base) * offset.code as f32
        }
    }
}

#[test]
fn matmul_shape_addresses_row_major_weight() {
    let mut bytes = Vec::new();
    for v in [1.0f32, 3.0, 2.0, 4.0] {
        bytes.extend_from_slice(&v.to_le_bytes());
    }
    let mut r = Reader::new(bytes, 0);
    let info = TensorInfo {
        name: "w".to_string(),
        n_dimensions: 2,
        dimensions: vec![2, 2],
        type_id: 0,
        offset: 0,
    };
    let weight = load_tensor(&mut r, &info).unwrap();
    let input = [1.0f32, 2.0];
    let (in_features, out_features) = matmul_shape(input.len(), &weight, 2).unwrap();
    let mut output = vec![0.0f32; out_features];
    for o in 0..out_features {
        for i in 0..in_features {
            output[o] += input[i] * weight_value(weight.element(i * out_features + o));
        }
    }
    assert!((output[0] - 5.0).abs() < 1e-5);
    assert!((output[1] - 11.0).abs() < 1e-5);
    assert_eq!(
        matmul_shape(3, &weight, 2).unwrap_err(),
        KernelError::InputMismatch { input_len: 3, in_features: 2 }
    );
    assert_eq!(
        matmul_shape(2, &weight, 1).unwrap_err(),
        KernelError::OutputMismatch { output_len: 1, out_features: 2 }
    );
}

#[test]
fn kv_cache_accepts_exactly_capacity_appends() {
    let mut cache: KVCache<f32> = KVCache::new(2, 2, 3, 0.0);
    let k: Vec<f32> = (0..6).map(|i| i as f32).collect();
    let v: Vec<f32> = (0..6).map(|i| 10.0 + i as f32).collect();
    assert_eq!(cache.append_kv(&k[..5], &v), Err(KVCacheError::KVDimMismatch { k_size: 6 }));
    assert_eq!(cache.append_kv(&k, &v), Ok(()));
    assert_eq!(cache.get_k_slice(0, 1), &[3.0, 4.0, 5.0][..]);
    assert_eq!(cache.get_v_slice(0, 0), &[10.0, 11.0, 12.0][..]);
    assert_eq!(cache.get_k_slice(1, 0), &[0.0, 0.0, 0.0][..]);
    assert_eq!(cache.append_kv(&v, &k), Ok(()));
    assert_eq!(cache.get_v_slice(1, 1), &[3.0, 4.0, 5.0][..]);
    assert_eq!(cache.append_kv(&k, &v), Err(KVCacheError::KVCacheFull { max_len: 2 }));
}

#[test]
fn config_accepts_only_gguf_extension() {
    assert!(Config::load_file("./model/test.gguf").is_ok());
    assert_eq!(Config::load_file("./model/test.gguff"), Err("Error: file extension is not .gguf"));
    assert_eq!(Config::load_file("./model/test.txt"), Err("Error: file extension is not .gguf"));
    assert_eq!(Config::load_file("./model/test"), Err("Error: file extension is missing."));
    assert_eq!(Config::load_file("./model/missing"), Err("Error: file extension is missing."));
}

#[test]
fn distinct_kinds_keeps_first_occurrences() {
    assert_eq!(distinct_kinds(&[12, 0, 12, 14, 0]), vec![12, 0, 14]);
    assert_eq!(distinct_kinds(&[]), Vec::<u32>::new());
}
