use tatara::error::ErrorKind;
use tatara::halfka_psqt::{
    target_of, HalfKAPsqtNet, NetBlock, NetError, QuantTarget, FT_OUT_DIM, HEADER_BYTES,
    L1_OUT_DIM, NUM_FEATURES,
};
use tatara::yo::{
    check_arch, consume_optional_leb128_prefix, expect_u32, pad32, read_affine, read_i32, read_u32,
    read_yo_header, read_yo_stacks, reject_trailing_data, require_kingrank9_assertion,
    STACK_BYTES, YO_ARCH, YO_ARCH_V2, YO_FT_HASH, YO_NETWORK_HASH, YO_TOP_HASH, YO_VERSION,
};

/// A weight times a factor, rounded.
fn times(q: f64, weights: &[f32]) -> Vec<i64> {
    weights
        .iter()
        .map(|&w| (q * f64::from(w)).round() as i64)
        .collect()
}

fn back(q: f32, values: &[i64]) -> Vec<f32> {
    values.iter().map(|&v| v as f32 / q).collect()
}

fn build_mini_net() -> HalfKAPsqtNet {
    HalfKAPsqtNet {
        num_features: 4,
        ft_out_dim: 2,
        l1_out_dim: 1,
        ft_weights: times(64.0, &[0.5, -0.25, 0.125, 0.0, -0.5, 0.25, 0.75, -0.75]),
        ft_bias: times(64.0, &[0.5, -0.5]),
        l1_weights: times(64.0, &[0.0625, -0.0625, 0.125, -0.125]),
        l1_bias: times(4096.0, &[0.0]),
        psqt: times(4096.0, &[1.0, -1.0, 0.5, -0.5]),
    }
}

fn same(a: &HalfKAPsqtNet, b: &HalfKAPsqtNet) {
    assert_eq!(a.num_features, b.num_features);
    assert_eq!(a.ft_out_dim, b.ft_out_dim);
    assert_eq!(a.l1_out_dim, b.l1_out_dim);
    assert_eq!(a.ft_weights, b.ft_weights);
    assert_eq!(a.ft_bias, b.ft_bias);
    assert_eq!(a.l1_weights, b.l1_weights);
    assert_eq!(a.l1_bias, b.l1_bias);
    assert_eq!(a.psqt, b.psqt);
}

#[test]
fn validate_passes_for_consistent_dims() {
    build_mini_net().validate().unwrap();
    HalfKAPsqtNet::zeros(3, 2, 2).validate().unwrap();
}

#[test]
fn validate_rejects_dim_mismatch() {
    let mut net = build_mini_net();
    net.ft_weights.push(0);
    let err = net.validate().expect_err("must reject");
    assert_eq!(err.kind(), ErrorKind::InvalidData);
    assert_eq!(
        err,
        NetError::BlockLength {
            block: NetBlock::FtWeights,
            want: 8,
            got: 9
        }
    );
    assert_eq!(err.message(""), "ft_weights: expected 8 elements, got 9");
}

#[test]
fn dimensions_that_no_file_can_have_are_still_compared() {
    let mut net = build_mini_net();
    net.num_features = usize::MAX;
    net.ft_out_dim = 1;
    net.l1_out_dim = 1;
    let got = net.ft_weights.len();
    let want = usize::MAX;
    let e = NetError::BlockLength {
        block: NetBlock::FtWeights,
        want,
        got,
    };
    assert_eq!(net.validate().unwrap_err(), e);
    assert_eq!(net.save_quantised(&[0; 64], 64, 64).unwrap_err(), e);
}

#[test]
fn quant_target_i16_round_trip_exact_within_range() {
    let buf = vec![0.5_f32, -0.5, 0.125, 0.0];
    let t = QuantTarget::I16(64);
    let bytes = t.quantise(&times(64.0, &buf)).unwrap();
    assert_eq!(bytes.len(), 4 * 2);
    assert_eq!(bytes[..4], [32, 0, 0xe0, 0xff]);
    assert_eq!(back(64.0, &t.dequantise(&bytes).unwrap()), buf);
}

#[test]
fn quant_target_i16_rejects_out_of_range() {
    let t = QuantTarget::I16(64);
    let err = t
        .quantise(&times(64.0, &[10000.0]))
        .expect_err("must reject");
    assert_eq!(err.kind(), ErrorKind::InvalidData);
    assert_eq!(
        err.message("10000"),
        "Failed quantisation from f32 to I16(64) for 10000"
    );
    assert_eq!(
        QuantTarget::I8(-3).quantise(&[0, 127, -128, 128]).unwrap_err(),
        NetError::OutOfRange {
            target: QuantTarget::I8(-3),
            index: 3
        }
    );
    assert!(QuantTarget::I32(1).quantise(&[0x8000_0000]).is_err());
    assert!(QuantTarget::I32(1).quantise(&[-0x8000_0000]).is_ok());
}

#[test]
fn quant_target_i8_round_trip() {
    let buf = vec![0.25_f32, -0.5, 0.125];
    let t = QuantTarget::I8(64);
    let bytes = t.quantise(&times(64.0, &buf)).unwrap();
    assert_eq!(bytes.len(), 3);
    assert_eq!(back(64.0, &t.dequantise(&bytes).unwrap()), buf);
}

#[test]
fn stored_bytes_come_back_from_the_weights() {
    let i8_bytes: Vec<u8> = (0..=255).collect();
    let i16_bytes: Vec<u8> = (0..=u16::MAX).flat_map(|v| v.to_le_bytes()).collect();
    for scale in [1_i16, 64, 127, 600] {
        for (t, bytes) in [
            (QuantTarget::I8(scale), &i8_bytes),
            (QuantTarget::I16(scale), &i16_bytes),
        ] {
            let stored = t.dequantise(bytes).unwrap();
            assert_eq!(&t.quantise(&stored).unwrap(), bytes);
            let weights = back(f32::from(scale), &stored);
            let again = times(f64::from(scale), &weights);
            assert_eq!(&t.quantise(&again).unwrap(), bytes);
        }
    }
}

#[test]
fn quant_target_i32_round_trip() {
    let buf = vec![1.0_f32, -1.0, 0.5, -0.5];
    let t = QuantTarget::I32(1024);
    let bytes = t.quantise(&times(1024.0, &buf)).unwrap();
    assert_eq!(bytes.len(), 4 * 4);
    assert_eq!(bytes[4..8], [0, 0xfc, 0xff, 0xff]);
    assert_eq!(back(1024.0, &t.dequantise(&bytes).unwrap()), buf);
    assert_eq!(QuantTarget::I8(1).elem_bytes(), 1);
    assert_eq!(QuantTarget::I16(1).elem_bytes(), 2);
    assert_eq!(QuantTarget::I32(1).elem_bytes(), 4);
}

#[test]
fn save_quantised_then_load_round_trips_mini_net() {
    let net = build_mini_net();
    let header = [9_u8; 22];
    let buf = net.save_quantised(&header, 64, 64).unwrap();
    assert_eq!(buf.len(), HEADER_BYTES + 8 * 2 + 2 * 2 + 4 + 4 + 4 * 4);
    assert_eq!(buf[..22], header);
    let read = HalfKAPsqtNet::load(&buf, 4, 2, 1).unwrap();
    same(&read, &net);
}

#[test]
fn save_quantised_with_non_default_qa_qb_round_trips() {
    let net = HalfKAPsqtNet {
        num_features: 2,
        ft_out_dim: 2,
        l1_out_dim: 1,
        ft_weights: times(16.0, &[0.5, -0.5, 0.25, 0.0]),
        ft_bias: vec![0, 0],
        l1_weights: vec![0, 0, 0, 0],
        l1_bias: vec![0],
        psqt: vec![0, 0],
    };
    let buf = net.save_quantised(&[0; 22], 16, 32).unwrap();
    let read = HalfKAPsqtNet::load(&buf, 2, 2, 1).unwrap();
    same(&read, &net);
    assert_eq!(target_of(NetBlock::FtWeights, 16, 32), QuantTarget::I16(16));
    assert_eq!(target_of(NetBlock::FtBias, 16, 32), QuantTarget::I16(16));
    assert_eq!(target_of(NetBlock::L1Weights, 16, 32), QuantTarget::I8(32));
    assert_eq!(target_of(NetBlock::L1Bias, 16, 32), QuantTarget::I32(512));
    assert_eq!(target_of(NetBlock::Psqt, 16, 32), QuantTarget::I32(512));
    assert_eq!(
        target_of(NetBlock::Psqt, i16::MIN, i16::MIN),
        QuantTarget::I32(1 << 30)
    );
}

#[test]
fn save_quantised_rejects_dim_mismatch() {
    let mut net = build_mini_net();
    net.psqt.pop();
    let err = net.save_quantised(&[0; 22], 64, 64).expect_err("must reject");
    assert_eq!(err.kind(), ErrorKind::InvalidData);
    assert!(err.message("").contains("psqt"));
    let mut net = build_mini_net();
    net.l1_weights[2] = 200;
    assert_eq!(
        net.save_quantised(&[0; 22], 64, 64).unwrap_err(),
        NetError::OutOfRange {
            target: QuantTarget::I8(64),
            index: 2
        }
    );
}

#[test]
fn num_features_const_matches_halfka_hm_dimensions() {
    assert_eq!(NUM_FEATURES, 73_305);
    assert_eq!(FT_OUT_DIM, 1536);
    assert_eq!(L1_OUT_DIM, 1);
}

#[test]
fn dequantise_rejects_unaligned_len() {
    let err = QuantTarget::I32(64)
        .dequantise(&[0, 0, 0])
        .expect_err("must reject");
    assert_eq!(err.kind(), ErrorKind::InvalidData);
    assert_eq!(
        err.message(""),
        "dequantise: bytes len 3 not multiple of 4"
    );
    let err = QuantTarget::I16(64)
        .dequantise(&[0, 0, 0])
        .expect_err("must reject");
    assert_eq!(err.kind(), ErrorKind::InvalidData);
}

#[test]
fn load_rejects_truncated_input() {
    let net = build_mini_net();
    let buf = net.save_quantised(&[0; 22], 64, 64).unwrap();
    for len in [0, HEADER_BYTES + 4, buf.len() - 1] {
        let err = HalfKAPsqtNet::load(&buf[..len], 4, 2, 1)
            .expect_err("must fail on truncated buffer");
        assert_eq!(err.kind(), ErrorKind::UnexpectedEof);
    }
    // Bytes behind the last block are left alone.
    let mut long = buf.clone();
    long.push(1);
    same(&HalfKAPsqtNet::load(&long, 4, 2, 1).unwrap(), &net);
}

#[test]
fn affine_reader_discards_padding_and_preserves_quantised_values() {
    let scale = 127 * 64;
    let mut input = Vec::new();
    input.extend_from_slice(&i32::to_le_bytes(scale));
    input.extend_from_slice(&i32::to_le_bytes(-scale));
    input.extend_from_slice(&[1, 2, 255]);
    input.extend(std::iter::repeat(77).take(29));
    input.extend_from_slice(&[254, 253, 252]);
    input.extend(std::iter::repeat(88).take(29));
    let layer = read_affine(&input, 0, 3, 2).unwrap();
    let biases: Vec<f32> = layer.biases.iter().map(|&b| b as f32 / scale as f32).collect();
    let weights: Vec<f32> = layer.weights.iter().map(|&w| f32::from(w) / 64.0).collect();
    assert_eq!(biases, vec![1.0, -1.0]);
    assert_eq!(
        weights,
        vec![
            1.0 / 64.0,
            2.0 / 64.0,
            -1.0 / 64.0,
            -2.0 / 64.0,
            -3.0 / 64.0,
            -4.0 / 64.0,
        ]
    );
    let e = read_affine(&input[..input.len() - 1], 0, 3, 2).unwrap_err();
    assert_eq!(e.kind, ErrorKind::UnexpectedEof);
    assert_eq!((pad32(0), pad32(1), pad32(32), pad32(33)), (0, 32, 32, 64));
}

#[test]
fn optional_bulletou_leb128_prefix_is_consumed() {
    assert_eq!(consume_optional_leb128_prefix(b"_COMPRESSED_LEB128", 0), 1);
    assert_eq!(consume_optional_leb128_prefix(b"COMPRESSED_LEB128", 0), 0);
    assert_eq!(consume_optional_leb128_prefix(b"", 0), 0);
}

#[test]
fn accepted_architectures_cover_both_network_names() {
    assert_ne!(YO_ARCH, YO_ARCH_V2);
    assert!(YO_ARCH.contains("Network=SFNN-1536{"));
    assert!(YO_ARCH_V2.contains("Network=SFNN-1536-V2{"));
    for arch in [YO_ARCH, YO_ARCH_V2] {
        assert!(check_arch(Ok(arch.to_string())).is_ok());
    }
    let e = check_arch(Ok("Other".to_string())).unwrap_err();
    assert_eq!(
        e.message,
        "unsupported YaneuraOu architecture: `Other`; expected SFNN-1536 or SFNN-1536-V2"
    );
    let e = check_arch(Err("bad".to_string())).unwrap_err();
    assert_eq!(e.message, "architecture string is not UTF-8: bad");
}

#[test]
fn trailing_input_is_rejected() {
    let error = reject_trailing_data(b"x", 0).unwrap_err();
    assert_eq!(error.kind, ErrorKind::InvalidData);
    reject_trailing_data(b"", 0).unwrap();
}

#[test]
fn kingrank9_requires_an_explicit_assertion() {
    let error = require_kingrank9_assertion(false).unwrap_err();
    assert_eq!(error.kind, ErrorKind::InvalidInput);
    assert!(error.message.contains("--assume-kingrank9"));
    require_kingrank9_assertion(true).unwrap();
}

fn header(arch: &[u8]) -> Vec<u8> {
    let mut file = Vec::new();
    file.extend_from_slice(&YO_VERSION.to_le_bytes());
    file.extend_from_slice(&YO_TOP_HASH.to_le_bytes());
    file.extend_from_slice(&(arch.len() as u32).to_le_bytes());
    file.extend_from_slice(arch);
    file.extend_from_slice(&YO_FT_HASH.to_le_bytes());
    file
}

#[test]
fn yo_headers_are_checked_word_by_word() {
    for arch in [YO_ARCH, YO_ARCH_V2] {
        let mut file = header(arch.as_bytes());
        let end = file.len();
        assert_eq!(read_yo_header(&file).unwrap(), end);
        file.push(b'_');
        assert_eq!(read_yo_header(&file).unwrap(), end + 1);
    }
    let good = header(YO_ARCH.as_bytes());
    let mut bad = good.clone();
    bad[0] ^= 1;
    assert_eq!(
        read_yo_header(&bad).unwrap_err().message,
        "version mismatch: expected 0x7af32f16, got 0x7af32f17"
    );
    let mut bad = good.clone();
    bad[4] ^= 1;
    assert!(read_yo_header(&bad)
        .unwrap_err()
        .message
        .starts_with("top-level hash mismatch"));
    let e = read_yo_header(&header(&[])).unwrap_err();
    assert_eq!(e.message, "invalid architecture string length: 0");
    let e = read_yo_header(&header(&[b'a'; 16385])).unwrap_err();
    assert_eq!(e.message, "invalid architecture string length: 16385");
    let e = read_yo_header(&header(&[0xff, b'a'])).unwrap_err();
    assert_eq!(e.kind, ErrorKind::InvalidData);
    assert_eq!(
        e.message,
        format!(
            "architecture string is not UTF-8: {}",
            std::str::from_utf8(&[0xff, b'a']).unwrap_err()
        )
    );
    let e = read_yo_header(&header("\u{3042}".as_bytes())).unwrap_err();
    assert!(e.message.contains("`\u{3042}`"));
    let mut bad = good.clone();
    let n = bad.len();
    bad[n - 1] ^= 1;
    assert!(read_yo_header(&bad)
        .unwrap_err()
        .message
        .starts_with("feature-transformer hash mismatch"));
    for len in [0, 3, 7, 11, 20, n - 1] {
        let e = read_yo_header(&good[..len]).unwrap_err();
        assert_eq!(e.kind, ErrorKind::UnexpectedEof, "length {len}");
    }
}

#[test]
fn yo_stacks_are_read_in_order() {
    let mut file = vec![1, 2, 3];
    for b in 0..9_u8 {
        file.extend_from_slice(&YO_NETWORK_HASH.to_le_bytes());
        for o in 0..16_i32 {
            file.extend_from_slice(&(i32::from(b) * 100 + o).to_le_bytes());
        }
        for o in 0..16_u8 {
            file.extend(std::iter::repeat(o + b).take(1536));
        }
        for o in 0..32_i32 {
            file.extend_from_slice(&(-o).to_le_bytes());
        }
        for o in 0..32_u8 {
            file.extend(std::iter::repeat(o).take(30));
            file.extend_from_slice(&[99, 99]);
        }
        file.extend_from_slice(&i32::from(b).to_le_bytes());
        file.extend(std::iter::repeat(0xff - b).take(32));
    }
    let (stacks, end) = read_yo_stacks(&file, 3).unwrap();
    assert_eq!(end, file.len());
    assert_eq!(end, 3 + 9 * STACK_BYTES);
    reject_trailing_data(&file, end).unwrap();
    assert_eq!(stacks.l1_b.len(), 9 * 16);
    assert_eq!(stacks.l1_b[8 * 16 + 5], 805);
    assert_eq!(stacks.l1_w.len(), 9 * 16 * 1536);
    assert_eq!(stacks.l1_w[(2 * 16 + 3) * 1536 + 1535], 5);
    assert_eq!(stacks.l2_b[4 * 32 + 31], -31);
    assert_eq!(stacks.l2_w.len(), 9 * 32 * 30);
    assert!(!stacks.l2_w.contains(&99));
    assert_eq!(stacks.l2_w[(7 * 32 + 6) * 30], 6);
    assert_eq!(stacks.l3_b, (0..9).collect::<Vec<i32>>());
    assert_eq!(stacks.l3_w[3 * 32], -4);
    let e = read_yo_stacks(&file[..end - 1], 3).unwrap_err();
    assert_eq!(e.kind, ErrorKind::UnexpectedEof);
    let mut bad = file.clone();
    bad[3 + 4 * STACK_BYTES] ^= 1;
    let e = read_yo_stacks(&bad, 3).unwrap_err();
    assert!(e.message.starts_with("LayerStack hash mismatch"));
}

#[test]
fn words_are_little_endian() {
    let bytes = [0x78, 0x56, 0x34, 0xf2];
    assert_eq!(read_u32(&bytes, 0).unwrap(), 0xf234_5678);
    assert_eq!(read_i32(&bytes, 0).unwrap(), 0xf234_5678_u32 as i32);
    assert_eq!(
        read_u32(&bytes, 1).unwrap_err().kind,
        ErrorKind::UnexpectedEof
    );
    assert_eq!(
        read_i32(&bytes, usize::MAX).unwrap_err().kind,
        ErrorKind::UnexpectedEof
    );
    expect_u32(&bytes, 0, 0xf234_5678, "word").unwrap();
    assert_eq!(
        expect_u32(&bytes, 0, 1, "word").unwrap_err().message,
        "word mismatch: expected 0x00000001, got 0xf2345678"
    );
}
