use flac_encoder::flac::encoder::rice::{RiceEncoder, RiceEncoderOptions};

#[test]
fn test_encode() {
    // Test case 1
    let encoded_value = RiceEncoder::encode(18, 16);
    assert_eq!(encoded_value, "010010".to_string());

    // Add more test cases as needed
}

#[test]
fn encode_sample_ietf_02() {
    let in_vec = vec![
        3194, -1297, 1228, -943,
        952, -696, 768, -524,
        599, -401, -13172, -316,
        274, -267, 134,
    ];

    let out_vec_ans = vec![
        0x11, 0xe8, 0xa2, 0x14,
        0xcc, 0x7a, 0xef, 0xb8,
        0x6b, 0x7f, 0x00, 0x60,
        0xbe, 0x57, 0x59, 0x08,
        0x00, 0x77, 0x3d, 0x3b,
        0xd1, 0x25, 0x0a, 0xc8,
        0x60,
    ];

    let rice_enc_stream = RiceEncoderOptions::encode(11, &in_vec);

    assert_eq!(rice_enc_stream.stream, out_vec_ans);
    assert_eq!(rice_enc_stream.extra_bits_len, 3);
}

#[test]
fn encode_sample_ietf_03() {
    let in_vec = vec![
        3, -1, -13,
    ];

    let out_vec_ans = vec![
        0xe9, 0x12,
    ];

    let rice_enc_stream = RiceEncoderOptions::encode(3, &in_vec);

    assert_eq!(rice_enc_stream.stream, out_vec_ans);
    assert_eq!(rice_enc_stream.extra_bits_len, 1);
}

#[test]
fn text_code_with_modulus_one_is_all_quotient() {
    assert_eq!(RiceEncoder::encode(3, 1), "0001".to_string());
    assert_eq!(RiceEncoder::encode(0, 1), "1".to_string());
}

#[test]
fn text_code_pads_the_remainder() {
    assert_eq!(RiceEncoder::encode(0, 8), "1000".to_string());
    assert_eq!(RiceEncoder::encode(9, 8), "01001".to_string());
}

#[test]
fn zigzag_folds_signs_into_parity() {
    assert_eq!(RiceEncoderOptions::zigzag(0), 0);
    assert_eq!(RiceEncoderOptions::zigzag(-1), 1);
    assert_eq!(RiceEncoderOptions::zigzag(1), 2);
    assert_eq!(RiceEncoderOptions::zigzag(-2), 3);
    assert_eq!(RiceEncoderOptions::zigzag(-13), 25);
    assert_eq!(RiceEncoderOptions::zigzag(i64::MAX), u64::MAX - 1);
    assert_eq!(RiceEncoderOptions::zigzag(i64::MIN), u64::MAX);
}

#[test]
fn unzigzag_undoes_zigzag() {
    for r in [0i64, 1, -1, 2, -2, 3194, -13172, i64::MAX, i64::MIN] {
        assert_eq!(RiceEncoderOptions::unzigzag(RiceEncoderOptions::zigzag(r)), r);
    }
}

#[test]
fn encode_of_nothing_is_empty() {
    let none: Vec<i64> = Vec::new();
    let encoded = RiceEncoderOptions::encode(5, &none);
    assert!(encoded.stream.is_empty());
    assert_eq!(encoded.extra_bits_len, 0);
    assert_eq!(encoded.param, 5);
}

#[test]
fn encode_with_parameter_zero_is_unary() {
    // zigzag images 4 and 1: 00001 then 01
    let encoded = RiceEncoderOptions::encode(0, &vec![2, -1]);
    assert_eq!(encoded.stream, vec![0b0000_1010]);
    assert_eq!(encoded.extra_bits_len, 1);
}
