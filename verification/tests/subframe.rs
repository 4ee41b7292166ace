use flac_encoder::flac::subframe::{all_samples_equal, count_wasted_bits, shift_samples};
use flac_encoder::flac::FlacSubframe;

fn ietf_block() -> Vec<i64> {
    vec![
        4302, 7496, 6199, 7427, 6484, 7436, 6740, 7508, 6984, 7583, 7182, -5990, -6306, -6032,
        -6299, -6165,
    ]
}

fn ietf_second_block() -> Vec<i64> {
    vec![
        0, 79, 111, 78, 8, -61, -90, -68, -13, 42, 67, 53, 13, -27, -46, -38, -12, 14, 24, 19, 6,
        -4, -5, 0,
    ]
}

#[test]
fn wasted_bits_are_the_shared_low_zeros() {
    assert_eq!(count_wasted_bits(&vec![25588]), 2);
    assert_eq!(count_wasted_bits(&vec![10416]), 4);
    assert_eq!(count_wasted_bits(&vec![8, 16, -24, 0]), 3);
    assert_eq!(count_wasted_bits(&vec![8, 16, -24, 1]), 0);
    assert_eq!(count_wasted_bits(&vec![0, 0, 0]), 0);
    assert_eq!(count_wasted_bits(&vec![]), 0);
    assert_eq!(count_wasted_bits(&vec![i64::MIN]), 63);
    let subframe = FlacSubframe::new_verbatim(16);
    assert_eq!(subframe.get_wasted_shift(&vec![-64, 192]), 6);
}

#[test]
fn shifting_drops_the_low_bits() {
    assert_eq!(shift_samples(&vec![8, 16, -24, 0], 3), vec![1, 2, -3, 0]);
    assert_eq!(shift_samples(&vec![5, -5], 1), vec![2, -3]);
    assert_eq!(shift_samples(&vec![5, -5], 0), vec![5, -5]);
}

#[test]
fn all_samples_equal_compares_with_the_value() {
    assert!(all_samples_equal(&vec![7, 7, 7], 7));
    assert!(!all_samples_equal(&vec![7, 7, 8], 7));
    assert!(!all_samples_equal(&vec![7, 7, 7], 8));
    assert!(all_samples_equal(&vec![], 3));
}

#[test]
fn verbatim_subframes_of_single_samples() {
    // the two subframes of a frame of one sample in two channels
    let subframe = FlacSubframe::new_verbatim(16);
    assert_eq!(subframe.build_bytes(&vec![25588]), (vec![0x03, 0x58, 0xfd], 0));
    assert_eq!(subframe.build_bytes(&vec![10416]), (vec![0x03, 0x12, 0x8b], 0));
    assert_eq!(subframe.build_header_bytes(&vec![25588]), (vec![0x03, 0x40], 6));
}

#[test]
fn verbatim_subframe_of_negative_samples() {
    let subframe = FlacSubframe::new_verbatim(8);
    assert_eq!(
        subframe.build_bytes(&vec![-8, 16, -24, 0]),
        (vec![0x03, 0x3f, 0x17, 0x40], 1)
    );
}

#[test]
fn constant_subframes() {
    let subframe = FlacSubframe::new_constant(16, 25588);
    assert_eq!(subframe.build_bytes(&vec![25588]), (vec![0x01, 0x58, 0xfd], 0));
    let silence = FlacSubframe::new_constant(16, 0);
    assert_eq!(silence.build_bytes(&vec![0, 0, 0]), (vec![0x00, 0x00, 0x00], 0));
    assert_eq!(silence.build_header_bytes(&vec![0, 0, 0]), (vec![0x00], 0));
    assert!(silence.can_encode(&vec![0, 0, 0]));
    assert!(!silence.can_encode(&vec![0, 1, 0]));
}

#[test]
fn constant_subframe_of_other_samples_is_stored_verbatim() {
    let subframe = FlacSubframe::new_constant(8, -8);
    assert_eq!(
        subframe.build_bytes(&vec![-8, 16, -24, 0]),
        (vec![0x03, 0x3f, 0x17, 0x40], 1)
    );
    assert_eq!(subframe.code_of(&vec![-8, 16, -24, 0]), 1);
    assert_eq!(subframe.code_of(&vec![-8, -8]), 0);
}

#[test]
fn fixed_subframe_of_order_one() {
    let subframe = FlacSubframe::new_fixed_by_order(16, 1);
    let (bytes, unused) = subframe.build_bytes(&ietf_block());
    assert_eq!(
        bytes,
        vec![
            0x12, 0x10, 0xce, 0x02, 0xc4, 0x7a, 0x28, 0x85, 0x33, 0x1e, 0xbb, 0xee, 0x1a, 0xdf,
            0xc0, 0x18, 0x2f, 0x95, 0xd6, 0x42, 0x00, 0x1d, 0xcf, 0x4e, 0xf4, 0x49, 0x42, 0xb2,
            0x18
        ]
    );
    assert_eq!(unused, 1);
    assert_eq!(subframe.bit_len(&ietf_block()), 231);
    assert_eq!(subframe.code_of(&ietf_block()), 9);
}

#[test]
fn fixed_subframe_with_wasted_bits() {
    let samples: Vec<i64> = vec![1, 4, 9, 16, 25, 36, 49, 64].iter().map(|s| s * 4).collect();
    let subframe = FlacSubframe::new_fixed_by_order(12, 2);
    assert_eq!(
        subframe.build_bytes(&samples),
        (vec![0x15, 0x40, 0x10, 0x10, 0x01, 0x22, 0x22, 0x22], 0)
    );
}

#[test]
fn fixed_subframe_of_too_high_an_order_is_stored_verbatim() {
    let samples = vec![-8, 16, -24, 0];
    for order in [4u8, 5, 200] {
        let subframe = FlacSubframe::new_fixed_by_order(8, order);
        assert!(!subframe.can_encode(&samples));
        assert_eq!(subframe.build_bytes(&samples), (vec![0x03, 0x3f, 0x17, 0x40], 1));
        assert!(subframe.get_encoded_residuals(&samples).is_none());
    }
    assert!(FlacSubframe::new_fixed_by_order(8, 3).can_encode(&samples));
}

#[test]
fn linear_subframe() {
    let subframe = FlacSubframe::new_variable_by_order(8, 3, vec![7, -6, 2], 4, 2);
    let (bytes, unused) = subframe.build_bytes(&ietf_second_block());
    assert_eq!(
        bytes,
        vec![
            0x44, 0x00, 0x4f, 0x6f, 0x31, 0x3d, 0x10, 0x27, 0xd2, 0x24, 0xb5, 0xe1, 0x04, 0x30,
            0x63, 0x0c, 0x7a, 0x41, 0x11, 0x14
        ]
    );
    assert_eq!(unused, 1);
    assert_eq!(subframe.code_of(&ietf_second_block()), 34);
}

#[test]
fn linear_subframe_whose_coefficients_do_not_fit_is_stored_verbatim() {
    let samples = ietf_second_block();
    let verbatim = FlacSubframe::new_verbatim(8).build_bytes(&samples);
    // 7 does not fit three bits
    let narrow = FlacSubframe::new_variable_by_order(8, 3, vec![7, -6, 2], 3, 2);
    assert!(!narrow.can_encode(&samples));
    assert_eq!(narrow.build_bytes(&samples), verbatim);
    // -8 is the least number of four bits, 8 is one too many
    assert!(FlacSubframe::new_variable_by_order(8, 3, vec![-8, 7, 0], 4, 2).can_encode(&samples));
    assert!(!FlacSubframe::new_variable_by_order(8, 3, vec![8, 7, 0], 4, 2).can_encode(&samples));
    // the stated order is the number of coefficients
    assert!(!FlacSubframe::new_variable_by_order(8, 2, vec![7, -6, 2], 4, 2).can_encode(&samples));
    // precision 1 to 15, shift up to 30, order 1 to 32 and below the block
    assert!(!FlacSubframe::new_variable_by_order(8, 3, vec![0, 0, 0], 0, 2).can_encode(&samples));
    assert!(!FlacSubframe::new_variable_by_order(8, 3, vec![0, 0, 0], 16, 2).can_encode(&samples));
    assert!(FlacSubframe::new_variable_by_order(8, 3, vec![0, 0, 0], 15, 30).can_encode(&samples));
    assert!(!FlacSubframe::new_variable_by_order(8, 3, vec![0, 0, 0], 15, 31).can_encode(&samples));
    assert!(!FlacSubframe::new_variable_by_order(8, 0, vec![], 4, 2).can_encode(&samples));
    assert!(!FlacSubframe::new_variable_by_order(8, 33, vec![0; 33], 4, 2).can_encode(&samples));
    assert!(!FlacSubframe::new_variable_by_order(8, 24, vec![0; 24], 4, 2).can_encode(&samples));
    assert!(FlacSubframe::new_variable_by_order(8, 23, vec![0; 23], 4, 2).can_encode(&samples));
}

#[test]
fn encoded_residuals_of_a_fixed_subframe() {
    let subframe = FlacSubframe::new_fixed_by_order(16, 1);
    let (streams, order) = subframe.get_encoded_residuals(&ietf_block()).unwrap();
    assert_eq!(order, 0);
    assert_eq!(streams.len(), 1);
    assert_eq!(streams[0].param, 11);
    assert_eq!(
        streams[0].stream,
        vec![
            0x11, 0xe8, 0xa2, 0x14, 0xcc, 0x7a, 0xef, 0xb8, 0x6b, 0x7f, 0x00, 0x60, 0xbe, 0x57,
            0x59, 0x08, 0x00, 0x77, 0x3d, 0x3b, 0xd1, 0x25, 0x0a, 0xc8, 0x60
        ]
    );
    assert_eq!(streams[0].extra_bits_len, 3);
}

#[test]
fn encoded_residuals_of_a_linear_subframe() {
    let subframe = FlacSubframe::new_variable_by_order(8, 3, vec![7, -6, 2], 4, 2);
    let (streams, order) = subframe.get_encoded_residuals(&ietf_second_block()).unwrap();
    assert_eq!(order, 1);
    assert_eq!(streams.len(), 2);
    assert_eq!(streams[0].param, 3);
    assert_eq!(streams[0].stream, vec![0xe9, 0x12, 0x5a, 0xf0, 0x82, 0x18]);
    assert_eq!(streams[0].extra_bits_len, 1);
    assert_eq!(streams[1].param, 1);
    assert_eq!(streams[1].stream, vec![0x8c, 0x31, 0xe9, 0x04, 0x44, 0x50]);
    assert_eq!(streams[1].extra_bits_len, 3);
}

#[test]
fn subframes_without_residuals_encode_none() {
    let samples = vec![5, 5, 5, 5];
    assert!(FlacSubframe::new_constant(8, 5).get_encoded_residuals(&samples).is_none());
    assert!(FlacSubframe::new_verbatim(8).get_encoded_residuals(&samples).is_none());
}

#[test]
fn new_fixed_takes_the_best_order() {
    let best = FlacSubframe::new_fixed(16, &ietf_block()).unwrap();
    assert_eq!(best.code_of(&ietf_block()), 9);
    let best = FlacSubframe::new_fixed(8, &ietf_second_block()).unwrap();
    assert_eq!(best.code_of(&ietf_second_block()), 12);
    // a block that its best order uses up has no fixed subframe
    assert!(FlacSubframe::new_fixed(8, &vec![3, 1, 2]).is_none());
    assert!(FlacSubframe::new_fixed(8, &vec![3]).is_none());
    // silence is best left to order 0
    let best = FlacSubframe::new_fixed(8, &vec![0, 0, 0]).unwrap();
    assert_eq!(best.code_of(&vec![0, 0, 0]), 8);
}

#[test]
fn new_variable_takes_the_best_candidate() {
    let samples = ietf_second_block();
    let candidates = vec![
        (vec![1], 2u8, 0u8),
        (vec![9, 9, 9], 4u8, 0u8),
        (vec![7, -6, 2], 4u8, 2u8),
        (vec![7, -6, 2], 5u8, 2u8),
    ];
    let best = FlacSubframe::new_variable(8, &samples, &candidates).unwrap();
    assert_eq!(
        best.build_bytes(&samples),
        FlacSubframe::new_variable_by_order(8, 3, vec![7, -6, 2], 4, 2).build_bytes(&samples)
    );
    assert!(FlacSubframe::new_variable(8, &samples, &vec![]).is_none());
    assert!(FlacSubframe::new_variable(8, &samples, &vec![(vec![9], 4u8, 0u8)]).is_none());
}

#[test]
fn new_best_takes_the_fewest_bits() {
    let samples = ietf_second_block();
    let none: Vec<(Vec<i64>, u8, u8)> = vec![];
    // without candidates: the fixed predictor of order 4, in 174 bits
    let best = FlacSubframe::new_best(8, &samples, &none);
    assert_eq!(best.code_of(&samples), 12);
    assert_eq!(best.bit_len(&samples), 174);
    // with the predictor of the example: 159 bits
    let best = FlacSubframe::new_best(8, &samples, &vec![(vec![7, -6, 2], 4u8, 2u8)]);
    assert_eq!(best.code_of(&samples), 34);
    assert_eq!(best.bit_len(&samples), 159);
    // a poor predictor loses to the fixed one
    let best = FlacSubframe::new_best(8, &samples, &vec![(vec![-7, 7], 4u8, 0u8)]);
    assert_eq!(best.code_of(&samples), 12);
    // a constant block, and silence
    assert_eq!(FlacSubframe::new_best(8, &vec![5; 64], &none).code_of(&vec![5; 64]), 0);
    assert_eq!(FlacSubframe::new_best(8, &vec![0; 64], &none).code_of(&vec![0; 64]), 0);
    // one sample is a constant block
    assert_eq!(FlacSubframe::new_best(16, &vec![25588], &none).code_of(&vec![25588]), 0);
    // noise of full scale: nothing beats verbatim
    let noise = vec![127, -128, 100, -90, 127, -128, -128, 127, 3, -100, 99, -128, 127, 0, -1, 88];
    assert_eq!(FlacSubframe::new_best(8, &noise, &none).code_of(&noise), 1);
}

#[test]
fn flat_blocks_are_constant_whatever_the_bits() {
    let none: Vec<(Vec<i64>, u8, u8)> = vec![];
    // one silent sample: the fixed predictor of order 0 would take 19 bits,
    // the constant takes 24, and the constant it is
    let silent = vec![0i64];
    assert_eq!(FlacSubframe::new_fixed_by_order(16, 0).bit_len(&silent), 19);
    assert_eq!(FlacSubframe::new_constant(16, 0).bit_len(&silent), 24);
    let best = FlacSubframe::new_best(16, &silent, &none);
    assert_eq!(best.code_of(&silent), 0);
    assert_eq!(best.build_bytes(&silent), (vec![0x00, 0x00, 0x00], 0));
    // short silence at every depth, and short blocks of one value
    for depth in [8u8, 16, 24, 32] {
        for len in 1usize..=20 {
            let silence = vec![0i64; len];
            assert_eq!(FlacSubframe::new_best(depth, &silence, &none).code_of(&silence), 0);
            let flat = vec![-3i64; len];
            assert_eq!(FlacSubframe::new_best(depth, &flat, &none).code_of(&flat), 0);
        }
    }
    // a predictor that leaves nothing of silence does not win either
    let candidates = vec![(vec![1], 2u8, 0u8)];
    let silence = vec![0i64; 3];
    assert_eq!(FlacSubframe::new_best(32, &silence, &candidates).code_of(&silence), 0);
    // one sample that differs, and the bits decide again
    let nearly = vec![0i64, 0, 1];
    assert_ne!(FlacSubframe::new_best(16, &nearly, &none).code_of(&nearly), 0);
}
