use flac_encoder::flac::lpc::fixed::FixedPredictor;

#[test]
fn sample_ietf_02a() {
    let in_vec = vec![
        4302, 7496, 6199, 7427,
        6484, 7436, 6740, 7508,
        6984, 7583, 7182, -5990,
        -6306, -6032, -6299, -6165,
    ];

    let out_vec_ans = vec![
        3194, -1297, 1228,
        -943, 952, -696, 768,
        -524, 599, -401, -13172,
        -316, 274, -267, 134,
    ];

    let ans = FixedPredictor::get_residuals(&in_vec, 1);

    assert!(ans.is_some());
    assert_eq!(ans.unwrap(), out_vec_ans);
}

#[test]
fn fixed_residuals_of_each_order() {
    let data = vec![1, 4, 9, 16, 25, 36, 50];
    assert_eq!(FixedPredictor::get_residuals(&data, 0), Some(data.clone()));
    assert_eq!(FixedPredictor::get_residuals(&data, 1), Some(vec![3, 5, 7, 9, 11, 14]));
    assert_eq!(FixedPredictor::get_residuals(&data, 2), Some(vec![2, 2, 2, 2, 3]));
    assert_eq!(FixedPredictor::get_residuals(&data, 3), Some(vec![0, 0, 0, 1]));
    assert_eq!(FixedPredictor::get_residuals(&data, 4), Some(vec![0, 0, 1]));
}

#[test]
fn fixed_residuals_length_is_block_less_order() {
    let data = vec![5, -3, 8, 0, 2, 2, 9, -7, 1];
    for order in 0u8..=4 {
        let residuals = FixedPredictor::get_residuals(&data, order).unwrap();
        assert_eq!(residuals.len(), data.len() - order as usize);
    }
}

#[test]
fn fixed_residuals_refuse_high_orders_and_short_blocks() {
    let data = vec![1, 2, 3];
    assert_eq!(FixedPredictor::get_residuals(&data, 5), None);
    assert_eq!(FixedPredictor::get_residuals(&data, 255), None);
    assert_eq!(FixedPredictor::get_residuals(&data, 4), None);
    assert_eq!(FixedPredictor::get_residuals(&data, 3), Some(vec![]));
    let empty: Vec<i64> = Vec::new();
    assert_eq!(FixedPredictor::get_residuals(&empty, 0), Some(vec![]));
    assert_eq!(FixedPredictor::get_residuals(&empty, 1), None);
}

#[test]
fn best_fixed_order_minimises_the_absolute_sum() {
    // a quadratic: order 3 leaves nothing, and so does order 4
    let quadratic = vec![1, 4, 9, 16, 25, 36, 49, 64];
    assert_eq!(FixedPredictor::best_predictor_order(&quadratic), Some(3));
    // a constant: order 1 already leaves nothing
    let constant = vec![7, 7, 7, 7, 7, 7];
    assert_eq!(FixedPredictor::best_predictor_order(&constant), Some(1));
    // silence: every order leaves nothing, the lowest wins
    let silence = vec![0, 0, 0, 0, 0, 0];
    assert_eq!(FixedPredictor::best_predictor_order(&silence), Some(0));
    // the sum is taken of absolute values: plain sums would cancel here
    let alternating = vec![5, -5, 5, -5, 5, -5, 5, -5];
    assert_eq!(FixedPredictor::best_predictor_order(&alternating), Some(0));
}

#[test]
fn best_fixed_order_of_short_blocks() {
    let empty: Vec<i64> = Vec::new();
    assert_eq!(FixedPredictor::best_predictor_order(&empty), Some(0));
    assert_eq!(FixedPredictor::best_predictor_order(&vec![0]), Some(0));
    assert_eq!(FixedPredictor::best_predictor_order(&vec![3]), Some(1));
}

#[test]
fn each_order_is_the_first_difference_of_the_order_below() {
    let data = vec![
        4302, 7496, 6199, 7427, 6484, 7436, 6740, 7508, 6984, 7583, 7182, -5990, -6306, -6032,
        -6299, -6165,
    ];
    for order in 0u8..4 {
        let below = FixedPredictor::get_residuals(&data, order).unwrap();
        let above = FixedPredictor::get_residuals(&data, order + 1);
        assert_eq!(FixedPredictor::get_residuals(&below, 1), above);
    }
    // also at the widest samples that the encoder meets
    let wide = vec![-0x1_0000_0000i64, 0xffff_ffff, -0x1_0000_0000, 0xffff_ffff, 0, 1];
    for order in 0u8..4 {
        let below = FixedPredictor::get_residuals(&wide, order).unwrap();
        let above = FixedPredictor::get_residuals(&wide, order + 1);
        assert_eq!(FixedPredictor::get_residuals(&below, 1), above);
    }
}

#[test]
fn fixed_residuals_of_the_widest_input() {
    let bound = 1i64 << 58;
    let data = vec![bound, -bound, bound, -bound, bound];
    assert_eq!(FixedPredictor::get_residuals(&data, 4), Some(vec![16 * bound]));
    assert_eq!(FixedPredictor::get_residuals(&data, 1), Some(vec![-2 * bound, 2 * bound, -2 * bound, 2 * bound]));
    assert_eq!(FixedPredictor::best_predictor_order(&data), Some(0));
}
