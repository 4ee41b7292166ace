use flac_encoder::flac::lpc::var::VarPredictor;

#[test]
fn sample_ietf_02() {
    let in_vec = vec![
        0, 79, 111, 78,
        8, -61, -90, -68,
        -13, 42, 67, 53,
        13, -27, -46, -38,
        -12, 14, 24, 19,
        6, -4, -5, 0,
    ];

    let out_vec_ans = vec![
        3, -1, -13, -10,
        -6, 2, 8, 8,
        6, 0, -3, -5,
        -4, -1, 1, 1,
        4, 2, 2, 2,
        0,
    ];

    let out_vec = VarPredictor::get_residuals(&in_vec, &vec![7, -6, 2], 3, 2);

    assert_eq!(out_vec_ans, out_vec);
}

#[test]
fn lpc_residuals_shift_rounds_down() {
    // prediction of the second sample: (3 * -1) >> 1 = -2, not -1
    let out = VarPredictor::get_residuals(&vec![-1, 0], &vec![3], 1, 1);
    assert_eq!(out, vec![2]);
}

#[test]
fn lpc_residuals_of_short_blocks_are_empty() {
    let none: Vec<i64> = Vec::new();
    assert_eq!(VarPredictor::get_residuals(&vec![1, 2], &vec![1, 1, 1], 3, 0), none);
    assert_eq!(VarPredictor::get_residuals(&vec![1, 2, 3], &vec![1, 1, 1], 3, 0), none);
}

#[test]
fn lpc_residuals_use_the_first_coefficients_only() {
    let out = VarPredictor::get_residuals(&vec![10, 20, 30], &vec![1, 100], 1, 0);
    assert_eq!(out, vec![10, 10]);
}

#[test]
fn best_precision_follows_the_table() {
    assert_eq!(VarPredictor::get_best_precision(8, 4096), 6);
    assert_eq!(VarPredictor::get_best_precision(4, 16), 4);
    assert_eq!(VarPredictor::get_best_precision(15, 192), 9);
    assert_eq!(VarPredictor::get_best_precision(16, 192), 7);
    assert_eq!(VarPredictor::get_best_precision(16, 384), 8);
    assert_eq!(VarPredictor::get_best_precision(16, 576), 9);
    assert_eq!(VarPredictor::get_best_precision(16, 1152), 10);
    assert_eq!(VarPredictor::get_best_precision(16, 2304), 11);
    assert_eq!(VarPredictor::get_best_precision(16, 4608), 12);
    assert_eq!(VarPredictor::get_best_precision(16, 4096), 13);
    assert_eq!(VarPredictor::get_best_precision(24, 384), 12);
    assert_eq!(VarPredictor::get_best_precision(24, 1152), 13);
    assert_eq!(VarPredictor::get_best_precision(24, 4096), 14);
    assert_eq!(VarPredictor::get_best_precision(32, 65535), 14);
}
