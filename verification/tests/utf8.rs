use flac_encoder::flac::encoder::utf8::Utf8Encoder;

#[test]
fn sample_01() {
    let in_val = 0;
    let out_val_ans = vec![0u8];
    let out_val = Utf8Encoder::encode(in_val);

    assert_eq!(out_val_ans, out_val);
}

#[test]
fn sample_02() {
    let in_val = 0x164;
    let out_val_ans = vec![0xc5u8, 0xa4u8];
    let out_val = Utf8Encoder::encode(in_val);

    assert_eq!(out_val_ans, out_val);
}

#[test]
fn sample_03() {
    let in_val = 0x2153;
    let out_val_ans = vec![0xe2u8, 0x85u8, 0x93u8];
    let out_val = Utf8Encoder::encode(in_val);

    assert_eq!(out_val_ans, out_val);
}

#[test]
fn sample_04() {
    let in_val = 0x56789;
    let out_val_ans = vec![0xf1u8, 0x96u8, 0x9eu8, 0x89u8];
    let out_val = Utf8Encoder::encode(in_val);

    assert_eq!(out_val_ans, out_val);
}

#[test]
fn sample_05() {
    let in_val = 0x200209;
    let out_val_ans = vec![0xf8u8, 0x88u8, 0x80u8, 0x88u8, 0x89u8];
    let out_val = Utf8Encoder::encode(in_val);

    assert_eq!(out_val_ans, out_val);
}

#[test]
fn utf8_length_boundaries() {
    assert_eq!(Utf8Encoder::encode(0x7f), vec![0x7f]);
    assert_eq!(Utf8Encoder::encode(0x80), vec![0xc2, 0x80]);
    assert_eq!(Utf8Encoder::encode(0x7ff), vec![0xdf, 0xbf]);
    assert_eq!(Utf8Encoder::encode(0x800), vec![0xe0, 0xa0, 0x80]);
    assert_eq!(Utf8Encoder::encode(0xffff), vec![0xef, 0xbf, 0xbf]);
    assert_eq!(Utf8Encoder::encode(0x1_0000), vec![0xf0, 0x90, 0x80, 0x80]);
    assert_eq!(Utf8Encoder::encode(0x1f_ffff), vec![0xf7, 0xbf, 0xbf, 0xbf]);
    assert_eq!(Utf8Encoder::encode(0x20_0000), vec![0xf8, 0x88, 0x80, 0x80, 0x80]);
    assert_eq!(Utf8Encoder::encode(0x3ff_ffff), vec![0xfb, 0xbf, 0xbf, 0xbf, 0xbf]);
    assert_eq!(Utf8Encoder::encode(0x400_0000), vec![0xfc, 0x84, 0x80, 0x80, 0x80, 0x80]);
    assert_eq!(Utf8Encoder::encode(0x7fff_ffff), vec![0xfd, 0xbf, 0xbf, 0xbf, 0xbf, 0xbf]);
    assert_eq!(
        Utf8Encoder::encode(0x8000_0000),
        vec![0xfe, 0x82, 0x80, 0x80, 0x80, 0x80, 0x80]
    );
    assert_eq!(
        Utf8Encoder::encode(0xf_ffff_ffff),
        vec![0xfe, 0xbf, 0xbf, 0xbf, 0xbf, 0xbf, 0xbf]
    );
}

#[test]
fn utf8_decode_undoes_encode() {
    let mut n: u64 = 0;
    while n < 0x10_0000_0000 {
        assert_eq!(Utf8Encoder::decode(&Utf8Encoder::encode(n)), Some(n));
        n = n * 3 + 1;
    }
    for n in [0x7fu64, 0x80, 0x7ff, 0x800, 0xffff, 0x1_0000, 0xf_ffff_ffff] {
        assert_eq!(Utf8Encoder::decode(&Utf8Encoder::encode(n)), Some(n));
    }
}

#[test]
fn utf8_decode_refuses_what_is_no_code() {
    assert_eq!(Utf8Encoder::decode(&vec![]), None);
    assert_eq!(Utf8Encoder::decode(&vec![0x80]), None);
    assert_eq!(Utf8Encoder::decode(&vec![0xff]), None);
    assert_eq!(Utf8Encoder::decode(&vec![0xc5]), None);
    assert_eq!(Utf8Encoder::decode(&vec![0xc5, 0x24]), None);
    assert_eq!(Utf8Encoder::decode(&vec![0xc5, 0xc4]), None);
    assert_eq!(Utf8Encoder::decode(&vec![0x00, 0x80]), None);
}
