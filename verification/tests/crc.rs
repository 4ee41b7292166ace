use flac_encoder::flac::encoder::crc::{crc16_update, crc8_update, CrcOptions};

#[test]
fn sample_crc8_01() {
    let in_vec = vec![
        0x10,
    ];
    let ans = CrcOptions::new(0b0000_0111u8, 8)
        .build_crc8(&in_vec);

    assert_eq!(ans, 0x70);
}

#[test]
fn sample_crc8_ietf_01() {
    let in_vec = vec![
        0xff, 0xf8, 0x69, 0x18,
        0x00, 0x00,
    ];
    let ans = CrcOptions::new(0b0000_0111u8, 8)
        .build_crc8(&in_vec);

    assert_eq!(ans, 0xbf);
}

#[test]
fn sample_crc16_01() {
    let in_vec = vec![
        0x10, 0x00,
    ];
    let ans = CrcOptions::new(0b1000_0000_0000_0101u16, 16)
        .build_crc16(&in_vec);

    assert_eq!(ans, 0xe003);
}

#[test]
fn sample_crc16_ietf_01() {
    let in_vec = vec![
        0xff, 0xf8, 0x69, 0x18,
        0x00, 0x00, 0xbf, 0x03,
        0x58, 0xfd, 0x03, 0x12,
        0x8b,
    ];
    let ans = CrcOptions::new(0b1000_0000_0000_0101u16, 16)
        .build_crc16(&in_vec);

    assert_eq!(ans, 0xaa9a);
}

#[test]
fn crc8_of_nothing_is_the_seed() {
    let empty: Vec<u8> = Vec::new();
    assert_eq!(CrcOptions::new(0x07u8, 8).build_crc8(&empty), 0);
}

#[test]
fn crc16_of_nothing_is_the_seed() {
    let empty: Vec<u16> = Vec::new();
    assert_eq!(CrcOptions::new(0x8005u16, 16).build_crc16(&empty), 0);
}

#[test]
fn crc8_update_takes_one_byte() {
    assert_eq!(crc8_update(0x07, 0, 0x10), 0x70);
    assert_eq!(crc8_update(0x07, 0x70, 0x70), 0);
}

#[test]
fn crc16_update_enters_the_high_byte() {
    assert_eq!(crc16_update(0x8005, 0, 0x01), 0x8005);
    let first = crc16_update(0x8005, 0, 0x10);
    assert_eq!(crc16_update(0x8005, first, 0x00), 0xe003);
}

#[test]
fn crc8_of_data_and_its_crc_is_zero() {
    let mut data: Vec<u8> = vec![0xff, 0xf8, 0x69, 0x18, 0x00, 0x00];
    let options = CrcOptions::new(0x07u8, 8);
    let crc = options.build_crc8(&data);
    data.push(crc);
    assert_eq!(options.build_crc8(&data), 0);
}

#[test]
fn crc16_of_data_and_its_crc_is_zero() {
    let mut data: Vec<u16> = vec![0xff, 0xf8, 0x69, 0x18, 0x00, 0x00, 0xbf, 0x03];
    let options = CrcOptions::new(0x8005u16, 16);
    let crc = options.build_crc16(&data);
    data.push(crc >> 8);
    data.push(crc & 0xff);
    assert_eq!(options.build_crc16(&data), 0);
}
