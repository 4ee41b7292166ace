use flac_encoder::flac::encoder::crc::{crc16_of_bytes, crc8_of_bytes};
use flac_encoder::flac::{FlacFrame, FlacFrameHeaderValueOption, FlacSubframe};

fn frame_of(block_size: u16, rate: u64) -> FlacFrame {
    FlacFrame::new(
        block_size,
        FlacFrameHeaderValueOption::InFrame(rate),
        2,
        FlacFrameHeaderValueOption::InFrame(16),
        0,
    )
}

#[test]
fn header_of_a_frame_of_one_sample() {
    let frame = frame_of(1, 44100);
    assert_eq!(
        frame.build_header_bytes(),
        vec![0xff, 0xf8, 0x69, 0x18, 0x00, 0x00, 0xbf]
    );
}

#[test]
fn header_ends_in_its_crc8() {
    for (size, rate, index) in [(4096u16, 44100u64, 0u64), (1000, 12345, 77), (192, 96000, 1 << 30)] {
        let frame = FlacFrame::new(
            size,
            FlacFrameHeaderValueOption::InFrame(rate),
            1,
            FlacFrameHeaderValueOption::InFrame(24),
            index,
        );
        let header = frame.build_header_bytes();
        let fields = header[..header.len() - 1].to_vec();
        assert_eq!(crc8_of_bytes(0x07, &fields), header[header.len() - 1]);
    }
}

#[test]
fn block_size_types() {
    let cases: Vec<(u16, u8)> = vec![
        (192, 1),
        (576, 2),
        (1152, 3),
        (2304, 4),
        (4608, 5),
        (256, 8),
        (512, 9),
        (1024, 10),
        (2048, 11),
        (4096, 12),
        (8192, 13),
        (16384, 14),
        (32768, 15),
        (1, 6),
        (16, 6),
        (255, 6),
        (257, 7),
        (4097, 7),
        (65535, 7),
    ];
    for (size, code) in cases {
        assert_eq!(frame_of(size, 44100).block_size_type(), code);
    }
}

#[test]
fn block_size_is_spelled_out_less_one() {
    // sixteen samples: code 6, then 15 in eight bits
    let header = frame_of(16, 44100).build_header_bytes();
    assert_eq!(header[..6], [0xff, 0xf8, 0x69, 0x18, 0x00, 0x0f]);
    // 65535 samples: code 7, then 65534 in sixteen bits
    let header = frame_of(65535, 44100).build_header_bytes();
    assert_eq!(header[..7], [0xff, 0xf8, 0x79, 0x18, 0x00, 0xff, 0xfe]);
    // 4096 samples: code 12, nothing spelled out
    let header = frame_of(4096, 44100).build_header_bytes();
    assert_eq!(header.len(), 6);
    assert_eq!(header[..5], [0xff, 0xf8, 0xc9, 0x18, 0x00]);
}

#[test]
fn sample_rate_types() {
    let cases: Vec<(u64, u8)> = vec![
        (88200, 1),
        (176400, 2),
        (192000, 3),
        (8000, 4),
        (16000, 5),
        (22050, 6),
        (24000, 7),
        (32000, 8),
        (44100, 9),
        (48000, 10),
        (96000, 11),
        (1000, 12),
        (255000, 12),
        (0, 12),
        (256000, 14),
        (11025, 13),
        (65535, 13),
        (65536, 15),
        (65540, 14),
        (655350, 14),
        (655360, 15),
        (100001, 15),
    ];
    for (rate, code) in cases {
        assert_eq!(frame_of(4096, rate).sample_rate_type(), code);
    }
    let left = FlacFrame::new(
        4096,
        FlacFrameHeaderValueOption::Streaminfo(44100),
        2,
        FlacFrameHeaderValueOption::Streaminfo(16),
        0,
    );
    assert_eq!(left.sample_rate_type(), 0);
    assert_eq!(left.bit_depth_type(), 0);
    assert_eq!(left.build_header_bytes()[..5], [0xff, 0xf8, 0xc0, 0x10, 0x00]);
}

#[test]
fn sample_rate_is_spelled_out() {
    let header = frame_of(4096, 7000).build_header_bytes();
    assert_eq!(header[..6], [0xff, 0xf8, 0xcc, 0x18, 0x00, 7]);
    let header = frame_of(4096, 11025).build_header_bytes();
    assert_eq!(header[..7], [0xff, 0xf8, 0xcd, 0x18, 0x00, 0x2b, 0x11]);
    let header = frame_of(4096, 352800).build_header_bytes();
    assert_eq!(header[..7], [0xff, 0xf8, 0xce, 0x18, 0x00, 0x89, 0xd0]);
    // both spelled out: the block size comes first
    let header = frame_of(100, 11025).build_header_bytes();
    assert_eq!(header[..8], [0xff, 0xf8, 0x6d, 0x18, 0x00, 99, 0x2b, 0x11]);
}

#[test]
fn bit_depth_types() {
    let cases: Vec<(u8, u8)> = vec![(8, 1), (12, 2), (16, 4), (20, 5), (24, 6), (32, 7), (4, 3), (17, 3)];
    for (depth, code) in cases {
        let frame = FlacFrame::new(
            4096,
            FlacFrameHeaderValueOption::InFrame(44100),
            2,
            FlacFrameHeaderValueOption::InFrame(depth),
            0,
        );
        assert_eq!(frame.bit_depth_type(), code);
    }
}

#[test]
fn value_is_the_value_wherever_it_is_stored() {
    assert_eq!(*FlacFrameHeaderValueOption::Streaminfo(7u8).value(), 7);
    assert_eq!(*FlacFrameHeaderValueOption::InFrame(9u64).value(), 9);
}

#[test]
fn frame_number_is_coded_in_the_header() {
    let frame = FlacFrame::new(
        4096,
        FlacFrameHeaderValueOption::InFrame(44100),
        2,
        FlacFrameHeaderValueOption::InFrame(16),
        0x2153,
    );
    let header = frame.build_header_bytes();
    assert_eq!(header[4..7], [0xe2, 0x85, 0x93]);
    assert_eq!(header.len(), 8);
}

#[test]
fn validity_of_frames() {
    assert!(frame_of(4096, 44100).is_valid());
    assert!(!frame_of(0, 44100).is_valid());
    assert!(!frame_of(4096, 100001).is_valid());
    let depth = |bits: u8, channels: u8, index: u64| {
        FlacFrame::new(
            4096,
            FlacFrameHeaderValueOption::InFrame(44100),
            channels,
            FlacFrameHeaderValueOption::InFrame(bits),
            index,
        )
    };
    assert!(depth(8, 1, 0).is_valid());
    assert!(depth(32, 8, 0xf_ffff_ffff).is_valid());
    assert!(!depth(32, 8, 0x10_0000_0000).is_valid());
    assert!(!depth(17, 2, 0).is_valid());
    assert!(!depth(16, 0, 0).is_valid());
    assert!(!depth(16, 9, 0).is_valid());
    let left = |bits: u8| {
        FlacFrame::new(
            4096,
            FlacFrameHeaderValueOption::Streaminfo(44100),
            2,
            FlacFrameHeaderValueOption::Streaminfo(bits),
            0,
        )
    };
    assert!(left(17).is_valid());
    assert!(left(4).is_valid());
    assert!(!left(3).is_valid());
    assert!(!left(33).is_valid());
}

#[test]
fn frame_of_one_sample_in_two_channels() {
    let mut frame = frame_of(1, 44100);
    let blocks = vec![vec![25588], vec![10416]];
    let bytes = frame.build_bytes(&blocks, &vec![vec![], vec![]]);
    // header, two constant subframes, CRC-16
    assert_eq!(
        bytes[..13],
        [0xff, 0xf8, 0x69, 0x18, 0x00, 0x00, 0xbf, 0x01, 0x58, 0xfd, 0x01, 0x12, 0x8b]
    );
    assert_eq!(bytes.len(), 15);
    let crc = crc16_of_bytes(0x8005, &bytes[..13].to_vec());
    assert_eq!(bytes[13], (crc >> 8) as u8);
    assert_eq!(bytes[14], (crc & 0xff) as u8);
    // the frame and its CRC-16 together have the CRC-16 zero
    assert_eq!(crc16_of_bytes(0x8005, &bytes), 0);
}

#[test]
fn frame_is_header_and_subframes_and_crc() {
    let mut frame = FlacFrame::new(
        24,
        FlacFrameHeaderValueOption::InFrame(44100),
        2,
        FlacFrameHeaderValueOption::InFrame(8),
        5,
    );
    let first = vec![
        0, 79, 111, 78, 8, -61, -90, -68, -13, 42, 67, 53, 13, -27, -46, -38, -12, 14, 24, 19, 6,
        -4, -5, 0,
    ];
    let second = vec![5i64; 24];
    let predictors = vec![vec![(vec![7, -6, 2], 4u8, 2u8)], vec![(vec![7, -6, 2], 4u8, 2u8)]];
    let bytes = frame.build_bytes(&vec![first.clone(), second.clone()], &predictors);
    let header = frame.build_header_bytes();
    assert_eq!(bytes[..header.len()], header[..]);
    // 159 bits of linear subframe, then 16 bits of constant subframe, then filler
    let linear = FlacSubframe::new_variable_by_order(8, 3, vec![7, -6, 2], 4, 2);
    let (expected, unused) = linear.build_bytes(&first);
    assert_eq!(unused, 1);
    let body = &bytes[header.len()..bytes.len() - 2];
    assert_eq!(body.len(), 22);
    assert_eq!(body[..19], expected[..19]);
    // the last bit of the first subframe is followed by 0 000000 0 00000101 and filler
    assert_eq!(body[19], expected[19]);
    assert_eq!(body[20], 0x00);
    assert_eq!(body[21], 0b0000_1010);
    assert_eq!(crc16_of_bytes(0x8005, &bytes), 0);
}

#[test]
fn varying_block_size_is_told_in_the_header() {
    let frame = frame_of(4096, 44100).with_variable_blocksize();
    assert_eq!(frame.build_header_bytes()[..2], [0xff, 0xf9]);
    assert!(frame.is_valid());
}
