use flac_encoder::flac::stereo::{mid_of, side_of};
use flac_encoder::flac::{ChannelAssignment, FlacFrame, FlacFrameHeaderValueOption};

#[test]
fn side_is_left_less_right() {
    assert_eq!(side_of(&vec![5, -3, 0, 127], &vec![2, 4, 0, -128], 8), vec![3, -7, 0, 255]);
    assert_eq!(side_of(&vec![-128], &vec![127], 8), vec![-255]);
}

#[test]
fn mid_is_the_sum_shifted_right() {
    assert_eq!(mid_of(&vec![5, -3, 0, 127], &vec![2, 4, 0, 127], 8), vec![3, 0, 0, 127]);
    // the shift rounds down, also below zero
    assert_eq!(mid_of(&vec![-3, -128, 1], &vec![0, -128, -2], 8), vec![-2, -128, -1]);
}

#[test]
fn decorrelate_gives_the_two_stored_channels() {
    let left = vec![10, 20, -30];
    let right = vec![7, 25, -30];
    assert_eq!(
        ChannelAssignment::LeftRight.decorrelate(&left, &right, 8),
        (left.clone(), right.clone())
    );
    assert_eq!(
        ChannelAssignment::LeftSide.decorrelate(&left, &right, 8),
        (left.clone(), vec![3, -5, 0])
    );
    assert_eq!(
        ChannelAssignment::SideRight.decorrelate(&left, &right, 8),
        (vec![3, -5, 0], right.clone())
    );
    assert_eq!(
        ChannelAssignment::MidSide.decorrelate(&left, &right, 8),
        (vec![8, 22, -30], vec![3, -5, 0])
    );
}

#[test]
fn assignment_codes_and_sources() {
    assert_eq!(ChannelAssignment::LeftRight.code_of(1), 0);
    assert_eq!(ChannelAssignment::LeftRight.code_of(2), 1);
    assert_eq!(ChannelAssignment::LeftRight.code_of(8), 7);
    assert_eq!(ChannelAssignment::LeftSide.code_of(2), 8);
    assert_eq!(ChannelAssignment::SideRight.code_of(2), 9);
    assert_eq!(ChannelAssignment::MidSide.code_of(2), 10);
    assert_eq!(ChannelAssignment::LeftRight.sources(), (0, 1));
    assert_eq!(ChannelAssignment::LeftSide.sources(), (0, 3));
    assert_eq!(ChannelAssignment::SideRight.sources(), (3, 1));
    assert_eq!(ChannelAssignment::MidSide.sources(), (2, 3));
    assert!(ChannelAssignment::LeftRight.is_left_right());
    assert!(!ChannelAssignment::MidSide.is_left_right());
}

#[test]
fn assignment_is_coded_in_the_header() {
    let frame = |assignment: ChannelAssignment, channels: u8| {
        FlacFrame::new(
            4096,
            FlacFrameHeaderValueOption::InFrame(44100),
            channels,
            FlacFrameHeaderValueOption::InFrame(16),
            0,
        )
        .with_channel_assignment(assignment)
    };
    assert_eq!(frame(ChannelAssignment::LeftRight, 2).build_header_bytes()[3], 0x18);
    assert_eq!(frame(ChannelAssignment::LeftSide, 2).build_header_bytes()[3], 0x88);
    assert_eq!(frame(ChannelAssignment::SideRight, 2).build_header_bytes()[3], 0x98);
    assert_eq!(frame(ChannelAssignment::MidSide, 2).build_header_bytes()[3], 0xa8);
    // only two channels can be stored other than as they are
    assert!(frame(ChannelAssignment::MidSide, 2).is_valid());
    assert!(!frame(ChannelAssignment::MidSide, 1).is_valid());
    assert!(!frame(ChannelAssignment::LeftSide, 3).is_valid());
    assert!(frame(ChannelAssignment::LeftRight, 3).is_valid());
}

#[test]
fn side_channel_is_stored_a_bit_deeper() {
    // left 127 and right -128 at eight bits: the side 255 takes nine
    let blocks = vec![vec![127i64; 4], vec![-128i64; 4]];
    let none: Vec<(Vec<i64>, u8, u8)> = vec![];
    let mut frame = FlacFrame::new(
        4,
        FlacFrameHeaderValueOption::InFrame(44100),
        2,
        FlacFrameHeaderValueOption::InFrame(8),
        0,
    )
    .with_channel_assignment(ChannelAssignment::LeftSide);
    let bytes = frame.build_bytes(&blocks, &vec![none.clone(), none]);
    let header = frame.build_header_bytes();
    // a constant of eight bits, then a constant of nine: 0x00 0x7f, 0x00 0 1111 1111
    assert_eq!(
        bytes[header.len()..bytes.len() - 2],
        [0x00, 0x7f, 0x00, 0x7f, 0x80]
    );
}
