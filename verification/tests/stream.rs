use flac_encoder::flac::digest::block_bytes;
use flac_encoder::flac::stream::{StreamInfo, StreamTally};
use flac_encoder::flac::{FlacWriter, FlacWriterError};

fn info() -> StreamInfo {
    StreamInfo {
        min_block_size: 4096,
        max_block_size: 4096,
        min_frame_size: 15,
        max_frame_size: 0x123456,
        sample_rate: 44100,
        num_channels: 2,
        bit_depth: 16,
        total_samples: 0x1_2345_6789,
        md5: vec![0; 16],
    }
}

#[test]
fn best_block_size_follows_the_order() {
    assert_eq!(FlacWriter::best_block_size(0), 1152);
    assert_eq!(FlacWriter::best_block_size(1), 4096);
    assert_eq!(FlacWriter::best_block_size(8), 4096);
    assert_eq!(FlacWriter::best_block_size(32), 4096);
}

#[test]
fn check_format_refuses_what_no_stream_holds() {
    assert!(FlacWriter::check_format(2, 44100, 16).is_ok());
    assert!(FlacWriter::check_format(1, 1, 4).is_ok());
    assert!(FlacWriter::check_format(8, 0xf_ffff, 32).is_ok());
    for (channels, rate, bps) in [
        (0u16, 44100u32, 16u16),
        (9, 44100, 16),
        (2, 0, 16),
        (2, 0x10_0000, 16),
        (2, 44100, 3),
        (2, 44100, 33),
    ] {
        assert!(matches!(
            FlacWriter::check_format(channels, rate, bps),
            Err(FlacWriterError::InvalidFormatError)
        ));
    }
}

#[test]
fn errors_in_words() {
    assert_eq!(
        FlacWriterError::InvalidFormatError.describe(),
        "Error: InvalidFormatError"
    );
    assert_eq!(
        FlacWriterError::DataAlignmentError.describe(),
        "Error: DataAlignmentError"
    );
    assert_eq!(FlacWriterError::WriteError.describe(), "Error: WriteError");
    assert_eq!(FlacWriterError::ReadError.describe(), "Error: ReadError");
}

#[test]
fn streaminfo_block_packs_its_fields() {
    let bytes = info().build_bytes();
    assert_eq!(bytes.len(), 34);
    assert_eq!(
        bytes[..18],
        [
            0x10, 0x00, 0x10, 0x00, 0x00, 0x00, 0x0f, 0x12, 0x34, 0x56, 0x0a, 0xc4, 0x42, 0xf1,
            0x23, 0x45, 0x67, 0x89
        ]
    );
    assert_eq!(bytes[18..], [0u8; 16]);
}

#[test]
fn stream_header_is_marker_and_streaminfo() {
    let head = FlacWriter::stream_header(&info());
    assert_eq!(head.len(), 42);
    assert_eq!(head[..8], [0x66, 0x4c, 0x61, 0x43, 0x80, 0x00, 0x00, 0x22]);
    assert_eq!(head[8..], info().build_bytes()[..]);
}

#[test]
fn signature_is_the_md5_of_the_bytes() {
    assert_eq!(
        FlacWriter::sign(info(), &vec![]).md5,
        vec![
            0xd4, 0x1d, 0x8c, 0xd9, 0x8f, 0x00, 0xb2, 0x04, 0xe9, 0x80, 0x09, 0x98, 0xec, 0xf8,
            0x42, 0x7e
        ]
    );
    assert_eq!(
        FlacWriter::sign(info(), &vec![0x61, 0x62, 0x63]).md5,
        vec![
            0x90, 0x01, 0x50, 0x98, 0x3c, 0xd2, 0x4f, 0xb0, 0xd6, 0x96, 0x3f, 0x7d, 0x28, 0xe1,
            0x7f, 0x72
        ]
    );
}

#[test]
fn signing_fills_in_the_signature() {
    let signed = FlacWriter::sign(info(), &vec![0x61, 0x62, 0x63]);
    assert_eq!(signed.md5[..4], [0x90, 0x01, 0x50, 0x98]);
    assert_eq!(signed.total_samples, 0x1_2345_6789);
    assert_eq!(signed.sample_rate, 44100);
    let bytes = signed.build_bytes();
    assert_eq!(bytes[18..22], [0x90, 0x01, 0x50, 0x98]);
    assert_eq!(bytes[33], 0x72);
}

#[test]
fn block_bytes_interleave_low_byte_first() {
    let blocks = vec![vec![1, -2, 0x1234], vec![-1, 256, -32768]];
    assert_eq!(
        block_bytes(&blocks, 16, 3),
        vec![0x01, 0x00, 0xff, 0xff, 0xfe, 0xff, 0x00, 0x01, 0x34, 0x12, 0x00, 0x80]
    );
    // twelve bits take two bytes, twenty-four take three, eight take one
    assert_eq!(block_bytes(&vec![vec![-3]], 12, 1), vec![0xfd, 0xff]);
    assert_eq!(block_bytes(&vec![vec![-3]], 24, 1), vec![0xfd, 0xff, 0xff]);
    assert_eq!(block_bytes(&vec![vec![-3], vec![5]], 8, 1), vec![0xfd, 0x05]);
    assert_eq!(
        block_bytes(&vec![vec![i32::MIN as i64]], 32, 1),
        vec![0x00, 0x00, 0x00, 0x80]
    );
    assert!(block_bytes(&vec![vec![], vec![]], 16, 0).is_empty());
}

#[test]
fn slice_block_cuts_every_channel() {
    let samples = vec![vec![1, 2, 3, 4, 5, 6, 7], vec![-1, -2, -3, -4, -5, -6, -7]];
    assert_eq!(
        FlacWriter::slice_block(&samples, 0, 3),
        vec![vec![1, 2, 3], vec![-1, -2, -3]]
    );
    assert_eq!(
        FlacWriter::slice_block(&samples, 3, 3),
        vec![vec![4, 5, 6], vec![-4, -5, -6]]
    );
    // the last block is short
    assert_eq!(FlacWriter::slice_block(&samples, 6, 3), vec![vec![7], vec![-7]]);
    assert_eq!(
        FlacWriter::slice_block(&samples, 7, 3),
        vec![Vec::<i64>::new(), Vec::<i64>::new()]
    );
    assert_eq!(
        FlacWriter::slice_block(&samples, 100, 3),
        vec![Vec::<i64>::new(), Vec::<i64>::new()]
    );
    assert_eq!(FlacWriter::slice_block(&samples, 2, 65535)[0], vec![3, 4, 5, 6, 7]);
    assert!(FlacWriter::slice_block(&vec![], 0, 16).is_empty());
}

#[test]
fn tally_of_nothing() {
    let tally = StreamTally::new();
    assert_eq!(tally.next_frame_index(), 0);
    let info = tally.finish(44100, 2, 16);
    assert_eq!(info.total_samples, 0);
    assert_eq!((info.min_block_size, info.max_block_size), (0, 0));
    assert_eq!((info.min_frame_size, info.max_frame_size), (0, 0));
    assert_eq!(info.md5[..2], [0xd4, 0x1d]);
    assert_eq!(info.build_bytes().len(), 34);
}

#[test]
fn tally_keeps_least_and_greatest() {
    let mut tally = StreamTally::new();
    // one channel of eight bits: the samples are their own bytes
    tally.record(&vec![vec![0x61; 4096]], 8, 4096, 9000);
    assert_eq!(tally.next_frame_index(), 1);
    tally.record(&vec![vec![0x62; 4096]], 8, 4096, 7000);
    tally.record(&vec![vec![0x63; 100]], 8, 100, 8000);
    assert_eq!(tally.next_frame_index(), 3);
    let info = tally.finish(48000, 1, 24);
    assert_eq!(info.total_samples, 8292);
    assert_eq!((info.min_block_size, info.max_block_size), (100, 4096));
    assert_eq!((info.min_frame_size, info.max_frame_size), (7000, 9000));
    assert_eq!((info.sample_rate, info.num_channels, info.bit_depth), (48000, 1, 24));
    // the signature is that of all the samples seen, in order
    assert_eq!(
        info.md5,
        vec![0x92, 0x88, 0xc7, 0xda, 0x59, 0x81, 0x8f, 0x68, 0xb5, 0x0f, 0xa4, 0xed, 0x0f, 0x64, 0x8c, 0x06]
    );
}

#[test]
fn tally_signs_the_interleaved_samples() {
    let mut tally = StreamTally::new();
    tally.record(&vec![vec![0x61], vec![0x62]], 8, 1, 20);
    tally.record(&vec![vec![0x63], vec![-1]], 8, 1, 20);
    let info = tally.finish(8000, 2, 8);
    // the signature of the bytes 0x61, 0x62, 0x63 and 0xff
    assert_eq!(
        info.md5,
        vec![0xc0, 0x26, 0x4f, 0x69, 0x55, 0xce, 0x65, 0x9e, 0xc5, 0x18, 0xac, 0x7b, 0x5d, 0xe9, 0x49, 0x54]
    );
}

#[test]
fn tally_tells_no_frame_size_beyond_its_field() {
    let mut tally = StreamTally::new();
    tally.record(&vec![], 16, 4096, 0xff_ffff);
    tally.record(&vec![], 16, 4096, 0x100_0000);
    let info = tally.finish(48000, 1, 24);
    assert_eq!((info.min_frame_size, info.max_frame_size), (0xff_ffff, 0));
}
