use flac_encoder::wav::{PCMWaveFormatChunk, WaveReader, WaveReaderError};

fn fmt_chunk(format: u16, channels: u16, rate: u32, bps: u16) -> Vec<u8> {
    let mut bytes = b"fmt ".to_vec();
    bytes.extend_from_slice(&16u32.to_le_bytes());
    bytes.extend_from_slice(&format.to_le_bytes());
    bytes.extend_from_slice(&channels.to_le_bytes());
    bytes.extend_from_slice(&rate.to_le_bytes());
    let align = channels as u32 * ((bps as u32 + 7) / 8);
    bytes.extend_from_slice(&(rate * align).to_le_bytes());
    bytes.extend_from_slice(&(align as u16).to_le_bytes());
    bytes.extend_from_slice(&bps.to_le_bytes());
    bytes
}

#[test]
fn riff_chunk_of_a_little_endian_container() {
    let mut bytes = b"RIFF".to_vec();
    bytes.extend_from_slice(&[0x24, 0x08, 0x00, 0x00]);
    bytes.extend_from_slice(b"WAVEfmt ");
    let head = WaveReader::read_riff_chunk(&bytes).unwrap();
    assert_eq!(head.file_size, 0x824);
    assert!(!head.is_big_endian);
}

#[test]
fn riff_chunk_of_a_big_endian_container() {
    let mut bytes = b"RIFX".to_vec();
    bytes.extend_from_slice(&[0x00, 0x00, 0x08, 0x24]);
    bytes.extend_from_slice(b"WAVE");
    let head = WaveReader::read_riff_chunk(&bytes).unwrap();
    assert_eq!(head.file_size, 0x824);
    assert!(head.is_big_endian);
}

#[test]
fn riff_chunk_errors() {
    assert!(matches!(
        WaveReader::read_riff_chunk(&b"RIFF\0\0\0\0WAV".to_vec()),
        Err(WaveReaderError::ReadError)
    ));
    assert!(matches!(
        WaveReader::read_riff_chunk(&vec![]),
        Err(WaveReaderError::ReadError)
    ));
    assert!(matches!(
        WaveReader::read_riff_chunk(&b"FORM\0\0\0\0WAVE".to_vec()),
        Err(WaveReaderError::NotRiffError)
    ));
    assert!(matches!(
        WaveReader::read_riff_chunk(&b"RIFF\0\0\0\0AVI ".to_vec()),
        Err(WaveReaderError::NotWaveError)
    ));
}

#[test]
fn fmt_chunk_of_pcm() {
    let format = WaveReader::read_fmt_chunk(&fmt_chunk(1, 2, 44100, 16)).unwrap();
    assert_eq!(format.num_channels, 2);
    assert_eq!(format.samp_rate, 44100);
    assert_eq!(format.bps, 16);
    assert_eq!(format.byte_rate(), 176400);
    assert_eq!(format.block_align(), 4);
}

#[test]
fn fmt_chunk_errors() {
    assert!(matches!(
        WaveReader::read_fmt_chunk(&fmt_chunk(1, 2, 44100, 16)[..23].to_vec()),
        Err(WaveReaderError::ReadError)
    ));
    assert!(matches!(
        WaveReader::read_fmt_chunk(&fmt_chunk(3, 2, 44100, 32)),
        Err(WaveReaderError::NotPCMError)
    ));
    let mut other = fmt_chunk(1, 2, 44100, 16);
    other[3] = b'x';
    assert!(matches!(
        WaveReader::read_fmt_chunk(&other),
        Err(WaveReaderError::ChunkTypeError)
    ));
}

#[test]
fn byte_rate_and_block_align() {
    let format = PCMWaveFormatChunk { num_channels: 6, samp_rate: 96000, bps: 24 };
    assert_eq!(format.block_align(), 18);
    assert_eq!(format.byte_rate(), 1728000);
    let odd = PCMWaveFormatChunk { num_channels: 1, samp_rate: 8000, bps: 12 };
    assert_eq!(odd.block_align(), 2);
    assert_eq!(odd.byte_rate(), 16000);
}

#[test]
fn data_chunk_is_split_into_channels() {
    let format = PCMWaveFormatChunk { num_channels: 2, samp_rate: 44100, bps: 16 };
    let data = vec![0x01, 0x00, 0xff, 0xff, 0xfe, 0xff, 0x00, 0x01, 0x34, 0x12, 0x00, 0x80];
    assert_eq!(
        WaveReader::read_data_chunk(&data, &format).unwrap(),
        vec![vec![1, -2, 0x1234], vec![-1, 256, -32768]]
    );
    let wide = PCMWaveFormatChunk { num_channels: 1, samp_rate: 44100, bps: 24 };
    assert_eq!(
        WaveReader::read_data_chunk(&vec![0xfd, 0xff, 0xff, 0x00, 0x00, 0x80], &wide).unwrap(),
        vec![vec![-3, -8388608]]
    );
    assert_eq!(
        WaveReader::read_data_chunk(&vec![], &format).unwrap(),
        vec![Vec::<i64>::new(), Vec::<i64>::new()]
    );
}

#[test]
fn data_chunk_errors() {
    let format = PCMWaveFormatChunk { num_channels: 2, samp_rate: 44100, bps: 16 };
    assert!(matches!(
        WaveReader::read_data_chunk(&vec![0; 7], &format),
        Err(WaveReaderError::DataAlignmentError)
    ));
    for (channels, bps) in [(0u16, 16u16), (2, 3), (2, 33), (2, 0)] {
        let odd = PCMWaveFormatChunk { num_channels: channels, samp_rate: 44100, bps };
        assert!(matches!(
            WaveReader::read_data_chunk(&vec![0; 8], &odd),
            Err(WaveReaderError::NotPCMError)
        ));
    }
}

#[test]
fn data_chunk_and_block_bytes_undo_each_other() {
    let format = PCMWaveFormatChunk { num_channels: 3, samp_rate: 48000, bps: 20 };
    let blocks = vec![vec![1, -524288, 77], vec![524287, 0, -1], vec![-300, 300, 5]];
    let bytes = flac_encoder::flac::digest::block_bytes(&blocks, 20, 3);
    assert_eq!(bytes.len(), 27);
    assert_eq!(WaveReader::read_data_chunk(&bytes, &format).unwrap(), blocks);
}
