use flac_encoder::flac::encoder::crc::CrcOptions;
use flac_encoder::flac::encoder::rice::RiceEncoderOptions;
use flac_encoder::flac::encoder::utf8::Utf8Encoder;
use flac_encoder::flac::{
    ChannelAssignment, FlacFrame, FlacFrameHeaderValueOption, FlacSubframe, FlacWriter,
    FlacWriterError,
};

struct BitReader {
    bytes: Vec<u8>,
    pos: usize,
}

fn read_bit(reader: &mut BitReader) -> u64 {
    let byte = reader.bytes[reader.pos / 8];
    let bit = (byte >> (7 - reader.pos % 8)) & 1;
    reader.pos += 1;
    bit as u64
}

fn read_bits(reader: &mut BitReader, n: u32) -> u64 {
    let mut value = 0u64;
    for _ in 0..n {
        value = (value << 1) | read_bit(reader);
    }
    value
}

fn read_signed(reader: &mut BitReader, n: u32) -> i64 {
    let raw = read_bits(reader, n);
    if n == 0 {
        0
    } else if n == 64 {
        raw as i64
    } else if raw >> (n - 1) == 1 {
        raw as i64 - (1i64 << n)
    } else {
        raw as i64
    }
}

fn read_unary(reader: &mut BitReader) -> u64 {
    let mut zeros = 0;
    while read_bit(reader) == 0 {
        zeros += 1;
    }
    zeros
}

fn read_residuals(reader: &mut BitReader, block_size: usize, order: usize) -> Vec<i64> {
    let method = read_bits(reader, 2);
    assert!(method <= 1);
    let param_bits = if method == 0 { 4 } else { 5 };
    let escape = if method == 0 { 15 } else { 31 };
    let partition_order = read_bits(reader, 4);
    let partitions = 1usize << partition_order;
    assert_eq!(block_size % partitions, 0);
    let mut residuals = Vec::new();
    for k in 0..partitions {
        let count = if k == 0 {
            block_size / partitions - order
        } else {
            block_size / partitions
        };
        let param = read_bits(reader, param_bits);
        if param == escape {
            let width = read_bits(reader, 5) as u32;
            for _ in 0..count {
                residuals.push(read_signed(reader, width));
            }
        } else {
            for _ in 0..count {
                let quotient = read_unary(reader);
                let remainder = read_bits(reader, param as u32);
                let folded = (quotient << param) | remainder;
                residuals.push(RiceEncoderOptions::unzigzag(folded));
            }
        }
    }
    residuals
}

fn read_subframe(reader: &mut BitReader, block_size: usize, depth: u32) -> (Vec<i64>, u64) {
    assert_eq!(read_bit(reader), 0);
    let kind = read_bits(reader, 6);
    let mut wasted = 0;
    if read_bit(reader) == 1 {
        wasted = read_unary(reader) as u32 + 1;
    }
    let depth = depth - wasted;
    let mut samples: Vec<i64> = Vec::new();
    if kind == 0 {
        let value = read_signed(reader, depth);
        samples = vec![value; block_size];
    } else if kind == 1 {
        for _ in 0..block_size {
            samples.push(read_signed(reader, depth));
        }
    } else if (8..=12).contains(&kind) {
        let order = (kind - 8) as usize;
        for _ in 0..order {
            samples.push(read_signed(reader, depth));
        }
        let residuals = read_residuals(reader, block_size, order);
        for (k, r) in residuals.iter().enumerate() {
            let i = k + order;
            let prediction = match order {
                0 => 0,
                1 => samples[i - 1],
                2 => 2 * samples[i - 1] - samples[i - 2],
                3 => 3 * samples[i - 1] - 3 * samples[i - 2] + samples[i - 3],
                _ => 4 * samples[i - 1] - 6 * samples[i - 2] + 4 * samples[i - 3] - samples[i - 4],
            };
            samples.push(r + prediction);
        }
    } else {
        assert!(kind >= 32);
        let order = (kind - 31) as usize;
        for _ in 0..order {
            samples.push(read_signed(reader, depth));
        }
        let precision = read_bits(reader, 4) as u32 + 1;
        let shift = read_bits(reader, 5);
        let mut coefs = Vec::new();
        for _ in 0..order {
            coefs.push(read_signed(reader, precision));
        }
        let residuals = read_residuals(reader, block_size, order);
        for (k, r) in residuals.iter().enumerate() {
            let i = k + order;
            let mut sum = 0i64;
            for j in 0..order {
                sum += coefs[j] * samples[i - 1 - j];
            }
            samples.push(r + (sum >> shift));
        }
    }
    for s in samples.iter_mut() {
        *s <<= wasted;
    }
    (samples, kind)
}

fn decode_frame(bytes: &Vec<u8>, depth: u32, rate: u64) -> (Vec<Vec<i64>>, Vec<u64>, u64) {
    let mut reader = BitReader { bytes: bytes.clone(), pos: 0 };
    assert_eq!(read_bits(&mut reader, 14), 0x3ffe);
    assert_eq!(read_bit(&mut reader), 0);
    assert_eq!(read_bit(&mut reader), 0);
    let size_code = read_bits(&mut reader, 4);
    let rate_code = read_bits(&mut reader, 4);
    let assignment = read_bits(&mut reader, 4) as usize;
    assert!(assignment <= 10);
    let channels = if assignment < 8 { assignment + 1 } else { 2 };
    let depth_code = read_bits(&mut reader, 3);
    let coded_depth = [0, 8, 12, 0, 16, 20, 24, 32][depth_code as usize];
    if depth_code != 0 {
        assert_eq!(coded_depth, depth);
    }
    assert_eq!(read_bit(&mut reader), 0);
    let lead = reader.bytes[reader.pos / 8];
    let number_len = if lead < 0x80 {
        1
    } else {
        lead.leading_ones() as usize
    };
    let start = reader.pos / 8;
    let number = Utf8Encoder::decode(&reader.bytes[start..start + number_len].to_vec()).unwrap();
    reader.pos += 8 * number_len;
    let block_size = match size_code {
        1 => 192,
        2..=5 => 576 << (size_code - 2),
        6 => read_bits(&mut reader, 8) as usize + 1,
        7 => read_bits(&mut reader, 16) as usize + 1,
        _ => 256 << (size_code - 8),
    };
    let coded_rate = match rate_code {
        0 => rate,
        1 => 88200,
        2 => 176400,
        3 => 192000,
        4 => 8000,
        5 => 16000,
        6 => 22050,
        7 => 24000,
        8 => 32000,
        9 => 44100,
        10 => 48000,
        11 => 96000,
        12 => read_bits(&mut reader, 8) * 1000,
        13 => read_bits(&mut reader, 16),
        14 => read_bits(&mut reader, 16) * 10,
        _ => panic!("a rate that no header can hold"),
    };
    assert_eq!(coded_rate, rate);
    assert_eq!(reader.pos % 8, 0);
    let header_len = reader.pos / 8;
    let crc8 = read_bits(&mut reader, 8) as u8;
    assert_eq!(
        CrcOptions::new(0x07u8, 8).build_crc8(&bytes[..header_len].to_vec()),
        crc8
    );
    let mut blocks = Vec::new();
    let mut kinds = Vec::new();
    for ch in 0..channels {
        let side = matches!((assignment, ch), (8, 1) | (9, 0) | (10, 1));
        let stored_depth = if side { depth + 1 } else { depth };
        let (samples, kind) = read_subframe(&mut reader, block_size, stored_depth);
        blocks.push(samples);
        kinds.push(kind);
    }
    if assignment == 8 {
        for i in 0..block_size {
            blocks[1][i] = blocks[0][i] - blocks[1][i];
        }
    } else if assignment == 9 {
        for i in 0..block_size {
            blocks[0][i] = blocks[0][i] + blocks[1][i];
        }
    } else if assignment == 10 {
        for i in 0..block_size {
            let side = blocks[1][i];
            let sum = (blocks[0][i] << 1) | (side & 1);
            blocks[0][i] = (sum + side) >> 1;
            blocks[1][i] = (sum - side) >> 1;
        }
    }
    while reader.pos % 8 != 0 {
        assert_eq!(read_bit(&mut reader), 0);
    }
    let body_len = reader.pos / 8;
    assert_eq!(bytes.len(), body_len + 2);
    let crc16 = read_bits(&mut reader, 16) as u16;
    let words: Vec<u16> = bytes[..body_len].iter().map(|b| *b as u16).collect();
    assert_eq!(CrcOptions::new(0x8005u16, 16).build_crc16(&words), crc16);
    (blocks, kinds, number)
}

fn noise(seed: u64, len: usize, depth: u32) -> Vec<i64> {
    let mut state = seed;
    let mut out = Vec::new();
    for _ in 0..len {
        state = state.wrapping_mul(6364136223846793005).wrapping_add(1442695040888963407);
        let raw = (state >> 33) as i64;
        let span = 1i64 << depth;
        out.push(raw % span - span / 2);
    }
    out
}

fn wave(len: usize, amplitude: i64) -> Vec<i64> {
    // a triangle wave with a slow drift: well predicted, not constant
    let mut out = Vec::new();
    for i in 0..len as i64 {
        let phase = i % 40;
        let tri = if phase < 20 { phase - 10 } else { 30 - phase };
        out.push(tri * amplitude / 10 + i / 7);
    }
    out
}

fn check_roundtrip(
    blocks: Vec<Vec<i64>>,
    depth: u8,
    rate: FlacFrameHeaderValueOption<u64>,
    rate_hz: u64,
    index: u64,
    predictors: Vec<Vec<(Vec<i64>, u8, u8)>>,
) -> Vec<u64> {
    let block_size = blocks[0].len() as u16;
    let channels = blocks.len() as u8;
    let mut frame = FlacFrame::new(
        block_size,
        rate,
        channels,
        FlacFrameHeaderValueOption::InFrame(depth),
        index,
    );
    assert!(frame.is_valid());
    let bytes = frame.build_bytes(&blocks, &predictors);
    let (decoded, kinds, number) = decode_frame(&bytes, depth as u32, rate_hz);
    assert_eq!(decoded, blocks);
    assert_eq!(number, index);
    kinds
}

#[test]
fn roundtrip_of_silence_is_constant() {
    let kinds = check_roundtrip(
        vec![vec![0; 4096], vec![0; 4096]],
        16,
        FlacFrameHeaderValueOption::InFrame(44100),
        44100,
        0,
        vec![vec![], vec![]],
    );
    assert_eq!(kinds, vec![0, 0]);
}

#[test]
fn roundtrip_of_a_single_sample_block() {
    let kinds = check_roundtrip(
        vec![vec![25588], vec![10416]],
        16,
        FlacFrameHeaderValueOption::InFrame(44100),
        44100,
        0,
        vec![vec![], vec![]],
    );
    assert_eq!(kinds, vec![0, 0]);
}

#[test]
fn roundtrip_of_noise_at_each_depth() {
    for depth in [8u8, 12, 16, 20, 24, 32] {
        for size in [16usize, 17, 192, 255, 256, 1000, 4096] {
            let blocks = vec![
                noise(depth as u64 * 31 + size as u64, size, depth as u32),
                noise(depth as u64 * 77 + size as u64, size, depth as u32 - 3),
            ];
            check_roundtrip(
                blocks,
                depth,
                FlacFrameHeaderValueOption::InFrame(48000),
                48000,
                size as u64,
                vec![vec![], vec![]],
            );
        }
    }
}

#[test]
fn roundtrip_of_waves_uses_predictors() {
    let blocks = vec![wave(4096, 3000), wave(4096, 100)];
    let kinds = check_roundtrip(
        blocks,
        16,
        FlacFrameHeaderValueOption::InFrame(44100),
        44100,
        7,
        vec![vec![], vec![]],
    );
    assert!((8..=12).contains(&kinds[0]));
    assert!((8..=12).contains(&kinds[1]));
}

#[test]
fn roundtrip_with_linear_predictors() {
    let samples = vec![
        0, 79, 111, 78, 8, -61, -90, -68, -13, 42, 67, 53, 13, -27, -46, -38, -12, 14, 24, 19, 6,
        -4, -5, 0,
    ];
    let candidates = vec![
        (vec![1], 2u8, 0u8),
        (vec![7, -6, 2], 4u8, 2u8),
        (vec![100, 3], 4u8, 1u8),
    ];
    let kinds = check_roundtrip(
        vec![samples],
        8,
        FlacFrameHeaderValueOption::Streaminfo(44100),
        44100,
        1,
        vec![candidates],
    );
    // order 3: the six bits of type are 31 + 3
    assert_eq!(kinds, vec![34]);
}

#[test]
fn roundtrip_with_wasted_bits() {
    let blocks = vec![
        wave(576, 2000).iter().map(|s| s * 8).collect::<Vec<i64>>(),
        noise(5, 576, 10).iter().map(|s| s * 64).collect::<Vec<i64>>(),
    ];
    check_roundtrip(
        blocks,
        16,
        FlacFrameHeaderValueOption::InFrame(32000),
        32000,
        3,
        vec![vec![], vec![]],
    );
}

#[test]
fn roundtrip_of_the_largest_block() {
    let blocks = vec![wave(65535, 20000)];
    check_roundtrip(
        blocks,
        16,
        FlacFrameHeaderValueOption::InFrame(96000),
        96000,
        0xf_ffff_ffff,
        vec![vec![]],
    );
}

#[test]
fn roundtrip_of_eight_channels_and_odd_rates() {
    let mut blocks = Vec::new();
    let mut predictors = Vec::new();
    for ch in 0..8 {
        blocks.push(noise(ch, 100, 20));
        predictors.push(vec![(vec![3, -1], 3u8, 1u8)]);
    }
    check_roundtrip(
        blocks.clone(),
        24,
        FlacFrameHeaderValueOption::InFrame(11025),
        11025,
        300,
        predictors.clone(),
    );
    check_roundtrip(
        blocks.clone(),
        24,
        FlacFrameHeaderValueOption::InFrame(250000),
        250000,
        301,
        predictors.clone(),
    );
    check_roundtrip(
        blocks,
        24,
        FlacFrameHeaderValueOption::InFrame(384000),
        384000,
        302,
        predictors,
    );
}

#[test]
fn roundtrip_of_extreme_samples() {
    let blocks = vec![
        vec![i32::MIN as i64, i32::MAX as i64, i32::MIN as i64, i32::MAX as i64, 0, -1, 1, 0],
        vec![i32::MAX as i64; 8],
    ];
    let kinds = check_roundtrip(
        blocks,
        32,
        FlacFrameHeaderValueOption::InFrame(44100),
        44100,
        0,
        vec![vec![], vec![]],
    );
    assert_eq!(kinds[1], 0);
}

fn check_stereo_roundtrip(left: Vec<i64>, right: Vec<i64>, depth: u8) -> ChannelAssignment {
    let none: Vec<(Vec<i64>, u8, u8)> = vec![];
    let best = ChannelAssignment::best(
        &left,
        &right,
        depth,
        &vec![none.clone(), none.clone(), none.clone(), none.clone()],
    );
    let blocks = vec![left, right];
    let mut shortest = usize::MAX;
    let mut lengths = Vec::new();
    for assignment in [
        ChannelAssignment::LeftRight,
        ChannelAssignment::LeftSide,
        ChannelAssignment::SideRight,
        ChannelAssignment::MidSide,
    ] {
        let mut frame = FlacFrame::new(
            blocks[0].len() as u16,
            FlacFrameHeaderValueOption::InFrame(44100),
            2,
            FlacFrameHeaderValueOption::InFrame(depth),
            9,
        )
        .with_channel_assignment(assignment);
        assert!(frame.is_valid());
        let bytes = frame.build_bytes(&blocks, &vec![none.clone(), none.clone()]);
        let (decoded, _, _) = decode_frame(&bytes, depth as u32, 44100);
        assert_eq!(decoded, blocks);
        shortest = shortest.min(bytes.len());
        lengths.push(bytes.len());
    }
    // the best assignment takes the fewest bits, so no frame is shorter in bytes
    let place = match best {
        ChannelAssignment::LeftRight => 0,
        ChannelAssignment::LeftSide => 1,
        ChannelAssignment::SideRight => 2,
        ChannelAssignment::MidSide => 3,
    };
    assert_eq!(lengths[place], shortest);
    best
}

#[test]
fn roundtrip_of_each_channel_assignment() {
    for depth in [8u8, 16, 24, 32] {
        let left = noise(depth as u64, 192, depth as u32);
        let right = noise(depth as u64 + 1000, 192, depth as u32);
        check_stereo_roundtrip(left, right, depth);
    }
    let extreme = vec![i32::MIN as i64, i32::MAX as i64, -1, 0, 1, i32::MAX as i64];
    let mirrored: Vec<i64> = extreme.iter().rev().cloned().collect();
    check_stereo_roundtrip(extreme, mirrored, 32);
}

#[test]
fn nearly_equal_channels_are_stored_with_their_difference() {
    let left = noise(3, 1024, 14);
    let right: Vec<i64> = left.iter().enumerate().map(|(i, s)| s + (i as i64 % 3) - 1).collect();
    let best = check_stereo_roundtrip(left, right, 16);
    assert!(!matches!(best, ChannelAssignment::LeftRight));
}

#[test]
fn unlike_channels_are_stored_as_they_are() {
    let left = noise(3, 1024, 16);
    let right = noise(4, 1024, 16);
    let best = check_stereo_roundtrip(left, right, 16);
    assert!(matches!(best, ChannelAssignment::LeftRight));
}

#[test]
fn equal_channels_leave_a_silent_side() {
    let left = wave(512, 9000);
    let best = check_stereo_roundtrip(left.clone(), left, 16);
    // left-side and mid-side take the same bits; the earlier of them wins
    assert!(matches!(best, ChannelAssignment::LeftSide));
}

fn check_subframe_roundtrip(subframe: &FlacSubframe, samples: &Vec<i64>, depth: u32) -> u64 {
    let (bytes, unused) = subframe.build_bytes(samples);
    let mut reader = BitReader { bytes: bytes.clone(), pos: 0 };
    let (decoded, kind) = read_subframe(&mut reader, samples.len(), depth);
    assert_eq!(&decoded, samples);
    assert_eq!(reader.pos + unused as usize, bytes.len() * 8);
    kind
}

#[test]
fn roundtrip_of_escaped_partitions() {
    // full-scale alternation under order 4: Rice codes would take more than
    // the residuals as they are
    let samples: Vec<i64> = (0..64).map(|i| if i % 2 == 0 { 127 } else { -128 }).collect();
    let subframe = FlacSubframe::new_fixed_by_order(8, 4);
    let (streams, _) = subframe.get_encoded_residuals(&samples).unwrap();
    assert!(streams.iter().all(|stream| stream.param == 15));
    assert_eq!(check_subframe_roundtrip(&subframe, &samples, 8), 12);
    // the same at a depth above 16 bits: the escape code is 31
    let wide: Vec<i64> = samples.iter().map(|s| s * 60000 + 1).collect();
    let subframe = FlacSubframe::new_fixed_by_order(24, 4);
    let (streams, _) = subframe.get_encoded_residuals(&wide).unwrap();
    assert!(streams.iter().all(|stream| stream.param == 31));
    assert_eq!(check_subframe_roundtrip(&subframe, &wide, 24), 12);
}

#[test]
fn roundtrip_of_each_kind_of_subframe() {
    let samples = wave(200, 500);
    for order in 0u8..=4 {
        let subframe = FlacSubframe::new_fixed_by_order(16, order);
        assert_eq!(check_subframe_roundtrip(&subframe, &samples, 16), 8 + order as u64);
    }
    let linear = FlacSubframe::new_variable_by_order(16, 2, vec![15, -8], 5, 3);
    assert_eq!(check_subframe_roundtrip(&linear, &samples, 16), 33);
    let widest = FlacSubframe::new_variable_by_order(16, 32, vec![-16384; 32], 15, 30);
    assert_eq!(check_subframe_roundtrip(&widest, &samples, 16), 63);
    let verbatim = FlacSubframe::new_verbatim(16);
    assert_eq!(check_subframe_roundtrip(&verbatim, &samples, 16), 1);
    let constant = FlacSubframe::new_constant(16, -7);
    assert_eq!(check_subframe_roundtrip(&constant, &vec![-7; 200], 16), 0);
    // a constant that the block is not: stored verbatim
    assert_eq!(check_subframe_roundtrip(&constant, &samples, 16), 1);
}

fn decode_stream(bytes: &Vec<u8>, frame_lens: &Vec<usize>, depth: u32, rate: u64) -> Vec<Vec<i64>> {
    assert_eq!(bytes[..4], [0x66, 0x4c, 0x61, 0x43]);
    assert_eq!(bytes[4..8], [0x80, 0x00, 0x00, 0x22]);
    let mut at = 42;
    let mut samples: Vec<Vec<i64>> = Vec::new();
    for (index, len) in frame_lens.iter().enumerate() {
        let frame = bytes[at..at + len].to_vec();
        let (blocks, _, number) = decode_frame(&frame, depth, rate);
        assert_eq!(number, index as u64);
        if samples.is_empty() {
            samples = vec![Vec::new(); blocks.len()];
        }
        for (channel, block) in samples.iter_mut().zip(blocks) {
            channel.extend(block);
        }
        at += len;
    }
    assert_eq!(at, bytes.len());
    samples
}

#[test]
fn stream_of_two_channels() {
    let samples = vec![
        vec![1, -2, 300, -400, 5, 6, 7],
        vec![-1, 2, -300, 400, -5, 6, -32768],
    ];
    let none: Vec<(Vec<i64>, u8, u8)> = vec![];
    let plans = vec![
        (ChannelAssignment::MidSide, vec![none.clone(), none.clone()]),
        (ChannelAssignment::LeftSide, vec![vec![(vec![1], 2u8, 0u8)], none.clone()]),
    ];
    let stream = FlacWriter::encode_stream(&samples, 44100, 16, 3, &plans).unwrap();
    // three frames: of three, three and one sample
    assert_eq!(stream.frames.len(), 3);
    let sizes: Vec<u16> = stream.frames.iter().map(|f| f.block_size_of()).collect();
    assert_eq!(sizes, vec![3, 3, 1]);
    assert_eq!(stream.info.total_samples, 7);
    assert_eq!((stream.info.min_block_size, stream.info.max_block_size), (1, 3));
    assert_eq!((stream.info.sample_rate, stream.info.num_channels, stream.info.bit_depth), (44100, 2, 16));
    // the signature is that of the samples, interleaved, low byte first
    assert_eq!(
        stream.info.md5,
        vec![0xcd, 0x0a, 0x4e, 0xdb, 0xec, 0x9d, 0x30, 0x03, 0x56, 0xd2, 0xd1, 0x46, 0xd4, 0xbf, 0x01, 0x44]
    );
    // the head is the marker and STREAMINFO
    assert_eq!(stream.bytes[..42], FlacWriter::stream_header(&stream.info)[..]);
    // the frames follow, as planned, and give the samples back
    let mut lens = Vec::new();
    let mut at = 42;
    for (index, frame) in stream.frames.iter().enumerate() {
        let header = frame.build_header_bytes();
        assert_eq!(stream.bytes[at..at + header.len()], header[..]);
        let assignment = [0xa, 0x8, 0x1][index];
        assert_eq!(header[3] >> 4, assignment);
        // the frame ends where the CRC-16 of what went before is met
        let mut len = header.len() + 2;
        while flac_encoder::flac::encoder::crc::crc16_of_bytes(
            0x8005,
            &stream.bytes[at..at + len].to_vec(),
        ) != 0
            || (index + 1 < 3 && stream.bytes[at + len..at + len + 2] != [0xff, 0xf8])
        {
            len += 1;
        }
        lens.push(len);
        at += len;
    }
    assert_eq!(at, stream.bytes.len());
    assert_eq!(stream.info.min_frame_size as usize, *lens.iter().min().unwrap());
    assert_eq!(stream.info.max_frame_size as usize, *lens.iter().max().unwrap());
    assert_eq!(decode_stream(&stream.bytes, &lens, 16, 44100), samples);
}

#[test]
fn stream_of_no_samples_is_its_head() {
    let samples: Vec<Vec<i64>> = vec![vec![]];
    let stream = FlacWriter::encode_stream(&samples, 8000, 8, 4096, &vec![]).unwrap();
    assert!(stream.frames.is_empty());
    assert_eq!(stream.bytes.len(), 42);
    assert_eq!(stream.info.total_samples, 0);
    assert_eq!(stream.info.md5[..2], [0xd4, 0x1d]);
}

#[test]
fn stream_of_whole_blocks() {
    let samples = vec![wave(8192, 9000)];
    let stream = FlacWriter::encode_stream(&samples, 48000, 16, 4096, &vec![]).unwrap();
    assert_eq!(stream.frames.len(), 2);
    assert_eq!((stream.info.min_block_size, stream.info.max_block_size), (4096, 4096));
    let first = stream.info.min_frame_size.min(stream.info.max_frame_size) as usize;
    assert!(first > 0);
    assert_eq!(
        stream.bytes.len(),
        42 + stream.info.min_frame_size as usize + stream.info.max_frame_size as usize
    );
}

#[test]
fn stream_refuses_what_no_stream_holds() {
    let good = vec![vec![1i64, 2, 3], vec![4, 5, 6]];
    assert!(FlacWriter::encode_stream(&good, 44100, 16, 2, &vec![]).is_ok());
    assert!(FlacWriter::is_stream(&good, 44100, 16));
    let refused = |samples: &Vec<Vec<i64>>, rate: u32, bps: u8, size: u16| {
        matches!(
            FlacWriter::encode_stream(samples, rate, bps, size, &vec![]),
            Err(FlacWriterError::InvalidFormatError)
        )
    };
    assert!(refused(&good, 44100, 16, 0));
    assert!(refused(&good, 0, 16, 2));
    assert!(refused(&good, 0x10_0000, 16, 2));
    assert!(refused(&good, 44100, 3, 2));
    assert!(refused(&good, 44100, 33, 2));
    assert!(refused(&vec![], 44100, 16, 2));
    assert!(refused(&vec![vec![0i64]; 9], 44100, 16, 2));
    // channels of different lengths
    assert!(refused(&vec![vec![1, 2, 3], vec![4, 5]], 44100, 16, 2));
    // a sample that the depth does not hold
    assert!(refused(&vec![vec![1, 2, 128]], 44100, 8, 2));
    assert!(refused(&vec![vec![1, 2, -129]], 44100, 8, 2));
    assert!(!refused(&vec![vec![1, -128, 127]], 44100, 8, 2));
    assert!(!FlacWriter::is_stream(&vec![vec![1, 2, 128]], 44100, 8));
}

#[test]
fn stream_of_one_block_is_the_same_at_every_block_size() {
    let samples = vec![vec![7, -7, 70, -70, 700], vec![0, 1, 2, 3, 4]];
    let plans = vec![];
    let tight = FlacWriter::encode_stream(&samples, 8000, 12, 5, &plans).unwrap();
    let wide = FlacWriter::encode_stream(&samples, 8000, 12, 4096, &plans).unwrap();
    assert_eq!(tight.bytes, wide.bytes);
    assert_eq!((wide.info.min_block_size, wide.info.max_block_size), (5, 5));
    // a smaller block size tells itself in STREAMINFO
    let small = FlacWriter::encode_stream(&samples, 8000, 12, 4, &plans).unwrap();
    assert_eq!((small.info.min_block_size, small.info.max_block_size), (1, 4));
    assert_ne!(small.bytes, wide.bytes);
}

#[test]
fn streams_differ_where_the_assignment_differs() {
    let samples = vec![vec![10, 20, 30, 40], vec![11, 19, 33, 38]];
    let none: Vec<(Vec<i64>, u8, u8)> = vec![];
    let mut bytes = Vec::new();
    for (assignment, code) in [
        (ChannelAssignment::LeftRight, 0x1),
        (ChannelAssignment::LeftSide, 0x8),
        (ChannelAssignment::SideRight, 0x9),
        (ChannelAssignment::MidSide, 0xa),
    ] {
        let plans = vec![(assignment, vec![none.clone(), none.clone()])];
        let stream = FlacWriter::encode_stream(&samples, 44100, 16, 4, &plans).unwrap();
        // the frame tells the assignment in the high half of its fourth byte
        assert_eq!(stream.bytes[42 + 3] >> 4, code);
        let lens = vec![stream.bytes.len() - 42];
        assert_eq!(decode_stream(&stream.bytes, &lens, 16, 44100), samples);
        bytes.push(stream.bytes);
    }
    for i in 0..bytes.len() {
        for j in 0..i {
            assert_ne!(bytes[i], bytes[j]);
        }
    }
}
