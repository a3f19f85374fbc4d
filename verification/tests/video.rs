use run_louder::video::{
    decode_quantized_block, decode_quantized_macroblock, dequantize_macroblock,
    encode_quantized_block, encode_quantized_macroblock, quantize_macroblock, read_block_position,
    Macroblock, MacroblockPacketizer, MutableYUVFrame, YUVFrame, YUVFrameMacroblockIterator,
};

#[test]
fn video_test_quantization() {
    let block = Macroblock {
        y0: [[128; 8]; 8],
        y1: [[128; 8]; 8],
        y2: [[128; 8]; 8],
        y3: [[128; 8]; 8],
        u: [[128; 8]; 8],
        v: [[128; 8]; 8],
    };

    let quantized_block = quantize_macroblock(&block);
    let dequantized_block = dequantize_macroblock(&quantized_block);

    assert_eq!(block.y0, dequantized_block.y0);
    assert_eq!(block.y1, dequantized_block.y1);
    assert_eq!(block.y2, dequantized_block.y2);
    assert_eq!(block.y3, dequantized_block.y3);
    assert_eq!(block.u, dequantized_block.u);
    assert_eq!(block.v, dequantized_block.v);
}

#[test]
fn mod_test_quantization() {
    let block = Macroblock {
        y0: [[128; 8]; 8],
        y1: [[128; 8]; 8],
        y2: [[128; 8]; 8],
        y3: [[128; 8]; 8],
        u: [[128; 8]; 8],
        v: [[128; 8]; 8],
    };

    let quantized_block = quantize_macroblock(&block);
    let dequantized_block = dequantize_macroblock(&quantized_block);

    assert_eq!(block.y0, dequantized_block.y0);
    assert_eq!(block.y1, dequantized_block.y1);
    assert_eq!(block.y2, dequantized_block.y2);
    assert_eq!(block.y3, dequantized_block.y3);
    assert_eq!(block.u, dequantized_block.u);
    assert_eq!(block.v, dequantized_block.v);
}

fn compression_macroblock() -> Macroblock {
    Macroblock {
        y0: [
            [157, 157, 157, 157, 157, 156, 157, 156],
            [156, 156, 156, 155, 153, 154, 154, 155],
            [157, 158, 158, 157, 156, 156, 156, 155],
            [159, 159, 159, 159, 158, 158, 157, 156],
            [159, 158, 158, 159, 159, 159, 157, 158],
            [158, 157, 157, 159, 159, 158, 158, 157],
            [158, 158, 159, 159, 158, 158, 158, 157],
            [159, 159, 159, 159, 158, 158, 158, 157],
        ],
        y1: [
            [159, 160, 159, 159, 158, 158, 158, 158],
            [159, 159, 159, 158, 158, 158, 158, 158],
            [158, 158, 159, 158, 159, 158, 158, 158],
            [158, 157, 158, 158, 158, 158, 158, 158],
            [158, 158, 157, 157, 158, 158, 157, 157],
            [158, 157, 157, 158, 158, 158, 157, 157],
            [157, 157, 157, 157, 158, 158, 157, 157],
            [157, 157, 156, 156, 157, 157, 157, 157],
        ],
        y2: [
            [156, 157, 157, 156, 156, 156, 156, 155],
            [155, 155, 155, 154, 154, 154, 154, 154],
            [155, 156, 155, 156, 155, 155, 155, 155],
            [156, 157, 157, 157, 157, 157, 156, 156],
            [157, 158, 158, 158, 157, 157, 156, 156],
            [157, 158, 158, 157, 157, 156, 157, 156],
            [157, 157, 157, 157, 157, 157, 157, 156],
            [157, 158, 157, 157, 157, 157, 157, 156],
        ],
        y3: [
            [159, 157, 157, 157, 157, 158, 158, 157],
            [158, 158, 157, 157, 157, 157, 157, 156],
            [158, 158, 158, 158, 157, 157, 157, 156],
            [157, 157, 158, 158, 158, 157, 157, 156],
            [157, 157, 158, 158, 157, 157, 157, 156],
            [157, 157, 158, 157, 156, 157, 157, 156],
            [157, 157, 157, 156, 156, 156, 156, 156],
            [157, 156, 156, 156, 156, 156, 156, 156],
        ],
        u: [
            [131, 131, 131, 131, 132, 131, 132, 131],
            [128, 128, 129, 129, 129, 128, 128, 129],
            [128, 130, 128, 128, 128, 128, 129, 129],
            [128, 129, 128, 128, 128, 128, 129, 128],
            [129, 128, 128, 129, 129, 128, 128, 128],
            [129, 128, 128, 128, 128, 128, 128, 128],
            [128, 129, 128, 129, 129, 128, 128, 128],
            [128, 128, 128, 128, 129, 128, 129, 128],
        ],
        v: [
            [130, 129, 129, 129, 129, 129, 129, 129],
            [131, 130, 131, 131, 131, 131, 131, 130],
            [130, 130, 130, 131, 131, 130, 130, 130],
            [130, 131, 130, 130, 131, 131, 131, 131],
            [130, 130, 130, 130, 130, 130, 131, 130],
            [131, 130, 129, 129, 130, 131, 130, 130],
            [131, 131, 130, 131, 131, 130, 130, 131],
            [131, 131, 130, 130, 130, 130, 131, 130],
        ],
    }
}

#[test]
fn video_test_macroblock_compression() {
    let macroblock = compression_macroblock();
    let quantized_macroblock = quantize_macroblock(&macroblock);
    let mut rle_buf = Vec::new();
    encode_quantized_macroblock(&quantized_macroblock, &mut rle_buf);
    let (decoded_quantized_macroblock, remaining) = decode_quantized_macroblock(&rle_buf);
    assert!(remaining.is_empty());
    assert_eq!(quantized_macroblock, decoded_quantized_macroblock);
    let decoded_macroblock = dequantize_macroblock(&decoded_quantized_macroblock);

    // check that all values within the decoded macroblock are within epsilon of the original
    let epsilon = 20;
    for (original, decoded) in macroblock
        .y0
        .iter()
        .flatten()
        .zip(decoded_macroblock.y0.iter().flatten())
    {
        assert!((*original as i8 - *decoded as i8).abs() < epsilon);
    }
}

#[test]
fn mod_test_macroblock_compression() {
    let macroblock = compression_macroblock();
    let quantized_macroblock = quantize_macroblock(&macroblock);
    let mut rle_buf = Vec::new();
    encode_quantized_macroblock(&quantized_macroblock, &mut rle_buf);
    let (decoded_quantized_macroblock, remaining) = decode_quantized_macroblock(&rle_buf);
    assert!(remaining.is_empty());
    assert_eq!(quantized_macroblock, decoded_quantized_macroblock);
    let decoded_macroblock = dequantize_macroblock(&decoded_quantized_macroblock);

    let epsilon = 20;
    for (original, decoded) in macroblock
        .y0
        .iter()
        .flatten()
        .zip(decoded_macroblock.y0.iter().flatten())
    {
        assert!((*original as i8 - *decoded as i8).abs() < epsilon);
    }
}

#[test]
fn quantization_exact_values() {
    let mut block = Macroblock {
        y0: [[128; 8]; 8],
        y1: [[128; 8]; 8],
        y2: [[128; 8]; 8],
        y3: [[128; 8]; 8],
        u: [[128; 8]; 8],
        v: [[128; 8]; 8],
    };
    // Luminance step at (0, 0) is 1: the shift is carried exactly.
    block.y0[0][0] = 130;
    // Luminance step at (7, 7) is 4: 130 rounds to one step above 128.
    block.y0[7][7] = 130;
    let q = quantize_macroblock(&block);
    assert_eq!(q.y0[0][0], 2);
    assert_eq!(q.y0[7][7], 1);
    let d = dequantize_macroblock(&q);
    assert_eq!(d.y0[0][0], 130);
    assert_eq!(d.y0[7][7], 132);
}

#[test]
fn rle_encodes_runs() {
    let mut buf = Vec::new();
    encode_quantized_block(&[[0; 8]; 8], &mut buf);
    assert_eq!(buf, vec![0, 64]);

    let mut plane = [[0i8; 8]; 8];
    plane[0] = [1, 1, 1, 1, 1, 1, 1, 1];
    let mut buf2 = Vec::new();
    encode_quantized_block(&plane, &mut buf2);
    assert_eq!(buf2, vec![1, 8, 0, 56]);

    let (decoded, consumed) = decode_quantized_block(&buf2, 0);
    assert_eq!(consumed, 4);
    assert_eq!(decoded, plane);
}

#[test]
fn rle_tolerates_truncation() {
    // A truncated stream decodes to zeros past its end, never to a fault.
    let (decoded, consumed) = decode_quantized_block(&[5, 3], 0);
    assert_eq!(consumed, 2);
    assert_eq!(decoded[0][0], 5);
    assert_eq!(decoded[0][1], 5);
    assert_eq!(decoded[0][2], 5);
    assert_eq!(decoded[0][3], 0);
    assert_eq!(decoded[7][7], 0);
}

fn gradient_bytes(width: usize, height: usize) -> Vec<u8> {
    let mut data = vec![0u8; width * height * 2];
    for (k, b) in data.iter_mut().enumerate() {
        *b = (k % 251) as u8;
    }
    data
}

#[test]
fn frame_pixel_accessors() {
    let data = gradient_bytes(32, 16);
    let frame = YUVFrame::new(32, 16, &data);
    // Sample for pixel (2, 1) starts at byte (1 * 16 + 1) * 4 = 68.
    assert_eq!(frame.get_luma(2, 1), data[68]);
    assert_eq!(frame.get_luma(3, 1), data[70]);
    assert_eq!(frame.get_chroma(2, 1), (data[69], data[71]));
}

#[test]
fn iterator_cuts_macroblocks() {
    let data = gradient_bytes(32, 16);
    let frame = YUVFrame::new(32, 16, &data);
    let mut iter = YUVFrameMacroblockIterator::new(&frame);

    let first = iter.next().unwrap();
    assert_eq!((first.x, first.y), (0, 0));
    for i in 0..8 {
        for j in 0..8 {
            assert_eq!(first.block.y0[i][j], frame.get_luma(i, j));
            assert_eq!(first.block.y1[i][j], frame.get_luma(8 + i, j));
            assert_eq!(first.block.y2[i][j], frame.get_luma(i, 8 + j));
            assert_eq!(first.block.y3[i][j], frame.get_luma(8 + i, 8 + j));
            assert_eq!(first.block.u[i][j], frame.get_chroma(2 * i, 2 * j).0);
            assert_eq!(first.block.v[i][j], frame.get_chroma(2 * i, 2 * j).1);
        }
    }

    let second = iter.next().unwrap();
    assert_eq!((second.x, second.y), (16, 0));
    assert_eq!(second.block.y0[0][0], frame.get_luma(16, 0));
    assert!(iter.next().is_none());
    assert!(iter.next().is_none());
}

#[test]
fn copy_macroblock_into_frame() {
    let data = gradient_bytes(16, 16);
    let frame = YUVFrame::new(16, 16, &data);
    let mut iter = YUVFrameMacroblockIterator::new(&frame);
    let cut = iter.next().unwrap();

    let zeros = vec![0u8; 16 * 16 * 2];
    let mut target = MutableYUVFrame::new(16, 16, &zeros);
    cut.block.copy_to_yuv422_frame(&mut target, 0, 0);

    for x in 0..16 {
        for y in 0..16 {
            assert_eq!(target.get_luma(x, y), frame.get_luma(x, y));
            // Chrominance was subsampled at even rows and columns.
            let even = (x - x % 2, y - y % 2);
            assert_eq!(target.get_chroma(x, y), frame.get_chroma(even.0, even.1));
        }
    }
}

#[test]
fn mutable_frame_round_trips_bytes() {
    let data = gradient_bytes(16, 16);
    let frame = MutableYUVFrame::new(16, 16, &data);
    assert_eq!(frame.to_bytes(), data);
}

#[test]
fn packetizer_fills_and_flushes() {
    let mut packer = MacroblockPacketizer::new();
    let encoded = vec![0xEEu8; 700];
    assert!(packer.add_macroblock(0x0102, 0x0010, &encoded).is_none());
    // A second block of the same size would overrun the payload bound, so
    // the filled payload comes back and the block opens the next one.
    let payload = packer.add_macroblock(16, 0, &encoded).unwrap();
    assert_eq!(payload.len(), 704);
    assert_eq!(&payload[..4], &[0x01, 0x02, 0x00, 0x10]);
    assert_eq!(payload[4], 0xEE);

    let tail = packer.flush().unwrap();
    assert_eq!(tail.len(), 704);
    assert_eq!(&tail[..4], &[0x00, 0x10, 0x00, 0x00]);
    assert!(packer.flush().is_none());
}

#[test]
fn block_positions_round_trip() {
    let payload = [0x01u8, 0x02, 0x00, 0x10, 0xAA];
    assert_eq!(read_block_position(&payload, 0), Some((0x0102, 0x0010)));
    assert_eq!(read_block_position(&payload, 2), None);
    assert_eq!(read_block_position(&[], 0), None);
}
