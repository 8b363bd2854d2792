use w4_pnger::bitfiddle::{BitReader, BitSliceWriter, BitVecWriter, BitWriter};
use w4_pnger::common::{BitsPerPixel, CompType};
use w4_pnger::convert::{encode_sprite, Analyzer, Converter, OutputType};
use w4_pnger::decomp::{assemble_bitplanes_in_place, DecompressError, Decompressor};
use w4_pnger::pkcomp::{compress_for, entropy_encode, Compressor, PkComp, GRID_SIZE};
use w4_pnger::transforms::{
    delta_decode, delta_encode, delta_encode_by_jump, split_bitplanes, xor_bitplanes,
};
use w4_pnger::decomp::{delta_decode_in_place, jump_delta_decode_in_place};
use w4_pnger::wasm4png::{
    assume_u8, bit_depth_to_bytes, color_from_slice, compress_to_u8, order_palette, ColorKind, Depth, Frame,
    SpriteError, W4Sprite,
};

fn sprite(bytes: Vec<u8>, width: u16, height: u16, bpp: BitsPerPixel) -> W4Sprite {
    W4Sprite { bytes, width, height, bpp }
}

fn round_trip(sp: &W4Sprite) -> Vec<u8> {
    let (wire, _) = encode_sprite(sp, true).unwrap();
    let mut buf = vec![0u8; sp.bytes.len()];
    let mut d = Decompressor::new(&mut buf[..]);
    let h = d.decompress(&wire).unwrap();
    assert_eq!(h.width as u16, sp.width);
    assert_eq!(h.height as u16, sp.height);
    h.bytes.to_vec()
}

fn pseudo_random(n: usize, seed: u32) -> Vec<u8> {
    let mut x = seed;
    let mut out = Vec::new();
    for _ in 0..n {
        x = x.wrapping_mul(1103515245).wrapping_add(12345);
        out.push((x >> 16) as u8);
    }
    out
}

fn brightness(sample: &[u8], kind: ColorKind) -> f32 {
    let (r, g, b, a) = match kind {
        ColorKind::Grayscale => (sample[0], sample[0], sample[0], 1),
        ColorKind::GrayscaleAlpha => (sample[0], sample[0], sample[0], sample[1]),
        ColorKind::Rgb => (sample[0], sample[1], sample[2], 1),
        ColorKind::Rgba => (sample[0], sample[1], sample[2], sample[3]),
        ColorKind::Indexed => (0, 0, 0, 0),
    };
    ((r as f32) * 0.2126 + (g as f32) * 0.7152 + (b as f32) * 0.0722) * (a as f32)
}

fn brightness_key(sample: &[u8], kind: ColorKind) -> u128 {
    let bits = brightness(sample, kind).to_bits();
    let ordered = if bits & 0x8000_0000 != 0 { !bits } else { bits | 0x8000_0000 };
    let mut tail: u64 = 0;
    for b in sample {
        tail = (tail << 8) | *b as u64;
    }
    ((ordered as u128) << 64) | tail as u128
}

fn by_brightness(palette: Vec<Vec<u8>>, kind: ColorKind) -> Vec<Vec<u8>> {
    let keys: Vec<u128> = palette.iter().map(|c| brightness_key(c, kind)).collect();
    let (ordered, ordered_keys) = order_palette(&palette, &keys).unwrap();
    assert!(ordered_keys.windows(2).all(|w| w[0] > w[1]));
    ordered
}

fn rgb_frame(width: u32, height: u32, pixels: &[[u8; 3]]) -> Frame {
    let mut data = Vec::new();
    for p in pixels {
        data.extend_from_slice(p);
    }
    Frame { width, height, color_type: ColorKind::Rgb, bit_depth: Depth::Eight, data }
}

#[test]
fn test_comp_decomp() {
    let bytes = pseudo_random(32, 7);
    let sp = sprite(bytes.clone(), 16, 8, BitsPerPixel::Two);
    let comp = PkComp;
    let mut compressed = Compressor::compress(&comp, &bytes).unwrap();

    let mut decomp_buf = vec![0u8; bytes.len() * 2];
    let mut decomp = Decompressor::new(&mut decomp_buf[..]);

    let mut assembled = Vec::new();
    assembled.push(CompType::Pk.as_byte());
    assembled.append(&mut sp.get_header_bytes());
    assembled.append(&mut compressed.header_bytes);
    assembled.append(&mut compressed.content_bytes);
    let decompressed = decomp.decompress(&assembled[..]).unwrap();

    assert_eq!(decompressed.bytes, &bytes[..]);
}

#[test]
fn all_zero_sprite_entropy_stream() {
    let raster = vec![0u8; 8];
    // framing bit 0, then 11110 and 00001, least significant bit first
    assert_eq!(entropy_encode(&raster), vec![0x1E, 0x04]);
    let sp = sprite(raster.clone(), 8, 8, BitsPerPixel::One);
    assert_eq!(round_trip(&sp), raster);
}

#[test]
fn all_one_sprite_after_one_delta_pass() {
    let raster = vec![0xFFu8; 8];
    let mut once = Vec::new();
    delta_encode(&raster, &mut once);
    assert_eq!(once, vec![0x01, 0, 0, 0, 0, 0, 0, 0]);
    let with_seq = compress_for(&raster, false, false, 1, 0, 4);
    assert_eq!(with_seq.len(), 2);
    let best = PkComp.compress(&raster).unwrap();
    assert_eq!(best.content_bytes.len(), 2);
    let sp = sprite(raster.clone(), 8, 8, BitsPerPixel::One);
    assert_eq!(round_trip(&sp), raster);
}

#[test]
fn checkerboard_is_shorter_than_raster() {
    let raster = vec![0xAA, 0x55, 0xAA, 0x55, 0xAA, 0x55, 0xAA, 0x55u8];
    let best = PkComp.compress(&raster).unwrap();
    assert!(best.content_bytes.len() < 8);
    let sp = sprite(raster.clone(), 8, 8, BitsPerPixel::One);
    assert_eq!(round_trip(&sp), raster);
}

#[test]
fn vertical_stripes_with_byte_jump() {
    let raster = vec![0xF0u8; 8];
    let mut jumped = Vec::new();
    delta_encode_by_jump(&raster, &mut jumped, 8);
    assert_eq!(jumped, vec![0xF0, 0, 0, 0, 0, 0, 0, 0]);
    let sp = sprite(raster.clone(), 8, 8, BitsPerPixel::One);
    assert_eq!(round_trip(&sp), raster);
}

#[test]
fn four_color_gradient_is_brightness_ordered() {
    let white = [255u8, 255, 255];
    let light = [170u8, 170, 170];
    let dark = [85u8, 85, 85];
    let black = [0u8, 0, 0];
    let mut pixels = Vec::new();
    for _ in 0..4 {
        pixels.extend_from_slice(&[black, dark, light, white]);
    }
    let frame = rgb_frame(4, 4, &pixels);
    let palette = w4_pnger::wasm4png::extract_palette(&frame).unwrap();
    assert_eq!(palette, vec![black.to_vec(), dark.to_vec(), light.to_vec(), white.to_vec()]);
    let order = by_brightness(palette.clone(), ColorKind::Rgb);
    assert_eq!(order, vec![white.to_vec(), light.to_vec(), dark.to_vec(), black.to_vec()]);
    let sp = W4Sprite::from_frame(&frame, &order).unwrap();
    assert_eq!(sp.bpp, BitsPerPixel::Two);
    // each row reads 3, 2, 1, 0 at two bits per pixel
    assert_eq!(sp.get_bytes(), vec![0b11100100u8; 4]);
    assert_eq!(sp.get_header_bytes(), vec![4, 4, 1]);

    let mut permuted = palette.clone();
    permuted.reverse();
    permuted.swap(0, 2);
    let order2 = by_brightness(permuted, ColorKind::Rgb);
    let sp2 = W4Sprite::from_frame(&frame, &order2).unwrap();
    assert_eq!(sp2.get_bytes(), sp.get_bytes());
    let (a, _) = encode_sprite(&sp, true).unwrap();
    let (b, _) = encode_sprite(&sp2, true).unwrap();
    assert_eq!(a, b);
}

#[test]
fn palette_stability_across_discovery_order() {
    let red = [200u8, 0, 0];
    let blue = [0u8, 0, 200];
    let mut first = Vec::new();
    let mut second = Vec::new();
    for i in 0..16 {
        first.push(if i % 3 == 0 { red } else { blue });
        second.push(if i % 3 == 0 { red } else { blue });
    }
    second.swap(0, 1);
    second.swap(3, 4);
    let f1 = rgb_frame(8, 2, &first);
    let f2 = rgb_frame(8, 2, &second);
    let p1 = w4_pnger::wasm4png::extract_palette(&f1).unwrap();
    let p2 = w4_pnger::wasm4png::extract_palette(&f2).unwrap();
    assert_ne!(p1, p2);
    let o1 = by_brightness(p1, ColorKind::Rgb);
    let o2 = by_brightness(p2, ColorKind::Rgb);
    assert_eq!(o1, o2);
    let s1 = W4Sprite::from_frame(&f1, &o1).unwrap();
    assert_eq!(s1.bpp, BitsPerPixel::One);
    // red is brighter than blue, so red takes index 0
    assert_eq!(s1.get_bytes(), vec![0b01101101u8, 0b10110110]);
}

#[test]
fn five_colors_are_rejected() {
    let colors = [[0u8, 0, 0], [50, 0, 0], [0, 50, 0], [0, 0, 50], [50, 50, 50]];
    let mut pixels = Vec::new();
    for i in 0..8 {
        pixels.push(colors[i % 5]);
    }
    let bad = rgb_frame(8, 1, &pixels);
    assert_eq!(
        w4_pnger::wasm4png::extract_palette(&bad).unwrap_err(),
        SpriteError::TooManyColors { x: 4, y: 0 }
    );
    let good = rgb_frame(8, 1, &[[9u8, 9, 9]; 8]);
    let palette = w4_pnger::wasm4png::extract_palette(&good).unwrap();
    assert_eq!(palette.len(), 1);
    let sp = W4Sprite::from_frame(&good, &palette).unwrap();
    assert_eq!(sp.get_bytes(), vec![0u8]);
}

#[test]
fn normalizer_errors() {
    let big = Frame { width: 256, height: 1, color_type: ColorKind::Grayscale, bit_depth: Depth::Eight, data: vec![0; 256] };
    assert_eq!(w4_pnger::wasm4png::extract_palette(&big).unwrap_err(), SpriteError::TooLarge);
    let short = Frame { width: 8, height: 1, color_type: ColorKind::Grayscale, bit_depth: Depth::Eight, data: vec![0; 7] };
    assert_eq!(w4_pnger::wasm4png::extract_palette(&short).unwrap_err(), SpriteError::TruncatedFrame);
    let odd = Frame { width: 3, height: 1, color_type: ColorKind::Grayscale, bit_depth: Depth::Eight, data: vec![0; 3] };
    assert_eq!(W4Sprite::from_frame(&odd, &vec![vec![0]]).unwrap_err(), SpriteError::UnalignedSize);
    let gray = Frame { width: 8, height: 1, color_type: ColorKind::Grayscale, bit_depth: Depth::Eight, data: vec![0, 1, 0, 1, 0, 1, 0, 1] };
    assert_eq!(W4Sprite::from_frame(&gray, &vec![vec![0]]).unwrap_err(), SpriteError::BadPalette);
    let sp = W4Sprite::from_frame(&gray, &vec![vec![1], vec![0]]).unwrap();
    assert_eq!(sp.get_bytes(), vec![0b10101010u8]);
}

#[test]
fn indexed_frames_keep_their_indices() {
    let frame = Frame { width: 8, height: 1, color_type: ColorKind::Indexed, bit_depth: Depth::Eight, data: vec![0, 1, 2, 3, 3, 2, 1, 0] };
    let palette = w4_pnger::wasm4png::extract_palette(&frame).unwrap();
    let sp = W4Sprite::from_frame(&frame, &palette).unwrap();
    assert_eq!(sp.bpp, BitsPerPixel::Two);
    assert_eq!(sp.get_bytes(), vec![0b00011011u8, 0b11100100]);
}

#[test]
fn channel_helpers() {
    assert_eq!(bit_depth_to_bytes(Depth::Sixteen), 2);
    assert_eq!(bit_depth_to_bytes(Depth::Four), 1);
    assert_eq!(compress_to_u8(&[0xAB, 0xCD], Depth::Sixteen), 0xAB);
    assert_eq!(assume_u8(&[0x01, 0x02], Depth::Sixteen), 0x02);
    assert_eq!(assume_u8(&[0x01, 0x02], Depth::Eight), 0x01);
}

fn trailing_zeros(head: usize, total: usize, seed: u32) -> Vec<u8> {
    let mut v = pseudo_random(head, seed);
    v.resize(total, 0);
    v
}

#[test]
fn round_trip_many_rasters() {
    for seed in 0..12u32 {
        let one = sprite(pseudo_random(8, seed), 8, 8, BitsPerPixel::One);
        assert_eq!(round_trip(&one), one.bytes);
        let two = sprite(pseudo_random(32, seed + 100), 16, 8, BitsPerPixel::Two);
        assert_eq!(round_trip(&two), two.bytes);

        let one = sprite(trailing_zeros(4, 32, seed), 16, 16, BitsPerPixel::One);
        assert_eq!(round_trip(&one), one.bytes);
        let two = sprite(trailing_zeros(32, 64, seed + 100), 16, 16, BitsPerPixel::Two);
        assert_eq!(round_trip(&two), two.bytes);
    }
    let mut sparse = vec![0u8; 64];
    sparse[5] = 0x10;
    sparse[40] = 0x81;
    let sp = sprite(sparse.clone(), 16, 16, BitsPerPixel::Two);
    assert_eq!(round_trip(&sp), sparse);
}

#[test]
fn transforms_invert() {
    let raster = pseudo_random(12, 3);
    let mut enc = Vec::new();
    delta_encode(&raster, &mut enc);
    let mut dec = Vec::new();
    delta_decode(&enc, &mut dec);
    assert_eq!(dec, raster);
    let mut in_place = enc.clone();
    delta_decode_in_place(&mut in_place[..]);
    assert_eq!(in_place, raster);

    let mut j = 4;
    while j <= 32 {
        let mut jumped = Vec::new();
        delta_encode_by_jump(&raster, &mut jumped, j);
        jump_delta_decode_in_place(&mut jumped[..], j);
        assert_eq!(jumped, raster);
        j += 2;
    }

    let mut left = Vec::new();
    let mut right = Vec::new();
    split_bitplanes(&raster, &mut left, &mut right);
    let mut joined = left.clone();
    joined.extend_from_slice(&right);
    assemble_bitplanes_in_place(&mut joined[..]);
    assert_eq!(joined, raster);
}

#[test]
fn split_and_xor_planes() {
    let raster = vec![0b01010101u8, 0b11110000];
    let mut left = Vec::new();
    let mut right = Vec::new();
    split_bitplanes(&raster, &mut left, &mut right);
    assert_eq!(left, vec![0b1111u8 | 0b1100 << 4]);
    assert_eq!(right, vec![0b0000u8 | 0b1100 << 4]);
    let mut l2 = left.clone();
    xor_bitplanes(&right, &mut l2);
    assert_eq!(l2, vec![0x0Fu8]);
}

#[test]
fn search_is_optimal_over_grid() {
    let raster = pseudo_random(16, 42);
    let best = PkComp.compress(&raster).unwrap();
    let mut min = usize::MAX;
    let mut count = 0;
    for split in 0..=1usize {
        for xor in 0..=split {
            for seq in 0..=4usize {
                for jump in 0..=2usize {
                    let mut size = 4;
                    while size <= 32 {
                        let c = compress_for(&raster, split != 0, xor != 0, seq, jump, size);
                        min = min.min(c.len());
                        count += 1;
                        size += 2;
                    }
                }
            }
        }
    }
    assert_eq!(count, GRID_SIZE);
    assert_eq!(best.content_bytes.len(), min);
    let p = best.params;
    let again = compress_for(&raster, p.split, p.xor, p.seq_delta, p.jump_delta, p.jump_size);
    assert_eq!(again, best.content_bytes);
    let byte = (p.split as u8) | ((p.xor as u8) << 1) | ((p.seq_delta as u8) << 2) | ((p.jump_delta as u8) << 6);
    assert_eq!(best.header_bytes, vec![byte, p.jump_size as u8]);
    assert_eq!(best.total_size, best.content_bytes.len() + 2);
    assert_eq!(best.readable_compression_name, "PnTree");
}

#[test]
fn byte_length_identity() {
    let raster = pseudo_random(16, 9);
    let sp = sprite(raster.clone(), 16, 8, BitsPerPixel::One);
    let (plain, none) = encode_sprite(&sp, false).unwrap();
    assert!(none.is_none());
    assert_eq!(plain.len(), 1 + 3 + 16 * 8 / 8);
    assert_eq!(&plain[..4], &[0u8, 16, 8, 0]);
    assert_eq!(&plain[4..], &raster[..]);
    let (packed, result) = encode_sprite(&sp, true).unwrap();
    let result = result.unwrap();
    assert_eq!(packed.len(), 1 + 3 + result.total_size);
    assert_eq!(result.total_size, 2 + result.content_bytes.len());

    let mut buf = vec![0u8; 16];
    let mut d = Decompressor::new(&mut buf[..]);
    let h = d.decompress(&plain).unwrap();
    assert_eq!(h.bytes, &raster[..]);
    assert_eq!(h.flags, 0);
}

#[test]
fn decompress_errors() {
    let mut buf = vec![0u8; 4];
    let mut d = Decompressor::new(&mut buf[..]);
    assert_eq!(d.decompress(&[]).err(), Some(DecompressError::Truncated));
    assert_eq!(d.decompress(&[2, 8, 8, 0]).err(), Some(DecompressError::InvalidCompType));
    assert_eq!(d.decompress(&[0, 8, 8, 2, 0]).err(), Some(DecompressError::InvalidFlags));
    assert_eq!(d.decompress(&[0, 8, 8, 0, 1, 2]).err(), Some(DecompressError::BufferTooSmall));
    assert_eq!(d.decompress(&[0, 8, 4, 0, 1, 2]).err(), Some(DecompressError::Truncated));
    assert_eq!(d.decompress(&[1, 8, 8, 0, 0]).err(), Some(DecompressError::Truncated));
    assert_eq!(d.decompress(&[1, 8, 8, 3, 0, 4, 0]).err(), Some(DecompressError::InvalidFlags));
    assert_eq!(d.decompress(&[1, 8, 8, 0, 0, 4, 0]).err(), Some(DecompressError::BufferTooSmall));
}

#[test]
fn header_flags_and_kinds() {
    assert_eq!(BitsPerPixel::try_from_flags(0), Ok(BitsPerPixel::One));
    assert_eq!(BitsPerPixel::try_from_flags(1), Ok(BitsPerPixel::Two));
    assert!(BitsPerPixel::try_from_flags(2).is_err());
    assert_eq!(BitsPerPixel::Two.get_num(), 2);
    assert_eq!(BitsPerPixel::One.get_flags(), 0);
    assert_eq!(CompType::try_from(1), Ok(CompType::Pk));
    assert_eq!(CompType::try_from(0), Ok(CompType::Uncompressed));
    assert!(CompType::try_from(2).is_err());
    assert_eq!(OutputType::from_str("raw"), OutputType::Raw);
    assert_eq!(OutputType::from_str("text"), OutputType::Text);
    assert_eq!(OutputType::from_str("rs"), OutputType::Rust);
    assert!(PkComp.compress(&vec![]).is_err());
    let c = Converter::new("*.png", "out", OutputType::Raw, true);
    assert!(c.compress);
    assert_eq!(Analyzer::new("a/*.png").path, "a/*.png");
}

#[test]
fn bit_reader_and_writers() {
    let data = [0b0000_0101u8, 0x80];
    let mut r = BitReader::new(&data);
    assert_eq!(r.peek_bit(), Some(true));
    assert_eq!(r.read_bit(), Some(true));
    assert_eq!(r.read_bit(), Some(false));
    assert_eq!(r.read_at(15), Some(true));
    assert_eq!(r.read_at(16), None);
    assert_eq!(r.read_bit(), Some(true));

    let mut v = vec![9u8];
    let mut w = BitVecWriter::new(&mut v);
    w.write(0b101, 3);
    w.write_bit(1);
    w.write(0b11110, 5);
    assert_eq!(v, vec![0b1111_1101u8, 0b0000_0000]);

    let mut v2 = Vec::new();
    let mut w2 = BitVecWriter::new(&mut v2);
    BitWriter::write_bit_at(&mut w2, 1, 10);
    BitWriter::swap(&mut w2, 10, 0);
    assert_eq!(BitWriter::read_at(&w2, 0), Some(true));
    assert_eq!(v2, vec![1u8, 0]);

    let mut s = [0u8; 2];
    let mut sw = BitSliceWriter::new(&mut s);
    sw.write(0b1001, 4);
    sw.write_bit_at(1, 15);
    sw.swap(0, 1);
    assert_eq!(sw.get_end(), 4);
    assert_eq!(s, [0b0000_1010u8, 0x80]);
}

#[test]
fn lone_final_pair_round_trips() {
    // a lone non-zero pair at the end is flushed with the marker that the
    // decoder expects after a run: 0 and its first bit
    let raster = vec![0x40u8];
    let content = compress_for(&raster, false, false, 0, 0, 4);
    assert_eq!(content, vec![0b0100_0010u8]);
    let wire = vec![CompType::Pk.as_byte(), 8, 1, 0, 0, 4, content[0]];
    let mut buf = vec![0u8; 1];
    let mut d = Decompressor::new(&mut buf[..]);
    let h = d.decompress(&wire).unwrap();
    assert_eq!(h.bytes, &[0x40u8][..]);

    let mut last = vec![0u8; 8];
    last[7] = 0x80;
    let sp = sprite(last.clone(), 8, 8, BitsPerPixel::One);
    assert_eq!(round_trip(&sp), last);
    let ones = sprite(vec![0x03, 0, 0, 0, 0, 0, 0, 0xC0], 8, 8, BitsPerPixel::One);
    assert_eq!(round_trip(&ones), ones.bytes);
}

#[test]
fn palette_order_needs_distinct_keys() {
    let palette = vec![vec![1u8], vec![2u8], vec![3u8]];
    assert!(order_palette(&palette, &vec![5, 5, 1]).is_none());
    assert!(order_palette(&palette, &vec![5, 1]).is_none());
    let (ordered, keys) = order_palette(&palette, &vec![1, 9, 4]).unwrap();
    assert_eq!(ordered, vec![vec![2u8], vec![3u8], vec![1u8]]);
    assert_eq!(keys, vec![9, 4, 1]);
}

fn decode_literal(wire: &[u8], fill: u8) -> Vec<u8> {
    let mut buf = vec![fill; 8];
    let mut d = Decompressor::new(&mut buf[..]);
    let h = d.decompress(wire).unwrap();
    assert_eq!((h.width, h.height, h.flags), (8, 8, 0));
    h.bytes.to_vec()
}

#[test]
fn literal_pntree_sprites_decode() {
    assert_eq!(decode_literal(&[1, 8, 8, 0, 0x00, 0x04, 0x1E, 0x04], 0xAA), vec![0u8; 8]);
    assert_eq!(decode_literal(&[1, 8, 8, 0, 0x40, 0x04, 0x3F, 0xF7], 0), vec![0xFFu8; 8]);
    assert_eq!(decode_literal(&[1, 8, 8, 0, 0x40, 0x08, 0xFC, 0xDC, 0x02], 0), vec![0xF0u8; 8]);
}

#[test]
fn compress_bytes_leaves_the_transformed_buffer() {
    let mut ones = vec![0xFFu8; 8];
    let out = w4_pnger::pkcomp::compress_bytes(&mut ones, 1, 0, 4);
    assert_eq!(ones, vec![0x01, 0, 0, 0, 0, 0, 0, 0]);
    assert_eq!(out, vec![0x7D, 0x00]);
    let mut pair = vec![0x03u8, 0, 0, 0, 0, 0, 0, 0];
    let out = w4_pnger::pkcomp::compress_bytes(&mut pair, 0, 0, 4);
    assert_eq!(out, vec![0xCF, 0x03]);
    assert_eq!(pair, vec![0x03u8, 0, 0, 0, 0, 0, 0, 0]);
}

#[test]
fn decompress_errors_leave_the_buffer() {
    let mut buf = vec![7u8; 4];
    let mut d = Decompressor::new(&mut buf[..]);
    assert_eq!(d.decompress(&[2, 8, 8, 0]).err(), Some(DecompressError::InvalidCompType));
    assert_eq!(buf, vec![7u8; 4]);
    let mut big = vec![9u8; 3];
    let mut d = Decompressor::new(&mut big[..]);
    let h = d.decompress(&[1, 8, 1, 0, 0, 4, 0x42]).unwrap();
    assert_eq!(h.bytes, &[0x40u8][..]);
    assert_eq!(big, vec![0x40u8, 9, 9]);
}

#[test]
fn colours_from_samples() {
    assert_eq!(color_from_slice(&[10, 20, 30], ColorKind::Rgb, Depth::Eight), Some((10, 20, 30, 1)));
    assert_eq!(color_from_slice(&[0xAB, 1, 0xCD, 2], ColorKind::GrayscaleAlpha, Depth::Sixteen), Some((0xAB, 0xAB, 0xAB, 0xCD)));
    assert_eq!(color_from_slice(&[1, 2, 3, 4], ColorKind::Rgba, Depth::Eight), Some((1, 2, 3, 4)));
    assert_eq!(color_from_slice(&[7], ColorKind::Grayscale, Depth::Four), Some((7, 7, 7, 1)));
    assert_eq!(color_from_slice(&[3], ColorKind::Indexed, Depth::Eight), None);
}
