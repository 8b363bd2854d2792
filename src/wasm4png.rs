//! Normalisation of a decoded PNG frame into the console's packed 1-bpp or
//! 2-bpp raster with its 3-byte sprite header.
use vstd::prelude::*;
use crate::common::BitsPerPixel;

verus! {

/// The colour type of a decoded frame.
#[derive(Debug, Clone, Copy, PartialEq, Eq, Structural)]
pub enum ColorKind {
    Grayscale,
    Rgb,
    Indexed,
    GrayscaleAlpha,
    Rgba,
}

/// The bit depth of a decoded frame.
#[derive(Debug, Clone, Copy, PartialEq, Eq, Structural)]
pub enum Depth {
    One,
    Two,
    Four,
    Eight,
    Sixteen,
}

/// A decoded PNG frame: its size, colour type, bit depth and sample bytes.
#[derive(Debug)]
pub struct Frame {
    pub width: u32,
    pub height: u32,
    pub color_type: ColorKind,
    pub bit_depth: Depth,
    pub data: Vec<u8>,
}

/// Why a frame could not be normalised.
#[derive(Debug, Clone, Copy, PartialEq, Eq, Structural)]
pub enum SpriteError {
    /// A fifth distinct colour, first met at pixel `(x, y)`.
    TooManyColors { x: u32, y: u32 },
    /// The frame is wider or taller than 255 pixels.
    TooLarge,
    /// The sample bytes end before the last pixel.
    TruncatedFrame,
    /// The palette order given misses a pixel's colour or holds more than four.
    BadPalette,
    /// The pixel count is not a multiple of 8.
    UnalignedSize,
}

/// The channels per pixel of a colour type.
pub open spec fn channels(c: ColorKind) -> nat {
    match c {
        ColorKind::Grayscale => 1,
        ColorKind::Rgb => 3,
        ColorKind::Indexed => 1,
        ColorKind::GrayscaleAlpha => 2,
        ColorKind::Rgba => 4,
    }
}

/// The bytes per channel at a bit depth.
pub open spec fn depth_bytes(d: Depth) -> nat {
    match d {
        Depth::Sixteen => 2,
        _ => 1,
    }
}

/// The bytes of one pixel's sample.
pub open spec fn sample_len(f: &Frame) -> nat {
    depth_bytes(f.bit_depth) * channels(f.color_type)
}

/// The number of pixels.
pub open spec fn pixel_count(f: &Frame) -> nat {
    f.width as nat * f.height as nat
}

/// The frame fits a sprite and holds a sample for every pixel.
pub open spec fn frame_ok(f: &Frame) -> bool {
    &&& f.width <= 255
    &&& f.height <= 255
    &&& pixel_count(f) * sample_len(f) <= f.data@.len()
}

/// The sample of pixel `k`, in raster order.
pub open spec fn sample(f: &Frame, k: int) -> Seq<u8> {
    f.data@.subrange(k * sample_len(f), (k + 1) * sample_len(f))
}

/// The distinct samples among the first `k` pixels, in order of first appearance.
pub open spec fn distinct_prefix(f: &Frame, k: int) -> Seq<Seq<u8>>
    decreases k,
{
    if k <= 0 {
        Seq::empty()
    } else {
        let d = distinct_prefix(f, k - 1);
        if d.contains(sample(f, k - 1)) {
            d
        } else {
            d.push(sample(f, k - 1))
        }
    }
}

proof fn lemma_distinct_grows(f: &Frame, a: int, b: int)
    requires
        a <= b,
    ensures
        distinct_prefix(f, a).len() <= distinct_prefix(f, b).len(),
    decreases b - a,
{
    if a < b {
        lemma_distinct_grows(f, a, b - 1);
    }
}

/// The views of a vector of byte vectors.
pub open spec fn views(p: Seq<Vec<u8>>) -> Seq<Seq<u8>> {
    p.map_values(|v: Vec<u8>| v@)
}

/// The bytes per channel at a bit depth.
pub fn bit_depth_to_bytes(bit_depth: Depth) -> (r: usize)
    ensures
        r == depth_bytes(bit_depth),
{
    match bit_depth {
        Depth::One => 1,
        Depth::Two => 1,
        Depth::Four => 1,
        Depth::Eight => 1,
        Depth::Sixteen => 2,
    }
}

/// The channels per pixel of a colour type.
pub fn channel_count(color_type: ColorKind) -> (r: usize)
    ensures
        r == channels(color_type),
{
    match color_type {
        ColorKind::Grayscale => 1,
        ColorKind::Rgb => 3,
        ColorKind::Indexed => 1,
        ColorKind::GrayscaleAlpha => 2,
        ColorKind::Rgba => 4,
    }
}

/// One channel as an 8-bit value: the channel itself, or the most
/// significant byte of a 16-bit channel.
pub fn compress_to_u8(slice: &[u8], bit_depth: Depth) -> (r: u8)
    requires
        slice@.len() >= depth_bytes(bit_depth),
    ensures
        r == slice@[0],
{
    slice[0]
}

/// The 8-bit red, green, blue and alpha of a sample: each channel's most
/// significant byte, grey repeated over red, green and blue, and an alpha of
/// 1 where the colour type has none.
pub open spec fn rgba_of(s: Seq<u8>, kind: ColorKind, d: Depth) -> (u8, u8, u8, u8) {
    let b = depth_bytes(d) as int;
    match kind {
        ColorKind::Grayscale => (s[0], s[0], s[0], 1u8),
        ColorKind::Rgb => (s[0], s[b], s[2 * b], 1u8),
        ColorKind::GrayscaleAlpha => (s[0], s[0], s[0], s[b]),
        ColorKind::Rgba => (s[0], s[b], s[2 * b], s[3 * b]),
        ColorKind::Indexed => (0u8, 0u8, 0u8, 0u8),
    }
}

/// The 8-bit colour of a sample; `None` for an indexed frame, whose samples
/// are palette indices.
pub fn color_from_slice(slice: &[u8], kind: ColorKind, bit_depth: Depth) -> (r: Option<(u8, u8, u8, u8)>)
    requires
        slice@.len() >= depth_bytes(bit_depth) * channels(kind),
    ensures
        r is None <==> kind == ColorKind::Indexed,
        r is Some ==> r.unwrap() == rgba_of(slice@, kind, bit_depth),
{
    let b = bit_depth_to_bytes(bit_depth);
    match kind {
        ColorKind::Grayscale => {
            let g = compress_to_u8(&slice[0..b], bit_depth);
            Some((g, g, g, 1))
        },
        ColorKind::Rgb => Some((
            compress_to_u8(&slice[0..b], bit_depth),
            compress_to_u8(&slice[b..2 * b], bit_depth),
            compress_to_u8(&slice[2 * b..3 * b], bit_depth),
            1,
        )),
        ColorKind::Indexed => None,
        ColorKind::GrayscaleAlpha => {
            let g = compress_to_u8(&slice[0..b], bit_depth);
            Some((g, g, g, compress_to_u8(&slice[b..2 * b], bit_depth)))
        },
        ColorKind::Rgba => Some((
            compress_to_u8(&slice[0..b], bit_depth),
            compress_to_u8(&slice[b..2 * b], bit_depth),
            compress_to_u8(&slice[2 * b..3 * b], bit_depth),
            compress_to_u8(&slice[3 * b..4 * b], bit_depth),
        )),
    }
}

/// A palette index stored in a sample: the byte itself, or the low byte of a
/// 16-bit big-endian value.
pub fn assume_u8(slice: &[u8], bit_depth: Depth) -> (r: u8)
    requires
        slice@.len() >= depth_bytes(bit_depth),
    ensures
        r == if bit_depth == Depth::Sixteen { slice@[1] } else { slice@[0] },
{
    match bit_depth {
        Depth::Sixteen => slice[1],
        _ => slice[0],
    }
}

/// Whether two byte slices are equal.
pub(crate) fn same_bytes(a: &[u8], b: &[u8]) -> (r: bool)
    ensures
        r == (a@ == b@),
{
    if a.len() != b.len() {
        return false;
    }
    let mut i: usize = 0;
    while i < a.len()
        invariant
            a@.len() == b@.len(),
            i <= a@.len(),
            forall|k: int| 0 <= k < i ==> a@[k] == b@[k],
        decreases a@.len() - i,
    {
        if a[i] != b[i] {
            return false;
        }
        i = i + 1;
    }
    assert(a@ =~= b@);
    true
}

/// The position of `s` in `palette`, if it is there.
fn find_color(palette: &Vec<Vec<u8>>, s: &[u8]) -> (r: Option<usize>)
    ensures
        r is Some ==> r.unwrap() < palette@.len() && palette@[r.unwrap() as int]@ == s@,
        r is Some ==> forall|i: int| 0 <= i < r.unwrap() ==> palette@[i]@ != s@,
        r is None ==> !views(palette@).contains(s@),
{
    let mut i: usize = 0;
    while i < palette.len()
        invariant
            i <= palette@.len(),
            forall|k: int| 0 <= k < i ==> palette@[k]@ != s@,
        decreases palette@.len() - i,
    {
        if same_bytes(palette[i].as_slice(), s) {
            return Some(i);
        }
        i = i + 1;
    }
    proof {
        if views(palette@).contains(s@) {
            let k = choose|k: int| 0 <= k < views(palette@).len() && views(palette@)[k] == s@;
            assert(palette@[k]@ == s@);
        }
    }
    None
}

/// Copies out the sample bytes `[start, end)` of `data`.
fn copy_range(data: &Vec<u8>, start: usize, end: usize) -> (r: Vec<u8>)
    requires
        start <= end <= data@.len(),
    ensures
        r@ == data@.subrange(start as int, end as int),
{
    let mut out: Vec<u8> = Vec::new();
    let mut i = start;
    while i < end
        invariant
            start <= i <= end <= data@.len(),
            out@ == data@.subrange(start as int, i as int),
        decreases end - i,
    {
        out.push(data[i]);
        i = i + 1;
        assert(out@ =~= data@.subrange(start as int, i as int));
    }
    out
}

/// The distinct samples of the frame in raster order of first appearance;
/// fails at the first pixel that brings a fifth one.
pub fn extract_palette(frame: &Frame) -> (r: Result<Vec<Vec<u8>>, SpriteError>)
    ensures
        !(frame.width <= 255 && frame.height <= 255) ==> r == Err::<Vec<Vec<u8>>, SpriteError>(SpriteError::TooLarge),
        frame.width <= 255 && frame.height <= 255 && !frame_ok(frame) ==> r == Err::<Vec<Vec<u8>>, SpriteError>(SpriteError::TruncatedFrame),
        frame_ok(frame) ==> (r is Ok <==> distinct_prefix(frame, pixel_count(frame) as int).len() <= 4),
        frame_ok(frame) && distinct_prefix(frame, pixel_count(frame) as int).len() > 4 ==> r matches Err(
            SpriteError::TooManyColors { .. },
        ),
        r is Ok ==> views(r.unwrap()@) == distinct_prefix(frame, pixel_count(frame) as int),
        r matches Err(SpriteError::TooManyColors { x, y }) ==> frame_ok(frame) && ({
            let k = y as int * frame.width as int + x as int;
            &&& x < frame.width && y < frame.height
            &&& distinct_prefix(frame, k).len() == 4
            &&& distinct_prefix(frame, k + 1).len() == 5
        }),
{
    if frame.width > 255 || frame.height > 255 {
        return Err(SpriteError::TooLarge);
    }
    let w = frame.width as usize;
    let h = frame.height as usize;
    let db = bit_depth_to_bytes(frame.bit_depth);
    let ch = channel_count(frame.color_type);
    assert(db * ch <= 8) by (nonlinear_arith)
        requires
            db <= 2,
            ch <= 4,
    ;
    let sl = db * ch;
    assert(w * h <= 65025) by (nonlinear_arith)
        requires
            w <= 255,
            h <= 255,
    ;
    let n = w * h;
    assert(n * sl <= 65025 * 8) by (nonlinear_arith)
        requires
            n <= 65025,
            sl <= 8,
    ;
    if frame.data.len() < n * sl {
        return Err(SpriteError::TruncatedFrame);
    }
    let mut palette: Vec<Vec<u8>> = Vec::new();
    let mut k: usize = 0;
    while k < n
        invariant
            frame_ok(frame),
            n == pixel_count(frame),
            n <= 65025,
            sl == sample_len(frame),
            sl <= 8,
            w == frame.width,
            h == frame.height,
            n == w * h,
            k <= n,
            views(palette@) == distinct_prefix(frame, k as int),
            palette@.len() <= 4,
        decreases n - k,
    {
        assert(k * sl + sl <= n * sl) by (nonlinear_arith)
            requires
                k < n,
        ;
        assert(k * sl <= 65025 * 8) by (nonlinear_arith)
            requires
                k < n,
                n <= 65025,
                sl <= 8,
        ;
        assert(w > 0) by (nonlinear_arith)
            requires
                k < n,
                n == w * h,
        ;
        assert((k + 1) * sl == k * sl + sl) by (nonlinear_arith);
        let s = copy_range(&frame.data, k * sl, k * sl + sl);
        proof {
            assert(s@ == sample(frame, k as int));
        }
        match find_color(&palette, s.as_slice()) {
            Some(_) => {
                proof {
                    assert(views(palette@).contains(s@)) by {
                        let i = choose|i: int| 0 <= i < palette@.len() && palette@[i]@ == s@;
                        assert(views(palette@)[i] == s@);
                    }
                }
            },
            None => {
                if palette.len() >= 4 {
                    let x = (k % w) as u32;
                    let y = (k / w) as u32;
                    proof {
                        assert(k as int == (k / w) * w + k % w) by (nonlinear_arith)
                            requires
                                w > 0,
                        ;
                        assert(k / w < h) by (nonlinear_arith)
                            requires
                                k < w * h,
                                w > 0,
                        ;
                    }
                    proof {
                        lemma_distinct_grows(frame, k + 1, n as int);
                    }
                    return Err(SpriteError::TooManyColors { x, y });
                }
                palette.push(s);
                assert(views(palette@) =~= distinct_prefix(frame, k as int).push(sample(frame, k as int)));
            },
        }
        k = k + 1;
    }
    Ok(palette)
}

/// The first position of `s` in `p`, or `p.len()` if it is not there.
pub open spec fn position(p: Seq<Seq<u8>>, s: Seq<u8>) -> int
    decreases p.len(),
{
    if p.len() == 0 {
        0
    } else if p[0] == s {
        0
    } else {
        1 + position(p.subrange(1, p.len() as int), s)
    }
}

proof fn lemma_position(p: Seq<Seq<u8>>, s: Seq<u8>, r: int)
    requires
        0 <= r < p.len(),
        p[r] == s,
        forall|i: int| 0 <= i < r ==> p[i] != s,
    ensures
        position(p, s) == r,
    decreases r,
{
    if r > 0 {
        let q = p.subrange(1, p.len() as int);
        lemma_position(q, s, r - 1);
    }
}

/// The palette index of pixel `k`: the index stored in an indexed frame, else
/// the position of the pixel's colour in `order`.
pub open spec fn pixel_value(f: &Frame, order: Seq<Seq<u8>>, k: int) -> u8 {
    if f.color_type == ColorKind::Indexed {
        if f.bit_depth == Depth::Sixteen { sample(f, k)[1] } else { sample(f, k)[0] }
    } else {
        position(order, sample(f, k)) as u8
    }
}

/// Writes the value `v` of pixel `(x, y)` into the packed raster `out`, most
/// significant bits first within each row's bytes.
pub open spec fn pack_step(out: Seq<u8>, x: int, y: int, w: int, two: bool, v: u8) -> Seq<u8> {
    if !two {
        let idx = (y * w + x) / 8;
        let shift = (7 - x % 8) as u8;
        out.update(idx, (v << shift) | (out[idx] & !(1u8 << shift)))
    } else {
        let idx = (y * w + x) / 4;
        let shift = (6 - 2 * (x % 4)) as u8;
        out.update(idx, (v << shift) | (out[idx] & !(3u8 << shift)))
    }
}

/// The packed raster after the first `k` pixels have been written into `len` clear bytes.
pub open spec fn packed_upto(f: &Frame, order: Seq<Seq<u8>>, two: bool, len: nat, k: int) -> Seq<u8>
    decreases k,
{
    if k <= 0 {
        Seq::new(len, |i: int| 0u8)
    } else {
        let w = f.width as int;
        pack_step(packed_upto(f, order, two, len, k - 1), (k - 1) % w, (k - 1) / w, w, two, pixel_value(f, order, k - 1))
    }
}

/// The field of pixel `k` in a packed raster: one bit (or two when `two`),
/// the most significant first within each byte.
pub open spec fn field(out: Seq<u8>, k: int, two: bool) -> u8 {
    if two {
        (out[k / 4] >> ((6 - 2 * (k % 4)) as u8)) & 3u8
    } else {
        (out[k / 8] >> ((7 - k % 8) as u8)) & 1u8
    }
}

/// Each row fills whole bytes and each pixel's value fits its field, so that
/// no write disturbs another pixel.
pub open spec fn packs_cleanly(f: &Frame, order: Seq<Seq<u8>>, two: bool) -> bool {
    &&& f.width % (if two { 4u32 } else { 8u32 }) == 0
    &&& forall|k: int| 0 <= k < pixel_count(f) ==> #[trigger] pixel_value(f, order, k) < (if two { 4u8 } else { 2u8 })
}

proof fn lemma_field_write(b: u8, v: u8, s: u8, t: u8, two: bool)
    requires
        two ==> v <= 3 && s % 2 == 0 && t % 2 == 0 && s <= 6 && t <= 6,
        !two ==> v <= 1 && s <= 7 && t <= 7,
    ensures
        two ==> (((v << s) | (b & !(3u8 << s))) >> t) & 3u8 == if t == s { v } else { (b >> t) & 3u8 },
        !two ==> (((v << s) | (b & !(1u8 << s))) >> t) & 1u8 == if t == s { v } else { (b >> t) & 1u8 },
{
    if two {
        assert((((v << s) | (b & !(3u8 << s))) >> t) & 3u8 == if t == s { v } else { (b >> t) & 3u8 }) by (bit_vector)
            requires
                v <= 3,
                s % 2 == 0,
                t % 2 == 0,
                s <= 6,
                t <= 6,
        ;
    } else {
        assert((((v << s) | (b & !(1u8 << s))) >> t) & 1u8 == if t == s { v } else { (b >> t) & 1u8 }) by (bit_vector)
            requires
                v <= 1,
                s <= 7,
                t <= 7,
        ;
    }
}

/// A sprite in the console's packed format.
#[derive(Debug)]
pub struct W4Sprite {
    pub bytes: Vec<u8>,
    pub width: u16,
    pub height: u16,
    pub bpp: BitsPerPixel,
}

impl W4Sprite {
    /// Packs `frame` with the palette `order`: an indexed frame keeps its
    /// indices, any other takes each pixel's position in `order`; two colours
    /// or fewer pack at 1 bit per pixel, more at 2.
    pub fn from_frame(frame: &Frame, order: &Vec<Vec<u8>>) -> (r: Result<W4Sprite, SpriteError>)
        ensures
            !(frame.width <= 255 && frame.height <= 255) ==> r == Err::<W4Sprite, SpriteError>(SpriteError::TooLarge),
            frame.width <= 255 && frame.height <= 255 && !frame_ok(frame) ==> r == Err::<W4Sprite, SpriteError>(SpriteError::TruncatedFrame),
            frame_ok(frame) && pixel_count(frame) % 8 != 0 ==> r == Err::<W4Sprite, SpriteError>(SpriteError::UnalignedSize),
            frame_ok(frame) && pixel_count(frame) % 8 == 0 ==> (r is Ok <==> order@.len() <= 4 && (frame.color_type
                == ColorKind::Indexed || forall|k: int| 0 <= k < pixel_count(frame) ==> views(order@).contains(#[trigger] sample(frame, k)))),
            r is Ok ==> ({
                let sp = r.unwrap();
                let two = order@.len() > 2;
                let len = pixel_count(frame) * (if two { 2nat } else { 1nat }) / 8;
                &&& sp.width == frame.width
                &&& sp.height == frame.height
                &&& sp.bpp == if two { BitsPerPixel::Two } else { BitsPerPixel::One }
                &&& sp.bytes@ == packed_upto(frame, views(order@), two, len, pixel_count(frame) as int)
                &&& packs_cleanly(frame, views(order@), two) ==> forall|k: int|
                    0 <= k < pixel_count(frame) ==> #[trigger] field(sp.bytes@, k, two) == pixel_value(frame, views(order@), k)
            }),
    {
        if frame.width > 255 || frame.height > 255 {
            return Err(SpriteError::TooLarge);
        }
        let w = frame.width as usize;
        let h = frame.height as usize;
        let db = bit_depth_to_bytes(frame.bit_depth);
        let ch = channel_count(frame.color_type);
        assert(db * ch <= 8) by (nonlinear_arith)
            requires
                db <= 2,
                ch <= 4,
        ;
        let sl = db * ch;
        assert(w * h <= 65025) by (nonlinear_arith)
            requires
                w <= 255,
                h <= 255,
        ;
        let n = w * h;
        assert(n * sl <= 65025 * 8) by (nonlinear_arith)
            requires
                n <= 65025,
                sl <= 8,
        ;
        if frame.data.len() < n * sl {
            return Err(SpriteError::TruncatedFrame);
        }
        if n % 8 != 0 {
            return Err(SpriteError::UnalignedSize);
        }
        if order.len() > 4 {
            return Err(SpriteError::BadPalette);
        }
        let indexed = match frame.color_type {
            ColorKind::Indexed => true,
            _ => false,
        };
        let two = order.len() > 2;
        let bpp = if two { BitsPerPixel::Two } else { BitsPerPixel::One };
        let len = if two { n / 4 } else { n / 8 };
        assert(len == n * (if two { 2nat } else { 1nat }) / 8);
        let mut out_bytes: Vec<u8> = Vec::new();
        let mut i: usize = 0;
        while i < len
            invariant
                i <= len,
                out_bytes@ == Seq::new(i as nat, |j: int| 0u8),
            decreases len - i,
        {
            out_bytes.push(0);
            i = i + 1;
            assert(out_bytes@ =~= Seq::new(i as nat, |j: int| 0u8));
        }
        let ghost ord = views(order@);
        let mut k: usize = 0;
        while k < n
            invariant
                frame_ok(frame),
                n == pixel_count(frame),
                n == w * h,
                n % 8 == 0,
                n <= 65025,
                sl == sample_len(frame),
                sl <= 8,
                w == frame.width,
                h == frame.height,
                indexed == (frame.color_type == ColorKind::Indexed),
                two == (order@.len() > 2),
                order@.len() <= 4,
                ord == views(order@),
                len == n * (if two { 2nat } else { 1nat }) / 8,
                k <= n,
                out_bytes@ == packed_upto(frame, ord, two, len as nat, k as int),
                out_bytes@.len() == len,
                packs_cleanly(frame, ord, two) ==> forall|j: int|
                    0 <= j < k ==> #[trigger] field(out_bytes@, j, two) == pixel_value(frame, ord, j),
                indexed || forall|j: int| 0 <= j < k ==> ord.contains(#[trigger] sample(frame, j)),
            decreases n - k,
        {
            assert(k * sl + sl <= n * sl) by (nonlinear_arith)
                requires
                    k < n,
            ;
            assert(k * sl <= 65025 * 8) by (nonlinear_arith)
                requires
                    k < n,
                    n <= 65025,
                    sl <= 8,
            ;
            assert(w > 0) by (nonlinear_arith)
                requires
                    k < n,
                    n == w * h,
            ;
            assert((k + 1) * sl == k * sl + sl) by (nonlinear_arith);
            let start = k * sl;
            let s = &frame.data.as_slice()[start..start + sl];
            assert(s@ == sample(frame, k as int));
            let palette_index: u8 = if indexed {
                assume_u8(s, frame.bit_depth)
            } else {
                match find_color(order, s) {
                    Some(p) => {
                        proof {
                            lemma_position(ord, s@, p as int);
                            assert(ord[p as int] == s@);
                        }
                        p as u8
                    },
                    None => {
                        return Err(SpriteError::BadPalette);
                    },
                }
            };
            assert(palette_index == pixel_value(frame, ord, k as int));
            let x = k % w;
            let y = k / w;
            assert(y * w + x == k) by (nonlinear_arith)
                requires
                    w > 0,
                    x == k % w,
                    y == k / w,
            ;
            let ghost before = out_bytes@;
            let ghost clean = packs_cleanly(frame, ord, two);
            if two {
                let out_idx = k / 4;
                let shift = (6 - 2 * (x % 4)) as u8;
                let mask: u8 = 0x3u8 << shift;
                let cur = out_bytes[out_idx];
                out_bytes.set(out_idx, (palette_index << shift) | (cur & !mask));
                proof {
                    if clean {
                        let wm = (w / 4) as int;
                        assert(y * w == 4 * (y * wm)) by (nonlinear_arith)
                            requires
                                w == 4 * wm,
                        ;
                        vstd::arithmetic::div_mod::lemma_mod_multiples_vanish(y * wm, x as int, 4);
                        assert(x % 4 == k % 4);
                        assert(pixel_value(frame, ord, k as int) < (if two { 4u8 } else { 2u8 }));
                        assert forall|j: int| 0 <= j < k + 1 implies #[trigger] field(out_bytes@, j, two) == pixel_value(frame, ord, j) by {
                            if j / 4 == k / 4 {
                                lemma_field_write(cur, palette_index, shift, (6 - 2 * (j % 4)) as u8, two);
                                if j < k {
                                    assert(field(before, j, two) == pixel_value(frame, ord, j));
                                }
                            } else {
                                assert(out_bytes@[j / 4] == before[j / 4]);
                                assert(field(before, j, two) == pixel_value(frame, ord, j));
                            }
                        }
                    }
                }
            } else {
                let out_idx = k / 8;
                let shift = (7 - x % 8) as u8;
                let mask: u8 = 0x1u8 << shift;
                let cur = out_bytes[out_idx];
                out_bytes.set(out_idx, (palette_index << shift) | (cur & !mask));
                proof {
                    if clean {
                        let wm = (w / 8) as int;
                        assert(y * w == 8 * (y * wm)) by (nonlinear_arith)
                            requires
                                w == 8 * wm,
                        ;
                        vstd::arithmetic::div_mod::lemma_mod_multiples_vanish(y * wm, x as int, 8);
                        assert(x % 8 == k % 8);
                        assert(pixel_value(frame, ord, k as int) < (if two { 4u8 } else { 2u8 }));
                        assert forall|j: int| 0 <= j < k + 1 implies #[trigger] field(out_bytes@, j, two) == pixel_value(frame, ord, j) by {
                            if j / 8 == k / 8 {
                                lemma_field_write(cur, palette_index, shift, (7 - j % 8) as u8, two);
                                if j < k {
                                    assert(field(before, j, two) == pixel_value(frame, ord, j));
                                }
                            } else {
                                assert(out_bytes@[j / 8] == before[j / 8]);
                                assert(field(before, j, two) == pixel_value(frame, ord, j));
                            }
                        }
                    }
                }
            }
            k = k + 1;
        }
        Ok(W4Sprite { bytes: out_bytes, width: frame.width as u16, height: frame.height as u16, bpp })
    }

    /// A copy of the packed raster.
    pub fn get_bytes(&self) -> (r: Vec<u8>)
        ensures
            r@ == self.bytes@,
    {
        let mut out: Vec<u8> = Vec::with_capacity(self.bytes.len());
        let mut i: usize = 0;
        while i < self.bytes.len()
            invariant
                i <= self.bytes@.len(),
                out@ == self.bytes@.subrange(0, i as int),
            decreases self.bytes@.len() - i,
        {
            out.push(self.bytes[i]);
            i = i + 1;
            assert(out@ =~= self.bytes@.subrange(0, i as int));
        }
        assert(out@ =~= self.bytes@);
        out
    }

    /// The sprite header: width, height and the depth's flags byte.
    pub fn get_header_bytes(&self) -> (r: Vec<u8>)
        ensures
            r@ == seq![self.width as u8, self.height as u8, self.bpp.flags()],
    {
        vec![self.width as u8, self.height as u8, self.bpp.get_flags()]
    }
}

/// Each key is larger than the next.
pub open spec fn strictly_descending(k: Seq<u128>) -> bool {
    forall|i: int, j: int| 0 <= i < j < k.len() ==> k[i] > k[j]
}

/// No key occurs twice.
pub open spec fn distinct_keys(k: Seq<u128>) -> bool {
    forall|i: int, j: int| 0 <= i < j < k.len() ==> k[i] != k[j]
}

/// `o` with keys `ok` is `p` with keys `k` in descending order of key.
pub open spec fn is_ordering(p: Seq<Seq<u8>>, k: Seq<u128>, o: Seq<Seq<u8>>, ok: Seq<u128>) -> bool {
    &&& o.len() == p.len()
    &&& ok.len() == p.len()
    &&& strictly_descending(ok)
    &&& forall|m: int| 0 <= m < o.len() ==> exists|i: int| 0 <= i < p.len() && #[trigger] o[m] == p[i] && ok[m] == k[i]
    &&& forall|i: int| 0 <= i < p.len() ==> exists|m: int| 0 <= m < o.len() && o[m] == #[trigger] p[i] && ok[m] == k[i]
}

/// How many of the first `n` flags are set.
spec fn count_set(used: Seq<bool>, n: int) -> int
    decreases n,
{
    if n <= 0 {
        0
    } else {
        count_set(used, n - 1) + if used[n - 1] { 1int } else { 0int }
    }
}

proof fn lemma_count_set(used: Seq<bool>, n: int)
    requires
        0 <= n <= used.len(),
    ensures
        0 <= count_set(used, n) <= n,
        (forall|i: int| 0 <= i < n ==> used[i]) ==> count_set(used, n) == n,
        (exists|i: int| 0 <= i < n && !used[i]) ==> count_set(used, n) < n,
    decreases n,
{
    if n > 0 {
        lemma_count_set(used, n - 1);
        if exists|i: int| 0 <= i < n && !used[i] {
            let i = choose|i: int| 0 <= i < n && !used[i];
            if i < n - 1 {
                assert(exists|i: int| 0 <= i < n - 1 && !used[i]);
            }
        }
    }
}

proof fn lemma_count_set_update(used: Seq<bool>, n: int, k: int)
    requires
        0 <= k < n <= used.len(),
        !used[k],
    ensures
        count_set(used.update(k, true), n) == count_set(used, n) + 1,
    decreases n,
{
    if n - 1 != k {
        lemma_count_set_update(used, n - 1, k);
    } else {
        lemma_count_set_same(used, used.update(k, true), n - 1);
    }
}

proof fn lemma_count_set_same(a: Seq<bool>, b: Seq<bool>, m: int)
    requires
        0 <= m,
        m <= a.len(),
        m <= b.len(),
        forall|i: int| 0 <= i < m ==> a[i] == b[i],
    ensures
        count_set(a, m) == count_set(b, m),
    decreases m,
{
    if m > 0 {
        lemma_count_set_same(a, b, m - 1);
    }
}

/// The palette in descending order of its keys, with the keys in that order;
/// `None` when the keys are not one per colour or not distinct.
pub fn order_palette(palette: &Vec<Vec<u8>>, keys: &Vec<u128>) -> (r: Option<(Vec<Vec<u8>>, Vec<u128>)>)
    ensures
        r is Some <==> keys@.len() == palette@.len() && distinct_keys(keys@),
        r is Some ==> is_ordering(views(palette@), keys@, views(r.unwrap().0@), r.unwrap().1@),
{
    let n = palette.len();
    if keys.len() != n {
        return None;
    }
    let mut a: usize = 0;
    while a < n
        invariant
            n == keys@.len(),
            a <= n,
            forall|i: int, j: int| 0 <= i < j < a ==> keys@[i] != keys@[j],
            forall|i: int, j: int| 0 <= i < a && i < j < n ==> keys@[i] != keys@[j],
        decreases n - a,
    {
        let mut b: usize = a + 1;
        while b < n
            invariant
                n == keys@.len(),
                a < n,
                a < b <= n,
                forall|i: int, j: int| 0 <= i < j < a ==> keys@[i] != keys@[j],
                forall|i: int, j: int| 0 <= i < a && i < j < n ==> keys@[i] != keys@[j],
                forall|j: int| a < j < b ==> keys@[a as int] != keys@[j],
            decreases n - b,
        {
            if keys[a] == keys[b] {
                return None;
            }
            b = b + 1;
        }
        a = a + 1;
    }
    let mut used: Vec<bool> = Vec::new();
    let mut i: usize = 0;
    while i < n
        invariant
            i <= n,
            used@.len() == i,
            forall|k: int| 0 <= k < i ==> !used@[k],
        decreases n - i,
    {
        used.push(false);
        i = i + 1;
    }
    proof {
        lemma_count_set(used@, n as int);
        assert(count_set(used@, n as int) == 0) by {
            lemma_count_zero(used@, n as int);
        }
    }
    let mut out: Vec<Vec<u8>> = Vec::new();
    let mut out_keys: Vec<u128> = Vec::new();
    let ghost mut picked: Seq<int> = Seq::empty();
    let ghost mut pos: Seq<int> = Seq::new(n as nat, |k: int| 0int);
    let mut m: usize = 0;
    while m < n
        invariant
            n == keys@.len(),
            n == palette@.len(),
            distinct_keys(keys@),
            used@.len() == n,
            m <= n,
            count_set(used@, n as int) == m,
            out@.len() == m,
            out_keys@.len() == m,
            picked.len() == m,
            forall|t: int| 0 <= t < m ==> 0 <= #[trigger] picked[t] < n && used@[picked[t]],
            forall|t: int| 0 <= t < m ==> out@[t]@ == palette@[#[trigger] picked[t]]@ && out_keys@[t] == keys@[picked[t]],
            pos.len() == n,
            forall|k: int| 0 <= k < n && #[trigger] used@[k] ==> 0 <= pos[k] < m && picked[pos[k]] == k,
            forall|k: int, t: int| #![trigger keys@[k], out_keys@[t]] 0 <= k < n && !used@[k] && 0 <= t < m ==> keys@[k] < out_keys@[t],
            strictly_descending(out_keys@),
        decreases n - m,
    {
        proof {
            lemma_count_set(used@, n as int);
        }
        let mut best: usize = n;
        let mut k: usize = 0;
        while k < n
            invariant
                n == keys@.len(),
                used@.len() == n,
                k <= n,
                best == n || (best < k && !used@[best as int]),
                best == n ==> forall|q: int| 0 <= q < k ==> used@[q],
                best < n ==> forall|q: int| 0 <= q < k && !used@[q] ==> keys@[q] <= keys@[best as int],
            decreases n - k,
        {
            if !used[k] && (best == n || keys[k] > keys[best]) {
                best = k;
            }
            k = k + 1;
        }
        proof {
            if best == n {
                assert(forall|q: int| 0 <= q < n ==> used@[q]);
            }
        }
        let ghost old_used = used@;
        proof {
            lemma_count_set_update(used@, n as int, best as int);
        }
        used.set(best, true);
        out.push(palette[best].clone());
        out_keys.push(keys[best]);
        proof {
            picked = picked.push(best as int);
            pos = pos.update(best as int, m as int);
            assert forall|k: int| 0 <= k < n && #[trigger] used@[k] implies 0 <= pos[k] < m + 1 && picked[pos[k]] == k by {
                if k != best {
                    assert(old_used[k]);
                }
            }
            assert forall|kk: int, t: int| #![trigger keys@[kk], out_keys@[t]] 0 <= kk < n && !used@[kk] && 0 <= t < m + 1 implies keys@[kk] < out_keys@[t] by {
                if t == m {
                    assert(keys@[kk] <= keys@[best as int]);
                    assert(keys@[kk] != keys@[best as int]);
                } else {
                    assert(!old_used[kk]);
                }
            }
        }
        m = m + 1;
    }
    proof {
        assert forall|i: int| 0 <= i < n implies used@[i] by {
            if !used@[i] {
                lemma_count_set(used@, n as int);
            }
        }
        let vp = views(palette@);
        let vo = views(out@);
        assert forall|i: int| 0 <= i < vp.len() implies exists|t: int| 0 <= t < vo.len() && vo[t] == #[trigger] vp[i] && out_keys@[t] == keys@[i] by {
            let t = pos[i];
            assert(used@[i]);
            assert(out@[t]@ == palette@[picked[t]]@);
            assert(vo[t] == vp[i]);
        }
        assert forall|t: int| 0 <= t < vo.len() implies exists|i: int| 0 <= i < vp.len() && #[trigger] vo[t] == vp[i] && out_keys@[t] == keys@[i] by {
            assert(out@[t]@ == palette@[picked[t]]@);
            assert(vo[t] == vp[picked[t]]);
        }
    }
    Some((out, out_keys))
}

proof fn lemma_count_zero(used: Seq<bool>, n: int)
    requires
        0 <= n <= used.len(),
        forall|k: int| 0 <= k < n ==> !used[k],
    ensures
        count_set(used, n) == 0,
    decreases n,
{
    if n > 0 {
        lemma_count_zero(used, n - 1);
    }
}

} // verus!
