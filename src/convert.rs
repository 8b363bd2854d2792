//! Turning packed sprites into their on-wire form, and the settings of the
//! conversion and analysis runs.
use vstd::prelude::*;
use vstd::string::StringSliceAdditionalSpecFns;
use crate::common::CompType;
use crate::pkcomp::{codable, compresses, CompressionResult, PkComp};
use crate::wasm4png::{same_bytes, W4Sprite};

verus! {

/// The kind of file a conversion run writes.
#[derive(Debug, Clone, Copy, PartialEq, Eq, Structural)]
pub enum OutputType {
    Rust,
    Raw,
    Text,
}

impl OutputType {
    /// The output type that a name denotes: `rs`, `raw` or `text`; no other
    /// name is admitted.
    pub fn from_str(from: &str) -> (r: OutputType)
        requires
            from.spec_bytes() == seq![114u8, 115u8] || from.spec_bytes() == seq![114u8, 97u8, 119u8]
                || from.spec_bytes() == seq![116u8, 101u8, 120u8, 116u8],
        ensures
            from.spec_bytes() == seq![114u8, 115u8] ==> r == OutputType::Rust,
            from.spec_bytes() == seq![114u8, 97u8, 119u8] ==> r == OutputType::Raw,
            from.spec_bytes() == seq![116u8, 101u8, 120u8, 116u8] ==> r == OutputType::Text,
    {
        let b = from.as_bytes();
        let rs: [u8; 2] = [114u8, 115u8];
        let raw: [u8; 3] = [114u8, 97u8, 119u8];
        assert(rs@ =~= seq![114u8, 115u8]);
        assert(raw@ =~= seq![114u8, 97u8, 119u8]);
        if same_bytes(b, rs.as_slice()) {
            OutputType::Rust
        } else if same_bytes(b, raw.as_slice()) {
            OutputType::Raw
        } else {
            OutputType::Text
        }
    }
}

/// The settings of a conversion run: the files to read, the name to write
/// under, the output type and whether to compress.
pub struct Converter<'a> {
    pub path: &'a str,
    pub name: &'a str,
    pub out_type: OutputType,
    pub compress: bool,
}

impl<'a> Converter<'a> {
    pub fn new(path: &'a str, name: &'a str, out_type: OutputType, compress: bool) -> (r: Self)
        ensures
            r.path == path,
            r.name == name,
            r.out_type == out_type,
            r.compress == compress,
    {
        Converter { path, name, out_type, compress }
    }
}

/// The settings of an analysis run: the files to read.
pub struct Analyzer<'a> {
    pub path: &'a str,
}

impl<'a> Analyzer<'a> {
    pub fn new(path: &'a str) -> (r: Self)
        ensures
            r.path == path,
    {
        Analyzer { path }
    }
}

/// Appends the bytes of `src` to `dst`.
fn extend(dst: &mut Vec<u8>, src: &Vec<u8>)
    ensures
        final(dst)@ == old(dst)@ + src@,
{
    let mut i: usize = 0;
    while i < src.len()
        invariant
            i <= src@.len(),
            dst@ == old(dst)@ + src@.subrange(0, i as int),
        decreases src@.len() - i,
    {
        dst.push(src[i]);
        i = i + 1;
        assert(dst@ =~= old(dst)@ + src@.subrange(0, i as int));
    }
    assert(src@.subrange(0, src@.len() as int) =~= src@);
}

/// The on-wire form of a sprite: the container byte and the sprite header,
/// then the raw raster, or the codec header and the PnTree bitstream.
/// Also returns the compression outcome when compressing; fails when
/// compressing an empty or oversized raster.
pub fn encode_sprite(sprite: &W4Sprite, compress: bool) -> (r: Result<(Vec<u8>, Option<CompressionResult>), &'static str>)
    ensures
        !compress ==> r is Ok && r.unwrap().1 is None && r.unwrap().0@ == seq![CompType::Uncompressed.byte()]
            + seq![sprite.width as u8, sprite.height as u8, sprite.bpp.flags()] + sprite.bytes@,
        compress ==> (r is Ok <==> 1 <= sprite.bytes@.len() && codable(sprite.bytes@.len() as nat)),
        compress && r is Ok ==> r.unwrap().1 is Some && compresses(sprite.bytes@, r.unwrap().1.unwrap()) && ({
            let c = r.unwrap().1.unwrap();
            r.unwrap().0@ == seq![CompType::Pk.byte()] + seq![sprite.width as u8, sprite.height as u8, sprite.bpp.flags()]
                + c.header_bytes@ + c.content_bytes@
        }),
{
    let raster = sprite.get_bytes();
    let header = sprite.get_header_bytes();
    if compress {
        let compressor = PkComp;
        match compressor.compress(&raster) {
            Ok(c) => {
                let mut out: Vec<u8> = vec![CompType::Pk.as_byte()];
                extend(&mut out, &header);
                extend(&mut out, &c.header_bytes);
                extend(&mut out, &c.content_bytes);
                Ok((out, Some(c)))
            },
            Err(e) => Err(e),
        }
    } else {
        let mut out: Vec<u8> = vec![CompType::Uncompressed.as_byte()];
        extend(&mut out, &header);
        extend(&mut out, &raster);
        Ok((out, None))
    }
}

} // verus!
