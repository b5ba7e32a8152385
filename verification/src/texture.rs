use vstd::prelude::*;
use ddsfile::D3DFormat;
use ddsfile::Dds;
use ddsfile::NewD3dParams;
use texpresso::Format;
use crate::fault::CatError;
use crate::fault::ManifestFault;
use crate::fault::PayloadKind;

verus! {

/// A block-compression scheme of a legacy D3D texture header.
#[derive(Clone, Copy, Debug, PartialEq, Eq, Structural)]
pub enum Compression {
    Dxt1,
    Dxt3,
    Dxt5,
    A8R8G8B8,
}

/// The pixel format of a decoded surface, as the manifest records it.
#[derive(Clone, Copy, Debug, PartialEq, Eq, Structural)]
pub enum PixelFormat {
    Bgra8Unorm,
    BC1RgbaUnorm,
    BC1RgbaUnormSrgb,
    BC3RgbaUnorm,
    BC3RgbaUnormSrgb,
    BC7RgbaUnorm,
}

/// The stable texture descriptor stored in the manifest: either a legacy D3D
/// atlas or a DXGI atlas.
#[derive(Clone, Copy, Debug, PartialEq, Eq, Structural)]
pub enum TextureFormat {
    D3DFormat(Compression, PixelFormat),
    DxgiFormat(PixelFormat),
}

/// One texture of a decoded texture block.
#[derive(Clone, Debug)]
pub struct Texture {
    pub name: String,
    pub format: TextureFormat,
    pub filename: String,
}

/// A raw RGBA8 surface: `rgba` holds `4 * width * height` bytes, row by row.
#[derive(Clone, Debug)]
pub struct ImageData {
    pub width: u32,
    pub height: u32,
    pub rgba: Vec<u8>,
}

/// What probing a DDS header for a legacy D3D format yielded.
#[derive(Clone, Copy, Debug, PartialEq, Eq, Structural)]
pub enum D3dProbe {
    /// The header names no D3D format.
    Absent,
    /// The header names a D3D compression the manifest can record.
    Supported(Compression),
    /// The header names a D3D format outside the recorded set.
    Unsupported,
}

/// The compression a texture is re-encoded with: the recorded descriptor
/// verbatim, except that DXT3 becomes DXT5, because the external encoder does
/// not support DXT3.
pub open spec fn spec_encode_compression(c: Compression) -> Compression {
    match c {
        Compression::Dxt3 => Compression::Dxt5,
        _ => c,
    }
}

/// Picks the compression for re-encoding: the recorded one, with the single
/// documented DXT3-to-DXT5 rewrite.
pub fn encode_compression(c: Compression) -> (r: Compression)
    ensures
        r == spec_encode_compression(c),
{
    match c {
        Compression::Dxt3 => Compression::Dxt5,
        _ => c,
    }
}

/// The manifest descriptor that a DDS header with the given probe results
/// carries, or the error when the header is outside the supported set.
pub open spec fn spec_texture_format_from_probes(
    probe: D3dProbe,
    d3d_pixel: Option<PixelFormat>,
    dxgi_pixel: Option<PixelFormat>,
) -> Result<TextureFormat, CatError> {
    match probe {
        D3dProbe::Supported(c) => match d3d_pixel {
            Some(p) => Ok(TextureFormat::D3DFormat(c, p)),
            None => Err(CatError::UnsupportedPayload(PayloadKind::UnknownTexture)),
        },
        D3dProbe::Absent => match dxgi_pixel {
            Some(p) => Ok(TextureFormat::DxgiFormat(p)),
            None => Err(CatError::UnsupportedPayload(PayloadKind::UnknownTexture)),
        },
        D3dProbe::Unsupported => Err(
            CatError::UnsupportedPayload(PayloadKind::UnknownTexture),
        ),
    }
}

/// Builds the manifest descriptor of a texture from what probing its DDS
/// header yielded: a supported D3D compression pairs with the decoded pixel
/// format; a header without a D3D format falls back to its DXGI format;
/// anything else is refused.
pub fn texture_format_from_probes(
    probe: D3dProbe,
    d3d_pixel: Option<PixelFormat>,
    dxgi_pixel: Option<PixelFormat>,
) -> (r: Result<TextureFormat, CatError>)
    ensures
        r == spec_texture_format_from_probes(probe, d3d_pixel, dxgi_pixel),
{
    match probe {
        D3dProbe::Supported(c) => match d3d_pixel {
            Some(p) => Ok(TextureFormat::D3DFormat(c, p)),
            None => Err(CatError::UnsupportedPayload(PayloadKind::UnknownTexture)),
        },
        D3dProbe::Absent => match dxgi_pixel {
            Some(p) => Ok(TextureFormat::DxgiFormat(p)),
            None => Err(CatError::UnsupportedPayload(PayloadKind::UnknownTexture)),
        },
        D3dProbe::Unsupported => Err(
            CatError::UnsupportedPayload(PayloadKind::UnknownTexture),
        ),
    }
}

/// The RGBA8 surface the external codec decodes from the DDS bytes `b`: its
/// width, height and pixel bytes, or nothing when `b` does not decode. The
/// decode is a function of the bytes alone.
pub uninterp spec fn dds_image_of(b: Seq<u8>) -> Option<(u32, u32, Seq<u8>)>;

/// What probing the DDS bytes `b` for a legacy D3D format yields; a function
/// of the bytes alone.
pub uninterp spec fn dds_probe_of(b: Seq<u8>) -> D3dProbe;

/// The recordable pixel format of the surface the DDS bytes `b` decode to; a
/// function of the bytes alone.
pub uninterp spec fn dds_d3d_pixel_of(b: Seq<u8>) -> Option<PixelFormat>;

/// The recordable DXGI format the header of the DDS bytes `b` names; a
/// function of the bytes alone.
pub uninterp spec fn dds_dxgi_pixel_of(b: Seq<u8>) -> Option<PixelFormat>;

/// Relies on ddsfile's Dds::read and image_dds's image_from_dds: parses the
/// DDS bytes and decodes the first mip level to an RGBA8 image, whose buffer
/// holds at least four bytes per pixel of the reported size. One call carries
/// the parse into the decode so that the result can be stated over the bytes.
/// A header whose declared layer count would overflow the decoder's cube-map
/// layer arithmetic is refused before decoding, like any other undecodable
/// header.
#[verifier::external_body]
pub(crate) fn decode_dds_image(bytes: &Vec<u8>) -> (r: Result<ImageData, CatError>)
    ensures
        r matches Ok(img) ==> {
            &&& dds_image_of(bytes@) == Some((img.width, img.height, img.rgba@))
            &&& img.rgba@.len() >= 4 * img.width * img.height
        },
        (r is Ok) <==> dds_image_of(bytes@) is Some,
        r matches Err(e) ==> e == CatError::UnsupportedPayload(PayloadKind::UnknownTexture),
{
    let fail = CatError::UnsupportedPayload(PayloadKind::UnknownTexture);
    let dds = ddsfile::Dds::read(bytes.as_slice()).map_err(|_| fail)?;
    if dds.get_num_array_layers() > 0x00FF_FFFF {
        return Err(fail);
    }
    match image_dds::image_from_dds(&dds, 0) {
        Ok(img) => {
            let width = img.width();
            let height = img.height();
            Ok(ImageData { width, height, rgba: img.into_raw() })
        },
        Err(_) => Err(fail),
    }
}

/// Relies on ddsfile's Dds::read and get_d3d_format: reports whether the
/// header of the DDS bytes names a legacy D3D format, moving a recordable one
/// over arm by arm; bytes that do not parse report no format.
#[verifier::external_body]
pub(crate) fn dds_d3d_probe(bytes: &Vec<u8>) -> (r: D3dProbe)
    ensures
        r == dds_probe_of(bytes@),
{
    let Ok(dds) = ddsfile::Dds::read(bytes.as_slice()) else {
        return D3dProbe::Absent;
    };
    match dds.get_d3d_format() {
        None => D3dProbe::Absent,
        Some(ddsfile::D3DFormat::DXT1) => D3dProbe::Supported(Compression::Dxt1),
        Some(ddsfile::D3DFormat::DXT3) => D3dProbe::Supported(Compression::Dxt3),
        Some(ddsfile::D3DFormat::DXT5) => D3dProbe::Supported(Compression::Dxt5),
        Some(ddsfile::D3DFormat::A8R8G8B8) => D3dProbe::Supported(Compression::A8R8G8B8),
        Some(_) => D3dProbe::Unsupported,
    }
}

/// Relies on ddsfile's Dds::read and image_dds's dds_image_format: reports
/// the decoded surface's format, moving each recordable value over, arm by
/// arm; bytes that do not parse report none.
#[verifier::external_body]
pub(crate) fn dds_pixel_format(bytes: &Vec<u8>) -> (r: Option<PixelFormat>)
    ensures
        r == dds_d3d_pixel_of(bytes@),
{
    let Ok(dds) = ddsfile::Dds::read(bytes.as_slice()) else {
        return None;
    };
    match image_dds::dds_image_format(&dds) {
        Ok(image_dds::ImageFormat::BC1RgbaUnorm) => Some(PixelFormat::BC1RgbaUnorm),
        Ok(image_dds::ImageFormat::BC3RgbaUnorm) => Some(PixelFormat::BC3RgbaUnorm),
        Ok(image_dds::ImageFormat::Bgra8Unorm) => Some(PixelFormat::Bgra8Unorm),
        _ => None,
    }
}

/// Relies on ddsfile's Dds::read and get_dxgi_format: reports the recordable
/// DXGI format the header names, arm by arm; bytes that do not parse report
/// none.
#[verifier::external_body]
pub(crate) fn dds_dxgi_pixel(bytes: &Vec<u8>) -> (r: Option<PixelFormat>)
    ensures
        r == dds_dxgi_pixel_of(bytes@),
{
    let Ok(dds) = ddsfile::Dds::read(bytes.as_slice()) else {
        return None;
    };
    match dds.get_dxgi_format() {
        Some(ddsfile::DxgiFormat::BC1_UNorm_sRGB) => Some(PixelFormat::BC1RgbaUnormSrgb),
        Some(ddsfile::DxgiFormat::BC3_UNorm_sRGB) => Some(PixelFormat::BC3RgbaUnormSrgb),
        Some(ddsfile::DxgiFormat::BC7_UNorm) => Some(PixelFormat::BC7RgbaUnorm),
        _ => None,
    }
}

/// The manifest descriptor that probing the DDS bytes `b` yields.
pub open spec fn spec_texture_descriptor(b: Seq<u8>) -> Result<TextureFormat, CatError> {
    spec_texture_format_from_probes(dds_probe_of(b), dds_d3d_pixel_of(b), dds_dxgi_pixel_of(b))
}

/// Builds the manifest descriptor of a DDS payload from its bytes: the
/// legacy D3D path pairs the header's compression with the decoded pixel
/// format; a header without a D3D format falls back to its DXGI format;
/// anything else is refused.
pub fn texture_format_of_dds(bytes: &Vec<u8>) -> (r: Result<TextureFormat, CatError>)
    ensures
        r == spec_texture_descriptor(bytes@),
{
    let probe = dds_d3d_probe(bytes);
    let d3d_pixel = match probe {
        D3dProbe::Supported(_) => dds_pixel_format(bytes),
        _ => None,
    };
    let dxgi_pixel = match probe {
        D3dProbe::Absent => dds_dxgi_pixel(bytes),
        _ => None,
    };
    let r = texture_format_from_probes(probe, d3d_pixel, dxgi_pixel);
    proof {
        assert(r == spec_texture_descriptor(bytes@));
    }
    r
}

/// The block-compressed encodings the external encoder offers.
#[derive(Clone, Copy, Debug, PartialEq, Eq, Structural)]
pub enum BcKind {
    /// DXT1.
    Bc1,
    /// DXT3.
    Bc2,
    /// DXT5.
    Bc3,
}

/// The legacy D3D DDS file the external encoder produces from an RGBA8
/// surface of the given size, in the given block compression: a function of
/// its arguments alone.
pub uninterp spec fn encoded_dds_of(w: u32, h: u32, rgba: Seq<u8>, kind: BcKind) -> Seq<u8>;

/// Relies on texpresso's Format::compress, ddsfile's Dds::new_d3d and
/// Dds::write: compresses the surface and serialises it as a legacy D3D DDS
/// file. One call carries the compression into the container so that the
/// result can be stated over plain values. The bounds rule out the inputs on
/// which ddsfile's pitch arithmetic overflows.
#[verifier::external_body]
pub fn d3d_from_image(image: &ImageData, kind: BcKind) -> (r: Vec<u8>)
    requires
        0 < image.width <= 0x8000,
        image.height <= 0x8000,
        image.rgba@.len() == 4 * image.width * image.height,
    ensures
        r@ == encoded_dds_of(image.width, image.height, image.rgba@, kind),
{
    let (fmt, d3d) = match kind {
        BcKind::Bc1 => (Format::Bc1, D3DFormat::DXT1),
        BcKind::Bc2 => (Format::Bc2, D3DFormat::DXT3),
        BcKind::Bc3 => (Format::Bc3, D3DFormat::DXT5),
    };
    let (w, h) = (image.width as usize, image.height as usize);
    let mut dds = Dds::new_d3d(NewD3dParams {
        height: image.height, width: image.width, depth: None, format: d3d,
        mipmap_levels: None, caps2: None }).unwrap();
    let mut out = vec![0u8; fmt.compressed_size(w, h)];
    fmt.compress(&image.rgba, w, h, texpresso::Params::default(), &mut out);
    dds.data = out;
    let mut bytes: Vec<u8> = Vec::new();
    dds.write(&mut bytes).unwrap();
    bytes
}

/// Which of the four pixel bytes sits at channel `c` once red and blue are
/// swapped.
pub open spec fn swap_channel(c: int) -> int {
    if c == 0 {
        2
    } else if c == 2 {
        0
    } else {
        c
    }
}

/// The same pixels with the red and blue channels swapped: the byte order in
/// which the uncompressed legacy format stores a surface.
pub open spec fn bgra_of(rgba: Seq<u8>) -> Seq<u8> {
    Seq::new(rgba.len(), |i: int| rgba[4 * (i / 4) + swap_channel(i % 4)])
}

/// Swaps the red and blue channel of every pixel.
pub fn rgba_to_bgra(rgba: &Vec<u8>) -> (r: Vec<u8>)
    requires
        rgba@.len() % 4 == 0,
    ensures
        r@ == bgra_of(rgba@),
{
    let n = rgba.len();
    let mut out: Vec<u8> = Vec::new();
    let mut i: usize = 0;
    while i < n
        invariant
            0 <= i <= n,
            n == rgba@.len(),
            n % 4 == 0,
            out@.len() == i as int,
            forall|j: int| 0 <= j < i as int ==> #[trigger] out@[j] == bgra_of(rgba@)[j],
        decreases n - i,
    {
        let c = i % 4;
        let idx = if c == 0 {
            i + 2
        } else if c == 2 {
            i - 2
        } else {
            i
        };
        proof {
            assert(idx as int == 4 * (i as int / 4) + swap_channel(i as int % 4));
            assert(idx < n);
        }
        out.push(rgba[idx]);
        i = i + 1;
    }
    proof {
        assert(out@ =~= bgra_of(rgba@));
    }
    out
}

/// The legacy uncompressed DDS file built around the given BGRA surface
/// bytes: a function of its arguments alone.
pub uninterp spec fn uncompressed_dds_of(w: u32, h: u32, bgra: Seq<u8>) -> Seq<u8>;

/// Relies on ddsfile's Dds::new_d3d and Dds::write: wraps an uncompressed
/// BGRA surface in a legacy A8R8G8B8 DDS container. The bounds rule out the
/// inputs on which ddsfile's pitch-times-rows arithmetic overflows.
#[verifier::external_body]
fn uncompressed_d3d_dds(width: u32, height: u32, bgra: Vec<u8>) -> (r: Vec<u8>)
    requires
        width <= 0x8000,
        height <= 0x8000,
        4 * width * height <= 0xFFFF_FFFF,
        bgra@.len() == 4 * width * height,
    ensures
        r@ == uncompressed_dds_of(width, height, bgra@),
{
    let mut dds = Dds::new_d3d(NewD3dParams {
        height, width, depth: None, format: D3DFormat::A8R8G8B8,
        mipmap_levels: None, caps2: None }).unwrap();
    dds.data = bgra;
    let mut bytes: Vec<u8> = Vec::new();
    dds.write(&mut bytes).unwrap();
    bytes
}

/// The compression the encoder is asked for, after the documented
/// DXT3-to-DXT5 rewrite; the uncompressed legacy format is wrapped rather
/// than block-compressed.
pub open spec fn spec_encode_kind(c: Compression) -> Option<BcKind> {
    match spec_encode_compression(c) {
        Compression::Dxt1 => Some(BcKind::Bc1),
        Compression::Dxt3 => Some(BcKind::Bc2),
        Compression::Dxt5 => Some(BcKind::Bc3),
        Compression::A8R8G8B8 => None,
    }
}

/// The DDS bytes that re-encoding a surface with a recorded descriptor
/// yields: block-compressed D3D descriptors are honoured with the documented
/// DXT3-to-DXT5 rewrite; oversized or ill-sized surfaces, the uncompressed
/// legacy format and DXGI descriptors are refused.
pub open spec fn spec_dds_from_image(w: u32, h: u32, rgba: Seq<u8>, f: TextureFormat) -> Result<
    Seq<u8>,
    CatError,
> {
    match f {
        TextureFormat::D3DFormat(c, _) => if w <= 0x8000 && h <= 0x8000 && rgba.len() == 4 * w
            * h {
            match spec_encode_kind(c) {
                Some(kind) => if w > 0 {
                    Ok(encoded_dds_of(w, h, rgba, kind))
                } else {
                    Err(CatError::ManifestError(ManifestFault::UnsupportedTexture))
                },
                None => if 4 * w * h <= 0xFFFF_FFFF {
                    Ok(uncompressed_dds_of(w, h, bgra_of(rgba)))
                } else {
                    Err(CatError::ManifestError(ManifestFault::UnsupportedTexture))
                },
            }
        } else {
            Err(CatError::ManifestError(ManifestFault::UnsupportedTexture))
        },
        TextureFormat::DxgiFormat(_) => Err(
            CatError::ManifestError(ManifestFault::UnsupportedTexture),
        ),
    }
}

/// Re-encodes an RGBA8 surface with the manifest's recorded descriptor into
/// DDS bytes, exactly as `spec_dds_from_image` says.
pub fn dds_from_image(image: &ImageData, format: &TextureFormat) -> (r: Result<Vec<u8>, CatError>)
    ensures
        r matches Ok(b) ==> spec_dds_from_image(image.width, image.height, image.rgba@, *format)
            == Ok::<Seq<u8>, CatError>(b@),
        r matches Err(e) ==> spec_dds_from_image(image.width, image.height, image.rgba@, *format)
            == Err::<Seq<u8>, CatError>(e),
{
    let fail = CatError::ManifestError(ManifestFault::UnsupportedTexture);
    match format {
        TextureFormat::D3DFormat(compression, _) => {
            let kind = match encode_compression(*compression) {
                Compression::Dxt1 => Some(BcKind::Bc1),
                Compression::Dxt3 => Some(BcKind::Bc2),
                Compression::Dxt5 => Some(BcKind::Bc3),
                Compression::A8R8G8B8 => None,
            };
            if image.width > 0x8000 || image.height > 0x8000 {
                return Err(fail);
            }
            let w64 = image.width as u64;
            let h64 = image.height as u64;
            proof {
                assert(w64 * h64 <= 0x4000_0000) by (nonlinear_arith)
                    requires
                        w64 <= 0x8000,
                        h64 <= 0x8000,
                ;
            }
            let expected = 4 * (w64 * h64);
            if image.rgba.len() as u64 != expected {
                proof {
                    vstd::arithmetic::mul::lemma_mul_is_associative(4, w64 as int, h64 as int);
                }
                return Err(fail);
            }
            proof {
                vstd::arithmetic::mul::lemma_mul_is_associative(4, w64 as int, h64 as int);
                assert(image.rgba@.len() == 4 * image.width * image.height);
            }
            match kind {
                Some(k) => {
                    if image.width == 0 {
                        return Err(fail);
                    }
                    Ok(d3d_from_image(image, k))
                },
                None => {
                    if expected > 0xFFFF_FFFF {
                        return Err(fail);
                    }
                    let bgra = rgba_to_bgra(&image.rgba);
                    Ok(uncompressed_d3d_dds(image.width, image.height, bgra))
                },
            }
        },
        TextureFormat::DxgiFormat(_) => Err(fail),
    }
}

} // verus!
