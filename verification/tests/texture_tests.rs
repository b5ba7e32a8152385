use catpack::manifest::{ArchiveEntry, Container, OutputData};
use catpack::reader::CatFileReader;
use catpack::texture::{Compression, ImageData, PixelFormat, TextureFormat};
use catpack::writer::{CatFileWriter, FileData, StoredFile};

fn w32(v: &mut Vec<u8>, x: u32) {
    v.extend_from_slice(&x.to_le_bytes());
}

fn pad_to(v: &mut Vec<u8>, n: usize) {
    while v.len() < n {
        v.push(0);
    }
}

fn part_one(v: &mut Vec<u8>, version: u32, raw_size: u32, content: u32, actual_size: usize) {
    let start = v.len();
    w32(v, 1);
    w32(v, version);
    w32(v, 0);
    w32(v, raw_size);
    w32(v, content);
    pad_to(v, start + actual_size);
}

fn part_two(v: &mut Vec<u8>, count: u32, format: u32, alignment: u32, table: &[(u32, u32)]) {
    w32(v, 0);
    w32(v, count);
    w32(v, format);
    w32(v, alignment);
    w32(v, 0);
    for (off, _) in table {
        w32(v, *off);
    }
    for (_, size) in table {
        w32(v, *size);
    }
}

/// A flat 32-by-32 RGBA image.
fn red_image() -> ImageData {
    let mut rgba = Vec::new();
    for _ in 0..(32 * 32) {
        rgba.extend_from_slice(&[255u8, 0, 0, 255]);
    }
    ImageData { width: 32, height: 32, rgba }
}

/// The image above, encoded as a legacy D3D BC1 DDS file.
fn bc1_dds_bytes() -> Vec<u8> {
    catpack::texture::d3d_from_image(&red_image(), catpack::texture::BcKind::Bc1)
}

#[test]
fn texture_atlas_unpacks_to_named_textures() {
    // A texture-block container with one atlas: a name table listing two
    // textures and a file-block of two BC1 DDS payloads.
    let dds = bc1_dds_bytes();
    let n = dds.len() as u32;

    let mut v = Vec::new();
    part_one(&mut v, 1, 256, 0, 256);
    part_two(&mut v, 1, 2, 256, &[(256, 0)]);
    pad_to(&mut v, 512);
    // The nested atlas container: byte zero at 768.
    part_one(&mut v, 1, 256, 0, 256);
    part_two(&mut v, 2, 0, 256, &[(256, 14), (512, 20 + 2 * n)]);
    pad_to(&mut v, 1024);
    v.extend_from_slice(b"tex0,\r\ntex1,\r\n");
    pad_to(&mut v, 1280);
    // The file-block: five header words, then the two payloads back to back.
    w32(&mut v, 20);
    w32(&mut v, 2);
    w32(&mut v, 20 + 2 * n);
    w32(&mut v, 0);
    w32(&mut v, n);
    v.extend_from_slice(&dds);
    v.extend_from_slice(&dds);
    let end = v.len();
    pad_to(&mut v, end + 64);

    let mut reader = CatFileReader::new(v);
    let entry = reader.unpack().expect("the texture atlas must unpack");
    match &entry {
        ArchiveEntry::Container(c) => {
            assert_eq!(c.format, 2);
            assert_eq!(c.children.len(), 1);
            match &c.children[0] {
                ArchiveEntry::Textures(textures) => {
                    assert_eq!(textures.len(), 2);
                    assert_eq!(textures[0].name.as_str(), "tex0");
                    assert_eq!(textures[1].name.as_str(), "tex1");
                    assert_eq!(
                        textures[0].format,
                        TextureFormat::D3DFormat(Compression::Dxt1, PixelFormat::BC1RgbaUnorm)
                    );
                    assert_eq!(textures[0].filename.as_str(), "tex0 (32x32).png");
                    assert_eq!(textures[1].filename.as_str(), "tex1 (32x32).png");
                },
                _ => panic!("a texture block holds textures"),
            }
        },
        _ => panic!("expected a container"),
    }
    assert_eq!(reader.outputs.len(), 2);
    match &reader.outputs[0].contents {
        OutputData::Png(img) => {
            assert_eq!(img.width, 32);
            assert_eq!(img.height, 32);
            assert_eq!(img.rgba.len(), 4 * 32 * 32);
        },
        _ => panic!("textures are stored as images"),
    }
}

#[test]
fn texture_round_trip_is_structural() {
    // Packing a texture manifest and unpacking the result gives the same
    // names, descriptors and file names back.
    let manifest = ArchiveEntry::Container(Container {
        version: 1,
        format: 2,
        size: 256,
        alignment: 256,
        children: vec![ArchiveEntry::Textures(vec![catpack::texture::Texture {
            name: "tex0".to_string(),
            format: TextureFormat::D3DFormat(Compression::Dxt1, PixelFormat::BC1RgbaUnorm),
            filename: "tex0 (32x32).png".to_string(),
        }])],
    });
    let files = vec![StoredFile {
        name: "tex0 (32x32).png".to_string(),
        data: FileData::Image(red_image()),
    }];
    let mut writer = CatFileWriter::new();
    writer.pack(&manifest, &files).expect("the texture manifest must pack");

    let mut reader = CatFileReader::new(writer.output.clone());
    let entry = reader.unpack().expect("the packed textures must unpack");
    match &entry {
        ArchiveEntry::Container(c) => {
            assert_eq!(c.format, 2);
            match &c.children[0] {
                ArchiveEntry::Textures(textures) => {
                    assert_eq!(textures.len(), 1);
                    assert_eq!(textures[0].name.as_str(), "tex0");
                    assert_eq!(
                        textures[0].format,
                        TextureFormat::D3DFormat(Compression::Dxt1, PixelFormat::BC1RgbaUnorm)
                    );
                    assert_eq!(textures[0].filename.as_str(), "tex0 (32x32).png");
                },
                _ => panic!("a texture block holds textures"),
            }
        },
        _ => panic!("expected a container"),
    }
}

#[test]
fn dxt3_is_reencoded_as_dxt5() {
    // The one documented lossy corner: a DXT3 descriptor is re-encoded as
    // DXT5, because the external encoder does not offer DXT3.
    let img = red_image();
    let bytes = catpack::texture::dds_from_image(
        &img,
        &TextureFormat::D3DFormat(Compression::Dxt3, PixelFormat::BC3RgbaUnorm),
    )
    .expect("a DXT3 descriptor must re-encode");
    let dds = ddsfile::Dds::read(&bytes[..]).expect("the encoder writes a readable DDS");
    assert_eq!(dds.get_d3d_format(), Some(ddsfile::D3DFormat::DXT5));
}

#[test]
fn uncompressed_legacy_descriptor_is_reencoded() {
    // The uncompressed legacy descriptor is wrapped verbatim, channels
    // swapped to the stored BGRA order.
    let img = red_image();
    let bytes = catpack::texture::dds_from_image(
        &img,
        &TextureFormat::D3DFormat(Compression::A8R8G8B8, PixelFormat::Bgra8Unorm),
    )
    .expect("an uncompressed descriptor must re-encode");
    let dds = ddsfile::Dds::read(&bytes[..]).expect("the encoder writes a readable DDS");
    assert_eq!(dds.get_d3d_format(), Some(ddsfile::D3DFormat::A8R8G8B8));
    // The first pixel was red RGBA; stored bytes are BGRA.
    assert_eq!(&dds.data[0..4], &[0u8, 0, 255, 255]);
}

#[test]
fn dxgi_descriptor_is_not_reencoded() {
    let img = red_image();
    let err = match catpack::texture::dds_from_image(
        &img,
        &TextureFormat::DxgiFormat(PixelFormat::BC7RgbaUnorm),
    ) {
        Err(e) => e,
        Ok(_) => panic!("re-encoding to a DXGI descriptor is not offered"),
    };
    assert_eq!(
        err,
        catpack::fault::CatError::ManifestError(catpack::fault::ManifestFault::UnsupportedTexture)
    );
}

#[test]
fn bare_texture_stream_unpacks_by_offset_names() {
    // Input that does not start with the container sentinel is a bare
    // file-block of DDS payloads, stored under their hexadecimal offsets.
    let dds = bc1_dds_bytes();
    let n = dds.len() as u32;
    let mut v = Vec::new();
    w32(&mut v, 16);
    w32(&mut v, 1);
    w32(&mut v, 16 + n);
    w32(&mut v, 0);
    v.extend_from_slice(&dds);
    let mut reader = CatFileReader::new(v);
    let entry = reader.unpack().expect("the bare stream must unpack");
    match &entry {
        ArchiveEntry::Textures(textures) => {
            assert_eq!(textures.len(), 1);
            assert_eq!(textures[0].name.as_str(), "");
            assert_eq!(textures[0].filename.as_str(), "0x10.png");
        },
        _ => panic!("expected textures"),
    }
}
