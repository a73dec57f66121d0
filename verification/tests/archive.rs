use motologo::container::{align_up, decode_archive, encode_archive, pad, ArchiveEntry};
use motologo::error::Error;
use motologo::pixel::{Pixel, PixelGrid};
use motologo::rle::{decode_image, encode_image};

fn entry(name: &str, blob: Vec<u8>) -> ArchiveEntry {
    ArchiveEntry { name: name.as_bytes().to_vec(), blob }
}

fn read_le32(bytes: &[u8], p: usize) -> u32 {
    bytes[p] as u32
        + 256 * (bytes[p + 1] as u32)
        + 65536 * (bytes[p + 2] as u32)
        + 16777216 * (bytes[p + 3] as u32)
}

#[test]
fn align_up_rounds_to_the_next_multiple() {
    assert_eq!(align_up(0, 256), 0);
    assert_eq!(align_up(1, 256), 256);
    assert_eq!(align_up(13, 256), 256);
    assert_eq!(align_up(256, 256), 256);
    assert_eq!(align_up(257, 256), 512);
    assert_eq!(align_up(77, 32), 96);
}

#[test]
fn pad_appends_zeros_to_length() {
    let mut v = vec![1u8, 2, 3];
    pad(&mut v, 6);
    assert_eq!(v, vec![1, 2, 3, 0, 0, 0]);
    pad(&mut v, 6);
    assert_eq!(v.len(), 6);
}

#[test]
fn empty_archive_is_one_padded_block() {
    let bytes = encode_archive(&Vec::new()).unwrap();
    assert_eq!(bytes.len(), 256);
    assert_eq!(&bytes[0..8], b"MotoLogo");
    // length field: 13 << 8, little-endian
    assert_eq!(&bytes[8..13], &[0, 13, 0, 0, 0]);
    let back = decode_archive(&bytes).unwrap();
    assert_eq!(back.len(), 0);
}

#[test]
fn archive_layout_and_round_trip() {
    let entries = vec![entry("boot", vec![9u8; 300]), entry("shutdown", vec![5u8; 10])];
    let bytes = encode_archive(&entries).unwrap();
    assert_eq!(&bytes[0..8], b"MotoLogo");
    // length field holds count*32+13 == 77, shifted one byte up
    assert_eq!(read_le32(&bytes, 8), 77 * 256);
    assert_eq!(bytes[12], 0);
    // directory entry 0: name slot, then offset and size
    assert_eq!(&bytes[13..17], b"boot");
    assert!(bytes[17..37].iter().all(|&b| b == 0));
    let off0 = read_le32(&bytes, 37) as usize;
    let size0 = read_le32(&bytes, 41) as usize;
    assert_eq!(off0, 256);
    assert_eq!(size0, 300);
    let off1 = read_le32(&bytes, 45 + 24) as usize;
    let size1 = read_le32(&bytes, 45 + 28) as usize;
    assert_eq!(off1, 768);
    assert_eq!(size1, 10);
    // alignment invariant: every blob offset is a multiple of 256
    assert_eq!(off0 % 256, 0);
    assert_eq!(off1 % 256, 0);
    // blob bytes and zero padding between them
    assert!(bytes[off0..off0 + size0].iter().all(|&b| b == 9));
    assert!(bytes[off0 + size0..off1].iter().all(|&b| b == 0));
    assert!(bytes[off1..off1 + size1].iter().all(|&b| b == 5));
    assert_eq!(bytes.len(), 1024);
    let back = decode_archive(&bytes).unwrap();
    assert_eq!(back, entries);
}

#[test]
fn name_of_23_bytes_fits_and_longer_fails() {
    let name23 = "a".repeat(23);
    let entries = vec![entry(&name23, vec![1, 2, 3])];
    let bytes = encode_archive(&entries).unwrap();
    let back = decode_archive(&bytes).unwrap();
    assert_eq!(back[0].name, name23.as_bytes());
    let name24 = "a".repeat(24);
    let too_long = vec![entry(&name24, vec![1, 2, 3])];
    assert_eq!(encode_archive(&too_long), Err(Error::NameTooLong));
}

#[test]
fn duplicate_names_are_legal() {
    let entries = vec![entry("logo", vec![1]), entry("logo", vec![2])];
    let bytes = encode_archive(&entries).unwrap();
    let back = decode_archive(&bytes).unwrap();
    assert_eq!(back, entries);
}

#[test]
fn truncated_after_header_is_reported() {
    let entries = vec![entry("boot", vec![9u8; 300])];
    let bytes = encode_archive(&entries).unwrap();
    let cut: Vec<u8> = bytes[..13].to_vec();
    assert_eq!(decode_archive(&cut), Err(Error::TruncatedArchive));
    // cut inside the blob region: the entry's range is out of bounds
    let cut2: Vec<u8> = bytes[..300].to_vec();
    assert_eq!(decode_archive(&cut2), Err(Error::TruncatedArchive));
    // shorter than the magic itself
    let cut3: Vec<u8> = bytes[..5].to_vec();
    assert_eq!(decode_archive(&cut3), Err(Error::TruncatedArchive));
}

#[test]
fn archive_bad_magic_is_reported() {
    let mut bytes = encode_archive(&vec![entry("a", vec![1])]).unwrap();
    bytes[0] = b'm';
    assert_eq!(decode_archive(&bytes), Err(Error::BadMagic));
}

#[test]
fn bad_directory_field_is_reported() {
    // a length field that is not count*32 + 13
    let mut bytes = vec![0u8; 256];
    bytes[..8].copy_from_slice(b"MotoLogo");
    bytes[9] = 14;
    assert_eq!(decode_archive(&bytes), Err(Error::BadDirectory));
    // a field smaller than the header size
    bytes[9] = 5;
    assert_eq!(decode_archive(&bytes), Err(Error::BadDirectory));
}

#[test]
fn full_pack_unpack_round_trip() {
    let grids = vec![
        PixelGrid {
            width: 3,
            height: 1,
            pixels: vec![
                Pixel { r: 1, g: 2, b: 3 },
                Pixel { r: 1, g: 2, b: 3 },
                Pixel { r: 9, g: 9, b: 9 },
            ],
        },
        PixelGrid { width: 1, height: 2, pixels: vec![Pixel { r: 0, g: 0, b: 0 }; 2] },
    ];
    let names = ["logo_boot", "logo_battery"];
    let mut entries = Vec::new();
    for (name, g) in names.iter().zip(grids.iter()) {
        entries.push(entry(name, encode_image(g).unwrap()));
    }
    let bytes = encode_archive(&entries).unwrap();
    let back = decode_archive(&bytes).unwrap();
    assert_eq!(back.len(), 2);
    for i in 0..2 {
        assert_eq!(back[i].name, names[i].as_bytes());
        let g = decode_image(&back[i].blob).unwrap();
        assert_eq!(g, grids[i]);
    }
}

#[test]
fn error_messages_name_each_failure() {
    assert_eq!(Error::BadMagic.describe(), "wrong format signature");
    assert!(Error::NameTooLong.describe().contains("23"));
    assert_ne!(Error::TokenOverrun.describe(), Error::BadDirectory.describe());
}
