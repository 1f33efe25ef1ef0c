use std::io::Write;

use flex_updater_mc::nbt::parse_nbt;
use flex_updater_mc::nbt::write_nbt;
use flex_updater_mc::nbt::NbtTag;
use flex_updater_mc::nbt::NbtValue;
use flex_updater_mc::region::palette_bits;
use flex_updater_mc::region::Block;
use flex_updater_mc::region::Blockstates;
use flex_updater_mc::region::Chunk;
use flex_updater_mc::region::RegionImage;
use flex_updater_mc::region::Section;

#[test]
fn test_nbt_roundtrip() {
    let compound = vec![
        ("name".to_string(), NbtValue::String("Test".to_string())),
        ("x".to_string(), NbtValue::Int(10)),
        ("y".to_string(), NbtValue::Int(64)),
        ("z".to_string(), NbtValue::Int(-5)),
    ];

    let original_tag = NbtTag { name: "Level".to_string(), value: NbtValue::Compound(compound) };

    let buffer = write_nbt(&original_tag).unwrap();
    let parsed_tag = parse_nbt(buffer).unwrap().unwrap();

    assert_eq!(original_tag.name, parsed_tag.name);
    assert_eq!(original_tag.value, parsed_tag.value);
}

#[test]
fn test_nbt_list() {
    let list_data = vec![NbtValue::Int(1), NbtValue::Int(2), NbtValue::Int(3)];

    let tag = NbtTag { name: "list_test".to_string(), value: NbtValue::List(list_data) };

    let buffer = write_nbt(&tag).unwrap();
    let parsed_tag = parse_nbt(buffer).unwrap().unwrap();

    assert_eq!(tag.name, parsed_tag.name);
    assert_eq!(tag.value, parsed_tag.value);
}

#[test]
fn test_nbt_arrays() {
    let compound = vec![
        ("byte_array".to_string(), NbtValue::ByteArray(vec![1, 2, 3, -1, -128])),
        ("int_array".to_string(), NbtValue::IntArray(vec![1000, -2000, 0])),
        (
            "long_array".to_string(),
            NbtValue::LongArray(vec![1000000000000i64, -2000000000000i64]),
        ),
    ];

    let tag = NbtTag { name: "arrays_test".to_string(), value: NbtValue::Compound(compound) };

    let buffer = write_nbt(&tag).unwrap();
    let parsed_tag = parse_nbt(buffer).unwrap().unwrap();

    assert_eq!(tag.name, parsed_tag.name);
    assert_eq!(tag.value, parsed_tag.value);
}

#[test]
fn test_nbt_scalars_and_raw_float_bits() {
    let compound = vec![
        ("b".to_string(), NbtValue::Byte(-7)),
        ("s".to_string(), NbtValue::Short(-300)),
        ("l".to_string(), NbtValue::Long(1 << 40)),
        ("f".to_string(), NbtValue::Float(0x3f80_0000)),
        ("d".to_string(), NbtValue::Double(0x3ff0_0000_0000_0000)),
    ];
    let tag = NbtTag { name: "scalars".to_string(), value: NbtValue::Compound(compound) };
    let buffer = write_nbt(&tag).unwrap();
    let parsed = parse_nbt(buffer).unwrap().unwrap();
    assert_eq!(tag, parsed);
}

#[test]
fn test_region_write_then_read_round_trip() {
    let mut img = RegionImage::new();
    let payload = b"chunk payload bytes".to_vec();
    img.write_chunk(3, 7, &payload).unwrap();
    let back = img.read_chunk(3, 7).unwrap();
    assert_eq!(back, Some(payload));
}

#[test]
fn test_region_unwritten_slot_reads_absent() {
    let img = RegionImage::new();
    for lx in 0..32 {
        assert_eq!(img.read_chunk(lx, 0).unwrap(), None);
    }
    let mut img2 = RegionImage::new();
    img2.write_chunk(0, 0, b"only this one").unwrap();
    assert_eq!(img2.read_chunk(1, 0).unwrap(), None);
}

#[test]
fn test_region_second_write_keeps_other_slot() {
    let mut img = RegionImage::new();
    img.write_chunk(0, 0, b"first").unwrap();
    img.write_chunk(31, 31, b"second").unwrap();
    assert_eq!(img.read_chunk(0, 0).unwrap(), Some(b"first".to_vec()));
    assert_eq!(img.read_chunk(31, 31).unwrap(), Some(b"second".to_vec()));
}

#[test]
fn test_region_chunk_payload_carries_nbt() {
    let tag = NbtTag {
        name: "Level".to_string(),
        value: NbtValue::Compound(vec![
            ("xPos".to_string(), NbtValue::Int(5)),
            ("zPos".to_string(), NbtValue::Int(-3)),
        ]),
    };
    let encoded = write_nbt(&tag).unwrap();
    let mut img = RegionImage::new();
    img.write_chunk(5, 29, &encoded).unwrap();
    let back = img.read_chunk(5, 29).unwrap().unwrap();
    let parsed = parse_nbt(back).unwrap().unwrap();
    assert_eq!(tag, parsed);
}

#[test]
fn test_palette_bit_width_is_max_of_four_and_log() {
    assert_eq!(palette_bits(1), 4);
    assert_eq!(palette_bits(2), 4);
    assert_eq!(palette_bits(16), 4);
    assert_eq!(palette_bits(17), 5);
    assert_eq!(palette_bits(32), 5);
    assert_eq!(palette_bits(33), 6);
    assert_eq!(palette_bits(257), 9);
}

#[test]
fn test_zero_filled_data_unpacks_first_palette_entry() {
    let palette = vec![
        Block { name: "minecraft:air".to_string() },
        Block { name: "minecraft:stone".to_string() },
    ];
    let states = Blockstates { palette, data: Some(vec![0u64; 256]) };
    for &(x, y, z) in [(0usize, 0usize, 0usize), (15, 15, 15), (7, 3, 9)].iter() {
        let b = states.get_block(x, y, z).unwrap();
        assert_eq!(b.name, "minecraft:air");
    }
}

#[test]
fn test_get_block_without_data_uses_single_entry() {
    let states = Blockstates {
        palette: vec![Block { name: "minecraft:bedrock".to_string() }],
        data: None,
    };
    assert_eq!(states.get_block(1, 2, 3).unwrap().name, "minecraft:bedrock");
    assert!(states.get_block(16, 0, 0).is_err());
}

#[test]
fn test_chunk_get_block_picks_section_by_height() {
    let mk_section = |name: &str| Section {
        block_states: Blockstates {
            palette: vec![Block { name: name.to_string() }],
            data: None,
        },
    };
    let chunk = Chunk { sections: vec![mk_section("low"), mk_section("high")] };
    assert_eq!(chunk.get_block(0, 5, 0).unwrap().name, "low");
    assert_eq!(chunk.get_block(0, 21, 0).unwrap().name, "high");
    assert!(chunk.get_block(0, 40, 0).is_err());
    assert!(chunk.get_block(16, 0, 0).is_err());
}

#[test]
fn test_malformed_records_are_rejected() {
    // A record claiming an unknown tag id fails to parse.
    assert!(parse_nbt(vec![42, 0, 1, b'x', 42]).is_err());
    // A truncated record fails to parse.
    let tag = NbtTag { name: "t".to_string(), value: NbtValue::Int(9) };
    let mut bytes = write_nbt(&tag).unwrap();
    bytes.pop();
    assert!(parse_nbt(bytes).is_err());
    // An end marker parses as no tag at all.
    assert_eq!(parse_nbt(vec![0]).unwrap(), None);
    // A region file without a full header is rejected.
    assert!(RegionImage::from_bytes(vec![0; 100]).is_err());
}

#[test]
fn test_region_reads_zlib_compressed_records() {
    let payload = b"compressed chunk payload".to_vec();
    let mut encoder = flate2::write::ZlibEncoder::new(Vec::new(), flate2::Compression::default());
    encoder.write_all(&payload).unwrap();
    let compressed = encoder.finish().unwrap();

    // Build an image by hand: slot (0, 0) points at sector 2, where a
    // four-byte length, the zlib compression byte and the stream lie.
    let mut bytes = vec![0u8; 8192];
    bytes[0] = 0;
    bytes[1] = 0;
    bytes[2] = 2;
    bytes[3] = 1;
    let len_field = (compressed.len() + 1) as u32;
    bytes.extend_from_slice(&len_field.to_be_bytes());
    bytes.push(2);
    bytes.extend_from_slice(&compressed);

    let img = flex_updater_mc::region::RegionImage::from_bytes(bytes).unwrap();
    assert_eq!(img.read_chunk(0, 0).unwrap(), Some(payload));
}

#[test]
fn test_region_reads_gzip_compressed_records() {
    let payload = b"gzip chunk payload".to_vec();
    let mut encoder = flate2::write::GzEncoder::new(Vec::new(), flate2::Compression::default());
    encoder.write_all(&payload).unwrap();
    let compressed = encoder.finish().unwrap();

    // Slot (0, 0) points at sector 2, where a four-byte length, the gzip
    // compression byte and the stream lie.
    let mut bytes = vec![0u8; 8192];
    bytes[0] = 0;
    bytes[1] = 0;
    bytes[2] = 2;
    bytes[3] = 1;
    let len_field = (compressed.len() + 1) as u32;
    bytes.extend_from_slice(&len_field.to_be_bytes());
    bytes.push(1);
    bytes.extend_from_slice(&compressed);

    let img = flex_updater_mc::region::RegionImage::from_bytes(bytes).unwrap();
    assert_eq!(img.read_chunk(0, 0).unwrap(), Some(payload));
}
