use ct_tilemap::{ReadError, TileMap};

fn layer_block_up_to_sections() -> Vec<u8> {
    let mut file: Vec<u8> = Vec::new();
    file.extend_from_slice(b"ACHTUNG!"); // Magic string
    file.extend_from_slice(b"\x05\x01"); // Version 5
    file.extend_from_slice(b"LAYR"); // Layers
    file.extend_from_slice(&128_u32.to_le_bytes()); // Block length
    file.extend_from_slice(&1_u16.to_le_bytes()); // Number of layers
    file.extend_from_slice(&5_u32.to_le_bytes());
    file.extend_from_slice(&5_u32.to_le_bytes()); // Dimensions
    file.extend_from_slice(&8_u16.to_le_bytes());
    file.extend_from_slice(&8_u16.to_le_bytes()); // Tile dimensions
    file.extend_from_slice(&[0xFF, 0xFF]); // Tileset and collision
    file.extend_from_slice(&0_u32.to_le_bytes());
    file.extend_from_slice(&0_u32.to_le_bytes()); // Offset
    file.extend_from_slice(&0_f32.to_le_bytes());
    file.extend_from_slice(&0_f32.to_le_bytes()); // Scroll
    file.extend_from_slice(&[0, 0]); // Wrap
    file.push(1); // Visible
    file.extend_from_slice(&0.9_f32.to_le_bytes()); // Opacity
    file.extend_from_slice(&[0xFF, 0xFF, 0xFF]); // Sublayer stuff
    file.push(1); // One data block
    file
}

fn wrong_string() -> Vec<u8> {
    b"INVALID!".to_vec()
}

fn unsupported_version() -> Vec<u8> {
    b"ACHTUNG!\x09\x01".to_vec()
}

fn invalid_header() -> Vec<u8> {
    b"ACHTUNG!\x05\x01OHNO\x00\x00\x00\x00".to_vec()
}

fn invalid_mapping() -> Vec<u8> {
    let mut file: Vec<u8> = Vec::new();
    file.extend_from_slice(b"ACHTUNG!"); // Magic string
    file.extend_from_slice(b"\x05\x01"); // Version 5
    file.extend_from_slice(b"MAP "); // Property mapping
    file.extend_from_slice(&27_u32.to_le_bytes()); // Block length
    file.extend_from_slice(&3_u16.to_le_bytes()); // Number of properties
    file.push(6);
    file.extend_from_slice(b"Invalid"); // Property 1
    file.push(9);
    file.extend_from_slice(b"Invalid property");
    file
}

fn invalid_layer_size() -> Vec<u8> {
    let mut file = layer_block_up_to_sections();
    file.extend_from_slice(b"MAIN"); // Main tile data
    file.extend_from_slice(&23_u32.to_le_bytes()); // Length
    file.extend_from_slice(&[
        0x78, 0x9c, 0x05, 0x80, 0xa1, 0x09, 0x00, 0x00, 0x00, 0xc2, 0xde, 0xb5, 0x09, 0xd3, 0xf7,
        0xc3, 0x58, 0xca, 0x05, 0x06, 0x89, 0x02, 0x31,
    ]);
    file
}

fn invalid_layer_header() -> Vec<u8> {
    let mut file = layer_block_up_to_sections();
    file.extend_from_slice(b"OHNO");
    file
}

fn invalid_compressed() -> Vec<u8> {
    let mut file = layer_block_up_to_sections();
    file.extend_from_slice(b"MAIN"); // Main tile data
    file.extend_from_slice(&5_u32.to_le_bytes()); // Length
    file.extend_from_slice(&[0x00, 0x00, 0x00, 0x00, 0x00]);
    file
}

#[test]
fn invalid_files() {
    assert!(matches!(TileMap::read(&wrong_string()).unwrap_err(), ReadError::InvalidMagic));
    assert!(matches!(
        TileMap::read(&unsupported_version()).unwrap_err(),
        ReadError::UnsupportedVersion(9)
    ));
    assert!(matches!(TileMap::read(&invalid_header()).unwrap_err(), ReadError::InvalidHeader(_)));
    assert!(matches!(
        TileMap::read(&invalid_layer_header()).unwrap_err(),
        ReadError::InvalidHeader(_)
    ));
    assert!(matches!(TileMap::read(&invalid_mapping()).unwrap_err(), ReadError::InvalidType(9)));
    assert!(matches!(
        TileMap::read(&invalid_layer_size()).unwrap_err(),
        ReadError::InvalidLayerLength
    ));
    assert!(matches!(TileMap::read(&invalid_compressed()).unwrap_err(), ReadError::IoError(_)));
}

#[test]
fn unknown_tags_are_named() {
    match TileMap::read(&invalid_header()).unwrap_err() {
        ReadError::InvalidHeader(tag) => assert_eq!(tag, "OHNO"),
        other => panic!("{other:?}"),
    }
    match TileMap::read(&invalid_layer_header()).unwrap_err() {
        ReadError::InvalidHeader(tag) => assert_eq!(tag, "OHNO"),
        other => panic!("{other:?}"),
    }
    match TileMap::read(b"ACHTUNG!\x05\x01\xFFABC\x00\x00\x00\x00").unwrap_err() {
        ReadError::InvalidHeader(tag) => assert_eq!(tag, "\u{FFFD}ABC"),
        other => panic!("{other:?}"),
    }
}

#[test]
fn sublayer_of_wrong_length_is_refused() {
    let mut file = layer_block_up_to_sections();
    file.extend_from_slice(b"DATA");
    file.push(1);
    file.extend_from_slice(&[0, 0, 0, 0]);
    // Five bytes, packed, where the grid asks for 25.
    file.extend_from_slice(&23_u32.to_le_bytes());
    file.extend_from_slice(&[
        0x78, 0x9c, 0x05, 0x80, 0xa1, 0x09, 0x00, 0x00, 0x00, 0xc2, 0xde, 0xb5, 0x09, 0xd3, 0xf7,
        0xc3, 0x58, 0xca, 0x05, 0x06, 0x89, 0x02, 0x31,
    ]);
    assert!(matches!(TileMap::read(&file).unwrap_err(), ReadError::InvalidLayerLength));
}

#[test]
fn version_field_needs_its_flag() {
    // Without bit 8 the field stands for a version above the last one.
    assert!(matches!(
        TileMap::read(b"ACHTUNG!\x05\x00").unwrap_err(),
        ReadError::UnsupportedVersion(0x105)
    ));
    assert!(matches!(
        TileMap::read(b"ACHTUNG!\x06\x01").unwrap_err(),
        ReadError::UnsupportedVersion(6)
    ));
    assert!(TileMap::read(b"ACHTUNG!\x00\x01").is_ok());
}

#[test]
fn input_ending_inside_a_block_tag_is_an_input_error() {
    // Behind the version a block begins with four bytes of tag and four of
    // length; fewer than eight bytes there are no block.
    assert!(TileMap::read(b"ACHTUNG!\x05\x01").is_ok());
    assert!(matches!(TileMap::read(b"ACHTUNG!\x05\x01L").unwrap_err(), ReadError::IoError(_)));
    assert!(matches!(TileMap::read(b"ACHTUNG!\x05\x01LA").unwrap_err(), ReadError::IoError(_)));
    assert!(matches!(TileMap::read(b"ACHTUNG!\x05\x01LAYR").unwrap_err(), ReadError::IoError(_)));
    assert!(matches!(
        TileMap::read(b"ACHTUNG!\x05\x01LAYR\x00\x00\x00").unwrap_err(),
        ReadError::IoError(_)
    ));
    // The same holds of bytes that spell no tag.
    assert!(matches!(TileMap::read(b"ACHTUNG!\x05\x01OH").unwrap_err(), ReadError::IoError(_)));
    // And behind a whole block.
    assert!(matches!(
        TileMap::read(b"ACHTUNG!\x05\x01MAP \x00\x00\x00\x00TI").unwrap_err(),
        ReadError::IoError(_)
    ));
}
