use ct_tilemap::{FloatBits, Layer, Property, ReadError, SubLayer, Tile, TileMap, TileSet};

fn sample_file() -> Vec<u8> {
    let mut file: Vec<u8> = Vec::new();
    file.extend_from_slice(b"ACHTUNG!"); // Magic string
    file.extend_from_slice(b"\x05\x01"); // Version 5
    file.extend_from_slice(b"MAP "); // Property mapping
    file.extend_from_slice(&51_u32.to_le_bytes()); // Block length
    file.extend_from_slice(&3_u16.to_le_bytes()); // Number of properties
    file.push(6);
    file.extend_from_slice(b"Integer"); // Property 1
    file.push(0);
    file.extend_from_slice(&196_i32.to_le_bytes()); // Integer
    file.push(4);
    file.extend_from_slice(b"Float"); // Property 2
    file.push(1);
    file.extend_from_slice(&2.2_f32.to_le_bytes()); // Float
    file.push(5);
    file.extend_from_slice(b"String"); // Property 3
    file.push(2);
    file.extend_from_slice(&12_u32.to_le_bytes());
    file.extend_from_slice(b"Hello, world!"); // String
    file.extend_from_slice(b"TILE"); // Tilesets
    file.extend_from_slice(&32_u32.to_le_bytes()); // Block length
    file.push(2); // Number of tilesets
    file.extend_from_slice(&[0, 0xda, 0x89, 0x72]); // xBGR color
    file.push(12);
    file.extend_from_slice(b"overworld.png");
    file.extend_from_slice(&[0, 0x3F, 0x39, 0x36]); // xBGR color
    file.push(7);
    file.extend_from_slice(b"cave.png");
    file.extend_from_slice(b"LAYR"); // Layers
    file.extend_from_slice(&128_u32.to_le_bytes()); // Block length
    file.extend_from_slice(&1_u16.to_le_bytes()); // Number of layers
    file.extend_from_slice(&5_u32.to_le_bytes());
    file.extend_from_slice(&5_u32.to_le_bytes()); // Dimensions
    file.extend_from_slice(&8_u16.to_le_bytes());
    file.extend_from_slice(&8_u16.to_le_bytes()); // Tile dimensions
    file.extend_from_slice(&[0xFF, 0xFF]); // Tileset and collision
    file.extend_from_slice(&0_u32.to_le_bytes());
    file.extend_from_slice(&0_u32.to_le_bytes()); // Offset
    file.extend_from_slice(&0_f32.to_le_bytes());
    file.extend_from_slice(&0_f32.to_le_bytes()); // Scroll
    file.extend_from_slice(&[0, 0]); // Wrap
    file.push(1); // Visible
    file.extend_from_slice(&0.9_f32.to_le_bytes()); // Opacity
    file.extend_from_slice(&[0xFF, 0xFF, 0xFF]); // Sublayer stuff
    file.push(2); // Two data blocks
    file.extend_from_slice(b"MAIN"); // Main tile data
    file.extend_from_slice(&31_u32.to_le_bytes()); // Length
    file.extend_from_slice(&[
        0x78, 0x9c, 0x4d, 0xc9, 0x01, 0x06, 0x00, 0x00, 0x10, 0x02, 0xc1, 0xfd, 0xff, 0xa7, 0x37,
        0x27, 0x71, 0x43, 0x94, 0x14, 0x9a, 0xdf, 0x66, 0xab, 0xcf, 0xd1, 0x00, 0x55, 0x07, 0x1f,
        0xe1,
    ]);
    file.extend_from_slice(b"DATA");
    file.push(1); // Cell size
    file.extend_from_slice(&[0x00, 0x00, 0x00, 0x00]); // Default value
    file.extend_from_slice(&27_u32.to_le_bytes()); // Length
    file.extend_from_slice(&[
        0x78, 0x9c, 0x25, 0xc4, 0x81, 0x09, 0x00, 0x00, 0x10, 0x82, 0xc0, 0x72, 0xff, 0xa1, 0xfb,
        0x47, 0x85, 0x4b, 0x6f, 0xf9, 0x50, 0xc8, 0x00, 0x00, 0x91, 0x00, 0x0d,
    ]);
    file
}

fn host_is_big_endian() -> bool {
    u16::from_ne_bytes([0, 1]) == 1
}

#[test]
fn test_round_trip_test() {
    let file = sample_file();
    let map = TileMap::read(&file).unwrap();
    let buf = map.write().unwrap();
    let same_map = TileMap::read(&buf).unwrap();
    assert_eq!(map, same_map, "Round-trip test failed!");
}

#[test]
fn coverage_garbage_round_trip_test() {
    let file = sample_file();
    let map = TileMap::read(&file).unwrap();
    let buf = map.write().unwrap();
    let same_map = TileMap::read(&buf).unwrap();
    assert_eq!(map, same_map, "Round-trip test failed!");

    let mut tilemap = TileMap::read(&file).unwrap();
    println!("{tilemap:?}");
    for layer in &mut tilemap.layers {
        assert!(layer.is_well_formed());
        // This sequence covers all cases of resize
        let _ = layer.add_sublayer(b"YES");
        layer.resize(0, 0);
        layer.resize(8, 8);
        layer.resize(8, 8);
        layer.resize(8, 7);
        layer.resize(7, 8);
        layer.resize(7, 7);
        layer.resize(7, 8);
        layer.resize(8, 7);
        layer.resize(8, 8);
        assert_eq!(layer.width(), 8);
        assert_eq!(layer.height(), 8);
        // Test setting
        *layer.get_mut((0, 0)).unwrap() = Tile { id: 0x1234 };
        *layer.get_mut((0, 1)).unwrap() = Tile::from_position([5, 3]);
        assert_eq!(layer.get((2, 2)).unwrap(), &layer.tiles()[2 * 8 + 2]);
        let mut set_tile = *layer.get((0, 0)).unwrap();
        assert_eq!(set_tile.id(), 0x1234);
        if host_is_big_endian() {
            assert_eq!(set_tile.position(), [0x12, 0x34]);
        } else {
            assert_eq!(set_tile.position(), [0x34, 0x12]);
        }
        *set_tile.id_mut() = 0x4321;
        set_tile.set_position([0xAB, 0xCD]);
        if host_is_big_endian() {
            assert_eq!(set_tile.id(), 0xABCD);
        } else {
            assert_eq!(set_tile.id(), 0xCDAB);
        }
        assert!(layer.get((9, 9)).is_none());
        assert!(layer.get((5, 5)).is_some());
        assert!(layer.get_mut((9, 9)).is_none());
        assert!(layer.get_mut((5, 5)).is_some());
        let sublayer = layer.sublayers.last_mut().unwrap();
        assert_eq!(sublayer.width(), 8);
        assert_eq!(sublayer.height(), 8);
        assert_eq!(sublayer.cell_size(), 3);
        sublayer.set_default(b"YES!"); // Small -> big
        sublayer.set_default(b"Y"); // Big -> small
        sublayer.set_default(b""); // Small -> 0
        sublayer.set_default(b"YES!!!!"); // 0 -> Big
        assert_eq!(sublayer.cell_size(), 4); // Should get truncated
        sublayer.get_mut((3, 3)).unwrap().copy_from_slice(b"NO! ");
        assert_eq!(sublayer.get((3, 4)).unwrap(), &[0; 4]); // This got nulled by setting cell size to 0
        assert!(sublayer.get((9, 9)).is_none());
        assert!(sublayer.get((5, 5)).is_some());
        assert!(sublayer.get_mut((9, 9)).is_none());
        assert!(sublayer.get_mut((5, 5)).is_some());
        println!("{layer:#?}");
        println!("{layer:?}");
    }

    assert_eq!(Property::from(1), Property::Integer(1));
    assert_eq!(
        Property::from(FloatBits::from_bits(2.5_f32.to_bits())),
        Property::Float(FloatBits::from_bits(2.5_f32.to_bits()))
    );
    assert_eq!(Property::from(b"Yo!".to_vec()), Property::String(b"Yo!".to_vec()));
    assert_eq!(Property::from("Hi!".to_string()), Property::String(b"Hi!".to_vec()));
}

#[test]
fn sample_file_holds_what_it_describes() {
    let map = TileMap::read(&sample_file()).unwrap();
    assert_eq!(map.properties.len(), 3);
    assert_eq!(map.properties.get("Integer"), Some(&Property::Integer(196)));
    assert_eq!(
        map.properties.get("Float"),
        Some(&Property::Float(FloatBits::from_bits(2.2_f32.to_bits())))
    );
    assert_eq!(
        map.properties.get("String"),
        Some(&Property::String(b"Hello, world!".to_vec()))
    );
    assert_eq!(map.properties.get("Missing"), None);
    assert_eq!(map.tilesets.len(), 2);
    assert_eq!(map.tilesets[0].path, "overworld.png");
    assert_eq!(map.tilesets[0].transparent_color, (0x72, 0x89, 0xda));
    assert_eq!(map.tilesets[1].path, "cave.png");
    assert_eq!(map.tilesets[1].transparent_color, (0x36, 0x39, 0x3F));
    assert_eq!(map.layers.len(), 1);
    let layer = &map.layers[0];
    assert_eq!((layer.width(), layer.height()), (5, 5));
    assert_eq!(layer.tile_dimensions, (8, 8));
    assert_eq!(layer.tileset, 0xFF);
    assert_eq!(layer.collision, 0xFF);
    assert_eq!(layer.offset, (0, 0));
    assert_eq!(layer.wrap, (false, false));
    assert!(layer.visible);
    assert_eq!(f32::from_bits(layer.opacity.to_bits()), 0.9);
    assert_eq!(layer.tiles().len(), 25);
    assert_eq!(layer.tiles()[0], Tile { id: 0xFFFF });
    assert_eq!(layer.tiles()[1], Tile { id: 0x0000 });
    assert_eq!(layer.sublayers.len(), 1);
    let sublayer = &layer.sublayers[0];
    assert_eq!(sublayer.cell_size(), 1);
    assert_eq!((sublayer.width(), sublayer.height()), (5, 5));
    assert_eq!(sublayer.data().len(), 25);
    assert_eq!(&sublayer.data()[..4], &[0, 1, 0, 1]);
}

#[test]
fn tiles_are_written_high_byte_first() {
    let mut map = TileMap::new();
    let mut layer = Layer::new();
    layer.resize(2, 1);
    *layer.get_mut((0, 0)).unwrap() = Tile { id: 0x1234 };
    *layer.get_mut((1, 0)).unwrap() = Tile { id: 0x00FF };
    map.layers.push(layer);
    let bytes = map.write().unwrap();
    let back = TileMap::read(&bytes).unwrap();
    assert_eq!(back, map);
    assert_eq!(back.layers[0].tiles(), &[Tile { id: 0x1234 }, Tile { id: 0x00FF }]);
}

#[test]
fn written_file_begins_with_magic_and_version() {
    let bytes = TileMap::new().write().unwrap();
    assert_eq!(bytes, b"ACHTUNG!\x05\x01");
    assert_eq!(TileMap::read(&bytes).unwrap(), TileMap::new());
}

#[test]
fn written_blocks_are_byte_exact() {
    let mut map = TileMap::new();
    map.properties.insert("A".to_string(), Property::Integer(-2));
    map.tilesets.push(TileSet { path: "t".to_string(), transparent_color: (1, 2, 3) });
    let mut layer = Layer::new();
    layer.tileset = 7;
    layer.offset = (-1, 2);
    map.layers.push(layer);
    let bytes = map.write().unwrap();
    let mut expected: Vec<u8> = Vec::new();
    expected.extend_from_slice(b"ACHTUNG!\x05\x01");
    expected.extend_from_slice(b"MAP ");
    expected.extend_from_slice(&9_u32.to_le_bytes());
    expected.extend_from_slice(&[1, 0, 0, b'A', 0, 0xFE, 0xFF, 0xFF, 0xFF]);
    expected.extend_from_slice(b"TILE");
    expected.extend_from_slice(&7_u32.to_le_bytes());
    expected.extend_from_slice(&[1, 0, 3, 2, 1, 0, b't']);
    expected.extend_from_slice(b"LAYR");
    expected.extend_from_slice(&43_u32.to_le_bytes());
    expected.extend_from_slice(&[1, 0]);
    expected.extend_from_slice(&[0, 0, 0, 0, 0, 0, 0, 0, 16, 0, 16, 0]);
    expected.extend_from_slice(&[7, 0, 0xFF, 0xFF, 0xFF, 0xFF, 2, 0, 0, 0]);
    expected.extend_from_slice(&[0, 0, 0, 0, 0, 0, 0, 0, 0, 0, 1]);
    expected.extend_from_slice(&1.0_f32.to_le_bytes());
    expected.extend_from_slice(&[0xFF, 0xFF, 0xFF, 0]);
    assert_eq!(bytes, expected);
    assert_eq!(TileMap::read(&bytes).unwrap(), map);
}

#[test]
fn older_versions_are_read() {
    // Version 1: the block of properties holds the size of a tile, the
    // layers hold none and no sublayer link.
    let mut file: Vec<u8> = Vec::new();
    file.extend_from_slice(b"ACHTUNG!\x01\x01");
    file.extend_from_slice(b"MAP ");
    file.extend_from_slice(&4_u32.to_le_bytes());
    file.extend_from_slice(&[32, 0, 24, 0]);
    file.extend_from_slice(b"LAYR");
    file.extend_from_slice(&0_u32.to_le_bytes());
    file.extend_from_slice(&[1, 0]);
    file.extend_from_slice(&[0, 0, 0, 0, 3, 0, 0, 0]);
    file.extend_from_slice(&[1, 2]);
    file.extend_from_slice(&[0; 16]);
    file.extend_from_slice(&[1, 0, 0]);
    file.extend_from_slice(&0.5_f32.to_le_bytes());
    file.push(0);
    let map = TileMap::read(&file).unwrap();
    assert_eq!(map.layers.len(), 1);
    let layer = &map.layers[0];
    assert_eq!(layer.tile_dimensions, (32, 24));
    assert_eq!((layer.width(), layer.height()), (0, 3));
    assert_eq!((layer.tileset, layer.collision), (1, 2));
    assert_eq!(layer.wrap, (true, false));
    assert!(!layer.visible);
    assert_eq!(layer.sublayer_link.tileset, 0xFF);
    assert_eq!(layer.sublayer_link.animation, 0xFF);
    assert_eq!(layer.sublayer_link.animation_frame, 0xFF);

    // Version 0 counts the layers with one byte.
    let mut file: Vec<u8> = Vec::new();
    file.extend_from_slice(b"ACHTUNG!\x00\x01");
    file.extend_from_slice(b"LAYR");
    file.extend_from_slice(&0_u32.to_le_bytes());
    file.push(0);
    let map = TileMap::read(&file).unwrap();
    assert_eq!(map.layers.len(), 0);

    // Version 4 holds two bytes of sublayer link.
    let mut file: Vec<u8> = Vec::new();
    file.extend_from_slice(b"ACHTUNG!\x04\x01");
    file.extend_from_slice(b"LAYR");
    file.extend_from_slice(&0_u32.to_le_bytes());
    file.extend_from_slice(&[1, 0]);
    file.extend_from_slice(&[0; 12]);
    file.extend_from_slice(&[0; 25]);
    file.extend_from_slice(&[3, 4]);
    file.push(0);
    let map = TileMap::read(&file).unwrap();
    assert_eq!(map.layers[0].sublayer_link.tileset, 3);
    assert_eq!(map.layers[0].sublayer_link.animation, 4);
    assert_eq!(map.layers[0].sublayer_link.animation_frame, 0xFF);
}

#[test]
fn later_property_replaces_earlier_one() {
    let mut file: Vec<u8> = Vec::new();
    file.extend_from_slice(b"ACHTUNG!\x05\x01");
    file.extend_from_slice(b"MAP ");
    file.extend_from_slice(&0_u32.to_le_bytes());
    file.extend_from_slice(&[2, 0]);
    file.extend_from_slice(&[0, b'k', 0, 1, 0, 0, 0]);
    file.extend_from_slice(&[0, b'k', 0, 2, 0, 0, 0]);
    let map = TileMap::read(&file).unwrap();
    assert_eq!(map.properties.len(), 1);
    assert_eq!(map.properties.get("k"), Some(&Property::Integer(2)));
}

#[test]
fn sublayers_survive_the_round_trip() {
    let mut map = TileMap::new();
    let mut layer = Layer::new();
    layer.resize(3, 2);
    layer.add_sublayer(b"ab");
    layer.add_sublayer(b"");
    layer.sublayers[0].get_mut((2, 1)).unwrap().copy_from_slice(b"zz");
    map.layers.push(layer);
    let bytes = map.write().unwrap();
    let back = TileMap::read(&bytes).unwrap();
    assert_eq!(back, map);
    assert_eq!(back.layers[0].sublayers[0].data(), b"abababababzz");
    assert_eq!(back.layers[0].sublayers[0].default_value(), [b'a', b'b', 0, 0]);
    assert_eq!(back.layers[0].sublayers[1].cell_size(), 0);
    let _ = SubLayer::new();
}

#[test]
fn truncated_input_is_an_input_error() {
    let file = sample_file();
    let mut at = 10;
    while at < file.len() {
        let cut = &file[..at];
        let result = TileMap::read(cut);
        // The bytes may end where a block would begin.
        if at == 10 || at == 69 || at == 109 {
            assert!(result.is_ok(), "{at}");
        } else {
            assert!(matches!(result, Err(ReadError::IoError(_))), "{at}");
        }
        at += 1;
    }
    assert!(matches!(TileMap::read(b"ACHTUNG"), Err(ReadError::IoError(_))));
    assert!(matches!(TileMap::read(b"ACHTUNG!\x05"), Err(ReadError::IoError(_))));
    assert!(matches!(TileMap::read(b"ACHTUNG!\x05\x01LAY"), Err(ReadError::IoError(_))));
}
