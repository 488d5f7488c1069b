use ct_tilemap::{Layer, SubLayer, SubLayerLink, Tile, TileSet};

fn numbered(width: u32, height: u32) -> Layer {
    let mut layer = Layer::new();
    layer.resize(width, height);
    let mut y = 0;
    while y < height as usize {
        let mut x = 0;
        while x < width as usize {
            *layer.get_mut((x, y)).unwrap() = Tile { id: (y * 16 + x) as u16 };
            x += 1;
        }
        y += 1;
    }
    layer
}

fn ids(layer: &Layer) -> Vec<u16> {
    layer.tiles().iter().map(|t| t.id).collect()
}

#[test]
fn new_values_are_the_defaults() {
    let layer = Layer::new();
    assert_eq!((layer.width(), layer.height()), (0, 0));
    assert!(layer.tiles().is_empty());
    assert!(layer.visible);
    assert_eq!(layer.opacity.to_bits(), 1.0_f32.to_bits());
    assert_eq!(layer.scroll.0.to_bits(), 0.0_f32.to_bits());
    assert_eq!(layer.tile_dimensions, (16, 16));
    assert_eq!(layer.sublayer_link, SubLayerLink::new());
    assert_eq!(SubLayerLink::new().tileset, 0xFF);
    assert_eq!(SubLayerLink::default().animation, 0xFF);
    assert_eq!(SubLayerLink::default().animation_frame, 0xFF);
    assert_eq!(Tile::default().id(), 0xFFFF);
    assert_eq!(TileSet::new().path, "");
    assert_eq!(TileSet::default().transparent_color, (0, 0, 0));
    let sublayer = SubLayer::default();
    assert_eq!((sublayer.width(), sublayer.height(), sublayer.cell_size()), (0, 0, 0));
    assert_eq!(sublayer.default_value(), [0; 4]);
    assert!(sublayer.data().is_empty());
    assert_eq!(Layer::default(), Layer::new());
}

#[test]
fn resize_fills_a_new_grid_with_unset_tiles() {
    let mut layer = Layer::new();
    layer.resize(3, 2);
    assert_eq!(ids(&layer), vec![0xFFFF; 6]);
    assert!(layer.is_well_formed());
}

#[test]
fn resize_to_the_same_size_changes_nothing() {
    let mut layer = numbered(3, 2);
    layer.add_sublayer(b"ab");
    let before = layer.clone();
    layer.resize(3, 2);
    assert_eq!(layer, before);
    let mut empty = Layer::new();
    empty.resize(0, 7);
    assert_eq!(empty, Layer::new());
}

#[test]
fn resize_keeps_cells_by_column_and_row() {
    let mut layer = numbered(3, 2);
    assert_eq!(ids(&layer), vec![0x00, 0x01, 0x02, 0x10, 0x11, 0x12]);
    layer.resize(2, 3);
    assert_eq!(ids(&layer), vec![0x00, 0x01, 0x10, 0x11, 0xFFFF, 0xFFFF]);
    layer.resize(4, 1);
    assert_eq!(ids(&layer), vec![0x00, 0x01, 0xFFFF, 0xFFFF]);
    layer.resize(4, 2);
    assert_eq!(ids(&layer), vec![0x00, 0x01, 0xFFFF, 0xFFFF, 0xFFFF, 0xFFFF, 0xFFFF, 0xFFFF]);
    layer.resize(0, 5);
    assert_eq!((layer.width(), layer.height()), (0, 0));
    assert!(layer.tiles().is_empty());
}

#[test]
fn shrinking_and_growing_back_loses_what_was_cut() {
    let mut layer = numbered(3, 3);
    layer.resize(2, 3);
    layer.resize(3, 3);
    assert_eq!(
        ids(&layer),
        vec![0x00, 0x01, 0xFFFF, 0x10, 0x11, 0xFFFF, 0x20, 0x21, 0xFFFF]
    );
    let mut layer = numbered(3, 3);
    layer.resize(3, 1);
    layer.resize(3, 3);
    assert_eq!(
        ids(&layer),
        vec![0x00, 0x01, 0x02, 0xFFFF, 0xFFFF, 0xFFFF, 0xFFFF, 0xFFFF, 0xFFFF]
    );
}

#[test]
fn sublayers_follow_their_layer() {
    let mut layer = Layer::new();
    layer.resize(2, 2);
    {
        let sublayer = layer.add_sublayer(b"xy");
        assert_eq!((sublayer.width(), sublayer.height(), sublayer.cell_size()), (2, 2, 2));
        assert_eq!(sublayer.data(), b"xyxyxyxy");
        sublayer.get_mut((1, 0)).unwrap().copy_from_slice(b"AB");
        sublayer.get_mut((0, 1)).unwrap().copy_from_slice(b"CD");
    }
    layer.resize(3, 1);
    assert_eq!(layer.sublayers[0].data(), b"xyABxy");
    layer.resize(2, 2);
    assert_eq!(layer.sublayers[0].data(), b"xyABxyxy");
    assert_eq!(layer.sublayers[0].get((1, 0)), Some(&b"AB"[..]));
    assert_eq!(layer.sublayers[0].get((2, 0)), None);
    assert_eq!(layer.sublayers[0].get((0, 2)), None);
    layer.resize(0, 0);
    assert_eq!((layer.sublayers[0].width(), layer.sublayers[0].height()), (0, 0));
    assert!(layer.sublayers[0].data().is_empty());
}

#[test]
fn sublayer_resize_covers_each_case() {
    let mut sublayer = SubLayer::new();
    sublayer.set_default(b"ab");
    sublayer.resize(0, 3);
    assert_eq!((sublayer.width(), sublayer.height()), (0, 0));
    sublayer.resize(2, 1);
    assert_eq!(sublayer.data(), b"abab");
    sublayer.get_mut((0, 0)).unwrap().copy_from_slice(b"01");
    sublayer.get_mut((1, 0)).unwrap().copy_from_slice(b"23");
    sublayer.resize(2, 1);
    assert_eq!(sublayer.data(), b"0123");
    sublayer.resize(2, 2);
    assert_eq!(sublayer.data(), b"0123abab");
    sublayer.resize(1, 2);
    assert_eq!(sublayer.data(), b"01ab");
    sublayer.resize(3, 2);
    assert_eq!(sublayer.data(), b"01ababababab");
    sublayer.resize(3, 1);
    assert_eq!(sublayer.data(), b"01abab");
    sublayer.resize(4, 0);
    assert_eq!((sublayer.width(), sublayer.height()), (0, 0));
    assert!(sublayer.data().is_empty());
}

#[test]
fn set_default_changes_the_width_of_every_cell() {
    let mut sublayer = SubLayer::new();
    sublayer.set_default(b"abc");
    assert_eq!(sublayer.cell_size(), 3);
    assert_eq!(sublayer.default_value(), [b'a', b'b', b'c', 0]);
    sublayer.resize(2, 1);
    assert_eq!(sublayer.data(), b"abcabc");
    // Wider: zeros behind what was there.
    sublayer.set_default(b"wxyz");
    assert_eq!(sublayer.data(), b"abc\0abc\0");
    // Same width: nothing but the default value changes.
    sublayer.set_default(b"1234");
    assert_eq!(sublayer.data(), b"abc\0abc\0");
    assert_eq!(sublayer.default_value(), *b"1234");
    // Narrower: the last bytes go.
    sublayer.set_default(b"q");
    assert_eq!(sublayer.data(), b"aa");
    assert_eq!(sublayer.default_value(), [b'q', 0, 0, 0]);
    // No width: no bytes.
    sublayer.set_default(b"");
    assert!(sublayer.data().is_empty());
    assert_eq!(sublayer.cell_size(), 0);
    // From no width: zeros, not the default value.
    sublayer.set_default(b"longer than four");
    assert_eq!(sublayer.cell_size(), 4);
    assert_eq!(sublayer.default_value(), *b"long");
    assert_eq!(sublayer.data(), &[0; 8]);
    // New cells hold the default value.
    sublayer.resize(3, 1);
    assert_eq!(sublayer.data(), b"\0\0\0\0\0\0\0\0long");
}

#[test]
fn get_addresses_cells_by_index() {
    let layer = numbered(3, 2);
    assert_eq!(layer.get((2, 1)), Some(&Tile { id: 0x12 }));
    // A column behind the last one is a cell of the next row.
    assert_eq!(layer.get((3, 0)), Some(&Tile { id: 0x10 }));
    assert_eq!(layer.get((0, 2)), None);
    assert_eq!(layer.get((usize::MAX, usize::MAX)), None);
    let mut layer = layer;
    assert!(layer.get_mut((usize::MAX, 1)).is_none());
    layer.get_mut((1, 1)).unwrap().id = 7;
    assert_eq!(layer.tiles()[4], Tile { id: 7 });
}

#[test]
fn tile_holds_one_bit_pattern() {
    let mut tile = Tile::from_position([0x12, 0x34]);
    assert_eq!(tile.position(), [0x12, 0x34]);
    assert_eq!(tile.id(), u16::from_ne_bytes([0x12, 0x34]));
    *tile.id_mut() = 0xBEEF;
    assert_eq!(tile.id(), 0xBEEF);
    assert_eq!(tile.position(), 0xBEEF_u16.to_ne_bytes());
    tile.set_position([1, 2]);
    assert_eq!(tile.position(), [1, 2]);
    assert_eq!(Tile { id: 5 }, Tile { id: 5 });
    assert_ne!(Tile { id: 5 }, Tile { id: 6 });
}
