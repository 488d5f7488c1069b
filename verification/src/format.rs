//! The file format: what a sequence of bytes holds, and the bytes that hold
//! a tilemap.
//!
//! A file begins with the magic string and a 16-bit version whose bit 8 is
//! always set. Blocks follow until the bytes end: a tag of four bytes, a
//! 32-bit length that readers ignore, and the content that the tag names.

use vstd::prelude::*;
use vstd::utf8::encode_utf8;
use crate::bytes::{
    as_signed, as_unsigned, le_u16, le_u32, long_string, read_i32, read_long_string,
    read_short_string, read_u16, read_u32, read_u8, short_string, take, u16_le, u32_le, Parsed,
};
use crate::compress::{compressed, length_field, read_compressed, zlib_packed, zlib_unpacked};
use crate::error::Failure;
use crate::layer::{FloatBits, LayerView, SubLayerLink};
use crate::sublayer::{padded, SubLayerView};
use crate::text::text_of;
use crate::tile::{high_byte, join_bytes, low_byte, Tile};
use crate::tilemap::{inserted, Entry, PropertyView, TileMapView, TileSetView};

verus! {

/// The magic string, `ACHTUNG!`.
pub open spec fn magic() -> Seq<u8> {
    seq![0x41u8, 0x43u8, 0x48u8, 0x54u8, 0x55u8, 0x4Eu8, 0x47u8, 0x21u8]
}

/// The tag of the block of properties, `MAP `.
pub open spec fn map_tag() -> Seq<u8> {
    seq![0x4Du8, 0x41u8, 0x50u8, 0x20u8]
}

/// The tag of the block of tilesets, `TILE`.
pub open spec fn tile_tag() -> Seq<u8> {
    seq![0x54u8, 0x49u8, 0x4Cu8, 0x45u8]
}

/// The tag of the block of layers, `LAYR`.
pub open spec fn layer_tag() -> Seq<u8> {
    seq![0x4Cu8, 0x41u8, 0x59u8, 0x52u8]
}

/// The tag of the tiles of a layer, `MAIN`.
pub open spec fn main_tag() -> Seq<u8> {
    seq![0x4Du8, 0x41u8, 0x49u8, 0x4Eu8]
}

/// The tag of a sublayer, `DATA`.
pub open spec fn data_tag() -> Seq<u8> {
    seq![0x44u8, 0x41u8, 0x54u8, 0x41u8]
}

/// The last version of the format.
pub open spec fn last_version() -> u16 {
    5
}

/// The version that the version field of a file holds: the field without
/// its bit 8.
pub open spec fn version_of(field: u16) -> u16 {
    field ^ 0x100
}

// Properties

/// A value of a property: a type byte, then an integer, a number or a long
/// string.
pub open spec fn parse_value(s: Seq<u8>) -> Parsed<PropertyView> {
    match read_u8(s) {
        Ok((ty, rest)) => if ty == 0 {
            match read_i32(rest) {
                Ok((v, behind)) => Ok((PropertyView::Integer(v), behind)),
                Err(e) => Err(e),
            }
        } else if ty == 1 {
            match read_u32(rest) {
                Ok((v, behind)) => Ok((PropertyView::Float(FloatBits { bits: v }), behind)),
                Err(e) => Err(e),
            }
        } else if ty == 2 {
            match read_long_string(rest) {
                Ok((v, behind)) => Ok((PropertyView::String(v), behind)),
                Err(e) => Err(e),
            }
        } else {
            Err(Failure::InvalidType(ty))
        },
        Err(e) => Err(e),
    }
}

/// A property: its name as a short string, then its value.
pub open spec fn parse_property(s: Seq<u8>) -> Parsed<Entry> {
    match read_short_string(s) {
        Ok((key, rest)) => match parse_value(rest) {
            Ok((value, behind)) => Ok(((text_of(key), value), behind)),
            Err(e) => Err(e),
        },
        Err(e) => Err(e),
    }
}

/// `count` properties, each put into `entries` under its name.
pub open spec fn parse_properties(s: Seq<u8>, count: nat, entries: Seq<Entry>) -> Parsed<
    Seq<Entry>,
>
    decreases count,
{
    if count == 0 {
        Ok((entries, s))
    } else {
        match parse_property(s) {
            Ok(((key, value), rest)) => parse_properties(
                rest,
                (count - 1) as nat,
                inserted(entries, key, value),
            ),
            Err(e) => Err(e),
        }
    }
}

// Tilesets

/// A tileset: a byte of padding, the transparent colour as blue, green and
/// red, and the path as a short string.
pub open spec fn parse_tileset(s: Seq<u8>) -> Parsed<TileSetView> {
    match take(s, 4) {
        Ok((color, rest)) => match read_short_string(rest) {
            Ok((path, behind)) => Ok(
                (
                    TileSetView {
                        path: text_of(path),
                        transparent_color: (color[3], color[2], color[1]),
                    },
                    behind,
                ),
            ),
            Err(e) => Err(e),
        },
        Err(e) => Err(e),
    }
}

/// `count` tilesets, appended to `tilesets`.
pub open spec fn parse_tilesets(s: Seq<u8>, count: nat, tilesets: Seq<TileSetView>) -> Parsed<
    Seq<TileSetView>,
>
    decreases count,
{
    if count == 0 {
        Ok((tilesets, s))
    } else {
        match parse_tileset(s) {
            Ok((tileset, rest)) => parse_tilesets(rest, (count - 1) as nat, tilesets.push(tileset)),
            Err(e) => Err(e),
        }
    }
}

// Layers

/// The tiles that unpacked bytes hold: two bytes each, the high byte of the
/// identifier first.
pub open spec fn tiles_of(bytes: Seq<u8>) -> Seq<Tile> {
    Seq::new(bytes.len() / 2, |i: int| Tile { id: join_bytes(bytes[2 * i], bytes[2 * i + 1]) })
}

/// The bytes of tiles: two bytes each, the high byte of the identifier
/// first.
pub open spec fn tile_bytes(tiles: Seq<Tile>) -> Seq<u8> {
    Seq::new(
        2 * tiles.len(),
        |i: int|
            if i % 2 == 0 {
                high_byte(tiles[i / 2].id)
            } else {
                low_byte(tiles[i / 2].id)
            },
    )
}

/// Where the settings of a layer begin in its header: behind the
/// dimensions and, from version 2 on, the size of a tile.
pub open spec fn settings_at(version: u16) -> int {
    if version >= 2 {
        12
    } else {
        8
    }
}

/// How many bytes of the header of a layer hold the sublayer link.
pub open spec fn link_len(version: u16) -> int {
    if version == 5 {
        3
    } else if version >= 4 {
        2
    } else {
        0
    }
}

/// The length of the header of a layer: dimensions, size of a tile,
/// settings, sublayer link, and the number of data sections.
pub open spec fn header_len(version: u16) -> int {
    settings_at(version) + 25 + link_len(version) + 1
}

/// The layer that a header describes, without tiles and sublayers. Before
/// version 2 the size of a tile is `dims`, the size that the file gives for
/// all layers.
#[verifier::opaque]
pub open spec fn layer_of_header(h: Seq<u8>, version: u16, dims: (u16, u16)) -> LayerView {
    let a = settings_at(version);
    LayerView {
        data: Seq::empty(),
        width: le_u32(h.subrange(0, 4)),
        height: le_u32(h.subrange(4, 8)),
        tile_dimensions: if version >= 2 {
            (le_u16(h.subrange(8, 10)), le_u16(h.subrange(10, 12)))
        } else {
            dims
        },
        tileset: h[a],
        collision: h[a + 1],
        offset: (
            as_signed(le_u32(h.subrange(a + 2, a + 6))),
            as_signed(le_u32(h.subrange(a + 6, a + 10))),
        ),
        scroll: (
            FloatBits { bits: le_u32(h.subrange(a + 10, a + 14)) },
            FloatBits { bits: le_u32(h.subrange(a + 14, a + 18)) },
        ),
        wrap: (h[a + 18] > 0, h[a + 19] > 0),
        visible: h[a + 20] > 0,
        opacity: FloatBits { bits: le_u32(h.subrange(a + 21, a + 25)) },
        sublayer_link: SubLayerLink {
            tileset: if version >= 4 {
                h[a + 25]
            } else {
                0xFFu8
            },
            animation: if version >= 4 {
                h[a + 26]
            } else {
                0xFFu8
            },
            animation_frame: if version == 5 {
                h[a + 27]
            } else {
                0xFFu8
            },
        },
        sublayers: Seq::empty(),
    }
}

/// The sublayer that a data section describes for a layer of the given
/// dimensions: the cell width is at most four, the default value counts as
/// far as the cell width, and a layer without grid has sublayers without
/// grid.
pub open spec fn loaded_sublayer(
    size: u8,
    default: Seq<u8>,
    width: u32,
    height: u32,
    data: Seq<u8>,
) -> SubLayerView {
    let cell_size = if size > 4 {
        4u8
    } else {
        size
    };
    let empty = width == 0 || height == 0;
    SubLayerView {
        data,
        default_value: padded(default.take(cell_size as int)),
        cell_size,
        width: if empty {
            0
        } else {
            width
        },
        height: if empty {
            0
        } else {
            height
        },
    }
}

/// A data section of a layer: the tiles, or one more sublayer.
#[verifier::opaque]
pub open spec fn parse_section(s: Seq<u8>, layer: LayerView) -> Parsed<LayerView> {
    match take(s, 4) {
        Ok((tag, rest)) => if tag == main_tag() {
            match read_compressed(rest) {
                Ok((data, behind)) => if data.len() % 2 != 0 {
                    Err(Failure::InvalidLayerLength)
                } else {
                    Ok((LayerView { data: tiles_of(data), ..layer }, behind))
                },
                Err(e) => Err(e),
            }
        } else if tag == data_tag() {
            match take(rest, 5) {
                Ok((head, packed)) => match read_compressed(packed) {
                    Ok((data, behind)) => {
                        let sublayer = loaded_sublayer(
                            head[0],
                            head.subrange(1, 5),
                            layer.width,
                            layer.height,
                            data,
                        );
                        if data.len() != sublayer.width * sublayer.height * sublayer.cell_size {
                            Err(Failure::InvalidLayerLength)
                        } else {
                            Ok(
                                (
                                    LayerView {
                                        sublayers: layer.sublayers.push(sublayer),
                                        ..layer
                                    },
                                    behind,
                                ),
                            )
                        }
                    },
                    Err(e) => Err(e),
                },
                Err(e) => Err(e),
            }
        } else {
            Err(Failure::InvalidHeader(text_of(tag)))
        },
        Err(e) => Err(e),
    }
}

/// `count` data sections of a layer.
pub open spec fn parse_sections(s: Seq<u8>, count: nat, layer: LayerView) -> Parsed<LayerView>
    decreases count,
{
    if count == 0 {
        Ok((layer, s))
    } else {
        match parse_section(s, layer) {
            Ok((loaded, rest)) => parse_sections(rest, (count - 1) as nat, loaded),
            Err(e) => Err(e),
        }
    }
}

/// A layer: its header and as many data sections as the header counts.
#[verifier::opaque]
pub open spec fn parse_layer(s: Seq<u8>, version: u16, dims: (u16, u16)) -> Parsed<LayerView> {
    match take(s, header_len(version)) {
        Ok((h, rest)) => parse_sections(
            rest,
            h[header_len(version) - 1] as nat,
            layer_of_header(h, version, dims),
        ),
        Err(e) => Err(e),
    }
}

/// `count` layers, appended to `layers`.
pub open spec fn parse_layers(
    s: Seq<u8>,
    count: nat,
    version: u16,
    dims: (u16, u16),
    layers: Seq<LayerView>,
) -> Parsed<Seq<LayerView>>
    decreases count,
{
    if count == 0 {
        Ok((layers, s))
    } else {
        match parse_layer(s, version, dims) {
            Ok((layer, rest)) => parse_layers(
                rest,
                (count - 1) as nat,
                version,
                dims,
                layers.push(layer),
            ),
            Err(e) => Err(e),
        }
    }
}

// Blocks

/// What has been read of a file: the tilemap so far, and the size of a tile
/// that the file gives for all layers.
pub struct Loaded {
    /// The tilemap so far.
    pub map: TileMapView,
    /// The size of a tile for layers that hold none. It is 16 by 16 until a
    /// file of a version before 3 says otherwise.
    pub dims: (u16, u16),
}

/// The content of a block of properties. From version 3 on it holds a
/// 16-bit count and the properties; before, it holds the size of a tile for
/// all layers.
pub open spec fn parse_map_block(s: Seq<u8>, version: u16, loaded: Loaded) -> Parsed<Loaded> {
    if version >= 3 {
        match read_u16(s) {
            Ok((count, rest)) => match parse_properties(
                rest,
                count as nat,
                loaded.map.properties,
            ) {
                Ok((properties, behind)) => Ok(
                    (Loaded { map: TileMapView { properties, ..loaded.map }, ..loaded }, behind),
                ),
                Err(e) => Err(e),
            },
            Err(e) => Err(e),
        }
    } else {
        match take(s, 4) {
            Ok((d, behind)) => Ok(
                (
                    Loaded {
                        dims: (le_u16(d.subrange(0, 2)), le_u16(d.subrange(2, 4))),
                        ..loaded
                    },
                    behind,
                ),
            ),
            Err(e) => Err(e),
        }
    }
}

/// The content of a block of tilesets: a count of one byte and the
/// tilesets.
pub open spec fn parse_tile_block(s: Seq<u8>, loaded: Loaded) -> Parsed<Loaded> {
    match read_u8(s) {
        Ok((count, rest)) => match parse_tilesets(rest, count as nat, loaded.map.tilesets) {
            Ok((tilesets, behind)) => Ok(
                (Loaded { map: TileMapView { tilesets, ..loaded.map }, ..loaded }, behind),
            ),
            Err(e) => Err(e),
        },
        Err(e) => Err(e),
    }
}

/// The number of layers that a block of layers begins with: one byte in
/// version 0, a 16-bit integer since.
pub open spec fn parse_layer_count(s: Seq<u8>, version: u16) -> Parsed<u16> {
    if version == 0 {
        match read_u8(s) {
            Ok((count, rest)) => Ok((count as u16, rest)),
            Err(e) => Err(e),
        }
    } else {
        read_u16(s)
    }
}

/// The content of a block of layers: a count and the layers.
pub open spec fn parse_layer_block(s: Seq<u8>, version: u16, loaded: Loaded) -> Parsed<Loaded> {
    match parse_layer_count(s, version) {
        Ok((count, rest)) => match parse_layers(
            rest,
            count as nat,
            version,
            loaded.dims,
            loaded.map.layers,
        ) {
            Ok((layers, behind)) => Ok(
                (Loaded { map: TileMapView { layers, ..loaded.map }, ..loaded }, behind),
            ),
            Err(e) => Err(e),
        },
        Err(e) => Err(e),
    }
}

/// A block: its tag, its length, which is not used, and its content.
pub open spec fn parse_block(s: Seq<u8>, version: u16, loaded: Loaded) -> Parsed<Loaded> {
    match take(s, 8) {
        Ok((head, rest)) => {
            let tag = head.subrange(0, 4);
            if tag == map_tag() {
                parse_map_block(rest, version, loaded)
            } else if tag == tile_tag() {
                parse_tile_block(rest, loaded)
            } else if tag == layer_tag() {
                parse_layer_block(rest, version, loaded)
            } else {
                Err(Failure::InvalidHeader(text_of(tag)))
            }
        },
        Err(e) => Err(e),
    }
}

/// What reading leaves is never longer than what it was given.
pub open spec fn shrinks<T>(s: Seq<u8>, parsed: Parsed<T>) -> bool {
    parsed matches Ok((_, rest)) ==> rest.len() <= s.len()
}

/// Reading properties leaves no more bytes than there were.
pub proof fn lemma_properties_shrink(s: Seq<u8>, count: nat, entries: Seq<Entry>)
    ensures
        shrinks(s, parse_properties(s, count, entries)),
    decreases count,
{
    if count > 0 {
        if let Ok(((key, value), rest)) = parse_property(s) {
            lemma_properties_shrink(rest, (count - 1) as nat, inserted(entries, key, value));
        }
    }
}

/// Reading tilesets leaves no more bytes than there were.
pub proof fn lemma_tilesets_shrink(s: Seq<u8>, count: nat, tilesets: Seq<TileSetView>)
    ensures
        shrinks(s, parse_tilesets(s, count, tilesets)),
    decreases count,
{
    if count > 0 {
        if let Ok((tileset, rest)) = parse_tileset(s) {
            lemma_tilesets_shrink(rest, (count - 1) as nat, tilesets.push(tileset));
        }
    }
}

/// Reading a data section leaves no more bytes than there were.
pub proof fn lemma_section_shrinks(s: Seq<u8>, layer: LayerView)
    ensures
        shrinks(s, parse_section(s, layer)),
{
    reveal(parse_section);
}

/// Reading data sections leaves no more bytes than there were.
pub proof fn lemma_sections_shrink(s: Seq<u8>, count: nat, layer: LayerView)
    ensures
        shrinks(s, parse_sections(s, count, layer)),
    decreases count,
{
    if count > 0 {
        lemma_section_shrinks(s, layer);
        if let Ok((loaded, rest)) = parse_section(s, layer) {
            lemma_sections_shrink(rest, (count - 1) as nat, loaded);
        }
    }
}

/// Reading a layer leaves no more bytes than there were.
pub proof fn lemma_layer_shrinks(s: Seq<u8>, version: u16, dims: (u16, u16))
    ensures
        shrinks(s, parse_layer(s, version, dims)),
{
    reveal(parse_layer);
    if let Ok((h, rest)) = take(s, header_len(version)) {
        lemma_sections_shrink(
            rest,
            h[header_len(version) - 1] as nat,
            layer_of_header(h, version, dims),
        );
    }
}

/// Reading layers leaves no more bytes than there were.
pub proof fn lemma_layers_shrink(
    s: Seq<u8>,
    count: nat,
    version: u16,
    dims: (u16, u16),
    layers: Seq<LayerView>,
)
    ensures
        shrinks(s, parse_layers(s, count, version, dims, layers)),
    decreases count,
{
    if count > 0 {
        lemma_layer_shrinks(s, version, dims);
        if let Ok((layer, rest)) = parse_layer(s, version, dims) {
            lemma_layers_shrink(rest, (count - 1) as nat, version, dims, layers.push(layer));
        }
    }
}

/// Reading a block takes at least the eight bytes of its tag and its
/// length.
pub proof fn lemma_block_shrinks(s: Seq<u8>, version: u16, loaded: Loaded)
    ensures
        parse_block(s, version, loaded) matches Ok((_, rest)) ==> rest.len() + 8 <= s.len(),
{
    if let Ok((head, content)) = take(s, 8) {
        if version >= 3 {
            if let Ok((count, rest)) = read_u16(content) {
                lemma_properties_shrink(rest, count as nat, loaded.map.properties);
            }
        }
        if let Ok((count, rest)) = read_u8(content) {
            lemma_tilesets_shrink(rest, count as nat, loaded.map.tilesets);
        }
        if let Ok((count, rest)) = parse_layer_count(content, version) {
            lemma_layers_shrink(rest, count as nat, version, loaded.dims, loaded.map.layers);
        }
    }
}

/// Blocks until the bytes end. The bytes may end only where a block would
/// begin.
pub open spec fn parse_blocks(s: Seq<u8>, version: u16, loaded: Loaded) -> Result<
    TileMapView,
    Failure,
>
    decreases s.len(),
{
    if s.len() == 0 {
        Ok(loaded.map)
    } else {
        match parse_block(s, version, loaded) {
            Ok((next, rest)) => {
                proof {
                    lemma_block_shrinks(s, version, loaded);
                }
                parse_blocks(rest, version, next)
            },
            Err(e) => Err(e),
        }
    }
}

/// The tilemap that a file holds, or why it holds none.
pub open spec fn parse_file(s: Seq<u8>) -> Result<TileMapView, Failure> {
    match take(s, 8) {
        Ok((m, rest)) => if m != magic() {
            Err(Failure::InvalidMagic)
        } else {
            match read_u16(rest) {
                Ok((field, blocks)) => if version_of(field) > last_version() {
                    Err(Failure::UnsupportedVersion(version_of(field)))
                } else {
                    parse_blocks(
                        blocks,
                        version_of(field),
                        Loaded { map: TileMapView::empty(), dims: (16, 16) },
                    )
                },
                Err(e) => Err(e),
            }
        },
        Err(e) => Err(e),
    }
}

// The bytes of a tilemap

/// The first `limit` of the items: what a count of that limit can hold.
pub open spec fn kept<T>(items: Seq<T>, limit: int) -> Seq<T> {
    if items.len() > limit {
        items.take(limit)
    } else {
        items
    }
}

/// A block: its tag, the length of its content as far as 32 bits hold it,
/// and its content.
pub open spec fn block(tag: Seq<u8>, content: Seq<u8>) -> Seq<u8> {
    tag + u32_le(length_field(content.len())) + content
}

/// The bytes of a value of a property.
pub open spec fn encode_value(value: PropertyView) -> Seq<u8> {
    match value {
        PropertyView::Integer(v) => seq![0u8] + u32_le(as_unsigned(v)),
        PropertyView::Float(v) => seq![1u8] + u32_le(v.bits),
        PropertyView::String(v) => seq![2u8] + long_string(v),
    }
}

/// The bytes of a property.
pub open spec fn encode_property(entry: Entry) -> Seq<u8> {
    short_string(encode_utf8(entry.0)) + encode_value(entry.1)
}

/// The bytes of properties, one after the other.
pub open spec fn encode_properties(entries: Seq<Entry>) -> Seq<u8> {
    entries.map_values(|e: Entry| encode_property(e)).flatten()
}

/// The block of properties: none where there are no properties, else the
/// first 65535 of them behind their count.
pub open spec fn encode_map_block(entries: Seq<Entry>) -> Seq<u8> {
    if entries.len() == 0 {
        Seq::empty()
    } else {
        block(
            map_tag(),
            u16_le(kept(entries, 65535).len() as u16) + encode_properties(kept(entries, 65535)),
        )
    }
}

/// The bytes of a tileset.
pub open spec fn encode_tileset(tileset: TileSetView) -> Seq<u8> {
    seq![
        0u8,
        tileset.transparent_color.2,
        tileset.transparent_color.1,
        tileset.transparent_color.0,
    ] + short_string(encode_utf8(tileset.path))
}

/// The bytes of tilesets, one after the other.
pub open spec fn encode_tilesets(tilesets: Seq<TileSetView>) -> Seq<u8> {
    tilesets.map_values(|t: TileSetView| encode_tileset(t)).flatten()
}

/// The block of tilesets: none where there are no tilesets, else the first
/// 255 of them behind their count.
pub open spec fn encode_tile_block(tilesets: Seq<TileSetView>) -> Seq<u8> {
    if tilesets.len() == 0 {
        Seq::empty()
    } else {
        block(
            tile_tag(),
            seq![kept(tilesets, 255).len() as u8] + encode_tilesets(kept(tilesets, 255)),
        )
    }
}

/// The byte of a flag.
pub open spec fn flag(b: bool) -> u8 {
    if b {
        1
    } else {
        0
    }
}

/// The number of data sections that a layer is written with: none for a
/// layer without grid, else one for the tiles and one for each sublayer, at
/// most 255.
pub open spec fn section_count(layer: LayerView) -> u8 {
    if layer.is_empty() {
        0
    } else if layer.sublayers.len() + 1 > 255 {
        255
    } else {
        (layer.sublayers.len() + 1) as u8
    }
}

/// The first part of the header of a layer: its dimensions and the size
/// of a tile.
pub open spec fn header_dims(layer: LayerView) -> Seq<u8> {
    u32_le(layer.width) + u32_le(layer.height) + u16_le(layer.tile_dimensions.0) + u16_le(
        layer.tile_dimensions.1,
    )
}

/// The second part of the header of a layer: its settings.
pub open spec fn header_settings(layer: LayerView) -> Seq<u8> {
    seq![layer.tileset, layer.collision] + u32_le(as_unsigned(layer.offset.0)) + u32_le(
        as_unsigned(layer.offset.1),
    ) + u32_le(layer.scroll.0.bits) + u32_le(layer.scroll.1.bits) + seq![
        flag(layer.wrap.0),
        flag(layer.wrap.1),
        flag(layer.visible),
    ] + u32_le(layer.opacity.bits)
}

/// The last part of the header of a layer: the sublayer link and the
/// number of data sections.
pub open spec fn header_link(layer: LayerView) -> Seq<u8> {
    seq![
        layer.sublayer_link.tileset,
        layer.sublayer_link.animation,
        layer.sublayer_link.animation_frame,
        section_count(layer),
    ]
}

/// The header of a layer in the last version.
#[verifier::opaque]
pub open spec fn encode_header(layer: LayerView) -> Seq<u8> {
    header_dims(layer) + header_settings(layer) + header_link(layer)
}

/// The data section of a sublayer.
pub open spec fn encode_sublayer(sublayer: SubLayerView) -> Seq<u8> {
    data_tag() + seq![sublayer.cell_size] + sublayer.default_value + compressed(sublayer.data)
}

/// The data sections of sublayers, one after the other.
pub open spec fn encode_sublayers(sublayers: Seq<SubLayerView>) -> Seq<u8> {
    sublayers.map_values(|s: SubLayerView| encode_sublayer(s)).flatten()
}

/// The bytes of a layer: its header and, where it has a grid, its tiles and
/// its first 255 sublayers.
#[verifier::opaque]
pub open spec fn encode_layer(layer: LayerView) -> Seq<u8> {
    if layer.is_empty() {
        encode_header(layer)
    } else {
        encode_header(layer) + main_tag() + compressed(tile_bytes(layer.data)) + encode_sublayers(
            kept(layer.sublayers, 255),
        )
    }
}

/// The bytes of layers, one after the other.
pub open spec fn encode_layers(layers: Seq<LayerView>) -> Seq<u8> {
    layers.map_values(|l: LayerView| encode_layer(l)).flatten()
}

/// The block of layers: none where there are no layers, else the first
/// 65535 of them behind their count.
pub open spec fn encode_layer_block(layers: Seq<LayerView>) -> Seq<u8> {
    if layers.len() == 0 {
        Seq::empty()
    } else {
        block(
            layer_tag(),
            u16_le(kept(layers, 65535).len() as u16) + encode_layers(kept(layers, 65535)),
        )
    }
}

/// The bytes of a file that holds a tilemap, in the last version.
pub open spec fn encode_file(map: TileMapView) -> Seq<u8> {
    magic() + seq![5u8, 1u8] + encode_map_block(map.properties) + encode_tile_block(map.tilesets)
        + encode_layer_block(map.layers)
}

/// Whether a property can be written: its name has a byte, and its value,
/// where it is a string, has between one byte and as many as a 32-bit
/// integer counts.
pub open spec fn entry_writable(entry: Entry) -> bool {
    &&& encode_utf8(entry.0).len() > 0
    &&& entry.1 matches PropertyView::String(v) ==> 0 < v.len() <= u32::MAX
}

/// Whether each of the properties can be written.
pub open spec fn entries_writable(entries: Seq<Entry>) -> bool {
    forall|i: int| 0 <= i < entries.len() ==> entry_writable(#[trigger] entries[i])
}

/// Whether the path of each of the tilesets has a byte.
pub open spec fn paths_writable(tilesets: Seq<TileSetView>) -> bool {
    forall|i: int| 0 <= i < tilesets.len() ==> encode_utf8((#[trigger] tilesets[i]).path).len() > 0
}

/// Whether a tilemap can be written: each property and each tileset that
/// is written has what a file can hold.
pub open spec fn writable(map: TileMapView) -> bool {
    &&& entries_writable(kept(map.properties, 65535))
    &&& paths_writable(kept(map.tilesets, 255))
}

/// Whether unpacking gives back what packing was given.
pub open spec fn unpacks_to_itself(data: Seq<u8>) -> bool {
    zlib_unpacked(zlib_packed(data)) == Some(data)
}

/// Whether unpacking gives back the data of each of the sublayers.
pub open spec fn sublayers_unpack(sublayers: Seq<SubLayerView>) -> bool {
    forall|i: int| 0 <= i < sublayers.len() ==> unpacks_to_itself((#[trigger] sublayers[i]).data)
}

/// Whether unpacking gives back the data of each compressed block that a
/// layer is written with.
pub open spec fn layer_unpacks(layer: LayerView) -> bool {
    layer.is_empty() || (unpacks_to_itself(tile_bytes(layer.data)) && sublayers_unpack(
        kept(layer.sublayers, 255),
    ))
}

/// Whether unpacking gives back the data of each compressed block that
/// the layers are written with.
pub open spec fn all_unpack(layers: Seq<LayerView>) -> bool {
    forall|i: int| 0 <= i < layers.len() ==> layer_unpacks(#[trigger] layers[i])
}

/// Whether unpacking gives back the data of each compressed block that
/// a tilemap is written with.
pub open spec fn unpacks(map: TileMapView) -> bool {
    all_unpack(kept(map.layers, 65535))
}

} // verus!
