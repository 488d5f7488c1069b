//! The decoder: from the bytes of a file to a tilemap.

use vstd::prelude::*;
use vstd::slice::slice_subrange;
use crate::bytes::{agrees, i32_at, u16_at, u32_at, Input};
use crate::compress::get_compressed;
use crate::error::{Failure, ReadError};
use crate::format::{
    header_len, layer_of_header, lemma_block_shrinks, parse_block, parse_blocks, parse_file,
    parse_layer, parse_layers, parse_properties, parse_property, parse_section, parse_sections,
    parse_tileset, parse_tilesets, parse_value, tiles_of, Loaded,
};
use crate::layer::{sublayer_views, FloatBits, Layer};
use crate::sublayer::{padded, SubLayer};
use crate::text::lossy_text;
use crate::tile::Tile;
use crate::tilemap::{
    layer_views, tileset_views, Properties, Property, TileMap, TileMapView, TileSet,
};

verus! {

/// Whether four bytes are the given tag.
fn is_tag(bytes: &[u8], a: u8, b: u8, c: u8, d: u8) -> (same: bool)
    requires
        bytes@.len() == 4,
    ensures
        same == (bytes@ == seq![a, b, c, d]),
{
    let same = bytes[0] == a && bytes[1] == b && bytes[2] == c && bytes[3] == d;
    proof {
        if same {
            assert(bytes@ =~= seq![a, b, c, d]);
        }
    }
    same
}

/// Reads the value of a property.
fn decode_value(input: &mut Input) -> (result: Result<Property, ReadError>)
    ensures
        agrees(result, final(input).rest(), parse_value(old(input).rest())),
{
    let ty = match input.u8() {
        Ok(ty) => ty,
        Err(e) => { return Err(e); },
    };
    if ty == 0 {
        match input.i32() {
            Ok(v) => Ok(Property::Integer(v)),
            Err(e) => Err(e),
        }
    } else if ty == 1 {
        match input.u32() {
            Ok(v) => Ok(Property::Float(FloatBits { bits: v })),
            Err(e) => Err(e),
        }
    } else if ty == 2 {
        match input.long_string() {
            Ok(v) => Ok(Property::String(vstd::slice::slice_to_vec(v))),
            Err(e) => Err(e),
        }
    } else {
        Err(ReadError::InvalidType(ty))
    }
}

/// Reads a property.
fn decode_property(input: &mut Input) -> (result: Result<(String, Property), ReadError>)
    ensures
        agrees(result, final(input).rest(), parse_property(old(input).rest())),
{
    let key = match input.short_string() {
        Ok(key) => key,
        Err(e) => { return Err(e); },
    };
    match decode_value(input) {
        Ok(value) => Ok((lossy_text(key), value)),
        Err(e) => Err(e),
    }
}

/// Reads `count` properties and puts each into `properties`.
fn decode_properties(input: &mut Input, count: u16, properties: &mut Properties) -> (result:
    Result<(), ReadError>)
    ensures
        match parse_properties(old(input).rest(), count as nat, old(properties)@) {
            Ok((entries, rest)) => result is Ok && final(properties)@ == entries && final(input).rest() == rest,
            Err(failure) => result matches Err(e) && e@ == failure,
        },
{
    let ghost goal = parse_properties(old(input).rest(), count as nat, old(properties)@);
    let mut i: u16 = 0;
    while i < count
        invariant
            i <= count,
            goal == parse_properties(old(input).rest(), count as nat, old(properties)@),
            goal == parse_properties(input.rest(), (count - i) as nat, properties@),
        decreases count - i,
    {
        match decode_property(input) {
            Ok((key, value)) => {
                properties.insert(key, value);
            },
            Err(e) => { return Err(e); },
        }
        i = i + 1;
    }
    Ok(())
}

/// Reads a tileset.
fn decode_tileset(input: &mut Input) -> (result: Result<TileSet, ReadError>)
    ensures
        agrees(result, final(input).rest(), parse_tileset(old(input).rest())),
{
    let color = match input.take(4) {
        Ok(color) => color,
        Err(e) => { return Err(e); },
    };
    match input.short_string() {
        Ok(path) => Ok(
            TileSet { path: lossy_text(path), transparent_color: (color[3], color[2], color[1]) },
        ),
        Err(e) => Err(e),
    }
}

/// Reads `count` tilesets and appends them to `tilesets`.
fn decode_tilesets(input: &mut Input, count: u8, tilesets: &mut Vec<TileSet>) -> (result: Result<
    (),
    ReadError,
>)
    ensures
        match parse_tilesets(
            old(input).rest(),
            count as nat,
            tileset_views(old(tilesets)@),
        ) {
            Ok((views, rest)) => result is Ok && tileset_views(final(tilesets)@)
                == views && final(input).rest() == rest,
            Err(failure) => result matches Err(e) && e@ == failure,
        },
{
    let ghost goal = parse_tilesets(
        old(input).rest(),
        count as nat,
        tileset_views(old(tilesets)@),
    );
    let mut i: u8 = 0;
    while i < count
        invariant
            i <= count,
            goal == parse_tilesets(
                old(input).rest(),
                count as nat,
                tileset_views(old(tilesets)@),
            ),
            goal == parse_tilesets(
                input.rest(),
                (count - i) as nat,
                tileset_views(tilesets@),
            ),
        decreases count - i,
    {
        match decode_tileset(input) {
            Ok(tileset) => {
                let ghost before = tilesets@;
                tilesets.push(tileset);
                proof {
                    assert(tileset_views(tilesets@) =~= tileset_views(before).push(tileset@));
                }
            },
            Err(e) => { return Err(e); },
        }
        i = i + 1;
    }
    Ok(())
}

/// The tiles that unpacked bytes hold.
fn tiles_from(bytes: &Vec<u8>) -> (tiles: Vec<Tile>)
    requires
        bytes@.len() % 2 == 0,
    ensures
        tiles@ == tiles_of(bytes@),
{
    let mut tiles: Vec<Tile> = Vec::new();
    let count = bytes.len() / 2;
    let mut i: usize = 0;
    while i < count
        invariant
            i <= count,
            2 * count == bytes@.len(),
            bytes@.len() <= usize::MAX,
            tiles@.len() == i,
            forall|j: int| 0 <= j < i ==> tiles@[j] == tiles_of(bytes@)[j],
        decreases count - i,
    {
        let high = bytes[2 * i];
        let low = bytes[2 * i + 1];
        tiles.push(Tile { id: high as u16 * 256 + low as u16 });
        i = i + 1;
    }
    proof {
        assert(tiles@ =~= tiles_of(bytes@));
    }
    tiles
}

/// Reads a data section of a layer: the tiles, or one more sublayer.
fn decode_section(input: &mut Input, layer: &mut Layer) -> (result: Result<(), ReadError>)
    ensures
        match parse_section(old(input).rest(), old(layer)@) {
            Ok((loaded, rest)) => result is Ok && final(layer)@ == loaded && final(input).rest()
                == rest,
            Err(failure) => result matches Err(e) && e@ == failure,
        },
{
    proof {
        layer.lemma_view();
        reveal(parse_section);
    }
    let tag = match input.take(4) {
        Ok(tag) => tag,
        Err(e) => { return Err(e); },
    };
    if is_tag(tag, 0x4D, 0x41, 0x49, 0x4E) {
        let data = match get_compressed(input) {
            Ok(data) => data,
            Err(e) => { return Err(e); },
        };
        if data.len() % 2 != 0 {
            return Err(ReadError::InvalidLayerLength);
        }
        layer.data = tiles_from(&data);
        proof {
            layer.lemma_view();
        }
        Ok(())
    } else if is_tag(tag, 0x44, 0x41, 0x54, 0x41) {
        let head = match input.take(5) {
            Ok(head) => head,
            Err(e) => { return Err(e); },
        };
        let data = match get_compressed(input) {
            Ok(data) => data,
            Err(e) => { return Err(e); },
        };
        let cell_size: u8 = if head[0] > 4 {
            4
        } else {
            head[0]
        };
        let empty = layer.width == 0 || layer.height == 0;
        let width: u32 = if empty {
            0
        } else {
            layer.width
        };
        let height: u32 = if empty {
            0
        } else {
            layer.height
        };
        let mut default_value = [0u8; 4];
        let mut k: usize = 0;
        while k < cell_size as usize
            invariant
                k <= cell_size <= 4,
                head@.len() == 5,
                default_value@.len() == 4,
                forall|j: int| 0 <= j < k ==> default_value@[j] == head@[j + 1],
                forall|j: int| k <= j < 4 ==> default_value@[j] == 0,
            decreases cell_size - k,
        {
            default_value[k] = head[k + 1];
            k = k + 1;
        }
        proof {
            assert(default_value@ =~= padded(head@.subrange(1, 5).take(cell_size as int)));
            assert(width * height <= 0xFFFF_FFFF * 0xFFFF_FFFF) by (nonlinear_arith)
                requires
                    width <= 0xFFFF_FFFF,
                    height <= 0xFFFF_FFFF,
            ;
            assert(0 <= width * height) by (nonlinear_arith)
                requires
                    0 <= width,
                    0 <= height,
            ;
            assert(width * height * cell_size <= 0xFFFF_FFFF * 0xFFFF_FFFF * 4)
                by (nonlinear_arith)
                requires
                    0 <= width * height <= 0xFFFF_FFFF * 0xFFFF_FFFF,
                    0 <= cell_size <= 4,
            ;
            assert(data@.len() == data.len());
        }
        let cells: u128 = width as u128 * height as u128;
        let expected: u128 = cells * cell_size as u128;
        if data.len() as u128 != expected {
            return Err(ReadError::InvalidLayerLength);
        }
        let sublayer = SubLayer::from_parts(data, default_value, cell_size, width, height);
        let ghost before = layer.sublayers@;
        layer.sublayers.push(sublayer);
        proof {
            layer.lemma_view();
            assert(sublayer_views(layer.sublayers@) =~= sublayer_views(before).push(sublayer@));
        }
        Ok(())
    } else {
        Err(ReadError::InvalidHeader(lossy_text(tag)))
    }
}

/// Reads `count` data sections of a layer.
fn decode_sections(input: &mut Input, count: u8, layer: &mut Layer) -> (result: Result<
    (),
    ReadError,
>)
    ensures
        match parse_sections(old(input).rest(), count as nat, old(layer)@) {
            Ok((loaded, rest)) => result is Ok && final(layer)@ == loaded && final(input).rest()
                == rest,
            Err(failure) => result matches Err(e) && e@ == failure,
        },
{
    let ghost goal = parse_sections(old(input).rest(), count as nat, old(layer)@);
    let mut i: u8 = 0;
    while i < count
        invariant
            i <= count,
            goal == parse_sections(old(input).rest(), count as nat, old(layer)@),
            goal == parse_sections(input.rest(), (count - i) as nat, layer@),
        decreases count - i,
    {
        match decode_section(input, layer) {
            Ok(_) => {},
            Err(e) => { return Err(e); },
        }
        i = i + 1;
    }
    Ok(())
}

/// The length of the header of a layer.
fn header_length(version: u16) -> (len: usize)
    requires
        version <= 5,
    ensures
        len == header_len(version),
{
    let settings: usize = if version >= 2 {
        12
    } else {
        8
    };
    let link: usize = if version == 5 {
        3
    } else if version >= 4 {
        2
    } else {
        0
    };
    settings + 25 + link + 1
}

/// Reads a layer.
fn decode_layer(input: &mut Input, version: u16, dims: (u16, u16)) -> (result: Result<
    Layer,
    ReadError,
>)
    requires
        version <= 5,
    ensures
        agrees(result, final(input).rest(), parse_layer(old(input).rest(), version, dims)),
{
    proof {
        reveal(parse_layer);
        reveal(layer_of_header);
    }
    let len = header_length(version);
    let h = match input.take(len) {
        Ok(h) => h,
        Err(e) => { return Err(e); },
    };
    let a: usize = if version >= 2 {
        12
    } else {
        8
    };
    let mut layer = Layer::new();
    proof {
        layer.lemma_view();
    }
    layer.width = u32_at(h, 0);
    layer.height = u32_at(h, 4);
    layer.tile_dimensions = if version >= 2 {
        (u16_at(h, 8), u16_at(h, 10))
    } else {
        dims
    };
    layer.tileset = h[a];
    layer.collision = h[a + 1];
    layer.offset = (i32_at(h, a + 2), i32_at(h, a + 6));
    layer.scroll = (FloatBits { bits: u32_at(h, a + 10) }, FloatBits { bits: u32_at(h, a + 14) });
    layer.wrap = (h[a + 18] > 0, h[a + 19] > 0);
    layer.visible = h[a + 20] > 0;
    layer.opacity = FloatBits { bits: u32_at(h, a + 21) };
    if version >= 4 {
        layer.sublayer_link.tileset = h[a + 25];
        layer.sublayer_link.animation = h[a + 26];
        if version == 5 {
            layer.sublayer_link.animation_frame = h[a + 27];
        }
    }
    proof {
        layer.lemma_view();
        assert(layer@.sublayers =~= Seq::empty());
        assert(layer@ == layer_of_header(h@, version, dims));
    }
    let count = h[len - 1];
    match decode_sections(input, count, &mut layer) {
        Ok(_) => Ok(layer),
        Err(e) => Err(e),
    }
}

/// Reads `count` layers and appends them to `layers`.
fn decode_layers(
    input: &mut Input,
    count: u16,
    version: u16,
    dims: (u16, u16),
    layers: &mut Vec<Layer>,
) -> (result: Result<(), ReadError>)
    requires
        version <= 5,
    ensures
        match parse_layers(
            old(input).rest(),
            count as nat,
            version,
            dims,
            layer_views(old(layers)@),
        ) {
            Ok((views, rest)) => result is Ok && layer_views(final(layers)@) == views
                && final(input).rest() == rest,
            Err(failure) => result matches Err(e) && e@ == failure,
        },
{
    let ghost goal = parse_layers(
        old(input).rest(),
        count as nat,
        version,
        dims,
        layer_views(old(layers)@),
    );
    let mut i: u16 = 0;
    while i < count
        invariant
            i <= count,
            version <= 5,
            goal == parse_layers(
                old(input).rest(),
                count as nat,
                version,
                dims,
                layer_views(old(layers)@),
            ),
            goal == parse_layers(
                input.rest(),
                (count - i) as nat,
                version,
                dims,
                layer_views(layers@),
            ),
        decreases count - i,
    {
        match decode_layer(input, version, dims) {
            Ok(layer) => {
                let ghost before = layers@;
                let ghost view = layer@;
                layers.push(layer);
                proof {
                    assert(layer_views(layers@) =~= layer_views(before).push(view));
                }
            },
            Err(e) => { return Err(e); },
        }
        i = i + 1;
    }
    Ok(())
}

/// What has been read of a file, as the decoder holds it.
spec fn loaded(map: TileMap, dims: (u16, u16)) -> Loaded {
    Loaded { map: map@, dims }
}

/// Reads a block into `map`.
fn decode_block(input: &mut Input, version: u16, map: &mut TileMap, dims: &mut (u16, u16)) -> (result:
    Result<(), ReadError>)
    requires
        version <= 5,
    ensures
        match parse_block(old(input).rest(), version, loaded(*old(map), *old(dims))) {
            Ok((next, rest)) => result is Ok && loaded(*final(map), *final(dims)) == next
                && final(input).rest() == rest,
            Err(failure) => result matches Err(e) && e@ == failure,
        },
{
    let head = match input.take(8) {
        Ok(head) => head,
        Err(e) => { return Err(e); },
    };
    let tag = slice_subrange(head, 0, 4);
    if is_tag(tag, 0x4D, 0x41, 0x50, 0x20) {
        if version >= 3 {
            let count = match input.u16() {
                Ok(count) => count,
                Err(e) => { return Err(e); },
            };
            decode_properties(input, count, &mut map.properties)
        } else {
            let d = match input.take(4) {
                Ok(d) => d,
                Err(e) => { return Err(e); },
            };
            *dims = (u16_at(d, 0), u16_at(d, 2));
            Ok(())
        }
    } else if is_tag(tag, 0x54, 0x49, 0x4C, 0x45) {
        let count = match input.u8() {
            Ok(count) => count,
            Err(e) => { return Err(e); },
        };
        decode_tilesets(input, count, &mut map.tilesets)
    } else if is_tag(tag, 0x4C, 0x41, 0x59, 0x52) {
        let count: u16 = if version == 0 {
            match input.u8() {
                Ok(count) => count as u16,
                Err(e) => { return Err(e); },
            }
        } else {
            match input.u16() {
                Ok(count) => count,
                Err(e) => { return Err(e); },
            }
        };
        decode_layers(input, count, version, *dims, &mut map.layers)
    } else {
        Err(ReadError::InvalidHeader(lossy_text(tag)))
    }
}

/// What a result of reading a file holds.
pub open spec fn read_result(result: Result<TileMap, ReadError>) -> Result<TileMapView, Failure> {
    match result {
        Ok(map) => Ok(map@),
        Err(e) => Err(e@),
    }
}

impl TileMap {
    /// Reads a tilemap from the bytes of a file.
    ///
    /// The bytes must begin with the magic string and a version up to 5 and
    /// hold whole blocks behind them; the result is the tilemap that the
    /// blocks describe. Bytes that end inside a structure and compressed
    /// data that cannot be unpacked give `IoError`; the other errors name
    /// what is wrong with the content.
    pub fn read(bytes: &[u8]) -> (result: Result<TileMap, ReadError>)
        ensures
            read_result(result) == parse_file(bytes@),
    {
        let mut input = Input::new(bytes);
        let m = match input.take(8) {
            Ok(m) => m,
            Err(e) => { return Err(e); },
        };
        if !(m[0] == 0x41 && m[1] == 0x43 && m[2] == 0x48 && m[3] == 0x54 && m[4] == 0x55 && m[5]
            == 0x4E && m[6] == 0x47 && m[7] == 0x21) {
            return Err(ReadError::InvalidMagic);
        }
        proof {
            assert(m@ =~= crate::format::magic());
        }
        let field = match input.u16() {
            Ok(field) => field,
            Err(e) => { return Err(e); },
        };
        let version = field ^ 0x100;
        if version > 5 {
            return Err(ReadError::UnsupportedVersion(version));
        }
        let mut map = TileMap::new();
        let mut dims: (u16, u16) = (16, 16);
        let ghost goal = parse_file(bytes@);
        while !input.is_at_end()
            invariant
                version <= 5,
                goal == parse_file(bytes@),
                goal == parse_blocks(input.rest(), version, loaded(map, dims)),
            decreases input.rest().len(),
        {
            proof {
                lemma_block_shrinks(input.rest(), version, loaded(map, dims));
            }
            match decode_block(&mut input, version, &mut map, &mut dims) {
                Ok(_) => {},
                Err(e) => { return Err(e); },
            }
        }
        Ok(map)
    }
}

} // verus!
