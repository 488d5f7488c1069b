//! The encoder: from a tilemap to the bytes of a file.

use vstd::prelude::*;
use crate::bytes::{put, put_i32, put_u16, put_u32, write_long_string, write_short_string};
use crate::compress::{length_of, write_compressed};
use crate::format::{
    all_unpack, block, encode_file, encode_header, encode_layer, encode_layer_block,
    encode_map_block, encode_property, encode_sublayer, encode_tile_block, encode_tileset,
    entries_writable, entry_writable, header_dims, header_link, header_settings, kept,
    layer_unpacks, paths_writable, tile_bytes, unpacks, unpacks_to_itself, writable,
};
use crate::error::Failure;
use crate::format::parse_file;
use crate::layer::{Layer, LayerView};
use crate::roundtrip::{lemma_round_trip, small, storable};
use crate::tilemap::TileMapView;
use crate::sublayer::{SubLayer, SubLayerView};
use crate::tile::Tile;
use crate::tilemap::{
    layer_views, tileset_views, Entry, Properties, Property, TileMap, TileSet, TileSetView,
};

verus! {

/// One more part behind the parts that are joined so far.
proof fn lemma_join_step<T>(items: Seq<T>, f: spec_fn(T) -> Seq<u8>, i: int)
    requires
        0 <= i < items.len(),
    ensures
        items.take(i + 1).map_values(f).flatten() == items.take(i).map_values(f).flatten() + f(
            items[i],
        ),
{
    assert(items.take(i + 1).map_values(f) =~= items.take(i).map_values(f).push(f(items[i])));
    items.take(i).map_values(f).lemma_flatten_push(f(items[i]));
}

/// Appends a block: the tag, the length of the content, the content.
fn put_block(out: &mut Vec<u8>, tag: [u8; 4], content: &Vec<u8>)
    ensures
        final(out)@ == old(out)@ + block(tag@, content@),
{
    put(out, tag.as_slice());
    put_u32(out, length_of(content.len()));
    put(out, content.as_slice());
    proof {
        assert(final(out)@ =~= old(out)@ + block(tag@, content@));
    }
}

/// Appends a property.
fn put_property(out: &mut Vec<u8>, key: &String, value: &Property) -> (result: Result<
    (),
    std::io::Error,
>)
    ensures
        match result {
            Ok(_) => entry_writable((key@, value@)) && final(out)@ == old(out)@ + encode_property(
                (key@, value@),
            ),
            Err(_) => !entry_writable((key@, value@)),
        },
{
    match write_short_string(out, key.as_str().as_bytes()) {
        Ok(_) => {},
        Err(e) => { return Err(e); },
    }
    match value {
        Property::Integer(v) => {
            out.push(0);
            put_i32(out, *v);
        },
        Property::Float(v) => {
            out.push(1);
            put_u32(out, v.bits);
        },
        Property::String(v) => {
            out.push(2);
            match write_long_string(out, v.as_slice()) {
                Ok(_) => {},
                Err(e) => { return Err(e); },
            }
        },
    }
    proof {
        assert(final(out)@ =~= old(out)@ + encode_property((key@, value@)));
    }
    Ok(())
}

/// Appends the block of properties.
fn put_map_block(out: &mut Vec<u8>, properties: &Properties) -> (result: Result<
    (),
    std::io::Error,
>)
    ensures
        match result {
            Ok(_) => final(out)@ == old(out)@ + encode_map_block(properties@) && entries_writable(
                kept(properties@, 65535),
            ),
            Err(_) => !entries_writable(kept(properties@, 65535)),
        },
{
    if properties.is_empty() {
        proof {
            assert(out@ =~= old(out)@ + encode_map_block(properties@));
        }
        return Ok(());
    }
    let count: u16 = if properties.len() > 0xFFFF {
        0xFFFF
    } else {
        properties.len() as u16
    };
    let ghost entries = kept(properties@, 65535);
    let ghost parts = |e: Entry| encode_property(e);
    let mut content: Vec<u8> = Vec::new();
    put_u16(&mut content, count);
    let mut i: usize = 0;
    proof {
        assert(entries.take(0).map_values(parts) =~= Seq::<Seq<u8>>::empty());
    }
    while i < count as usize
        invariant
            i <= count,
            count == entries.len(),
            entries == kept(properties@, 65535),
            parts == (|e: Entry| encode_property(e)),
            content@ == crate::bytes::u16_le(count) + entries.take(i as int).map_values(
                parts,
            ).flatten(),
            forall|j: int| 0 <= j < i ==> entry_writable(#[trigger] entries[j]),
        decreases count - i,
    {
        match properties.entry(i) {
            Some((key, value)) => {
                proof {
                    lemma_join_step(entries, parts, i as int);
                }
                match put_property(&mut content, key, value) {
                    Ok(_) => {},
                    Err(e) => {
                        proof {
                            assert(!entry_writable(kept(properties@, 65535)[i as int]));
                        }
                        return Err(e);
                    },
                }
            },
            None => {},
        }
        i = i + 1;
    }
    proof {
        assert(entries.take(count as int) =~= entries);
    }
    put_block(out, [0x4D, 0x41, 0x50, 0x20], &content);
    proof {
        assert([0x4Du8, 0x41u8, 0x50u8, 0x20u8]@ =~= crate::format::map_tag());
    }
    Ok(())
}

/// Appends a tileset.
fn put_tileset(out: &mut Vec<u8>, tileset: &TileSet) -> (result: Result<(), std::io::Error>)
    ensures
        match result {
            Ok(_) => vstd::utf8::encode_utf8(tileset@.path).len() > 0 && final(out)@ == old(out)@
                + encode_tileset(tileset@),
            Err(_) => vstd::utf8::encode_utf8(tileset@.path).len() == 0,
        },
{
    out.push(0);
    out.push(tileset.transparent_color.2);
    out.push(tileset.transparent_color.1);
    out.push(tileset.transparent_color.0);
    match write_short_string(out, tileset.path.as_str().as_bytes()) {
        Ok(_) => {},
        Err(e) => { return Err(e); },
    }
    proof {
        assert(final(out)@ =~= old(out)@ + encode_tileset(tileset@));
    }
    Ok(())
}

/// Appends the block of tilesets.
fn put_tile_block(out: &mut Vec<u8>, tilesets: &Vec<TileSet>) -> (result: Result<
    (),
    std::io::Error,
>)
    ensures
        match result {
            Ok(_) => final(out)@ == old(out)@ + encode_tile_block(tileset_views(tilesets@))
                && paths_writable(kept(tileset_views(tilesets@), 255)),
            Err(_) => !paths_writable(kept(tileset_views(tilesets@), 255)),
        },
{
    let ghost views = tileset_views(tilesets@);
    if tilesets.len() == 0 {
        proof {
            assert(out@ =~= old(out)@ + encode_tile_block(views));
        }
        return Ok(());
    }
    let count: u8 = if tilesets.len() > 255 {
        255
    } else {
        tilesets.len() as u8
    };
    let ghost items = kept(views, 255);
    let ghost parts = |t: TileSetView| encode_tileset(t);
    let mut content: Vec<u8> = Vec::new();
    content.push(count);
    let mut i: usize = 0;
    proof {
        assert(items.take(0).map_values(parts) =~= Seq::<Seq<u8>>::empty());
        assert(content@ =~= seq![count] + items.take(0).map_values(parts).flatten());
    }
    while i < count as usize
        invariant
            i <= count,
            count == items.len(),
            count <= tilesets@.len(),
            views == tileset_views(tilesets@),
            items == kept(views, 255),
            parts == (|t: TileSetView| encode_tileset(t)),
            content@ == seq![count] + items.take(i as int).map_values(parts).flatten(),
            forall|j: int|
                0 <= j < i ==> vstd::utf8::encode_utf8((#[trigger] items[j]).path).len() > 0,
        decreases count - i,
    {
        proof {
            lemma_join_step(items, parts, i as int);
            assert(items[i as int] == tilesets@[i as int]@);
        }
        match put_tileset(&mut content, &tilesets[i]) {
            Ok(_) => {},
            Err(e) => {
                proof {
                    assert(vstd::utf8::encode_utf8(items[i as int].path).len() == 0);
                }
                return Err(e);
            },
        }
        i = i + 1;
    }
    proof {
        assert(items.take(count as int) =~= items);
    }
    put_block(out, [0x54, 0x49, 0x4C, 0x45], &content);
    proof {
        assert([0x54u8, 0x49u8, 0x4Cu8, 0x45u8]@ =~= crate::format::tile_tag());
    }
    Ok(())
}

/// The bytes of tiles: two bytes each, the high byte of the identifier
/// first.
fn bytes_of_tiles(tiles: &[Tile]) -> (bytes: Vec<u8>)
    ensures
        bytes@ == tile_bytes(tiles@),
{
    let mut bytes: Vec<u8> = Vec::new();
    let mut i: usize = 0;
    while i < tiles.len()
        invariant
            i <= tiles@.len(),
            bytes@.len() == 2 * i,
            forall|j: int| 0 <= j < bytes@.len() ==> bytes@[j] == tile_bytes(tiles@)[j],
        decreases tiles@.len() - i,
    {
        let id = tiles[i].id;
        bytes.push((id / 256) as u8);
        bytes.push((id % 256) as u8);
        i = i + 1;
    }
    proof {
        assert(bytes@ =~= tile_bytes(tiles@));
    }
    bytes
}

/// The byte of a flag.
fn flag_byte(b: bool) -> (byte: u8)
    ensures
        byte == crate::format::flag(b),
{
    if b {
        1
    } else {
        0
    }
}

/// Appends the data section of a sublayer.
fn put_sublayer(out: &mut Vec<u8>, sublayer: &SubLayer) -> (result: Result<(), std::io::Error>)
    ensures
        result is Ok,
        final(out)@ == old(out)@ + encode_sublayer(sublayer@),
        unpacks_to_itself(sublayer@.data),
{
    out.push(0x44);
    out.push(0x41);
    out.push(0x54);
    out.push(0x41);
    out.push(sublayer.cell_size());
    let default_value = sublayer.default_value();
    put(out, default_value.as_slice());
    match write_compressed(out, sublayer.data()) {
        Ok(_) => {},
        Err(e) => { return Err(e); },
    }
    proof {
        assert(final(out)@ =~= old(out)@ + encode_sublayer(sublayer@));
    }
    Ok(())
}

/// Appends the dimensions of a layer and the size of a tile.
fn put_header_dims(out: &mut Vec<u8>, layer: &Layer)
    ensures
        final(out)@ == old(out)@ + header_dims(layer@),
{
    proof {
        layer.lemma_view();
    }
    put_u32(out, layer.width);
    put_u32(out, layer.height);
    put_u16(out, layer.tile_dimensions.0);
    put_u16(out, layer.tile_dimensions.1);
    proof {
        assert(out@ =~= old(out)@ + header_dims(layer@));
    }
}

/// Appends the settings of a layer.
fn put_header_settings(out: &mut Vec<u8>, layer: &Layer)
    ensures
        final(out)@ == old(out)@ + header_settings(layer@),
{
    proof {
        layer.lemma_view();
    }
    out.push(layer.tileset);
    out.push(layer.collision);
    put_i32(out, layer.offset.0);
    put_i32(out, layer.offset.1);
    let ghost first = out@;
    proof {
        assert(first =~= old(out)@ + (seq![layer.tileset, layer.collision]
            + crate::bytes::u32_le(crate::bytes::as_unsigned(layer.offset.0))
            + crate::bytes::u32_le(crate::bytes::as_unsigned(layer.offset.1))));
    }
    put_u32(out, layer.scroll.0.bits);
    put_u32(out, layer.scroll.1.bits);
    out.push(flag_byte(layer.wrap.0));
    out.push(flag_byte(layer.wrap.1));
    out.push(flag_byte(layer.visible));
    put_u32(out, layer.opacity.bits);
    proof {
        assert(out@ =~= first + (crate::bytes::u32_le(layer.scroll.0.bits) + crate::bytes::u32_le(
            layer.scroll.1.bits,
        ) + seq![
            crate::format::flag(layer.wrap.0),
            crate::format::flag(layer.wrap.1),
            crate::format::flag(layer.visible),
        ] + crate::bytes::u32_le(layer.opacity.bits)));
        assert(out@ =~= old(out)@ + header_settings(layer@));
    }
}

/// Appends the header of a layer.
fn put_header(out: &mut Vec<u8>, layer: &Layer)
    ensures
        final(out)@ == old(out)@ + encode_header(layer@),
{
    proof {
        layer.lemma_view();
        reveal(encode_header);
    }
    let empty = layer.width == 0 || layer.height == 0;
    let count: u8 = if empty {
        0
    } else if layer.sublayers.len() >= 255 {
        255
    } else {
        (layer.sublayers.len() + 1) as u8
    };
    put_header_dims(out, layer);
    put_header_settings(out, layer);
    out.push(layer.sublayer_link.tileset);
    out.push(layer.sublayer_link.animation);
    out.push(layer.sublayer_link.animation_frame);
    out.push(count);
    proof {
        assert(out@ =~= old(out)@ + header_dims(layer@) + header_settings(layer@) + header_link(
            layer@,
        ));
        assert(out@ =~= old(out)@ + encode_header(layer@));
    }
}

/// Appends a layer.
fn put_layer(out: &mut Vec<u8>, layer: &Layer) -> (result: Result<(), std::io::Error>)
    ensures
        result is Ok,
        final(out)@ == old(out)@ + encode_layer(layer@),
        layer_unpacks(layer@),
{
    proof {
        layer.lemma_view();
        reveal(encode_layer);
    }
    let ghost start = out@;
    let empty = layer.width == 0 || layer.height == 0;
    put_header(out, layer);
    if empty {
        return Ok(());
    }
    out.push(0x4D);
    out.push(0x41);
    out.push(0x49);
    out.push(0x4E);
    let tiles = bytes_of_tiles(layer.data.as_slice());
    match write_compressed(out, tiles.as_slice()) {
        Ok(_) => {},
        Err(e) => { return Err(e); },
    }
    let ghost items = kept(layer@.sublayers, 255);
    let ghost parts = |s: SubLayerView| encode_sublayer(s);
    let ghost head = start + encode_header(layer@) + crate::format::main_tag()
        + crate::compress::compressed(tile_bytes(layer@.data));
    let limit: usize = if layer.sublayers.len() > 255 {
        255
    } else {
        layer.sublayers.len()
    };
    let mut i: usize = 0;
    proof {
        assert(items.take(0).map_values(parts) =~= Seq::<Seq<u8>>::empty());
        assert(out@ =~= head + items.take(0).map_values(parts).flatten());
    }
    while i < limit
        invariant
            i <= limit,
            limit == items.len(),
            limit <= layer.sublayers@.len(),
            layer@.sublayers == crate::layer::sublayer_views(layer.sublayers@),
            items == kept(layer@.sublayers, 255),
            parts == (|s: SubLayerView| encode_sublayer(s)),
            out@ == head + items.take(i as int).map_values(parts).flatten(),
            unpacks_to_itself(tile_bytes(layer@.data)),
            forall|j: int| 0 <= j < i ==> unpacks_to_itself((#[trigger] items[j]).data),
        decreases limit - i,
    {
        proof {
            lemma_join_step(items, parts, i as int);
            assert(items[i as int] == layer.sublayers@[i as int]@);
        }
        match put_sublayer(out, &layer.sublayers[i]) {
            Ok(_) => {},
            Err(e) => { return Err(e); },
        }
        proof {
            assert(out@ =~= head + items.take(i + 1).map_values(parts).flatten());
        }
        i = i + 1;
    }
    proof {
        assert(items.take(limit as int) =~= items);
        assert(out@ =~= start + encode_layer(layer@));
    }
    Ok(())
}

/// Appends the block of layers.
fn put_layer_block(out: &mut Vec<u8>, layers: &Vec<Layer>) -> (result: Result<(), std::io::Error>)
    ensures
        result is Ok,
        final(out)@ == old(out)@ + encode_layer_block(layer_views(layers@)),
        all_unpack(kept(layer_views(layers@), 65535)),
{
    let ghost views = layer_views(layers@);
    if layers.len() == 0 {
        proof {
            assert(out@ =~= old(out)@ + encode_layer_block(views));
        }
        return Ok(());
    }
    let count: u16 = if layers.len() > 0xFFFF {
        0xFFFF
    } else {
        layers.len() as u16
    };
    let ghost items = kept(views, 65535);
    let ghost parts = |l: LayerView| encode_layer(l);
    let mut content: Vec<u8> = Vec::new();
    put_u16(&mut content, count);
    let mut i: usize = 0;
    proof {
        assert(items.take(0).map_values(parts) =~= Seq::<Seq<u8>>::empty());
    }
    while i < count as usize
        invariant
            i <= count,
            count == items.len(),
            count <= layers@.len(),
            views == layer_views(layers@),
            items == kept(views, 65535),
            parts == (|l: LayerView| encode_layer(l)),
            content@ == crate::bytes::u16_le(count) + items.take(i as int).map_values(
                parts,
            ).flatten(),
            forall|j: int| 0 <= j < i ==> layer_unpacks(#[trigger] items[j]),
        decreases count - i,
    {
        proof {
            lemma_join_step(items, parts, i as int);
            assert(items[i as int] == layers@[i as int]@);
        }
        match put_layer(&mut content, &layers[i]) {
            Ok(_) => {},
            Err(e) => { return Err(e); },
        }
        i = i + 1;
    }
    proof {
        assert(items.take(count as int) =~= items);
    }
    put_block(out, [0x4C, 0x41, 0x59, 0x52], &content);
    proof {
        assert([0x4Cu8, 0x41u8, 0x59u8, 0x52u8]@ =~= crate::format::layer_tag());
    }
    Ok(())
}

impl TileMap {
    /// Writes the tilemap as the bytes of a file of the last version.
    ///
    /// Writing fails where a property that would be written has a name
    /// without bytes or a string without bytes as its value, and where a
    /// tileset that would be written has a path without bytes; it succeeds
    /// for every other tilemap. On success the bytes are those of the
    /// format, and unpacking gives back each block that was packed. Where
    /// the tilemap is storable and each packed block fits its length field,
    /// reading the bytes gives the tilemap back.
    pub fn write(&self) -> (result: Result<Vec<u8>, std::io::Error>)
        ensures
            match result {
                Ok(bytes) => {
                    &&& writable(self@)
                    &&& bytes@ == encode_file(self@)
                    &&& unpacks(self@)
                    &&& storable(self@) && small(self@) ==> parse_file(bytes@) == Ok::<
                        TileMapView,
                        Failure,
                    >(self@)
                },
                Err(_) => !writable(self@),
            },
    {
        let mut out: Vec<u8> = Vec::new();
        put(&mut out, [0x41u8, 0x43, 0x48, 0x54, 0x55, 0x4E, 0x47, 0x21].as_slice());
        out.push(5);
        out.push(1);
        proof {
            assert(out@ =~= crate::format::magic() + seq![5u8, 1u8]);
        }
        match put_map_block(&mut out, &self.properties) {
            Ok(_) => {},
            Err(e) => { return Err(e); },
        }
        match put_tile_block(&mut out, &self.tilesets) {
            Ok(_) => {},
            Err(e) => { return Err(e); },
        }
        match put_layer_block(&mut out, &self.layers) {
            Ok(_) => {},
            Err(e) => { return Err(e); },
        }
        proof {
            assert(out@ =~= encode_file(self@));
            if storable(self@) && small(self@) {
                lemma_round_trip(self@);
            }
        }
        Ok(out)
    }
}

} // verus!
