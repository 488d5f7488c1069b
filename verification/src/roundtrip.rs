//! Reading back what was written: the bytes of a tilemap hold that tilemap.

use vstd::prelude::*;
use vstd::utf8::encode_utf8;
use crate::bytes::{
    as_unsigned, lemma_signed_round_trip, lemma_u16_round_trip, lemma_u32_round_trip, long_string,
    read_i32, read_long_string, read_short_string, read_u16, read_u32, read_u8, short_string, take,
    u16_le, u32_le, Parsed,
};
use crate::compress::{compressed, lemma_read_compressed, length_field, zlib_packed};
use crate::error::Failure;
use crate::format::{
    all_unpack, block, data_tag, encode_file, encode_header, encode_layer, encode_layer_block,
    encode_layers, encode_map_block, encode_properties, encode_property, encode_sublayer,
    encode_sublayers, encode_tile_block, encode_tileset, encode_tilesets, encode_value, flag,
    header_dims, header_len, header_link, header_settings, kept, layer_of_header, layer_tag,
    layer_unpacks, loaded_sublayer, magic, main_tag, map_tag, parse_block, parse_blocks,
    parse_file, parse_layer, parse_layers, parse_properties, parse_property, parse_section,
    parse_sections, parse_tileset, parse_tilesets, parse_value, section_count, tile_bytes,
    tile_tag, tiles_of, unpacks, unpacks_to_itself, version_of, Loaded,
};
use crate::layer::LayerView;
use crate::sublayer::SubLayerView;
use crate::text::lemma_text_of_encoded;
use crate::tile::{high_byte, join_bytes, low_byte, Tile};
use crate::tilemap::{
    distinct_keys, has_key, inserted, Entry, PropertyView, TileMapView, TileSetView,
};

verus! {

/// What reading gives where it gives `value` and leaves `rest`.
pub open spec fn got<T>(value: T, rest: Seq<u8>) -> Parsed<T> {
    Ok((value, rest))
}

/// Taking as many bytes as a part has, from that part with something behind
/// it, gives the part and leaves what stood behind it.
pub proof fn lemma_take_front(part: Seq<u8>, behind: Seq<u8>)
    ensures
        take(part + behind, part.len() as int) == got(part, behind),
{
    assert((part + behind).take(part.len() as int) =~= part);
    assert((part + behind).skip(part.len() as int) =~= behind);
}

/// Reading a byte that was written gives the byte.
pub proof fn lemma_read_u8(v: u8, behind: Seq<u8>)
    ensures
        read_u8(seq![v] + behind) == got(v, behind),
{
    lemma_take_front(seq![v], behind);
}

/// Reading a 16-bit integer that was written gives the integer.
pub proof fn lemma_read_u16(v: u16, behind: Seq<u8>)
    ensures
        read_u16(u16_le(v) + behind) == got(v, behind),
{
    lemma_take_front(u16_le(v), behind);
    lemma_u16_round_trip(v);
}

/// Reading a 32-bit integer that was written gives the integer.
pub proof fn lemma_read_u32(v: u32, behind: Seq<u8>)
    ensures
        read_u32(u32_le(v) + behind) == got(v, behind),
{
    lemma_take_front(u32_le(v), behind);
    lemma_u32_round_trip(v);
}

/// Reading a signed 32-bit integer that was written gives the integer.
pub proof fn lemma_read_i32(v: i32, behind: Seq<u8>)
    ensures
        read_i32(u32_le(as_unsigned(v)) + behind) == got(v, behind),
{
    lemma_take_front(u32_le(as_unsigned(v)), behind);
    lemma_u32_round_trip(as_unsigned(v));
    lemma_signed_round_trip(v);
}

/// Reading a short string that was written gives the string, where the
/// string has between 1 and 256 bytes.
pub proof fn lemma_read_short_string(s: Seq<u8>, behind: Seq<u8>)
    requires
        0 < s.len() <= 256,
    ensures
        read_short_string(short_string(s) + behind) == got(s, behind),
{
    let n = (s.len() - 1) as u8;
    assert(short_string(s) + behind =~= seq![n] + (s + behind));
    lemma_read_u8(n, s + behind);
    lemma_take_front(s, behind);
}

/// Reading a long string that was written gives the string, where the
/// string has a byte and no more bytes than a 32-bit integer counts.
pub proof fn lemma_read_long_string(s: Seq<u8>, behind: Seq<u8>)
    requires
        0 < s.len() <= u32::MAX,
    ensures
        read_long_string(long_string(s) + behind) == got(s, behind),
{
    let n = (s.len() - 1) as u32;
    assert(long_string(s) + behind =~= u32_le(n) + (s + behind));
    lemma_read_u32(n, s + behind);
    lemma_take_front(s, behind);
}

/// Whether a property comes back as it is: its name has between 1 and 256
/// bytes, and its value, where it is a string, has a byte and no more than
/// a 32-bit integer counts.
pub open spec fn entry_storable(entry: Entry) -> bool {
    &&& 0 < encode_utf8(entry.0).len() <= 256
    &&& entry.1 matches PropertyView::String(v) ==> 0 < v.len() <= u32::MAX
}

/// Reading the value of a property that was written gives the value.
pub proof fn lemma_parse_value(value: PropertyView, behind: Seq<u8>)
    requires
        value matches PropertyView::String(v) ==> 0 < v.len() <= u32::MAX,
    ensures
        parse_value(encode_value(value) + behind) == got(value, behind),
{
    match value {
        PropertyView::Integer(v) => {
            let body = u32_le(as_unsigned(v));
            assert(encode_value(value) + behind =~= seq![0u8] + (body + behind));
            lemma_read_u8(0u8, body + behind);
            lemma_read_i32(v, behind);
        },
        PropertyView::Float(v) => {
            let body = u32_le(v.bits);
            assert(encode_value(value) + behind =~= seq![1u8] + (body + behind));
            lemma_read_u8(1u8, body + behind);
            lemma_read_u32(v.bits, behind);
        },
        PropertyView::String(v) => {
            let body = long_string(v);
            assert(encode_value(value) + behind =~= seq![2u8] + (body + behind));
            lemma_read_u8(2u8, body + behind);
            lemma_read_long_string(v, behind);
        },
    }
}

/// Reading a property that was written gives the property.
pub proof fn lemma_parse_property(entry: Entry, behind: Seq<u8>)
    requires
        entry_storable(entry),
    ensures
        parse_property(encode_property(entry) + behind) == got(entry, behind),
{
    let key = encode_utf8(entry.0);
    let value = encode_value(entry.1);
    assert(encode_property(entry) + behind =~= short_string(key) + (value + behind));
    lemma_read_short_string(key, value + behind);
    lemma_parse_value(entry.1, behind);
    lemma_text_of_encoded(entry.0);
}

/// The bytes of items, one after the other, begin with the bytes of the
/// first item.
pub proof fn lemma_join_front<T>(items: Seq<T>, f: spec_fn(T) -> Seq<u8>)
    requires
        items.len() > 0,
    ensures
        items.map_values(f).flatten() == f(items[0]) + items.skip(1).map_values(f).flatten(),
{
    assert(items.map_values(f).drop_first() =~= items.skip(1).map_values(f));
}

/// Whether each of the properties comes back as it is.
pub open spec fn entries_storable(entries: Seq<Entry>) -> bool {
    forall|i: int| 0 <= i < entries.len() ==> entry_storable(#[trigger] entries[i])
}

/// Reading properties that were written puts them behind those that are
/// there, where no name stands twice.
pub proof fn lemma_parse_properties(entries: Seq<Entry>, behind: Seq<u8>, before: Seq<Entry>)
    requires
        entries_storable(entries),
        distinct_keys(before + entries),
    ensures
        parse_properties(encode_properties(entries) + behind, entries.len(), before) == got(
            before + entries,
            behind,
        ),
    decreases entries.len(),
{
    if entries.len() == 0 {
        assert(before + entries =~= before);
        assert(encode_properties(entries) + behind =~= behind);
    } else {
        let first = entries[0];
        let others = entries.skip(1);
        let all = before + entries;
        lemma_join_front(entries, |e: Entry| encode_property(e));
        assert(encode_properties(entries) + behind =~= encode_property(first) + (encode_properties(
            others,
        ) + behind));
        lemma_parse_property(first, encode_properties(others) + behind);
        assert(!has_key(before, first.0)) by {
            if has_key(before, first.0) {
                let i = choose|i: int| 0 <= i < before.len() && (#[trigger] before[i]).0 == first.0;
                assert(all[i] == before[i]);
                assert(all[before.len() as int] == first);
            }
        }
        assert(inserted(before, first.0, first.1) == before.push(first));
        assert(before.push(first) + others =~= all);
        assert forall|i: int| 0 <= i < others.len() implies entry_storable(
            #[trigger] others[i],
        ) by {
            assert(others[i] == entries[i + 1]);
        }
        lemma_parse_properties(others, behind, before.push(first));
    }
}

/// Reading a tileset that was written gives the tileset, where its path has
/// between 1 and 256 bytes.
pub proof fn lemma_parse_tileset(tileset: TileSetView, behind: Seq<u8>)
    requires
        0 < encode_utf8(tileset.path).len() <= 256,
    ensures
        parse_tileset(encode_tileset(tileset) + behind) == got(tileset, behind),
{
    let color = seq![
        0u8,
        tileset.transparent_color.2,
        tileset.transparent_color.1,
        tileset.transparent_color.0,
    ];
    let path = encode_utf8(tileset.path);
    assert(encode_tileset(tileset) + behind =~= color + (short_string(path) + behind));
    lemma_take_front(color, short_string(path) + behind);
    lemma_read_short_string(path, behind);
    lemma_text_of_encoded(tileset.path);
}

/// Whether the path of each of the tilesets has between 1 and 256 bytes.
pub open spec fn paths_storable(tilesets: Seq<TileSetView>) -> bool {
    forall|i: int|
        0 <= i < tilesets.len() ==> 0 < encode_utf8((#[trigger] tilesets[i]).path).len() <= 256
}

/// Reading tilesets that were written puts them behind those that are
/// there.
pub proof fn lemma_parse_tilesets(
    tilesets: Seq<TileSetView>,
    behind: Seq<u8>,
    before: Seq<TileSetView>,
)
    requires
        paths_storable(tilesets),
    ensures
        parse_tilesets(encode_tilesets(tilesets) + behind, tilesets.len(), before) == got(
            before + tilesets,
            behind,
        ),
    decreases tilesets.len(),
{
    if tilesets.len() == 0 {
        assert(before + tilesets =~= before);
        assert(encode_tilesets(tilesets) + behind =~= behind);
    } else {
        let first = tilesets[0];
        let others = tilesets.skip(1);
        lemma_join_front(tilesets, |t: TileSetView| encode_tileset(t));
        assert(encode_tilesets(tilesets) + behind =~= encode_tileset(first) + (encode_tilesets(
            others,
        ) + behind));
        lemma_parse_tileset(first, encode_tilesets(others) + behind);
        assert(before.push(first) + others =~= before + tilesets);
        assert forall|i: int| 0 <= i < others.len() implies 0 < encode_utf8(
            (#[trigger] others[i]).path,
        ).len() <= 256 by {
            assert(others[i] == tilesets[i + 1]);
        }
        lemma_parse_tilesets(others, behind, before.push(first));
    }
}

/// The tiles of the bytes of tiles are those tiles.
pub proof fn lemma_tiles_of_bytes(tiles: Seq<Tile>)
    ensures
        tile_bytes(tiles).len() == 2 * tiles.len(),
        tiles_of(tile_bytes(tiles)) == tiles,
{
    let bytes = tile_bytes(tiles);
    assert forall|i: int| 0 <= i < tiles.len() implies tiles_of(bytes)[i] == tiles[i] by {
        assert((2 * i) % 2 == 0 && (2 * i) / 2 == i);
        assert((2 * i + 1) % 2 == 1 && (2 * i + 1) / 2 == i);
        let id = tiles[i].id;
        assert(join_bytes(high_byte(id), low_byte(id)) == id);
    }
    assert(tiles_of(bytes) =~= tiles);
}

/// A layer without its tiles and its sublayers.
pub open spec fn bare(layer: LayerView) -> LayerView {
    LayerView { data: Seq::empty(), sublayers: Seq::empty(), ..layer }
}

/// The header of a layer describes that layer and holds its number of data
/// sections in its last byte.
pub proof fn lemma_header(layer: LayerView, dims: (u16, u16))
    ensures
        encode_header(layer).len() == 41,
        header_len(5) == 41,
        layer_of_header(encode_header(layer), 5, dims) == bare(layer),
        encode_header(layer)[40] == section_count(layer),
{
    reveal(encode_header);
    reveal(layer_of_header);
    let h = encode_header(layer);
    let d = header_dims(layer);
    let s = header_settings(layer);
    let k = header_link(layer);
    assert(d.len() == 12 && s.len() == 25 && k.len() == 4);
    assert(h.subrange(0, 12) =~= d);
    assert(h.subrange(12, 37) =~= s);
    assert(h.subrange(37, 41) =~= k);
    assert(h.subrange(0, 4) =~= u32_le(layer.width)) by {
        assert(d.subrange(0, 4) =~= u32_le(layer.width));
        assert(h.subrange(0, 4) =~= d.subrange(0, 4));
    }
    assert(h.subrange(4, 8) =~= u32_le(layer.height)) by {
        assert(d.subrange(4, 8) =~= u32_le(layer.height));
        assert(h.subrange(4, 8) =~= d.subrange(4, 8));
    }
    assert(h.subrange(8, 10) =~= u16_le(layer.tile_dimensions.0)) by {
        assert(d.subrange(8, 10) =~= u16_le(layer.tile_dimensions.0));
        assert(h.subrange(8, 10) =~= d.subrange(8, 10));
    }
    assert(h.subrange(10, 12) =~= u16_le(layer.tile_dimensions.1)) by {
        assert(d.subrange(10, 12) =~= u16_le(layer.tile_dimensions.1));
        assert(h.subrange(10, 12) =~= d.subrange(10, 12));
    }
    assert(h.subrange(14, 18) =~= u32_le(as_unsigned(layer.offset.0))) by {
        assert(s.subrange(2, 6) =~= u32_le(as_unsigned(layer.offset.0)));
        assert(h.subrange(14, 18) =~= s.subrange(2, 6));
    }
    assert(h.subrange(18, 22) =~= u32_le(as_unsigned(layer.offset.1))) by {
        assert(s.subrange(6, 10) =~= u32_le(as_unsigned(layer.offset.1)));
        assert(h.subrange(18, 22) =~= s.subrange(6, 10));
    }
    assert(h.subrange(22, 26) =~= u32_le(layer.scroll.0.bits)) by {
        assert(s.subrange(10, 14) =~= u32_le(layer.scroll.0.bits));
        assert(h.subrange(22, 26) =~= s.subrange(10, 14));
    }
    assert(h.subrange(26, 30) =~= u32_le(layer.scroll.1.bits)) by {
        assert(s.subrange(14, 18) =~= u32_le(layer.scroll.1.bits));
        assert(h.subrange(26, 30) =~= s.subrange(14, 18));
    }
    assert(h.subrange(33, 37) =~= u32_le(layer.opacity.bits)) by {
        assert(s.subrange(21, 25) =~= u32_le(layer.opacity.bits));
        assert(h.subrange(33, 37) =~= s.subrange(21, 25));
    }
    assert(h[12] == layer.tileset && h[13] == layer.collision) by {
        assert(h[12] == s[0] && h[13] == s[1]);
    }
    assert(h[30] == flag(layer.wrap.0) && h[31] == flag(layer.wrap.1) && h[32] == flag(
        layer.visible,
    )) by {
        assert(h[30] == s[18] && h[31] == s[19] && h[32] == s[20]);
    }
    assert(h[37] == layer.sublayer_link.tileset && h[38] == layer.sublayer_link.animation && h[39]
        == layer.sublayer_link.animation_frame && h[40] == section_count(layer)) by {
        assert(h[37] == k[0] && h[38] == k[1] && h[39] == k[2] && h[40] == k[3]);
    }
    lemma_u32_round_trip(layer.width);
    lemma_u32_round_trip(layer.height);
    lemma_u16_round_trip(layer.tile_dimensions.0);
    lemma_u16_round_trip(layer.tile_dimensions.1);
    lemma_u32_round_trip(as_unsigned(layer.offset.0));
    lemma_u32_round_trip(as_unsigned(layer.offset.1));
    lemma_signed_round_trip(layer.offset.0);
    lemma_signed_round_trip(layer.offset.1);
    lemma_u32_round_trip(layer.scroll.0.bits);
    lemma_u32_round_trip(layer.scroll.1.bits);
    lemma_u32_round_trip(layer.opacity.bits);
}

/// Whether the compressed block of `data` can be read back.
pub open spec fn comes_back(data: Seq<u8>) -> bool {
    zlib_packed(data).len() <= u32::MAX && unpacks_to_itself(data)
}

/// Reading the tiles that were written gives the tiles.
pub proof fn lemma_parse_main(tiles: Seq<Tile>, behind: Seq<u8>, layer: LayerView)
    requires
        comes_back(tile_bytes(tiles)),
    ensures
        parse_section(main_tag() + compressed(tile_bytes(tiles)) + behind, layer) == got(
            LayerView { data: tiles, ..layer },
            behind,
        ),
{
    reveal(parse_section);
    let block = compressed(tile_bytes(tiles));
    assert(main_tag() + block + behind =~= main_tag() + (block + behind));
    lemma_take_front(main_tag(), block + behind);
    lemma_read_compressed(tile_bytes(tiles), behind);
    lemma_tiles_of_bytes(tiles);
}

/// The tags of the data sections differ.
pub proof fn lemma_section_tags()
    ensures
        main_tag() != data_tag(),
        main_tag().len() == 4,
        data_tag().len() == 4,
{
    assert(main_tag()[0] != data_tag()[0]);
}

/// Reading a sublayer that was written gives the sublayer, where it has
/// the dimensions of its layer.
pub proof fn lemma_parse_sublayer(sublayer: SubLayerView, behind: Seq<u8>, layer: LayerView)
    requires
        sublayer.wf(),
        !layer.is_empty(),
        sublayer.width == layer.width,
        sublayer.height == layer.height,
        comes_back(sublayer.data),
    ensures
        parse_section(encode_sublayer(sublayer) + behind, layer) == got(
            LayerView { sublayers: layer.sublayers.push(sublayer), ..layer },
            behind,
        ),
{
    reveal(parse_section);
    let head = seq![sublayer.cell_size] + sublayer.default_value;
    let block = compressed(sublayer.data);
    lemma_section_tags();
    assert(encode_sublayer(sublayer) + behind =~= data_tag() + (head + (block + behind)));
    lemma_take_front(data_tag(), head + (block + behind));
    lemma_take_front(head, block + behind);
    lemma_read_compressed(sublayer.data, behind);
    assert(head[0] == sublayer.cell_size);
    assert(head.subrange(1, 5) =~= sublayer.default_value);
    let loaded = loaded_sublayer(
        head[0],
        head.subrange(1, 5),
        layer.width,
        layer.height,
        sublayer.data,
    );
    assert(loaded.default_value =~= sublayer.default_value);
    assert(loaded == sublayer);
}

/// Whether each of the sublayers comes back as a sublayer of a layer of the
/// given dimensions.
pub open spec fn sublayers_storable(sublayers: Seq<SubLayerView>, width: u32, height: u32) -> bool {
    forall|i: int|
        0 <= i < sublayers.len() ==> {
            &&& (#[trigger] sublayers[i]).wf()
            &&& sublayers[i].width == width
            &&& sublayers[i].height == height
            &&& comes_back(sublayers[i].data)
        }
}

/// Reading sublayers that were written puts them behind those that the
/// layer has.
pub proof fn lemma_parse_sublayers(sublayers: Seq<SubLayerView>, behind: Seq<u8>, layer: LayerView)
    requires
        !layer.is_empty(),
        sublayers_storable(sublayers, layer.width, layer.height),
    ensures
        parse_sections(encode_sublayers(sublayers) + behind, sublayers.len(), layer) == got(
            LayerView { sublayers: layer.sublayers + sublayers, ..layer },
            behind,
        ),
    decreases sublayers.len(),
{
    if sublayers.len() == 0 {
        assert(layer.sublayers + sublayers =~= layer.sublayers);
        assert(encode_sublayers(sublayers) + behind =~= behind);
    } else {
        let first = sublayers[0];
        let others = sublayers.skip(1);
        lemma_join_front(sublayers, |s: SubLayerView| encode_sublayer(s));
        assert(encode_sublayers(sublayers) + behind =~= encode_sublayer(first) + (encode_sublayers(
            others,
        ) + behind));
        lemma_parse_sublayer(first, encode_sublayers(others) + behind, layer);
        let next = LayerView { sublayers: layer.sublayers.push(first), ..layer };
        assert(next.sublayers + others =~= layer.sublayers + sublayers);
        assert forall|i: int| 0 <= i < others.len() implies {
            &&& (#[trigger] others[i]).wf()
            &&& others[i].width == layer.width
            &&& others[i].height == layer.height
            &&& comes_back(others[i].data)
        } by {
            assert(others[i] == sublayers[i + 1]);
        }
        lemma_parse_sublayers(others, behind, next);
    }
}

/// Whether a layer comes back as it is. A layer without grid has no tiles
/// and no sublayers. A layer with a grid has at most 254 sublayers, each
/// with the dimensions of the layer, and the compressed blocks of its tiles
/// and of its sublayers can be read back.
pub open spec fn layer_storable(layer: LayerView) -> bool {
    if layer.is_empty() {
        layer.data.len() == 0 && layer.sublayers.len() == 0
    } else {
        &&& layer.sublayers.len() <= 254
        &&& comes_back(tile_bytes(layer.data))
        &&& sublayers_storable(layer.sublayers, layer.width, layer.height)
    }
}

/// Reading a layer that was written gives the layer.
pub proof fn lemma_parse_layer(layer: LayerView, behind: Seq<u8>, dims: (u16, u16))
    requires
        layer_storable(layer),
    ensures
        parse_layer(encode_layer(layer) + behind, 5, dims) == got(layer, behind),
{
    reveal(parse_layer);
    reveal(encode_layer);
    let h = encode_header(layer);
    lemma_header(layer, dims);
    if layer.is_empty() {
        assert(encode_layer(layer) + behind =~= h + behind);
        lemma_take_front(h, behind);
        assert(bare(layer).data =~= layer.data);
        assert(bare(layer).sublayers =~= layer.sublayers);
        assert(bare(layer) == layer);
    } else {
        let tiles = main_tag() + compressed(tile_bytes(layer.data));
        let subs = encode_sublayers(layer.sublayers);
        assert(kept(layer.sublayers, 255) == layer.sublayers);
        assert(encode_layer(layer) + behind =~= h + (tiles + (subs + behind)));
        lemma_take_front(h, tiles + (subs + behind));
        assert(tiles + (subs + behind) =~= main_tag() + compressed(tile_bytes(layer.data)) + (subs
            + behind));
        lemma_parse_main(layer.data, subs + behind, bare(layer));
        let with_tiles = LayerView { data: layer.data, ..bare(layer) };
        lemma_parse_sublayers(layer.sublayers, behind, with_tiles);
        assert(with_tiles.sublayers + layer.sublayers =~= layer.sublayers);
        assert(layer == LayerView { sublayers: with_tiles.sublayers + layer.sublayers, ..with_tiles });
        assert(section_count(layer) == layer.sublayers.len() + 1);
    }
}

/// Whether each of the layers comes back as it is.
#[verifier::opaque]
pub open spec fn layers_storable(layers: Seq<LayerView>) -> bool {
    forall|i: int| 0 <= i < layers.len() ==> layer_storable(#[trigger] layers[i])
}

/// Reading layers that were written puts them behind those that are there.
pub proof fn lemma_parse_layers(
    layers: Seq<LayerView>,
    behind: Seq<u8>,
    dims: (u16, u16),
    before: Seq<LayerView>,
)
    requires
        layers_storable(layers),
    ensures
        parse_layers(encode_layers(layers) + behind, layers.len(), 5, dims, before) == got(
            before + layers,
            behind,
        ),
    decreases layers.len(),
{
    reveal(layers_storable);
    if layers.len() == 0 {
        assert(before + layers =~= before);
        assert(encode_layers(layers) + behind =~= behind);
    } else {
        let first = layers[0];
        let others = layers.skip(1);
        lemma_join_front(layers, |l: LayerView| encode_layer(l));
        assert(encode_layers(layers) + behind =~= encode_layer(first) + (encode_layers(others)
            + behind));
        lemma_parse_layer(first, encode_layers(others) + behind, dims);
        assert(before.push(first) + others =~= before + layers);
        assert forall|i: int| 0 <= i < others.len() implies layer_storable(
            #[trigger] others[i],
        ) by {
            assert(others[i] == layers[i + 1]);
        }
        lemma_parse_layers(others, behind, dims, before.push(first));
    }
}

/// The tags of the blocks differ.
pub proof fn lemma_block_tags()
    ensures
        map_tag() != tile_tag(),
        map_tag() != layer_tag(),
        tile_tag() != layer_tag(),
        map_tag().len() == 4,
        tile_tag().len() == 4,
        layer_tag().len() == 4,
{
    assert(map_tag()[0] != tile_tag()[0]);
    assert(map_tag()[0] != layer_tag()[0]);
    assert(tile_tag()[0] != layer_tag()[0]);
}

/// The head of a block that was written: its eight bytes are the tag and the
/// length, and the content stands behind them.
proof fn lemma_block_head(tag: Seq<u8>, content: Seq<u8>, behind: Seq<u8>)
    requires
        tag.len() == 4,
    ensures
        take(block(tag, content) + behind, 8) matches Ok((head, rest)) && head.subrange(0, 4)
            == tag && rest == content + behind,
        (block(tag, content) + behind).len() == 8 + content.len() + behind.len(),
{
    let head = tag + u32_le(length_field(content.len()));
    assert(block(tag, content) + behind =~= head + (content + behind));
    lemma_take_front(head, content + behind);
    assert(head.subrange(0, 4) =~= tag);
}

/// Reading the block of properties that was written puts the properties
/// behind those that are there.
pub proof fn lemma_parse_map_block(entries: Seq<Entry>, behind: Seq<u8>, loaded: Loaded)
    requires
        0 < entries.len() <= 65535,
        entries_storable(entries),
        distinct_keys(loaded.map.properties + entries),
    ensures
        parse_block(encode_map_block(entries) + behind, 5, loaded) == got(
            Loaded {
                map: TileMapView { properties: loaded.map.properties + entries, ..loaded.map },
                ..loaded
            },
            behind,
        ),
        (encode_map_block(entries) + behind).len() > behind.len(),
{
    let count = entries.len() as u16;
    let body = encode_properties(entries);
    let content = u16_le(count) + body;
    assert(kept(entries, 65535) == entries);
    lemma_block_tags();
    lemma_block_head(map_tag(), content, behind);
    assert(content + behind =~= u16_le(count) + (body + behind));
    lemma_read_u16(count, body + behind);
    lemma_parse_properties(entries, behind, loaded.map.properties);
}

/// Reading the block of tilesets that was written puts the tilesets behind
/// those that are there.
pub proof fn lemma_parse_tile_block(tilesets: Seq<TileSetView>, behind: Seq<u8>, loaded: Loaded)
    requires
        0 < tilesets.len() <= 255,
        paths_storable(tilesets),
    ensures
        parse_block(encode_tile_block(tilesets) + behind, 5, loaded) == got(
            Loaded {
                map: TileMapView { tilesets: loaded.map.tilesets + tilesets, ..loaded.map },
                ..loaded
            },
            behind,
        ),
        (encode_tile_block(tilesets) + behind).len() > behind.len(),
{
    let count = tilesets.len() as u8;
    let body = encode_tilesets(tilesets);
    let content = seq![count] + body;
    assert(kept(tilesets, 255) == tilesets);
    lemma_block_tags();
    lemma_block_head(tile_tag(), content, behind);
    assert(content + behind =~= seq![count] + (body + behind));
    lemma_read_u8(count, body + behind);
    lemma_parse_tilesets(tilesets, behind, loaded.map.tilesets);
}

/// Reading the block of layers that was written puts the layers behind
/// those that are there.
pub proof fn lemma_parse_layer_block(layers: Seq<LayerView>, behind: Seq<u8>, loaded: Loaded)
    requires
        0 < layers.len() <= 65535,
        layers_storable(layers),
    ensures
        parse_block(encode_layer_block(layers) + behind, 5, loaded) == got(
            Loaded { map: TileMapView { layers: loaded.map.layers + layers, ..loaded.map }, ..loaded },
            behind,
        ),
        (encode_layer_block(layers) + behind).len() > behind.len(),
{
    let count = layers.len() as u16;
    let body = encode_layers(layers);
    let content = u16_le(count) + body;
    assert(kept(layers, 65535) == layers);
    lemma_block_tags();
    lemma_block_head(layer_tag(), content, behind);
    assert(content + behind =~= u16_le(count) + (body + behind));
    lemma_read_u16(count, body + behind);
    lemma_parse_layers(layers, behind, loaded.dims, loaded.map.layers);
}

/// Whether a layer has the shape that comes back: without grid it has no
/// tiles and no sublayers; with a grid it has at most 254 sublayers, each
/// as it should be and with the dimensions of the layer.
pub open spec fn layer_shaped(layer: LayerView) -> bool {
    if layer.is_empty() {
        layer.data.len() == 0 && layer.sublayers.len() == 0
    } else {
        &&& layer.sublayers.len() <= 254
        &&& forall|i: int|
            0 <= i < layer.sublayers.len() ==> {
                &&& (#[trigger] layer.sublayers[i]).wf()
                &&& layer.sublayers[i].width == layer.width
                &&& layer.sublayers[i].height == layer.height
            }
    }
}

/// Whether each of the layers has the shape that comes back.
pub open spec fn layers_shaped(layers: Seq<LayerView>) -> bool {
    forall|i: int| 0 <= i < layers.len() ==> layer_shaped(#[trigger] layers[i])
}

/// Whether the length of each of the sublayers' compressed blocks fits its
/// length field.
pub open spec fn sublayers_small(sublayers: Seq<SubLayerView>) -> bool {
    forall|i: int|
        0 <= i < sublayers.len() ==> zlib_packed((#[trigger] sublayers[i]).data).len() <= u32::MAX
}

/// Whether the length of each compressed block that a layer is written with
/// fits its length field.
pub open spec fn layer_small(layer: LayerView) -> bool {
    layer.is_empty() || (zlib_packed(tile_bytes(layer.data)).len() <= u32::MAX && sublayers_small(
        kept(layer.sublayers, 255),
    ))
}

/// Whether the length of each compressed block that the layers are written
/// with fits its length field.
pub open spec fn layers_small(layers: Seq<LayerView>) -> bool {
    forall|i: int| 0 <= i < layers.len() ==> layer_small(#[trigger] layers[i])
}

/// Whether a tilemap comes back from its bytes as it is: its counts are
/// within what a file holds, each name and path has between 1 and 256
/// bytes, no name stands twice, each string has a byte, and each layer
/// has the shape that comes back.
#[verifier::opaque]
pub open spec fn storable(map: TileMapView) -> bool {
    &&& map.properties.len() <= 65535
    &&& entries_storable(map.properties)
    &&& distinct_keys(map.properties)
    &&& map.tilesets.len() <= 255
    &&& paths_storable(map.tilesets)
    &&& map.layers.len() <= 65535
    &&& layers_shaped(map.layers)
}

/// Whether the length of each compressed block that a tilemap is written
/// with fits its length field.
pub open spec fn small(map: TileMapView) -> bool {
    layers_small(kept(map.layers, 65535))
}

/// A layer of the right shape whose compressed blocks fit and unpack comes
/// back as it is.
proof fn lemma_layer_storable(layer: LayerView)
    requires
        layer_shaped(layer),
        layer_small(layer),
        layer_unpacks(layer),
    ensures
        layer_storable(layer),
{
    if !layer.is_empty() {
        let subs = layer.sublayers;
        assert(kept(subs, 255) == subs);
        assert forall|i: int| 0 <= i < subs.len() implies {
            &&& (#[trigger] subs[i]).wf()
            &&& subs[i].width == layer.width
            &&& subs[i].height == layer.height
            &&& comes_back(subs[i].data)
        } by {
            assert(unpacks_to_itself(subs[i].data));
            assert(zlib_packed(subs[i].data).len() <= u32::MAX);
        }
    }
}

/// Reading the blocks of the layers that were written gives the tilemap
/// with those layers.
proof fn lemma_parse_layer_blocks(layers: Seq<LayerView>, loaded: Loaded)
    requires
        layers.len() <= 65535,
        layers_storable(layers),
        loaded.map.layers.len() == 0,
    ensures
        parse_blocks(encode_layer_block(layers), 5, loaded) == Ok::<TileMapView, Failure>(
            TileMapView { layers, ..loaded.map },
        ),
{
    if layers.len() == 0 {
        assert(loaded.map.layers =~= layers);
        assert(TileMapView { layers, ..loaded.map } == loaded.map);
    } else {
        let bytes = encode_layer_block(layers);
        let nothing = Seq::<u8>::empty();
        assert(bytes + nothing =~= bytes);
        lemma_parse_layer_block(layers, nothing, loaded);
        assert(loaded.map.layers + layers =~= layers);
        let next = Loaded {
            map: TileMapView { layers: loaded.map.layers + layers, ..loaded.map },
            ..loaded
        };
        assert(parse_block(bytes, 5, loaded) == got(next, nothing));
        assert(parse_blocks(nothing, 5, next) == Ok::<TileMapView, Failure>(next.map));
        assert(bytes.len() > 0);
    }
}

/// Reading the blocks of the tilesets and the layers that were written
/// gives the tilemap with those tilesets and layers.
proof fn lemma_parse_tile_blocks(
    tilesets: Seq<TileSetView>,
    layers: Seq<LayerView>,
    loaded: Loaded,
)
    requires
        tilesets.len() <= 255,
        paths_storable(tilesets),
        layers.len() <= 65535,
        layers_storable(layers),
        loaded.map.layers.len() == 0,
        loaded.map.tilesets.len() == 0,
    ensures
        parse_blocks(encode_tile_block(tilesets) + encode_layer_block(layers), 5, loaded) == Ok::<
            TileMapView,
            Failure,
        >(TileMapView { tilesets, layers, ..loaded.map }),
{
    let behind = encode_layer_block(layers);
    if tilesets.len() == 0 {
        assert(encode_tile_block(tilesets) + behind =~= behind);
        assert(loaded.map.tilesets =~= tilesets);
        lemma_parse_layer_blocks(layers, loaded);
    } else {
        lemma_parse_tile_block(tilesets, behind, loaded);
        let next = Loaded {
            map: TileMapView { tilesets: loaded.map.tilesets + tilesets, ..loaded.map },
            ..loaded
        };
        assert(loaded.map.tilesets + tilesets =~= tilesets);
        lemma_parse_layer_blocks(layers, next);
    }
}

/// Reading the blocks that were written for a tilemap gives the tilemap.
proof fn lemma_parse_all_blocks(map: TileMapView, loaded: Loaded)
    requires
        storable(map),
        layers_storable(map.layers),
        loaded.map == TileMapView::empty(),
    ensures
        parse_blocks(
            encode_map_block(map.properties) + encode_tile_block(map.tilesets)
                + encode_layer_block(map.layers),
            5,
            loaded,
        ) == Ok::<TileMapView, Failure>(map),
{
    reveal(storable);
    let behind = encode_tile_block(map.tilesets) + encode_layer_block(map.layers);
    let all = encode_map_block(map.properties) + encode_tile_block(map.tilesets)
        + encode_layer_block(map.layers);
    assert(all =~= encode_map_block(map.properties) + behind);
    if map.properties.len() == 0 {
        assert(all =~= behind);
        assert(loaded.map.properties =~= map.properties);
        lemma_parse_tile_blocks(map.tilesets, map.layers, loaded);
    } else {
        assert(loaded.map.properties + map.properties =~= map.properties);
        lemma_parse_map_block(map.properties, behind, loaded);
        let next = Loaded {
            map: TileMapView { properties: loaded.map.properties + map.properties, ..loaded.map },
            ..loaded
        };
        lemma_parse_tile_blocks(map.tilesets, map.layers, next);
    }
}

/// The version field of the last version holds version 5.
proof fn lemma_version_field()
    ensures
        crate::bytes::le_u16(seq![5u8, 1u8]) == 0x105,
        version_of(0x105) == 5,
{
    assert(0x105u16 ^ 0x100u16 == 5u16) by (bit_vector);
}

/// Layers of the right shape whose compressed blocks fit and unpack come
/// back as they are.
proof fn lemma_layers_storable(layers: Seq<LayerView>)
    requires
        layers_shaped(layers),
        layers_small(layers),
        all_unpack(layers),
    ensures
        layers_storable(layers),
{
    reveal(layers_storable);
    assert forall|i: int| 0 <= i < layers.len() implies layer_storable(#[trigger] layers[i]) by {
        lemma_layer_storable(layers[i]);
    }
}

/// Reading blocks behind the magic string and the version field of the last
/// version gives what the blocks hold.
proof fn lemma_parse_behind_head(blocks: Seq<u8>)
    ensures
        parse_file(magic() + seq![5u8, 1u8] + blocks) == parse_blocks(
            blocks,
            5,
            Loaded { map: TileMapView::empty(), dims: (16, 16) },
        ),
{
    let field = seq![5u8, 1u8];
    assert(magic() + field + blocks =~= magic() + (field + blocks));
    lemma_take_front(magic(), field + blocks);
    lemma_take_front(field, blocks);
    lemma_version_field();
    assert(read_u16(field + blocks) == got(0x105u16, blocks));
}

/// The bytes of a tilemap hold that tilemap, where each layer comes back.
proof fn lemma_parse_encoded(map: TileMapView)
    requires
        storable(map),
        layers_storable(map.layers),
    ensures
        parse_file(encode_file(map)) == Ok::<TileMapView, Failure>(map),
{
    let blocks = encode_map_block(map.properties) + encode_tile_block(map.tilesets)
        + encode_layer_block(map.layers);
    lemma_parse_all_blocks(map, Loaded { map: TileMapView::empty(), dims: (16, 16) });
    lemma_parse_behind_head(blocks);
    assert(encode_file(map) =~= magic() + seq![5u8, 1u8] + blocks);
}

/// Reading what was written gives back what was written: the bytes of a
/// tilemap that is storable hold that tilemap, where every compressed block
/// fits its length field and unpacks to what was packed.
pub proof fn lemma_round_trip(map: TileMapView)
    requires
        storable(map),
        small(map),
        unpacks(map),
    ensures
        parse_file(encode_file(map)) == Ok::<TileMapView, Failure>(map),
{
    assert(kept(map.layers, 65535) == map.layers && layers_shaped(map.layers)) by {
        reveal(storable);
    }
    lemma_layers_storable(map.layers);
    lemma_parse_encoded(map);
}

} // verus!
