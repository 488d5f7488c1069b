//! The tilemap: layers, tilesets and properties.

use vstd::prelude::*;
use crate::layer::{FloatBits, Layer, LayerView};

verus! {

/// A value of a property.
#[derive(Clone, PartialEq, Debug)]
pub enum Property {
    /// A 32-bit signed integer.
    Integer(i32),
    /// A 32-bit IEEE 754 number.
    Float(FloatBits),
    /// A string of bytes. One without bytes cannot be written to a file.
    String(Vec<u8>),
}

/// What a property holds.
pub enum PropertyView {
    /// A 32-bit signed integer.
    Integer(i32),
    /// A 32-bit IEEE 754 number.
    Float(FloatBits),
    /// A string of bytes.
    String(Seq<u8>),
}

impl View for Property {
    type V = PropertyView;

    open spec fn view(&self) -> PropertyView {
        match self {
            Property::Integer(value) => PropertyView::Integer(*value),
            Property::Float(value) => PropertyView::Float(*value),
            Property::String(bytes) => PropertyView::String(bytes@),
        }
    }
}

impl From<i32> for Property {
    fn from(value: i32) -> (property: Property)
        ensures
            property == Property::Integer(value),
    {
        Property::Integer(value)
    }
}

impl vstd::std_specs::convert::FromSpecImpl<i32> for Property {
    open spec fn obeys_from_spec() -> bool {
        true
    }

    open spec fn from_spec(value: i32) -> Property {
        Property::Integer(value)
    }
}

impl From<FloatBits> for Property {
    fn from(value: FloatBits) -> (property: Property)
        ensures
            property == Property::Float(value),
    {
        Property::Float(value)
    }
}

impl vstd::std_specs::convert::FromSpecImpl<FloatBits> for Property {
    open spec fn obeys_from_spec() -> bool {
        true
    }

    open spec fn from_spec(value: FloatBits) -> Property {
        Property::Float(value)
    }
}

impl From<Vec<u8>> for Property {
    fn from(value: Vec<u8>) -> (property: Property)
        ensures
            property == Property::String(value),
    {
        Property::String(value)
    }
}

impl vstd::std_specs::convert::FromSpecImpl<Vec<u8>> for Property {
    open spec fn obeys_from_spec() -> bool {
        true
    }

    open spec fn from_spec(value: Vec<u8>) -> Property {
        Property::String(value)
    }
}

impl From<String> for Property {
    fn from(value: String) -> (property: Property)
        ensures
            property@ == PropertyView::String(vstd::utf8::encode_utf8(value@)),
    {
        Property::String(vstd::slice::slice_to_vec(value.as_str().as_bytes()))
    }
}

impl vstd::std_specs::convert::FromSpecImpl<String> for Property {
    open spec fn obeys_from_spec() -> bool {
        false
    }

    open spec fn from_spec(value: String) -> Property {
        Property::Integer(0)
    }
}

/// A tileset: the path of its image and the colour that counts as
/// transparent.
#[derive(PartialEq, Eq, Debug)]
pub struct TileSet {
    /// The path of the image.
    pub path: String,
    /// The transparent colour: red, green, blue.
    pub transparent_color: (u8, u8, u8),
}

/// What a tileset holds.
pub struct TileSetView {
    /// The path of the image.
    pub path: Seq<char>,
    /// The transparent colour: red, green, blue.
    pub transparent_color: (u8, u8, u8),
}

impl View for TileSet {
    type V = TileSetView;

    open spec fn view(&self) -> TileSetView {
        TileSetView { path: self.path@, transparent_color: self.transparent_color }
    }
}

impl TileSet {
    /// A tileset with an empty path and black as the transparent colour.
    pub fn new() -> (tileset: TileSet)
        ensures
            tileset@ == (TileSetView { path: Seq::empty(), transparent_color: (0u8, 0u8, 0u8) }),
    {
        TileSet { path: String::new(), transparent_color: (0, 0, 0) }
    }
}

impl Default for TileSet {
    fn default() -> (tileset: TileSet)
        ensures
            tileset@ == (TileSetView { path: Seq::empty(), transparent_color: (0u8, 0u8, 0u8) }),
    {
        TileSet::new()
    }
}

impl Clone for TileSet {
    fn clone(&self) -> (copy: TileSet)
        ensures
            copy@ == self@,
    {
        TileSet { path: self.path.clone(), transparent_color: self.transparent_color }
    }
}

/// A property with its name.
pub type Entry = (Seq<char>, PropertyView);

/// Whether one of the entries has the name `key`.
pub open spec fn has_key(entries: Seq<Entry>, key: Seq<char>) -> bool {
    exists|i: int| 0 <= i < entries.len() && (#[trigger] entries[i]).0 == key
}

/// Whether `i` is the first entry with the name `key`.
pub open spec fn is_key_index(entries: Seq<Entry>, key: Seq<char>, i: int) -> bool {
    &&& 0 <= i < entries.len()
    &&& entries[i].0 == key
    &&& forall|j: int| 0 <= j < i ==> (#[trigger] entries[j]).0 != key
}

/// The first entry with the name `key`.
pub open spec fn key_index(entries: Seq<Entry>, key: Seq<char>) -> int {
    choose|i: int| is_key_index(entries, key, i)
}

/// The value that stands under the name `key`.
pub open spec fn value_of(entries: Seq<Entry>, key: Seq<char>) -> Option<PropertyView> {
    if has_key(entries, key) {
        Some(entries[key_index(entries, key)].1)
    } else {
        None
    }
}

/// The entries after `value` was put under the name `key`: in the place of
/// the value that stood under that name, or behind all entries where the
/// name is new.
pub open spec fn inserted(entries: Seq<Entry>, key: Seq<char>, value: PropertyView) -> Seq<Entry> {
    if has_key(entries, key) {
        entries.update(key_index(entries, key), (key, value))
    } else {
        entries.push((key, value))
    }
}

/// Whether no name stands in two entries.
pub open spec fn distinct_keys(entries: Seq<Entry>) -> bool {
    forall|i: int, j: int|
        0 <= i < j < entries.len() ==> (#[trigger] entries[i]).0 != (#[trigger] entries[j]).0
}

/// The first entry with a name is the only index that `key_index` can be.
pub proof fn lemma_key_index(entries: Seq<Entry>, key: Seq<char>, i: int)
    requires
        is_key_index(entries, key, i),
    ensures
        has_key(entries, key),
        key_index(entries, key) == i,
{
    let c = key_index(entries, key);
    assert(is_key_index(entries, key, c));
    if c < i {
        assert(entries[c].0 != key);
    } else if i < c {
        assert(entries[i].0 != key);
    }
}

/// Where a name stands in an entry, it has a first entry.
pub proof fn lemma_has_key_index(entries: Seq<Entry>, key: Seq<char>)
    requires
        has_key(entries, key),
    ensures
        is_key_index(entries, key, key_index(entries, key)),
    decreases entries.len(),
{
    let i = choose|i: int| 0 <= i < entries.len() && (#[trigger] entries[i]).0 == key;
    lemma_first_key(entries, key, i);
}

proof fn lemma_first_key(entries: Seq<Entry>, key: Seq<char>, i: int)
    requires
        0 <= i < entries.len(),
        entries[i].0 == key,
    ensures
        exists|f: int| is_key_index(entries, key, f),
    decreases i,
{
    if forall|j: int| 0 <= j < i ==> (#[trigger] entries[j]).0 != key {
        assert(is_key_index(entries, key, i));
    } else {
        let j = choose|j: int| 0 <= j < i && (#[trigger] entries[j]).0 == key;
        lemma_first_key(entries, key, j);
    }
}

/// Putting a value under a name keeps the names distinct.
pub proof fn lemma_inserted_distinct(entries: Seq<Entry>, key: Seq<char>, value: PropertyView)
    requires
        distinct_keys(entries),
    ensures
        distinct_keys(inserted(entries, key, value)),
{
    let after = inserted(entries, key, value);
    if has_key(entries, key) {
        lemma_has_key_index(entries, key);
        let k = key_index(entries, key);
        assert forall|i: int, j: int| 0 <= i < j < after.len() implies (#[trigger] after[i]).0 != (
        #[trigger] after[j]).0 by {
            assert(after[i].0 == entries[i].0);
            assert(after[j].0 == entries[j].0);
        }
    } else {
        assert forall|i: int, j: int| 0 <= i < j < after.len() implies (#[trigger] after[i]).0 != (
        #[trigger] after[j]).0 by {
            if j < entries.len() {
                assert(after[i] == entries[i]);
                assert(after[j] == entries[j]);
            } else {
                assert(after[i] == entries[i]);
            }
        }
    }
}

/// What each of the entries holds.
pub open spec fn entry_views(entries: Seq<(String, Property)>) -> Seq<Entry> {
    entries.map_values(|e: (String, Property)| (e.0@, e.1@))
}

/// Whether each entry of `a` stands in `b` with the same value, and `b` has
/// no more entries than `a`.
pub open spec fn same_entries(a: Seq<Entry>, b: Seq<Entry>) -> bool {
    &&& a.len() == b.len()
    &&& forall|i: int| 0 <= i < a.len() ==> value_of(b, (#[trigger] a[i]).0) == Some(a[i].1)
}

/// The properties of a tilemap: values under names, no name twice. The
/// entries stay in the order in which their names first came; two sets of
/// properties are equal where they hold the same values under the same
/// names, in whatever order.
#[derive(Debug)]
pub struct Properties {
    entries: Vec<(String, Property)>,
}

impl View for Properties {
    type V = Seq<Entry>;

    closed spec fn view(&self) -> Seq<Entry> {
        entry_views(self.entries@)
    }
}

impl Properties {
    #[verifier::type_invariant]
    spec fn well_formed(self) -> bool {
        distinct_keys(self@)
    }

    /// No properties.
    pub fn new() -> (properties: Properties)
        ensures
            properties@ == Seq::<Entry>::empty(),
    {
        let properties = Properties { entries: Vec::new() };
        proof {
            assert(properties@ =~= Seq::<Entry>::empty());
        }
        properties
    }

    /// The number of properties.
    pub fn len(&self) -> (len: usize)
        ensures
            len == self@.len(),
            distinct_keys(self@),
    {
        proof {
            use_type_invariant(self);
        }
        self.entries.len()
    }

    /// Whether there are no properties.
    pub fn is_empty(&self) -> (empty: bool)
        ensures
            empty == (self@.len() == 0),
    {
        self.entries.len() == 0
    }

    /// The name and the value of the entry at `index`, or `None` behind the
    /// last entry.
    pub fn entry(&self, index: usize) -> (entry: Option<(&String, &Property)>)
        ensures
            match entry {
                Some((key, value)) => index < self@.len() && self@[index as int] == (
                    key@,
                    value@,
                ),
                None => index >= self@.len(),
            },
    {
        if index < self.entries.len() {
            let e = &self.entries[index];
            Some((&e.0, &e.1))
        } else {
            None
        }
    }

    /// Where the first entry with the name `key` stands.
    fn find(entries: &Vec<(String, Property)>, key: &str) -> (found: Option<usize>)
        ensures
            match found {
                Some(i) => is_key_index(entry_views(entries@), key@, i as int),
                None => !has_key(entry_views(entries@), key@),
            },
    {
        let mut i: usize = 0;
        while i < entries.len()
            invariant
                i <= entries@.len(),
                forall|j: int| 0 <= j < i ==> (#[trigger] entry_views(entries@)[j]).0 != key@,
            decreases entries@.len() - i,
        {
            if str_equal(entries[i].0.as_str(), key) {
                return Some(i);
            }
            i = i + 1;
        }
        None
    }

    /// The value under the name `key`, or `None` where no entry has that
    /// name.
    pub fn get(&self, key: &str) -> (value: Option<&Property>)
        ensures
            match value {
                Some(value) => value_of(self@, key@) == Some(value@),
                None => value_of(self@, key@) is None,
            },
    {
        match Self::find(&self.entries, key) {
            Some(i) => {
                proof {
                    lemma_key_index(self@, key@, i as int);
                }
                Some(&self.entries[i].1)
            },
            None => None,
        }
    }

    /// Puts `value` under the name `key` and returns the value that stood
    /// there before.
    pub fn insert(&mut self, key: String, value: Property) -> (before: Option<Property>)
        ensures
            final(self)@ == inserted(old(self)@, key@, value@),
            match before {
                Some(before) => value_of(old(self)@, key@) == Some(before@),
                None => value_of(old(self)@, key@) is None,
            },
    {
        proof {
            use_type_invariant(&*self);
            lemma_inserted_distinct(self@, key@, value@);
        }
        let mut taken = Properties::new();
        core::mem::swap(self, &mut taken);
        let mut entries = taken.entries;
        let ghost before_entries = entries@;
        match Self::find(&entries, key.as_str()) {
            Some(i) => {
                proof {
                    lemma_key_index(entry_views(entries@), key@, i as int);
                }
                let ghost new_value = value@;
                let mut value = value;
                core::mem::swap(&mut entries[i].1, &mut value);
                proof {
                    assert(entries@[i as int].0 == before_entries[i as int].0);
                    assert(entry_views(before_entries)[i as int].0 == key@);
                    assert(entry_views(entries@) =~= inserted(
                        entry_views(before_entries),
                        key@,
                        new_value,
                    ));
                }
                *self = Properties { entries };
                Some(value)
            },
            None => {
                entries.push((key, value));
                proof {
                    assert(entry_views(entries@) =~= inserted(
                        entry_views(before_entries),
                        key@,
                        value@,
                    ));
                }
                *self = Properties { entries };
                None
            },
        }
    }
}

/// Whether two strings hold the same text.
fn str_equal(a: &str, b: &str) -> (equal: bool)
    ensures
        equal == (a@ == b@),
{
    let x = a.as_bytes();
    let y = b.as_bytes();
    proof {
        vstd::utf8::encode_utf8_decode_utf8(a@);
        vstd::utf8::encode_utf8_decode_utf8(b@);
    }
    if x.len() != y.len() {
        return false;
    }
    let mut i: usize = 0;
    while i < x.len()
        invariant
            i <= x@.len(),
            x@.len() == y@.len(),
            x@ == vstd::utf8::encode_utf8(a@),
            y@ == vstd::utf8::encode_utf8(b@),
            forall|j: int| 0 <= j < i ==> x@[j] == y@[j],
        decreases x@.len() - i,
    {
        if x[i] != y[i] {
            return false;
        }
        i = i + 1;
    }
    proof {
        assert(x@ =~= y@);
        vstd::utf8::encode_utf8_decode_utf8(a@);
        vstd::utf8::encode_utf8_decode_utf8(b@);
    }
    true
}

/// Whether two byte strings hold the same bytes.
fn same_bytes(a: &Vec<u8>, b: &Vec<u8>) -> (same: bool)
    ensures
        same == (a@ == b@),
{
    if a.len() != b.len() {
        return false;
    }
    let mut i: usize = 0;
    while i < a.len()
        invariant
            i <= a@.len(),
            a@.len() == b@.len(),
            forall|j: int| 0 <= j < i ==> a@[j] == b@[j],
        decreases a@.len() - i,
    {
        if a[i] != b[i] {
            return false;
        }
        i = i + 1;
    }
    proof {
        assert(a@ =~= b@);
    }
    true
}

/// Whether two properties hold the same.
fn same_value(a: &Property, b: &Property) -> (same: bool)
    ensures
        same == (a@ == b@),
{
    match (a, b) {
        (Property::Integer(x), Property::Integer(y)) => *x == *y,
        (Property::Float(x), Property::Float(y)) => x.bits == y.bits,
        (Property::String(x), Property::String(y)) => same_bytes(x, y),
        _ => false,
    }
}

impl PartialEq for Properties {
    fn eq(&self, other: &Properties) -> (equal: bool) {
        if self.entries.len() != other.entries.len() {
            return false;
        }
        let mut i: usize = 0;
        while i < self.entries.len()
            invariant
                i <= self@.len(),
                self@.len() == other@.len(),
                self@ == entry_views(self.entries@),
                forall|j: int|
                    0 <= j < i ==> value_of(other@, (#[trigger] self@[j]).0) == Some(self@[j].1),
            decreases self@.len() - i,
        {
            let e = &self.entries[i];
            proof {
                assert(self@[i as int] == (e.0@, e.1@));
            }
            let found = match other.get(e.0.as_str()) {
                Some(value) => same_value(&e.1, value),
                None => false,
            };
            if !found {
                proof {
                    assert(value_of(other@, self@[i as int].0) != Some(self@[i as int].1));
                }
                return false;
            }
            i = i + 1;
        }
        true
    }
}

impl vstd::std_specs::cmp::PartialEqSpecImpl for Properties {
    open spec fn obeys_eq_spec() -> bool {
        true
    }

    open spec fn eq_spec(&self, other: &Properties) -> bool {
        same_entries(self@, other@)
    }
}

impl Default for Properties {
    fn default() -> (properties: Properties)
        ensures
            properties@ == Seq::<Entry>::empty(),
    {
        Properties::new()
    }
}

impl Clone for Properties {
    fn clone(&self) -> (copy: Properties)
        ensures
            copy@ == self@,
    {
        proof {
            use_type_invariant(self);
        }
        let mut entries: Vec<(String, Property)> = Vec::new();
        let mut i: usize = 0;
        while i < self.entries.len()
            invariant
                i <= self.entries@.len(),
                entries@.len() == i,
                forall|j: int|
                    0 <= j < i ==> (#[trigger] entry_views(entries@)[j]) == entry_views(
                        self.entries@,
                    )[j],
            decreases self.entries@.len() - i,
        {
            let e = &self.entries[i];
            let key = e.0.clone();
            let value = copy_of(&e.1);
            let ghost before = entries@;
            entries.push((key, value));
            proof {
                assert forall|j: int| 0 <= j < i + 1 implies (#[trigger] entry_views(entries@)[j])
                    == entry_views(self.entries@)[j] by {
                    if j < i {
                        assert(entries@[j] == before[j]);
                        assert(entry_views(before)[j] == entry_views(self.entries@)[j]);
                    }
                }
            }
            i = i + 1;
        }
        proof {
            assert(entry_views(entries@) =~= entry_views(self.entries@));
        }
        Properties { entries }
    }
}

/// A copy of a property.
fn copy_of(property: &Property) -> (copy: Property)
    ensures
        copy@ == property@,
{
    match property {
        Property::Integer(value) => Property::Integer(*value),
        Property::Float(value) => Property::Float(*value),
        Property::String(bytes) => {
            let copy = bytes.clone();
            proof {
                assert(copy@ =~= bytes@);
            }
            Property::String(copy)
        },
    }
}

/// What each of the tilesets holds.
pub open spec fn tileset_views(tilesets: Seq<TileSet>) -> Seq<TileSetView> {
    tilesets.map_values(|t: TileSet| t@)
}

/// What each of the layers holds.
pub open spec fn layer_views(layers: Seq<Layer>) -> Seq<LayerView> {
    layers.map_values(|l: Layer| l@)
}

/// What a tilemap holds.
pub struct TileMapView {
    /// The layers.
    pub layers: Seq<LayerView>,
    /// The tilesets.
    pub tilesets: Seq<TileSetView>,
    /// The properties.
    pub properties: Seq<Entry>,
}

impl TileMapView {
    /// A tilemap without layers, tilesets and properties.
    pub open spec fn empty() -> TileMapView {
        TileMapView { layers: Seq::empty(), tilesets: Seq::empty(), properties: Seq::empty() }
    }
}

/// A tilemap: the content of one file.
#[derive(Clone, PartialEq, Debug)]
pub struct TileMap {
    /// The layers. Only the first 65535 are written to a file.
    pub layers: Vec<Layer>,
    /// The tilesets. Only the first 255 are written to a file.
    pub tilesets: Vec<TileSet>,
    /// The properties. Only the first 65535 are written to a file.
    pub properties: Properties,
}

impl View for TileMap {
    type V = TileMapView;

    open spec fn view(&self) -> TileMapView {
        TileMapView {
            layers: layer_views(self.layers@),
            tilesets: tileset_views(self.tilesets@),
            properties: self.properties@,
        }
    }
}

impl TileMap {
    /// A tilemap without layers, tilesets and properties.
    pub fn new() -> (map: TileMap)
        ensures
            map@ == TileMapView::empty(),
    {
        let map = TileMap { layers: Vec::new(), tilesets: Vec::new(), properties: Properties::new() };
        proof {
            assert(map@.layers =~= Seq::empty());
            assert(map@.tilesets =~= Seq::empty());
        }
        map
    }
}

impl Default for TileMap {
    fn default() -> (map: TileMap)
        ensures
            map@ == TileMapView::empty(),
    {
        TileMap::new()
    }
}

} // verus!
