use ct_tilemap::{Layer, Property, TileMap, TileSet};

#[test]
fn invalid_writes() {
    let t = TileMap::default();
    // Test empty strings
    let mut str_test = t.clone();
    str_test.properties.insert(String::new(), 0.into());
    str_test.write().expect_err("should have failed to write empty string");
    let mut str_test = t.clone();
    str_test.properties.insert("Foo".into(), String::new().into());
    str_test.write().expect_err("should have failed to write empty string");
    let mut str_test = t.clone();
    str_test.properties.insert(
        "This is a very long string! I know this because I wrote it. This string has to be at least 256 characters long to trigger the error, so I'm intentionally dragging this on as long as I can to reach that limit. It's kind of annoying to have to write all this.".into(),
        0.into()
    );

    // Test string truncation
    let cur = str_test.write().expect("this doesn't fail");
    let t = TileMap::read(cur.as_slice()).expect("reading should not fail here");
    assert_eq!(t.properties.entry(0).expect("key should exist").0.len(), 256);
}

#[test]
fn empty_tileset_path_is_refused() {
    let mut map = TileMap::new();
    map.tilesets.push(TileSet::new());
    assert!(map.write().is_err());
    map.tilesets[0].path = "a".to_string();
    assert!(map.write().is_ok());
}

#[test]
fn properties_keep_one_value_for_each_name() {
    let mut map = TileMap::new();
    assert!(map.properties.is_empty());
    assert_eq!(map.properties.insert("a".to_string(), Property::Integer(1)), None);
    assert_eq!(map.properties.insert("b".to_string(), Property::Integer(2)), None);
    assert_eq!(
        map.properties.insert("a".to_string(), Property::Integer(3)),
        Some(Property::Integer(1))
    );
    assert_eq!(map.properties.len(), 2);
    assert_eq!(map.properties.get("a"), Some(&Property::Integer(3)));
    assert_eq!(map.properties.entry(0).unwrap().0, "a");
    assert_eq!(map.properties.entry(1).unwrap().0, "b");
    assert!(map.properties.entry(2).is_none());
    let copy = map.clone();
    assert_eq!(copy, map);
}

#[test]
fn counts_are_capped() {
    let mut map = TileMap::new();
    let mut i = 0;
    while i < 300 {
        map.tilesets.push(TileSet { path: format!("{i}"), transparent_color: (0, 0, 0) });
        i += 1;
    }
    let back = TileMap::read(&map.write().unwrap()).unwrap();
    assert_eq!(back.tilesets.len(), 255);
    assert_eq!(back.tilesets[254].path, "254");
}

#[test]
fn properties_are_equal_in_any_order() {
    let mut a = TileMap::new();
    a.properties.insert("x".to_string(), Property::Integer(1));
    a.properties.insert("y".to_string(), Property::String(b"s".to_vec()));
    let mut b = TileMap::new();
    b.properties.insert("y".to_string(), Property::String(b"s".to_vec()));
    b.properties.insert("x".to_string(), Property::Integer(1));
    assert_eq!(a, b);
    b.properties.insert("x".to_string(), Property::Integer(2));
    assert_ne!(a, b);
    let mut c = TileMap::new();
    c.properties.insert("x".to_string(), Property::Integer(1));
    assert_ne!(a, c);
    assert_ne!(c, a);
}

#[test]
fn layers_never_keep_a_tilemap_from_being_written() {
    let mut map = TileMap::new();
    let mut wide = Layer::new();
    wide.resize(200, 150);
    wide.add_sublayer(b"abc");
    wide.add_sublayer(b"");
    map.layers.push(wide);
    map.layers.push(Layer::new());
    let mut narrow = Layer::new();
    narrow.resize(1, 1);
    map.layers.push(narrow);
    assert_eq!(TileMap::read(&map.write().unwrap()).unwrap(), map);
    // Only a property or a tileset without bytes does.
    map.properties.insert("name".to_string(), Property::String(Vec::new()));
    assert!(map.write().is_err());
    map.properties.insert("name".to_string(), Property::String(b"x".to_vec()));
    assert_eq!(TileMap::read(&map.write().unwrap()).unwrap(), map);
}
