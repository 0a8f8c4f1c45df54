use megatexture::{Atlas, AtlasSquare};

fn assert_atlases_equal(a: &Atlas, b: &Atlas) {
    assert_eq!(a.pack_name, b.pack_name);
    assert_eq!(a.side_length, b.side_length);
    assert_eq!(a.squares.len(), b.squares.len());
    for (x, y) in a.squares.iter().zip(b.squares.iter()) {
        assert_eq!(x.name, y.name);
        assert_eq!(x.x, y.x);
        assert_eq!(x.y, y.y);
    }
}

#[test]
fn save_writes_the_expected_record() {
    let atlas = Atlas::new(vec![String::from("a")]);
    assert_eq!(atlas.save(), "{\"side_length\":1,\"squares\":[{\"name\":\"a\",\"x\":0,\"y\":0}]}");
}

#[test]
fn round_trip_preserves_every_field() {
    let names: Vec<String> = (0..7).map(|i| format!("block/t{}.png", i)).collect();
    let atlas = Atlas::new(names);
    let text = atlas.save();
    let back = Atlas::load(&text).unwrap();
    assert_atlases_equal(&atlas, &back);
}

#[test]
fn round_trip_of_the_empty_atlas() {
    let atlas = Atlas::new(Vec::new());
    let text = atlas.save();
    assert_eq!(text, "{\"side_length\":0,\"squares\":[]}");
    let back = Atlas::load(&text).unwrap();
    assert_atlases_equal(&atlas, &back);
}

#[test]
fn round_trip_with_awkward_names() {
    let atlas = Atlas {
        pack_name: None,
        side_length: 2,
        squares: vec![
            AtlasSquare { name: String::from("quote \" and slash \\ here"), x: 0, y: 0 },
            AtlasSquare { name: String::from("sp ace/ünicode.png"), x: 1, y: 0 },
            AtlasSquare { name: String::from("line\nbreak\tand tab\u{1}"), x: 1, y: 1 },
            AtlasSquare { name: String::new(), x: 0, y: 1 },
        ],
    };
    let back = Atlas::load(&atlas.save()).unwrap();
    assert_atlases_equal(&atlas, &back);
}

#[test]
fn control_characters_are_stored_as_json_escapes() {
    let atlas = Atlas {
        pack_name: None,
        side_length: 1,
        squares: vec![AtlasSquare { name: String::from("a\nb"), x: 0, y: 0 }],
    };
    let text = atlas.save();
    assert!(text.contains("a\\u000ab"));
    let value: serde_json::Value = serde_json::from_str(&text).unwrap();
    assert_eq!(value["squares"][0]["name"], serde_json::Value::from("a\nb"));
}

#[test]
fn round_trip_of_large_coordinates() {
    let atlas = Atlas {
        pack_name: None,
        side_length: 4294967295,
        squares: vec![AtlasSquare { name: String::from("t"), x: 4294967294, y: 1000000 }],
    };
    let back = Atlas::load(&atlas.save()).unwrap();
    assert_atlases_equal(&atlas, &back);
}

#[test]
fn saved_record_is_json_with_the_documented_schema() {
    let atlas = Atlas::new(vec![String::from("p/one.png"), String::from("p/two.png")]);
    let value: serde_json::Value = serde_json::from_str(&atlas.save()).unwrap();
    assert_eq!(value["side_length"], serde_json::Value::from(2u32));
    let squares = value["squares"].as_array().unwrap();
    assert_eq!(squares.len(), 2);
    assert_eq!(squares[0]["name"], serde_json::Value::from("p/one.png"));
    assert_eq!(squares[1]["x"], serde_json::Value::from(1u32));
    assert_eq!(squares[1]["y"], serde_json::Value::from(0u32));
}

#[test]
fn round_trip_with_pack_name() {
    let mut atlas = Atlas::new(vec![String::from("a"), String::from("b")]);
    assert_eq!(atlas.pack_name, None);
    atlas.pack_name = Some(String::from("packs/main \"v2\""));
    let text = atlas.save();
    let back = Atlas::load(&text).unwrap();
    assert_atlases_equal(&atlas, &back);
    let value: serde_json::Value = serde_json::from_str(&text).unwrap();
    assert_eq!(value["pack_name"], serde_json::Value::from("packs/main \"v2\""));
}

#[test]
fn load_rejects_malformed_records() {
    assert!(Atlas::load("").is_err());
    assert!(Atlas::load("{}").is_err());
    assert!(Atlas::load("{\"side_length\":1}").is_err());
    assert!(Atlas::load("{\"side_length\":-1,\"squares\":[]}").is_err());
    assert!(Atlas::load("{\"side_length\":4294967296,\"squares\":[]}").is_err());
    assert!(Atlas::load("{\"squares\":[],\"side_length\":0}").is_err());
    assert!(Atlas::load("{\"pack_name\":\"p\"}").is_err());
    let good = Atlas::new(vec![String::from("a")]).save();
    assert!(Atlas::load(&good[..good.len() - 1]).is_err());
    let mut padded = good.clone();
    padded.push(' ');
    assert!(Atlas::load(&padded).is_err());
    assert!(Atlas::load("{\"side_length\":1,\"squares\":[{\"name\":\"a\",\"x\":0,\"y\":0},]}").is_err());
}
