use lilah_editor::assets::{Asset, AssetType, Config, LoadType};
use lilah_editor::cellmap::CellMap;
use lilah_editor::codec::{encode_config, encode_scene, parse_config, parse_scene};
use lilah_editor::editor::App;
use lilah_editor::scene::{Layer, Scene, Tile, TileSheet};

fn two_layer_scene() -> Scene {
    let sheet = TileSheet::new(
        String::from("tiles.png"),
        String::from("assets/tiles.png"),
        String::from("/p/assets/tiles.png"),
        (512, 512),
        (8, 8),
    )
    .unwrap();
    let tile = |x: i32, y: i32, id: (u32, u32)| Tile {
        sheet: String::from("assets/tiles.png"),
        sheet_id: id,
        position: (x, y),
    };
    let mut ground = Layer::new();
    ground.tile_sheet = String::from("assets/tiles.png");
    ground.tiles = CellMap { entries: vec![((64, 0), tile(64, 0, (2, 3)))] };
    let mut sky = Layer::new();
    sky.tile_sheet = String::from("assets/tiles.png");
    sky.collision = true;
    sky.visible = false;
    sky.current_tile_item = 1;
    sky.tiles = CellMap { entries: vec![((-64, 128), tile(-64, 128, (7, 0)))] };
    Scene {
        name: String::from("level"),
        path: String::from("level.scene"),
        tile_sheets: vec![sheet],
        layers: vec![ground, sky],
    }
}

fn assert_scenes_equal(a: &Scene, b: &Scene) {
    assert_eq!(a.name, b.name);
    assert_eq!(a.path, b.path);
    assert_eq!(a.tile_sheets.len(), b.tile_sheets.len());
    for (x, y) in a.tile_sheets.iter().zip(b.tile_sheets.iter()) {
        assert_eq!(x.filename, y.filename);
        assert_eq!(x.path, y.path);
        assert_eq!(x.absolute_path, y.absolute_path);
        assert_eq!(x.tile_size, y.tile_size);
        assert_eq!(x.sheet_size, y.sheet_size);
    }
    assert_eq!(a.layers.len(), b.layers.len());
    for (x, y) in a.layers.iter().zip(b.layers.iter()) {
        assert_eq!(x.visible, y.visible);
        assert_eq!(x.collision, y.collision);
        assert_eq!(x.tile_sheet, y.tile_sheet);
        assert_eq!(x.current_tile_item, y.current_tile_item);
        assert_eq!(x.tiles.entries.len(), y.tiles.entries.len());
        for (e, f) in x.tiles.entries.iter().zip(y.tiles.entries.iter()) {
            assert_eq!(e.0, f.0);
            assert_eq!(e.1.sheet, f.1.sheet);
            assert_eq!(e.1.sheet_id, f.1.sheet_id);
            assert_eq!(e.1.position, f.1.position);
        }
    }
}

#[test]
fn scene_round_trip_is_field_for_field() {
    // a scene with two layers, one tile each, survives a round trip
    let scene = two_layer_scene();
    let text = encode_scene(&scene);
    let (back, end) = parse_scene(text.as_str(), 0).unwrap();
    assert_eq!(end, text.chars().count());
    assert_scenes_equal(&scene, &back);
}

#[test]
fn config_round_trip_is_field_for_field() {
    let mut config = Config::new();
    config.window_size = (1280, 720);
    config.assets.push(Asset {
        name: String::from("hero.wren"),
        path: String::from("scripts/hero.wren"),
        absolute_path: String::from("/p/src/scripts/hero.wren"),
        type_of: AssetType::Script,
        load_type: LoadType::Emdedded,
        load_order: Some(0),
    });
    config.assets.push(Asset {
        name: String::from("img.png"),
        path: String::from("assets/img.png"),
        absolute_path: String::from("/p/assets/img.png"),
        type_of: AssetType::Texture,
        load_type: LoadType::External,
        load_order: None,
    });
    let text = encode_config(&config);
    let (back, end) = parse_config(text.as_str(), 0).unwrap();
    assert_eq!(end, text.chars().count());
    assert_eq!(back.window_size, (1280, 720));
    assert_eq!(back.assets.len(), 2);
    assert_eq!(back.assets[0].name, "hero.wren");
    assert_eq!(back.assets[0].load_order, Some(0));
    assert!(matches!(back.assets[0].type_of, AssetType::Script));
    assert!(matches!(back.assets[0].load_type, LoadType::Emdedded));
    assert_eq!(back.assets[1].path, "assets/img.png");
    assert!(matches!(back.assets[1].load_type, LoadType::External));
    assert!(back.assets[1].load_order.is_none());
}

#[test]
fn strings_with_delimiters_survive_the_round_trip() {
    let mut scene = two_layer_scene();
    scene.name = String::from("12;34;\nodd \"name\" with ; everywhere");
    let text = encode_scene(&scene);
    let (back, _) = parse_scene(text.as_str(), 0).unwrap();
    assert_eq!(back.name, scene.name);
}

#[test]
fn parse_rejects_malformed_documents() {
    assert!(parse_scene("", 0).is_none());
    assert!(parse_scene("garbage", 0).is_none());
    assert!(parse_scene("5;lev", 0).is_none());
    assert!(parse_config("999999999999999999999999999999;", 0).is_none());
}

#[test]
fn open_scene_restores_state_and_rebuilds_the_cache() {
    let scene = two_layer_scene();
    let text = encode_scene(&scene);
    let mut app = App::new();
    assert!(app.open_scene(text.as_str()));
    let loaded = app.current_scene.as_ref().unwrap();
    assert_scenes_equal(&scene, loaded);
    assert_eq!(app.current_layer, 0);
    assert_eq!(app.current_tile_sheet, "assets/tiles.png");
    assert_eq!(app.sprite_buffer.len(), 2);
    assert_eq!(app.sprite_buffer[0].len(), 1);
    assert_eq!(app.sprite_buffer[1].len(), 1);
    let spr = app.sprite_buffer[0].get((64, 0)).unwrap();
    assert_eq!(spr.sheet, "assets/tiles.png");
    assert_eq!(spr.sheet_id, (2, 3));
    assert_eq!(spr.position, (64, 0));
    assert!(spr.visible);
    // the hidden layer's cache mirrors its visibility
    assert!(!app.sprite_buffer[1].get((-64, 128)).unwrap().visible);
}

#[test]
fn open_scene_rejects_trailing_garbage() {
    let scene = two_layer_scene();
    let mut text = encode_scene(&scene);
    text.push_str("trailing");
    let mut app = App::new();
    assert!(!app.open_scene(text.as_str()));
    assert!(app.current_scene.is_none());
}

#[test]
fn open_scene_rejects_a_scene_without_layers() {
    let mut scene = two_layer_scene();
    scene.layers.clear();
    let text = encode_scene(&scene);
    let mut app = App::new();
    assert!(!app.open_scene(text.as_str()));
    assert!(app.current_scene.is_none());
}

#[test]
fn load_config_falls_back_to_a_default_on_malformed_text() {
    let mut app = App::new();
    app.config.window_size = (1, 1);
    assert!(!app.load_config("not a config"));
    assert_eq!(app.config.window_size, (800, 600));
    assert!(app.config.all().is_empty());
}

#[test]
fn load_config_restores_a_stored_configuration() {
    let mut config = Config::new();
    config.window_size = (320, 240);
    let text = encode_config(&config);
    let mut app = App::new();
    assert!(app.load_config(text.as_str()));
    assert_eq!(app.config.window_size, (320, 240));
}

#[test]
fn add_texture_registers_a_sheet_with_derived_geometry() {
    let mut app = App::new();
    app.new_scene(String::from("s"), String::from("s.scene"));
    app.add_texture(
        String::from("/p/assets/rock.png"),
        String::from("assets/rock.png"),
        (256, 128),
        (4, 4),
    )
    .unwrap();
    let scene = app.current_scene.as_ref().unwrap();
    assert_eq!(scene.tile_sheets.len(), 1);
    let sheet = &scene.tile_sheets[0];
    assert_eq!(sheet.filename, "rock.png");
    assert_eq!(sheet.tile_size, (64, 32));
    assert_eq!(sheet.get_num_of_tiles(), (4, 4));
}
