use lilah_editor::editor::{App, snap};
use lilah_editor::scene::TileSheet;

fn app_with_sheet() -> App {
    let mut app = App::new();
    app.new_scene(String::from("level"), String::from("level.scene"));
    let sheet = TileSheet::new(
        String::from("tiles.png"),
        String::from("assets/tiles.png"),
        String::from("/p/assets/tiles.png"),
        (512, 512),
        (8, 8),
    )
    .unwrap();
    assert_eq!(sheet.tile_size, (64, 64));
    match app.current_scene.as_mut() {
        Some(scene) => scene.add_tile_sheet(sheet).unwrap(),
        None => panic!("scene was just created"),
    };
    app.set_layer_tile_sheet(0, 0);
    app
}

#[test]
fn snap_picks_the_nearest_multiple() {
    // nearest multiples of 16 to (7, 9) are (0, 16)
    assert_eq!(snap((7, 9), (16, 16)), (0, 16));
    assert_eq!(snap((10, 10), (16, 16)), (16, 16));
    assert_eq!(snap((0, 0), (16, 16)), (0, 0));
}

#[test]
fn snap_rounds_halves_away_from_zero() {
    assert_eq!(snap((8, -8), (16, 16)), (16, -16));
    assert_eq!(snap((-7, -9), (16, 16)), (0, -16));
    assert_eq!(snap((24, -24), (16, 16)), (32, -32));
}

#[test]
fn tile_sheet_geometry() {
    // sheet 512x512 at 8x8 tiles gives 64x64 cells, 8 tiles per axis
    let sheet = TileSheet::new(
        String::from("t.png"),
        String::from("t.png"),
        String::from("/t.png"),
        (512, 512),
        (8, 8),
    )
    .unwrap();
    assert_eq!(sheet.tile_size, (64, 64));
    assert_eq!(sheet.get_num_of_tiles(), (8, 8));
}

#[test]
fn zero_tile_count_is_rejected_on_import() {
    let r = TileSheet::new(
        String::from("t.png"),
        String::from("t.png"),
        String::from("/t.png"),
        (512, 512),
        (0, 8),
    );
    assert!(r.is_none());
}

#[test]
fn zero_tile_count_leaves_the_tile_size_unchanged() {
    let mut sheet = TileSheet::new(
        String::from("t.png"),
        String::from("t.png"),
        String::from("/t.png"),
        (512, 512),
        (8, 8),
    )
    .unwrap();
    sheet.set_tile_count((0, 4));
    assert_eq!(sheet.tile_size, (64, 64));
    sheet.set_tile_count((4, 4));
    assert_eq!(sheet.tile_size, (128, 128));
}

#[test]
fn placement_is_idempotent() {
    let mut app = app_with_sheet();
    app.place((70, 70), "assets/tiles.png", (2, 3));
    app.place((70, 70), "assets/tiles.png", (2, 3));
    let scene = app.current_scene.as_ref().unwrap();
    assert_eq!(scene.layers[0].tiles.len(), 1);
    assert_eq!(app.sprite_buffer[0].len(), 1);
    let tile = scene.layers[0].tiles.get((64, 64)).unwrap();
    assert_eq!(tile.sheet, "assets/tiles.png");
    assert_eq!(tile.sheet_id, (2, 3));
    assert_eq!(tile.position, (64, 64));
}

#[test]
fn place_overwrites_the_cell() {
    let mut app = app_with_sheet();
    app.place((70, 70), "assets/tiles.png", (2, 3));
    app.place((70, 70), "assets/tiles.png", (5, 1));
    let scene = app.current_scene.as_ref().unwrap();
    assert_eq!(scene.layers[0].tiles.len(), 1);
    assert_eq!(scene.layers[0].tiles.get((64, 64)).unwrap().sheet_id, (5, 1));
    assert_eq!(app.sprite_buffer[0].get((64, 64)).unwrap().sheet_id, (5, 1));
}

#[test]
fn erase_after_place_removes_tile_and_cache_entry() {
    let mut app = app_with_sheet();
    app.place((70, 70), "assets/tiles.png", (2, 3));
    app.erase((70, 70), "assets/tiles.png");
    let scene = app.current_scene.as_ref().unwrap();
    assert_eq!(scene.layers[0].tiles.len(), 0);
    assert_eq!(app.sprite_buffer[0].len(), 0);
}

#[test]
fn erase_on_an_empty_cell_is_a_no_op() {
    let mut app = app_with_sheet();
    app.place((70, 70), "assets/tiles.png", (2, 3));
    app.erase((200, 200), "assets/tiles.png");
    let scene = app.current_scene.as_ref().unwrap();
    assert_eq!(scene.layers[0].tiles.len(), 1);
    assert_eq!(app.sprite_buffer[0].len(), 1);
}

#[test]
fn place_without_a_known_sheet_is_a_no_op() {
    let mut app = app_with_sheet();
    app.place((70, 70), "ghost.png", (0, 0));
    let scene = app.current_scene.as_ref().unwrap();
    assert_eq!(scene.layers[0].tiles.len(), 0);
}

#[test]
fn cache_mirrors_visibility_toggles() {
    let mut app = app_with_sheet();
    app.place((70, 70), "assets/tiles.png", (2, 3));
    assert!(app.sprite_buffer[0].get((64, 64)).unwrap().visible);
    app.toggle_layer_visibility(0);
    assert!(!app.current_scene.as_ref().unwrap().layers[0].visible);
    assert!(!app.sprite_buffer[0].get((64, 64)).unwrap().visible);
    app.toggle_layer_visibility(0);
    assert!(app.sprite_buffer[0].get((64, 64)).unwrap().visible);
}

#[test]
fn sheet_reassignment_repaints_tiles_and_cache() {
    let mut app = app_with_sheet();
    let other = TileSheet::new(
        String::from("rock.png"),
        String::from("assets/rock.png"),
        String::from("/p/assets/rock.png"),
        (256, 256),
        (4, 4),
    )
    .unwrap();
    match app.current_scene.as_mut() {
        Some(scene) => scene.add_tile_sheet(other).unwrap(),
        None => panic!("scene was just created"),
    };
    app.place((70, 70), "assets/tiles.png", (2, 3));
    app.set_layer_tile_sheet(0, 1);
    let scene = app.current_scene.as_ref().unwrap();
    assert_eq!(scene.layers[0].tile_sheet, "assets/rock.png");
    assert_eq!(scene.layers[0].current_tile_item, 1);
    let tile = scene.layers[0].tiles.get((64, 64)).unwrap();
    assert_eq!(tile.sheet, "assets/rock.png");
    // sub-tile coordinates stay as placed, even against the new sheet
    assert_eq!(tile.sheet_id, (2, 3));
    assert_eq!(app.sprite_buffer[0].get((64, 64)).unwrap().sheet, "assets/rock.png");
    assert_eq!(app.current_tile_sheet, "assets/rock.png");
}

#[test]
fn duplicate_sheet_paths_are_rejected() {
    let mut app = app_with_sheet();
    let dup = TileSheet::new(
        String::from("tiles.png"),
        String::from("assets/tiles.png"),
        String::from("/p/assets/tiles.png"),
        (256, 256),
        (4, 4),
    )
    .unwrap();
    let r = match app.current_scene.as_mut() {
        Some(scene) => scene.add_tile_sheet(dup),
        None => panic!("scene was just created"),
    };
    assert!(r.is_err());
    assert_eq!(app.current_scene.as_ref().unwrap().tile_sheets.len(), 1);
}

#[test]
fn new_layers_inherit_the_current_sheet() {
    let mut app = app_with_sheet();
    app.add_layer();
    let scene = app.current_scene.as_ref().unwrap();
    assert_eq!(scene.layers.len(), 2);
    assert_eq!(scene.layers[1].tile_sheet, "assets/tiles.png");
    assert!(scene.layers[1].visible);
    assert!(!scene.layers[1].collision);
    assert_eq!(app.sprite_buffer.len(), 2);
}

#[test]
fn placements_go_to_the_selected_layer() {
    let mut app = app_with_sheet();
    app.add_layer();
    app.select_layer(1);
    app.place((0, 0), "assets/tiles.png", (1, 1));
    let scene = app.current_scene.as_ref().unwrap();
    assert_eq!(scene.layers[0].tiles.len(), 0);
    assert_eq!(scene.layers[1].tiles.len(), 1);
}

#[test]
fn new_scene_seeds_one_default_layer() {
    let mut app = App::new();
    app.new_scene(String::from("fresh"), String::from("fresh.scene"));
    let scene = app.current_scene.as_ref().unwrap();
    assert_eq!(scene.name, "fresh");
    assert_eq!(scene.path, "fresh.scene");
    assert_eq!(scene.layers.len(), 1);
    assert!(scene.layers[0].visible);
    assert!(!scene.layers[0].collision);
    assert_eq!(scene.layers[0].tile_sheet, "");
    assert_eq!(app.sprite_buffer.len(), 1);
    assert_eq!(app.current_layer, 0);
}
