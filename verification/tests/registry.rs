use lilah_editor::EditorError;
use lilah_editor::assets::{Asset, AssetType, Config, LoadType, asset_kind_for_extension, extension, file_name};
use lilah_editor::editor::App;

fn asset_kind_name(a: &Asset) -> &'static str {
    match a.type_of {
        AssetType::Script => "script",
        AssetType::Texture => "texture",
        AssetType::Sfx => "sfx",
        AssetType::Music => "music",
        AssetType::Font => "font",
    }
}

#[test]
fn register_computes_relative_path_and_name() {
    let mut config = Config::new();
    let a = config
        .register("/proj/assets/img.png", "/proj", AssetType::Texture, LoadType::External)
        .unwrap();
    assert_eq!(a.path, "assets/img.png");
    assert_eq!(a.name, "img.png");
    assert_eq!(a.absolute_path, "/proj/assets/img.png");
    assert_eq!(asset_kind_name(&a), "texture");
    assert!(a.load_order.is_none());
}

#[test]
fn register_embedded_is_relative_to_source_dir() {
    let mut config = Config::new();
    let a = config
        .register("/proj/src/scripts/a.wren", "/proj", AssetType::Script, LoadType::Emdedded)
        .unwrap();
    assert_eq!(a.path, "scripts/a.wren");
    assert_eq!(a.load_order, Some(0));
}

#[test]
fn register_script_as_external_is_invalid() {
    let mut config = Config::new();
    let r = config.register("/proj/src/a.wren", "/proj", AssetType::Script, LoadType::External);
    assert!(matches!(r, Err(EditorError::InvalidStrategy)));
    assert_eq!(config.all().len(), 0);
}

#[test]
fn register_font_as_external_is_invalid() {
    let mut config = Config::new();
    let r = config.register("/proj/src/f.ttf", "/proj", AssetType::Font, LoadType::External);
    assert!(matches!(r, Err(EditorError::InvalidStrategy)));
    assert_eq!(config.all().len(), 0);
}

#[test]
fn register_outside_base_fails_path_resolution() {
    // a relative file against an absolute base has no relative path
    let mut config = Config::new();
    let r = config.register("stray.png", "/proj", AssetType::Texture, LoadType::External);
    assert!(matches!(r, Err(EditorError::PathResolution)));
    assert_eq!(config.all().len(), 0);
}

#[test]
fn register_a_file_above_the_base_fails_path_resolution() {
    // the file exists relative to the base, but only by climbing out of it
    let mut config = Config::new();
    let r = config.register("/elsewhere/img.png", "/proj", AssetType::Texture, LoadType::External);
    assert!(matches!(r, Err(EditorError::PathResolution)));
    // embedded assets resolve against the source sub-directory: a file in
    // the project root lies outside it
    let r2 = config.register("/proj/top.wren", "/proj", AssetType::Script, LoadType::Emdedded);
    assert!(matches!(r2, Err(EditorError::PathResolution)));
    assert_eq!(config.all().len(), 0);
}

#[test]
fn register_then_remove_then_all_does_not_yield_the_asset() {
    let mut config = Config::new();
    let a = config
        .register("/proj/assets/img.png", "/proj", AssetType::Texture, LoadType::External)
        .unwrap();
    assert_eq!(config.all().len(), 1);
    config.remove(a.path.as_str(), LoadType::External);
    for b in config.all().iter() {
        assert!(!(b.path == a.path && matches!(b.load_type, LoadType::External)));
    }
    assert_eq!(config.all().len(), 0);
}

#[test]
fn same_path_can_be_registered_once_per_strategy() {
    // both resolve to the relative path "sfx/s.wav", once per strategy
    let mut config = Config::new();
    config
        .register("/proj/sfx/s.wav", "/proj", AssetType::Sfx, LoadType::External)
        .unwrap();
    config
        .register("/proj/src/sfx/s.wav", "/proj", AssetType::Sfx, LoadType::Emdedded)
        .unwrap();
    assert_eq!(config.all()[0].path, config.all()[1].path);
    assert_eq!(config.all().len(), 2);
    // re-registering an existing key replaces, not duplicates
    config
        .register("/proj/sfx/s.wav", "/proj", AssetType::Sfx, LoadType::External)
        .unwrap();
    assert_eq!(config.all().len(), 2);
}

#[test]
fn script_orders_are_contiguous_at_registration_time() {
    let mut config = Config::new();
    for (i, p) in ["/p/src/a.wren", "/p/src/b.wren", "/p/src/c.wren"].iter().enumerate() {
        let a = config
            .register(p, "/p", AssetType::Script, LoadType::Emdedded)
            .unwrap();
        assert_eq!(a.load_order, Some(i));
    }
    let mut orders: Vec<usize> = config.all().iter().filter_map(|a| a.load_order).collect();
    orders.sort();
    assert_eq!(orders, vec![0, 1, 2]);
}

#[test]
fn reorder_swaps_load_orders_and_keeps_a_permutation() {
    let mut config = Config::new();
    config.register("/p/src/a.wren", "/p", AssetType::Script, LoadType::Emdedded).unwrap();
    config.register("/p/src/b.wren", "/p", AssetType::Script, LoadType::Emdedded).unwrap();
    config.register("/p/src/c.wren", "/p", AssetType::Script, LoadType::Emdedded).unwrap();
    config.reorder("a.wren", "c.wren");
    let order_of = |config: &Config, name: &str| -> Option<usize> {
        config
            .all()
            .iter()
            .find(|a| a.name == name)
            .and_then(|a| a.load_order)
    };
    assert_eq!(order_of(&config, "a.wren"), Some(2));
    assert_eq!(order_of(&config, "b.wren"), Some(1));
    assert_eq!(order_of(&config, "c.wren"), Some(0));
    let mut orders: Vec<usize> = config.all().iter().filter_map(|a| a.load_order).collect();
    orders.sort();
    assert_eq!(orders, vec![0, 1, 2]);
}

#[test]
fn reorder_on_missing_key_is_a_no_op() {
    let mut config = Config::new();
    config.register("/p/src/a.wren", "/p", AssetType::Script, LoadType::Emdedded).unwrap();
    config.reorder("a.wren", "ghost.wren");
    let a = &config.all()[0];
    assert_eq!(a.load_order, Some(0));
}

#[test]
fn load_orders_keep_gaps_after_removal() {
    let mut config = Config::new();
    config.register("/p/src/a.wren", "/p", AssetType::Script, LoadType::Emdedded).unwrap();
    config.register("/p/src/b.wren", "/p", AssetType::Script, LoadType::Emdedded).unwrap();
    config.remove("a.wren", LoadType::Emdedded);
    // remaining order is not renumbered
    assert_eq!(config.all()[0].load_order, Some(1));
    // the next registration takes the smallest unused order
    let c = config.register("/p/src/c.wren", "/p", AssetType::Script, LoadType::Emdedded).unwrap();
    assert_eq!(c.load_order, Some(0));
}

#[test]
fn extensions_classify_asset_kinds() {
    assert_eq!(extension("/p/a/img.png").as_deref(), Some("png"));
    assert_eq!(extension("/p/a/archive.tar.gz").as_deref(), Some("gz"));
    assert_eq!(extension("/p/a/no_ext"), None);
    assert!(matches!(asset_kind_for_extension("wren"), Some(AssetType::Script)));
    assert!(matches!(asset_kind_for_extension("png"), Some(AssetType::Texture)));
    assert!(matches!(asset_kind_for_extension("wav"), Some(AssetType::Sfx)));
    assert!(matches!(asset_kind_for_extension("mp3"), Some(AssetType::Music)));
    assert!(matches!(asset_kind_for_extension("ttf"), Some(AssetType::Font)));
    assert!(asset_kind_for_extension("gif").is_none());
}

#[test]
fn file_name_takes_the_last_component() {
    assert_eq!(file_name("/a/b/c.png"), "c.png");
    assert_eq!(file_name("plain.wav"), "plain.wav");
    assert_eq!(file_name("/a/b/"), "");
}

#[test]
fn import_skips_unsupported_extensions_silently() {
    let mut app = App::new();
    app.current_project = String::from("/p");
    let r = app.add_external_asset("/p/readme.txt").unwrap();
    assert!(r.is_none());
    assert_eq!(app.config.all().len(), 0);
}

#[test]
fn embedded_import_gives_scripts_orders() {
    let mut app = App::new();
    app.current_project = String::from("/p");
    let a = app.add_embedded_asset("/p/src/scripts/hero.wren").unwrap().unwrap();
    assert!(matches!(a.type_of, AssetType::Script));
    assert_eq!(a.path, "scripts/hero.wren");
    assert_eq!(a.load_order, Some(0));
    let b = app.add_embedded_asset("/p/src/scripts/coin.wren").unwrap().unwrap();
    assert_eq!(b.load_order, Some(1));
}

#[test]
fn external_import_of_a_script_extension_is_invalid() {
    let mut app = App::new();
    app.current_project = String::from("/p");
    let r = app.add_external_asset("/p/src/scripts/hero.wren");
    assert!(matches!(r, Err(EditorError::InvalidStrategy)));
}
