use lilah_editor::EditorError;
use lilah_editor::assets::{Asset, AssetType, Config, LoadType};
use lilah_editor::synth::{patch_manifest, project_main_stub, render, replace_all, u32_dec, u64_dec};

fn asset(
    name: &str,
    path: &str,
    type_of: AssetType,
    load_type: LoadType,
    load_order: Option<usize>,
) -> Asset {
    Asset {
        name: String::from(name),
        path: String::from(path),
        absolute_path: format!("/p/{}", path),
        type_of,
        load_type,
        load_order,
    }
}

const HEAD: &str = "\n    use lilah::application::*;\n    use lilah::math::Vec2;\n    use lilah::world::*;\n\n    fn setup(app : &mut App, state : &mut WorldState, scripting : &mut Scripting) {\n\n";
const MID: &str = "\n    }\n\n    pub fn main() {  \n        let mut app = App::new(\"Lilah\", ";
const TAIL: &str = ");\n        let mut scripting = Scripting::new();\n\n        World::new()\n            .setup(Box::new(setup))\n        .run(&mut app, &mut scripting);  \n    }\n";

#[test]
fn render_substitutes_statements_and_window_size() {
    let mut config = Config::new();
    config.assets.push(asset("b.wren", "scripts/b.wren", AssetType::Script, LoadType::Emdedded, Some(1)));
    config.assets.push(asset("img.png", "assets/img.png", AssetType::Texture, LoadType::External, None));
    config.assets.push(asset("a.wren", "scripts/a.wren", AssetType::Script, LoadType::Emdedded, Some(0)));
    config.assets.push(asset("s.wav", "assets/s.wav", AssetType::Sfx, LoadType::Emdedded, None));
    let text = render(&config).unwrap();
    let expected = format!(
        "{}{}{}{}{}{}",
        HEAD,
        "\t\tload_texture!(\"assets/img.png\", state, app);\n\t\tembed_sfx!(\"assets/s.wav\", state);\n",
        "\t\tembed_script!(\"scripts/a.wren\", scripting);\n\t\tembed_script!(\"scripts/b.wren\", scripting);\n",
        MID,
        "Vec2.new(800, 600)",
        TAIL,
    );
    assert_eq!(text, expected);
}

#[test]
fn render_is_deterministic() {
    let mut config = Config::new();
    config.assets.push(asset("m.mp3", "assets/m.mp3", AssetType::Music, LoadType::External, None));
    config.assets.push(asset("f.ttf", "assets/f.ttf", AssetType::Font, LoadType::Emdedded, None));
    let first = render(&config).unwrap();
    let second = render(&config).unwrap();
    assert_eq!(first, second);
}

#[test]
fn render_orders_scripts_by_load_order() {
    let mut config = Config::new();
    config.assets.push(asset("c.wren", "c.wren", AssetType::Script, LoadType::Emdedded, Some(2)));
    config.assets.push(asset("a.wren", "a.wren", AssetType::Script, LoadType::Emdedded, Some(0)));
    config.assets.push(asset("b.wren", "b.wren", AssetType::Script, LoadType::Emdedded, Some(1)));
    let text = render(&config).unwrap();
    let a = text.find("a.wren").unwrap();
    let b = text.find("b.wren").unwrap();
    let c = text.find("c.wren").unwrap();
    assert!(a < b && b < c);
}

#[test]
fn render_aborts_on_an_external_script() {
    let mut config = Config::new();
    config.assets.push(asset("a.wren", "a.wren", AssetType::Script, LoadType::External, Some(0)));
    let r = render(&config);
    assert!(matches!(r, Err(EditorError::InvalidStrategy)));
}

#[test]
fn render_aborts_on_an_external_font() {
    let mut config = Config::new();
    config.assets.push(asset("f.ttf", "f.ttf", AssetType::Font, LoadType::External, None));
    let r = render(&config);
    assert!(matches!(r, Err(EditorError::InvalidStrategy)));
}

#[test]
fn render_aborts_on_duplicate_load_orders() {
    let mut config = Config::new();
    config.assets.push(asset("a.wren", "a.wren", AssetType::Script, LoadType::Emdedded, Some(0)));
    config.assets.push(asset("b.wren", "b.wren", AssetType::Script, LoadType::Emdedded, Some(0)));
    let r = render(&config);
    assert!(matches!(r, Err(EditorError::LoadOrderCollision)));
}

#[test]
fn render_aborts_on_a_script_without_an_order() {
    let mut config = Config::new();
    config.assets.push(asset("a.wren", "a.wren", AssetType::Script, LoadType::Emdedded, None));
    let r = render(&config);
    assert!(matches!(r, Err(EditorError::LoadOrderCollision)));
}

#[test]
fn render_of_an_empty_registry_is_the_bare_template() {
    let config = Config::new();
    let text = render(&config).unwrap();
    let expected = format!("{}{}{}{}", HEAD, MID, "Vec2.new(800, 600)", TAIL);
    assert_eq!(text, expected);
}

#[test]
fn wrangle_main_renders_the_project_registry() {
    let mut app = lilah_editor::editor::App::new();
    app.config.window_size = (1024, 768);
    let text = app.wrangle_main().unwrap();
    assert!(text.contains("Vec2.new(1024, 768)"));
}

#[test]
fn decimal_rendering() {
    assert_eq!(u32_dec(0), "0");
    assert_eq!(u32_dec(7), "7");
    assert_eq!(u32_dec(800), "800");
    assert_eq!(u32_dec(4294967295), "4294967295");
    assert_eq!(u64_dec(18446744073709551615), "18446744073709551615");
}

#[test]
fn the_project_stub_keeps_its_placeholders() {
    let stub = project_main_stub();
    assert_eq!(stub, format!("{}{}{}{}{}", HEAD, "//ASSETS", MID, "WINDOW_SIZE", TAIL));
}

#[test]
fn replace_all_rewrites_every_occurrence() {
    assert_eq!(replace_all("a-b-c", "-", "+"), "a+b+c");
    assert_eq!(replace_all("aaa", "aa", "b"), "ba");
    assert_eq!(replace_all("nothing here", "xyz", "!"), "nothing here");
}

#[test]
fn patch_manifest_expands_the_dependency_header() {
    let patched = patch_manifest("[package]\nname = \"game\"\n\n[dependencies]\n");
    assert!(patched.contains("lilah = { git = \"https://github.com/dollerama/lilah.git\" }"));
    assert!(patched.contains("rusttype = \"*\""));
    assert!(patched.starts_with("[package]\nname = \"game\"\n"));
}
