use lmake::assemble::{compile_buffer, compiled_file_name, BuildOptions, ModuleSet};
use lmake::assets::{asset_paths, embed_assets, embed_extension, get_asset_helper};
use lmake::definition::{DependencySpec, LibraryDefinition, Multivalue};
use lmake::preload::{PreloadMapping, PreloadNames};

fn definition(modules: &[(&str, &str)]) -> LibraryDefinition {
    LibraryDefinition {
        name: "mylib".to_string(),
        user: "me".to_string(),
        author: "Some One".to_string(),
        email: None,
        version: "1.2.3".to_string(),
        love: None,
        upstream: None,
        modules: modules.iter().map(|(k, v)| (k.to_string(), v.to_string())).collect(),
        dependencies: Vec::new(),
        options: Vec::new(),
    }
}

fn options(name: Option<&str>, with_version: bool) -> BuildOptions {
    BuildOptions { compiled_name: name.map(|n| n.to_string()), name_with_version: with_version, remove_comments: false }
}

#[test]
fn definition_to_string() {
    assert_eq!(definition(&[]).to_string(), "me/mylib (1.2.3)");
}

#[test]
fn base_file_without_modules() {
    let def = definition(&[]);
    assert_eq!(
        def.to_compiled_base_file(&PreloadMapping::new()),
        "local library = {}\nlibrary.name = 'mylib'\nlibrary.user = 'me'\nlibrary.author = 'Some One'\nlibrary.version = '1.2.3'\nreturn library\n"
    );
}

#[test]
fn base_file_with_sentinel_and_nested_keys() {
    let def = definition(&[("_", "src.init"), ("a.b.c", "src.c"), ("a.b", "src.b")]);
    let mut m = PreloadMapping::new();
    assert!(m.insert("src.init".to_string(), "id0".to_string()));
    assert!(m.insert("src.c".to_string(), "id1".to_string()));
    assert_eq!(
        def.to_compiled_base_file(&m),
        "local library = require (\"id0\")\nlibrary.name = 'mylib'\nlibrary.user = 'me'\nlibrary.author = 'Some One'\nlibrary.version = '1.2.3'\nlibrary.a = {}\nlibrary.a.b = require (\"src.b\")\nlibrary.a.b.c = require (\"id1\")\nreturn library\n"
    );
}

#[test]
fn base_file_binds_parents_first() {
    let def = definition(&[("a.b.c.d", "f2"), ("a.b", "f1"), ("a", "f0")]);
    assert_eq!(
        def.to_compiled_base_file(&PreloadMapping::new()),
        "local library = {}\nlibrary.name = 'mylib'\nlibrary.user = 'me'\nlibrary.author = 'Some One'\nlibrary.version = '1.2.3'\nlibrary.a = require (\"f0\")\nlibrary.a.b = require (\"f1\")\nlibrary.a.b.c = {}\nlibrary.a.b.c.d = require (\"f2\")\nreturn library\n"
    );
}

#[test]
fn base_file_shares_parent_tables() {
    let def = definition(&[("x.one", "f1"), ("x.two", "f2")]);
    let out = def.to_compiled_base_file(&PreloadMapping::new());
    assert_eq!(out.matches("library.x = {}").count(), 1);
    assert!(out.contains("library.x.one = require (\"f1\")"));
    assert!(out.contains("library.x.two = require (\"f2\")"));
}

#[test]
fn file_name_priorities() {
    let def = definition(&[]);
    assert_eq!(compiled_file_name(&def, true, &options(Some("other"), false)), "mylib-1.2.3.lua");
    assert_eq!(compiled_file_name(&def, false, &options(Some("other"), true)), "other.lua");
    assert_eq!(compiled_file_name(&def, false, &options(None, true)), "mylib-1.2.3.lua");
    assert_eq!(compiled_file_name(&def, false, &options(None, false)), "mylib.lua");
}

#[test]
fn plain_definition_compiles_to_header_and_identity() {
    let def = definition(&[]);
    let set = ModuleSet::new();
    let out = compile_buffer(&def, &set, false);
    assert_eq!(
        out,
        "-- built with lmake (0.1.0) <https://github.com/snsvrno/lmake-rs>\n-- a tool for compiling lua libraries from multiple source files and dependencies\nlocal library = {}\nlibrary.name = 'mylib'\nlibrary.user = 'me'\nlibrary.author = 'Some One'\nlibrary.version = '1.2.3'\nreturn library"
    );
    assert!(!out.contains("require"));
}

#[test]
fn compile_with_same_identifiers_is_identical() {
    let def = definition(&[("util", "src.util")]);
    let build = || {
        let mut set = ModuleSet::new();
        let mut names = PreloadNames::new();
        assert!(set.register(&mut names, "src.util".to_string(), "return {}", "mylib"));
        compile_buffer(&def, &set, false)
    };
    assert_eq!(build(), build());
}

#[test]
fn compile_with_other_serials_differs_only_in_identifiers() {
    let def = definition(&[("util", "src.util"), ("more", "src.more")]);
    let build = |skip: usize| {
        let mut names = PreloadNames::new();
        for _ in 0..skip {
            names.issue("other");
        }
        let mut set = ModuleSet::new();
        let items = vec![
            ("src.util".to_string(), "return {}".to_string()),
            ("src.more".to_string(), "return 1".to_string()),
        ];
        set.register_all(&mut names, &items, "mylib");
        let mut out = compile_buffer(&def, &set, false);
        for key in ["src.util", "src.more"] {
            out = out.replace(&set.mapping.get(key).unwrap(), &format!("<{}>", key));
        }
        out
    };
    assert_eq!(build(0), build(5));
}

#[test]
fn dependency_artifact_is_one_module() {
    let def = definition(&[("util", "src.util")]);
    let mut set = ModuleSet::new();
    let mut names = PreloadNames::new();
    set.register_all(&mut names, &vec![("src.util".to_string(), "return {}".to_string())], "mylib");
    let artifact = "package.preload['dep-1'] = (function(...)\nreturn 1\nend)\nlocal library = require (\"dep-1\")\nreturn library\n";
    assert!(set.register(&mut names, "dep".to_string(), artifact, "mylib"));
    assert_eq!(set.chunks.len(), 2);
    assert_eq!(set.mapping.len(), 2);
    let out = compile_buffer(&def, &set, false);
    assert_eq!(out.matches("= (function(...)").count(), 3);
}

#[test]
fn compile_rewrites_references_and_strips_comments() {
    let def = definition(&[("util", "src.util")]);
    let mut set = ModuleSet::new();
    let mut names = PreloadNames::new();
    assert!(set.register(&mut names, "src.util".to_string(), "return { x = 1 } -- table", "mylib"));
    assert!(set.register(&mut names, "dep".to_string(), "return 2", "mylib"));
    let out = compile_buffer(&def, &set, true);
    assert!(!out.contains("--"));
    assert!(out.contains("return { x = 1 } \n"));
    assert!(out.contains("library.util = require (\"mylib-000000000000000000000000\")"));
}

#[test]
fn embed_extension_from_options() {
    let mut opts = vec![("embed".to_string(), Multivalue::Text("png".to_string()))];
    assert_eq!(embed_extension(&opts), Some("png".to_string()));
    opts[0].1 = Multivalue::Switch(true);
    assert_eq!(embed_extension(&opts), None);
    opts[0].1 = Multivalue::Array(vec![Multivalue::Text("png".to_string())]);
    assert_eq!(embed_extension(&opts), None);
    assert_eq!(embed_extension(&Vec::new()), None);
}

#[test]
fn asset_paths_found() {
    let paths = asset_paths("a = \"assets/logo.png\"\nb = 'x.jpg' c = 'i/y.png'", "png");
    assert_eq!(paths, vec!["assets/logo.png".to_string(), "i/y.png".to_string()]);
}

#[test]
fn asset_embedded_when_present() {
    let mut buffer = String::from("local img = \"assets/logo.png\"\n");
    let assets = vec![("assets/logo.png".to_string(), vec![1u8, 2, 3])];
    embed_assets(&mut buffer, "png", &assets);
    assert_eq!(buffer, "local img = love.filesystem.newFileData('AQID','assets/logo.png','base64')\n");
}

#[test]
fn asset_literal_unchanged_when_absent() {
    let mut buffer = String::from("local img = \"assets/logo.png\"\n");
    let assets: Vec<(String, Vec<u8>)> = Vec::new();
    embed_assets(&mut buffer, "png", &assets);
    assert_eq!(buffer, "local img = \"assets/logo.png\"\n");
}

#[test]
fn asset_helper_without_special_form() {
    assert_eq!(get_asset_helper("wav", "s.wav", "AAAA"), "AAAA");
    assert_eq!(get_asset_helper("png", "p.png", "AAAA"), "love.filesystem.newFileData('AAAA','p.png','base64')");
}

#[test]
fn asset_other_extension_raw() {
    let mut buffer = String::from("s = 'snd/a.wav'");
    let assets = vec![("snd/a.wav".to_string(), b"hi".to_vec())];
    embed_assets(&mut buffer, "wav", &assets);
    assert_eq!(buffer, "s = aGk=");
}

#[test]
fn dependency_spec_is_plain_data() {
    let d = DependencySpec { name: Some("n".to_string()), version: None };
    assert_eq!(d.name.as_deref(), Some("n"));
}

#[test]
fn module_reads_follow_definition() {
    let def = definition(&[("_", "src.init"), ("a.b", "src.sub.b")]);
    let reads = lmake::assemble::module_reads(&def);
    assert_eq!(
        reads,
        vec![
            ("src.init".to_string(), "src/init.lua".to_string()),
            ("src.sub.b".to_string(), "src/sub/b.lua".to_string())
        ]
    );
}

#[test]
fn dependency_requests_follow_definition() {
    let mut def = definition(&[]);
    def.dependencies = vec![
        ("gfx".to_string(), DependencySpec { name: Some("graphics".to_string()), version: Some("2.*".to_string()) }),
        ("log".to_string(), DependencySpec { name: None, version: None }),
    ];
    let reqs = lmake::assemble::dependency_requests(&def);
    assert_eq!(reqs.len(), 2);
    assert_eq!(reqs[0].library, "graphics");
    assert_eq!(reqs[0].requirement, "2.*");
    assert_eq!(reqs[1].library, "log");
    assert_eq!(reqs[1].requirement, "*");
}

#[test]
fn empty_buffer_passes() {
    let m = PreloadMapping::new();
    let mut b = String::new();
    lmake::buffer::process_depends_references(&mut b, &m);
    lmake::buffer::process_internal_references(&mut b, &Vec::new(), &m);
    lmake::buffer::remove_comments(&mut b);
    assert_eq!(b, "");
}

#[test]
fn lone_sigil_at_end_kept() {
    let m = PreloadMapping::new();
    let mut b = String::from("mail me @");
    lmake::buffer::process_depends_references(&mut b, &m);
    assert_eq!(b, "mail me @");
}

#[test]
fn two_keys_naming_one_file_get_one_module() {
    let def = definition(&[("_", "src.init"), ("alias", "src.init")]);
    let mut set = ModuleSet::new();
    let mut names = PreloadNames::new();
    let items: Vec<(String, String)> = lmake::assemble::module_reads(&def)
        .into_iter()
        .map(|(key, _)| (key, "return {}".to_string()))
        .collect();
    set.register_all(&mut names, &items, "mylib");
    assert_eq!(set.chunks.len(), 1);
    assert_eq!(set.mapping.len(), 1);
    assert_eq!(names.next_serial(), 1);
}

#[test]
fn embed_inert_without_text_option() {
    let assets = vec![("a.png".to_string(), vec![1u8])];
    for value in [Multivalue::Switch(true), Multivalue::Array(vec![Multivalue::Text("png".to_string())])] {
        let mut buffer = String::from("x = 'a.png'");
        lmake::assets::embed_configured_assets(&mut buffer, &vec![("embed".to_string(), value)], &assets);
        assert_eq!(buffer, "x = 'a.png'");
    }
    let mut buffer = String::from("x = 'a.png'");
    lmake::assets::embed_configured_assets(&mut buffer, &Vec::new(), &assets);
    assert_eq!(buffer, "x = 'a.png'");
    lmake::assets::embed_configured_assets(&mut buffer, &vec![("embed".to_string(), Multivalue::Text("png".to_string()))], &assets);
    assert_eq!(buffer, "x = love.filesystem.newFileData('AQ==','a.png','base64')");
}
