use vlur::lazy::event::Event;
use vlur::plugin::Plugin;
use vlur::plugin::collect_files;
use vlur::run::test_cache;
use vlur::setup::setup as engine_setup;
use vlur::walk::WalkEntry;

fn standard_args(vimrc: &str) -> Vec<String> {
    vec![
        "-u".to_string(),
        vimrc.to_string(),
        "--headless".to_string(),
        "--cmd".to_string(),
        "set rtp^=..".to_string(),
        "-S".to_string(),
        "../scripts/quit.vim".to_string(),
    ]
}

#[test]
fn setup() {
    let plan = vlur::run::test("tests/setup.lua");
    assert_eq!(plan.program.as_str(), "nvim");
    assert!(plan.recreate_sandbox);
    assert_eq!(plan.args, standard_args("tests/setup.lua"));
    assert_eq!(plan.sandbox.as_str(), "temp/tests/setup.lua");
}

#[test]
fn main_default_plugins() {
    let plan = vlur::run::test("tests/disable_default_plugins.lua");
    assert_eq!(plan.program.as_str(), "nvim");
    assert_eq!(plan.args, standard_args("tests/disable_default_plugins.lua"));
}

#[test]
fn main_packpath() {
    let plan = vlur::run::test("tests/packpath/read.lua");
    assert_eq!(plan.program.as_str(), "nvim");
    assert_eq!(plan.args, standard_args("tests/packpath/read.lua"));
}

#[test]
fn main_install() {
    let plan = vlur::run::test("tests/install.lua");
    assert_eq!(plan.program.as_str(), "nvim");
    assert_eq!(plan.args, standard_args("tests/install.lua"));
}

#[test]
fn test_cache_keeps_sandbox() {
    let plan = test_cache("tests/setup.lua");
    assert!(!plan.recreate_sandbox);
    assert_eq!(plan.args, standard_args("tests/setup.lua"));
    let names: Vec<&str> = plan.envs.iter().map(|e| e.0.as_str()).collect();
    assert!(names.contains(&"NVIM_APPNAME"));
    assert!(names.contains(&"XDG_CACHE_HOME"));
    assert_eq!(
        plan.envs.iter().find(|e| e.0 == "XDG_DATA_HOME").unwrap().1.as_str(),
        "temp/tests/setup.lua/data"
    );
}

fn file_entry(path: &str, name: &str) -> WalkEntry {
    WalkEntry {
        path: Some(path.to_string()),
        file_name: Some(name.to_string()),
        depth: 1,
        is_dir: false,
    }
}

// Scan round trip: of a directory holding a matching file, a file of
// another extension, and an unrecognized subdirectory, exactly the
// matching file directly under the scanned directory is returned -
// nothing from the subdirectory.
#[test]
fn scan_returns_only_matching_files() {
    // What a depth-one walk of the scanned directory yields for the
    // tree {a.lua, b.txt, sub/}: the file inside `sub` is out of range.
    let entries = vec![
        file_entry("d/ftdetect/a.lua", "a.lua"),
        file_entry("d/ftdetect/b.txt", "b.txt"),
        WalkEntry {
            path: Some("d/ftdetect/sub".to_string()),
            file_name: Some("sub".to_string()),
            depth: 1,
            is_dir: true,
        },
    ];
    let files = collect_files(&entries, false);
    assert_eq!(files.len(), 1);
    assert_eq!(files[0].loader.script().as_str(), "source d/ftdetect/a.lua\n");
    assert!(files[0].name.is_none());
}

#[test]
fn scan_tags_default_files_by_stem() {
    let entries = vec![file_entry("vr/plugin/matchit.vim", "matchit.vim")];
    let files = collect_files(&entries, true);
    assert_eq!(files.len(), 1);
    assert_eq!(files[0].name.as_deref(), Some("matchit"));
}

#[test]
fn setup_partitions_lazy_and_eager() {
    let id = vec![1u8; 16];
    let lazy_events = vec![Event::new(vec!["User".to_string()], None)];
    let plugins = vec![
        Plugin::new("no/such/dir/eager".to_string(), None, None),
        Plugin::new("no/such/dir/lazy".to_string(), Some(lazy_events), None),
    ];
    let (plan, cache) = engine_setup(
        plugins,
        None,
        "/base,/base/after",
        "",
        None,
        &id,
        "/vimruntime",
    );
    assert_eq!(plan.lazy.len(), 1);
    assert_eq!(plan.lazy[0].0.as_str(), "no/such/dir/lazy");
    assert_eq!(plan.lazy[0].1.len(), 1);
    // The eager package's directory does not exist, so the search path
    // keeps only the host's own entries.
    assert_eq!(plan.rtp.as_str(), "/base,/base/after");
    assert_eq!(plan.scripts.len(), 2);
    // Every scan missed the (empty) cache, so the image is now invalid.
    assert!(!cache.is_valid);
}

#[test]
fn loader_plan_for_missing_directory_is_empty() {
    let p = Plugin::new("no/such/dir/pkg".to_string(), None, None);
    let plan = p.get_loader();
    assert_eq!(plan.runtimepath.render().as_str(), "");
    assert!(plan.files.is_empty());
}
