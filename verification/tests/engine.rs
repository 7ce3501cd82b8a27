use vlur::cache::Cache;
use vlur::cache::CacheAction;
use vlur::cache::File;
use vlur::cache::FileLoader;
use vlur::cache::Inner;
use vlur::cache::Package;
use vlur::cache::decode_inner;
use vlur::cache::encode_inner;
use vlur::plugin::Plugin;
use vlur::runtimepath::RuntimePath;
use vlur::setup::setup;

fn build_id() -> Vec<u8> {
    vec![7, 7, 7, 7, 7, 7, 7, 7, 7, 7, 7, 7, 7, 7, 7, 7]
}

#[test]
fn image_round_trip() {
    let inner = Inner {
        id: build_id(),
        package: Package {
            packpath: "pp".to_string(),
            runtimepath: RuntimePath::new("/a,/a/after"),
        },
        runtimepaths: vec![("k".to_string(), RuntimePath::new("/x"))],
        plugins: vec![(
            "d".to_string(),
            vec![File {
                loader: FileLoader::Script("source /x/plugin/a.lua\n".to_string()),
                name: Some("a".to_string()),
            }],
        )],
    };
    let bytes = encode_inner(&inner);
    let back = decode_inner(&bytes).unwrap();
    assert_eq!(back.id, inner.id);
    assert_eq!(back.package.packpath.as_str(), "pp");
    assert_eq!(back.package.runtimepath.render().as_str(), "/a,/a/after");
    assert_eq!(back.package.runtimepath.split_pos(), 2);
    assert_eq!(back.runtimepaths.len(), 1);
    assert_eq!(back.runtimepaths[0].0.as_str(), "k");
    assert_eq!(back.runtimepaths[0].1.render().as_str(), "/x");
    assert_eq!(back.plugins.len(), 1);
    assert_eq!(back.plugins[0].0.as_str(), "d");
    assert_eq!(
        back.plugins[0].1[0].loader.script().as_str(),
        "source /x/plugin/a.lua\n"
    );
    assert_eq!(back.plugins[0].1[0].name.as_deref(), Some("a"));
}

#[test]
fn corrupt_image_is_rejected() {
    let inner = Inner {
        id: build_id(),
        package: Package {
            packpath: String::new(),
            runtimepath: RuntimePath::new(""),
        },
        runtimepaths: vec![],
        plugins: vec![],
    };
    let mut bytes = encode_inner(&inner);
    // A surplus byte must be rejected, as must a truncated image.
    bytes.push(0);
    assert!(decode_inner(&bytes).is_none());
    bytes.pop();
    bytes.pop();
    assert!(decode_inner(&bytes).is_none());
}

#[test]
fn read_missing_or_corrupt_is_invalid() {
    let id = build_id();
    let c = Cache::read(None, &id);
    assert!(!c.is_valid);
    let garbage = vec![1u8, 2, 3];
    let c = Cache::read(Some(&garbage), &id);
    assert!(!c.is_valid);
}

#[test]
fn read_with_other_build_id_is_invalid() {
    let id = build_id();
    let mut c = Cache::read(None, &id);
    let act = c.update(false, &id);
    let bytes = match act {
        CacheAction::Write(b) => b,
        _ => panic!("a missing file must be written"),
    };
    let other = vec![1u8; 16];
    let c2 = Cache::read(Some(&bytes), &other);
    assert!(!c2.is_valid);
    let c3 = Cache::read(Some(&bytes), &id);
    assert!(c3.is_valid);
}

#[test]
fn valid_cache_commits_nothing() {
    let id = build_id();
    let mut c = Cache::read(None, &id);
    let bytes = match c.update(false, &id) {
        CacheAction::Write(b) => b,
        _ => panic!("a missing file must be written"),
    };
    let mut c2 = Cache::read(Some(&bytes), &id);
    assert!(c2.is_valid);
    assert!(matches!(c2.update(true, &id), CacheAction::Keep));
}

// Cache invalidation lag: an invalidating change deletes the stale file
// on the next orchestration run; only the run after that, finding no
// file, writes a fresh valid image.
#[test]
fn cache_invalidation_takes_two_runs() {
    let id = build_id();

    // A fresh valid cache file for an empty package set.
    let (_, mut cache) = setup(vec![], None, "", "", None, &id, "/vimruntime");
    let first = match cache.update(false, &id) {
        CacheAction::Write(b) => b,
        _ => panic!("the first run must write a cache file"),
    };
    assert!(Cache::read(Some(&first), &id).is_valid);

    // The on-disk package set changes: the package directory option now
    // names a directory, so the stored fragment no longer answers.
    let (_, mut cache) = setup(vec![], None, "", "pp", Some(&first), &id, "/vimruntime");
    let act = cache.update(true, &id);
    assert!(matches!(act, CacheAction::Delete));

    // The next run finds no file, recomputes, and writes a valid image.
    let (_, mut cache) = setup(vec![], None, "", "pp", None, &id, "/vimruntime");
    let second = match cache.update(false, &id) {
        CacheAction::Write(b) => b,
        _ => panic!("the second run must write a cache file"),
    };
    let reread = Cache::read(Some(&second), &id);
    assert!(reread.is_valid);
    assert_eq!(reread.inner.package.packpath.as_str(), "pp");
}

#[test]
fn load_files_respects_filter() {
    let files = vec![
        File {
            loader: FileLoader::Script("source a\n".to_string()),
            name: Some("a".to_string()),
        },
        File {
            loader: FileLoader::Script("source b\n".to_string()),
            name: Some("b".to_string()),
        },
        File {
            loader: FileLoader::Script("source c\n".to_string()),
            name: None,
        },
    ];
    let filter = vec![("a".to_string(), false), ("b".to_string(), true)];
    let script = vlur::plugin::load_files(&files, Some(&filter));
    assert_eq!(script.as_str(), "source b\nsource c\n");
    let unfiltered = vlur::plugin::load_files(&files, None);
    assert_eq!(unfiltered.as_str(), "source a\nsource b\nsource c\n");
}

#[test]
fn newest_entry_shadows_equal_key() {
    let id = build_id();
    let mut c = Cache::read(None, &id);
    c.insert_runtimepath("k".to_string(), RuntimePath::new("/old"));
    c.insert_runtimepath("k".to_string(), RuntimePath::new("/new"));
    let got = c.get_runtimepath(&"k".to_string()).unwrap();
    assert_eq!(got.render().as_str(), "/new");
    assert!(c.get_runtimepath(&"absent".to_string()).is_none());
}

// The committed path is the host's path with the eager package's
// fragment merged in front (primary) and behind (overlay); here the
// fragment comes from a valid cache, so no disk is involved.
#[test]
fn setup_merges_cached_eager_fragment() {
    let id = build_id();
    let inner = Inner {
        id: id.clone(),
        package: Package {
            packpath: String::new(),
            runtimepath: RuntimePath::new(""),
        },
        runtimepaths: vec![(
            "pkg/root".to_string(),
            RuntimePath::new("pkg/root,pkg/root/after"),
        )],
        plugins: vec![],
    };
    let bytes = encode_inner(&inner);
    let plugins = vec![Plugin::new("pkg/root".to_string(), None, None)];
    let (plan, _) = setup(
        plugins,
        None,
        "/base,/base/after",
        "",
        Some(&bytes),
        &id,
        "/vimruntime",
    );
    assert_eq!(
        plan.rtp.as_str(),
        "pkg/root,/base,/base/after,pkg/root/after"
    );
    assert_eq!(plan.scripts.len(), 4);
}
