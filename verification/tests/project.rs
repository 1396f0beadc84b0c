use aube::dirs::{cache_dir, global_links_dir, store_dir, DirEnvironment, JoinedDir};
use aube::error::Error;
use aube::host::Host;
use aube::path::PathComponent;
use aube::text::{replaced, whitespace};
use aube::workspace::{config_failure, find_workspace_packages, manifest_pattern, ConfigError};

fn env(xdg: Option<&str>, local: Option<&str>, home: Option<&str>) -> DirEnvironment {
    DirEnvironment {
        xdg_cache_home: xdg.map(str::to_string),
        local_app_data: local.map(str::to_string),
        home: home.map(str::to_string),
    }
}

fn joined(dir: Option<JoinedDir>) -> Option<String> {
    dir.map(|d| format!("{}|{}", d.base, d.joined.join("|")))
}

fn some(text: &str) -> Option<String> {
    Some(text.to_string())
}

#[test]
fn cache_directory() {
    let all = env(Some("/x"), Some("/l"), Some("/h"));
    assert_eq!(joined(cache_dir(Host::Unix, &all)), some("/x|aube"));
    assert_eq!(joined(cache_dir(Host::Windows, &all)), some("/x|aube"));
    let no_xdg = env(None, Some("/l"), Some("/h"));
    assert_eq!(joined(cache_dir(Host::Windows, &no_xdg)), some("/l|aube"));
    assert_eq!(joined(cache_dir(Host::Unix, &no_xdg)), some("/h|.cache/aube"));
    assert_eq!(joined(cache_dir(Host::Other, &no_xdg)), some("/h|.cache/aube"));
    let no_home = env(None, Some("/l"), None);
    assert_eq!(joined(cache_dir(Host::Unix, &no_home)), None);
    let home = env(None, None, Some("/h"));
    assert_eq!(joined(cache_dir(Host::Windows, &home)), some("/h|.cache/aube"));
}

#[test]
fn directories_beside_the_cache() {
    let all = env(Some("/x"), Some("/l"), Some("/h"));
    assert_eq!(joined(global_links_dir(Host::Unix, &all)), some("/x|aube|global-links"));
    let none = env(None, None, None);
    assert_eq!(joined(global_links_dir(Host::Windows, &none)), None);
    assert_eq!(joined(store_dir(Host::Unix, &all)), some("/h|.aube-store/v1/files"));
    assert_eq!(joined(store_dir(Host::Windows, &all)), some("/l|aube-store/v1/files"));
    let home = env(None, None, Some("/h"));
    assert_eq!(joined(store_dir(Host::Windows, &home)), some("/h|.aube-store/v1/files"));
    let xdg = env(Some("/x"), None, None);
    assert_eq!(joined(store_dir(Host::Unix, &xdg)), None);
}

fn normal(names: &[&str]) -> Vec<PathComponent<String>> {
    names.iter().map(|n| PathComponent::Normal(n.to_string())).collect()
}

#[test]
fn workspace_packages_are_the_directories_of_manifests() {
    let found = vec![
        Some(vec![
            Some(normal(&["p", "b", "package.json"])),
            None,
            Some(normal(&["p", "a", "package.json"])),
        ]),
        None,
        Some(vec![Some(vec![PathComponent::RootDir]), Some(normal(&["p", "b", "package.json"]))]),
    ];
    assert_eq!(
        find_workspace_packages(found),
        vec![normal(&["p", "b"]), normal(&["p", "a"]), normal(&["p", "b"])]
    );
    let nothing: Vec<Option<Vec<Option<Vec<PathComponent<String>>>>>> = Vec::new();
    assert!(find_workspace_packages(nothing).is_empty());
    assert_eq!(
        manifest_pattern("packages/*"),
        vec!["packages/*".to_string(), "package.json".to_string()]
    );
}

#[test]
fn configuration_failures() {
    let fail = |e: ConfigError<String, String>| config_failure(e, "dir".to_string()).message();
    assert_eq!(fail(ConfigError::Io("f".to_string(), "gone".to_string())), "I/O error at f: gone");
    assert_eq!(
        fail(ConfigError::YamlParse("f".to_string(), "bad".to_string())),
        "failed to parse f: bad"
    );
    assert_eq!(fail(ConfigError::Other("odd".to_string())), "failed to parse dir: odd");
    let kept: Error<u8, u8> = config_failure(ConfigError::Io(1, 2), 3);
    assert!(matches!(kept, Error::Io(1, 2)));
}

#[test]
fn whitespace_is_that_of_unicode() {
    for c in '\0'..=char::MAX {
        assert_eq!(whitespace(c), c.is_whitespace(), "{c:?}");
    }
}

#[test]
fn replacing_characters() {
    assert_eq!(replaced("a\\b\\\u{e9}", '\\', '/'), "a/b/\u{e9}");
    assert_eq!(replaced("", 'a', 'b'), "");
}
