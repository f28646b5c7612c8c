use ninjalauncher::catalog::merge;
use ninjalauncher::catalog::Version;
use ninjalauncher::catalog::VersionEntry;
use ninjalauncher::resolve::resolve;
use ninjalauncher::resolve::Arguments;
use ninjalauncher::resolve::Artifact;
use ninjalauncher::resolve::AssetIndex;
use ninjalauncher::resolve::ClassifierEntry;
use ninjalauncher::resolve::Downloads;
use ninjalauncher::resolve::LibDownload;
use ninjalauncher::resolve::Library;
use ninjalauncher::resolve::NativeEntry;
use ninjalauncher::resolve::OsName;
use ninjalauncher::resolve::OsSelector;
use ninjalauncher::resolve::Platform;
use ninjalauncher::resolve::ResolveError;
use ninjalauncher::resolve::Rule;
use ninjalauncher::resolve::RuleAction;
use ninjalauncher::resolve::VersionInfo;
use ninjalauncher::scan::select_installed;
use ninjalauncher::scan::ScanCandidate;
use ninjalauncher::text_order::str_lt;

fn local(name: &str) -> VersionEntry {
    VersionEntry {
        name: name.to_string(),
        installed: true,
    }
}

fn summary(id: &str, kind: &str) -> Version {
    Version {
        id: id.to_string(),
        kind: kind.to_string(),
        url: format!("https://example.invalid/{}.json", id),
        time: "2020-11-02T16:42:00+00:00".to_string(),
        release_time: "2020-11-02T16:42:00+00:00".to_string(),
    }
}

fn artifact(path: &str) -> Artifact {
    Artifact {
        path: path.to_string(),
        sha1: "da39a3ee5e6b4b0d3255bfef95601890afd80709".to_string(),
        size: 42,
        url: format!("https://example.invalid/{}", path),
    }
}

fn plain_library(name: &str, rules: Vec<Rule>) -> Library {
    Library {
        name: name.to_string(),
        downloads: LibDownload {
            artifact: artifact(&format!("{}.jar", name)),
            classifiers: Vec::new(),
        },
        rules,
        natives: Vec::new(),
        extract_exclude: Vec::new(),
    }
}

fn manifest(libraries: Vec<Library>) -> VersionInfo {
    VersionInfo {
        id: "1.16.4".to_string(),
        arguments: Arguments {
            game: Vec::new(),
            jvm: Vec::new(),
        },
        asset_index: Some(AssetIndex {
            id: "1.16".to_string(),
            sha1: "3d8e55480977e32acd9844e545177e69a52f594b".to_string(),
            size: 295227,
            total_size: 330604420,
            url: "https://example.invalid/1.16.json".to_string(),
        }),
        assets: "1.16".to_string(),
        compliance_level: 1,
        downloads: Downloads {
            client: Some(artifact("client.jar")),
            server: None,
        },
        logging: String::new(),
        libraries,
        main_class: "net.minecraft.client.main.Main".to_string(),
        minimum_launcher_version: 21,
        release_time: "2020-11-02T16:42:00+00:00".to_string(),
        time: "2020-11-02T16:42:00+00:00".to_string(),
        kind: "release".to_string(),
    }
}

fn names_and_flags(entries: &[VersionEntry]) -> Vec<(String, bool)> {
    entries
        .iter()
        .map(|e| (e.name.clone(), e.installed))
        .collect()
}

#[test]
fn merge_end_to_end_scenario() {
    let local_entries = vec![local("1.16.4")];
    let remote = vec![
        summary("1.16.4", "release"),
        summary("1.17", "release"),
        summary("1.17-pre1", "snapshot"),
    ];
    let merged = merge(local_entries, &remote);
    assert_eq!(
        names_and_flags(&merged),
        vec![
            ("1.16.4".to_string(), true),
            ("1.17".to_string(), false),
        ]
    );
}

#[test]
fn merge_is_deterministic() {
    let remote = vec![
        summary("1.8.9", "release"),
        summary("1.12.2", "release"),
        summary("20w14infinite", "snapshot"),
    ];
    let first = merge(vec![local("1.12.2"), local("b1.7.3")], &remote);
    let second = merge(vec![local("1.12.2"), local("b1.7.3")], &remote);
    assert_eq!(names_and_flags(&first), names_and_flags(&second));
}

#[test]
fn merge_local_wins_over_remote() {
    let merged = merge(vec![local("1.17")], &vec![summary("1.17", "release")]);
    assert_eq!(names_and_flags(&merged), vec![("1.17".to_string(), true)]);
}

#[test]
fn merge_result_is_sorted_and_unique() {
    let remote = vec![
        summary("1.9", "release"),
        summary("1.10", "release"),
        summary("1.9", "release"),
        summary("1.1", "release"),
    ];
    let merged = merge(vec![local("1.5"), local("1.10")], &remote);
    assert_eq!(
        names_and_flags(&merged),
        vec![
            ("1.1".to_string(), false),
            ("1.10".to_string(), true),
            ("1.5".to_string(), true),
            ("1.9".to_string(), false),
        ]
    );
}

#[test]
fn merge_filters_non_release_channels() {
    let remote = vec![
        summary("1.17-pre1", "snapshot"),
        summary("b1.7.3", "old_beta"),
        summary("rd-132211", "old_alpha"),
    ];
    let merged = merge(Vec::new(), &remote);
    assert!(merged.is_empty());
}

#[test]
fn merge_keeps_locally_installed_snapshot() {
    let remote = vec![summary("1.17-pre1", "snapshot")];
    let merged = merge(vec![local("1.17-pre1")], &remote);
    assert_eq!(
        names_and_flags(&merged),
        vec![("1.17-pre1".to_string(), true)]
    );
}

#[test]
fn merge_of_empty_inputs_is_empty() {
    let merged = merge(Vec::new(), &Vec::new());
    assert!(merged.is_empty());
}

#[test]
fn scan_reports_only_complete_installs() {
    let candidates = vec![
        ScanCandidate {
            name: "A".to_string(),
            has_jar: true,
            has_json: true,
        },
        ScanCandidate {
            name: "B".to_string(),
            has_jar: true,
            has_json: false,
        },
        ScanCandidate {
            name: "C".to_string(),
            has_jar: false,
            has_json: true,
        },
        ScanCandidate {
            name: "D".to_string(),
            has_jar: false,
            has_json: false,
        },
    ];
    let entries = select_installed(&candidates);
    assert_eq!(names_and_flags(&entries), vec![("A".to_string(), true)]);
}

#[test]
fn scan_of_empty_directory_is_empty() {
    let entries = select_installed(&Vec::new());
    assert!(entries.is_empty());
}

#[test]
fn rule_order_excludes_windows_and_keeps_linux() {
    let rules = vec![
        Rule {
            action: RuleAction::Allow,
            os: OsSelector::AnyOs,
        },
        Rule {
            action: RuleAction::Disallow,
            os: OsSelector::OsIs(OsName::Windows),
        },
    ];
    let m = manifest(vec![plain_library("org.lwjgl:lwjgl:3.2.2", rules)]);

    let on_windows = resolve(&m, &Platform { os: OsName::Windows }).unwrap_or_else(|_| panic!());
    let windows_paths: Vec<String> = on_windows.iter().map(|r| r.artifact.path.clone()).collect();
    assert_eq!(
        windows_paths,
        vec!["client.jar".to_string(), "1.16".to_string()]
    );

    let on_linux = resolve(&m, &Platform { os: OsName::Linux }).unwrap_or_else(|_| panic!());
    let linux_paths: Vec<String> = on_linux.iter().map(|r| r.artifact.path.clone()).collect();
    assert_eq!(
        linux_paths,
        vec![
            "client.jar".to_string(),
            "1.16".to_string(),
            "org.lwjgl:lwjgl:3.2.2.jar".to_string(),
        ]
    );
}

#[test]
fn missing_asset_index_is_always_an_error() {
    let mut m = manifest(vec![plain_library("com.mojang:brigadier:1.0.17", Vec::new())]);
    m.asset_index = None;
    for os in [OsName::Windows, OsName::Linux, OsName::Osx] {
        match resolve(&m, &Platform { os }) {
            Ok(_) => panic!("missing asset index must not resolve"),
            Err(e) => assert_eq!(e, ResolveError::UnsupportedPlatform),
        }
    }
}

#[test]
fn missing_client_jar_is_an_error() {
    let mut m = manifest(Vec::new());
    m.downloads.client = None;
    match resolve(&m, &Platform { os: OsName::Linux }) {
        Ok(_) => panic!("missing main jar must not resolve"),
        Err(e) => assert_eq!(e, ResolveError::UnsupportedPlatform),
    }
}

#[test]
fn native_classifier_is_emitted_with_extraction() {
    let mut lib = plain_library("org.lwjgl:lwjgl:3.2.2", Vec::new());
    lib.downloads.classifiers = vec![
        ClassifierEntry {
            key: "natives-linux".to_string(),
            artifact: artifact("lwjgl-natives-linux.jar"),
        },
        ClassifierEntry {
            key: "natives-windows".to_string(),
            artifact: artifact("lwjgl-natives-windows.jar"),
        },
    ];
    lib.natives = vec![
        NativeEntry {
            os: OsName::Linux,
            classifier: "natives-linux".to_string(),
        },
        NativeEntry {
            os: OsName::Windows,
            classifier: "natives-windows".to_string(),
        },
    ];
    lib.extract_exclude = vec!["META-INF/".to_string()];
    let m = manifest(vec![lib]);

    let resolved = resolve(&m, &Platform { os: OsName::Linux }).unwrap_or_else(|_| panic!());
    assert_eq!(resolved.len(), 4);
    assert_eq!(resolved[2].artifact.path, "org.lwjgl:lwjgl:3.2.2.jar");
    assert!(!resolved[2].native);
    assert_eq!(resolved[3].artifact.path, "lwjgl-natives-linux.jar");
    assert!(resolved[3].native);
    assert_eq!(resolved[3].exclude, vec!["META-INF/".to_string()]);

    let on_mac = resolve(&m, &Platform { os: OsName::Osx }).unwrap_or_else(|_| panic!());
    assert_eq!(on_mac.len(), 3);
    assert!(!on_mac[2].native);
}

#[test]
fn disallow_without_matching_platform_keeps_library() {
    let rules = vec![Rule {
        action: RuleAction::Disallow,
        os: OsSelector::OsIs(OsName::Osx),
    }];
    let m = manifest(vec![plain_library("ca.weblite:java-objc-bridge:1.0.0", rules)]);
    let on_mac = resolve(&m, &Platform { os: OsName::Osx }).unwrap_or_else(|_| panic!());
    assert_eq!(on_mac.len(), 2);
    let on_linux = resolve(&m, &Platform { os: OsName::Linux }).unwrap_or_else(|_| panic!());
    assert_eq!(on_linux.len(), 3);
}

#[test]
fn string_order_is_lexicographic() {
    assert!(str_lt("1.16.4", "1.17"));
    assert!(str_lt("1.10", "1.9"));
    assert!(str_lt("", "a"));
    assert!(!str_lt("abc", "abc"));
    assert!(str_lt("abc", "abcd"));
    assert!(!str_lt("abcd", "abc"));
}
