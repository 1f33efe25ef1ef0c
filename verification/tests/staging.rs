use flex_updater_mc::mc_java::extract_major_version;
use flex_updater_mc::mc_java::find_manifest_url;
use flex_updater_mc::mc_java::java_executable_path;
use flex_updater_mc::mc_java::platform_key;
use flex_updater_mc::mc_java::ready_runtime_step;
use flex_updater_mc::mc_java::McJava;
use flex_updater_mc::mc_java::RuntimeStep;
use flex_updater_mc::props::parse_properties;
use flex_updater_mc::props::render_properties;
use flex_updater_mc::props::set_property;
use flex_updater_mc::stage::eula_bytes;
use flex_updater_mc::stage::launch_command;
use flex_updater_mc::stage::staged_properties;
use flex_updater_mc::stage::ServerRunOptions;
use flex_updater_mc::vanilla::find_version;
use flex_updater_mc::vanilla::java_component_or_default;
use flex_updater_mc::vanilla::query_versions;
use flex_updater_mc::vanilla::server_download_url;
use flex_updater_mc::vanilla::McVanillaVersionQuery;
use flex_updater_mc::vanilla::McVanillaVersionType;
use flex_updater_mc::vanilla::VersionDetails;
use flex_updater_mc::vanilla::VersionInfo;
use flex_updater_mc::vanilla::VersionManifest;

#[test]
fn test_properties_overlay_and_render() {
    let input = b"#comment\nmotd=hello\nserver-port=25565\n";
    let out = staged_properties(input, 4321, 5, 1000);
    let text = String::from_utf8(out.clone()).unwrap();
    assert!(text.contains("motd=hello\n"));
    assert!(text.contains("online-mode=false\n"));
    assert!(text.contains("server-port=4321\n"));
    assert!(text.contains("view-distance=5\n"));
    assert!(text.contains("gamemode=creative\n"));
    assert!(text.contains("allow-flight=true\n"));
    assert!(text.contains("max-players=1000\n"));
    assert!(!text.contains("server-port=25565"));
}

#[test]
fn test_properties_second_overlay_is_stable() {
    let input = b"a=1\nserver-port=1\n";
    let once = staged_properties(input, 7777, 5, 1000);
    let twice = staged_properties(&once, 7777, 5, 1000);
    assert_eq!(once, twice);
}

#[test]
fn test_properties_parse_render_round_trip() {
    let mut m = parse_properties(b"k1=v1\n#note\nk2=left=right\nbare\n");
    assert_eq!(m.len(), 3);
    assert_eq!(m[0], (b"k1".to_vec(), b"v1".to_vec()));
    assert_eq!(m[1], (b"k2".to_vec(), b"left=right".to_vec()));
    assert_eq!(m[2], (b"bare".to_vec(), b"".to_vec()));
    set_property(&mut m, b"k1", b"v2");
    let rendered = render_properties(&m);
    let parsed_again = parse_properties(&rendered);
    assert_eq!(m, parsed_again);
}

#[test]
fn test_eula_contents() {
    assert_eq!(eula_bytes(), b"eula=true".to_vec());
}

#[test]
fn test_launch_command_with_memory_options() {
    let opts = ServerRunOptions { max_memory: Some(2048), initial_memory: Some(1024) };
    let args = launch_command(&opts);
    assert_eq!(args, vec!["-Xmx2048M", "-Xms1024M", "-jar", "server.jar", "nogui"]);
}

#[test]
fn test_command_factory_minimal_options() {
    let opts = ServerRunOptions::default();
    let args = launch_command(&opts);
    assert!(!args.iter().any(|a| a.starts_with("-Xmx")));
    assert!(!args.iter().any(|a| a.starts_with("-Xms")));
    assert_eq!(args, vec!["-jar", "server.jar", "nogui"]);
}

#[test]
fn test_find_version_and_downloads() {
    let manifest = VersionManifest {
        versions: vec![
            VersionInfo {
                id: "1.20.1".to_string(),
                version_type: "release".to_string(),
                url: "https://example.com/1.20.1.json".to_string(),
            },
            VersionInfo {
                id: "23w18a".to_string(),
                version_type: "snapshot".to_string(),
                url: "https://example.com/23w18a.json".to_string(),
            },
        ],
    };
    let found = find_version(&manifest, "1.20.1").unwrap();
    assert_eq!(found.url, "https://example.com/1.20.1.json");
    assert!(find_version(&manifest, "1.19.4").is_err());

    let with_server = VersionDetails {
        server_url: Some("https://example.com/server.jar".to_string()),
        java_component: Some("java-runtime-gamma".to_string()),
    };
    assert_eq!(server_download_url(&with_server).unwrap(), "https://example.com/server.jar");
    assert_eq!(java_component_or_default(&with_server), "java-runtime-gamma");

    let without_server = VersionDetails { server_url: None, java_component: None };
    assert!(server_download_url(&without_server).is_err());
    assert_eq!(java_component_or_default(&without_server), "jre-legacy");
}

#[test]
fn test_query_versions_filters_by_channel() {
    let manifest = VersionManifest {
        versions: vec![
            VersionInfo {
                id: "1.20.1".to_string(),
                version_type: "release".to_string(),
                url: "u1".to_string(),
            },
            VersionInfo {
                id: "23w18a".to_string(),
                version_type: "snapshot".to_string(),
                url: "u2".to_string(),
            },
            VersionInfo {
                id: "1.19.4".to_string(),
                version_type: "release".to_string(),
                url: "u3".to_string(),
            },
        ],
    };
    let all = query_versions(&manifest, &McVanillaVersionQuery::All);
    assert_eq!(all.len(), 3);
    assert_eq!(all[0].version.id(), "1.20.1");
    assert_eq!(all[1].version.id(), "23w18a");
    assert_eq!(all[2].version.id(), "1.19.4");
    assert_eq!(all[1].version_type, McVanillaVersionType::Snapshot);

    let releases = query_versions(&manifest, &McVanillaVersionQuery::Release);
    assert_eq!(releases.len(), 2);
    assert_eq!(releases[0].version.id(), "1.20.1");
    assert_eq!(releases[1].version.id(), "1.19.4");

    let snapshots = query_versions(&manifest, &McVanillaVersionQuery::Snapshot);
    assert_eq!(snapshots.len(), 1);
    assert_eq!(snapshots[0].version.id(), "23w18a");
}

#[test]
fn test_extract_major_version() {
    assert_eq!(extract_major_version("17.0.1"), 17);
    assert_eq!(extract_major_version("11.0.16"), 11);
    assert_eq!(extract_major_version("8u352"), 8);
    assert_eq!(extract_major_version("invalid"), 8);
}

#[test]
fn test_platform_keys() {
    assert_eq!(platform_key("linux", "x86_64").unwrap(), "linux");
    assert_eq!(platform_key("linux", "x86").unwrap(), "linux-i386");
    assert_eq!(platform_key("macos", "aarch64").unwrap(), "mac-os-arm64");
    assert_eq!(platform_key("macos", "x86_64").unwrap(), "mac-os");
    assert_eq!(platform_key("windows", "x86_64").unwrap(), "windows-x64");
    assert_eq!(platform_key("windows", "x86").unwrap(), "windows-x86");
    assert_eq!(platform_key("windows", "aarch64").unwrap(), "windows-arm64");
    assert!(platform_key("plan9", "mips").is_err());
}

#[test]
fn test_ready_runtime_is_idempotent_once_cached() {
    // First call: nothing cached, so the resolver must install.
    let first = ready_runtime_step(false, "cache", "java-runtime-gamma", false);
    assert_eq!(first, RuntimeStep::Install);
    // Second call with the runtime present: the cached path comes back
    // and no fetch happens.
    let second = ready_runtime_step(true, "cache", "java-runtime-gamma", false);
    match second {
        RuntimeStep::UseCached(p) => {
            assert_eq!(p, "cache/java-runtime-gamma/bin/java");
        }
        RuntimeStep::Install => panic!("a cached runtime must not be reinstalled"),
    }
    // And the answer is stable across calls.
    let third = ready_runtime_step(true, "cache", "java-runtime-gamma", false);
    match third {
        RuntimeStep::UseCached(p) => assert_eq!(p, "cache/java-runtime-gamma/bin/java"),
        RuntimeStep::Install => panic!("a cached runtime must not be reinstalled"),
    }
    assert_eq!(
        java_executable_path("cache", "id", true),
        "cache/id/bin/java.exe"
    );
}

#[test]
fn test_find_manifest_url_matches_platform_and_id() {
    let rows = vec![
        (
            "linux".to_string(),
            "java-runtime-alpha".to_string(),
            "https://example.com/runtime-alpha.json".to_string(),
            "17.0.1".to_string(),
        ),
        (
            "windows-x64".to_string(),
            "java-runtime-alpha".to_string(),
            "https://example.com/win.json".to_string(),
            "17.0.1".to_string(),
        ),
    ];
    assert_eq!(
        find_manifest_url(&rows, "linux", "java-runtime-alpha").unwrap(),
        "https://example.com/runtime-alpha.json"
    );
    assert!(find_manifest_url(&rows, "linux", "java-runtime-beta").is_none());
    let java = McJava::new("java-runtime-alpha".to_string(), 17);
    assert_eq!(java.version_id(), "java-runtime-alpha");
    assert_eq!(java.major_version(), 17);
}
