use hyctl::cli::install_spec;
use hyctl::config::Profile;
use hyctl::download::{
    full_install_step, jre_archive_url, jre_default_version, jre_tarball_name, manifest_url, patch_file_name,
    patch_set_url, patchline_build, strip_top_dir, version_info_url, DownloadError, PatchStep, PatchlineInfo,
};
use hyctl::launch::{client_session_args, find_jre, library_path, search_path, server_args, JreLocation};
use hyctl::text::str_eq;
use hyctl::session::{session_url, SessionTokens};
use hyctl::versions::{
    infer_channel, installation_ok, is_channel, resolve_channel_build, resolve_named_build, strip_channel_prefix,
    ResolvedBuild,
};

fn step(from: u32, to: u32, pwr: &str) -> PatchStep {
    PatchStep { from, to, pwr: pwr.to_string() }
}

#[test]
fn default_jre_version() {
    assert_eq!(jre_default_version(), "25.0.2_10");
}

#[test]
fn full_install_step_is_first_from_zero() {
    let s = full_install_step(vec![step(3, 4, "a"), step(0, 4, "b"), step(0, 4, "c")], 4).unwrap();
    assert_eq!(s.pwr, "b");
    assert_eq!(
        full_install_step(vec![step(3, 4, "a")], 4).unwrap_err(),
        DownloadError::NoFullInstallStep(4)
    );
    assert_eq!(full_install_step(vec![], 7).unwrap_err(), DownloadError::NoFullInstallStep(7));
}

#[test]
fn patchline_lookup() {
    let lines = vec![
        ("release".to_string(), PatchlineInfo { build_version: "release@1.0".to_string(), newest: 12 }),
        ("pre-release".to_string(), PatchlineInfo { build_version: "pre-release@1.1-pre".to_string(), newest: 13 }),
    ];
    assert_eq!(patchline_build(&lines, "pre-release"), Ok(("pre-release@1.1-pre".to_string(), 13)));
    assert_eq!(patchline_build(&lines, "beta"), Err(DownloadError::UnknownChannel("beta".to_string())));
}

#[test]
fn file_names_and_urls() {
    assert_eq!(patch_file_name("release", 0), "release-0.pwr");
    assert_eq!(patch_file_name("release", 1234), "release-1234.pwr");
    assert_eq!(patch_file_name("pre-release", u32::MAX), "pre-release-4294967295.pwr");
    assert_eq!(jre_archive_url("25.0.2_10"), "https://launcher.hytale.com/redist/jre/linux/amd64/jre-25.0.2_10.tar.gz");
    assert_eq!(jre_tarball_name("25.0.2_10"), "hyctl-jre-25.0.2_10.tar.gz");
    assert_eq!(patch_set_url("linux", "amd64", "release", 40), "https://account-data.hytale.com/patches/linux/amd64/release/40");
    assert_eq!(version_info_url("release"), "https://account-data.hytale.com/game-assets/version/release.json");
    assert_eq!(session_url(), "https://sessions.hytale.com/game-session/new");
}

#[test]
fn manifest_url_choice() {
    assert_eq!(manifest_url(Some("u".to_string()), Some("t".to_string())), Ok("u".to_string()));
    assert_eq!(manifest_url(None, Some("t".to_string())), Ok("t".to_string()));
    assert_eq!(manifest_url(None, None), Err(DownloadError::NoManifestUrl));
}

#[test]
fn jre_choice() {
    assert_eq!(find_jre(true, true), Some(JreLocation::Bundled));
    assert_eq!(find_jre(false, true), Some(JreLocation::Shared));
    assert_eq!(find_jre(false, false), None);
}

#[test]
fn client_args() {
    let p = Profile { uuid: "u1".to_string(), username: "Steve".to_string() };
    let s = SessionTokens { session_token: "st".to_string(), identity_token: "it".to_string(), expires_at: None };
    let extra = vec!["--fullscreen".to_string()];
    assert_eq!(
        client_session_args(&p, &s, Some("play.example"), None, &extra),
        vec![
            "--auth-mode", "authenticated", "--uuid", "u1", "--name", "Steve", "--session-token", "st",
            "--identity-token", "it", "--server", "play.example", "--fullscreen",
        ]
    );
    assert_eq!(
        client_session_args(&p, &s, None, Some("w"), &[]),
        vec![
            "--auth-mode", "authenticated", "--uuid", "u1", "--name", "Steve", "--session-token", "st",
            "--identity-token", "it", "--world", "w",
        ]
    );
}

#[test]
fn search_paths() {
    assert_eq!(library_path("/game/Client", ""), "/game/Client");
    assert_eq!(library_path("/game/Client", "/usr/lib"), "/game/Client:/usr/lib");
    assert_eq!(search_path("/jre/bin", "/usr/bin"), "/jre/bin:/usr/bin");
    assert_eq!(search_path("/jre/bin", ""), "/jre/bin:");
}

#[test]
fn channels() {
    assert!(is_channel("release"));
    assert!(is_channel("pre-release"));
    assert!(!is_channel("Release"));
    assert_eq!(infer_channel("2026.01.1-pre"), "pre-release");
    assert_eq!(infer_channel("pre-release@1.0"), "release");
    assert_eq!(infer_channel("2026.01.1"), "release");
    assert_eq!(infer_channel("-pr"), "release");
}

#[test]
fn strip_prefixes() {
    assert_eq!(strip_channel_prefix("release@1.0", "release"), "1.0");
    assert_eq!(strip_channel_prefix("1.0", "release"), "1.0");
    assert_eq!(strip_channel_prefix("release1.0", "release"), "release1.0");
    assert_eq!(strip_channel_prefix("rel", "release"), "rel");
}

#[test]
fn resolve_builds() {
    assert_eq!(
        resolve_channel_build("release", "release@2026.1", 40),
        ResolvedBuild { channel: "release".to_string(), build: "2026.1".to_string(), number: Some(40) }
    );
    assert_eq!(
        resolve_named_build("release@2026.1", Some(("release@2026.1".to_string(), 40))),
        ResolvedBuild { channel: "release".to_string(), build: "2026.1".to_string(), number: Some(40) }
    );
    assert_eq!(
        resolve_named_build("2026.0", Some(("release@2026.1".to_string(), 40))),
        ResolvedBuild { channel: "release".to_string(), build: "2026.0".to_string(), number: None }
    );
    assert_eq!(
        resolve_named_build("2026.2-pre", None),
        ResolvedBuild { channel: "pre-release".to_string(), build: "2026.2-pre".to_string(), number: None }
    );
}

#[test]
fn install_checks() {
    assert!(installation_ok(true, false));
    assert!(installation_ok(false, true));
    assert!(!installation_ok(false, false));
    assert_eq!(install_spec(None), "release");
    assert_eq!(install_spec(Some("1.0")), "1.0");
}

#[test]
fn strip_top_dir_drops_the_first_component() {
    assert_eq!(strip_top_dir(vec!["jdk-25", "bin", "java"]), Some(vec!["bin", "java"]));
    assert_eq!(strip_top_dir(vec!["jdk-25"]), None);
    assert_eq!(strip_top_dir(Vec::<&str>::new()), None);
}

#[test]
fn server_args_with_and_without_script() {
    let extra = vec!["--bind".to_string(), "0.0.0.0:5520".to_string()];
    assert_eq!(
        server_args(None, "/g/Server/HytaleServer.jar", "/g/Assets.zip", &extra),
        vec!["-jar", "/g/Server/HytaleServer.jar", "--assets", "/g/Assets.zip", "--bind", "0.0.0.0:5520"]
    );
    assert_eq!(
        server_args(Some("/g/start.sh"), "/g/Server/HytaleServer.jar", "/g/Assets.zip", &extra),
        vec!["/g/start.sh", "--bind", "0.0.0.0:5520"]
    );
    assert_eq!(server_args(None, "j", "a", &[]), vec!["-jar", "j", "--assets", "a"]);
}

#[test]
fn str_eq_compares_characters() {
    assert!(str_eq("release", "release"));
    assert!(!str_eq("release", "releases"));
    assert!(!str_eq("é", "e"));
    assert!(str_eq("", ""));
}
