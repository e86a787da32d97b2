use hyctl::config::{
    add_account, load_full_config, remove_account, tokens_file_name, Account, Accounts, Config, ConfigError,
    Profile, Tokens, Version,
};

fn tokens(access: &str) -> Tokens {
    Tokens {
        access_token: access.to_string(),
        id_token: None,
        refresh_token: Some(format!("refresh-{access}")),
        expires_at: Some(1_700_000_000),
        scope: None,
    }
}

fn profile(uuid: &str, username: &str) -> Profile {
    Profile { uuid: uuid.to_string(), username: username.to_string() }
}

fn account(label: &str, client_id: &str, profiles: Vec<Profile>, default_profile: Option<&str>) -> Account {
    Account {
        label: label.to_string(),
        tokens: tokens(label),
        client_id: client_id.to_string(),
        profiles,
        default_profile: default_profile.map(|s| s.to_string()),
    }
}

fn version(channel: &str, build: &str) -> Version {
    Version { channel: channel.to_string(), build: build.to_string(), install_path: format!("/v/{build}") }
}

/// alice (default, launcher) has profiles Steve and Alex; bob (server) has
/// Alex too and Herobrine.
fn sample() -> Config {
    let mut cfg = Config::new();
    add_account(
        &mut cfg,
        account(
            "alice",
            "hytale-launcher",
            vec![profile("u-steve", "Steve"), profile("u-alex", "Alex")],
            Some("u-alex"),
        ),
    );
    add_account(
        &mut cfg,
        account("bob", "hytale-server", vec![profile("u-alex2", "Alex"), profile("u-hero", "Herobrine")], None),
    );
    cfg.default_account = Some("alice".to_string());
    cfg
}

#[test]
fn accounts_map_basics() {
    let mut accounts = Accounts::new();
    assert!(accounts.is_empty());
    assert_eq!(accounts.len(), 0);
    assert!(accounts.insert("a".to_string(), account("a", "c", vec![], None)).is_none());
    assert!(accounts.insert("b".to_string(), account("b", "c", vec![], None)).is_none());
    assert_eq!(accounts.len(), 2);
    let old = accounts.insert("a".to_string(), account("a", "c2", vec![], None)).unwrap();
    assert_eq!(old.client_id, "c");
    assert_eq!(accounts.len(), 2);
    assert_eq!(accounts.get("a").unwrap().client_id, "c2");
    assert!(accounts.contains_key("b"));
    assert!(!accounts.contains_key("z"));
    assert_eq!(accounts.labels(), vec!["a".to_string(), "b".to_string()]);
    assert_eq!(accounts.remove("a").unwrap().client_id, "c2");
    assert!(accounts.remove("a").is_none());
    assert_eq!(accounts.labels(), vec!["b".to_string()]);
}

#[test]
fn accounts_get_mut_changes_in_place() {
    let mut accounts = Accounts::new();
    accounts.insert("a".to_string(), account("a", "c", vec![], None));
    accounts.get_mut("a").unwrap().client_id = "changed".to_string();
    assert_eq!(accounts.get("a").unwrap().client_id, "changed");
    assert!(accounts.get_mut("nope").is_none());
}

#[test]
fn resolve_account_by_label_and_default() {
    let cfg = sample();
    assert_eq!(cfg.resolve_account(Some("bob")).unwrap().label, "bob");
    assert_eq!(cfg.resolve_account(None).unwrap().label, "alice");
    assert_eq!(cfg.resolve_account(Some("carol")).unwrap_err(), ConfigError::AccountNotFound("carol".to_string()));
}

#[test]
fn resolve_account_without_default() {
    let mut cfg = sample();
    cfg.default_account = None;
    assert_eq!(cfg.resolve_account(None).unwrap_err(), ConfigError::NoDefaultAccount);
    cfg.default_account = Some("ghost".to_string());
    assert_eq!(cfg.resolve_account(None).unwrap_err(), ConfigError::DefaultAccountNotFound("ghost".to_string()));
}

#[test]
fn resolve_account_mut_updates() {
    let mut cfg = sample();
    cfg.resolve_account_mut(None).unwrap().tokens.access_token = "fresh".to_string();
    assert_eq!(cfg.resolve_account(Some("alice")).unwrap().tokens.access_token, "fresh");
    cfg.resolve_account_mut(Some("bob")).unwrap().default_profile = Some("u-hero".to_string());
    assert_eq!(cfg.resolve_account(Some("bob")).unwrap().default_profile.as_deref(), Some("u-hero"));
    assert_eq!(cfg.resolve_account_mut(Some("x")).unwrap_err(), ConfigError::AccountNotFound("x".to_string()));
    cfg.default_account = None;
    assert_eq!(cfg.resolve_account_mut(None).unwrap_err(), ConfigError::NoDefaultAccount);
    cfg.default_account = Some("ghost".to_string());
    assert_eq!(cfg.resolve_account_mut(None).unwrap_err(), ConfigError::DefaultAccountNotFound("ghost".to_string()));
}

#[test]
fn find_profile_prefers_default_account() {
    let cfg = sample();
    let (a, p) = cfg.find_account_for_profile("Alex").unwrap();
    assert_eq!(a.label, "alice");
    assert_eq!(p.uuid, "u-alex");
    let (a, p) = cfg.find_account_for_profile("u-hero").unwrap();
    assert_eq!(a.label, "bob");
    assert_eq!(p.username, "Herobrine");
    assert!(cfg.find_account_for_profile("Nobody").is_none());
}

#[test]
fn find_profile_in_other_account_when_default_lacks_it() {
    let mut cfg = sample();
    cfg.default_account = Some("bob".to_string());
    let (a, p) = cfg.find_account_for_profile("Steve").unwrap();
    assert_eq!(a.label, "alice");
    assert_eq!(p.uuid, "u-steve");
    let (a, p) = cfg.find_account_for_profile("Alex").unwrap();
    assert_eq!(a.label, "bob");
    assert_eq!(p.uuid, "u-alex2");
}

#[test]
fn server_account_resolution() {
    let mut cfg = sample();
    assert_eq!(cfg.resolve_server_account().unwrap().label, "bob");
    add_account(&mut cfg, account("srv", "hytale-server", vec![], None));
    cfg.default_account = Some("srv".to_string());
    assert_eq!(cfg.resolve_server_account().unwrap().label, "srv");
    remove_account(&mut cfg, "srv");
    remove_account(&mut cfg, "bob");
    assert!(cfg.resolve_server_account().is_none());
}

#[test]
fn resolve_profile_named_and_default() {
    let cfg = sample();
    let alice = cfg.resolve_account(Some("alice")).unwrap();
    assert_eq!(cfg.resolve_profile(alice, Some("Steve")).unwrap().uuid, "u-steve");
    assert_eq!(cfg.resolve_profile(alice, Some("u-alex")).unwrap().username, "Alex");
    assert_eq!(cfg.resolve_profile(alice, None).unwrap().username, "Alex");
    assert_eq!(
        cfg.resolve_profile(alice, Some("Zed")).unwrap_err(),
        ConfigError::ProfileNotFound { profile: "Zed".to_string(), account: "alice".to_string() }
    );
    let bob = cfg.resolve_account(Some("bob")).unwrap();
    assert_eq!(
        cfg.resolve_profile(bob, None).unwrap_err(),
        ConfigError::NoDefaultProfile { account: "bob".to_string() }
    );
    let lost = account("lost", "c", vec![profile("a", "A")], Some("zzz"));
    assert_eq!(
        cfg.resolve_profile(&lost, None).unwrap_err(),
        ConfigError::DefaultProfileNotFound { uuid: "zzz".to_string(), account: "lost".to_string() }
    );
}

#[test]
fn default_profile_matches_uuid_only() {
    let cfg = sample();
    let odd = account("odd", "c", vec![profile("x", "u-1"), profile("u-1", "y")], Some("u-1"));
    assert_eq!(cfg.resolve_profile(&odd, None).unwrap().username, "y");
}

#[test]
fn add_then_resolve_reads_back() {
    let mut cfg = sample();
    add_account(&mut cfg, account("carol", "hytale-launcher", vec![profile("u-c", "Cee")], None));
    let carol = cfg.resolve_account(Some("carol")).unwrap();
    assert_eq!(carol.profiles[0].username, "Cee");
    assert_eq!(cfg.accounts.len(), 3);
    assert_eq!(cfg.default_account.as_deref(), Some("alice"));
}

#[test]
fn add_replaces_same_label() {
    let mut cfg = sample();
    add_account(&mut cfg, account("bob", "other", vec![], None));
    assert_eq!(cfg.accounts.len(), 2);
    assert_eq!(cfg.resolve_account(Some("bob")).unwrap().client_id, "other");
}

#[test]
fn remove_account_clears_default() {
    let mut cfg = sample();
    remove_account(&mut cfg, "alice");
    assert!(cfg.default_account.is_none());
    assert!(!cfg.accounts.contains_key("alice"));
    assert!(cfg.accounts.contains_key("bob"));
    let mut cfg = sample();
    remove_account(&mut cfg, "bob");
    assert_eq!(cfg.default_account.as_deref(), Some("alice"));
    remove_account(&mut cfg, "nobody");
    assert_eq!(cfg.accounts.len(), 1);
}

#[test]
fn load_full_config_attaches_tokens() {
    let cfg = sample();
    let loaded = load_full_config(
        cfg,
        vec![("bob".to_string(), tokens("bob-new")), ("ghost".to_string(), tokens("g"))],
    );
    assert_eq!(loaded.accounts.len(), 2);
    assert_eq!(loaded.accounts.get("bob").unwrap().tokens.access_token, "bob-new");
    assert_eq!(loaded.accounts.get("alice").unwrap().tokens.access_token, "alice");
    assert_eq!(loaded.accounts.get("bob").unwrap().profiles.len(), 2);
    assert_eq!(loaded.default_account.as_deref(), Some("alice"));
}

#[test]
fn tokens_file_names() {
    assert_eq!(tokens_file_name("a@b.c"), "tokens-a@b.c.json");
    assert_eq!(tokens_file_name(""), "tokens-.json");
}

#[test]
fn register_account_sets_default_once() {
    let mut cfg = Config::new();
    cfg.register_account(account("first", "hytale-launcher", vec![], None));
    assert_eq!(cfg.default_account.as_deref(), Some("first"));
    cfg.register_account(account("second", "hytale-launcher", vec![], None));
    assert_eq!(cfg.default_account.as_deref(), Some("first"));
    assert_eq!(cfg.resolve_account(None).unwrap().label, "first");
    assert_eq!(cfg.accounts.len(), 2);
}

#[test]
fn set_default_account_checks_label() {
    let mut cfg = sample();
    assert_eq!(cfg.set_default_account("bob"), Ok(()));
    assert_eq!(cfg.default_account.as_deref(), Some("bob"));
    assert_eq!(cfg.set_default_account("zed"), Err(ConfigError::AccountNotFound("zed".to_string())));
    assert_eq!(cfg.default_account.as_deref(), Some("bob"));
}

#[test]
fn record_version_replaces_and_sets_default() {
    let mut cfg = Config::new();
    cfg.record_version("release".to_string(), "1.0".to_string(), "/a".to_string());
    cfg.record_version("release".to_string(), "1.1".to_string(), "/b".to_string());
    assert_eq!(cfg.default_version.as_deref(), Some("1.0"));
    cfg.record_version("release".to_string(), "1.0".to_string(), "/c".to_string());
    let builds: Vec<&str> = cfg.versions.iter().map(|v| v.build.as_str()).collect();
    assert_eq!(builds, vec!["1.1", "1.0"]);
    assert_eq!(cfg.versions[1].install_path, "/c");
    assert_eq!(cfg.versions.iter().filter(|v| v.build == "1.0").count(), 1);
}

#[test]
fn untrack_version_behaviour() {
    let mut cfg = Config::new();
    cfg.versions = vec![version("release", "1.0"), version("release", "1.1"), version("release", "1.0")];
    cfg.default_version = Some("1.0".to_string());
    assert_eq!(cfg.untrack_version("2.0"), Err(ConfigError::VersionNotInstalled("2.0".to_string())));
    assert_eq!(cfg.versions.len(), 3);
    assert_eq!(cfg.untrack_version("1.0"), Ok(()));
    assert_eq!(cfg.versions.len(), 1);
    assert_eq!(cfg.versions[0].build, "1.1");
    assert!(cfg.default_version.is_none());
    assert!(cfg.find_version("1.0").is_none());
}

#[test]
fn find_version_first_match() {
    let mut cfg = Config::new();
    cfg.versions = vec![version("release", "1.0"), version("pre-release", "1.1")];
    assert_eq!(cfg.find_version("1.1").unwrap().channel, "pre-release");
    assert!(cfg.find_version("9").is_none());
}

#[test]
fn prune_keeps_last_and_fixes_default() {
    let mut cfg = Config::new();
    cfg.versions = vec![version("release", "1.0"), version("release", "1.1"), version("release", "1.2")];
    cfg.default_version = Some("1.0".to_string());
    let dropped = cfg.prune_versions().unwrap();
    assert_eq!(dropped.iter().map(|v| v.build.as_str()).collect::<Vec<_>>(), vec!["1.0", "1.1"]);
    assert_eq!(cfg.versions.len(), 1);
    assert_eq!(cfg.versions[0].build, "1.2");
    assert_eq!(cfg.default_version.as_deref(), Some("1.2"));
}

#[test]
fn prune_keeps_unrelated_default() {
    let mut cfg = Config::new();
    cfg.versions = vec![version("release", "1.0"), version("release", "1.1")];
    cfg.default_version = Some("other".to_string());
    cfg.prune_versions().unwrap();
    assert_eq!(cfg.default_version.as_deref(), Some("other"));
    let mut cfg = Config::new();
    cfg.versions = vec![version("release", "1.0")];
    cfg.default_version = Some("1.0".to_string());
    assert!(cfg.prune_versions().is_none());
    assert_eq!(cfg.versions.len(), 1);
}

#[test]
fn launch_identity_paths() {
    let cfg = sample();
    let (a, p) = cfg.launch_identity(Some("Herobrine")).unwrap();
    assert_eq!((a.label.as_str(), p.uuid.as_str()), ("bob", "u-hero"));
    let (a, p) = cfg.launch_identity(None).unwrap();
    assert_eq!((a.label.as_str(), p.uuid.as_str()), ("alice", "u-alex"));
    assert_eq!(
        cfg.launch_identity(Some("nobody")).unwrap_err(),
        ConfigError::ProfileNotInAnyAccount("nobody".to_string())
    );
    let mut cfg = sample();
    cfg.default_account = Some("bob".to_string());
    assert_eq!(cfg.launch_identity(None).unwrap_err(), ConfigError::NoDefaultProfile { account: "bob".to_string() });
}

#[test]
fn serve_account_paths() {
    let cfg = sample();
    assert_eq!(cfg.serve_account(Some("Herobrine")).unwrap().label, "bob");
    assert_eq!(cfg.serve_account(Some("Alex")).unwrap().label, "alice");
    assert_eq!(cfg.serve_account(None).unwrap().label, "alice");
    assert_eq!(cfg.serve_account(Some("x")).unwrap_err(), ConfigError::ProfileNotInAnyAccount("x".to_string()));
}

#[test]
fn version_spec_choice() {
    let mut cfg = Config::new();
    assert_eq!(cfg.version_spec(Some("1.2")), Ok("1.2"));
    assert_eq!(cfg.version_spec(None), Err(ConfigError::NoVersion));
    cfg.default_version = Some("1.0".to_string());
    assert_eq!(cfg.version_spec(None), Ok("1.0"));
    assert_eq!(cfg.version_spec(Some("2.0")), Ok("2.0"));
}

#[test]
fn token_entries_cover_accounts() {
    let cfg = sample();
    let entries = cfg.token_entries();
    assert_eq!(entries.len(), 2);
    for (label, t) in entries {
        assert_eq!(t.access_token, label);
    }
}

#[test]
fn signed_in_account_defaults_to_first_profile() {
    let a = Account::signed_in(
        "me@example.com".to_string(),
        tokens("at"),
        "hytale-launcher".to_string(),
        vec![profile("u-1", "One"), profile("u-2", "Two")],
    );
    assert_eq!(a.label, "me@example.com");
    assert_eq!(a.client_id, "hytale-launcher");
    assert_eq!(a.profiles.len(), 2);
    assert_eq!(a.default_profile.as_deref(), Some("u-1"));
    let b = Account::signed_in("x".to_string(), tokens("at"), "hytale-server".to_string(), vec![]);
    assert_eq!(b.default_profile, None);
    assert!(b.profiles.is_empty());
}
