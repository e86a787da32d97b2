//! Starting the game client and the dedicated server: which Java runtime
//! to use, the client's command line and the search paths they run with.
use vstd::prelude::*;
use crate::config::Profile;
use crate::session::SessionTokens;

verus! {

/// Where a Java runtime was found.
#[derive(Debug, Clone, Copy, PartialEq, Eq)]
pub enum JreLocation {
    /// The runtime bundled with the game build (`jre/bin/java` in it).
    Bundled,
    /// The runtime shared by all builds (`jre/bin/java` in the data directory).
    Shared,
}

/// The Java runtime to use, given which of the two candidates exist: the
/// bundled one first. `None` when neither exists.
pub fn find_jre(bundled_exists: bool, shared_exists: bool) -> (res: Option<JreLocation>)
    ensures
        res == if bundled_exists {
            Some(JreLocation::Bundled)
        } else if shared_exists {
            Some(JreLocation::Shared)
        } else {
            None
        },
{
    if bundled_exists {
        Some(JreLocation::Bundled)
    } else if shared_exists {
        Some(JreLocation::Shared)
    } else {
        None
    }
}

/// The views of a list of strings.
pub open spec fn strings_view(v: Seq<String>) -> Seq<Seq<char>> {
    v.map_values(|s: String| s@)
}

/// The client's arguments after its directories: authenticated mode, the
/// profile, the session tokens, the server and world to open when given,
/// then the extra arguments.
pub open spec fn client_session_args_of(
    profile: Profile,
    session: SessionTokens,
    server: Option<Seq<char>>,
    world: Option<Seq<char>>,
    extra: Seq<Seq<char>>,
) -> Seq<Seq<char>> {
    seq![
        "--auth-mode"@, "authenticated"@,
        "--uuid"@, profile.uuid@,
        "--name"@, profile.username@,
        "--session-token"@, session.session_token@,
        "--identity-token"@, session.identity_token@,
    ] + match server {
        Some(s) => seq!["--server"@, s],
        None => Seq::empty(),
    } + match world {
        Some(w) => seq!["--world"@, w],
        None => Seq::empty(),
    } + extra
}

/// An optional string slice taken as an optional character sequence.
pub open spec fn opt_str(o: Option<&str>) -> Option<Seq<char>> {
    match o {
        Some(s) => Some(s@),
        None => None,
    }
}

/// The client's arguments after its directories.
pub fn client_session_args(
    profile: &Profile,
    session: &SessionTokens,
    server: Option<&str>,
    world: Option<&str>,
    extra_args: &[String],
) -> (res: Vec<String>)
    ensures
        strings_view(res@) == client_session_args_of(*profile, *session, opt_str(server), opt_str(world), strings_view(extra_args@)),
{
    let mut args: Vec<String> = Vec::new();
    args.push(String::from_str("--auth-mode"));
    args.push(String::from_str("authenticated"));
    args.push(String::from_str("--uuid"));
    args.push(profile.uuid.clone());
    args.push(String::from_str("--name"));
    args.push(profile.username.clone());
    args.push(String::from_str("--session-token"));
    args.push(session.session_token.clone());
    args.push(String::from_str("--identity-token"));
    args.push(session.identity_token.clone());
    let ghost base = strings_view(args@);
    if let Some(s) = server {
        args.push(String::from_str("--server"));
        args.push(s.to_owned());
    }
    let ghost with_server = strings_view(args@);
    assert(with_server =~= base + match opt_str(server) {
        Some(s) => seq!["--server"@, s],
        None => Seq::<Seq<char>>::empty(),
    });
    if let Some(w) = world {
        args.push(String::from_str("--world"));
        args.push(w.to_owned());
    }
    let ghost with_world = strings_view(args@);
    assert(with_world =~= with_server + match opt_str(world) {
        Some(w) => seq!["--world"@, w],
        None => Seq::<Seq<char>>::empty(),
    });
    let mut i: usize = 0;
    while i < extra_args.len()
        invariant
            i <= extra_args@.len(),
            strings_view(args@) == with_world + strings_view(extra_args@.take(i as int)),
        decreases extra_args@.len() - i,
    {
        let ghost before = args@;
        let item = extra_args[i].clone();
        args.push(item);
        assert(strings_view(args@) =~= strings_view(before).push(extra_args@[i as int]@));
        assert(strings_view(extra_args@.take(i + 1)) =~= strings_view(extra_args@.take(i as int)).push(extra_args@[i as int]@));
        assert(strings_view(args@) =~= with_world + strings_view(extra_args@.take(i + 1)));
        i = i + 1;
    }
    assert(extra_args@.take(extra_args@.len() as int) =~= extra_args@);
    args
}

/// The library search path the client runs with: its own directory, in
/// front of the existing path when there is one.
pub fn library_path(client_dir: &str, existing: &str) -> (res: String)
    ensures
        res@ == if existing@.len() == 0 {
            client_dir@
        } else {
            client_dir@ + ":"@ + existing@
        },
{
    let mut path = String::from_str(client_dir);
    if !existing.is_empty() {
        path.append(":");
        path.append(existing);
    }
    path
}

/// The executable search path a server start script runs with: the Java
/// runtime's directory in front of the existing path.
pub fn search_path(jre_bin_dir: &str, existing: &str) -> (res: String)
    ensures
        res@ == jre_bin_dir@ + ":"@ + existing@,
{
    let mut path = String::from_str(jre_bin_dir);
    path.append(":");
    path.append(existing);
    path
}

/// The dedicated server's arguments. With a start script (`Some(script)`)
/// the server runs as `bash` on the script, followed by the extra
/// arguments; else it runs on Java as `-jar` with the server jar, then
/// `--assets` with the assets archive, then the extra arguments.
pub open spec fn server_args_of(
    start_script: Option<Seq<char>>,
    server_jar: Seq<char>,
    assets: Seq<char>,
    extra: Seq<Seq<char>>,
) -> Seq<Seq<char>> {
    match start_script {
        Some(script) => seq![script] + extra,
        None => seq!["-jar"@, server_jar, "--assets"@, assets] + extra,
    }
}

/// The dedicated server's arguments.
pub fn server_args(start_script: Option<&str>, server_jar: &str, assets: &str, extra_args: &[String]) -> (res: Vec<String>)
    ensures
        strings_view(res@) == server_args_of(opt_str(start_script), server_jar@, assets@, strings_view(extra_args@)),
{
    let mut args: Vec<String> = Vec::new();
    match start_script {
        Some(script) => {
            args.push(script.to_owned());
        },
        None => {
            args.push(String::from_str("-jar"));
            args.push(server_jar.to_owned());
            args.push(String::from_str("--assets"));
            args.push(assets.to_owned());
        },
    }
    let ghost base = strings_view(args@);
    assert(base =~= match opt_str(start_script) {
        Some(script) => seq![script],
        None => seq!["-jar"@, server_jar@, "--assets"@, assets@],
    });
    let mut i: usize = 0;
    while i < extra_args.len()
        invariant
            i <= extra_args@.len(),
            strings_view(args@) == base + strings_view(extra_args@.take(i as int)),
        decreases extra_args@.len() - i,
    {
        let ghost before = args@;
        let item = extra_args[i].clone();
        args.push(item);
        assert(strings_view(args@) =~= strings_view(before).push(extra_args@[i as int]@));
        assert(strings_view(extra_args@.take(i + 1)) =~= strings_view(extra_args@.take(i as int)).push(extra_args@[i as int]@));
        assert(strings_view(args@) =~= base + strings_view(extra_args@.take(i + 1)));
        i = i + 1;
    }
    assert(extra_args@.take(extra_args@.len() as int) =~= extra_args@);
    args
}

/// The client's arguments always end with the extra arguments, in order,
/// after exactly what the same call without extra arguments gives,
/// whatever the server and world are.
pub proof fn law_client_args_end_with_extra(
    profile: Profile,
    session: SessionTokens,
    server: Option<Seq<char>>,
    world: Option<Seq<char>>,
    extra: Seq<Seq<char>>,
)
    ensures
        client_session_args_of(profile, session, server, world, extra)
            == client_session_args_of(profile, session, server, world, Seq::empty()) + extra,
        ({
            let args = client_session_args_of(profile, session, server, world, extra);
            args.subrange(args.len() - extra.len(), args.len() as int) == extra
        }),
{
    let base = client_session_args_of(profile, session, server, world, Seq::empty());
    assert(client_session_args_of(profile, session, server, world, extra) =~= base + extra);
    let args = base + extra;
    assert(args.subrange(args.len() - extra.len(), args.len() as int) =~= extra);
}

/// The server's arguments always end with the extra arguments, in order,
/// after exactly what the same call without extra arguments gives.
pub proof fn law_server_args_end_with_extra(
    start_script: Option<Seq<char>>,
    server_jar: Seq<char>,
    assets: Seq<char>,
    extra: Seq<Seq<char>>,
)
    ensures
        server_args_of(start_script, server_jar, assets, extra)
            == server_args_of(start_script, server_jar, assets, Seq::empty()) + extra,
{
    assert(server_args_of(start_script, server_jar, assets, extra)
        =~= server_args_of(start_script, server_jar, assets, Seq::empty()) + extra);
}

} // verus!
