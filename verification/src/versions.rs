//! Version specifications: channel names, build names, and how a
//! specification resolves against the newest build of its channel.
use vstd::prelude::*;
use crate::text::{chars_of, contains_chars, contains_text, str_eq, string_of, strip_prefix_chars, strip_prefix_of};

verus! {

/// Whether `s` names a release channel rather than a build.
pub fn is_channel(s: &str) -> (res: bool)
    ensures
        res == (s@ == "release"@ || s@ == "pre-release"@),
{
    str_eq(s, "release") || str_eq(s, "pre-release")
}

/// The channel a build belongs to: pre-release when its name contains
/// `-pre`, release otherwise.
pub open spec fn channel_of(version: Seq<char>) -> Seq<char> {
    if contains_text(version, "-pre"@) {
        "pre-release"@
    } else {
        "release"@
    }
}

/// The channel a build belongs to.
pub fn infer_channel(version: &str) -> (res: &'static str)
    ensures
        res@ == channel_of(version@),
{
    let v = chars_of(version);
    let marker = chars_of("-pre");
    if contains_chars(&v, &marker) {
        "pre-release"
    } else {
        "release"
    }
}

/// A build name without the `{channel}@` prefix it may carry.
pub open spec fn without_channel(s: Seq<char>, channel: Seq<char>) -> Seq<char> {
    match strip_prefix_of(s, channel + "@"@) {
        Some(r) => r,
        None => s,
    }
}

/// A build name without the `{channel}@` prefix it may carry.
pub fn strip_channel_prefix(s: &str, channel: &str) -> (res: String)
    ensures
        res@ == without_channel(s@, channel@),
{
    let mut prefix = String::from_str(channel);
    prefix.append("@");
    let sc = chars_of(s);
    let pc = chars_of(prefix.as_str());
    match strip_prefix_chars(&sc, &pc) {
        Some(rest) => string_of(&rest),
        None => s.to_owned(),
    }
}

/// A version specification resolved to a channel and a build; the build
/// number is known when the build is its channel's newest (only then can
/// it be installed).
#[derive(Debug, PartialEq, Eq)]
pub struct ResolvedBuild {
    pub channel: String,
    pub build: String,
    pub number: Option<u32>,
}

/// Resolves a channel name to its newest build, given the channel's newest
/// version string and number.
pub fn resolve_channel_build(channel: &str, newest_version: &str, number: u32) -> (res: ResolvedBuild)
    ensures
        res.channel@ == channel@,
        res.build@ == without_channel(newest_version@, channel@),
        res.number == Some(number),
{
    ResolvedBuild {
        channel: channel.to_owned(),
        build: strip_channel_prefix(newest_version, channel),
        number: Some(number),
    }
}

/// Resolves a build name: its channel is inferred from the name, and its
/// number is known when the channel's newest build (if it could be fetched)
/// is that build.
pub fn resolve_named_build(spec: &str, newest: Option<(String, u32)>) -> (res: ResolvedBuild)
    ensures
        res.channel@ == channel_of(spec@),
        res.build@ == without_channel(spec@, channel_of(spec@)),
        res.number == match newest {
            Some((v, n)) => if without_channel(v@, channel_of(spec@)) == without_channel(spec@, channel_of(spec@)) {
                Some(n)
            } else {
                None
            },
            None => None,
        },
{
    let channel = infer_channel(spec);
    let build = strip_channel_prefix(spec, channel);
    let number = match newest {
        Some((v, n)) => {
            let newest_build = strip_channel_prefix(v.as_str(), channel);
            if str_eq(newest_build.as_str(), build.as_str()) {
                Some(n)
            } else {
                None
            }
        },
        None => None,
    };
    ResolvedBuild { channel: channel.to_owned(), build, number }
}

/// Whether an installed version passes verification: its client binary or
/// its server jar (or both) is present.
pub fn installation_ok(client_present: bool, server_present: bool) -> (res: bool)
    ensures
        res == (client_present || server_present),
{
    client_present || server_present
}

/// A build name given with its channel prefix loses exactly that prefix.
pub proof fn law_channel_prefix_stripped(channel: Seq<char>, build: Seq<char>)
    ensures
        without_channel(channel + "@"@ + build, channel) == build,
{
    let p = channel + "@"@;
    let s = channel + "@"@ + build;
    assert(s.take(p.len() as int) =~= p);
    assert(s.skip(p.len() as int) =~= build);
}

} // verus!
