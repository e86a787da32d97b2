//! Downloads: choosing the full-install patch, naming temporary files, and
//! the addresses of the JRE archives and build manifests.
use vstd::prelude::*;
use crate::text::{push_decimal, decimal, str_eq};

verus! {

/// The JRE version installed when a game build bundles none.
pub fn jre_default_version() -> (res: &'static str)
    ensures
        res@ == "25.0.2_10"@,
{
    "25.0.2_10"
}

/// One step of a patch set: the patch that takes build `from` to build `to`.
#[derive(Debug)]
pub struct PatchStep {
    pub from: u32,
    pub to: u32,
    /// Address of the `.pwr` patch file.
    pub pwr: String,
}

/// What the launcher data says of one channel.
#[derive(Debug)]
pub struct PatchlineInfo {
    /// The newest build's version string.
    pub build_version: String,
    /// The newest build's number.
    pub newest: u32,
}

/// Why a download could not be planned.
#[derive(Debug, PartialEq, Eq)]
pub enum DownloadError {
    /// The launcher data lists no such channel.
    UnknownChannel(String),
    /// The patch set has no step from build 0.
    NoFullInstallStep(u32),
    /// The version response carries no manifest address.
    NoManifestUrl,
}

/// The newest build of `channel` in the launcher data's patchlines: its
/// version string and number.
pub fn patchline_build(patchlines: &Vec<(String, PatchlineInfo)>, channel: &str) -> (res: Result<(String, u32), DownloadError>)
    ensures
        match res {
            Ok((v, n)) => exists|i: int| 0 <= i < patchlines@.len() && patchlines@[i].0@ == channel@
                && patchlines@[i].1.build_version@ == v@ && patchlines@[i].1.newest == n
                && forall|j: int| 0 <= j < i ==> (#[trigger] patchlines@[j]).0@ != channel@,
            Err(e) => e matches DownloadError::UnknownChannel(c) && c@ == channel@
                && forall|j: int| 0 <= j < patchlines@.len() ==> (#[trigger] patchlines@[j]).0@ != channel@,
        },
{
    let mut i: usize = 0;
    while i < patchlines.len()
        invariant
            i <= patchlines@.len(),
            forall|j: int| 0 <= j < i ==> (#[trigger] patchlines@[j]).0@ != channel@,
        decreases patchlines@.len() - i,
    {
        if str_eq(patchlines[i].0.as_str(), channel) {
            return Ok((patchlines[i].1.build_version.clone(), patchlines[i].1.newest));
        }
        i = i + 1;
    }
    Err(DownloadError::UnknownChannel(channel.to_owned()))
}

/// The first step of a patch set that starts from build 0: the patch that
/// installs build `build_number` from nothing.
pub fn full_install_step(steps: Vec<PatchStep>, build_number: u32) -> (res: Result<PatchStep, DownloadError>)
    ensures
        match res {
            Ok(s) => exists|i: int| 0 <= i < steps@.len() && steps@[i] == s && s.from == 0
                && forall|j: int| 0 <= j < i ==> (#[trigger] steps@[j]).from != 0,
            Err(e) => e == DownloadError::NoFullInstallStep(build_number)
                && forall|j: int| 0 <= j < steps@.len() ==> (#[trigger] steps@[j]).from != 0,
        },
{
    let mut list = steps;
    let mut i: usize = 0;
    while i < list.len()
        invariant
            list@ == steps@,
            i <= list@.len(),
            forall|j: int| 0 <= j < i ==> (#[trigger] list@[j]).from != 0,
        decreases list@.len() - i,
    {
        if list[i].from == 0 {
            let ghost before = list@;
            let step = list.swap_remove(i);
            assert(before[i as int] == step);
            assert(forall|j: int| 0 <= j < i ==> (#[trigger] steps@[j]).from != 0);
            return Ok(step);
        }
        i = i + 1;
    }
    Err(DownloadError::NoFullInstallStep(build_number))
}

/// The name of the temporary patch file for a build: `{channel}-{build}.pwr`.
pub fn patch_file_name(channel: &str, build_number: u32) -> (res: String)
    ensures
        res@ == channel@ + "-"@ + decimal(build_number as nat) + ".pwr"@,
{
    let mut name = String::from_str(channel);
    name.append("-");
    push_decimal(&mut name, build_number as u64);
    name.append(".pwr");
    name
}

/// The address of the JRE archive of a version, for Linux on amd64.
pub fn jre_archive_url(version: &str) -> (res: String)
    ensures
        res@ == "https://launcher.hytale.com/redist/jre/linux/amd64/jre-"@ + version@ + ".tar.gz"@,
{
    let mut url = String::from_str("https://launcher.hytale.com/redist/jre/linux/amd64/jre-");
    url.append(version);
    url.append(".tar.gz");
    url
}

/// The name of the temporary file the JRE archive is downloaded to.
pub fn jre_tarball_name(version: &str) -> (res: String)
    ensures
        res@ == "hyctl-jre-"@ + version@ + ".tar.gz"@,
{
    let mut name = String::from_str("hyctl-jre-");
    name.append(version);
    name.append(".tar.gz");
    name
}

/// The address of a build manifest: the version response's `url`, else its
/// `target`.
pub fn manifest_url(url: Option<String>, target: Option<String>) -> (res: Result<String, DownloadError>)
    ensures
        match url {
            Some(u) => res == Ok::<String, DownloadError>(u),
            None => match target {
                Some(t) => res == Ok::<String, DownloadError>(t),
                None => res == Err::<String, DownloadError>(DownloadError::NoManifestUrl),
            },
        },
{
    match url {
        Some(u) => Ok(u),
        None => match target {
            Some(t) => Ok(t),
            None => Err(DownloadError::NoManifestUrl),
        },
    }
}

/// The address of the patch set that leads to `build_number`.
pub fn patch_set_url(os: &str, arch: &str, channel: &str, build_number: u32) -> (res: String)
    ensures
        res@ == "https://account-data.hytale.com/patches/"@ + os@ + "/"@ + arch@ + "/"@ + channel@ + "/"@
            + decimal(build_number as nat),
{
    let mut url = String::from_str("https://account-data.hytale.com/patches/");
    url.append(os);
    url.append("/");
    url.append(arch);
    url.append("/");
    url.append(channel);
    url.append("/");
    push_decimal(&mut url, build_number as u64);
    url
}

/// The address of the version information of a patchline.
pub fn version_info_url(patchline: &str) -> (res: String)
    ensures
        res@ == "https://account-data.hytale.com/game-assets/version/"@ + patchline@ + ".json"@,
{
    let mut url = String::from_str("https://account-data.hytale.com/game-assets/version/");
    url.append(patchline);
    url.append(".json");
    url
}

/// The path components an entry of the runtime archive is unpacked to: its
/// components without the archive's top-level directory. `None` for the
/// top-level directory itself (or an empty path), which is skipped.
pub fn strip_top_dir<T>(components: Vec<T>) -> (res: Option<Vec<T>>)
    ensures
        match res {
            Some(rest) => components@.len() > 1 && rest@ == components@.drop_first(),
            None => components@.len() <= 1,
        },
{
    if components.len() <= 1 {
        return None;
    }
    let mut rest = components;
    rest.remove(0);
    assert(rest@ =~= components@.drop_first());
    Some(rest)
}

} // verus!
