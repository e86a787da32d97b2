//! The wharf patch format (`.pwr`) used to install game builds.
//!
//! A patch file is:
//!   1. the magic number `0x0FEF5F00`, four bytes little-endian;
//!   2. a length-prefixed `PatchHeader` message whose field 1 holds the
//!      `CompressionSettings` (field 1: algorithm, 1 = brotli);
//!   3. the rest of the file, brotli-compressed, holding length-prefixed
//!      messages: the target container (empty for a fresh install), the
//!      source container (the file listing), then for each file entry a sync
//!      header followed by sync operations up to the end marker 2049.
use vstd::prelude::*;
use std::io::Read;
use crate::protobuf::{
    ProtoError, key_at, varint_at, bytes_at, string_at, skip_at, frame_at, stream_frame_at, lemma_readers_advance,
    lemma_readers_shift, varint_group, varint_encoding, law_varint_round_trip, lemma_varint_shift,
    read_key, read_varint_at, read_bytes, read_string, skip_field, read_framed_bytes, read_framed,
};

verus! {

// ── Message specifications ─────────────────────────────────────────────

/// The compression algorithm recorded in a `CompressionSettings` message,
/// reading fields from `pos` with `algo` as the value found so far: the last
/// varint field 1 wins, other fields are skipped, and 0 stands for none.
pub open spec fn compression_algorithm_from(data: Seq<u8>, pos: int, algo: u64) -> Result<u64, ProtoError>
    decreases data.len() - pos,
{
    if pos >= data.len() {
        Ok(algo)
    } else {
        let (k, p1) = key_at(data, pos);
        match k {
            Err(e) => Err(e),
            Ok((field, wire)) => {
                proof {
                    if 0 <= pos {
                        lemma_readers_advance(data, pos, wire);
                        lemma_readers_advance(data, p1, wire);
                    }
                }
                if field == 1 && wire == 0 {
                    let (v, p2) = varint_at(data, p1);
                    match v {
                        Err(e) => Err(e),
                        Ok(a) => compression_algorithm_from(data, p2, a),
                    }
                } else {
                    let (r, p2) = skip_at(data, p1, wire);
                    match r {
                        Err(e) => Err(e),
                        Ok(_) => compression_algorithm_from(data, p2, algo),
                    }
                }
            },
        }
    }
}

/// The compression algorithm of a `PatchHeader`, reading fields from `pos`:
/// the last field 1 (a `CompressionSettings` message) wins.
pub open spec fn header_algorithm_from(data: Seq<u8>, pos: int, algo: u64) -> Result<u64, ProtoError>
    decreases data.len() - pos,
{
    if pos >= data.len() {
        Ok(algo)
    } else {
        let (k, p1) = key_at(data, pos);
        match k {
            Err(e) => Err(e),
            Ok((field, wire)) => {
                proof {
                    if 0 <= pos {
                        lemma_readers_advance(data, pos, wire);
                        lemma_readers_advance(data, p1, wire);
                    }
                }
                if field == 1 && wire == 2 {
                    let (b, p2) = bytes_at(data, p1);
                    match b {
                        Err(e) => Err(e),
                        Ok((s, e)) => match compression_algorithm_from(data.subrange(s, e), 0, 0) {
                            Err(err) => Err(err),
                            Ok(a) => header_algorithm_from(data, p2, a),
                        },
                    }
                } else {
                    let (r, p2) = skip_at(data, p1, wire);
                    match r {
                        Err(e) => Err(e),
                        Ok(_) => header_algorithm_from(data, p2, algo),
                    }
                }
            },
        }
    }
}

/// A `SyncOp` read from `pos`: its type (varint field 1) and data (bytes
/// field 5), each the last one present, 0 and empty when absent.
pub open spec fn sync_op_from(data: Seq<u8>, pos: int, op: u64, payload: Seq<u8>) -> Result<(u64, Seq<u8>), ProtoError>
    decreases data.len() - pos,
{
    if pos >= data.len() {
        Ok((op, payload))
    } else {
        let (k, p1) = key_at(data, pos);
        match k {
            Err(e) => Err(e),
            Ok((field, wire)) => {
                proof {
                    if 0 <= pos {
                        lemma_readers_advance(data, pos, wire);
                        lemma_readers_advance(data, p1, wire);
                    }
                }
                if field == 1 && wire == 0 {
                    let (v, p2) = varint_at(data, p1);
                    match v {
                        Err(e) => Err(e),
                        Ok(t) => sync_op_from(data, p2, t, payload),
                    }
                } else if field == 5 && wire == 2 {
                    let (b, p2) = bytes_at(data, p1);
                    match b {
                        Err(e) => Err(e),
                        Ok((s, e)) => sync_op_from(data, p2, op, data.subrange(s, e)),
                    }
                } else {
                    let (r, p2) = skip_at(data, p1, wire);
                    match r {
                        Err(e) => Err(e),
                        Ok(_) => sync_op_from(data, p2, op, payload),
                    }
                }
            },
        }
    }
}

/// A `tlc.File` or `tlc.Dir` read leniently from `pos`: its path (string
/// field 1) and mode (varint field 2). A key that cannot be read ends the
/// message; a path that cannot be read becomes empty, a mode 0o644.
pub open spec fn tlc_file_from(data: Seq<u8>, pos: int, path: Seq<char>, mode: u64) -> (Seq<char>, u64)
    decreases data.len() - pos,
{
    if pos >= data.len() {
        (path, mode)
    } else {
        let (k, p1) = key_at(data, pos);
        match k {
            Err(_) => (path, mode),
            Ok((field, wire)) => {
                proof {
                    if 0 <= pos {
                        lemma_readers_advance(data, pos, wire);
                        lemma_readers_advance(data, p1, wire);
                    }
                }
                if field == 1 && wire == 2 {
                    let (r, p2) = string_at(data, p1);
                    tlc_file_from(
                        data,
                        p2,
                        match r {
                            Ok(s) => s,
                            Err(_) => Seq::empty(),
                        },
                        mode,
                    )
                } else if field == 2 && wire == 0 {
                    let (r, p2) = varint_at(data, p1);
                    tlc_file_from(
                        data,
                        p2,
                        path,
                        match r {
                            Ok(v) => v,
                            Err(_) => 0o644,
                        },
                    )
                } else {
                    let (_, p2) = skip_at(data, p1, wire);
                    tlc_file_from(data, p2, path, mode)
                }
            },
        }
    }
}

/// A `tlc.Symlink` read leniently from `pos`: its path (string field 1) and
/// destination (string field 3), each empty when absent or unreadable.
pub open spec fn tlc_symlink_from(data: Seq<u8>, pos: int, path: Seq<char>, dest: Seq<char>) -> (Seq<char>, Seq<char>)
    decreases data.len() - pos,
{
    if pos >= data.len() {
        (path, dest)
    } else {
        let (k, p1) = key_at(data, pos);
        match k {
            Err(_) => (path, dest),
            Ok((field, wire)) => {
                proof {
                    if 0 <= pos {
                        lemma_readers_advance(data, pos, wire);
                        lemma_readers_advance(data, p1, wire);
                    }
                }
                if field == 1 && wire == 2 {
                    let (r, p2) = string_at(data, p1);
                    tlc_symlink_from(
                        data,
                        p2,
                        match r {
                            Ok(s) => s,
                            Err(_) => Seq::empty(),
                        },
                        dest,
                    )
                } else if field == 3 && wire == 2 {
                    let (r, p2) = string_at(data, p1);
                    tlc_symlink_from(
                        data,
                        p2,
                        path,
                        match r {
                            Ok(s) => s,
                            Err(_) => Seq::empty(),
                        },
                    )
                } else {
                    let (_, p2) = skip_at(data, p1, wire);
                    tlc_symlink_from(data, p2, path, dest)
                }
            },
        }
    }
}

/// An entry of the source container.
#[derive(Debug, PartialEq, Eq)]
pub enum ContainerEntry {
    Dir(String),
    File { path: String, mode: u32 },
    Symlink { from: String, to: String },
}

/// A container entry with its strings taken as character sequences.
pub enum EntryModel {
    Dir(Seq<char>),
    File { path: Seq<char>, mode: u32 },
    Symlink { from: Seq<char>, to: Seq<char> },
}

impl View for ContainerEntry {
    type V = EntryModel;

    open spec fn view(&self) -> EntryModel {
        match self {
            ContainerEntry::Dir(p) => EntryModel::Dir(p@),
            ContainerEntry::File { path, mode } => EntryModel::File { path: path@, mode: *mode },
            ContainerEntry::Symlink { from, to } => EntryModel::Symlink { from: from@, to: to@ },
        }
    }
}

/// The entries of a `tlc.Container` read from `pos` after `entries`: files
/// (field 1), directories (field 2) and symlinks (field 3), in order; other
/// fields are skipped.
pub open spec fn container_from(data: Seq<u8>, pos: int, entries: Seq<EntryModel>) -> Result<Seq<EntryModel>, ProtoError>
    decreases data.len() - pos,
{
    if pos >= data.len() {
        Ok(entries)
    } else {
        let (k, p1) = key_at(data, pos);
        match k {
            Err(e) => Err(e),
            Ok((field, wire)) => {
                proof {
                    if 0 <= pos {
                        lemma_readers_advance(data, pos, wire);
                        lemma_readers_advance(data, p1, wire);
                    }
                }
                if wire == 2 && 1 <= field <= 3 {
                    let (b, p2) = bytes_at(data, p1);
                    match b {
                        Err(e) => Err(e),
                        Ok((s, e)) => {
                            let ed = data.subrange(s, e);
                            let entry = if field == 1 {
                                let (path, mode) = tlc_file_from(ed, 0, Seq::empty(), 0o644);
                                EntryModel::File { path, mode: #[verifier::truncate] (mode as u32) }
                            } else if field == 2 {
                                EntryModel::Dir(tlc_file_from(ed, 0, Seq::empty(), 0o644).0)
                            } else {
                                let (from, to) = tlc_symlink_from(ed, 0, Seq::empty(), Seq::empty());
                                EntryModel::Symlink { from, to }
                            };
                            container_from(data, p2, entries.push(entry))
                        },
                    }
                } else {
                    let (r, p2) = skip_at(data, p1, wire);
                    match r {
                        Err(e) => Err(e),
                        Ok(_) => container_from(data, p2, entries),
                    }
                }
            },
        }
    }
}

// ── Message parsers ─────────────────────────────────────────────────────

/// Parses a `CompressionSettings` message and returns its algorithm.
pub fn parse_compression_settings(data: &[u8]) -> (res: Result<u64, ProtoError>)
    ensures
        res == compression_algorithm_from(data@, 0, 0),
{
    let mut pos: usize = 0;
    let mut algo: u64 = 0;
    while pos < data.len()
        invariant
            pos <= data@.len(),
            compression_algorithm_from(data@, 0, 0) == compression_algorithm_from(data@, pos as int, algo),
        decreases data@.len() - pos,
    {
        let ghost p0 = pos as int;
        let (field, wire) = read_key(data, &mut pos)?;
        proof {
            lemma_readers_advance(data@, p0, wire);
            lemma_readers_advance(data@, pos as int, wire);
        }
        if field == 1 && wire == 0 {
            algo = read_varint_at(data, &mut pos)?;
        } else {
            skip_field(data, &mut pos, wire)?;
        }
    }
    Ok(algo)
}

/// Parses a `PatchHeader` message and returns the compression algorithm of
/// its settings (0 when it has none).
pub fn parse_patch_header(data: &[u8]) -> (res: Result<u64, ProtoError>)
    ensures
        res == header_algorithm_from(data@, 0, 0),
{
    let mut pos: usize = 0;
    let mut algo: u64 = 0;
    while pos < data.len()
        invariant
            pos <= data@.len(),
            header_algorithm_from(data@, 0, 0) == header_algorithm_from(data@, pos as int, algo),
        decreases data@.len() - pos,
    {
        let ghost p0 = pos as int;
        let (field, wire) = read_key(data, &mut pos)?;
        proof {
            lemma_readers_advance(data@, p0, wire);
            lemma_readers_advance(data@, pos as int, wire);
        }
        if field == 1 && wire == 2 {
            let settings = read_bytes(data, &mut pos)?;
            algo = parse_compression_settings(settings)?;
        } else {
            skip_field(data, &mut pos, wire)?;
        }
    }
    Ok(algo)
}

/// Parses a `SyncOp` message into its type and data.
pub fn parse_sync_op(data: &[u8]) -> (res: Result<(u64, Vec<u8>), ProtoError>)
    ensures
        match sync_op_from(data@, 0, 0, Seq::empty()) {
            Ok((t, d)) => res matches Ok((rt, rd)) && rt == t && rd@ == d,
            Err(e) => res == Err::<(u64, Vec<u8>), ProtoError>(e),
        },
{
    let mut pos: usize = 0;
    let mut op_type: u64 = 0;
    let mut payload: Vec<u8> = Vec::new();
    while pos < data.len()
        invariant
            pos <= data@.len(),
            sync_op_from(data@, 0, 0, Seq::empty()) == sync_op_from(data@, pos as int, op_type, payload@),
        decreases data@.len() - pos,
    {
        let ghost p0 = pos as int;
        let (field, wire) = read_key(data, &mut pos)?;
        proof {
            lemma_readers_advance(data@, p0, wire);
            lemma_readers_advance(data@, pos as int, wire);
        }
        if field == 1 && wire == 0 {
            op_type = read_varint_at(data, &mut pos)?;
        } else if field == 5 && wire == 2 {
            payload = vstd::slice::slice_to_vec(read_bytes(data, &mut pos)?);
        } else {
            skip_field(data, &mut pos, wire)?;
        }
    }
    Ok((op_type, payload))
}

/// Parses a `tlc.File` or `tlc.Dir` message into its path and mode, leniently.
pub fn parse_tlc_file(data: &[u8]) -> (res: (String, u64))
    ensures
        (res.0@, res.1) == tlc_file_from(data@, 0, Seq::empty(), 0o644),
{
    let mut pos: usize = 0;
    let mut path = String::new();
    let mut mode: u64 = 0o644;
    while pos < data.len()
        invariant
            pos <= data@.len(),
            tlc_file_from(data@, 0, Seq::empty(), 0o644) == tlc_file_from(data@, pos as int, path@, mode),
        decreases data@.len() - pos,
    {
        let ghost p0 = pos as int;
        let (field, wire) = match read_key(data, &mut pos) {
            Ok(k) => k,
            Err(_) => return (path, mode),
        };
        proof {
            lemma_readers_advance(data@, p0, wire);
            lemma_readers_advance(data@, pos as int, wire);
        }
        if field == 1 && wire == 2 {
            path = match read_string(data, &mut pos) {
                Ok(s) => s,
                Err(_) => String::new(),
            };
        } else if field == 2 && wire == 0 {
            mode = match read_varint_at(data, &mut pos) {
                Ok(v) => v,
                Err(_) => 0o644,
            };
        } else {
            let _ = skip_field(data, &mut pos, wire);
        }
    }
    (path, mode)
}

/// Parses a `tlc.Symlink` message into its path and destination, leniently.
pub fn parse_tlc_symlink(data: &[u8]) -> (res: (String, String))
    ensures
        (res.0@, res.1@) == tlc_symlink_from(data@, 0, Seq::empty(), Seq::empty()),
{
    let mut pos: usize = 0;
    let mut path = String::new();
    let mut dest = String::new();
    while pos < data.len()
        invariant
            pos <= data@.len(),
            tlc_symlink_from(data@, 0, Seq::empty(), Seq::empty()) == tlc_symlink_from(data@, pos as int, path@, dest@),
        decreases data@.len() - pos,
    {
        let ghost p0 = pos as int;
        let (field, wire) = match read_key(data, &mut pos) {
            Ok(k) => k,
            Err(_) => return (path, dest),
        };
        proof {
            lemma_readers_advance(data@, p0, wire);
            lemma_readers_advance(data@, pos as int, wire);
        }
        if field == 1 && wire == 2 {
            path = match read_string(data, &mut pos) {
                Ok(s) => s,
                Err(_) => String::new(),
            };
        } else if field == 3 && wire == 2 {
            dest = match read_string(data, &mut pos) {
                Ok(s) => s,
                Err(_) => String::new(),
            };
        } else {
            let _ = skip_field(data, &mut pos, wire);
        }
    }
    (path, dest)
}

/// The views of a list of container entries.
pub open spec fn entries_view(v: Seq<ContainerEntry>) -> Seq<EntryModel> {
    v.map_values(|e: ContainerEntry| e@)
}

/// Parses a `tlc.Container` message into its list of entries.
pub fn parse_container(data: &[u8]) -> (res: Result<Vec<ContainerEntry>, ProtoError>)
    ensures
        match container_from(data@, 0, Seq::empty()) {
            Ok(es) => res matches Ok(v) && entries_view(v@) == es,
            Err(e) => res == Err::<Vec<ContainerEntry>, ProtoError>(e),
        },
{
    let mut pos: usize = 0;
    let mut entries: Vec<ContainerEntry> = Vec::new();
    assert(entries_view(entries@) =~= Seq::<EntryModel>::empty());
    while pos < data.len()
        invariant
            pos <= data@.len(),
            container_from(data@, 0, Seq::empty()) == container_from(data@, pos as int, entries_view(entries@)),
        decreases data@.len() - pos,
    {
        let ghost p0 = pos as int;
        let (field, wire) = read_key(data, &mut pos)?;
        proof {
            lemma_readers_advance(data@, p0, wire);
            lemma_readers_advance(data@, pos as int, wire);
        }
        if wire == 2 && 1 <= field && field <= 3 {
            let ed = read_bytes(data, &mut pos)?;
            let entry = if field == 1 {
                let (path, mode) = parse_tlc_file(ed);
                ContainerEntry::File { path, mode: #[verifier::truncate] (mode as u32) }
            } else if field == 2 {
                let (path, _mode) = parse_tlc_file(ed);
                ContainerEntry::Dir(path)
            } else {
                let (from, to) = parse_tlc_symlink(ed);
                ContainerEntry::Symlink { from, to }
            };
            let ghost before = entries@;
            entries.push(entry);
            proof {
                assert(entries_view(entries@) =~= entries_view(before).push(entry@));
            }
        } else {
            skip_field(data, &mut pos, wire)?;
        }
    }
    Ok(entries)
}

// ── Patch plan ─────────────────────────────────────────────────────────

/// The magic number that opens every wharf patch.
pub const PATCH_MAGIC: u32 = 0x0FEF5F00;

/// The sync operation type that carries file data.
pub const SYNC_OP_DATA: u64 = 1;

/// The sync operation type that ends a file.
pub const SYNC_OP_END: u64 = 2049;

/// Why a patch could not be applied in full.
#[derive(Debug, PartialEq, Eq)]
pub enum WharfError {
    /// The file is shorter than the four magic bytes.
    MissingMagic,
    /// The file does not start with `PATCH_MAGIC`; the value read.
    BadMagic(u32),
    /// The patch header frame could not be read.
    HeaderFrame(ProtoError),
    /// The patch header could not be parsed.
    HeaderParse(ProtoError),
    /// The header names a compression algorithm other than brotli (1).
    UnsupportedCompression(u64),
    /// The payload is not a valid brotli stream.
    Decompress,
    /// The target container frame could not be read.
    TargetContainer(ProtoError),
    /// The source container frame could not be read.
    SourceContainer(ProtoError),
    /// The source container could not be parsed.
    ContainerParse(ProtoError),
    /// The sync header of file entry `index` could not be read.
    SyncHeader { index: usize, path: String, error: ProtoError },
    /// A sync operation frame of file entry `index` could not be read.
    SyncOpFrame { index: usize, path: String, error: ProtoError },
    /// A sync operation could not be parsed.
    SyncOp(ProtoError),
}

/// A `WharfError` with its path taken as a character sequence.
pub enum WharfErrorModel {
    MissingMagic,
    BadMagic(u32),
    HeaderFrame(ProtoError),
    HeaderParse(ProtoError),
    UnsupportedCompression(u64),
    Decompress,
    TargetContainer(ProtoError),
    SourceContainer(ProtoError),
    ContainerParse(ProtoError),
    SyncHeader { index: int, path: Seq<char>, error: ProtoError },
    SyncOpFrame { index: int, path: Seq<char>, error: ProtoError },
    SyncOp(ProtoError),
}

impl View for WharfError {
    type V = WharfErrorModel;

    open spec fn view(&self) -> WharfErrorModel {
        match self {
            WharfError::MissingMagic => WharfErrorModel::MissingMagic,
            WharfError::BadMagic(m) => WharfErrorModel::BadMagic(*m),
            WharfError::HeaderFrame(e) => WharfErrorModel::HeaderFrame(*e),
            WharfError::HeaderParse(e) => WharfErrorModel::HeaderParse(*e),
            WharfError::UnsupportedCompression(a) => WharfErrorModel::UnsupportedCompression(*a),
            WharfError::Decompress => WharfErrorModel::Decompress,
            WharfError::TargetContainer(e) => WharfErrorModel::TargetContainer(*e),
            WharfError::SourceContainer(e) => WharfErrorModel::SourceContainer(*e),
            WharfError::ContainerParse(e) => WharfErrorModel::ContainerParse(*e),
            WharfError::SyncHeader { index, path, error } => WharfErrorModel::SyncHeader {
                index: *index as int,
                path: path@,
                error: *error,
            },
            WharfError::SyncOpFrame { index, path, error } => WharfErrorModel::SyncOpFrame {
                index: *index as int,
                path: path@,
                error: *error,
            },
            WharfError::SyncOp(e) => WharfErrorModel::SyncOp(*e),
        }
    }
}

/// One step of applying a patch to a destination directory; paths are
/// relative to that directory.
#[derive(Debug, PartialEq, Eq)]
pub enum PatchAction {
    /// Create the directory and its missing parents.
    CreateDir(String),
    /// Create the parents of the link, ignoring failure, then a symbolic
    /// link at `from` pointing to `to`.
    Symlink { from: String, to: String },
    /// Create the missing parent directories of a file.
    CreateParentDirs(String),
    /// Write the file with the given contents, then set its permission bits.
    WriteFile { path: String, mode: u32, data: Vec<u8> },
}

/// A `PatchAction` with strings and data taken as sequences.
pub enum ActionModel {
    CreateDir(Seq<char>),
    Symlink { from: Seq<char>, to: Seq<char> },
    CreateParentDirs(Seq<char>),
    WriteFile { path: Seq<char>, mode: u32, data: Seq<u8> },
}

impl View for PatchAction {
    type V = ActionModel;

    open spec fn view(&self) -> ActionModel {
        match self {
            PatchAction::CreateDir(p) => ActionModel::CreateDir(p@),
            PatchAction::Symlink { from, to } => ActionModel::Symlink { from: from@, to: to@ },
            PatchAction::CreateParentDirs(p) => ActionModel::CreateParentDirs(p@),
            PatchAction::WriteFile { path, mode, data } => ActionModel::WriteFile {
                path: path@,
                mode: *mode,
                data: data@,
            },
        }
    }
}

/// The steps that applying a patch performs, in order, and the error that
/// stops it after them, if any.
pub struct PatchPlan {
    pub actions: Vec<PatchAction>,
    pub error: Option<WharfError>,
}

/// The views of a list of actions.
pub open spec fn actions_view(v: Seq<PatchAction>) -> Seq<ActionModel> {
    v.map_values(|a: PatchAction| a@)
}

impl View for PatchPlan {
    type V = (Seq<ActionModel>, Option<WharfErrorModel>);

    open spec fn view(&self) -> (Seq<ActionModel>, Option<WharfErrorModel>) {
        (
            actions_view(self.actions@),
            match self.error {
                Some(e) => Some(e@),
                None => None,
            },
        )
    }
}

/// Whether file contents start like an executable: an ELF image or a script
/// with a `#!` line.
pub open spec fn looks_executable(data: Seq<u8>) -> bool {
    ||| (data.len() >= 4 && data[0] == 0x7f && data[1] == 0x45 && data[2] == 0x4c && data[3] == 0x46)
    ||| (data.len() >= 2 && data[0] == 0x23 && data[1] == 0x21)
}

/// The permission bits a file gets: its container mode, plus the execute
/// bits for everyone when its contents look executable.
pub open spec fn final_mode_of(mode: u32, data: Seq<u8>) -> u32 {
    if looks_executable(data) {
        mode | 0o111
    } else {
        mode
    }
}

/// Why the sync operations of a file could not be read.
#[derive(Debug, Clone, Copy, PartialEq, Eq)]
pub enum OpsError {
    /// An operation frame could not be read.
    Frame(ProtoError),
    /// An operation could not be parsed.
    Op(ProtoError),
}

/// The data of a file: the payloads of its `DATA` operations, read from
/// `pos` after `acc` until the end marker, with the position after the
/// marker. Operations of other types are skipped.
pub open spec fn file_data_from(d: Seq<u8>, pos: int, acc: Seq<u8>) -> (Result<Seq<u8>, OpsError>, int)
    decreases d.len() - pos,
{
    let (f, p) = frame_at(d, pos);
    match f {
        Err(e) => (Err(OpsError::Frame(e)), p),
        Ok((s, e)) => match sync_op_from(d.subrange(s, e), 0, 0, Seq::empty()) {
            Err(err) => (Err(OpsError::Op(err)), p),
            Ok((t, payload)) => {
                if t == SYNC_OP_END {
                    (Ok(acc), p)
                } else {
                    proof {
                        if 0 <= pos <= d.len() {
                            lemma_readers_advance(d, pos, 0);
                        }
                    }
                    file_data_from(
                        d,
                        p,
                        if t == SYNC_OP_DATA {
                            acc + payload
                        } else {
                            acc
                        },
                    )
                }
            },
        },
    }
}

/// `a` followed by the actions and error of `rest`.
pub open spec fn prepend_actions(
    a: Seq<ActionModel>,
    rest: (Seq<ActionModel>, Option<WharfErrorModel>),
) -> (Seq<ActionModel>, Option<WharfErrorModel>) {
    (a + rest.0, rest.1)
}

/// The plan for container entries `i..` with the file data read from `pos`:
/// a directory is created, a symlink with a target is created (one with an
/// empty target is skipped), and a file gets its parent directories, then
/// its data and permission bits.
pub open spec fn entries_plan(d: Seq<u8>, pos: int, es: Seq<EntryModel>, i: int) -> (Seq<ActionModel>, Option<WharfErrorModel>)
    decreases es.len() - i,
{
    if i < 0 || i >= es.len() {
        (Seq::empty(), None)
    } else {
        match es[i] {
            EntryModel::Dir(path) => prepend_actions(seq![ActionModel::CreateDir(path)], entries_plan(d, pos, es, i + 1)),
            EntryModel::Symlink { from, to } => {
                if to.len() == 0 {
                    entries_plan(d, pos, es, i + 1)
                } else {
                    prepend_actions(seq![ActionModel::Symlink { from, to }], entries_plan(d, pos, es, i + 1))
                }
            },
            EntryModel::File { path, mode } => {
                let parents = seq![ActionModel::CreateParentDirs(path)];
                let (h, p1) = frame_at(d, pos);
                match h {
                    Err(e) => (parents, Some(WharfErrorModel::SyncHeader { index: i, path, error: e })),
                    Ok(_) => {
                        let (r, p2) = file_data_from(d, p1, Seq::empty());
                        match r {
                            Err(OpsError::Frame(e)) => (parents, Some(WharfErrorModel::SyncOpFrame { index: i, path, error: e })),
                            Err(OpsError::Op(e)) => (parents, Some(WharfErrorModel::SyncOp(e))),
                            Ok(data) => prepend_actions(
                                parents.push(ActionModel::WriteFile { path, mode: final_mode_of(mode, data), data }),
                                entries_plan(d, p2, es, i + 1),
                            ),
                        }
                    },
                }
            },
        }
    }
}

/// The plan for a decompressed patch payload: the target container frame,
/// the source container frame and its entries, then the entries' plan.
pub open spec fn payload_plan(d: Seq<u8>) -> (Seq<ActionModel>, Option<WharfErrorModel>) {
    let (t, p1) = frame_at(d, 0);
    match t {
        Err(e) => (Seq::empty(), Some(WharfErrorModel::TargetContainer(e))),
        Ok(_) => {
            let (src, p2) = frame_at(d, p1);
            match src {
                Err(e) => (Seq::empty(), Some(WharfErrorModel::SourceContainer(e))),
                Ok((s, e)) => match container_from(d.subrange(s, e), 0, Seq::empty()) {
                    Err(err) => (Seq::empty(), Some(WharfErrorModel::ContainerParse(err))),
                    Ok(es) => entries_plan(d, p2, es, 0),
                },
            }
        },
    }
}

/// The four bytes at the start of `b` read as a little-endian number.
pub open spec fn le_u32(b: Seq<u8>) -> u32 {
    (b[0] + 256 * b[1] + 65536 * b[2] + 16777216 * b[3]) as u32
}

/// The checks before the compressed payload: the magic number, the header
/// frame and its compression algorithm. Gives where the payload starts.
pub open spec fn patch_prelude(bytes: Seq<u8>) -> Result<int, WharfErrorModel> {
    if bytes.len() < 4 {
        Err(WharfErrorModel::MissingMagic)
    } else if le_u32(bytes) != PATCH_MAGIC {
        Err(WharfErrorModel::BadMagic(le_u32(bytes)))
    } else {
        let (h, p) = stream_frame_at(bytes, 4);
        match h {
            Err(e) => Err(WharfErrorModel::HeaderFrame(e)),
            Ok((s, e)) => match header_algorithm_from(bytes.subrange(s, e), 0, 0) {
                Err(err) => Err(WharfErrorModel::HeaderParse(err)),
                Ok(a) => {
                    if a != 1 {
                        Err(WharfErrorModel::UnsupportedCompression(a))
                    } else {
                        Ok(p)
                    }
                },
            },
        }
    }
}

/// The bytes that brotli decompression of `compressed` yields, or `None`
/// where the decoder reports an error.
pub uninterp spec fn brotli_decompressed(compressed: Seq<u8>) -> Option<Seq<u8>>;

/// The plan for a whole patch file.
pub open spec fn patch_plan(bytes: Seq<u8>) -> (Seq<ActionModel>, Option<WharfErrorModel>) {
    match patch_prelude(bytes) {
        Err(e) => (Seq::empty(), Some(e)),
        Ok(p) => match brotli_decompressed(bytes.subrange(p, bytes.len() as int)) {
            None => (Seq::empty(), Some(WharfErrorModel::Decompress)),
            Some(d) => payload_plan(d),
        },
    }
}

/// Decompresses a whole brotli stream with `brotli::Decompressor`, reading
/// it to the end.
///
/// Trusted: the result is whatever the decoder produces, named by
/// `brotli_decompressed`; `None` stands for any error the decoder reports.
#[verifier::external_body]
fn brotli_decompress(compressed: &[u8]) -> (res: Option<Vec<u8>>)
    ensures
        brotli_decompressed(compressed@) == match res {
            Some(v) => Some(v@),
            None => None::<Seq<u8>>,
        },
{
    let mut out = Vec::new();
    match brotli::Decompressor::new(compressed, 64 * 1024).read_to_end(&mut out) {
        Ok(_) => Some(out),
        Err(_) => None,
    }
}

/// The permission bits a written file gets.
pub fn final_mode(mode: u32, data: &[u8]) -> (res: u32)
    ensures
        res == final_mode_of(mode, data@),
{
    let elf = data.len() >= 4 && data[0] == 0x7f && data[1] == 0x45 && data[2] == 0x4c && data[3] == 0x46;
    let script = data.len() >= 2 && data[0] == 0x23 && data[1] == 0x21;
    if elf || script {
        mode | 0o111
    } else {
        mode
    }
}

/// Checks the magic number and the header of a patch file, and returns
/// where its compressed payload starts.
pub fn check_patch_prelude(patch: &[u8]) -> (res: Result<usize, WharfError>)
    ensures
        match res {
            Ok(p) => patch_prelude(patch@) == Ok::<int, WharfErrorModel>(p as int),
            Err(e) => patch_prelude(patch@) == Err::<int, WharfErrorModel>(e@),
        },
{
    if patch.len() < 4 {
        return Err(WharfError::MissingMagic);
    }
    let magic: u32 = (patch[0] as u32) + 256 * (patch[1] as u32) + 65536 * (patch[2] as u32) + 16777216 * (patch[3] as u32);
    if magic != PATCH_MAGIC {
        return Err(WharfError::BadMagic(magic));
    }
    let mut pos: usize = 4;
    let header = match read_framed(patch, &mut pos) {
        Ok(h) => h,
        Err(e) => return Err(WharfError::HeaderFrame(e)),
    };
    let algorithm = match parse_patch_header(&header) {
        Ok(a) => a,
        Err(e) => return Err(WharfError::HeaderParse(e)),
    };
    if algorithm != 1 {
        return Err(WharfError::UnsupportedCompression(algorithm));
    }
    Ok(pos)
}

/// Reads the sync operations of one file from `*pos` up to the end marker
/// and returns the file's data.
pub fn read_file_data(d: &[u8], pos: &mut usize) -> (res: Result<Vec<u8>, OpsError>)
    requires
        *old(pos) <= d@.len(),
    ensures
        *final(pos) <= d@.len(),
        *final(pos) as int == file_data_from(d@, *old(pos) as int, Seq::empty()).1,
        match file_data_from(d@, *old(pos) as int, Seq::empty()).0 {
            Ok(data) => res matches Ok(v) && v@ == data,
            Err(e) => res == Err::<Vec<u8>, OpsError>(e),
        },
{
    let ghost start = *old(pos) as int;
    let mut file_data: Vec<u8> = Vec::new();
    loop
        invariant
            start == *old(pos) as int,
            *pos <= d@.len(),
            file_data_from(d@, start, Seq::empty()) == file_data_from(d@, *pos as int, file_data@),
        decreases d@.len() - *pos,
    {
        proof {
            lemma_readers_advance(d@, *pos as int, 0);
        }
        let op_frame = match read_framed_bytes(d, pos) {
            Ok(f) => f,
            Err(e) => return Err(OpsError::Frame(e)),
        };
        let (op_type, payload) = match parse_sync_op(&op_frame) {
            Ok(op) => op,
            Err(e) => return Err(OpsError::Op(e)),
        };
        if op_type == SYNC_OP_END {
            return Ok(file_data);
        }
        if op_type == SYNC_OP_DATA {
            let ghost before = file_data@;
            file_data.extend_from_slice(&payload);
            assert(file_data@ =~= before + payload@);
        }
    }
}

/// Plans the application of a decompressed patch payload.
pub fn plan_payload(d: &[u8]) -> (plan: PatchPlan)
    ensures
        plan@ == payload_plan(d@),
{
    let mut pos: usize = 0;
    let _target = match read_framed_bytes(d, &mut pos) {
        Ok(t) => t,
        Err(e) => return PatchPlan { actions: Vec::new(), error: Some(WharfError::TargetContainer(e)) },
    };
    proof {
        lemma_readers_advance(d@, 0, 0);
        lemma_readers_advance(d@, pos as int, 0);
    }
    let source = match read_framed_bytes(d, &mut pos) {
        Ok(s) => s,
        Err(e) => return PatchPlan { actions: Vec::new(), error: Some(WharfError::SourceContainer(e)) },
    };
    let files = match parse_container(&source) {
        Ok(f) => f,
        Err(e) => return PatchPlan { actions: Vec::new(), error: Some(WharfError::ContainerParse(e)) },
    };
    let ghost es = entries_view(files@);
    let mut actions: Vec<PatchAction> = Vec::new();
    let mut i: usize = 0;
    assert(actions_view(actions@) =~= Seq::<ActionModel>::empty());
    while i < files.len()
        invariant
            i <= files@.len(),
            pos <= d@.len(),
            es == entries_view(files@),
            payload_plan(d@) == prepend_actions(actions_view(actions@), entries_plan(d@, pos as int, es, i as int)),
        decreases files@.len() - i,
    {
        let ghost before = actions_view(actions@);
        assert(es[i as int] == files@[i as int]@);
        match &files[i] {
            ContainerEntry::Dir(path) => {
                actions.push(PatchAction::CreateDir(path.clone()));
                assert(actions_view(actions@) =~= before + seq![ActionModel::CreateDir(path@)]);
            },
            ContainerEntry::Symlink { from, to } => {
                if !to.as_str().is_empty() {
                    actions.push(PatchAction::Symlink { from: from.clone(), to: to.clone() });
                    assert(actions_view(actions@) =~= before + seq![ActionModel::Symlink { from: from@, to: to@ }]);
                }
            },
            ContainerEntry::File { path, mode } => {
                actions.push(PatchAction::CreateParentDirs(path.clone()));
                let ghost with_parents = actions_view(actions@);
                assert(with_parents =~= before + seq![ActionModel::CreateParentDirs(path@)]);
                proof {
                    lemma_readers_advance(d@, pos as int, 0);
                }
                let _header = match read_framed_bytes(d, &mut pos) {
                    Ok(h) => h,
                    Err(e) => {
                        let plan = PatchPlan {
                            actions,
                            error: Some(WharfError::SyncHeader { index: i, path: path.clone(), error: e }),
                        };
                        return plan;
                    },
                };
                let data = match read_file_data(d, &mut pos) {
                    Ok(data) => data,
                    Err(OpsError::Frame(e)) => {
                        return PatchPlan {
                            actions,
                            error: Some(WharfError::SyncOpFrame { index: i, path: path.clone(), error: e }),
                        };
                    },
                    Err(OpsError::Op(e)) => {
                        return PatchPlan { actions, error: Some(WharfError::SyncOp(e)) };
                    },
                };
                let m = final_mode(*mode, &data);
                actions.push(PatchAction::WriteFile { path: path.clone(), mode: m, data });
                assert(actions_view(actions@) =~= before + seq![ActionModel::CreateParentDirs(path@)].push(
                    ActionModel::WriteFile { path: path@, mode: m, data: data@ },
                ));
            },
        }
        i = i + 1;
    }
    PatchPlan { actions, error: None }
}

/// Plans the application of a whole patch file: checks its prelude,
/// decompresses the payload and plans that.
pub fn plan_patch(patch: &[u8]) -> (plan: PatchPlan)
    ensures
        plan@ == patch_plan(patch@),
{
    let start = match check_patch_prelude(patch) {
        Ok(p) => p,
        Err(e) => return PatchPlan { actions: Vec::new(), error: Some(e) },
    };
    proof {
        lemma_readers_advance(patch@, 4, 0);
    }
    match brotli_decompress(&patch[start..patch.len()]) {
        None => PatchPlan { actions: Vec::new(), error: Some(WharfError::Decompress) },
        Some(d) => plan_payload(&d),
    }
}

// ── Laws ────────────────────────────────────────────────────────────────

/// A written file keeps every permission bit of its container mode, and a
/// file whose contents look executable gets the execute bits for owner,
/// group and others.
pub proof fn law_final_mode(mode: u32, data: Seq<u8>)
    ensures
        final_mode_of(mode, data) & mode == mode,
        looks_executable(data) ==> final_mode_of(mode, data) & 0o111 == 0o111,
        !looks_executable(data) ==> final_mode_of(mode, data) == mode,
{
    assert((mode | 0o111) & mode == mode) by (bit_vector);
    assert((mode | 0o111) & 0o111 == 0o111) by (bit_vector);
    assert(mode & mode == mode) by (bit_vector);
}

/// Whether each file write in `actions` comes right after the creation of
/// that file's parent directories.
pub open spec fn parents_before_writes(actions: Seq<ActionModel>) -> bool {
    forall|j: int| 0 <= j < actions.len() ==> (#[trigger] actions[j] matches ActionModel::WriteFile { path, .. }
        ==> j > 0 && actions[j - 1] == ActionModel::CreateParentDirs(path))
}

proof fn lemma_parents_before_writes_append(a: Seq<ActionModel>, b: Seq<ActionModel>)
    requires
        parents_before_writes(a),
        parents_before_writes(b),
        b.len() > 0 ==> !(b[0] is WriteFile),
    ensures
        parents_before_writes(a + b),
{
    let c = a + b;
    assert forall|j: int| 0 <= j < c.len() implies (#[trigger] c[j] matches ActionModel::WriteFile { path, .. }
        ==> j > 0 && c[j - 1] == ActionModel::CreateParentDirs(path)) by {
        if j >= a.len() {
            assert(c[j] == b[j - a.len()]);
            if j - a.len() > 0 {
                assert(c[j - 1] == b[j - a.len() - 1]);
            }
        } else {
            assert(c[j] == a[j]);
        }
    }
}

proof fn lemma_entries_plan_parents(d: Seq<u8>, pos: int, es: Seq<EntryModel>, i: int)
    ensures
        parents_before_writes(entries_plan(d, pos, es, i).0),
        entries_plan(d, pos, es, i).0.len() > 0 ==> !(entries_plan(d, pos, es, i).0[0] is WriteFile),
    decreases es.len() - i,
{
    if 0 <= i < es.len() {
        match es[i] {
            EntryModel::Dir(path) => {
                lemma_entries_plan_parents(d, pos, es, i + 1);
                lemma_parents_before_writes_append(seq![ActionModel::CreateDir(path)], entries_plan(d, pos, es, i + 1).0);
            },
            EntryModel::Symlink { from, to } => {
                lemma_entries_plan_parents(d, pos, es, i + 1);
                if to.len() != 0 {
                    lemma_parents_before_writes_append(seq![ActionModel::Symlink { from, to }], entries_plan(d, pos, es, i + 1).0);
                }
            },
            EntryModel::File { path, mode } => {
                let parents = seq![ActionModel::CreateParentDirs(path)];
                let (h, p1) = frame_at(d, pos);
                if h is Ok {
                    let (r, p2) = file_data_from(d, p1, Seq::empty());
                    if let Ok(data) = r {
                        lemma_entries_plan_parents(d, p2, es, i + 1);
                        let head = parents.push(ActionModel::WriteFile { path, mode: final_mode_of(mode, data), data });
                        assert(parents_before_writes(head)) by {
                            assert forall|j: int| 0 <= j < head.len() implies (#[trigger] head[j] matches ActionModel::WriteFile { path, .. }
                                ==> j > 0 && head[j - 1] == ActionModel::CreateParentDirs(path)) by {
                                if j == 0 {
                                    assert(head[0] == ActionModel::CreateParentDirs(path));
                                }
                            }
                        }
                        lemma_parents_before_writes_append(head, entries_plan(d, p2, es, i + 1).0);
                    } else {
                        assert(parents_before_writes(parents)) by {
                            assert(parents[0] is CreateParentDirs);
                        }
                    }
                } else {
                    assert(parents_before_writes(parents)) by {
                        assert(parents[0] is CreateParentDirs);
                    }
                }
            },
        }
    }
}

/// In every plan, each file is written right after its parent directories
/// are created.
pub proof fn law_parents_created_before_writes(patch: Seq<u8>)
    ensures
        parents_before_writes(patch_plan(patch).0),
{
    if let Ok(p) = patch_prelude(patch) {
        if let Some(d) = brotli_decompressed(patch.subrange(p, patch.len() as int)) {
            lemma_payload_plan_parents(d);
        }
    }
}

/// In the plan of any payload, each file is written right after its parent
/// directories are created.
pub proof fn lemma_payload_plan_parents(d: Seq<u8>)
    ensures
        parents_before_writes(payload_plan(d).0),
{
    let (t, p1) = frame_at(d, 0);
    if t is Ok {
        let (src, p2) = frame_at(d, p1);
        if let Ok((s, e)) = src {
            if let Ok(es) = container_from(d.subrange(s, e), 0, Seq::empty()) {
                lemma_entries_plan_parents(d, p2, es, 0);
            }
        }
    }
}

/// Reading `CompressionSettings` fields after a prefix gives what reading
/// them alone gives.
proof fn lemma_compression_shift(prefix: Seq<u8>, data: Seq<u8>, pos: int, algo: u64)
    requires
        0 <= pos <= data.len(),
    ensures
        compression_algorithm_from(prefix + data, prefix.len() + pos, algo) == compression_algorithm_from(data, pos, algo),
    decreases data.len() - pos,
{
    let all = prefix + data;
    let n = prefix.len() as int;
    if pos < data.len() {
        lemma_readers_shift(prefix, data, pos, 0);
        lemma_readers_advance(data, pos, 0);
        let (k, p1) = key_at(data, pos);
        if let Ok((field, wire)) = k {
            lemma_readers_shift(prefix, data, p1, wire);
            lemma_readers_advance(data, p1, wire);
            if field == 1 && wire == 0 {
                let (v, p2) = varint_at(data, p1);
                if let Ok(a) = v {
                    lemma_compression_shift(prefix, data, p2, a);
                }
            } else {
                let (r, p2) = skip_at(data, p1, wire);
                if r is Ok {
                    lemma_compression_shift(prefix, data, p2, algo);
                }
            }
        }
    }
}

/// Fields a parser does not know are skipped: a `CompressionSettings`
/// message that starts with a one-byte varint field other than the
/// algorithm (such as the quality, field 2) has the algorithm of the rest.
pub proof fn law_unknown_field_skipped(field: u8, value: u8, data: Seq<u8>)
    requires
        2 <= field < 16,
        value < 0x80,
    ensures
        compression_algorithm_from(seq![(field * 8) as u8, value] + data, 0, 0)
            == compression_algorithm_from(data, 0, 0),
{
    let key = (field * 8) as u8;
    let prefix = seq![key, value];
    let all = prefix + data;
    assert(all[0] == key);
    assert(all[1] == value);
    assert(key & 0x80 == 0 && varint_group(key, 0) == key as u64 && (key as u64) >> 3 == field as u64
        && (key as u64) & 7 == 0) by (bit_vector)
        requires
            key == (field * 8) as u8,
            2 <= field < 16,
    ;
    assert(value & 0x80 == 0) by (bit_vector)
        requires
            value < 0x80,
    ;
    lemma_compression_shift(prefix, data, 0, 0);
}

// ── What a parse depends on ─────────────────────────────────────────────

/// Reading `tlc.File` fields after a prefix gives what reading them alone
/// gives.
proof fn lemma_tlc_file_shift(prefix: Seq<u8>, data: Seq<u8>, pos: int, path: Seq<char>, mode: u64)
    requires
        0 <= pos <= data.len(),
    ensures
        tlc_file_from(prefix + data, prefix.len() + pos, path, mode) == tlc_file_from(data, pos, path, mode),
    decreases data.len() - pos,
{
    if pos < data.len() {
        lemma_readers_shift(prefix, data, pos, 0);
        lemma_readers_advance(data, pos, 0);
        let (k, p1) = key_at(data, pos);
        if let Ok((field, wire)) = k {
            lemma_readers_shift(prefix, data, p1, wire);
            lemma_readers_advance(data, p1, wire);
            if field == 1 && wire == 2 {
                let (r, p2) = string_at(data, p1);
                let new_path = match r {
                    Ok(s) => s,
                    Err(_) => Seq::empty(),
                };
                lemma_tlc_file_shift(prefix, data, p2, new_path, mode);
            } else if field == 2 && wire == 0 {
                let (r, p2) = varint_at(data, p1);
                let new_mode = match r {
                    Ok(v) => v,
                    Err(_) => 0o644,
                };
                lemma_tlc_file_shift(prefix, data, p2, path, new_mode);
            } else {
                let (_, p2) = skip_at(data, p1, wire);
                lemma_tlc_file_shift(prefix, data, p2, path, mode);
            }
        }
    }
}

/// The mode of a `tlc.File` comes from its mode field (2) alone: a varint
/// field with any other number, such as the size (field 3), put in front of
/// the message leaves the path and the mode as they were.
pub proof fn law_tlc_file_mode_from_mode_field(field: u64, value: u64, data: Seq<u8>, path: Seq<char>, mode: u64)
    requires
        field != 2,
        field < 0x2000_0000_0000_0000,
    ensures
        tlc_file_from(varint_encoding((field * 8) as u64) + varint_encoding(value) + data, 0, path, mode)
            == tlc_file_from(data, 0, path, mode),
{
    let k = (field * 8) as u64;
    let ek = varint_encoding(k);
    let ev = varint_encoding(value);
    let all = ek + ev + data;
    assert(k >> 3 == field && k & 7 == 0) by (bit_vector)
        requires
            k == (field * 8) as u64,
            field < 0x2000_0000_0000_0000,
    ;
    assert(all =~= ek + (ev + data));
    law_varint_round_trip(k, ev + data);
    law_varint_round_trip(value, data);
    lemma_varint_shift(ek, ev + data, 0, 0);
    assert(ek.len() + 0 == ek.len());
    assert(all.len() > 0);
    assert(key_at(all, 0) == (Ok::<(u64, u64), ProtoError>((field, 0u64)), ek.len() as int));
    assert(skip_at(all, ek.len() as int, 0) == (Ok::<(), ProtoError>(()), (ek.len() + ev.len()) as int));
    assert(all =~= (ek + ev) + data);
    lemma_tlc_file_shift(ek + ev, data, 0, path, mode);
}

/// A length-prefixed frame read after a prefix is the same frame, moved by
/// the prefix's length.
proof fn lemma_frame_shift(prefix: Seq<u8>, data: Seq<u8>, pos: int)
    requires
        0 <= pos <= data.len(),
    ensures
        ({
            let all = prefix + data;
            let n = prefix.len() as int;
            &&& frame_at(all, n + pos).1 == n + frame_at(data, pos).1
            &&& (frame_at(data, pos).0 matches Err(e) ==> frame_at(all, n + pos).0 == Err::<(int, int), ProtoError>(e))
            &&& (frame_at(data, pos).0 matches Ok((s, e)) ==> frame_at(all, n + pos).0 == Ok::<(int, int), ProtoError>((n + s, n + e))
                && all.subrange(n + s, n + e) == data.subrange(s, e))
        }),
{
    let all = prefix + data;
    let n = prefix.len() as int;
    lemma_varint_shift(prefix, data, pos, 0);
    lemma_readers_advance(data, pos, 0);
    if let Ok((s, e)) = frame_at(data, pos).0 {
        assert(all.subrange(n + s, n + e) =~= data.subrange(s, e));
    }
}

/// Reading a file's data never leaves the message.
proof fn lemma_file_data_bounds(d: Seq<u8>, pos: int, acc: Seq<u8>)
    requires
        0 <= pos <= d.len(),
    ensures
        pos <= file_data_from(d, pos, acc).1 <= d.len(),
    decreases d.len() - pos,
{
    lemma_readers_advance(d, pos, 0);
    let (f, p) = frame_at(d, pos);
    if let Ok((s, e)) = f {
        if let Ok((t, payload)) = sync_op_from(d.subrange(s, e), 0, 0, Seq::empty()) {
            if t != SYNC_OP_END {
                lemma_file_data_bounds(d, p, if t == SYNC_OP_DATA { acc + payload } else { acc });
            }
        }
    }
}

/// Reading a file's data after a prefix gives the same data, and ends moved
/// by the prefix's length.
proof fn lemma_file_data_shift(prefix: Seq<u8>, d: Seq<u8>, pos: int, acc: Seq<u8>)
    requires
        0 <= pos <= d.len(),
    ensures
        file_data_from(prefix + d, prefix.len() + pos, acc) == (
            file_data_from(d, pos, acc).0,
            prefix.len() + file_data_from(d, pos, acc).1,
        ),
    decreases d.len() - pos,
{
    lemma_frame_shift(prefix, d, pos);
    lemma_readers_advance(d, pos, 0);
    let (f, p) = frame_at(d, pos);
    if let Ok((s, e)) = f {
        if let Ok((t, payload)) = sync_op_from(d.subrange(s, e), 0, 0, Seq::empty()) {
            if t != SYNC_OP_END {
                lemma_file_data_shift(prefix, d, p, if t == SYNC_OP_DATA { acc + payload } else { acc });
            }
        }
    }
}

/// The plan of entries read after a prefix is the plan read without it.
proof fn lemma_entries_plan_shift(prefix: Seq<u8>, d: Seq<u8>, pos: int, es: Seq<EntryModel>, i: int)
    requires
        0 <= pos <= d.len(),
    ensures
        entries_plan(prefix + d, prefix.len() + pos, es, i) == entries_plan(d, pos, es, i),
    decreases es.len() - i,
{
    if 0 <= i < es.len() {
        match es[i] {
            EntryModel::File { path, mode } => {
                lemma_frame_shift(prefix, d, pos);
                lemma_readers_advance(d, pos, 0);
                let (h, p1) = frame_at(d, pos);
                if h is Ok {
                    lemma_file_data_shift(prefix, d, p1, Seq::empty());
                    lemma_file_data_bounds(d, p1, Seq::empty());
                    let (r, p2) = file_data_from(d, p1, Seq::empty());
                    lemma_entries_plan_shift(prefix, d, p2, es, i + 1);
                }
            },
            _ => {
                lemma_entries_plan_shift(prefix, d, pos, es, i + 1);
            },
        }
    }
}

/// A file entry whose sync header is the frame holding `h` is planned as
/// one whose sync header is the empty frame.
proof fn lemma_sync_header_as_empty(h: Seq<u8>, rest: Seq<u8>, es: Seq<EntryModel>, i: int)
    requires
        0 <= i < es.len(),
        es[i] is File,
        h.len() <= usize::MAX,
    ensures
        entries_plan(varint_encoding(h.len() as u64) + h + rest, 0, es, i)
            == entries_plan(varint_encoding(0) + rest, 0, es, i),
{
    let f = varint_encoding(h.len() as u64) + h;
    let f0 = varint_encoding(0);
    let d = f + rest;
    let d0 = f0 + rest;
    assert(d =~= varint_encoding(h.len() as u64) + (h + rest));
    law_varint_round_trip(h.len() as u64, h + rest);
    law_varint_round_trip(0, rest);
    assert(((h.len() as u64) as usize) as int == h.len());
    assert(frame_at(d, 0).1 == f.len());
    assert(frame_at(d, 0).0 is Ok);
    assert(frame_at(d0, 0).1 == f0.len());
    assert(frame_at(d0, 0).0 is Ok);
    lemma_file_data_shift(f, rest, 0, Seq::empty());
    lemma_file_data_shift(f0, rest, 0, Seq::empty());
    lemma_file_data_bounds(rest, 0, Seq::empty());
    let q2 = file_data_from(rest, 0, Seq::empty()).1;
    lemma_entries_plan_shift(f, rest, q2, es, i + 1);
    lemma_entries_plan_shift(f0, rest, q2, es, i + 1);
}

/// The plan of a file entry does not depend on what its sync-header frame
/// holds: any two well-formed frames, of any lengths, in its place give the
/// same actions and the same error.
pub proof fn law_sync_header_contents_ignored(
    pre: Seq<u8>,
    h1: Seq<u8>,
    h2: Seq<u8>,
    rest: Seq<u8>,
    es: Seq<EntryModel>,
    i: int,
)
    requires
        0 <= i < es.len(),
        es[i] is File,
        h1.len() <= usize::MAX,
        h2.len() <= usize::MAX,
    ensures
        entries_plan(pre + varint_encoding(h1.len() as u64) + h1 + rest, pre.len() as int, es, i)
            == entries_plan(pre + varint_encoding(h2.len() as u64) + h2 + rest, pre.len() as int, es, i),
{
    let d1 = varint_encoding(h1.len() as u64) + h1 + rest;
    let d2 = varint_encoding(h2.len() as u64) + h2 + rest;
    assert(pre + varint_encoding(h1.len() as u64) + h1 + rest =~= pre + d1);
    assert(pre + varint_encoding(h2.len() as u64) + h2 + rest =~= pre + d2);
    lemma_entries_plan_shift(pre, d1, 0, es, i);
    lemma_entries_plan_shift(pre, d2, 0, es, i);
    lemma_sync_header_as_empty(h1, rest, es, i);
    lemma_sync_header_as_empty(h2, rest, es, i);
}

} // verus!
