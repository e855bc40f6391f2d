//! Archive formats: recognising them by name or by content, naming them,
//! and the decisions taken while listing, extracting and compressing.
use vstd::prelude::*;
use crate::models::{ArchiveEntry, FileInfo};
use crate::paths::{file_name, file_name_of, forward_slashes, platform_view, to_forward_slashes, to_platform_view};
use crate::text::or_else;
use crate::text::{
    ascii_lower, concat, ends_with, equals, from_chars, has_suffix, to_ascii_lower, to_chars,
};

verus! {

/// Sentinel error message used internally to signal a cancelled operation.
pub const CANCELLED: &'static str = "__cancelled__";

/// The archive and compressed-stream formats the tool reads.
#[derive(Debug, Clone, Copy, PartialEq, Eq, Structural)]
pub enum ArchiveKind {
    Zip,
    SevenZ,
    Rar,
    Tar,
    TarGz,
    TarBz2,
    TarXz,
    TarZst,
    Gz,
    Bz2,
    Xz,
    Zst,
}

/// The lowercase label of a format, as shown to the user.
pub open spec fn kind_label(k: ArchiveKind) -> Seq<char> {
    match k {
        ArchiveKind::Zip => "zip"@,
        ArchiveKind::SevenZ => "7z"@,
        ArchiveKind::Rar => "rar"@,
        ArchiveKind::Tar => "tar"@,
        ArchiveKind::TarGz => "tar.gz"@,
        ArchiveKind::TarBz2 => "tar.bz2"@,
        ArchiveKind::TarXz => "tar.xz"@,
        ArchiveKind::TarZst => "tar.zst"@,
        ArchiveKind::Gz => "gz"@,
        ArchiveKind::Bz2 => "bz2"@,
        ArchiveKind::Xz => "xz"@,
        ArchiveKind::Zst => "zst"@,
    }
}

/// A single compressed file (not an archive of several entries).
pub open spec fn is_single_stream(k: ArchiveKind) -> bool {
    matches!(k, ArchiveKind::Gz | ArchiveKind::Bz2 | ArchiveKind::Xz | ArchiveKind::Zst)
}

impl ArchiveKind {
    pub fn label(self) -> (r: &'static str)
        ensures
            r@ == kind_label(self),
    {
        match self {
            ArchiveKind::Zip => "zip",
            ArchiveKind::SevenZ => "7z",
            ArchiveKind::Rar => "rar",
            ArchiveKind::Tar => "tar",
            ArchiveKind::TarGz => "tar.gz",
            ArchiveKind::TarBz2 => "tar.bz2",
            ArchiveKind::TarXz => "tar.xz",
            ArchiveKind::TarZst => "tar.zst",
            ArchiveKind::Gz => "gz",
            ArchiveKind::Bz2 => "bz2",
            ArchiveKind::Xz => "xz",
            ArchiveKind::Zst => "zst",
        }
    }
}

/// The format a file name announces, compared case-insensitively; compound
/// tar suffixes are tried before the plain ones they end with.
pub open spec fn kind_by_name(name: Seq<char>) -> Option<ArchiveKind> {
    let n = ascii_lower(name);
    if ends_with(n, ".tar.gz"@) || ends_with(n, ".tgz"@) {
        Some(ArchiveKind::TarGz)
    } else if ends_with(n, ".tar.bz2"@) || ends_with(n, ".tbz2"@) || ends_with(n, ".tbz"@) {
        Some(ArchiveKind::TarBz2)
    } else if ends_with(n, ".tar.xz"@) || ends_with(n, ".txz"@) {
        Some(ArchiveKind::TarXz)
    } else if ends_with(n, ".tar.zst"@) || ends_with(n, ".tzst"@) {
        Some(ArchiveKind::TarZst)
    } else if ends_with(n, ".zip"@) {
        Some(ArchiveKind::Zip)
    } else if ends_with(n, ".7z"@) {
        Some(ArchiveKind::SevenZ)
    } else if ends_with(n, ".rar"@) {
        Some(ArchiveKind::Rar)
    } else if ends_with(n, ".tar"@) {
        Some(ArchiveKind::Tar)
    } else if ends_with(n, ".gz"@) {
        Some(ArchiveKind::Gz)
    } else if ends_with(n, ".bz2"@) {
        Some(ArchiveKind::Bz2)
    } else if ends_with(n, ".xz"@) {
        Some(ArchiveKind::Xz)
    } else if ends_with(n, ".zst"@) || ends_with(n, ".zstd"@) {
        Some(ArchiveKind::Zst)
    } else {
        None
    }
}

/// The format announced by the file name of `path`.
pub open spec fn kind_by_ext(path: Seq<char>) -> Option<ArchiveKind> {
    match file_name_of(path) {
        Some(n) => kind_by_name(n),
        None => None,
    }
}

/// `b` starts with the bytes `m`.
pub open spec fn bytes_start(b: Seq<u8>, m: Seq<u8>) -> bool {
    m.len() <= b.len() && b.subrange(0, m.len() as int) == m
}

/// The format announced by the first bytes of a file (its magic number).
pub open spec fn kind_by_magic(b: Seq<u8>) -> Option<ArchiveKind> {
    if bytes_start(b, seq![0x50u8, 0x4b, 0x03, 0x04]) || bytes_start(b, seq![0x50u8, 0x4b, 0x05, 0x06])
        || bytes_start(b, seq![0x50u8, 0x4b, 0x07, 0x08]) {
        Some(ArchiveKind::Zip)
    } else if bytes_start(b, seq![0x37u8, 0x7a, 0xbc, 0xaf, 0x27, 0x1c]) {
        Some(ArchiveKind::SevenZ)
    } else if bytes_start(b, seq![0x52u8, 0x61, 0x72, 0x21, 0x1a, 0x07]) {
        Some(ArchiveKind::Rar)
    } else if bytes_start(b, seq![0x1fu8, 0x8b]) {
        Some(ArchiveKind::Gz)
    } else if bytes_start(b, seq![0x42u8, 0x5a, 0x68]) {
        Some(ArchiveKind::Bz2)
    } else if bytes_start(b, seq![0xfdu8, 0x37, 0x7a, 0x58, 0x5a, 0x00]) {
        Some(ArchiveKind::Xz)
    } else if bytes_start(b, seq![0x28u8, 0xb5, 0x2f, 0xfd]) {
        Some(ArchiveKind::Zst)
    } else if b.len() > 262 && b.subrange(257, 262) == seq![0x75u8, 0x73, 0x74, 0x61, 0x72] {
        Some(ArchiveKind::Tar)
    } else {
        None
    }
}

/// The format of a file: by its name, else by its first bytes.
pub open spec fn detected_kind(path: Seq<char>, head: Seq<u8>) -> Option<ArchiveKind> {
    match kind_by_ext(path) {
        Some(k) => Some(k),
        None => kind_by_magic(head),
    }
}

/// The format announced by the file name of `path` on the platform
/// (`windows` when `\\` separates too and a drive prefix may start it).
pub fn detect_by_ext(path: &str, windows: bool) -> (r: Option<ArchiveKind>)
    ensures
        r == kind_by_ext(platform_view(path@, windows)),
{
    detect_by_name(to_platform_view(path, windows).as_str())
}

/// The format announced by the file name of the `/`-separated `path`.
fn detect_by_name(path: &str) -> (r: Option<ArchiveKind>)
    ensures
        r == kind_by_ext(path@),
{
    let name = match file_name(path) {
        Some(n) => n,
        None => return None,
    };
    let n = to_ascii_lower(&to_chars(name.as_str()));
    if has_suffix(&n, ".tar.gz") || has_suffix(&n, ".tgz") {
        return Some(ArchiveKind::TarGz);
    }
    if has_suffix(&n, ".tar.bz2") || has_suffix(&n, ".tbz2") || has_suffix(&n, ".tbz") {
        return Some(ArchiveKind::TarBz2);
    }
    if has_suffix(&n, ".tar.xz") || has_suffix(&n, ".txz") {
        return Some(ArchiveKind::TarXz);
    }
    if has_suffix(&n, ".tar.zst") || has_suffix(&n, ".tzst") {
        return Some(ArchiveKind::TarZst);
    }
    if has_suffix(&n, ".zip") {
        return Some(ArchiveKind::Zip);
    }
    if has_suffix(&n, ".7z") {
        return Some(ArchiveKind::SevenZ);
    }
    if has_suffix(&n, ".rar") {
        return Some(ArchiveKind::Rar);
    }
    if has_suffix(&n, ".tar") {
        return Some(ArchiveKind::Tar);
    }
    if has_suffix(&n, ".gz") {
        return Some(ArchiveKind::Gz);
    }
    if has_suffix(&n, ".bz2") {
        return Some(ArchiveKind::Bz2);
    }
    if has_suffix(&n, ".xz") {
        return Some(ArchiveKind::Xz);
    }
    if has_suffix(&n, ".zst") || has_suffix(&n, ".zstd") {
        return Some(ArchiveKind::Zst);
    }
    None
}

/// Whether `b[off..off + m.len()]` is exactly `m`.
fn bytes_at(b: &[u8], off: usize, m: &[u8]) -> (r: bool)
    ensures
        r == (off + m@.len() <= b@.len() && b@.subrange(off as int, off + m@.len()) == m@),
{
    if m.len() > b.len() || off > b.len() - m.len() {
        return false;
    }
    let mut i: usize = 0;
    while i < m.len()
        invariant
            i <= m.len(),
            off + m.len() <= b.len(),
            off + m@.len() <= b@.len(),
            forall|j: int| 0 <= j < i ==> b@[off + j] == m@[j],
        decreases m.len() - i,
    {
        if b[off + i] != m[i] {
            assert(b@.subrange(off as int, off + m@.len())[i as int] != m@[i as int]);
            return false;
        }
        i += 1;
    }
    assert(b@.subrange(off as int, off + m@.len()) =~= m@);
    true
}

/// Sniff magic bytes as a fallback when the extension is unknown. `head`
/// holds the first bytes of the file (up to 512 of them).
pub fn sniff_by_magic(head: &[u8]) -> (r: Option<ArchiveKind>)
    ensures
        r == kind_by_magic(head@),
{
    let zip1: [u8; 4] = [0x50, 0x4b, 0x03, 0x04];
    let zip2: [u8; 4] = [0x50, 0x4b, 0x05, 0x06];
    let zip3: [u8; 4] = [0x50, 0x4b, 0x07, 0x08];
    let sevenz: [u8; 6] = [0x37, 0x7a, 0xbc, 0xaf, 0x27, 0x1c];
    let rar: [u8; 6] = [0x52, 0x61, 0x72, 0x21, 0x1a, 0x07];
    let gz: [u8; 2] = [0x1f, 0x8b];
    let bz2: [u8; 3] = [0x42, 0x5a, 0x68];
    let xz: [u8; 6] = [0xfd, 0x37, 0x7a, 0x58, 0x5a, 0x00];
    let zst: [u8; 4] = [0x28, 0xb5, 0x2f, 0xfd];
    let ustar: [u8; 5] = [0x75, 0x73, 0x74, 0x61, 0x72];
    assert(zip1@ =~= seq![0x50u8, 0x4b, 0x03, 0x04]);
    assert(zip2@ =~= seq![0x50u8, 0x4b, 0x05, 0x06]);
    assert(zip3@ =~= seq![0x50u8, 0x4b, 0x07, 0x08]);
    assert(sevenz@ =~= seq![0x37u8, 0x7a, 0xbc, 0xaf, 0x27, 0x1c]);
    assert(rar@ =~= seq![0x52u8, 0x61, 0x72, 0x21, 0x1a, 0x07]);
    assert(gz@ =~= seq![0x1fu8, 0x8b]);
    assert(bz2@ =~= seq![0x42u8, 0x5a, 0x68]);
    assert(xz@ =~= seq![0xfdu8, 0x37, 0x7a, 0x58, 0x5a, 0x00]);
    assert(zst@ =~= seq![0x28u8, 0xb5, 0x2f, 0xfd]);
    assert(ustar@ =~= seq![0x75u8, 0x73, 0x74, 0x61, 0x72]);
    if bytes_at(head, 0, &zip1) || bytes_at(head, 0, &zip2) || bytes_at(head, 0, &zip3) {
        return Some(ArchiveKind::Zip);
    }
    if bytes_at(head, 0, &sevenz) {
        return Some(ArchiveKind::SevenZ);
    }
    if bytes_at(head, 0, &rar) {
        return Some(ArchiveKind::Rar);
    }
    if bytes_at(head, 0, &gz) {
        return Some(ArchiveKind::Gz);
    }
    if bytes_at(head, 0, &bz2) {
        return Some(ArchiveKind::Bz2);
    }
    if bytes_at(head, 0, &xz) {
        return Some(ArchiveKind::Xz);
    }
    if bytes_at(head, 0, &zst) {
        return Some(ArchiveKind::Zst);
    }
    if head.len() > 262 && bytes_at(head, 257, &ustar) {
        return Some(ArchiveKind::Tar);
    }
    None
}

/// The format of the file at `path`, whose first bytes are `head`: by the
/// file name, else by the magic number.
pub fn detect_archive(path: &str, head: &[u8], windows: bool) -> (r: Option<ArchiveKind>)
    ensures
        r == detected_kind(platform_view(path@, windows), head@),
{
    match detect_by_ext(path, windows) {
        Some(k) => Some(k),
        None => sniff_by_magic(head),
    }
}

/// The format of the file at `path` (first bytes `head`), or the error for
/// a file that is no recognised archive.
pub fn require_archive(path: &str, head: &[u8], windows: bool) -> (r: Result<ArchiveKind, String>)
    ensures
        match detected_kind(platform_view(path@, windows), head@) {
            Some(k) => r == Ok::<ArchiveKind, String>(k),
            None => r matches Err(e) && e@ == unrecognized_message(path@),
        },
{
    match detect_archive(path, head, windows) {
        Some(k) => Ok(k),
        None => Err(concat("Unsupported or unrecognized archive: ", path)),
    }
}


/// A name with `k` characters dropped from its end.
pub open spec fn drop_last_n(n: Seq<char>, k: nat) -> Seq<char> {
    n.subrange(0, n.len() - k)
}

/// The file name of a single compressed stream without its compression
/// suffix (`.gz`, `.bz2`, `.xz`, `.zst`, `.zstd`, in any letter case).
pub open spec fn single_ext_stripped(path: Seq<char>) -> Option<Seq<char>> {
    match file_name_of(path) {
        None => None,
        Some(n) => {
            let l = ascii_lower(n);
            if ends_with(l, ".gz"@) {
                Some(drop_last_n(n, ".gz"@.len()))
            } else if ends_with(l, ".bz2"@) {
                Some(drop_last_n(n, ".bz2"@.len()))
            } else if ends_with(l, ".xz"@) {
                Some(drop_last_n(n, ".xz"@.len()))
            } else if ends_with(l, ".zst"@) {
                Some(drop_last_n(n, ".zst"@.len()))
            } else if ends_with(l, ".zstd"@) {
                Some(drop_last_n(n, ".zstd"@.len()))
            } else {
                None
            }
        },
    }
}

/// `n` without its last `ext.len()` characters, when the lower-cased `l`
/// ends with `ext`.
fn cut_suffix(n: &Vec<char>, l: &Vec<char>, ext: &str) -> (r: Option<String>)
    requires
        l@ == ascii_lower(n@),
    ensures
        match r {
            Some(s) => ends_with(l@, ext@) && s@ == drop_last_n(n@, ext@.len()),
            None => !ends_with(l@, ext@),
        },
{
    if has_suffix(l, ext) {
        let k = to_chars(ext).len();
        Some(from_chars(&crate::paths::sub_chars(n, 0, n.len() - k)))
    } else {
        None
    }
}

/// The file name of a single compressed stream without its compression
/// suffix, if it has one.
pub fn strip_single_ext(path: &str, windows: bool) -> (r: Option<String>)
    ensures
        match r {
            Some(s) => single_ext_stripped(platform_view(path@, windows)) == Some(s@),
            None => single_ext_stripped(platform_view(path@, windows)) is None,
        },
{
    strip_single_ext_of(to_platform_view(path, windows).as_str())
}

fn strip_single_ext_of(path: &str) -> (r: Option<String>)
    ensures
        match r {
            Some(s) => single_ext_stripped(path@) == Some(s@),
            None => single_ext_stripped(path@) is None,
        },
{
    let name = match file_name(path) {
        Some(n) => n,
        None => return None,
    };
    let n = to_chars(name.as_str());
    let l = to_ascii_lower(&n);
    if let Some(s) = cut_suffix(&n, &l, ".gz") {
        return Some(s);
    }
    if let Some(s) = cut_suffix(&n, &l, ".bz2") {
        return Some(s);
    }
    if let Some(s) = cut_suffix(&n, &l, ".xz") {
        return Some(s);
    }
    if let Some(s) = cut_suffix(&n, &l, ".zst") {
        return Some(s);
    }
    cut_suffix(&n, &l, ".zstd")
}

/// The name of the file a single compressed stream at `path` is extracted
/// to: its file name without the compression suffix, else `output`.
pub open spec fn single_output_name_of(path: Seq<char>) -> Seq<char> {
    or_else(single_ext_stripped(path), "output"@)
}

pub fn single_output_name(path: &str, windows: bool) -> (r: String)
    ensures
        r@ == single_output_name_of(platform_view(path@, windows)),
{
    match strip_single_ext(path, windows) {
        Some(s) => s,
        None => String::from_str("output"),
    }
}

/// The message for a path that is not a recognised archive.
pub open spec fn unrecognized_message(path: Seq<char>) -> Seq<char> {
    "Unsupported or unrecognized archive: "@ + path
}

/// How the entries of an archive are obtained.
pub enum ListSource {
    /// The listing is already known: a single compressed file holds one entry.
    Listed(Vec<ArchiveEntry>),
    /// The entries must be read with the reader for this format.
    Reader(ArchiveKind),
}

/// The one entry shown for a single compressed file at `path`: its name
/// without the compression suffix, else the whole path.
pub open spec fn single_entry_name(path: Seq<char>, windows: bool) -> Seq<char> {
    match single_ext_stripped(platform_view(path, windows)) {
        Some(s) => s,
        None => path,
    }
}

/// Lists an archive: a single compressed file is shown as one entry named
/// after the file without its compression suffix; every other recognised
/// format is handed to its reader.
pub fn list_archive(path: &str, head: &[u8], windows: bool) -> (r: Result<ListSource, String>)
    ensures
        match detected_kind(platform_view(path@, windows), head@) {
            None => r matches Err(e) && e@ == unrecognized_message(path@),
            Some(k) => if is_single_stream(k) {
                r matches Ok(ListSource::Listed(v)) && v@.len() == 1 && v@[0].path@
                    == single_entry_name(path@, windows) && v@[0].size == 0 && !v@[0].is_dir
            } else {
                r matches Ok(ListSource::Reader(kk)) && kk == k
            },
        },
{
    let kind = require_archive(path, head, windows)?;
    match kind {
        ArchiveKind::Gz | ArchiveKind::Bz2 | ArchiveKind::Xz | ArchiveKind::Zst => {
            let name = match strip_single_ext(path, windows) {
                Some(s) => s,
                None => String::from_str(path),
            };
            let mut v: Vec<ArchiveEntry> = Vec::new();
            v.push(ArchiveEntry { path: name, size: 0, is_dir: false });
            Ok(ListSource::Listed(v))
        },
        _ => Ok(ListSource::Reader(kind)),
    }
}

/// The value chosen for a compression level name: `fast`, `maximum`, and
/// anything else counts as balanced.
pub open spec fn level_value(level: Seq<char>, fast: i64, balanced: i64, maximum: i64) -> i64 {
    if level == "fast"@ {
        fast
    } else if level == "maximum"@ {
        maximum
    } else {
        balanced
    }
}

pub fn level_of(level: &str, fast: i64, balanced: i64, maximum: i64) -> (r: i64)
    ensures
        r == level_value(level@, fast, balanced, maximum),
{
    let l = to_chars(level);
    if equals(&l, "fast") {
        fast
    } else if equals(&l, "maximum") {
        maximum
    } else {
        balanced
    }
}

/// The refusal of an output that would overwrite one of the inputs.
pub open spec fn output_clash_message() -> Seq<char> {
    "The output file must be different from the input files."@
}

/// Refuses an output path that equals one of the input paths (both taken in
/// their canonical form).
pub fn check_output_distinct(output: &str, inputs: &Vec<String>) -> (r: Result<(), String>)
    ensures
        (exists|i: int| 0 <= i < inputs.len() && inputs@[i]@ == output@) ==> (r matches Err(e) && e@
            == output_clash_message()),
        !(exists|i: int| 0 <= i < inputs.len() && inputs@[i]@ == output@) ==> r is Ok,
{
    let mut i: usize = 0;
    while i < inputs.len()
        invariant
            i <= inputs.len(),
            forall|j: int| 0 <= j < i ==> inputs@[j]@ != output@,
        decreases inputs.len() - i,
    {
        if crate::text::str_eq(inputs[i].as_str(), output) {
            return Err(String::from_str("The output file must be different from the input files."));
        }
        i += 1;
    }
    Ok(())
}

/// What `compress_files` writes for a requested output format.
#[derive(Debug, Clone, Copy, PartialEq, Eq, Structural)]
pub enum OutputFormat {
    /// Media files are transcoded (H.265 video / AVIF image), not archived.
    Media,
    /// A zip archive with Deflate at this level.
    Zip { level: i64 },
    /// A 7z archive.
    SevenZ,
    /// A gzip-compressed tar archive at this level.
    Tgz { level: i64 },
    /// A zstd-compressed tar archive at this level.
    Tzst { level: i64 },
}

/// The message for an output format that is not known.
pub open spec fn unknown_format_message(format: Seq<char>) -> Seq<char> {
    "Unknown output format: "@ + format
}

/// The output for a format id and a level name.
pub open spec fn output_format_of(format: Seq<char>, level: Seq<char>) -> Option<OutputFormat> {
    if format == "h265"@ || format == "avif"@ {
        Some(OutputFormat::Media)
    } else if format == "zip"@ {
        Some(OutputFormat::Zip { level: level_value(level, 1, 6, 9) })
    } else if format == "7z"@ {
        Some(OutputFormat::SevenZ)
    } else if format == "tgz"@ {
        Some(OutputFormat::Tgz { level: level_value(level, 1, 6, 9) })
    } else if format == "tzst"@ {
        Some(OutputFormat::Tzst { level: level_value(level, 3, 9, 19) })
    } else {
        None
    }
}

/// Chooses the writer and compression level for `compress_files`.
pub fn output_format(format: &str, level: &str) -> (r: Result<OutputFormat, String>)
    ensures
        match output_format_of(format@, level@) {
            Some(o) => r == Ok::<OutputFormat, String>(o),
            None => r matches Err(e) && e@ == unknown_format_message(format@),
        },
{
    let f = to_chars(format);
    if equals(&f, "h265") || equals(&f, "avif") {
        Ok(OutputFormat::Media)
    } else if equals(&f, "zip") {
        Ok(OutputFormat::Zip { level: level_of(level, 1, 6, 9) })
    } else if equals(&f, "7z") {
        Ok(OutputFormat::SevenZ)
    } else if equals(&f, "tgz") {
        Ok(OutputFormat::Tgz { level: level_of(level, 1, 6, 9) })
    } else if equals(&f, "tzst") {
        Ok(OutputFormat::Tzst { level: level_of(level, 3, 9, 19) })
    } else {
        Err(concat("Unknown output format: ", format))
    }
}


/// How one input of a compression becomes a root of the new archive.
pub struct RootPlan {
    /// The name the input has inside the archive.
    pub name: String,
    /// For an archive input: the staging folder (under the temporary
    /// directory) it is extracted into first.
    pub stage: Option<String>,
    /// For an archive input: the progress note shown while it is opened.
    pub opening: Option<String>,
}

/// The name of the root for input number `i`: a folder or a plain file keeps
/// its file name, an archive its file stem; a path without one is named
/// after its position.
pub open spec fn root_name_of(i: nat, path: Seq<char>, is_dir: bool, is_archive: bool) -> Seq<char> {
    if is_dir {
        or_else(file_name_of(path), "folder_"@ + crate::text::decimal(i))
    } else if is_archive {
        or_else(crate::paths::file_stem_of(path), "archive_"@ + crate::text::decimal(i))
    } else {
        or_else(file_name_of(path), "file_"@ + crate::text::decimal(i))
    }
}

/// The text of `prefix` followed by the decimal notation of `i`.
fn numbered(prefix: &str, i: usize) -> (r: String)
    ensures
        r@ == prefix@ + crate::text::decimal(i as nat),
{
    let mut v = to_chars(prefix);
    crate::text::push_decimal(&mut v, i as u64);
    from_chars(&v)
}

/// Plans input number `i` (at `path`) of a compression: its name inside the
/// new archive, and for an archive input where it is staged.
pub fn plan_root(i: usize, path: &str, is_dir: bool, is_archive: bool, windows: bool) -> (r: RootPlan)
    ensures
        r.name@ == root_name_of(i as nat, platform_view(path@, windows), is_dir, is_archive),
        !is_dir && is_archive ==> (r.stage matches Some(s) && s@ == crate::text::decimal(i as nat)
            + "_"@ + r.name@),
        !is_dir && is_archive ==> (r.opening matches Some(s) && s@ == "Opening "@ + r.name@
            + "\u{2026}"@),
        is_dir || !is_archive ==> r.stage is None && r.opening is None,
{
    let view = to_platform_view(path, windows);
    let path = view.as_str();
    if is_dir {
        let name = match file_name(path) {
            Some(n) => n,
            None => numbered("folder_", i),
        };
        RootPlan { name, stage: None, opening: None }
    } else if is_archive {
        let name = match crate::paths::file_stem(path) {
            Some(n) => n,
            None => numbered("archive_", i),
        };
        let mut st: Vec<char> = Vec::new();
        crate::text::push_decimal(&mut st, i as u64);
        crate::text::push_str(&mut st, "_");
        crate::text::push_str(&mut st, name.as_str());
        let mut op = to_chars("Opening ");
        crate::text::push_str(&mut op, name.as_str());
        crate::text::push_str(&mut op, "\u{2026}");
        proof {
            assert(st@ =~= crate::text::decimal(i as nat) + "_"@ + name@);
            assert(op@ =~= "Opening "@ + name@ + "\u{2026}"@);
        }
        RootPlan { name, stage: Some(from_chars(&st)), opening: Some(from_chars(&op)) }
    } else {
        let name = match file_name(path) {
            Some(n) => n,
            None => numbered("file_", i),
        };
        RootPlan { name, stage: None, opening: None }
    }
}

/// The archive-relative name of an entry found at `rel` under a root named
/// `root`: the root itself is named `root`, everything below it
/// `root/rel` with `/` as the separator.
pub open spec fn entry_name_of(root: Seq<char>, rel: Seq<char>) -> Seq<char> {
    if rel.len() == 0 {
        root
    } else {
        root.push('/') + forward_slashes(rel)
    }
}

pub fn entry_name(root: &str, rel: &str) -> (r: String)
    ensures
        r@ == entry_name_of(root@, rel@),
{
    if rel.is_empty() {
        return String::from_str(root);
    }
    let mut v = to_chars(root);
    v.push('/');
    let s = to_forward_slashes(rel);
    crate::text::push_str(&mut v, s.as_str());
    from_chars(&v)
}

/// Archives keep the root's name: every entry collected under a root is
/// named by the root's name, and an entry below the root by that name and
/// `/` followed by its relative path (so in name order the root's own entry
/// comes first).
pub proof fn lemma_entry_named_inside_root(root: Seq<char>, rel: Seq<char>)
    ensures
        crate::text::starts_with(entry_name_of(root, rel), root),
        rel.len() > 0 ==> crate::text::starts_with(entry_name_of(root, rel), root.push('/')),
        rel.len() > 0 ==> entry_name_of(root, rel) != root,
{
    let n = entry_name_of(root, rel);
    assert(n.subrange(0, root.len() as int) =~= root);
    if rel.len() > 0 {
        assert(n.subrange(0, root.len() + 1int) =~= root.push('/'));
        assert(n.len() > root.len());
    }
}

/// The preview of a single compressed file recognised by its name shows
/// the name of the file its extraction writes.
pub proof fn lemma_listing_names_extracted_file(path: Seq<char>, head: Seq<u8>)
    requires
        kind_by_ext(path) matches Some(k) && is_single_stream(k),
    ensures
        detected_kind(path, head) == kind_by_ext(path),
        single_ext_stripped(path) == Some(single_output_name_of(path)),
{
    lemma_named_stream_has_output_name(path);
}

/// A name with a lowercase label is its own lower-cased form.
proof fn lemma_label_name(k: ArchiveKind)
    ensures
        ({
            let n = seq!['x', '.'] + kind_label(k);
            &&& ascii_lower(n) == n
            &&& file_name_of(n) == Some(n)
        }),
{
    reveal_strlit(".tar.gz");
    reveal_strlit(".tgz");
    reveal_strlit(".tar.bz2");
    reveal_strlit(".tbz2");
    reveal_strlit(".tbz");
    reveal_strlit(".tar.xz");
    reveal_strlit(".txz");
    reveal_strlit(".tar.zst");
    reveal_strlit(".tzst");
    reveal_strlit(".zip");
    reveal_strlit(".7z");
    reveal_strlit(".rar");
    reveal_strlit(".tar");
    reveal_strlit(".gz");
    reveal_strlit(".bz2");
    reveal_strlit(".xz");
    reveal_strlit(".zst");
    reveal_strlit(".zstd");
    reveal_strlit("zip");
    reveal_strlit("7z");
    reveal_strlit("rar");
    reveal_strlit("tar");
    reveal_strlit("tar.gz");
    reveal_strlit("tar.bz2");
    reveal_strlit("tar.xz");
    reveal_strlit("tar.zst");
    reveal_strlit("gz");
    reveal_strlit("bz2");
    reveal_strlit("xz");
    reveal_strlit("zst");
    let n = seq!['x', '.'] + kind_label(k);
    assert(ascii_lower(n) =~= n);
    crate::paths::lemma_plain_name(n);
}

/// Detection by name gives a format back from its label: a file named
/// `x.` followed by the label of `k` is detected as `k`.
#[verifier::rlimit(60)]
pub proof fn lemma_detects_labelled_name(k: ArchiveKind)
    ensures
        kind_by_ext(seq!['x', '.'] + kind_label(k)) == Some(k),
{
    reveal_strlit(".tar.gz");
    reveal_strlit(".tgz");
    reveal_strlit(".tar.bz2");
    reveal_strlit(".tbz2");
    reveal_strlit(".tbz");
    reveal_strlit(".tar.xz");
    reveal_strlit(".txz");
    reveal_strlit(".tar.zst");
    reveal_strlit(".tzst");
    reveal_strlit(".zip");
    reveal_strlit(".7z");
    reveal_strlit(".rar");
    reveal_strlit(".tar");
    reveal_strlit(".gz");
    reveal_strlit(".bz2");
    reveal_strlit(".xz");
    reveal_strlit(".zst");
    reveal_strlit(".zstd");
    reveal_strlit("zip");
    reveal_strlit("7z");
    reveal_strlit("rar");
    reveal_strlit("tar");
    reveal_strlit("tar.gz");
    reveal_strlit("tar.bz2");
    reveal_strlit("tar.xz");
    reveal_strlit("tar.zst");
    reveal_strlit("gz");
    reveal_strlit("bz2");
    reveal_strlit("xz");
    reveal_strlit("zst");
    lemma_label_name(k);
    let n = seq!['x', '.'] + kind_label(k);
    match k {
        ArchiveKind::Zip => {
            assert(n =~= seq!['x', '.', 'z', 'i', 'p']);
            assert(n.subrange(1, 5)[1] != ".tgz"@[1]);
            assert(n.subrange(0, 5)[0] != ".tbz2"@[0]);
            assert(n.subrange(1, 5)[1] != ".tbz"@[1]);
            assert(n.subrange(1, 5)[1] != ".txz"@[1]);
            assert(n.subrange(0, 5)[0] != ".tzst"@[0]);
            assert(n.subrange(1, 5) =~= ".zip"@);
            assert(kind_by_name(n) == Some(ArchiveKind::Zip));
        },
        ArchiveKind::SevenZ => {
            assert(n =~= seq!['x', '.', '7', 'z']);
            assert(n.subrange(0, 4)[0] != ".tgz"@[0]);
            assert(n.subrange(0, 4)[0] != ".tbz"@[0]);
            assert(n.subrange(0, 4)[0] != ".txz"@[0]);
            assert(n.subrange(0, 4)[0] != ".zip"@[0]);
            assert(n.subrange(1, 4) =~= ".7z"@);
            assert(kind_by_name(n) == Some(ArchiveKind::SevenZ));
        },
        ArchiveKind::Rar => {
            assert(n =~= seq!['x', '.', 'r', 'a', 'r']);
            assert(n.subrange(1, 5)[1] != ".tgz"@[1]);
            assert(n.subrange(0, 5)[0] != ".tbz2"@[0]);
            assert(n.subrange(1, 5)[1] != ".tbz"@[1]);
            assert(n.subrange(1, 5)[1] != ".txz"@[1]);
            assert(n.subrange(0, 5)[0] != ".tzst"@[0]);
            assert(n.subrange(1, 5)[1] != ".zip"@[1]);
            assert(n.subrange(2, 5)[0] != ".7z"@[0]);
            assert(n.subrange(1, 5) =~= ".rar"@);
            assert(kind_by_name(n) == Some(ArchiveKind::Rar));
        },
        ArchiveKind::Tar => {
            assert(n =~= seq!['x', '.', 't', 'a', 'r']);
            assert(n.subrange(1, 5)[2] != ".tgz"@[2]);
            assert(n.subrange(0, 5)[0] != ".tbz2"@[0]);
            assert(n.subrange(1, 5)[2] != ".tbz"@[2]);
            assert(n.subrange(1, 5)[2] != ".txz"@[2]);
            assert(n.subrange(0, 5)[0] != ".tzst"@[0]);
            assert(n.subrange(1, 5)[1] != ".zip"@[1]);
            assert(n.subrange(2, 5)[0] != ".7z"@[0]);
            assert(n.subrange(1, 5)[1] != ".rar"@[1]);
            assert(n.subrange(1, 5) =~= ".tar"@);
            assert(kind_by_name(n) == Some(ArchiveKind::Tar));
        },
        ArchiveKind::TarGz => {
            assert(n =~= seq!['x', '.', 't', 'a', 'r', '.', 'g', 'z']);
            assert(n.subrange(1, 8) =~= ".tar.gz"@);
            assert(kind_by_name(n) == Some(ArchiveKind::TarGz));
        },
        ArchiveKind::TarBz2 => {
            assert(n =~= seq!['x', '.', 't', 'a', 'r', '.', 'b', 'z', '2']);
            assert(n.subrange(2, 9)[0] != ".tar.gz"@[0]);
            assert(n.subrange(5, 9)[1] != ".tgz"@[1]);
            assert(n.subrange(1, 9) =~= ".tar.bz2"@);
            assert(kind_by_name(n) == Some(ArchiveKind::TarBz2));
        },
        ArchiveKind::TarXz => {
            assert(n =~= seq!['x', '.', 't', 'a', 'r', '.', 'x', 'z']);
            assert(n.subrange(1, 8)[5] != ".tar.gz"@[5]);
            assert(n.subrange(4, 8)[0] != ".tgz"@[0]);
            assert(n.subrange(0, 8)[0] != ".tar.bz2"@[0]);
            assert(n.subrange(3, 8)[0] != ".tbz2"@[0]);
            assert(n.subrange(4, 8)[0] != ".tbz"@[0]);
            assert(n.subrange(1, 8) =~= ".tar.xz"@);
            assert(kind_by_name(n) == Some(ArchiveKind::TarXz));
        },
        ArchiveKind::TarZst => {
            assert(n =~= seq!['x', '.', 't', 'a', 'r', '.', 'z', 's', 't']);
            assert(n.subrange(2, 9)[0] != ".tar.gz"@[0]);
            assert(n.subrange(5, 9)[1] != ".tgz"@[1]);
            assert(n.subrange(1, 9)[5] != ".tar.bz2"@[5]);
            assert(n.subrange(4, 9)[0] != ".tbz2"@[0]);
            assert(n.subrange(5, 9)[1] != ".tbz"@[1]);
            assert(n.subrange(2, 9)[0] != ".tar.xz"@[0]);
            assert(n.subrange(5, 9)[1] != ".txz"@[1]);
            assert(n.subrange(1, 9) =~= ".tar.zst"@);
            assert(kind_by_name(n) == Some(ArchiveKind::TarZst));
        },
        ArchiveKind::Gz => {
            assert(n =~= seq!['x', '.', 'g', 'z']);
            assert(n.subrange(0, 4)[0] != ".tgz"@[0]);
            assert(n.subrange(0, 4)[0] != ".tbz"@[0]);
            assert(n.subrange(0, 4)[0] != ".txz"@[0]);
            assert(n.subrange(0, 4)[0] != ".zip"@[0]);
            assert(n.subrange(1, 4)[1] != ".7z"@[1]);
            assert(n.subrange(0, 4)[0] != ".rar"@[0]);
            assert(n.subrange(0, 4)[0] != ".tar"@[0]);
            assert(n.subrange(1, 4) =~= ".gz"@);
            assert(kind_by_name(n) == Some(ArchiveKind::Gz));
        },
        ArchiveKind::Bz2 => {
            assert(n =~= seq!['x', '.', 'b', 'z', '2']);
            assert(n.subrange(1, 5)[1] != ".tgz"@[1]);
            assert(n.subrange(0, 5)[0] != ".tbz2"@[0]);
            assert(n.subrange(1, 5)[1] != ".tbz"@[1]);
            assert(n.subrange(1, 5)[1] != ".txz"@[1]);
            assert(n.subrange(0, 5)[0] != ".tzst"@[0]);
            assert(n.subrange(1, 5)[1] != ".zip"@[1]);
            assert(n.subrange(2, 5)[0] != ".7z"@[0]);
            assert(n.subrange(1, 5)[1] != ".rar"@[1]);
            assert(n.subrange(1, 5)[1] != ".tar"@[1]);
            assert(n.subrange(2, 5)[0] != ".gz"@[0]);
            assert(n.subrange(1, 5) =~= ".bz2"@);
            assert(kind_by_name(n) == Some(ArchiveKind::Bz2));
        },
        ArchiveKind::Xz => {
            assert(n =~= seq!['x', '.', 'x', 'z']);
            assert(n.subrange(0, 4)[0] != ".tgz"@[0]);
            assert(n.subrange(0, 4)[0] != ".tbz"@[0]);
            assert(n.subrange(0, 4)[0] != ".txz"@[0]);
            assert(n.subrange(0, 4)[0] != ".zip"@[0]);
            assert(n.subrange(1, 4)[1] != ".7z"@[1]);
            assert(n.subrange(0, 4)[0] != ".rar"@[0]);
            assert(n.subrange(0, 4)[0] != ".tar"@[0]);
            assert(n.subrange(1, 4)[1] != ".gz"@[1]);
            assert(n.subrange(0, 4)[0] != ".bz2"@[0]);
            assert(n.subrange(1, 4) =~= ".xz"@);
            assert(kind_by_name(n) == Some(ArchiveKind::Xz));
        },
        ArchiveKind::Zst => {
            assert(n =~= seq!['x', '.', 'z', 's', 't']);
            assert(n.subrange(1, 5)[1] != ".tgz"@[1]);
            assert(n.subrange(0, 5)[0] != ".tbz2"@[0]);
            assert(n.subrange(1, 5)[1] != ".tbz"@[1]);
            assert(n.subrange(1, 5)[1] != ".txz"@[1]);
            assert(n.subrange(0, 5)[0] != ".tzst"@[0]);
            assert(n.subrange(1, 5)[2] != ".zip"@[2]);
            assert(n.subrange(2, 5)[0] != ".7z"@[0]);
            assert(n.subrange(1, 5)[1] != ".rar"@[1]);
            assert(n.subrange(1, 5)[1] != ".tar"@[1]);
            assert(n.subrange(2, 5)[0] != ".gz"@[0]);
            assert(n.subrange(1, 5)[1] != ".bz2"@[1]);
            assert(n.subrange(2, 5)[0] != ".xz"@[0]);
            assert(n.subrange(1, 5) =~= ".zst"@);
            assert(kind_by_name(n) == Some(ArchiveKind::Zst));
        },
    }
}

/// Distinct formats have distinct labels.
pub proof fn lemma_labels_distinct(a: ArchiveKind, b: ArchiveKind)
    requires
        a != b,
    ensures
        kind_label(a) != kind_label(b),
{
    reveal_strlit("zip");
    reveal_strlit("7z");
    reveal_strlit("rar");
    reveal_strlit("tar");
    reveal_strlit("tar.gz");
    reveal_strlit("tar.bz2");
    reveal_strlit("tar.xz");
    reveal_strlit("tar.zst");
    reveal_strlit("gz");
    reveal_strlit("bz2");
    reveal_strlit("xz");
    reveal_strlit("zst");
    if kind_label(a) == kind_label(b) {
        assert(kind_label(a).len() == kind_label(b).len());
        assert(kind_label(a)[0] == kind_label(b)[0]);
        assert(kind_label(a)[kind_label(a).len() - 1] == kind_label(b)[kind_label(b).len() - 1]);
        assert(kind_label(a)[kind_label(a).len() - 2] == kind_label(b)[kind_label(b).len() - 2]);
    }
}

/// A single compressed file recognised by its name always has a name for
/// its decompressed output: the file name without the compression suffix.
pub proof fn lemma_named_stream_has_output_name(path: Seq<char>)
    requires
        kind_by_ext(path) matches Some(k) && is_single_stream(k),
    ensures
        single_ext_stripped(path) is Some,
{
}


/// Describes one input path for the list shown to the user: its name (the
/// file name, else the path), a folder with the size of its files, or a file
/// with its size that is an archive when a format was recognised.
pub fn describe_path(path: &str, is_dir: bool, size: u64, archive: Option<ArchiveKind>, windows: bool) -> (r: FileInfo)
    ensures
        r.path@ == path@,
        r.name@ == or_else(file_name_of(platform_view(path@, windows)), path@),
        r.size == size,
        r.is_dir == is_dir,
        is_dir ==> r.kind@ == "folder"@ && r.archive_format is None,
        !is_dir ==> match archive {
            Some(k) => r.kind@ == "archive"@ && (r.archive_format matches Some(f) && f@ == kind_label(k)),
            None => r.kind@ == "file"@ && r.archive_format is None,
        },
{
    let name = match file_name(to_platform_view(path, windows).as_str()) {
        Some(n) => n,
        None => String::from_str(path),
    };
    if is_dir {
        FileInfo {
            path: String::from_str(path),
            name,
            size,
            is_dir: true,
            kind: String::from_str("folder"),
            archive_format: None,
        }
    } else {
        match archive {
            Some(k) => FileInfo {
                path: String::from_str(path),
                name,
                size,
                is_dir: false,
                kind: String::from_str("archive"),
                archive_format: Some(String::from_str(k.label())),
            },
            None => FileInfo {
                path: String::from_str(path),
                name,
                size,
                is_dir: false,
                kind: String::from_str("file"),
                archive_format: None,
            },
        }
    }
}

} // verus!
