//! Decoding of a package directory file: the header, the packed directory
//! tree, and the index from relative file path to per-file metadata; and a
//! read/seek cursor over one logical file that splices inline preload bytes
//! with externally stored archive bytes.

use vstd::prelude::*;
use vstd::utf8::{decode_utf8, valid_utf8};

use crate::text::str_eq;
use crate::vpk::format::{
    le16, le32, read_le16, read_le32, spec_directory_index, spec_entry_size, spec_header_v1_size,
    spec_header_v2_size, spec_signature,
};

verus! {

broadcast use vstd::std_specs::vec::group_vec_axioms;

/// An error from loading a package, looking a file up, or verifying one.
#[derive(Debug, PartialEq, Eq, Structural, Clone, Copy)]
pub enum VpkError {
    /// The file does not start with the package magic number.
    InvalidSignature,
    /// A header version other than 1 or 2.
    UnsupportedVersion(u32),
    /// The directory tree is truncated or otherwise malformed.
    MalformedTree,
    /// A name in the directory tree is not valid UTF-8.
    InvalidName,
    /// The requested path is not in the index.
    NotFound,
    /// The entry needs a sidecar archive, and none was supplied.
    MissingArchive,
    /// The entry's byte range does not fit inside its backing data.
    Truncated,
    /// The stored checksum does not match the computed one: computed, then
    /// stored.
    ChecksumMismatch(u32, u32),
}

/// The resolved metadata of one packed file.
pub struct FileM {
    pub crc: u32,
    pub preload: Seq<u8>,
    pub archive_index: u16,
    pub archive_offset: int,
    pub archive_length: u32,
}

// ---------------------------------------------------------------------------
// The directory tree, decoded.
// ---------------------------------------------------------------------------

/// The index of the first NUL byte at or after `pos`, or the length if none.
pub open spec fn find_nul(tree: Seq<u8>, pos: int) -> int
    decreases tree.len() - pos,
{
    if pos >= tree.len() {
        tree.len() as int
    } else if tree[pos] == 0 {
        pos
    } else {
        find_nul(tree, pos + 1)
    }
}

pub proof fn lemma_find_nul_bounds(tree: Seq<u8>, pos: int)
    requires
        pos <= tree.len(),
    ensures
        pos <= find_nul(tree, pos) <= tree.len(),
    decreases tree.len() - pos,
{
    if pos < tree.len() && tree[pos] != 0 {
        lemma_find_nul_bounds(tree, pos + 1);
    }
}

/// One NUL-terminated string at `pos`: the position after its terminator and
/// its raw bytes.  A string that runs off the end of the tree is an error.
pub open spec fn s_read_string(tree: Seq<u8>, pos: int) -> Result<(int, Seq<u8>), VpkError> {
    let e = find_nul(tree, pos);
    if e >= tree.len() {
        Err(VpkError::MalformedTree)
    } else {
        Ok((e + 1, tree.subrange(pos, e)))
    }
}

/// A single space denotes the empty string in the tree.
pub open spec fn unquirk(s: Seq<char>) -> Seq<char> {
    if s == seq![' '] {
        Seq::empty()
    } else {
        s
    }
}

/// The index of the last `.` in a file name, or `-1` if there is none.
pub open spec fn last_dot(name: Seq<char>) -> int
    decreases name.len(),
{
    if name.len() == 0 {
        -1
    } else if name.last() == '.' {
        name.len() - 1
    } else {
        last_dot(name.drop_last())
    }
}

/// A file name without its extension: everything before the last `.`, unless
/// the only `.` starts the name.
pub open spec fn stem_of(name: Seq<char>) -> Seq<char> {
    let i = last_dot(name);
    if i > 0 {
        name.subrange(0, i)
    } else {
        name
    }
}

/// The relative path of a tree entry: directory, then the name with its
/// extension replaced by the tree's extension, joined with `/`.
pub open spec fn full_path(path: Seq<char>, name: Seq<char>, ext: Seq<char>) -> Seq<char> {
    let joined = if path.len() == 0 {
        stem_of(name)
    } else {
        path + seq!['/'] + stem_of(name)
    };
    if ext.len() == 0 {
        joined
    } else {
        joined + seq!['.'] + ext
    }
}

/// One packed directory entry at `pos`, followed by its inline preload
/// bytes: the position after both, and the resolved metadata.  An entry whose
/// archive index is the directory sentinel stores its payload in the
/// directory file itself, at its offset shifted by `header_off`, the size of
/// header plus tree.
pub open spec fn s_entry(tree: Seq<u8>, pos: int, header_off: int) -> Result<
    (int, FileM),
    VpkError,
> {
    if pos + spec_entry_size() > tree.len() {
        Err(VpkError::MalformedTree)
    } else {
        let crc = le32(tree, pos);
        let preload_bytes = le16(tree, pos + 4);
        let archive_index = le16(tree, pos + 6);
        let entry_offset = le32(tree, pos + 8);
        let entry_length = le32(tree, pos + 12);
        if pos + spec_entry_size() + preload_bytes > tree.len() {
            Err(VpkError::MalformedTree)
        } else {
            Ok(
                (
                    pos + spec_entry_size() + preload_bytes,
                    FileM {
                        crc,
                        preload: tree.subrange(
                            pos + spec_entry_size(),
                            pos + spec_entry_size() + preload_bytes,
                        ),
                        archive_index,
                        archive_offset: if archive_index == spec_directory_index() {
                            entry_offset + header_off
                        } else {
                            entry_offset as int
                        },
                        archive_length: entry_length,
                    },
                ),
            )
        }
    }
}

/// The distance to the end of the tree, clamped at zero.
pub open spec fn trem(tree: Seq<u8>, pos: int) -> int {
    if pos <= tree.len() {
        tree.len() - pos
    } else {
        0
    }
}

/// The innermost loop of the tree walk: file names under one directory and
/// extension, each followed by its entry record, until the empty sentinel
/// name.  Every record sits past its name, so the guard on the recursion
/// always holds; it only makes the recursion evidently bounded, and the same
/// holds for the two walks above this one.
pub open spec fn s_files(
    tree: Seq<u8>,
    pos: int,
    header_off: int,
    path: Seq<char>,
    ext: Seq<char>,
) -> Result<(int, Seq<(Seq<char>, FileM)>), VpkError>
    decreases trem(tree, pos),
    via s_files_decreases
{
    match s_read_string(tree, pos) {
        Err(e) => Err(e),
        Ok((p1, raw)) => {
            if raw.len() == 0 {
                Ok((p1, Seq::empty()))
            } else if !valid_utf8(raw) {
                Err(VpkError::InvalidName)
            } else {
                let name = unquirk(decode_utf8(raw));
                match s_entry(tree, p1, header_off) {
                    Err(e) => Err(e),
                    Ok((p2, fm)) => {
                        if pos < p2 <= tree.len() {
                            match s_files(tree, p2, header_off, path, ext) {
                                Err(e) => Err(e),
                                Ok((p3, rest)) => Ok(
                                    (p3, seq![(full_path(path, name, ext), fm)] + rest),
                                ),
                            }
                        } else {
                            arbitrary()
                        }
                    },
                }
            }
        }
    }
}

#[via_fn]
proof fn s_files_decreases(tree: Seq<u8>, pos: int, header_off: int, path: Seq<char>, ext: Seq<char>) {
}

/// The middle loop: directories under one extension, until the empty
/// sentinel.
pub open spec fn s_paths(tree: Seq<u8>, pos: int, header_off: int, ext: Seq<char>) -> Result<
    (int, Seq<(Seq<char>, FileM)>),
    VpkError,
>
    decreases trem(tree, pos),
    via s_paths_decreases
{
    match s_read_string(tree, pos) {
        Err(e) => Err(e),
        Ok((p1, raw)) => {
            if raw.len() == 0 {
                Ok((p1, Seq::empty()))
            } else if !valid_utf8(raw) {
                Err(VpkError::InvalidName)
            } else {
                let path = unquirk(decode_utf8(raw));
                match s_files(tree, p1, header_off, path, ext) {
                    Err(e) => Err(e),
                    Ok((p2, fs)) => {
                        if pos < p2 <= tree.len() {
                            match s_paths(tree, p2, header_off, ext) {
                                Err(e) => Err(e),
                                Ok((p3, rest)) => Ok((p3, fs + rest)),
                            }
                        } else {
                            arbitrary()
                        }
                    },
                }
            }
        }
    }
}

#[via_fn]
proof fn s_paths_decreases(tree: Seq<u8>, pos: int, header_off: int, ext: Seq<char>) {
}

/// The outer loop: extensions, until the empty sentinel or the end of the
/// tree.
pub open spec fn s_exts(tree: Seq<u8>, pos: int, header_off: int) -> Result<
    (int, Seq<(Seq<char>, FileM)>),
    VpkError,
>
    decreases trem(tree, pos),
    via s_exts_decreases
{
    if pos >= tree.len() {
        Ok((pos, Seq::empty()))
    } else {
        match s_read_string(tree, pos) {
            Err(e) => Err(e),
            Ok((p1, raw)) => {
                if raw.len() == 0 {
                    Ok((p1, Seq::empty()))
                } else if !valid_utf8(raw) {
                    Err(VpkError::InvalidName)
                } else {
                    let ext = unquirk(decode_utf8(raw));
                    match s_paths(tree, p1, header_off, ext) {
                        Err(e) => Err(e),
                        Ok((p2, fs)) => {
                            if pos < p2 <= tree.len() {
                                match s_exts(tree, p2, header_off) {
                                    Err(e) => Err(e),
                                    Ok((p3, rest)) => Ok((p3, fs + rest)),
                                }
                            } else {
                                arbitrary()
                            }
                        },
                    }
                }
            },
        }
    }
}

#[via_fn]
proof fn s_exts_decreases(tree: Seq<u8>, pos: int, header_off: int) {
}

/// What loading a directory file yields: the path-to-metadata pairs of the
/// tree, in tree order.
pub open spec fn s_load(data: Seq<u8>) -> Result<Seq<(Seq<char>, FileM)>, VpkError> {
    if data.len() < spec_header_v1_size() {
        Err(VpkError::InvalidSignature)
    } else if le32(data, 0) != spec_signature() {
        Err(VpkError::InvalidSignature)
    } else {
        let version = le32(data, 4);
        if version != 1 && version != 2 {
            Err(VpkError::UnsupportedVersion(version))
        } else {
            let hdr = if version == 1 {
                spec_header_v1_size()
            } else {
                spec_header_v2_size()
            };
            let tree_size = le32(data, 8);
            if data.len() < hdr + tree_size {
                Err(VpkError::MalformedTree)
            } else {
                let tree = data.subrange(hdr, hdr + tree_size);
                match s_exts(tree, 0, hdr + tree_size) {
                    Err(e) => Err(e),
                    Ok((_, files)) => Ok(files),
                }
            }
        }
    }
}

// ---------------------------------------------------------------------------
// Progress: the tree walk moves strictly forward, so its guards always hold.
// ---------------------------------------------------------------------------

pub proof fn lemma_s_read_string_progress(tree: Seq<u8>, pos: int)
    requires
        0 <= pos <= tree.len(),
    ensures
        s_read_string(tree, pos) matches Ok((p1, raw)) ==> pos < p1 <= tree.len(),
{
    lemma_find_nul_bounds(tree, pos);
}

pub proof fn lemma_s_entry_progress(tree: Seq<u8>, pos: int, header_off: int)
    ensures
        s_entry(tree, pos, header_off) matches Ok((p2, fm)) ==> pos < p2 <= tree.len(),
{
}

pub proof fn lemma_s_files_progress(
    tree: Seq<u8>,
    pos: int,
    header_off: int,
    path: Seq<char>,
    ext: Seq<char>,
)
    requires
        0 <= pos <= tree.len(),
    ensures
        s_files(tree, pos, header_off, path, ext) matches Ok((p, fs)) ==> pos < p <= tree.len(),
    decreases trem(tree, pos),
{
    lemma_s_read_string_progress(tree, pos);
    match s_read_string(tree, pos) {
        Err(_) => (),
        Ok((p1, raw)) => {
            if raw.len() != 0 && valid_utf8(raw) {
                lemma_s_entry_progress(tree, p1, header_off);
                match s_entry(tree, p1, header_off) {
                    Err(_) => (),
                    Ok((p2, fm)) => {
                        if pos < p2 <= tree.len() {
                            lemma_s_files_progress(tree, p2, header_off, path, ext);
                        }
                    },
                }
            }
        },
    }
}

pub proof fn lemma_s_paths_progress(tree: Seq<u8>, pos: int, header_off: int, ext: Seq<char>)
    requires
        0 <= pos <= tree.len(),
    ensures
        s_paths(tree, pos, header_off, ext) matches Ok((p, fs)) ==> pos < p <= tree.len(),
    decreases trem(tree, pos),
{
    lemma_s_read_string_progress(tree, pos);
    match s_read_string(tree, pos) {
        Err(_) => (),
        Ok((p1, raw)) => {
            if raw.len() != 0 && valid_utf8(raw) {
                lemma_s_files_progress(tree, p1, header_off, unquirk(decode_utf8(raw)), ext);
                match s_files(tree, p1, header_off, unquirk(decode_utf8(raw)), ext) {
                    Err(_) => (),
                    Ok((p2, fs)) => {
                        if pos < p2 <= tree.len() {
                            lemma_s_paths_progress(tree, p2, header_off, ext);
                        }
                    },
                }
            }
        },
    }
}

pub proof fn lemma_s_exts_progress(tree: Seq<u8>, pos: int, header_off: int)
    requires
        0 <= pos <= tree.len(),
    ensures
        s_exts(tree, pos, header_off) matches Ok((p, fs)) ==> pos <= p <= tree.len(),
    decreases trem(tree, pos),
{
    if pos < tree.len() {
        lemma_s_read_string_progress(tree, pos);
        match s_read_string(tree, pos) {
            Err(_) => (),
            Ok((p1, raw)) => {
                if raw.len() != 0 && valid_utf8(raw) {
                    lemma_s_paths_progress(tree, p1, header_off, unquirk(decode_utf8(raw)));
                    match s_paths(tree, p1, header_off, unquirk(decode_utf8(raw))) {
                        Err(_) => (),
                        Ok((p2, fs)) => {
                            if pos < p2 <= tree.len() {
                                lemma_s_exts_progress(tree, p2, header_off);
                            }
                        },
                    }
                }
            },
        }
    }
}


// ---------------------------------------------------------------------------
// The index and its entries.
// ---------------------------------------------------------------------------

/// The resolved metadata of one packed file, as stored.
#[derive(Debug)]
pub struct VPKFile {
    crc: u32,
    preload_data: Vec<u8>,
    archive_index: u16,
    archive_offset: u64,
    archive_length: u32,
}

/// One index entry: a relative path and its metadata.
#[derive(Debug)]
struct VPKEntry {
    path: String,
    file: VPKFile,
}

/// A loaded package directory: the file it came from, the base name used to
/// derive sidecar archive names, the raw directory bytes, and the index.
#[derive(Debug)]
pub struct VPK {
    path: String,
    base_path: String,
    dir_data: Vec<u8>,
    files: Vec<VPKEntry>,
}

pub closed spec fn file_m(f: &VPKFile) -> FileM {
    FileM {
        crc: f.crc,
        preload: f.preload_data@,
        archive_index: f.archive_index,
        archive_offset: f.archive_offset as int,
        archive_length: f.archive_length,
    }
}

spec fn ventries_model(es: Seq<VPKEntry>) -> Seq<(Seq<char>, FileM)>
    decreases es.len(),
{
    if es.len() <= 0 {
        Seq::empty()
    } else {
        seq![(es[0].path@, file_m(&es[0].file))] + ventries_model(es.subrange(1, es.len() as int))
    }
}

proof fn lemma_ventries_model_push(es: Seq<VPKEntry>, e: VPKEntry)
    ensures
        ventries_model(es.push(e)) == ventries_model(es) + seq![(e.path@, file_m(&e.file))],
    decreases es.len(),
{
    let em = (e.path@, file_m(&e.file));
    if es.len() == 0 {
        assert(es.push(e)[0] == e);
        assert(es.push(e).subrange(1, 1) =~= Seq::<VPKEntry>::empty());
        assert(ventries_model(Seq::<VPKEntry>::empty()) =~= Seq::<(Seq<char>, FileM)>::empty());
        assert(ventries_model(es.push(e)) =~= seq![em]);
        assert(ventries_model(es) + seq![em] =~= seq![em]);
    } else {
        let tail = es.subrange(1, es.len() as int);
        assert(es.push(e).subrange(1, es.len() as int + 1) =~= tail.push(e));
        lemma_ventries_model_push(tail, e);
        let em0 = (es[0].path@, file_m(&es[0].file));
        assert(es.push(e)[0] == es[0]);
        assert(ventries_model(es.push(e)) == seq![em0] + (ventries_model(tail) + seq![em]));
        assert(seq![em0] + (ventries_model(tail) + seq![em]) =~= (seq![em0] + ventries_model(
            tail,
        )) + seq![em]);
    }
}

proof fn lemma_ventries_model_index(es: Seq<VPKEntry>)
    ensures
        ventries_model(es).len() == es.len(),
        forall|j: int|
            0 <= j < es.len() ==> ventries_model(es)[j] == (es[j].path@, file_m(&es[j].file)),
    decreases es.len(),
{
    if es.len() > 0 {
        let tail = es.subrange(1, es.len() as int);
        lemma_ventries_model_index(tail);
        assert(forall|j: int| 0 <= j < tail.len() ==> tail[j] == es[j + 1]);
    }
}

/// The metadata a path refers to: the last index entry with that path, if
/// any.
pub open spec fn vlookup(files: Seq<(Seq<char>, FileM)>, path: Seq<char>) -> Option<FileM>
    decreases files.len(),
{
    if files.len() == 0 {
        None
    } else if files.last().0 == path {
        Some(files.last().1)
    } else {
        vlookup(files.drop_last(), path)
    }
}

/// Joins index entries already decoded to the result of decoding the rest.
pub open spec fn prepend_files(
    pre: Seq<(Seq<char>, FileM)>,
    r: Result<(int, Seq<(Seq<char>, FileM)>), VpkError>,
) -> Result<(int, Seq<(Seq<char>, FileM)>), VpkError> {
    match r {
        Ok((p, fs)) => Ok((p, pre + fs)),
        Err(e) => Err(e),
    }
}

// ---------------------------------------------------------------------------
// Small executable helpers.
// ---------------------------------------------------------------------------

/// Relies on `core::str::from_utf8`: it accepts exactly valid UTF-8 and
/// yields the characters that the bytes encode.
#[verifier::external_body]
fn utf8_to_string(v: &Vec<u8>) -> (r: Option<String>)
    ensures
        r is Some <==> valid_utf8(v@),
        r matches Some(s) ==> s@ == decode_utf8(v@),
{
    match core::str::from_utf8(v.as_slice()) {
        Ok(s) => Some(s.to_string()),
        Err(_) => None,
    }
}

/// A copy of `src[start..end]`.
fn copy_range(src: &Vec<u8>, start: usize, end: usize) -> (r: Vec<u8>)
    requires
        start <= end <= src@.len(),
    ensures
        r@ == src@.subrange(start as int, end as int),
{
    let mut v: Vec<u8> = Vec::new();
    let mut i = start;
    while i < end
        invariant
            start <= i <= end <= src@.len(),
            v@ =~= src@.subrange(start as int, i as int),
        decreases end - i,
    {
        v.push(src[i]);
        proof {
            assert(v@ =~= src@.subrange(start as int, i + 1));
        }
        i = i + 1;
    }
    v
}

fn unquirk_exec(s: String) -> (r: String)
    ensures
        r@ == unquirk(s@),
{
    let is_space = s.as_str().unicode_len() == 1 && s.as_str().get_char(0) == ' ';
    if is_space {
        proof {
            assert(s@ =~= seq![' ']);
        }
        crate::text::empty_string()
    } else {
        proof {
            assert(s@ != seq![' ']);
        }
        s
    }
}

fn read_string(tree: &Vec<u8>, pos: usize) -> (r: Result<(usize, Vec<u8>), VpkError>)
    requires
        pos <= tree@.len(),
    ensures
        match s_read_string(tree@, pos as int) {
            Ok((p1, raw)) => r matches Ok((p, v)) && p == p1 && v@ == raw,
            Err(e) => r == Err::<(usize, Vec<u8>), VpkError>(e),
        },
{
    let n = tree.len();
    let mut e = pos;
    loop
        invariant
            pos <= e <= n,
            n == tree@.len(),
            find_nul(tree@, pos as int) == find_nul(tree@, e as int),
        ensures
            pos <= e <= n,
            n == tree@.len(),
            e == find_nul(tree@, pos as int) || (e == n && find_nul(tree@, pos as int) >= n),
        decreases n - e,
    {
        if e >= n {
            break ;
        }
        if tree[e] == 0 {
            break ;
        }
        e = e + 1;
    }
    if e >= n {
        return Err(VpkError::MalformedTree);
    }
    let v = copy_range(tree, pos, e);
    Ok((e + 1, v))
}

fn read_entry(tree: &Vec<u8>, pos: usize, header_off: u64) -> (r: Result<(usize, VPKFile), VpkError>)
    requires
        pos <= tree@.len(),
        header_off <= 0x2_0000_0000,
    ensures
        match s_entry(tree@, pos as int, header_off as int) {
            Ok((p2, fm)) => r matches Ok((p, f)) && p == p2 && file_m(&f) == fm,
            Err(e) => r == Err::<(usize, VPKFile), VpkError>(e),
        },
{
    let n = tree.len();
    if n - pos < 18 {
        return Err(VpkError::MalformedTree);
    }
    let crc = read_le32(tree, pos);
    let preload_bytes = read_le16(tree, pos + 4);
    let archive_index = read_le16(tree, pos + 6);
    let entry_offset = read_le32(tree, pos + 8);
    let entry_length = read_le32(tree, pos + 12);
    let _terminator = read_le16(tree, pos + 16);
    if n - (pos + 18) < preload_bytes as usize {
        return Err(VpkError::MalformedTree);
    }
    let preload_data = copy_range(tree, pos + 18, pos + 18 + preload_bytes as usize);
    let archive_offset: u64 = if archive_index == crate::vpk::format::directory_index() {
        entry_offset as u64 + header_off
    } else {
        entry_offset as u64
    };
    Ok(
        (
            pos + 18 + preload_bytes as usize,
            VPKFile { crc, preload_data, archive_index, archive_offset, archive_length: entry_length },
        ),
    )
}


proof fn lemma_ventries_model_concat(a: Seq<VPKEntry>, b: Seq<VPKEntry>)
    ensures
        ventries_model(a + b) == ventries_model(a) + ventries_model(b),
    decreases a.len(),
{
    if a.len() == 0 {
        assert(a + b =~= b);
        assert(ventries_model(a) =~= Seq::<(Seq<char>, FileM)>::empty());
        assert(ventries_model(a) + ventries_model(b) =~= ventries_model(b));
    } else {
        let tail = a.subrange(1, a.len() as int);
        assert((a + b)[0] == a[0]);
        assert((a + b).subrange(1, (a + b).len() as int) =~= tail + b);
        lemma_ventries_model_concat(tail, b);
        let em0 = (a[0].path@, file_m(&a[0].file));
        assert(ventries_model(a + b) == seq![em0] + (ventries_model(tail) + ventries_model(b)));
        assert(seq![em0] + (ventries_model(tail) + ventries_model(b)) =~= (seq![em0]
            + ventries_model(tail)) + ventries_model(b));
    }
}

// ---------------------------------------------------------------------------
// File names: stems, extensions, the base path and sidecar archive names.
// ---------------------------------------------------------------------------

/// The index of the last `/` in a path, or `-1` if there is none.
pub open spec fn last_slash(s: Seq<char>) -> int
    decreases s.len(),
{
    if s.len() == 0 {
        -1
    } else if s.last() == '/' {
        s.len() - 1
    } else {
        last_slash(s.drop_last())
    }
}

/// A name with every `_dir` infix removed, scanning left to right.
pub open spec fn strip_dir(s: Seq<char>) -> Seq<char>
    decreases s.len(),
{
    if s.len() < 4 {
        s
    } else if s.subrange(0, 4) == seq!['_', 'd', 'i', 'r'] {
        strip_dir(s.subrange(4, s.len() as int))
    } else {
        seq![s[0]] + strip_dir(s.subrange(1, s.len() as int))
    }
}

/// The directory file's path with `_dir` removed from its file name: the
/// base from which sidecar archive names are derived.
pub open spec fn base_path_of(p: Seq<char>) -> Seq<char> {
    let i = last_slash(p);
    if i >= 0 {
        p.subrange(0, i + 1) + strip_dir(p.subrange(i + 1, p.len() as int))
    } else {
        strip_dir(p)
    }
}

pub open spec fn digit_char(d: int) -> char {
    ((48 + d) as u8) as char
}

/// The decimal digits of a nonnegative number.
pub open spec fn dec_digits(n: int) -> Seq<char>
    decreases n,
{
    if n < 10 {
        seq![digit_char(n)]
    } else {
        dec_digits(n / 10).push(digit_char(n % 10))
    }
}

/// The decimal digits, zero-padded on the left to at least three.
pub open spec fn pad3(n: int) -> Seq<char> {
    if n < 10 {
        seq!['0', '0'] + dec_digits(n)
    } else if n < 100 {
        seq!['0'] + dec_digits(n)
    } else {
        dec_digits(n)
    }
}

/// The name of a numbered sidecar archive: the base path's file name with
/// `_NNN` inserted before its extension.
pub open spec fn archive_name_of(base: Seq<char>, idx: u16) -> Seq<char> {
    let i = last_slash(base);
    let dir = if i >= 0 {
        base.subrange(0, i + 1)
    } else {
        Seq::<char>::empty()
    };
    let fname = if i >= 0 {
        base.subrange(i + 1, base.len() as int)
    } else {
        base
    };
    let d = last_dot(fname);
    let stem = stem_of(fname);
    let ext = if d > 0 {
        fname.subrange(d + 1, fname.len() as int)
    } else {
        Seq::<char>::empty()
    };
    dir + stem + seq!['_'] + pad3(idx as int) + (if ext.len() > 0 {
        seq!['.'] + ext
    } else {
        Seq::<char>::empty()
    })
}

proof fn lemma_last_dot_bounds(name: Seq<char>)
    ensures
        -1 <= last_dot(name) < name.len(),
    decreases name.len(),
{
    if name.len() > 0 && name.last() != '.' {
        lemma_last_dot_bounds(name.drop_last());
    }
}

fn last_dot_exec(name: &str) -> (r: Option<usize>)
    ensures
        match r {
            Some(i) => last_dot(name@) == i as int,
            None => last_dot(name@) == -1,
        },
{
    let n = name.unicode_len();
    let mut j = n;
    proof {
        assert(name@.subrange(0, n as int) =~= name@);
    }
    while j > 0
        invariant
            j <= n,
            n == name@.len(),
            last_dot(name@) == last_dot(name@.subrange(0, j as int)),
        decreases j,
    {
        j = j - 1;
        proof {
            assert(name@.subrange(0, j + 1).last() == name@[j as int]);
            assert(name@.subrange(0, j + 1).drop_last() =~= name@.subrange(0, j as int));
        }
        if name.get_char(j) == '.' {
            return Some(j);
        }
    }
    None
}

proof fn lemma_last_slash_bounds(name: Seq<char>)
    ensures
        -1 <= last_slash(name) < name.len(),
    decreases name.len(),
{
    if name.len() > 0 && name.last() != '/' {
        lemma_last_slash_bounds(name.drop_last());
    }
}

fn last_slash_exec(name: &str) -> (r: Option<usize>)
    ensures
        match r {
            Some(i) => last_slash(name@) == i as int,
            None => last_slash(name@) == -1,
        },
{
    let n = name.unicode_len();
    let mut j = n;
    proof {
        assert(name@.subrange(0, n as int) =~= name@);
    }
    while j > 0
        invariant
            j <= n,
            n == name@.len(),
            last_slash(name@) == last_slash(name@.subrange(0, j as int)),
        decreases j,
    {
        j = j - 1;
        proof {
            assert(name@.subrange(0, j + 1).last() == name@[j as int]);
            assert(name@.subrange(0, j + 1).drop_last() =~= name@.subrange(0, j as int));
        }
        if name.get_char(j) == '/' {
            return Some(j);
        }
    }
    None
}

fn stem_exec(name: &str) -> (r: String)
    ensures
        r@ == stem_of(name@),
{
    match last_dot_exec(name) {
        Some(i) => {
            if i > 0 {
                let n = name.unicode_len();
                assert(i < n) by {
                    lemma_last_dot_bounds(name@);
                }
                String::from_str(name.substring_char(0, i))
            } else {
                String::from_str(name)
            }
        },
        None => String::from_str(name),
    }
}

fn make_full_path(path: &str, name: &str, ext: &str) -> (r: String)
    ensures
        r@ == full_path(path@, name@, ext@),
{
    let mut out = crate::text::empty_string();
    if path.unicode_len() > 0 {
        out.append(path);
        out.append("/");
        proof {
            reveal_strlit("/");
            assert("/"@ =~= seq!['/']);
        }
    }
    let stem = stem_exec(name);
    out.append(stem.as_str());
    if ext.unicode_len() > 0 {
        out.append(".");
        proof {
            reveal_strlit(".");
            assert("."@ =~= seq!['.']);
        }
        out.append(ext);
    }
    proof {
        assert(out@ =~= full_path(path@, name@, ext@));
    }
    out
}

fn strip_dir_exec(s: &str) -> (r: String)
    ensures
        r@ == strip_dir(s@),
{
    let n = s.unicode_len();
    let mut out = crate::text::empty_string();
    let mut i: usize = 0;
    proof {
        assert(s@.subrange(0, n as int) =~= s@);
        assert(Seq::<char>::empty() + strip_dir(s@) =~= strip_dir(s@));
    }
    while i < n
        invariant
            i <= n,
            n == s@.len(),
            strip_dir(s@) == out@ + strip_dir(s@.subrange(i as int, n as int)),
        decreases n - i,
    {
        let ghost suffix = s@.subrange(i as int, n as int);
        if n - i >= 4 && s.get_char(i) == '_' && s.get_char(i + 1) == 'd' && s.get_char(i + 2)
            == 'i' && s.get_char(i + 3) == 'r' {
            proof {
                assert(suffix.subrange(0, 4) =~= seq!['_', 'd', 'i', 'r']);
                assert(suffix.subrange(4, suffix.len() as int) =~= s@.subrange(
                    i + 4,
                    n as int,
                ));
            }
            i = i + 4;
        } else {
            proof {
                if suffix.len() >= 4 {
                    if suffix.subrange(0, 4) == seq!['_', 'd', 'i', 'r'] {
                        assert(suffix.subrange(0, 4)[0] == '_');
                        assert(suffix.subrange(0, 4)[1] == 'd');
                        assert(suffix.subrange(0, 4)[2] == 'i');
                        assert(suffix.subrange(0, 4)[3] == 'r');
                        assert(s@[i as int] == '_' && s@[i + 1] == 'd' && s@[i + 2] == 'i' && s@[i
                            + 3] == 'r');
                        assert(false);
                    }
                }
                assert(suffix[0] == s@[i as int]);
                assert(suffix.subrange(1, suffix.len() as int) =~= s@.subrange(i + 1, n as int));
            }
            let ghost out_old = out@;
            crate::text::push_char(&mut out, s.get_char(i));
            proof {
                assert(out@ =~= out_old + seq![s@[i as int]]);
                assert(out_old + (seq![s@[i as int]] + strip_dir(s@.subrange(i + 1, n as int)))
                    =~= out@ + strip_dir(s@.subrange(i + 1, n as int)));
            }
            i = i + 1;
        }
    }
    proof {
        assert(s@.subrange(n as int, n as int) =~= Seq::<char>::empty());
        assert(strip_dir(Seq::<char>::empty()) =~= Seq::<char>::empty());
        assert(out@ + Seq::<char>::empty() =~= out@);
    }
    out
}

fn dec_digits_exec(n: u16) -> (r: String)
    ensures
        r@ == dec_digits(n as int),
    decreases n,
{
    if n < 10 {
        let mut out = crate::text::empty_string();
        let b: u8 = 48 + (n % 10) as u8;
        crate::text::push_char(&mut out, b as char);
        proof {
            assert(out@ =~= dec_digits(n as int));
        }
        out
    } else {
        let mut out = dec_digits_exec(n / 10);
        let b: u8 = 48 + (n % 10) as u8;
        crate::text::push_char(&mut out, b as char);
        out
    }
}

fn pad3_exec(n: u16) -> (r: String)
    ensures
        r@ == pad3(n as int),
{
    let mut out = crate::text::empty_string();
    if n < 10 {
        crate::text::push_char(&mut out, '0');
        crate::text::push_char(&mut out, '0');
    } else if n < 100 {
        crate::text::push_char(&mut out, '0');
    }
    let digits = dec_digits_exec(n);
    out.append(digits.as_str());
    proof {
        assert(out@ =~= pad3(n as int));
    }
    out
}


// ---------------------------------------------------------------------------
// Loading.
// ---------------------------------------------------------------------------

fn load_files(tree: &Vec<u8>, pos: usize, header_off: u64, path: &str, ext: &str) -> (r: Result<
    (usize, Vec<VPKEntry>),
    VpkError,
>)
    requires
        pos <= tree@.len(),
        header_off <= 0x2_0000_0000,
    ensures
        match s_files(tree@, pos as int, header_off as int, path@, ext@) {
            Ok((p, fs)) => r matches Ok((p2, v)) && p2 == p && ventries_model(v@) == fs,
            Err(e) => r matches Err(e2) && e2 == e,
        },
{
    let mut entries: Vec<VPKEntry> = Vec::new();
    let mut cur = pos;
    proof {
        assert(ventries_model(entries@) =~= Seq::<(Seq<char>, FileM)>::empty());
        assert(ventries_model(entries@) + Seq::<(Seq<char>, FileM)>::empty() =~= ventries_model(
            entries@,
        ));
    }
    loop
        invariant
            pos <= tree@.len(),
            cur <= tree@.len(),
            header_off <= 0x2_0000_0000,
            prepend_files(
                ventries_model(entries@),
                s_files(tree@, cur as int, header_off as int, path@, ext@),
            ) == s_files(tree@, pos as int, header_off as int, path@, ext@),
        decreases tree@.len() - cur,
    {
        proof {
            lemma_s_read_string_progress(tree@, cur as int);
        }
        let sr = match read_string(tree, cur) {
            Ok(x) => x,
            Err(e) => {
                return Err(e);
            },
        };
        let p1 = sr.0;
        let raw = sr.1;
        if raw.len() == 0 {
            proof {
                assert(ventries_model(entries@) + Seq::<(Seq<char>, FileM)>::empty()
                    =~= ventries_model(entries@));
            }
            return Ok((p1, entries));
        }
        let name_s = match utf8_to_string(&raw) {
            Some(x) => x,
            None => {
                return Err(VpkError::InvalidName);
            },
        };
        let name = unquirk_exec(name_s);
        proof {
            lemma_s_entry_progress(tree@, p1 as int, header_off as int);
        }
        let er = match read_entry(tree, p1, header_off) {
            Ok(x) => x,
            Err(e) => {
                return Err(e);
            },
        };
        let p2 = er.0;
        let vf = er.1;
        let fp = make_full_path(path, name.as_str(), ext);
        let ghost es_old = entries@;
        let entry = VPKEntry { path: fp, file: vf };
        let ghost e_g = entry;
        entries.push(entry);
        proof {
            lemma_ventries_model_push(es_old, e_g);
            match s_files(tree@, p2 as int, header_off as int, path@, ext@) {
                Ok((p3, rest)) => {
                    assert(ventries_model(es_old) + (seq![(e_g.path@, file_m(&e_g.file))] + rest)
                        =~= (ventries_model(es_old) + seq![(e_g.path@, file_m(&e_g.file))])
                        + rest);
                },
                Err(_) => {},
            }
        }
        cur = p2;
    }
}

fn load_paths(tree: &Vec<u8>, pos: usize, header_off: u64, ext: &str) -> (r: Result<
    (usize, Vec<VPKEntry>),
    VpkError,
>)
    requires
        pos <= tree@.len(),
        header_off <= 0x2_0000_0000,
    ensures
        match s_paths(tree@, pos as int, header_off as int, ext@) {
            Ok((p, fs)) => r matches Ok((p2, v)) && p2 == p && ventries_model(v@) == fs,
            Err(e) => r matches Err(e2) && e2 == e,
        },
{
    let mut entries: Vec<VPKEntry> = Vec::new();
    let mut cur = pos;
    proof {
        assert(ventries_model(entries@) =~= Seq::<(Seq<char>, FileM)>::empty());
        assert(ventries_model(entries@) + Seq::<(Seq<char>, FileM)>::empty() =~= ventries_model(
            entries@,
        ));
    }
    loop
        invariant
            pos <= tree@.len(),
            cur <= tree@.len(),
            header_off <= 0x2_0000_0000,
            prepend_files(
                ventries_model(entries@),
                s_paths(tree@, cur as int, header_off as int, ext@),
            ) == s_paths(tree@, pos as int, header_off as int, ext@),
        decreases tree@.len() - cur,
    {
        proof {
            lemma_s_read_string_progress(tree@, cur as int);
        }
        let sr = match read_string(tree, cur) {
            Ok(x) => x,
            Err(e) => {
                return Err(e);
            },
        };
        let p1 = sr.0;
        let raw = sr.1;
        if raw.len() == 0 {
            proof {
                assert(ventries_model(entries@) + Seq::<(Seq<char>, FileM)>::empty()
                    =~= ventries_model(entries@));
            }
            return Ok((p1, entries));
        }
        let dir_s = match utf8_to_string(&raw) {
            Some(x) => x,
            None => {
                return Err(VpkError::InvalidName);
            },
        };
        let dir = unquirk_exec(dir_s);
        proof {
            lemma_s_files_progress(tree@, p1 as int, header_off as int, dir@, ext@);
        }
        let fr = match load_files(tree, p1, header_off, dir.as_str(), ext) {
            Ok(x) => x,
            Err(e) => {
                return Err(e);
            },
        };
        let p2 = fr.0;
        let mut v = fr.1;
        let ghost es_old = entries@;
        let ghost v_g = v@;
        entries.append(&mut v);
        proof {
            lemma_ventries_model_concat(es_old, v_g);
            match s_paths(tree@, p2 as int, header_off as int, ext@) {
                Ok((p3, rest)) => {
                    assert(ventries_model(es_old) + (ventries_model(v_g) + rest)
                        =~= (ventries_model(es_old) + ventries_model(v_g)) + rest);
                },
                Err(_) => {},
            }
        }
        cur = p2;
    }
}

fn load_exts(tree: &Vec<u8>, pos: usize, header_off: u64) -> (r: Result<
    (usize, Vec<VPKEntry>),
    VpkError,
>)
    requires
        pos <= tree@.len(),
        header_off <= 0x2_0000_0000,
    ensures
        match s_exts(tree@, pos as int, header_off as int) {
            Ok((p, fs)) => r matches Ok((p2, v)) && p2 == p && ventries_model(v@) == fs,
            Err(e) => r matches Err(e2) && e2 == e,
        },
{
    let mut entries: Vec<VPKEntry> = Vec::new();
    let mut cur = pos;
    proof {
        assert(ventries_model(entries@) =~= Seq::<(Seq<char>, FileM)>::empty());
        assert(ventries_model(entries@) + Seq::<(Seq<char>, FileM)>::empty() =~= ventries_model(
            entries@,
        ));
    }
    loop
        invariant
            pos <= tree@.len(),
            cur <= tree@.len(),
            header_off <= 0x2_0000_0000,
            prepend_files(
                ventries_model(entries@),
                s_exts(tree@, cur as int, header_off as int),
            ) == s_exts(tree@, pos as int, header_off as int),
        decreases tree@.len() - cur,
    {
        if cur >= tree.len() {
            proof {
                assert(ventries_model(entries@) + Seq::<(Seq<char>, FileM)>::empty()
                    =~= ventries_model(entries@));
            }
            return Ok((cur, entries));
        }
        proof {
            lemma_s_read_string_progress(tree@, cur as int);
        }
        let sr = match read_string(tree, cur) {
            Ok(x) => x,
            Err(e) => {
                return Err(e);
            },
        };
        let p1 = sr.0;
        let raw = sr.1;
        if raw.len() == 0 {
            proof {
                assert(ventries_model(entries@) + Seq::<(Seq<char>, FileM)>::empty()
                    =~= ventries_model(entries@));
            }
            return Ok((p1, entries));
        }
        let ext_s = match utf8_to_string(&raw) {
            Some(x) => x,
            None => {
                return Err(VpkError::InvalidName);
            },
        };
        let ext = unquirk_exec(ext_s);
        proof {
            lemma_s_paths_progress(tree@, p1 as int, header_off as int, ext@);
        }
        let pr = match load_paths(tree, p1, header_off, ext.as_str()) {
            Ok(x) => x,
            Err(e) => {
                return Err(e);
            },
        };
        let p2 = pr.0;
        let mut v = pr.1;
        let ghost es_old = entries@;
        let ghost v_g = v@;
        entries.append(&mut v);
        proof {
            lemma_ventries_model_concat(es_old, v_g);
            match s_exts(tree@, p2 as int, header_off as int) {
                Ok((p3, rest)) => {
                    assert(ventries_model(es_old) + (ventries_model(v_g) + rest)
                        =~= (ventries_model(es_old) + ventries_model(v_g)) + rest);
                },
                Err(_) => {},
            }
        }
        cur = p2;
    }
}

impl VPK {
    /// The decoded index: path and metadata of every packed file, in tree
    /// order.
    pub closed spec fn files_m(&self) -> Seq<(Seq<char>, FileM)> {
        ventries_model(self.files@)
    }

    /// The raw bytes of the directory file.
    pub closed spec fn dir_m(&self) -> Seq<u8> {
        self.dir_data@
    }

    /// The directory file's path.
    pub closed spec fn path_m(&self) -> Seq<char> {
        self.path@
    }

    /// The base path from which sidecar archive names are derived.
    pub closed spec fn base_m(&self) -> Seq<char> {
        self.base_path@
    }

    /// Decodes a package directory from its path and raw bytes.
    pub fn load(path: &str, data: Vec<u8>) -> (r: Result<VPK, VpkError>)
        ensures
            match s_load(data@) {
                Ok(files) => r matches Ok(v) && v.files_m() == files && v.dir_m() == data@
                    && v.path_m() == path@ && v.base_m() == base_path_of(path@),
                Err(e) => r matches Err(e2) && e2 == e,
            },
    {
        let n = data.len();
        if n < 12 {
            return Err(VpkError::InvalidSignature);
        }
        let sig = read_le32(&data, 0);
        if sig != 0x55aa1234 {
            return Err(VpkError::InvalidSignature);
        }
        let version = read_le32(&data, 4);
        if version != 1 && version != 2 {
            return Err(VpkError::UnsupportedVersion(version));
        }
        let hdr: usize = if version == 1 {
            12
        } else {
            28
        };
        let tree_size32 = read_le32(&data, 8);
        if n < hdr || n - hdr < tree_size32 as usize {
            return Err(VpkError::MalformedTree);
        }
        let tree_size = tree_size32 as usize;
        let tree = copy_range(&data, hdr, hdr + tree_size);
        let header_off: u64 = hdr as u64 + tree_size as u64;
        let er = match load_exts(&tree, 0, header_off) {
            Ok(x) => x,
            Err(e) => {
                return Err(e);
            },
        };
        let files = er.1;
        let base_path = {
            match last_slash_exec(path) {
                Some(i) => {
                    proof {
                        lemma_last_slash_bounds(path@);
                    }
                    let plen = path.unicode_len();
                    let dir_part = path.substring_char(0, i + 1);
                    let name_part = path.substring_char(i + 1, plen);
                    let stripped = strip_dir_exec(name_part);
                    let mut b = String::from_str(dir_part);
                    b.append(stripped.as_str());
                    b
                },
                None => strip_dir_exec(path),
            }
        };
        Ok(VPK { path: String::from_str(path), base_path, dir_data: data, files })
    }

    /// The sidecar archive name for a numbered index.
    pub fn archive_name(&self, index: u16) -> (r: String)
        ensures
            r@ == archive_name_of(self.base_m(), index),
    {
        let base = self.base_path.as_str();
        let blen = base.unicode_len();
        let mut out = crate::text::empty_string();
        let fname = match last_slash_exec(base) {
            Some(i) => {
                proof {
                    lemma_last_slash_bounds(base@);
                }
                out.append(base.substring_char(0, i + 1));
                base.substring_char(i + 1, blen)
            },
            None => base,
        };
        let stem = stem_exec(fname);
        out.append(stem.as_str());
        crate::text::push_char(&mut out, '_');
        let padded = pad3_exec(index);
        out.append(padded.as_str());
        let flen = fname.unicode_len();
        match last_dot_exec(fname) {
            Some(d) => {
                if d > 0 {
                    proof {
                        lemma_last_dot_bounds(fname@);
                    }
                    let ext = fname.substring_char(d + 1, flen);
                    if ext.unicode_len() > 0 {
                        crate::text::push_char(&mut out, '.');
                        out.append(ext);
                    }
                }
            },
            None => {},
        }
        proof {
            assert(out@ =~= archive_name_of(self.base_m(), index));
        }
        out
    }
}


// ---------------------------------------------------------------------------
// The file handle.
// ---------------------------------------------------------------------------

/// The checksum stored for and computed over a file's bytes.
pub uninterp spec fn crc32_of(data: Seq<u8>) -> u32;

/// Relies on `crc32fast::hash`: the CRC-32 (IEEE) checksum of the bytes, a
/// function of the bytes alone.
#[verifier::external_body]
fn crc32(data: &Vec<u8>) -> (r: u32)
    ensures
        r == crc32_of(data@),
{
    crc32fast::hash(data.as_slice())
}

/// Where a seek is measured from.
#[derive(Debug, PartialEq, Eq, Structural, Clone, Copy)]
pub enum SeekFrom {
    Start(u64),
    Current(i64),
    End(i64),
}

/// A read/seek cursor over one packed file's bytes: the inline preload bytes
/// first, then the externally stored archive bytes, already sliced out of
/// their backing data.
#[derive(Debug)]
pub struct File {
    crc: u32,
    preload_data: Vec<u8>,
    backing: Option<Vec<u8>>,
    position: u64,
}

impl File {
    /// The logical bytes of the file: preload bytes, then archive bytes.
    pub closed spec fn content(&self) -> Seq<u8> {
        self.preload_data@ + match self.backing {
            Some(b) => b@,
            None => Seq::<u8>::empty(),
        }
    }

    /// The current logical position.
    pub closed spec fn pos(&self) -> int {
        self.position as int
    }

    /// The checksum stored in the directory for this file.
    pub closed spec fn stored_crc(&self) -> u32 {
        self.crc
    }

    pub open spec fn wf(&self) -> bool {
        self.content().len() <= usize::MAX
    }

    /// The total logical length: preload bytes plus archive bytes.
    pub fn len(&self) -> (r: usize)
        requires
            self.wf(),
        ensures
            r == self.content().len(),
    {
        let b = match &self.backing {
            Some(bk) => bk.len(),
            None => 0,
        };
        self.preload_data.len() + b
    }

    /// The current logical position.
    pub fn stream_position(&self) -> (r: u64)
        ensures
            r == self.pos(),
    {
        self.position
    }

    /// Moves the logical position: to an absolute offset, relative to the
    /// current position, or relative to the end of the content.
    pub fn seek(&mut self, pos: SeekFrom) -> (r: u64)
        requires
            old(self).wf(),
            match pos {
                SeekFrom::Start(_) => true,
                SeekFrom::Current(d) => 0 <= old(self).pos() + d <= u64::MAX,
                SeekFrom::End(d) => 0 <= old(self).content().len() + d <= u64::MAX,
            },
        ensures
            final(self).wf(),
            final(self).content() == old(self).content(),
            final(self).stored_crc() == old(self).stored_crc(),
            final(self).pos() == match pos {
                SeekFrom::Start(o) => o as int,
                SeekFrom::Current(d) => old(self).pos() + d,
                SeekFrom::End(d) => old(self).content().len() + d,
            },
            r as int == final(self).pos(),
    {
        match pos {
            SeekFrom::Start(offset) => {
                self.position = offset;
            },
            SeekFrom::Current(offset) => {
                let np = self.position as i128 + offset as i128;
                self.position = np as u64;
            },
            SeekFrom::End(offset) => {
                let l = self.len();
                let np = l as i128 + offset as i128;
                self.position = np as u64;
            },
        }
        self.position
    }

    /// Fills the front of `buf` with the next bytes of the content, as many
    /// as fit and remain, and advances the position by that count.  Reading
    /// at or past the end yields zero bytes.
    pub fn read(&mut self, buf: &mut Vec<u8>) -> (n: usize)
        requires
            old(self).wf(),
        ensures
            final(self).wf(),
            final(self).content() == old(self).content(),
            final(self).stored_crc() == old(self).stored_crc(),
            n == if old(self).pos() >= old(self).content().len() {
                0int
            } else if old(buf)@.len() <= old(self).content().len() - old(self).pos() {
                old(buf)@.len() as int
            } else {
                old(self).content().len() - old(self).pos()
            },
            final(self).pos() == old(self).pos() + n,
            final(buf)@.len() == old(buf)@.len(),
            forall|i: int|
                0 <= i < n ==> final(buf)@[i] == old(self).content()[old(self).pos() + i],
            forall|i: int| n <= i < old(buf)@.len() ==> final(buf)@[i] == old(buf)@[i],
    {
        let total = self.len();
        if self.position >= total as u64 {
            return 0;
        }
        let posu = self.position as usize;
        let remaining = total - posu;
        let n = if buf.len() < remaining {
            buf.len()
        } else {
            remaining
        };
        let pl = self.preload_data.len();
        let mut i: usize = 0;
        while i < n
            invariant
                self.wf(),
                self == old(self),
                posu == old(self).pos(),
                pl == self.preload_data@.len(),
                posu + n <= self.content().len(),
                i <= n,
                n <= buf@.len(),
                buf@.len() == old(buf)@.len(),
                forall|j: int| 0 <= j < i ==> buf@[j] == self.content()[posu + j],
                forall|j: int| i <= j < buf@.len() ==> buf@[j] == old(buf)@[j],
            decreases n - i,
        {
            let p = posu + i;
            let b = if p < pl {
                self.preload_data[p]
            } else {
                match &self.backing {
                    Some(bk) => bk[p - pl],
                    None => {
                        proof {
                            assert(self.content().len() == pl);
                            assert(false);
                        }
                        0
                    },
                }
            };
            proof {
                assert(self.content()[p as int] == b);
            }
            buf.set(i, b);
            i = i + 1;
        }
        self.position = self.position + n as u64;
        n
    }

    fn calc_crc32(&self) -> (r: u32)
        requires
            self.wf(),
        ensures
            r == crc32_of(self.content()),
    {
        let mut v: Vec<u8> = Vec::new();
        let pl = self.preload_data.len();
        let mut i: usize = 0;
        while i < pl
            invariant
                i <= pl,
                pl == self.preload_data@.len(),
                v@ =~= self.preload_data@.subrange(0, i as int),
            decreases pl - i,
        {
            v.push(self.preload_data[i]);
            proof {
                assert(v@ =~= self.preload_data@.subrange(0, i + 1));
            }
            i = i + 1;
        }
        proof {
            assert(self.preload_data@.subrange(0, pl as int) =~= self.preload_data@);
        }
        match &self.backing {
            Some(bk) => {
                let bl = bk.len();
                let mut j: usize = 0;
                while j < bl
                    invariant
                        j <= bl,
                        bl == bk@.len(),
                        v@ =~= self.preload_data@ + bk@.subrange(0, j as int),
                    decreases bl - j,
                {
                    v.push(bk[j]);
                    proof {
                        assert(v@ =~= self.preload_data@ + bk@.subrange(0, j + 1));
                    }
                    j = j + 1;
                }
                proof {
                    assert(bk@.subrange(0, bl as int) =~= bk@);
                    assert(v@ =~= self.content());
                }
            },
            None => {
                proof {
                    assert(v@ =~= self.content());
                }
            },
        }
        crc32(&v)
    }

    /// Checks the whole content against the stored checksum.
    pub fn verify(&self) -> (r: Result<(), VpkError>)
        requires
            self.wf(),
        ensures
            r is Ok <==> crc32_of(self.content()) == self.stored_crc(),
            r is Err ==> r == Err::<(), VpkError>(
                VpkError::ChecksumMismatch(crc32_of(self.content()), self.stored_crc()),
            ),
    {
        let computed = self.calc_crc32();
        if computed != self.crc {
            Err(VpkError::ChecksumMismatch(computed, self.crc))
        } else {
            Ok(())
        }
    }
}

impl VPK {
    fn find(&self, path: &str) -> (r: Option<&VPKFile>)
        ensures
            match vlookup(self.files_m(), path@) {
                None => r is None,
                Some(fm) => r matches Some(f) && file_m(f) == fm,
            },
    {
        proof {
            lemma_ventries_model_index(self.files@);
        }
        let ghost fm = self.files_m();
        let mut i: usize = self.files.len();
        proof {
            assert(fm.subrange(0, i as int) =~= fm);
        }
        while i > 0
            invariant
                fm == self.files_m(),
                ventries_model(self.files@) == fm,
                fm.len() == self.files@.len(),
                forall|j: int|
                    0 <= j < fm.len() ==> fm[j] == (self.files@[j].path@, file_m(
                        &self.files@[j].file,
                    )),
                i <= fm.len(),
                vlookup(fm, path@) == vlookup(fm.subrange(0, i as int), path@),
            decreases i,
        {
            i = i - 1;
            let ghost pre = fm.subrange(0, i as int + 1);
            proof {
                assert(pre.last() == fm[i as int]);
                assert(pre.drop_last() =~= fm.subrange(0, i as int));
            }
            if str_eq(self.files[i].path.as_str(), path) {
                return Some(&self.files[i].file);
            }
        }
        proof {
            assert(fm.subrange(0, 0).len() == 0);
        }
        None
    }

    /// Whether a path needs a sidecar archive, and if so which one: the name
    /// of the archive file whose bytes `get` must be handed.
    pub fn sidecar_for(&self, path: &str) -> (r: Result<Option<String>, VpkError>)
        ensures
            match vlookup(self.files_m(), path@) {
                None => r == Err::<Option<String>, VpkError>(VpkError::NotFound),
                Some(fm) => if fm.archive_length > 0 && fm.archive_index
                    != spec_directory_index() {
                    r matches Ok(o) && o matches Some(name) && name@ == archive_name_of(
                        self.base_m(),
                        fm.archive_index,
                    )
                } else {
                    r matches Ok(o) && o is None
                },
            },
    {
        let f = match self.find(path) {
            Some(f) => f,
            None => {
                return Err(VpkError::NotFound);
            },
        };
        if f.archive_length > 0 && f.archive_index != crate::vpk::format::directory_index() {
            Ok(Some(self.archive_name(f.archive_index)))
        } else {
            Ok(None)
        }
    }

    /// Issues a cursor over a packed file's bytes.  An entry stored wholly in
    /// its preload bytes needs no backing data; one stored in the directory
    /// file is sliced from it; any other needs the bytes of its sidecar
    /// archive, as named by `sidecar_for`.
    pub fn get(&self, path: &str, archive: Option<Vec<u8>>) -> (r: Result<File, VpkError>)
        ensures
            match vlookup(self.files_m(), path@) {
                None => r matches Err(e) && e == VpkError::NotFound,
                Some(fm) => {
                    if fm.archive_length == 0 {
                        r matches Ok(f) && f.wf() && f.content() == fm.preload && f.pos() == 0
                            && f.stored_crc() == fm.crc
                    } else if fm.archive_index == spec_directory_index() {
                        if fm.archive_offset + fm.archive_length <= self.dir_m().len()
                            && fm.preload.len() + fm.archive_length <= usize::MAX {
                            r matches Ok(f) && f.wf() && f.content() == fm.preload
                                + self.dir_m().subrange(
                                fm.archive_offset,
                                fm.archive_offset + fm.archive_length,
                            ) && f.pos() == 0 && f.stored_crc() == fm.crc
                        } else {
                            r matches Err(e) && e == VpkError::Truncated
                        }
                    } else {
                        match archive {
                            None => r matches Err(e) && e == VpkError::MissingArchive,
                            Some(a) => if fm.archive_offset + fm.archive_length <= a@.len()
                                && fm.preload.len() + fm.archive_length <= usize::MAX {
                                r matches Ok(f) && f.wf() && f.content() == fm.preload
                                    + a@.subrange(
                                    fm.archive_offset,
                                    fm.archive_offset + fm.archive_length,
                                ) && f.pos() == 0 && f.stored_crc() == fm.crc
                            } else {
                                r matches Err(e) && e == VpkError::Truncated
                            },
                        }
                    }
                },
            },
    {
        let entry = match self.find(path) {
            Some(f) => f,
            None => {
                return Err(VpkError::NotFound);
            },
        };
        if entry.archive_length == 0 {
            let preload_data = copy_range(&entry.preload_data, 0, entry.preload_data.len());
            proof {
                assert(preload_data@ =~= entry.preload_data@);
                assert(preload_data@ + Seq::<u8>::empty() =~= preload_data@);
            }
            return Ok(File { crc: entry.crc, preload_data, backing: None, position: 0 });
        }
        let source: &Vec<u8> = if entry.archive_index == crate::vpk::format::directory_index() {
            &self.dir_data
        } else {
            match &archive {
                Some(a) => a,
                None => {
                    return Err(VpkError::MissingArchive);
                },
            }
        };
        let slen = source.len() as u128;
        if (entry.archive_offset as u128) + (entry.archive_length as u128) > slen {
            return Err(VpkError::Truncated);
        }
        if (entry.preload_data.len() as u128) + (entry.archive_length as u128) > usize::MAX
            as u128 {
            return Err(VpkError::Truncated);
        }
        let off = entry.archive_offset as usize;
        let backing = copy_range(source, off, off + entry.archive_length as usize);
        let preload_data = copy_range(&entry.preload_data, 0, entry.preload_data.len());
        proof {
            assert(preload_data@ =~= entry.preload_data@);
        }
        Ok(File { crc: entry.crc, preload_data, backing: Some(backing), position: 0 })
    }
}

} // verus!
