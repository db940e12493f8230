//! The `.piadina` archive (format version 3).
//!
//! ```text
//! [0..8]   magic      "PIADINA\0"
//! [8]      version    3
//! [9..13]  n_entries  u32 LE
//! [13..17] flags      u32 LE (bit 0: entries carry checksums)
//! [17..]   one index entry per file or directory:
//!            path_len u32, path (UTF-8), is_dir u8, mode u32, mtime u64,
//!            data_offset u64, data_len u64, orig_len u64, crc32 u32
//! [..]     the compressed blobs, one after the other
//! ```
use vstd::prelude::*;
use vstd::utf8::{valid_utf8, decode_utf8, encode_utf8};
use crate::compress::{self, BlobError, Config};
use crate::crc32;
use crate::huffman::{u64_le, le_u64};

verus! {

/// First eight bytes of every archive.
pub const MAGIC: [u8; 8] = [0x50, 0x49, 0x41, 0x44, 0x49, 0x4E, 0x41, 0x00];

/// The format version this library reads and writes.
pub const VERSION: u8 = 3;

/// Flag bit: the index entries carry CRC-32 checksums.
pub const FLAG_HAS_CHECKSUMS: u32 = 1;

/// Length of the fixed archive header: magic, version, entry count, flags.
pub const ARCHIVE_HEADER_LEN: usize = 17;

/// One file or directory of the archive.
#[derive(Debug, Clone, PartialEq, Eq)]
pub struct EntryHeader {
    pub path: String,
    pub is_dir: bool,
    pub mode: u32,
    pub mtime: u64,
    /// Offset of the blob from the start of the payload.
    pub data_offset: u64,
    /// Length of the compressed blob.
    pub data_len: u64,
    /// Length of the file.
    pub orig_len: u64,
    /// CRC-32 of the file.
    pub crc32: u32,
}

/// An entry as plain values: path, is_dir, mode, mtime, data_offset,
/// data_len, orig_len, crc32.
pub type EntryView = (Seq<char>, bool, u32, u64, u64, u64, u64, u32);

impl EntryHeader {
    pub open spec fn view(&self) -> EntryView {
        (
            self.path@,
            self.is_dir,
            self.mode,
            self.mtime,
            self.data_offset,
            self.data_len,
            self.orig_len,
            self.crc32,
        )
    }
}

/// Why an archive was refused.
#[derive(Debug, Clone, PartialEq, Eq)]
pub enum ArchiveError {
    /// The archive ends before a field it declares.
    UnexpectedEof,
    /// The first eight bytes are not the magic.
    NotAnArchive,
    /// The version byte is not `VERSION`.
    UnsupportedVersion(u8),
    /// An entry path is not valid UTF-8.
    PathNotUtf8,
    /// A blob was refused.
    Blob(BlobError),
    /// The CRC-32 of an unpacked file is not the one its entry records.
    CrcMismatch { expected: u32, got: u32 },
}

// ─── Little-endian fields ───────────────────────────────────────────────────

/// The four bytes of `x`, least significant first.
pub open spec fn u32_bytes(x: u32) -> Seq<u8> {
    compress::u32_le(x)
}

/// The `u32` at `off` in `d`, least significant byte first.
pub open spec fn u32_at(d: Seq<u8>, off: int) -> u32 {
    (d[off] as nat + d[off + 1] as nat * 0x100 + d[off + 2] as nat * 0x10000 + d[off + 3] as nat
        * 0x1000000) as u32
}

/// The `u64` at `off` in `d`, least significant byte first.
pub open spec fn u64_at(d: Seq<u8>, off: int) -> u64 {
    le_u64(d.subrange(off, off + 8))
}

pub(crate) fn push_u32(out: &mut Vec<u8>, x: u32)
    ensures
        final(out)@ == old(out)@ + u32_bytes(x),
{
    out.push((x % 0x100) as u8);
    out.push(((x / 0x100) % 0x100) as u8);
    out.push(((x / 0x10000) % 0x100) as u8);
    out.push(((x / 0x1000000) % 0x100) as u8);
    assert(final(out)@ =~= old(out)@ + u32_bytes(x));
}

pub(crate) fn push_u64(out: &mut Vec<u8>, x: u64)
    ensures
        final(out)@ == old(out)@ + u64_le(x),
{
    out.push((x & 0xff) as u8);
    out.push(((x >> 8) & 0xff) as u8);
    out.push(((x >> 16) & 0xff) as u8);
    out.push(((x >> 24) & 0xff) as u8);
    out.push(((x >> 32) & 0xff) as u8);
    out.push(((x >> 40) & 0xff) as u8);
    out.push(((x >> 48) & 0xff) as u8);
    out.push(((x >> 56) & 0xff) as u8);
    assert(final(out)@ =~= old(out)@ + u64_le(x));
}

pub(crate) fn push_all(out: &mut Vec<u8>, s: &[u8])
    ensures
        final(out)@ == old(out)@ + s@,
{
    let ghost start = out@;
    let mut k: usize = 0;
    while k < s.len()
        invariant
            k <= s@.len(),
            out@ == start + s@.take(k as int),
        decreases s@.len() - k,
    {
        out.push(s[k]);
        k += 1;
        assert(out@ =~= start + s@.take(k as int));
    }
    assert(s@.take(s@.len() as int) =~= s@);
}

pub(crate) fn read_u32(d: &[u8], off: usize) -> (r: u32)
    requires
        off + 4 <= d@.len(),
    ensures
        r == u32_at(d@, off as int),
{
    (d[off] as u32) + (d[off + 1] as u32) * 0x100 + (d[off + 2] as u32) * 0x10000 + (d[off
        + 3] as u32) * 0x1000000
}

pub(crate) fn read_u64(d: &[u8], off: usize) -> (r: u64)
    requires
        off + 8 <= d@.len(),
    ensures
        r == u64_at(d@, off as int),
{
    let ghost b = d@.subrange(off as int, off + 8);
    assert(b[0] == d[off as int] && b[7] == d@[off + 7]);
    (d[off] as u64) | ((d[off + 1] as u64) << 8) | ((d[off + 2] as u64) << 16) | ((d[off
        + 3] as u64) << 24) | ((d[off + 4] as u64) << 32) | ((d[off + 5] as u64) << 40) | ((d[off
        + 6] as u64) << 48) | ((d[off + 7] as u64) << 56)
}

// ─── UTF-8 ──────────────────────────────────────────────────────────────────

/// `String::from_utf8`: `Some` exactly when the bytes are valid UTF-8, and
/// then the string holds the characters they encode.
#[verifier::external_body]
pub(crate) fn string_from_utf8(bytes: Vec<u8>) -> (r: Option<String>)
    ensures
        r is Some <==> valid_utf8(bytes@),
        r matches Some(s) ==> s@ == decode_utf8(bytes@),
{
    String::from_utf8(bytes).ok()
}

// ─── Index entries ──────────────────────────────────────────────────────────

/// The bytes of an index entry.
pub open spec fn entry_bytes(e: EntryView) -> Seq<u8> {
    let pb = encode_utf8(e.0);
    u32_bytes(pb.len() as u32) + pb + seq![
        if e.1 {
            1u8
        } else {
            0u8
        },
    ] + u32_bytes(e.2) + u64_le(e.3) + u64_le(e.4) + u64_le(e.5) + u64_le(e.6) + u32_bytes(e.7)
}

/// Bytes of an entry after its path.
pub const ENTRY_FIXED_LEN: usize = 41;

/// What reading an entry at `pos` of `d` gives: the entry and the position
/// after it.
pub open spec fn parse_entry_spec(d: Seq<u8>, pos: nat) -> Result<(EntryView, nat), ArchiveError> {
    if pos + 4 > d.len() {
        Err(ArchiveError::UnexpectedEof)
    } else {
        let plen = u32_at(d, pos as int) as nat;
        if pos + 4 + plen > d.len() {
            Err(ArchiveError::UnexpectedEof)
        } else {
            let pb = d.subrange(pos + 4int, pos + 4 + plen as int);
            if !valid_utf8(pb) {
                Err(ArchiveError::PathNotUtf8)
            } else {
                let p: int = (pos + 4 + plen) as int;
                if p + 41 > d.len() {
                    Err(ArchiveError::UnexpectedEof)
                } else {
                    Ok(
                        (
                            (
                                decode_utf8(pb),
                                d[p as int] != 0,
                                u32_at(d, p + 1),
                                u64_at(d, p + 5),
                                u64_at(d, p + 13),
                                u64_at(d, p + 21),
                                u64_at(d, p + 29),
                                u32_at(d, p + 37),
                            ),
                            (p + 41) as nat,
                        ),
                    )
                }
            }
        }
    }
}

/// Writes an index entry.
pub fn encode_entry(e: &EntryHeader, out: &mut Vec<u8>)
    ensures
        final(out)@ == old(out)@ + entry_bytes(e@),
{
    let pb = e.path.as_str().as_bytes();
    let ghost start = out@;
    push_u32(out, pb.len() as u32);
    push_all(out, pb);
    out.push(
        if e.is_dir {
            1u8
        } else {
            0u8
        },
    );
    push_u32(out, e.mode);
    push_u64(out, e.mtime);
    push_u64(out, e.data_offset);
    push_u64(out, e.data_len);
    push_u64(out, e.orig_len);
    push_u32(out, e.crc32);
    assert(out@ =~= start + entry_bytes(e@));
}

/// Reads an index entry at `pos`; returns it and the position after it.
pub fn parse_entry(d: &[u8], pos: usize) -> (r: Result<(EntryHeader, usize), ArchiveError>)
    ensures
        match r {
            Ok((e, next)) => parse_entry_spec(d@, pos as nat) == Ok::<(EntryView, nat), ArchiveError>(
                (e@, next as nat),
            ),
            Err(err) => parse_entry_spec(d@, pos as nat) == Err::<(EntryView, nat), ArchiveError>(
                err,
            ),
        },
{
    if pos > d.len() || d.len() - pos < 4 {
        return Err(ArchiveError::UnexpectedEof);
    }
    let plen = read_u32(d, pos) as usize;
    if d.len() - pos - 4 < plen {
        return Err(ArchiveError::UnexpectedEof);
    }
    let start = pos + 4;
    let pslice = vstd::slice::slice_subrange(d, start, start + plen);
    let mut pb: Vec<u8> = Vec::new();
    push_all(&mut pb, pslice);
    let path = match string_from_utf8(pb) {
        Some(s) => s,
        None => {
            return Err(ArchiveError::PathNotUtf8);
        },
    };
    let p = start + plen;
    if d.len() - p < 41 {
        return Err(ArchiveError::UnexpectedEof);
    }
    let is_dir = d[p] != 0;
    let mode = read_u32(d, p + 1);
    let mtime = read_u64(d, p + 5);
    let data_offset = read_u64(d, p + 13);
    let data_len = read_u64(d, p + 21);
    let orig_len = read_u64(d, p + 29);
    let crc32 = read_u32(d, p + 37);
    Ok(
        (
            EntryHeader { path, is_dir, mode, mtime, data_offset, data_len, orig_len, crc32 },
            p + 41,
        ),
    )
}

// ─── Archive index ──────────────────────────────────────────────────────────

/// The magic as a sequence.
pub open spec fn magic_bytes() -> Seq<u8> {
    seq![0x50u8, 0x49u8, 0x41u8, 0x44u8, 0x49u8, 0x4Eu8, 0x41u8, 0x00u8]
}

/// What reading `k` entries from position `pos` gives: the entries and the
/// position after them.
pub open spec fn parse_entries_spec(d: Seq<u8>, pos: nat, k: nat) -> Result<
    (Seq<EntryView>, nat),
    ArchiveError,
>
    decreases k,
{
    if k == 0 {
        Ok((Seq::empty(), pos))
    } else {
        match parse_entries_spec(d, pos, (k - 1) as nat) {
            Err(e) => Err(e),
            Ok((es, p)) => match parse_entry_spec(d, p) {
                Err(e) => Err(e),
                Ok((e, q)) => Ok((es.push(e), q)),
            },
        }
    }
}

/// What reading the index of the archive `d` gives: the entries and the
/// position where the payload starts.
pub open spec fn parse_index_spec(d: Seq<u8>) -> Result<(Seq<EntryView>, nat), ArchiveError> {
    if d.len() < 8 {
        Err(ArchiveError::UnexpectedEof)
    } else if d.take(8) != magic_bytes() {
        Err(ArchiveError::NotAnArchive)
    } else if d.len() < 9 {
        Err(ArchiveError::UnexpectedEof)
    } else if d[8] != VERSION {
        Err(ArchiveError::UnsupportedVersion(d[8]))
    } else if d.len() < 17 {
        Err(ArchiveError::UnexpectedEof)
    } else {
        parse_entries_spec(d, 17, u32_at(d, 9) as nat)
    }
}

/// The views of a list of entries.
pub open spec fn views(es: Seq<EntryHeader>) -> Seq<EntryView> {
    es.map_values(|e: EntryHeader| e@)
}

/// Reads the archive index: the entries and the offset where the payload starts.
pub fn parse_index(d: &[u8]) -> (r: Result<(Vec<EntryHeader>, u64), ArchiveError>)
    ensures
        match r {
            Ok((es, start)) => parse_index_spec(d@) == Ok::<(Seq<EntryView>, nat), ArchiveError>(
                (views(es@), start as nat),
            ),
            Err(e) => parse_index_spec(d@) == Err::<(Seq<EntryView>, nat), ArchiveError>(e),
        },
{
    if d.len() < 8 {
        return Err(ArchiveError::UnexpectedEof);
    }
    let mut k: usize = 0;
    let magic = MAGIC;
    assert(magic@ == magic_bytes());
    while k < 8
        invariant
            k <= 8,
            d@.len() >= 8,
            magic@ == magic_bytes(),
            forall|j: int| 0 <= j < k ==> d@[j] == magic_bytes()[j],
        decreases 8 - k,
    {
        if d[k] != magic[k] {
            assert(d@.take(8)[k as int] != magic_bytes()[k as int]);
            return Err(ArchiveError::NotAnArchive);
        }
        k += 1;
    }
    assert(d@.take(8) =~= magic_bytes());
    if d.len() < 9 {
        return Err(ArchiveError::UnexpectedEof);
    }
    if d[8] != VERSION {
        return Err(ArchiveError::UnsupportedVersion(d[8]));
    }
    if d.len() < 17 {
        return Err(ArchiveError::UnexpectedEof);
    }
    let n = read_u32(d, 9);
    let mut entries: Vec<EntryHeader> = Vec::new();
    let mut pos: usize = 17;
    let mut i: u32 = 0;
    assert(views(entries@) =~= Seq::<EntryView>::empty());
    assert(parse_index_spec(d@) == parse_entries_spec(d@, 17, n as nat));
    while i < n
        invariant
            i <= n,
            parse_index_spec(d@) == parse_entries_spec(d@, 17, n as nat),
            n == u32_at(d@, 9),
            parse_entries_spec(d@, 17, i as nat) == Ok::<(Seq<EntryView>, nat), ArchiveError>(
                (views(entries@), pos as nat),
            ),
        decreases n - i,
    {
        match parse_entry(d, pos) {
            Ok((e, next)) => {
                let ghost before = entries@;
                entries.push(e);
                proof {
                    assert(views(entries@) =~= views(before).push(e@));
                }
                pos = next;
            },
            Err(err) => {
                proof {
                    assert(parse_entries_spec(d@, 17, i as nat + 1) == Err::<(Seq<EntryView>, nat), ArchiveError>(err));
                    lemma_parse_entries_err_stays(d@, i as nat + 1, n as nat);
                }
                return Err(err);
            },
        }
        i += 1;
    }
    Ok((entries, pos as u64))
}

proof fn lemma_parse_entries_err_stays(d: Seq<u8>, k: nat, n: nat)
    requires
        k <= n,
        parse_entries_spec(d, 17, k) is Err,
    ensures
        parse_entries_spec(d, 17, n) == parse_entries_spec(d, 17, k),
    decreases n - k,
{
    if k < n {
        lemma_parse_entries_err_stays(d, k, (n - 1) as nat);
    }
}

// ─── Paths ──────────────────────────────────────────────────────────────────

/// A path separator: `/`, and on Windows also `\`.
pub open spec fn is_sep(c: u8, windows: bool) -> bool {
    c == 0x2F || (windows && c == 0x5C)
}

/// Where the path proper starts: after a drive prefix such as `C:` on
/// Windows, else at 0.
pub open spec fn path_start(b: Seq<u8>, windows: bool) -> int {
    if windows && b.len() >= 2 && b[1] == 0x3A && ((0x41 <= b[0] <= 0x5A) || (0x61 <= b[0]
        <= 0x7A)) {
        2
    } else {
        0
    }
}

/// A `..` component at byte `i` of the path `b`.
pub open spec fn parent_at(b: Seq<u8>, windows: bool, i: int) -> bool {
    &&& path_start(b, windows) <= i
    &&& i + 2 <= b.len()
    &&& b[i] == 0x2E
    &&& b[i + 1] == 0x2E
    &&& (i == path_start(b, windows) || is_sep(b[i - 1], windows))
    &&& (i + 2 == b.len() || is_sep(b[i + 2], windows))
}

/// A path (as UTF-8 bytes) that starts at the root (after a drive prefix on
/// Windows) or has a `..` component.
pub open spec fn unsafe_path(b: Seq<u8>, windows: bool) -> bool {
    let st = path_start(b, windows);
    ||| (st < b.len() && is_sep(b[st], windows))
    ||| exists|i: int| #[trigger] parent_at(b, windows, i)
}

/// The path itself, or `None` when it would reach outside the destination:
/// it starts at the root or has a `..` component. With `windows`, `\`
/// separates components too and a drive prefix (`C:`) comes before the root;
/// a path starting with a separator is refused, which covers the UNC and
/// verbatim forms.
pub fn sanitize(p: &str, windows: bool) -> (r: Option<String>)
    ensures
        r is None <==> unsafe_path(encode_utf8(p@), windows),
        r matches Some(s) ==> s@ == p@,
{
    let b = p.as_bytes();
    let ghost bs = encode_utf8(p@);
    assert(b@ == bs);
    let st: usize = if windows && b.len() >= 2 && b[1] == 0x3A && ((0x41 <= b[0] && b[0] <= 0x5A)
        || (0x61 <= b[0] && b[0] <= 0x7A)) {
        2
    } else {
        0
    };
    assert(st as int == path_start(bs, windows));
    if st < b.len() && (b[st] == 0x2F || (windows && b[st] == 0x5C)) {
        return None;
    }
    let mut i: usize = st;
    while i < b.len()
        invariant
            b@ == bs,
            bs == encode_utf8(p@),
            st as int == path_start(bs, windows),
            st <= i <= b@.len(),
            forall|j: int| 0 <= j < i ==> !#[trigger] parent_at(bs, windows, j),
        decreases b@.len() - i,
    {
        if b.len() - i >= 2 && b[i] == 0x2E && b[i + 1] == 0x2E && (i == st || b[i - 1] == 0x2F || (
        windows && b[i - 1] == 0x5C)) && (b.len() - i == 2 || b[i + 2] == 0x2F || (windows && b[i
            + 2] == 0x5C)) {
            proof {
                assert(parent_at(bs, windows, i as int));
            }
            return None;
        }
        i += 1;
    }
    proof {
        assert forall|j: int| !#[trigger] parent_at(bs, windows, j) by {
            if 0 <= j < i {
            }
        }
    }
    Some(p.to_owned())
}

// ─── Unpacking ──────────────────────────────────────────────────────────────

/// What unpacking the file of entry `e` from `archive` (payload at `start`)
/// gives: `None` where the blob offset overflows or the blob has no defined
/// result (see `compress::decompress_spec`).
pub open spec fn unpack_spec(archive: Seq<u8>, start: u64, e: EntryView) -> Option<
    Result<Seq<u8>, ArchiveError>,
> {
    let off = start + e.4;
    if off > u64::MAX {
        None
    } else if off + e.5 > archive.len() {
        Some(Err(ArchiveError::UnexpectedEof))
    } else {
        unpack_blob_spec(archive.subrange(off, off + e.5), e)
    }
}

/// What unpacking `blob`, the blob of entry `e`, gives: the file, checked
/// against the CRC-32 of the entry, or `None` where the blob has no defined
/// result (see `compress::decompress_spec`).
pub open spec fn unpack_blob_spec(blob: Seq<u8>, e: EntryView) -> Option<
    Result<Seq<u8>, ArchiveError>,
> {
    match compress::decompress_spec(blob) {
        None => None,
        Some(Err(b)) => Some(Err(ArchiveError::Blob(b))),
        Some(Ok(raw)) => if crc32::crc32_spec(raw) != e.7 {
            Some(Err(ArchiveError::CrcMismatch { expected: e.7, got: crc32::crc32_spec(raw) }))
        } else {
            Some(Ok(raw))
        },
    }
}

/// Unpacks the blob of entry `e`, read on its own, and checks its CRC-32;
/// `None` where that has no defined result.
pub fn unpack_blob(blob: &[u8], e: &EntryHeader) -> (r: Option<Result<Vec<u8>, ArchiveError>>)
    ensures
        match r {
            None => unpack_blob_spec(blob@, e@) is None,
            Some(Ok(v)) => unpack_blob_spec(blob@, e@) == Some(Ok::<Seq<u8>, ArchiveError>(v@)),
            Some(Err(x)) => unpack_blob_spec(blob@, e@) == Some(Err::<Seq<u8>, ArchiveError>(x)),
        },
{
    match compress::try_decompress(blob) {
        None => None,
        Some(Err(b)) => Some(Err(ArchiveError::Blob(b))),
        Some(Ok(raw)) => {
            let got = crc32::crc32(raw.as_slice());
            if got != e.crc32 {
                Some(Err(ArchiveError::CrcMismatch { expected: e.crc32, got }))
            } else {
                Some(Ok(raw))
            }
        },
    }
}

/// Unpacks the file of entry `e` from `archive`, whose payload starts at
/// `start`, and checks its CRC-32; `None` where that has no defined result.
pub fn unpack_entry(archive: &[u8], start: u64, e: &EntryHeader) -> (r: Option<
    Result<Vec<u8>, ArchiveError>,
>)
    ensures
        match r {
            None => unpack_spec(archive@, start, e@) is None,
            Some(Ok(v)) => unpack_spec(archive@, start, e@) == Some(
                Ok::<Seq<u8>, ArchiveError>(v@),
            ),
            Some(Err(x)) => unpack_spec(archive@, start, e@) == Some(
                Err::<Seq<u8>, ArchiveError>(x),
            ),
        },
{
    let off = match start.checked_add(e.data_offset) {
        Some(o) => o,
        None => {
            return None;
        },
    };
    let len = archive.len() as u64;
    if off > len || len - off < e.data_len {
        return Some(Err(ArchiveError::UnexpectedEof));
    }
    let blob = vstd::slice::slice_subrange(archive, off as usize, (off + e.data_len) as usize);
    unpack_blob(blob, e)
}

// ─── Integrity test ─────────────────────────────────────────────────────────

/// The outcome of checking one file of an archive.
#[derive(Debug, Clone, PartialEq, Eq)]
pub enum EntryCheck {
    /// The blob unpacks and its CRC-32 matches.
    Intact,
    /// The blob was refused or its CRC-32 does not match.
    Damaged(ArchiveError),
    /// The blob has no defined result.
    Undecodable,
}

/// The check that an unpacking result stands for.
pub open spec fn check_of(r: Option<Result<Seq<u8>, ArchiveError>>) -> EntryCheck {
    match r {
        None => EntryCheck::Undecodable,
        Some(Ok(_)) => EntryCheck::Intact,
        Some(Err(x)) => EntryCheck::Damaged(x),
    }
}

/// Checks the blob of entry `e`: unpacks it and compares the CRC-32.
pub fn check_blob(blob: &[u8], e: &EntryHeader) -> (r: EntryCheck)
    ensures
        r == check_of(unpack_blob_spec(blob@, e@)),
        r is Intact <==> (compress::decompress_spec(blob@) matches Some(Ok(raw)) && crc32::crc32_spec(
            raw,
        ) == e.crc32),
{
    match unpack_blob(blob, e) {
        None => EntryCheck::Undecodable,
        Some(Ok(_)) => EntryCheck::Intact,
        Some(Err(x)) => EntryCheck::Damaged(x),
    }
}

/// How many checks failed.
pub open spec fn failures(cs: Seq<EntryCheck>) -> nat
    decreases cs.len(),
{
    if cs.len() == 0 {
        0
    } else {
        failures(cs.drop_last()) + if cs.last() is Intact {
            0nat
        } else {
            1nat
        }
    }
}

proof fn lemma_failures_le(cs: Seq<EntryCheck>)
    ensures
        failures(cs) <= cs.len(),
    decreases cs.len(),
{
    if cs.len() > 0 {
        lemma_failures_le(cs.drop_last());
    }
}

/// Every check but `Intact` is a failure: damaged blobs, CRC mismatches
/// and undecodable blobs each count once, so there are no failures exactly
/// when every check is `Intact`.
pub proof fn lemma_failures_count(cs: Seq<EntryCheck>)
    ensures
        failures(cs) == cs.filter(|c: EntryCheck| !(c is Intact)).len(),
        failures(cs) == 0 <==> forall|i: int| 0 <= i < cs.len() ==> #[trigger] cs[i] is Intact,
        forall|i: int| 0 <= i < cs.len() && !(#[trigger] cs[i] is Intact) ==> failures(cs) >= 1,
    decreases cs.len(),
{
    reveal(Seq::filter);
    if cs.len() > 0 {
        let d = cs.drop_last();
        lemma_failures_count(d);
        assert forall|i: int| 0 <= i < cs.len() && !(#[trigger] cs[i] is Intact) implies failures(cs)
            >= 1 by {
            if i < cs.len() - 1 {
                assert(cs[i] == d[i]);
            }
        }
        if failures(cs) == 0 {
            assert forall|i: int| 0 <= i < cs.len() implies #[trigger] cs[i] is Intact by {
                if i < cs.len() - 1 {
                    assert(cs[i] == d[i]);
                }
            }
        }
        if forall|i: int| 0 <= i < cs.len() ==> #[trigger] cs[i] is Intact {
            assert forall|i: int| 0 <= i < d.len() implies #[trigger] d[i] is Intact by {
                assert(d[i] == cs[i]);
            }
            assert(cs[cs.len() - 1] is Intact);
        }
    }
}

/// Counts the failed checks; the archive passes the test when there are none.
pub fn count_failures(checks: &[EntryCheck]) -> (n: usize)
    ensures
        n == failures(checks@),
        n == checks@.filter(|c: EntryCheck| !(c is Intact)).len(),
        n == 0 <==> forall|i: int| 0 <= i < checks@.len() ==> #[trigger] checks@[i] is Intact,
{
    proof {
        lemma_failures_count(checks@);
    }
    let mut n: usize = 0;
    let mut i: usize = 0;
    while i < checks.len()
        invariant
            i <= checks@.len(),
            n == failures(checks@.take(i as int)),
        decreases checks@.len() - i,
    {
        proof {
            assert(checks@.take(i + 1).drop_last() =~= checks@.take(i as int));
            lemma_failures_le(checks@.take(i as int));
        }
        let intact = match &checks[i] {
            EntryCheck::Intact => true,
            _ => false,
        };
        if !intact {
            n = n + 1;
        }
        i += 1;
    }
    assert(checks@.take(checks@.len() as int) =~= checks@);
    n
}

// ─── Statistics ─────────────────────────────────────────────────────────────

/// Counts and totals over the entries of an archive.
#[derive(Debug, Clone, Copy, PartialEq, Eq)]
pub struct ArchiveStats {
    pub n_files: usize,
    pub n_dirs: usize,
    pub total_orig: u64,
    pub total_comp: u64,
}

pub open spec fn count_files(es: Seq<EntryView>) -> nat
    decreases es.len(),
{
    if es.len() == 0 {
        0
    } else {
        count_files(es.drop_last()) + if es.last().1 {
            0nat
        } else {
            1nat
        }
    }
}

/// Every entry that is not a directory is a file, whatever its length:
/// the files and the directories are the entries with and without the
/// directory flag.
pub proof fn lemma_count_files(es: Seq<EntryView>)
    ensures
        count_files(es) == es.filter(|e: EntryView| !e.1).len(),
        es.len() - count_files(es) == es.filter(|e: EntryView| e.1).len(),
        count_files(es) <= es.len(),
    decreases es.len(),
{
    reveal(Seq::filter);
    if es.len() > 0 {
        lemma_count_files(es.drop_last());
    }
}

pub open spec fn sum_orig(es: Seq<EntryView>) -> nat
    decreases es.len(),
{
    if es.len() == 0 {
        0
    } else {
        sum_orig(es.drop_last()) + es.last().6 as nat
    }
}

pub open spec fn sum_comp(es: Seq<EntryView>) -> nat
    decreases es.len(),
{
    if es.len() == 0 {
        0
    } else {
        sum_comp(es.drop_last()) + es.last().5 as nat
    }
}

proof fn lemma_sums_monotone(es: Seq<EntryView>, k: int)
    requires
        0 <= k <= es.len(),
    ensures
        sum_orig(es.take(k)) <= sum_orig(es),
        sum_comp(es.take(k)) <= sum_comp(es),
        count_files(es.take(k)) <= k,
    decreases es.len(),
{
    if k == es.len() {
        assert(es.take(k) =~= es);
        lemma_count_files_le(es);
    } else {
        lemma_sums_monotone(es.drop_last(), k);
        assert(es.drop_last().take(k) =~= es.take(k));
    }
}

proof fn lemma_count_files_le(es: Seq<EntryView>)
    ensures
        count_files(es) <= es.len(),
    decreases es.len(),
{
    if es.len() > 0 {
        lemma_count_files_le(es.drop_last());
    }
}

/// The totals add up over a split of the entries, and one entry adds its
/// file length and its blob length.
pub proof fn lemma_totals_append(a: Seq<EntryView>, b: Seq<EntryView>)
    ensures
        sum_orig(a + b) == sum_orig(a) + sum_orig(b),
        sum_comp(a + b) == sum_comp(a) + sum_comp(b),
        count_files(a + b) == count_files(a) + count_files(b),
    decreases b.len(),
{
    if b.len() > 0 {
        lemma_totals_append(a, b.drop_last());
        assert((a + b).drop_last() =~= a + b.drop_last());
        assert((a + b).last() == b.last());
    } else {
        assert(a + b =~= a);
    }
}

/// The totals of a single entry: its file length and its blob length, and
/// one file unless it is a directory.
pub proof fn lemma_totals_single(e: EntryView)
    ensures
        sum_orig(seq![e]) == e.6,
        sum_comp(seq![e]) == e.5,
        count_files(seq![e]) == if e.1 { 0nat } else { 1nat },
{
    let s1 = seq![e];
    assert(s1.drop_last() =~= Seq::<EntryView>::empty());
    assert(s1.last() == e);
    assert(sum_orig(s1.drop_last()) == 0);
    assert(sum_comp(s1.drop_last()) == 0);
    assert(count_files(s1.drop_last()) == 0);
}

/// The number of files and directories and the two byte totals, or `None`
/// when a total does not fit in 64 bits.
pub fn archive_stats(entries: &[EntryHeader]) -> (r: Option<ArchiveStats>)
    ensures
        match r {
            None => sum_orig(views(entries@)) > u64::MAX || sum_comp(views(entries@)) > u64::MAX,
            Some(st) => {
                &&& st.n_files == count_files(views(entries@))
                &&& st.n_dirs == entries@.len() - count_files(views(entries@))
                &&& st.n_files == views(entries@).filter(|e: EntryView| !e.1).len()
                &&& st.n_dirs == views(entries@).filter(|e: EntryView| e.1).len()
                &&& st.total_orig == sum_orig(views(entries@))
                &&& st.total_comp == sum_comp(views(entries@))
            },
        },
{
    let ghost vs = views(entries@);
    proof {
        lemma_count_files(vs);
    }
    let mut n_files: usize = 0;
    let mut total_orig: u64 = 0;
    let mut total_comp: u64 = 0;
    let mut i: usize = 0;
    while i < entries.len()
        invariant
            i <= entries@.len(),
            vs == views(entries@),
            n_files == count_files(vs.take(i as int)),
            total_orig == sum_orig(vs.take(i as int)),
            total_comp == sum_comp(vs.take(i as int)),
        decreases entries@.len() - i,
    {
        proof {
            assert(vs.take(i + 1).drop_last() =~= vs.take(i as int));
            assert(vs.take(i + 1).last() == entries@[i as int]@);
            lemma_sums_monotone(vs, i + 1);
            lemma_sums_monotone(vs, i as int);
        }
        let e = &entries[i];
        if !e.is_dir {
            n_files += 1;
        }
        total_orig = match total_orig.checked_add(e.orig_len) {
            Some(t) => t,
            None => {
                return None;
            },
        };
        total_comp = match total_comp.checked_add(e.data_len) {
            Some(t) => t,
            None => {
                return None;
            },
        };
        i += 1;
    }
    proof {
        assert(vs.take(entries@.len() as int) =~= vs);
        lemma_count_files_le(vs);
    }
    Some(ArchiveStats { n_files, n_dirs: entries.len() - n_files, total_orig, total_comp })
}

// ─── Creating an archive ────────────────────────────────────────────────────

/// A file or directory to put into an archive: its path inside the archive,
/// its metadata and, for a file, its contents.
pub struct SourceItem {
    pub name: String,
    pub is_dir: bool,
    pub mode: u32,
    pub mtime: u64,
    pub data: Vec<u8>,
}

/// An item as plain values: name, is_dir, mode, mtime, data.
pub type ItemView = (Seq<char>, bool, u32, u64, Seq<u8>);

impl SourceItem {
    pub open spec fn view(&self) -> ItemView {
        (self.name@, self.is_dir, self.mode, self.mtime, self.data@)
    }
}

pub open spec fn item_views(items: Seq<SourceItem>) -> Seq<ItemView> {
    items.map_values(|it: SourceItem| it@)
}

/// The blob of an item: nothing for a directory, what `compress::compress`
/// writes for the contents of a file.
pub open spec fn item_blob(it: ItemView, cfg: Config) -> Seq<u8> {
    if it.1 {
        Seq::empty()
    } else {
        compress::blob_of(it.4, cfg, compress::lzss_stream(it.4, cfg.level))
    }
}

/// The blobs of the items.
pub open spec fn blobs_of(items: Seq<ItemView>, cfg: Config) -> Seq<Seq<u8>> {
    Seq::new(items.len(), |i: int| item_blob(items[i], cfg))
}

/// Total length of the first `k` blobs.
pub open spec fn offset_of(blobs: Seq<Seq<u8>>, k: int) -> nat
    decreases k,
{
    if k <= 0 {
        0
    } else {
        offset_of(blobs, k - 1) + blobs[k - 1].len()
    }
}

/// The index entry of item `i`.
pub open spec fn entry_at(items: Seq<ItemView>, blobs: Seq<Seq<u8>>, i: int) -> EntryView {
    let it = items[i];
    if it.1 {
        (it.0, true, it.2, it.3, 0, 0, 0, 0)
    } else {
        (
            it.0,
            false,
            it.2,
            it.3,
            offset_of(blobs, i) as u64,
            blobs[i].len() as u64,
            it.4.len() as u64,
            crc32::crc32_spec(it.4),
        )
    }
}

/// The index entries of the items.
pub open spec fn layout(items: Seq<ItemView>, blobs: Seq<Seq<u8>>) -> Seq<EntryView> {
    Seq::new(items.len(), |i: int| entry_at(items, blobs, i))
}

pub open spec fn concat_entries(es: Seq<EntryView>) -> Seq<u8>
    decreases es.len(),
{
    if es.len() == 0 {
        Seq::empty()
    } else {
        concat_entries(es.drop_last()) + entry_bytes(es.last())
    }
}

pub open spec fn concat_blobs(bs: Seq<Seq<u8>>) -> Seq<u8>
    decreases bs.len(),
{
    if bs.len() == 0 {
        Seq::empty()
    } else {
        concat_blobs(bs.drop_last()) + bs.last()
    }
}

/// The archive of `entries` and `blobs`.
pub open spec fn image(entries: Seq<EntryView>, blobs: Seq<Seq<u8>>) -> Seq<u8> {
    magic_bytes() + seq![VERSION] + u32_bytes(entries.len() as u32) + u32_bytes(FLAG_HAS_CHECKSUMS)
        + concat_entries(entries) + concat_blobs(blobs)
}

proof fn lemma_offset_push(blobs: Seq<Seq<u8>>, b: Seq<u8>, k: int)
    requires
        k <= blobs.len(),
    ensures
        offset_of(blobs.push(b), k) == offset_of(blobs, k),
    decreases k,
{
    if k > 0 {
        lemma_offset_push(blobs, b, k - 1);
    }
}

pub open spec fn blob_views(bs: Seq<Vec<u8>>) -> Seq<Seq<u8>> {
    bs.map_values(|b: Vec<u8>| b@)
}

/// Compresses the items and lays out the archive: the archive bytes and its
/// index entries; `None` where the payload offsets overflow 64 bits.
#[verifier::spinoff_prover]
#[verifier::rlimit(40)]
pub fn build_archive(items: &[SourceItem], cfg: &Config) -> (r: Option<(Vec<u8>, Vec<EntryHeader>)>)
    requires
        forall|i: int|
            0 <= i < items@.len() ==> (#[trigger] items@[i]).data@.len() <= compress::MAX_INPUT_LEN
                || compress::stream_codes_fit(items@[i].data@, cfg.level),
    ensures
        r is Some <==> offset_of(blobs_of(item_views(items@), *cfg), items@.len() as int)
            <= u64::MAX,
        r matches Some((bytes, entries)) ==> {
            let blobs = blobs_of(item_views(items@), *cfg);
            &&& views(entries@) == layout(item_views(items@), blobs)
            &&& bytes@ == image(layout(item_views(items@), blobs), blobs)
        },
{
    let ghost iv = item_views(items@);
    let mut entries: Vec<EntryHeader> = Vec::new();
    let mut blobs: Vec<Vec<u8>> = Vec::new();
    let mut offset: u64 = 0;
    let mut i: usize = 0;
    assert(views(entries@) =~= Seq::new(0, |j: int| entry_at(iv, blob_views(blobs@), j)));
    while i < items.len()
        invariant
            i <= items@.len(),
            iv == item_views(items@),
            forall|j: int|
                0 <= j < items@.len() ==> (#[trigger] items@[j]).data@.len()
                    <= compress::MAX_INPUT_LEN || compress::stream_codes_fit(
                    items@[j].data@,
                    cfg.level,
                ),
            blobs@.len() == i,
            blob_views(blobs@) == blobs_of(iv, *cfg).take(i as int),
            offset == offset_of(blob_views(blobs@), i as int),
            views(entries@) == Seq::new(i as nat, |j: int| entry_at(iv, blob_views(blobs@), j)),
        decreases items@.len() - i,
    {
        let it = &items[i];
        let ghost bv0 = blob_views(blobs@);
        let ghost ev0 = views(entries@);
        let blob: Vec<u8>;
        let e: EntryHeader;
        if it.is_dir {
            e = EntryHeader {
                path: it.name.clone(),
                is_dir: true,
                mode: it.mode,
                mtime: it.mtime,
                data_offset: 0,
                data_len: 0,
                orig_len: 0,
                crc32: 0,
            };
            blob = Vec::new();
        } else {
            let checksum = crc32::crc32(it.data.as_slice());
            blob = compress::compress(it.data.as_slice(), cfg);
            e = EntryHeader {
                path: it.name.clone(),
                is_dir: false,
                mode: it.mode,
                mtime: it.mtime,
                data_offset: offset,
                data_len: blob.len() as u64,
                orig_len: it.data.len() as u64,
                crc32: checksum,
            };
        }
        let blob_len = blob.len() as u64;
        let next = offset.checked_add(blob_len);
        let ghost bv1 = bv0.push(blob@);
        proof {
            lemma_offset_push(bv0, blob@, i as int);
            assert(iv[i as int] == it@);
            assert forall|j: int| 0 <= j <= i implies #[trigger] offset_of(bv1, j) == offset_of(bv0, j) by {
                lemma_offset_push(bv0, blob@, j);
            }
        }
        entries.push(e);
        blobs.push(blob);
        proof {
            assert(blob_views(blobs@) =~= bv1);
            assert(views(entries@) =~= ev0.push(e@));
            assert(e@ == entry_at(iv, bv1, i as int));
            assert(views(entries@) =~= Seq::new(i as nat + 1, |j: int| entry_at(iv, bv1, j)));
            assert(blob@ == item_blob(iv[i as int], *cfg));
            assert(bv1 =~= blobs_of(iv, *cfg).take(i + 1));
        }
        match next {
            Some(o) => {
                offset = o;
            },
            None => {
                proof {
                    lemma_offset_prefix(blobs_of(iv, *cfg), bv1, i + 1);
                    lemma_offset_grows(blobs_of(iv, *cfg), i + 1, items@.len() as int);
                }
                return None;
            },
        }
        i += 1;
    }
    assert(iv.take(items@.len() as int) =~= iv);
    assert(blobs_of(iv, *cfg).take(items@.len() as int) =~= blobs_of(iv, *cfg));
    let ghost bv = blob_views(blobs@);
    let ghost lay = layout(iv, bv);
    assert(views(entries@) =~= lay);
    let mut out: Vec<u8> = Vec::new();
    let magic = MAGIC;
    let mut k: usize = 0;
    while k < 8
        invariant
            k <= 8,
            magic@ == magic_bytes(),
            out@ == magic_bytes().take(k as int),
        decreases 8 - k,
    {
        out.push(magic[k]);
        k += 1;
        assert(out@ =~= magic_bytes().take(k as int));
    }
    assert(magic_bytes().take(8) =~= magic_bytes());
    out.push(VERSION);
    push_u32(&mut out, entries.len() as u32);
    push_u32(&mut out, FLAG_HAS_CHECKSUMS);
    let ghost head = out@;
    k = 0;
    while k < entries.len()
        invariant
            k <= entries@.len(),
            out@ == head + concat_entries(views(entries@).take(k as int)),
        decreases entries@.len() - k,
    {
        encode_entry(&entries[k], &mut out);
        proof {
            assert(views(entries@).take(k + 1).drop_last() =~= views(entries@).take(k as int));
            assert(views(entries@).take(k + 1).last() == entries@[k as int]@);
        }
        k += 1;
    }
    assert(views(entries@).take(entries@.len() as int) =~= views(entries@));
    let ghost mid = out@;
    k = 0;
    while k < blobs.len()
        invariant
            k <= blobs@.len(),
            bv == blob_views(blobs@),
            out@ == mid + concat_blobs(bv.take(k as int)),
        decreases blobs@.len() - k,
    {
        push_all(&mut out, blobs[k].as_slice());
        proof {
            assert(bv.take(k + 1).drop_last() =~= bv.take(k as int));
            assert(bv.take(k + 1).last() == blobs@[k as int]@);
            assert(out@ =~= mid + concat_blobs(bv.take(k + 1)));
        }
        k += 1;
    }
    assert(bv.take(blobs@.len() as int) =~= bv);
    assert(out@ =~= image(lay, bv));
    Some((out, entries))
}

proof fn lemma_offset_prefix(a: Seq<Seq<u8>>, b: Seq<Seq<u8>>, k: int)
    requires
        k <= a.len(),
        k <= b.len(),
        forall|j: int| 0 <= j < k ==> a[j] == b[j],
    ensures
        offset_of(a, k) == offset_of(b, k),
    decreases k,
{
    if k > 0 {
        lemma_offset_prefix(a, b, k - 1);
    }
}

proof fn lemma_offset_grows(a: Seq<Seq<u8>>, k: int, n: int)
    requires
        k <= n,
    ensures
        offset_of(a, k) <= offset_of(a, n),
    decreases n - k,
{
    if k < n {
        lemma_offset_grows(a, k, n - 1);
    }
}

// ─── Reading back what was laid out ─────────────────────────────────────────

pub(crate) proof fn lemma_u32_roundtrip(x: u32)
    ensures
        u32_at(u32_bytes(x), 0) == x,
{
    let b = u32_bytes(x);
    assert(b[0] as nat + b[1] as nat * 0x100 + b[2] as nat * 0x10000 + b[3] as nat * 0x1000000
        == x) by (nonlinear_arith)
        requires
            b[0] == (x % 0x100) as u8,
            b[1] == ((x / 0x100) % 0x100) as u8,
            b[2] == ((x / 0x10000) % 0x100) as u8,
            b[3] == ((x / 0x1000000) % 0x100) as u8,
            x <= 0xffff_ffff,
    ;
}

pub(crate) proof fn lemma_u32_in(d: Seq<u8>, off: int, x: u32)
    requires
        0 <= off,
        off + 4 <= d.len(),
        d.subrange(off, off + 4) == u32_bytes(x),
    ensures
        u32_at(d, off) == x,
{
    lemma_u32_roundtrip(x);
    let b = u32_bytes(x);
    assert(d[off] == b[0] && d[off + 1] == b[1] && d[off + 2] == b[2] && d[off + 3] == b[3]) by {
        assert(d.subrange(off, off + 4)[0] == d[off]);
        assert(d.subrange(off, off + 4)[1] == d[off + 1]);
        assert(d.subrange(off, off + 4)[2] == d[off + 2]);
        assert(d.subrange(off, off + 4)[3] == d[off + 3]);
    }
}

pub(crate) proof fn lemma_u64_in(d: Seq<u8>, off: int, x: u64)
    requires
        0 <= off,
        off + 8 <= d.len(),
        d.subrange(off, off + 8) == u64_le(x),
    ensures
        u64_at(d, off) == x,
{
    crate::huffman::lemma_le_u64_roundtrip(x);
}

/// The fields after the path of an entry.
pub open spec fn entry_tail(e: EntryView) -> Seq<u8> {
    seq![
        if e.1 {
            1u8
        } else {
            0u8
        },
    ] + u32_bytes(e.2) + u64_le(e.3) + u64_le(e.4) + u64_le(e.5) + u64_le(e.6) + u32_bytes(e.7)
}

proof fn lemma_tail_fields(d: Seq<u8>, p: int, e: EntryView)
    requires
        0 <= p,
        p + 41 <= d.len(),
        d.subrange(p, p + 41) == entry_tail(e),
    ensures
        (d[p] != 0) == e.1,
        u32_at(d, p + 1) == e.2,
        u64_at(d, p + 5) == e.3,
        u64_at(d, p + 13) == e.4,
        u64_at(d, p + 21) == e.5,
        u64_at(d, p + 29) == e.6,
        u32_at(d, p + 37) == e.7,
{
    let t = entry_tail(e);
    assert(d[p] == t[0]);
    assert(d.subrange(p + 1, p + 5) =~= t.subrange(1, 5));
    assert(t.subrange(1, 5) =~= u32_bytes(e.2));
    lemma_u32_in(d, p + 1, e.2);
    assert(d.subrange(p + 5, p + 13) =~= t.subrange(5, 13));
    assert(t.subrange(5, 13) =~= u64_le(e.3));
    lemma_u64_in(d, p + 5, e.3);
    assert(d.subrange(p + 13, p + 21) =~= t.subrange(13, 21));
    assert(t.subrange(13, 21) =~= u64_le(e.4));
    lemma_u64_in(d, p + 13, e.4);
    assert(d.subrange(p + 21, p + 29) =~= t.subrange(21, 29));
    assert(t.subrange(21, 29) =~= u64_le(e.5));
    lemma_u64_in(d, p + 21, e.5);
    assert(d.subrange(p + 29, p + 37) =~= t.subrange(29, 37));
    assert(t.subrange(29, 37) =~= u64_le(e.6));
    lemma_u64_in(d, p + 29, e.6);
    assert(d.subrange(p + 37, p + 41) =~= t.subrange(37, 41));
    assert(t.subrange(37, 41) =~= u32_bytes(e.7));
    lemma_u32_in(d, p + 37, e.7);
}

pub(crate) proof fn lemma_mid(x: Seq<u8>, y: Seq<u8>, z: Seq<u8>)
    ensures
        (x + y + z).subrange(x.len() as int, x.len() + y.len() as int) == y,
        (x + y + z).len() == x.len() + y.len() + z.len(),
{
    assert((x + y + z).subrange(x.len() as int, x.len() + y.len() as int) =~= y);
}

/// An index entry written between any bytes `pre` and `suf` reads back:
/// parsing at its start gives the entry and the position just after it.
#[verifier::spinoff_prover]
#[verifier::rlimit(100)]
pub proof fn lemma_entry_roundtrip(pre: Seq<u8>, e: EntryView, suf: Seq<u8>)
    requires
        encode_utf8(e.0).len() < 0x1_0000_0000,
    ensures
        parse_entry_spec(pre + entry_bytes(e) + suf, pre.len()) == Ok::<(EntryView, nat), ArchiveError>(
            (e, pre.len() + entry_bytes(e).len()),
        ),
{
    let pb = encode_utf8(e.0);
    vstd::utf8::encode_utf8_valid_utf8(e.0);
    vstd::utf8::encode_utf8_decode_utf8(e.0);
    let head = u32_bytes(pb.len() as u32);
    let tail = entry_tail(e);
    assert(entry_bytes(e) =~= head + pb + tail);
    let d = pre + entry_bytes(e) + suf;
    let n = pre.len() as int;
    let l = pb.len() as int;
    assert(d =~= pre + head + (pb + tail + suf));
    lemma_mid(pre, head, pb + tail + suf);
    lemma_u32_in(d, n, pb.len() as u32);
    assert(d =~= (pre + head) + pb + (tail + suf));
    lemma_mid(pre + head, pb, tail + suf);
    let p = n + 4 + l;
    assert(d =~= (pre + head + pb) + tail + suf);
    lemma_mid(pre + head + pb, tail, suf);
    lemma_tail_fields(d, p, e);
    assert(u32_at(d, n) as nat == l);
    assert(d.subrange(n + 4, n + 4 + l) == pb);
    assert(p + 41 <= d.len());
}

/// Entries written after `pre` read back.
#[verifier::spinoff_prover]
#[verifier::rlimit(60)]
proof fn lemma_entries_roundtrip(pre: Seq<u8>, es: Seq<EntryView>, suf: Seq<u8>)
    requires
        forall|i: int| 0 <= i < es.len() ==> encode_utf8((#[trigger] es[i]).0).len() < 0x1_0000_0000,
    ensures
        parse_entries_spec(pre + concat_entries(es) + suf, pre.len(), es.len()) == Ok::<
            (Seq<EntryView>, nat),
            ArchiveError,
        >((es, pre.len() + concat_entries(es).len())),
    decreases es.len(),
{
    if es.len() > 0 {
        let d = es.drop_last();
        let last = es.last();
        let suf2 = entry_bytes(last) + suf;
        assert(pre + concat_entries(es) + suf =~= pre + concat_entries(d) + suf2);
        lemma_entries_roundtrip(pre, d, suf2);
        assert(pre + concat_entries(es) + suf =~= (pre + concat_entries(d)) + entry_bytes(last)
            + suf);
        assert(es[es.len() - 1] == last);
        lemma_entry_roundtrip(pre + concat_entries(d), last, suf);
        assert(d.push(last) =~= es);
    } else {
        assert(es =~= Seq::<EntryView>::empty());
    }
}

proof fn lemma_blob_at(bs: Seq<Seq<u8>>, i: int)
    requires
        0 <= i < bs.len(),
    ensures
        concat_blobs(bs).len() == offset_of(bs, bs.len() as int),
        offset_of(bs, i) + bs[i].len() <= concat_blobs(bs).len(),
        concat_blobs(bs).subrange(offset_of(bs, i) as int, offset_of(bs, i) + bs[i].len() as int) == bs[i],
    decreases bs.len(),
{
    let d = bs.drop_last();
    lemma_concat_blobs_len(bs);
    if i < bs.len() - 1 {
        lemma_blob_at(d, i);
        lemma_offset_prefix(bs, d, i);
        lemma_offset_prefix(bs, d, i + 1);
        assert(concat_blobs(bs).subrange(offset_of(bs, i) as int, offset_of(bs, i) + bs[i].len() as int)
            =~= concat_blobs(d).subrange(offset_of(d, i) as int, offset_of(d, i) + d[i].len() as int));
    } else {
        lemma_concat_blobs_len(d);
        lemma_offset_prefix(bs, d, i);
        assert(concat_blobs(bs).subrange(offset_of(bs, i) as int, offset_of(bs, i) + bs[i].len() as int)
            =~= bs.last());
    }
}

proof fn lemma_concat_blobs_len(bs: Seq<Seq<u8>>)
    ensures
        concat_blobs(bs).len() == offset_of(bs, bs.len() as int),
    decreases bs.len(),
{
    if bs.len() > 0 {
        let d = bs.drop_last();
        lemma_concat_blobs_len(d);
        lemma_offset_prefix(bs, d, d.len() as int);
    }
}

/// Length of the archive header and index of `entries`: where the payload starts.
pub open spec fn payload_start(entries: Seq<EntryView>) -> nat {
    17 + concat_entries(entries).len()
}

/// The items an archive can hold and read back: fewer than 2^32 of them,
/// paths shorter than 2^32 bytes, and files whose token streams are
/// shorter than 2^32 bytes (the lengths their header fields can record).
pub open spec fn items_fit(items: Seq<ItemView>, cfg: Config) -> bool {
    &&& items.len() < 0x1_0000_0000
    &&& forall|i: int|
        0 <= i < items.len() ==> {
            &&& encode_utf8((#[trigger] items[i]).0).len() < 0x1_0000_0000
            &&& items[i].4.len() <= usize::MAX
            &&& !items[i].1 ==> compress::lzss_stream(items[i].4, cfg.level).len() < 0x1_0000_0000
        }
}

/// What `build_archive` lays out reads back: the index gives the entries it
/// recorded, and unpacking the entry of each file gives the file.
pub proof fn lemma_archive_roundtrip(items: Seq<ItemView>, cfg: Config)
    requires
        items_fit(items, cfg),
        image(layout(items, blobs_of(items, cfg)), blobs_of(items, cfg)).len() <= u64::MAX,
    ensures
        ({
            let blobs = blobs_of(items, cfg);
            let es = layout(items, blobs);
            &&& parse_index_spec(image(es, blobs)) == Ok::<(Seq<EntryView>, nat), ArchiveError>(
                (es, payload_start(es)),
            )
            &&& forall|i: int|
                0 <= i < items.len() && !items[i].1 ==> #[trigger] unpack_spec(
                    image(es, blobs),
                    payload_start(es) as u64,
                    es[i],
                ) == Some(Ok::<Seq<u8>, ArchiveError>(items[i].4))
        }),
{
    let blobs = blobs_of(items, cfg);
    let es = layout(items, blobs);
    let d = image(es, blobs);
    let head = magic_bytes() + seq![VERSION] + u32_bytes(es.len() as u32) + u32_bytes(
        FLAG_HAS_CHECKSUMS,
    );
    assert(head.len() == 17);
    assert(d =~= head + concat_entries(es) + concat_blobs(blobs));
    assert forall|i: int| 0 <= i < es.len() implies encode_utf8((#[trigger] es[i]).0).len()
        < 0x1_0000_0000 by {
        assert(es[i].0 == items[i].0);
    }
    lemma_entries_roundtrip(head, es, concat_blobs(blobs));
    assert(d.take(8) =~= magic_bytes());
    assert(d.subrange(9, 13) =~= u32_bytes(es.len() as u32));
    lemma_u32_in(d, 9, es.len() as u32);
    lemma_concat_blobs_len(blobs);
    assert forall|i: int|
        0 <= i < items.len() && !items[i].1 implies #[trigger] unpack_spec(
        d,
        payload_start(es) as u64,
        es[i],
    ) == Some(Ok::<Seq<u8>, ArchiveError>(items[i].4)) by {
        lemma_unpack_item(items, cfg, i);
    }
}

#[verifier::spinoff_prover]
proof fn lemma_unpack_item(items: Seq<ItemView>, cfg: Config, i: int)
    requires
        items_fit(items, cfg),
        0 <= i < items.len(),
        !items[i].1,
        image(layout(items, blobs_of(items, cfg)), blobs_of(items, cfg)).len() <= u64::MAX,
    ensures
        unpack_spec(
            image(layout(items, blobs_of(items, cfg)), blobs_of(items, cfg)),
            payload_start(layout(items, blobs_of(items, cfg))) as u64,
            layout(items, blobs_of(items, cfg))[i],
        ) == Some(Ok::<Seq<u8>, ArchiveError>(items[i].4)),
{
    let blobs = blobs_of(items, cfg);
    let es = layout(items, blobs);
    let d = image(es, blobs);
    let start = payload_start(es);
    let head = magic_bytes() + seq![VERSION] + u32_bytes(es.len() as u32) + u32_bytes(
        FLAG_HAS_CHECKSUMS,
    );
    let cb = concat_blobs(blobs);
    assert(d =~= (head + concat_entries(es)) + cb);
    lemma_blob_at(blobs, i);
    let off = offset_of(blobs, i);
    let e = es[i];
    assert(e == entry_at(items, blobs, i));
    assert(e.4 == off && e.5 == blobs[i].len());
    let blob = d.subrange(start + off as int, start + off + blobs[i].len() as int);
    assert(blob =~= cb.subrange(off as int, off + blobs[i].len() as int));
    assert(blob == blobs[i]);
    let data = items[i].4;
    assert(items_fit(items, cfg));
    assert(data.len() <= usize::MAX);
    assert(compress::lzss_stream(data, cfg.level).len() < 0x1_0000_0000);
    assert(blobs[i] == item_blob(items[i], cfg));
    compress::lemma_blob_roundtrip(data, cfg);
    assert(e.7 == crc32::crc32_spec(data));
}

} // verus!
