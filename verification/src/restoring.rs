use crate::blockhash::BlockIdHash;
use crate::database::DFileDatabase;
use crate::sorting::sort_files_sequentially;
use crate::dfileentry::{spec_utf8, FileEntries, FileEntry};
use crate::dfiletype::FileType;
use crate::errors::RestoreError;
use crate::sha256::{sha256_digest, sha256_of};
use crate::ziparchive::bytes_eq;
use vstd::prelude::*;
use vstd::string::StrSliceExecFns;

verus! {

broadcast use vstd::seq_lib::group_to_multiset_ensures;

/// Per-worker scratch: one buffer for content blocks, one for block-list
/// payloads. Reused across entries; callers clear them between uses.
pub struct RestoreContext {
    pub block_buffer: Vec<u8>,
    pub block_hashes_buffer: Vec<u8>,
}

impl RestoreContext {
    /// Fresh, empty scratch buffers.
    pub fn new() -> (r: Self)
        ensures
            r.block_buffer@.len() == 0,
            r.block_hashes_buffer@.len() == 0,
    {
        RestoreContext { block_buffer: Vec::new(), block_hashes_buffer: Vec::new() }
    }
}

/// What one restore run will touch, summed over the snapshot.
#[derive(Debug, Clone)]
pub struct RestoreSummary {
    pub file_count: usize,
    pub folder_count: usize,
    pub total_bytes: u64,
    pub predicted_bytes: u64,
}

/// The restore run's settings. No restore path means verify-only: all block
/// fetches and hash checks still run, but nothing is to be written.
#[derive(Debug, Clone)]
pub struct RestoreParams {
    pub restore_path: Option<String>,
    pub replace_backslash_to_slash: bool,
    pub summary: RestoreSummary,
}

/// The index of the first `:\` pair in a path, or -1 when there is none.
pub open spec fn spec_first_colon_backslash(s: Seq<u8>) -> int
    decreases s.len(),
{
    if s.len() < 2 {
        -1
    } else if s[0] == 58 && s[1] == 92 {
        0
    } else {
        let r = spec_first_colon_backslash(s.skip(1));
        if r == -1 {
            -1
        } else {
            r + 1
        }
    }
}

/// The path with the colon of its first `:\` removed (a drive letter's
/// colon); unchanged when no `:\` occurs.
pub open spec fn spec_strip_drive_colon(s: Seq<u8>) -> Seq<u8> {
    let i = spec_first_colon_backslash(s);
    if i == -1 {
        s
    } else {
        s.remove(i)
    }
}

/// The path with every backslash replaced by a slash.
pub open spec fn spec_slashed(s: Seq<u8>) -> Seq<u8> {
    s.map_values(
        |b: u8|
            if b == 92 {
                47u8
            } else {
                b
            },
    )
}

/// The whole path transformation: strip the first drive colon, then, when
/// asked, turn backslashes into slashes.
pub open spec fn spec_transformed(s: Seq<u8>, replace_backslash: bool) -> Seq<u8> {
    if replace_backslash {
        spec_slashed(spec_strip_drive_colon(s))
    } else {
        spec_strip_drive_colon(s)
    }
}

/// Joining a relative path onto the restore root: an absolute path replaces
/// the root, as `Path::join` does.
pub open spec fn spec_path_join(root: Seq<u8>, rel: Seq<u8>) -> Seq<u8> {
    if rel.len() > 0 && rel[0] == 47 {
        rel
    } else if root.len() == 0 {
        rel
    } else if root.last() == 47 {
        root + rel
    } else {
        root + seq![47u8] + rel
    }
}

/// A slashed path holds no backslash.
proof fn lemma_slashed_no_backslash(s: Seq<u8>)
    ensures
        forall|i: int| 0 <= i < spec_slashed(s).len() ==> spec_slashed(s)[i] != 92,
{
}

/// A path without backslashes has no `:\` pair.
proof fn lemma_no_backslash_no_colon_pair(s: Seq<u8>)
    requires
        forall|i: int| 0 <= i < s.len() ==> s[i] != 92,
    ensures
        spec_first_colon_backslash(s) == -1,
    decreases s.len(),
{
    if s.len() >= 2 {
        assert(s[1] != 92);
        lemma_no_backslash_no_colon_pair(s.skip(1));
    }
}

/// With backslash replacement on, applying the path transformation twice
/// yields the same path as applying it once. (With replacement off this can
/// fail: removing the first colon of `a::\b` uncovers a second `:\`.)
pub proof fn lemma_path_transform_idempotent(s: Seq<u8>)
    ensures
        spec_transformed(spec_transformed(s, true), true) == spec_transformed(s, true),
{
    let t = spec_transformed(s, true);
    lemma_slashed_no_backslash(spec_strip_drive_colon(s));
    lemma_no_backslash_no_colon_pair(t);
    assert(spec_strip_drive_colon(t) == t);
    assert(spec_slashed(t) =~= t);
}

/// Removes the colon of the first `:\`, byte for byte.
fn strip_drive_colon(path: &[u8]) -> (r: Vec<u8>)
    ensures
        r@ == spec_strip_drive_colon(path@),
{
    let mut i: usize = 0;
    let mut cut: Option<usize> = None;
    while path.len() >= 1 && i < path.len() - 1 && cut.is_none()
        invariant
            0 <= i,
            path@.len() >= 1 ==> i <= path@.len() - 1,
            path@.len() == 0 ==> i == 0,
            match cut {
                Some(c) => c as int + 1 < path@.len() && path@[c as int] == 58 && path@[c as int
                    + 1] == 92 && (forall|j: int|
                    0 <= j < c ==> !(#[trigger] path@[j] == 58 && path@[j + 1] == 92)),
                None => forall|j: int| 0 <= j < i ==> !(#[trigger] path@[j] == 58 && path@[j + 1] == 92),
            },
        decreases path@.len() - i + if cut is Some {
            0int
        } else {
            1int
        },
    {
        if path[i] == 58 && path[i + 1] == 92 {
            cut = Some(i);
        } else {
            i = i + 1;
        }
    }
    proof {
        match cut {
            Some(c) => {
                lemma_first_colon_backslash_at(path@, c as int);
            },
            None => {
                assert(forall|j: int|
                    0 <= j < path@.len() - 1 ==> !(#[trigger] path@[j] == 58 && path@[j + 1]
                        == 92));
                lemma_first_colon_backslash_none(path@);
            },
        }
    }
    let mut out: Vec<u8> = Vec::new();
    let mut k: usize = 0;
    while k < path.len()
        invariant
            0 <= k <= path@.len(),
            match cut {
                Some(c) => c as int + 1 < path@.len() && (k <= c ==> out@ == path@.subrange(
                    0,
                    k as int,
                )) && (k > c ==> out@ == path@.subrange(0, c as int) + path@.subrange(
                    c as int + 1,
                    k as int,
                )),
                None => out@ == path@.subrange(0, k as int),
            },
        decreases path@.len() - k,
    {
        let skip_this = match cut {
            Some(c) => k == c,
            None => false,
        };
        if !skip_this {
            let b = path[k];
            out.push(b);
        }
        k = k + 1;
    }
    proof {
        match cut {
            Some(c) => {
                assert(out@ =~= path@.remove(c as int));
            },
            None => {
                assert(out@ =~= path@);
            },
        }
    }
    out
}

/// The scan that found `:\` at `c`, with no pair before it, found the first.
proof fn lemma_first_colon_backslash_at(s: Seq<u8>, c: int)
    requires
        0 <= c,
        c + 1 < s.len(),
        s[c] == 58 && s[c + 1] == 92,
        forall|j: int| 0 <= j < c ==> !(#[trigger] s[j] == 58 && s[j + 1] == 92),
    ensures
        spec_first_colon_backslash(s) == c,
    decreases c,
{
    if c == 0 {
    } else {
        assert(forall|j: int|
            0 <= j < c - 1 ==> !(#[trigger] s.skip(1)[j] == 58 && s.skip(1)[j + 1] == 92));
        lemma_first_colon_backslash_at(s.skip(1), c - 1);
    }
}

/// A scan that found no `:\` pair anywhere found none.
proof fn lemma_first_colon_backslash_none(s: Seq<u8>)
    requires
        forall|j: int| 0 <= j < s.len() - 1 ==> !(#[trigger] s[j] == 58 && s[j + 1] == 92),
    ensures
        spec_first_colon_backslash(s) == -1,
    decreases s.len(),
{
    if s.len() >= 2 {
        assert(forall|j: int|
            0 <= j < s.skip(1).len() - 1 ==> !(#[trigger] s.skip(1)[j] == 58 && s.skip(1)[j + 1]
                == 92));
        lemma_first_colon_backslash_none(s.skip(1));
    }
}

/// Replaces every backslash by a slash.
fn replace_backslashes(path: &Vec<u8>) -> (r: Vec<u8>)
    ensures
        r@ == spec_slashed(path@),
{
    let mut out: Vec<u8> = Vec::new();
    let mut i: usize = 0;
    while i < path.len()
        invariant
            0 <= i <= path@.len(),
            out@.len() == i,
            forall|j: int|
                0 <= j < i ==> out@[j] == (if path@[j] == 92 {
                    47u8
                } else {
                    path@[j]
                }),
        decreases path@.len() - i,
    {
        let b = path[i];
        if b == 92 {
            out.push(47);
        } else {
            out.push(b);
        }
        i = i + 1;
    }
    proof {
        assert(out@ =~= spec_slashed(path@));
    }
    out
}

/// Maps an entry's recorded path under the restore root: strips the drive
/// colon, optionally turns backslashes into slashes, and joins the result
/// onto the root. Returns the absolute and the relative path, as UTF-8
/// bytes; nothing in verify-only mode.
pub fn calculate_path(entry: &FileEntry, params: &RestoreParams) -> (r: Option<(Vec<u8>, Vec<u8>)>)
    ensures
        r is Some <==> params.restore_path is Some,
        r matches Some((abs, rel)) ==> {
            &&& rel@ == spec_transformed(spec_utf8(entry.path@), params.replace_backslash_to_slash)
            &&& (params.restore_path matches Some(root) && abs@ == spec_path_join(
                spec_utf8(root@),
                rel@,
            ))
        },
{
    match &params.restore_path {
        Some(root) => {
            let stripped = strip_drive_colon(entry.path.as_str().as_bytes());
            let rel = if params.replace_backslash_to_slash {
                replace_backslashes(&stripped)
            } else {
                stripped
            };
            let rootb = root.as_str().as_bytes();
            let mut abs: Vec<u8> = Vec::new();
            if rel.len() > 0 && rel[0] == 47 {
                abs.extend_from_slice(rel.as_slice());
                proof {
                    assert(abs@ =~= spec_path_join(spec_utf8(root@), rel@));
                }
            } else if rootb.len() == 0 {
                abs.extend_from_slice(rel.as_slice());
                proof {
                    assert(abs@ =~= spec_path_join(spec_utf8(root@), rel@));
                }
            } else if rootb[rootb.len() - 1] == 47 {
                abs.extend_from_slice(rootb);
                abs.extend_from_slice(rel.as_slice());
                proof {
                    assert(abs@ =~= spec_path_join(spec_utf8(root@), rel@));
                }
            } else {
                abs.extend_from_slice(rootb);
                abs.push(47);
                abs.extend_from_slice(rel.as_slice());
                proof {
                    assert(abs@ =~= spec_path_join(spec_utf8(root@), rel@));
                }
            }
            Some((abs, rel))
        },
        None => None,
    }
}

/// The buffer after writing `data` at `offset`: seeking past the end fills
/// the gap with zero bytes, writing inside the buffer overwrites.
pub open spec fn spec_write_at(buf: Seq<u8>, offset: int, data: Seq<u8>) -> Seq<u8> {
    let padded = if offset > buf.len() {
        buf + Seq::new((offset - buf.len()) as nat, |i: int| 0u8)
    } else {
        buf
    };
    let end = offset + data.len();
    if end < padded.len() {
        padded.subrange(0, offset) + data + padded.subrange(end, padded.len() as int)
    } else {
        padded.subrange(0, offset) + data
    }
}

/// Writes `data` into the in-memory file image at `offset`.
fn write_at(buf: &mut Vec<u8>, offset: usize, data: &[u8])
    requires
        offset + data@.len() <= usize::MAX,
    ensures
        final(buf)@ == spec_write_at(old(buf)@, offset as int, data@),
{
    let ghost orig = buf@;
    while buf.len() < offset
        invariant
            orig.len() >= offset ==> buf@ == orig,
            orig.len() < offset ==> buf@.len() <= offset && buf@ == orig + Seq::new(
                (buf@.len() - orig.len()) as nat,
                |i: int| 0u8,
            ),
        decreases offset - buf@.len(),
    {
        buf.push(0);
    }
    let ghost padded = buf@;
    proof {
        assert(padded == if offset > orig.len() {
            orig + Seq::new((offset - orig.len()) as nat, |i: int| 0u8)
        } else {
            orig
        });
        assert(padded.len() >= offset);
    }
    let mut k: usize = 0;
    while k < data.len()
        invariant
            0 <= k <= data@.len(),
            offset + data@.len() <= usize::MAX,
            padded.len() >= offset,
            buf@.len() == if offset + k > padded.len() {
                offset + k
            } else {
                padded.len() as int
            },
            forall|j: int| 0 <= j < offset ==> buf@[j] == padded[j],
            forall|j: int| 0 <= j < k ==> buf@[offset + j] == data@[j],
            forall|j: int| offset + data@.len() <= j < buf@.len() ==> buf@[j] == padded[j],
        decreases data@.len() - k,
    {
        let b = data[k];
        if offset + k < buf.len() {
            buf[offset + k] = b;
        } else {
            buf.push(b);
        }
        k = k + 1;
    }
    proof {
        assert(buf@ =~= spec_write_at(orig, offset as int, data@));
    }
}

/// The raw digest at position `i` of a block-list payload.
pub open spec fn spec_digest_at(payload: Seq<u8>, i: int) -> Seq<u8> {
    payload.subrange(32 * i, 32 * i + 32)
}

/// The declared top-level digest of a file entry.
pub open spec fn spec_file_hash(entry: &FileEntry) -> Seq<u8> {
    match entry.file_type {
        FileType::File { hash, .. } => hash@,
        _ => Seq::empty(),
    }
}

/// Compares the SHA-256 of the assembled bytes against the declared digest.
/// A zero-size file is never checked, matching the engine that only hashes
/// files with content.
pub fn check_file_hash(expected: &BlockIdHash, size: i64, assembled: &Vec<u8>) -> (r: Result<
    (),
    RestoreError,
>)
    ensures
        r is Ok <==> (size == 0 || sha256_of(assembled@) == expected@),
        r is Err ==> r == Err::<(), RestoreError>(RestoreError::HashMismatch),
{
    if size == 0 {
        return Ok(());
    }
    let digest = sha256_digest(assembled.as_slice());
    if bytes_eq(digest.as_slice(), expected.hash.as_slice()) {
        Ok(())
    } else {
        Err(RestoreError::HashMismatch)
    }
}

/// The strict-block invariant: every content block of a file except the very
/// last must be exactly one full block long. Checks the previously seen
/// block when the next one arrives, then records the new length.
pub fn check_strict_block(
    full_block: usize,
    this_block_len: usize,
    last_block_size: &mut Option<usize>,
) -> (r: Result<(), RestoreError>)
    ensures
        r is Ok <==> match *old(last_block_size) {
            Some(l) => l == full_block,
            None => true,
        },
        r is Ok ==> *final(last_block_size) == Some(this_block_len),
        r is Err ==> r == Err::<(), RestoreError>(RestoreError::ShortBlock)
            && *final(last_block_size) == *old(last_block_size),
{
    match *last_block_size {
        Some(last) => {
            if last != full_block {
                return Err(RestoreError::ShortBlock);
            }
        },
        None => {},
    }
    *last_block_size = Some(this_block_len);
    Ok(())
}

/// Whether writing the block of digest `d` at slot `block_index` of the
/// span starting at `blockhashoffset` would push an offset past the
/// machine's addresses.
pub open spec fn spec_block_offsets_overflow(
    db: &DFileDatabase,
    d: Seq<u8>,
    block_index: int,
    blockhashoffset: int,
) -> bool {
    ||| block_index * db.spec_block_size() > usize::MAX
    ||| blockhashoffset + block_index * db.spec_block_size() > usize::MAX
    ||| blockhashoffset + block_index * db.spec_block_size() + db.spec_resolved_content(d).len()
        > usize::MAX
}

/// Restores a file that fits in one block: fetch the block named by the
/// file's own digest and take it verbatim. An empty file needs no block.
pub fn restore_file_singleblock(
    db: &DFileDatabase,
    ctx: &mut RestoreContext,
    hash: &BlockIdHash,
    size: i64,
) -> (r: Result<Vec<u8>, RestoreError>)
    requires
        db.wf(),
        hash.wf(),
        size >= 0,
    ensures
        r matches Ok(out) ==> {
            &&& (size == 0 ==> out@ =~= Seq::<u8>::empty())
            &&& (size != 0 ==> out@ == db.spec_resolved_content(hash@) && db.spec_block_of(
                hash@,
                out@,
            ))
        },
        size == 0 ==> r is Ok,
        size != 0 && db.spec_has_block(hash@) && db.spec_block_readable(hash@) ==> r is Ok,
        r == Err::<Vec<u8>, RestoreError>(RestoreError::MissingBlock) <==> (size != 0
            && !db.spec_has_block(hash@)),
        r == Err::<Vec<u8>, RestoreError>(RestoreError::Io) <==> (size != 0 && db.spec_has_block(
            hash@,
        ) && !db.spec_block_readable(hash@)),
        r is Err ==> r == Err::<Vec<u8>, RestoreError>(RestoreError::MissingBlock) || r == Err::<
            Vec<u8>,
            RestoreError,
        >(RestoreError::Io),
{
    if size <= 0 {
        return Ok(Vec::new());
    }
    ctx.block_buffer.clear();
    match db.get_content_block(hash, &mut ctx.block_buffer) {
        Ok(Some(_n)) => {
            let mut out: Vec<u8> = Vec::new();
            out.append(&mut ctx.block_buffer);
            Ok(out)
        },
        Ok(None) => Err(RestoreError::MissingBlock),
        Err(e) => Err(e),
    }
}

/// Restores one content block of a multi-block file: looks the raw digest
/// up, writes the block at its absolute offset, and applies the strict-block
/// check to the block before it. An offset beyond the machine's address
/// space reads as an I/O failure.
pub fn restore_file_multiblock_block(
    db: &DFileDatabase,
    ctx: &mut RestoreContext,
    out: &mut Vec<u8>,
    block_hash: &[u8],
    block_index: usize,
    blockhashoffset: usize,
    last_block_size: &mut Option<usize>,
) -> (r: Result<(), RestoreError>)
    requires
        db.wf(),
        block_hash@.len() == 32,
    ensures
        final(ctx).block_hashes_buffer == old(ctx).block_hashes_buffer,
        r is Err ==> r == Err::<(), RestoreError>(RestoreError::MissingBlock) || r == Err::<
            (),
            RestoreError,
        >(RestoreError::ShortBlock) || r == Err::<(), RestoreError>(RestoreError::Io),
        r == Err::<(), RestoreError>(RestoreError::MissingBlock) <==> !db.spec_has_block(
            block_hash@,
        ),
        r == Err::<(), RestoreError>(RestoreError::Io) ==> db.spec_has_block(block_hash@) && (
        !db.spec_block_readable(block_hash@) || spec_block_offsets_overflow(
            db,
            block_hash@,
            block_index as int,
            blockhashoffset as int,
        )),
        r == Err::<(), RestoreError>(RestoreError::MissingBlock) || r == Err::<(), RestoreError>(
            RestoreError::Io,
        ) ==> final(out)@ == old(out)@ && *final(last_block_size) == *old(last_block_size),
        db.spec_has_block(block_hash@) && db.spec_block_readable(block_hash@)
            && !spec_block_offsets_overflow(
            db,
            block_hash@,
            block_index as int,
            blockhashoffset as int,
        ) ==> {
            &&& ((match *old(last_block_size) {
                Some(l) => l == db.spec_block_size(),
                None => true,
            }) ==> r is Ok)
            &&& (!(match *old(last_block_size) {
                Some(l) => l == db.spec_block_size(),
                None => true,
            }) ==> r == Err::<(), RestoreError>(RestoreError::ShortBlock))
        },
        r is Ok ==> {
            &&& db.spec_has_block(block_hash@)
            &&& db.spec_block_readable(block_hash@)
            &&& db.spec_block_of(block_hash@, db.spec_resolved_content(block_hash@))
            &&& final(out)@ == spec_write_at(
                old(out)@,
                blockhashoffset + block_index * db.spec_block_size(),
                db.spec_resolved_content(block_hash@),
            )
            &&& db.spec_resolved_content(block_hash@).len() <= usize::MAX
            &&& *final(last_block_size) == Some(
                db.spec_resolved_content(block_hash@).len() as usize,
            )
            &&& (*old(last_block_size) matches Some(l) ==> l == db.spec_block_size())
        },
        r == Err::<(), RestoreError>(RestoreError::ShortBlock) ==> {
            &&& final(out)@ == spec_write_at(
                old(out)@,
                blockhashoffset + block_index * db.spec_block_size(),
                db.spec_resolved_content(block_hash@),
            )
            &&& *final(last_block_size) == *old(last_block_size)
            &&& (*old(last_block_size) matches Some(l) && l != db.spec_block_size())
        },
{
    let block_hash = match BlockIdHash::from_bytes(block_hash) {
        Some(h) => h,
        None => {
            proof {
                assert(false);
            }
            return Err(RestoreError::MissingBlock);
        },
    };
    ctx.block_buffer.clear();
    match db.get_content_block(&block_hash, &mut ctx.block_buffer) {
        Ok(Some(_n)) => {},
        Ok(None) => {
            return Err(RestoreError::MissingBlock);
        },
        Err(e) => {
            return Err(e);
        },
    }
    let full_block = db.block_size();
    let block_offset = match block_index.checked_mul(full_block) {
        Some(p) => p,
        None => {
            return Err(RestoreError::Io);
        },
    };
    let offset = match blockhashoffset.checked_add(block_offset) {
        Some(o) => o,
        None => {
            return Err(RestoreError::Io);
        },
    };
    if usize::MAX - offset < ctx.block_buffer.len() {
        return Err(RestoreError::Io);
    }
    let ghost fetched = ctx.block_buffer@;
    write_at(out, offset, ctx.block_buffer.as_slice());
    proof {
        assert(db.spec_block_of(block_hash@, fetched));
        assert(offset as int == blockhashoffset + block_index * db.spec_block_size());
    }
    check_strict_block(full_block, ctx.block_buffer.len(), last_block_size)
}

/// The file image after the first `upto` blocks of one block-list span are
/// written in order, each at `base + i * bsize`.
pub open spec fn spec_apply_payload(
    out0: Seq<u8>,
    blocks: Seq<Seq<u8>>,
    base: int,
    bsize: int,
    upto: int,
) -> Seq<u8>
    decreases upto,
{
    if upto <= 0 {
        out0
    } else {
        spec_write_at(
            spec_apply_payload(out0, blocks, base, bsize, upto - 1),
            base + (upto - 1) * bsize,
            blocks[upto - 1],
        )
    }
}


/// The file image after the first `upto` block-list spans are written, span
/// `j` starting at offset `j * osize`.
pub open spec fn spec_apply_lists(
    out0: Seq<u8>,
    blockss: Seq<Seq<Seq<u8>>>,
    osize: int,
    bsize: int,
    upto: int,
) -> Seq<u8>
    decreases upto,
{
    if upto <= 0 {
        out0
    } else {
        spec_apply_payload(
            spec_apply_lists(out0, blockss, osize, bsize, upto - 1),
            blockss[upto - 1],
            (upto - 1) * osize,
            bsize,
            blockss[upto - 1].len() as int,
        )
    }
}


/// Every fetched content block is one full block long, except the very last
/// block over all spans; spans after it may only be empty.
pub open spec fn spec_strict_lengths(blockss: Seq<Seq<Seq<u8>>>, bsize: int) -> bool {
    forall|j: int, i: int|
        0 <= j < blockss.len() && 0 <= i < blockss[j].len() && !(i == blockss[j].len() - 1 && (
        forall|j2: int| j < j2 < blockss.len() ==> blockss[j2].len() == 0)) ==> (
        #[trigger] blockss[j][i]).len() == bsize
}

/// What the strict-block tracker holds after some spans: nothing when no
/// block was written yet, else the length of the last written block.
pub open spec fn spec_last_state(blockss: Seq<Seq<Seq<u8>>>, last: Option<usize>) -> bool {
    ||| ((forall|j: int| 0 <= j < blockss.len() ==> (#[trigger] blockss[j]).len() == 0) && last
        is None)
    ||| (exists|j0: int|
        {
            &&& 0 <= j0 < blockss.len()
            &&& (#[trigger] blockss[j0]).len() > 0
            &&& (forall|j2: int| j0 < j2 < blockss.len() ==> (#[trigger] blockss[j2]).len() == 0)
            &&& last == Some(blockss[j0].last().len() as usize)
        })
}

/// Whether the repository can serve one block-list digest: some archive
/// holds its payload, and every raw digest the payload names has a block.
pub open spec fn spec_blocklist_resolved(db: &DFileDatabase, main: Seq<u8>) -> bool {
    exists|payload: Seq<u8>|
        {
            &&& #[trigger] db.spec_block_of(main, payload)
            &&& (forall|i: int|
                0 <= i < payload.len() / 32 ==> db.spec_has_block(
                    #[trigger] spec_digest_at(payload, i),
                ))
        }
}

/// The raw digests of one block-list span, each resolved to the bytes its
/// archive stores: block `i` of the span is the stored content of the
/// `i`-th digest of the span's payload.
pub open spec fn spec_resolved_blocks(db: &DFileDatabase, main: Seq<u8>) -> Seq<Seq<u8>> {
    Seq::new(
        (db.spec_resolved_content(main).len() / 32) as nat,
        |i: int| db.spec_resolved_content(spec_digest_at(db.spec_resolved_content(main), i)),
    )
}

/// Whether one span can be fetched end to end: its payload is present and
/// readable, its start offset fits, and every digest it names has a
/// present, readable block whose offsets fit.
pub open spec fn spec_span_fetchable(db: &DFileDatabase, main: Seq<u8>, idx: int) -> bool {
    &&& db.spec_has_block(main)
    &&& db.spec_block_readable(main)
    &&& idx * db.spec_offset_size() <= usize::MAX
    &&& (forall|i: int|
        0 <= i < spec_resolved_blocks(db, main).len() ==> {
            let d = #[trigger] spec_digest_at(db.spec_resolved_content(main), i);
            &&& db.spec_has_block(d)
            &&& db.spec_block_readable(d)
            &&& !spec_block_offsets_overflow(db, d, i, idx * db.spec_offset_size())
        })
}

/// Whether one span obeys the strict-block rule locally: if it writes any
/// block, the block written before it was full, and all its blocks except
/// its own last are full.
pub open spec fn spec_span_lengths_ok(
    db: &DFileDatabase,
    main: Seq<u8>,
    incoming: Option<usize>,
) -> bool {
    let blocks = spec_resolved_blocks(db, main);
    blocks.len() == 0 || ({
        &&& (incoming matches Some(l) ==> l == db.spec_block_size())
        &&& (forall|i: int|
            0 <= i < blocks.len() - 1 ==> (#[trigger] blocks[i]).len() == db.spec_block_size())
    })
}

/// Restores the span of a multi-block file covered by one block-list block:
/// fetches the block-list payload and walks its raw digests in order. On a
/// fetchable span whose lengths obey the strict-block rule, it succeeds.
pub fn restore_file_multiblock_main(
    db: &DFileDatabase,
    ctx: &mut RestoreContext,
    out: &mut Vec<u8>,
    main_hash: &BlockIdHash,
    main_hash_index: usize,
    last_block_size: &mut Option<usize>,
) -> (r: Result<(), RestoreError>)
    requires
        db.wf(),
        main_hash.wf(),
    ensures
        r == Err::<(), RestoreError>(RestoreError::MissingBlocklist) <==> !db.spec_has_block(
            main_hash@,
        ),
        r is Err ==> (r == Err::<(), RestoreError>(RestoreError::MissingBlocklist) || r == Err::<
            (),
            RestoreError,
        >(RestoreError::MissingBlock) || r == Err::<(), RestoreError>(RestoreError::ShortBlock) || r
            == Err::<(), RestoreError>(RestoreError::Io)),
        r == Err::<(), RestoreError>(RestoreError::MissingBlock) || r == Err::<(), RestoreError>(
            RestoreError::Io,
        ) || r == Err::<(), RestoreError>(RestoreError::MissingBlocklist)
            ==> !spec_span_fetchable(db, main_hash@, main_hash_index as int),
        spec_span_fetchable(db, main_hash@, main_hash_index as int) && spec_span_lengths_ok(
            db,
            main_hash@,
            *old(last_block_size),
        ) ==> r is Ok,
        spec_span_fetchable(db, main_hash@, main_hash_index as int) && !spec_span_lengths_ok(
            db,
            main_hash@,
            *old(last_block_size),
        ) ==> r == Err::<(), RestoreError>(RestoreError::ShortBlock),
        r is Ok ==> ({
            let blocks = spec_resolved_blocks(db, main_hash@);
            &&& db.spec_has_block(main_hash@)
            &&& spec_blocklist_resolved(db, main_hash@)
            &&& final(out)@ == spec_apply_payload(
                old(out)@,
                blocks,
                main_hash_index * db.spec_offset_size(),
                db.spec_block_size(),
                blocks.len() as int,
            )
            &&& (blocks.len() == 0 ==> *final(last_block_size) == *old(last_block_size))
            &&& (blocks.len() > 0 ==> {
                &&& (*old(last_block_size) matches Some(l) ==> l == db.spec_block_size())
                &&& (forall|i: int|
                    0 <= i < blocks.len() - 1 ==> (#[trigger] blocks[i]).len()
                        == db.spec_block_size())
                &&& (forall|i: int|
                    0 <= i < blocks.len() ==> (#[trigger] blocks[i]).len() <= usize::MAX)
                &&& *final(last_block_size) == Some(blocks.last().len() as usize)
            })
        }),
{
    let ghost fetchable = spec_span_fetchable(db, main_hash@, main_hash_index as int);
    ctx.block_hashes_buffer.clear();
    match db.get_content_block(main_hash, &mut ctx.block_hashes_buffer) {
        Ok(Some(_n)) => {},
        Ok(None) => {
            return Err(RestoreError::MissingBlocklist);
        },
        Err(e) => {
            return Err(e);
        },
    }
    let blockhashoffset = match main_hash_index.checked_mul(db.offset_size()) {
        Some(o) => o,
        None => {
            return Err(RestoreError::Io);
        },
    };
    let ghost payload = ctx.block_hashes_buffer@;
    let ghost out0 = out@;
    let ghost rblocks = spec_resolved_blocks(db, main_hash@);
    proof {
        assert(payload == db.spec_resolved_content(main_hash@));
        assert(rblocks.len() == payload.len() / 32);
    }
    let digest_count = ctx.block_hashes_buffer.len() / 32;
    let mut bi: usize = 0;
    while bi < digest_count
        invariant
            db.wf(),
            main_hash.wf(),
            fetchable == spec_span_fetchable(db, main_hash@, main_hash_index as int),
            digest_count == ctx.block_hashes_buffer@.len() / 32,
            ctx.block_hashes_buffer@.len() <= usize::MAX,
            payload == ctx.block_hashes_buffer@,
            payload == db.spec_resolved_content(main_hash@),
            db.spec_has_block(main_hash@),
            rblocks == spec_resolved_blocks(db, main_hash@),
            rblocks.len() == digest_count,
            blockhashoffset == main_hash_index * db.spec_offset_size(),
            0 <= bi <= digest_count,
            bi == 0 ==> *last_block_size == *old(last_block_size),
            bi > 0 ==> (*old(last_block_size) matches Some(l) ==> l == db.spec_block_size()),
            bi > 0 ==> *last_block_size == Some(rblocks[bi - 1].len() as usize),
            forall|x: int|
                0 <= x < bi ==> db.spec_has_block(#[trigger] spec_digest_at(payload, x)),
            forall|x: int|
                0 <= x < bi - 1 ==> (#[trigger] rblocks[x]).len() == db.spec_block_size(),
            forall|x: int| 0 <= x < bi ==> (#[trigger] rblocks[x]).len() <= usize::MAX,
            out@ == spec_apply_payload(
                out0,
                rblocks,
                blockhashoffset as int,
                db.spec_block_size(),
                bi as int,
            ),
        decreases digest_count - bi,
    {
        proof {
            assert(32 * (bi as int) + 32 <= ctx.block_hashes_buffer@.len()) by (nonlinear_arith)
                requires
                    0 <= bi < digest_count,
                    digest_count == ctx.block_hashes_buffer@.len() / 32,
            ;
        }
        let chunk = vstd::slice::slice_subrange(
            ctx.block_hashes_buffer.as_slice(),
            32 * bi,
            32 * bi + 32,
        );
        let chunk_vec = vstd::slice::slice_to_vec(chunk);
        proof {
            assert(chunk_vec@ == spec_digest_at(payload, bi as int));
            assert(rblocks[bi as int] == db.spec_resolved_content(chunk_vec@));
        }
        let ghost prev_out = out@;
        let ghost prev_last = *last_block_size;
        match restore_file_multiblock_block(
            db,
            ctx,
            out,
            chunk_vec.as_slice(),
            bi,
            blockhashoffset,
            last_block_size,
        ) {
            Ok(()) => {},
            Err(e) => {
                proof {
                    if e == RestoreError::MissingBlock || e == RestoreError::Io {
                        assert(!fetchable);
                    } else {
                        // The strict check failed: under a fetchable span
                        // the violated length is a resolved block's, so the
                        // span's lengths are not ok.
                        assert(e == RestoreError::ShortBlock);
                        if fetchable {
                            assert(prev_last matches Some(l) && l != db.spec_block_size());
                            if bi == 0 {
                                assert(!spec_span_lengths_ok(
                                    db,
                                    main_hash@,
                                    *old(last_block_size),
                                ));
                            } else {
                                assert(rblocks[bi as int - 1].len() != db.spec_block_size());
                                assert(!spec_span_lengths_ok(
                                    db,
                                    main_hash@,
                                    *old(last_block_size),
                                ));
                            }
                        }
                    }
                }
                return Err(e);
            },
        }
        proof {
            assert(out@ == spec_write_at(
                prev_out,
                blockhashoffset + bi * db.spec_block_size(),
                rblocks[bi as int],
            ));
            assert(out@ == spec_apply_payload(
                out0,
                rblocks,
                blockhashoffset as int,
                db.spec_block_size(),
                bi as int + 1,
            ));
            if bi > 0 {
                assert(rblocks[bi as int - 1].len() == db.spec_block_size());
            }
        }
        bi = bi + 1;
    }
    proof {
        assert(spec_blocklist_resolved(db, main_hash@)) by {
            assert(db.spec_block_of(main_hash@, payload));
            assert(forall|i: int|
                0 <= i < payload.len() / 32 ==> db.spec_has_block(
                    #[trigger] spec_digest_at(payload, i),
                ));
        }
    }
    Ok(())
}

/// Each span of a multi-block file, resolved to the blocks its payload
/// names.
pub open spec fn spec_resolved_blockss(db: &DFileDatabase, bls: Seq<BlockIdHash>) -> Seq<
    Seq<Seq<u8>>,
> {
    Seq::new(bls.len(), |j: int| spec_resolved_blocks(db, bls[j]@))
}

/// Whether every span of the file can be fetched end to end.
pub open spec fn spec_multi_fetchable(db: &DFileDatabase, bls: Seq<BlockIdHash>) -> bool {
    forall|j: int| 0 <= j < bls.len() ==> spec_span_fetchable(db, (#[trigger] bls[j])@, j)
}

/// Restores a multi-block file: two levels of indirection, one block-list
/// block after another, each naming full content blocks. On a fully
/// fetchable file whose resolved blocks obey the strict-block rule, it
/// succeeds with exactly the fold of their offset writes.
pub fn restore_file_multiblock(
    db: &DFileDatabase,
    ctx: &mut RestoreContext,
    block_lists: &Vec<BlockIdHash>,
) -> (r: Result<Vec<u8>, RestoreError>)
    requires
        db.wf(),
        forall|j: int| 0 <= j < block_lists@.len() ==> (#[trigger] block_lists@[j]).wf(),
    ensures
        r is Err ==> (r == Err::<Vec<u8>, RestoreError>(RestoreError::MissingBlocklist) || r
            == Err::<Vec<u8>, RestoreError>(RestoreError::MissingBlock) || r == Err::<
            Vec<u8>,
            RestoreError,
        >(RestoreError::ShortBlock) || r == Err::<Vec<u8>, RestoreError>(RestoreError::Io)),
        r == Err::<Vec<u8>, RestoreError>(RestoreError::MissingBlocklist) ==> exists|j: int|
            0 <= j < block_lists@.len() && !db.spec_has_block((#[trigger] block_lists@[j])@),
        r == Err::<Vec<u8>, RestoreError>(RestoreError::MissingBlocklist) || r == Err::<
            Vec<u8>,
            RestoreError,
        >(RestoreError::MissingBlock) || r == Err::<Vec<u8>, RestoreError>(RestoreError::Io)
            ==> !spec_multi_fetchable(db, block_lists@),
        spec_multi_fetchable(db, block_lists@) && spec_strict_lengths(
            spec_resolved_blockss(db, block_lists@),
            db.spec_block_size(),
        ) ==> r is Ok,
        spec_multi_fetchable(db, block_lists@) && !spec_strict_lengths(
            spec_resolved_blockss(db, block_lists@),
            db.spec_block_size(),
        ) ==> r == Err::<Vec<u8>, RestoreError>(RestoreError::ShortBlock),
        r matches Ok(out) ==> {
            &&& (forall|j: int|
                0 <= j < block_lists@.len() ==> db.spec_has_block((#[trigger] block_lists@[j])@))
            &&& (forall|j: int|
                0 <= j < block_lists@.len() ==> spec_blocklist_resolved(
                    db,
                    (#[trigger] block_lists@[j])@,
                ))
            &&& out@ == spec_apply_lists(
                Seq::<u8>::empty(),
                spec_resolved_blockss(db, block_lists@),
                db.spec_offset_size(),
                db.spec_block_size(),
                block_lists@.len() as int,
            )
            &&& spec_strict_lengths(
                spec_resolved_blockss(db, block_lists@),
                db.spec_block_size(),
            )
        },
{
    let ghost rbss = spec_resolved_blockss(db, block_lists@);
    let mut out: Vec<u8> = Vec::new();
    let mut last_block_size: Option<usize> = None;
    let mut j: usize = 0;
    while j < block_lists.len()
        invariant
            db.wf(),
            0 <= j <= block_lists@.len(),
            rbss == spec_resolved_blockss(db, block_lists@),
            rbss.len() == block_lists@.len(),
            forall|x: int| 0 <= x < block_lists@.len() ==> (#[trigger] block_lists@[x]).wf(),
            forall|x: int| 0 <= x < j ==> db.spec_has_block((#[trigger] block_lists@[x])@),
            forall|x: int|
                0 <= x < j ==> spec_blocklist_resolved(db, (#[trigger] block_lists@[x])@),
            out@ == spec_apply_lists(
                Seq::<u8>::empty(),
                rbss,
                db.spec_offset_size(),
                db.spec_block_size(),
                j as int,
            ),
            spec_strict_lengths(rbss.take(j as int), db.spec_block_size()),
            spec_last_state(rbss.take(j as int), last_block_size),
            forall|x: int, y: int|
                0 <= x < j && 0 <= y < rbss[x].len() ==> (#[trigger] rbss[x][y]).len()
                    <= usize::MAX,
        decreases block_lists@.len() - j,
    {
        let ghost prev_last = last_block_size;
        let ghost prefix = rbss.take(j as int);
        proof {
            assert(rbss[j as int] == spec_resolved_blocks(db, block_lists@[j as int]@));
        }
        match restore_file_multiblock_main(db, ctx, &mut out, &block_lists[j], j, &mut last_block_size) {
            Ok(()) => {},
            Err(e) => {
                proof {
                    let bsize = db.spec_block_size();
                    if e == RestoreError::ShortBlock {
                        // A strict failure inside a fetchable span means some
                        // resolved block that another block follows is not
                        // full, so the whole file's lengths are not strict.
                        if spec_multi_fetchable(db, block_lists@) {
                            assert(spec_span_fetchable(db, block_lists@[j as int]@, j as int));
                            assert(!spec_span_lengths_ok(
                                db,
                                block_lists@[j as int]@,
                                prev_last,
                            ));
                            let bs = rbss[j as int];
                            assert(bs.len() > 0);
                            if !(prev_last matches Some(l) ==> l == bsize) {
                                let j0 = choose|j0: int|
                                    {
                                        &&& 0 <= j0 < prefix.len()
                                        &&& (#[trigger] prefix[j0]).len() > 0
                                        &&& (forall|j2: int|
                                            j0 < j2 < prefix.len() ==> (
                                            #[trigger] prefix[j2]).len() == 0)
                                        &&& prev_last == Some(
                                            prefix[j0].last().len() as usize,
                                        )
                                    };
                                assert(rbss[j0] == prefix[j0]);
                                assert(rbss[j0][prefix[j0].len() - 1].len() != bsize);
                                assert(!(prefix[j0].len() - 1 == rbss[j0].len() - 1 && (
                                forall|j2: int|
                                    j0 < j2 < rbss.len() ==> (#[trigger] rbss[j2]).len()
                                        == 0))) by {
                                    assert(rbss[j as int].len() > 0);
                                }
                                assert(!spec_strict_lengths(rbss, bsize));
                            } else {
                                let i = choose|i: int|
                                    0 <= i < bs.len() - 1 && (#[trigger] bs[i]).len() != bsize;
                                assert(rbss[j as int][i].len() != bsize);
                                assert(!spec_strict_lengths(rbss, bsize));
                            }
                        }
                    } else {
                        assert(!spec_span_fetchable(db, block_lists@[j as int]@, j as int));
                    }
                }
                return Err(e);
            },
        }
        proof {
            let bs = rbss[j as int];
            let bsize = db.spec_block_size();
            assert(rbss.take(j as int + 1) =~= prefix.push(bs));
            assert(out@ == spec_apply_lists(
                Seq::<u8>::empty(),
                rbss,
                db.spec_offset_size(),
                db.spec_block_size(),
                j as int + 1,
            ));
            if bs.len() > 0 && prev_last is Some {
                let j0 = choose|j0: int|
                    {
                        &&& 0 <= j0 < prefix.len()
                        &&& (#[trigger] prefix[j0]).len() > 0
                        &&& (forall|j2: int|
                            j0 < j2 < prefix.len() ==> (#[trigger] prefix[j2]).len() == 0)
                        &&& prev_last == Some(prefix[j0].last().len() as usize)
                    };
                assert(prefix[j0].last().len() == bsize);
            }
            let cur = rbss.take(j as int + 1);
            assert(spec_strict_lengths(cur, bsize)) by {
                assert forall|x: int, y: int|
                    0 <= x < cur.len() && 0 <= y < cur[x].len() && !(y == cur[x].len() - 1 && (
                    forall|j2: int| x < j2 < cur.len() ==> cur[j2].len() == 0)) implies (
                #[trigger] cur[x][y]).len() == bsize by {
                    if x < j as int {
                        assert(cur[x] == prefix[x]);
                        if y == prefix[x].len() - 1 && (forall|j2: int|
                            x < j2 < prefix.len() ==> (#[trigger] prefix[j2]).len() == 0) {
                            assert(bs.len() > 0);
                            assert(prev_last == Some(prefix[x].last().len() as usize));
                            assert(prefix[x][y].len() == bsize);
                        } else {
                            assert(prefix[x][y].len() == bsize);
                        }
                    } else {
                        assert(cur[x] == bs);
                        assert(y < bs.len() - 1);
                    }
                }
            }
            assert(spec_last_state(cur, last_block_size)) by {
                if bs.len() == 0 {
                    if prev_last is None {
                        assert(forall|x: int|
                            0 <= x < cur.len() ==> (#[trigger] cur[x]).len() == 0);
                    } else {
                        let j0 = choose|j0: int|
                            {
                                &&& 0 <= j0 < prefix.len()
                                &&& (#[trigger] prefix[j0]).len() > 0
                                &&& (forall|j2: int|
                                    j0 < j2 < prefix.len() ==> (#[trigger] prefix[j2]).len()
                                        == 0)
                                &&& prev_last == Some(prefix[j0].last().len() as usize)
                            };
                        assert(cur[j0].len() > 0);
                        assert(forall|j2: int|
                            j0 < j2 < cur.len() ==> (#[trigger] cur[j2]).len() == 0);
                    }
                } else {
                    assert(cur[j as int].len() > 0);
                    assert(last_block_size == Some(cur[j as int].last().len() as usize));
                }
            }
        }
        j = j + 1;
    }
    proof {
        assert(rbss.take(block_lists@.len() as int) =~= rbss);
        if spec_multi_fetchable(db, block_lists@) && !spec_strict_lengths(
            rbss,
            db.spec_block_size(),
        ) {
            assert(false);
        }
    }
    Ok(out)
}

/// The bytes a multi-block file assembles to: the fold of its spans' offset
/// writes over an empty image.
pub open spec fn spec_assembled(db: &DFileDatabase, bls: Seq<BlockIdHash>) -> Seq<u8> {
    spec_apply_lists(
        Seq::<u8>::empty(),
        spec_resolved_blockss(db, bls),
        db.spec_offset_size(),
        db.spec_block_size(),
        bls.len() as int,
    )
}

/// Everything `restore_file` promises, stated over the abstract outcome
/// (the assembled bytes, or the error), so that the entry dispatcher can
/// carry the same promises for the file it restores.
pub open spec fn spec_restore_file_post(
    db: &DFileDatabase,
    hash: Seq<u8>,
    size: int,
    bls: Seq<BlockIdHash>,
    r: Result<Seq<u8>, RestoreError>,
) -> bool {
    &&& (r matches Ok(out) ==> {
        &&& (size != 0 ==> sha256_of(out) == hash)
        &&& (bls.len() == 0 && size == 0 ==> out =~= Seq::<u8>::empty())
        &&& (bls.len() == 0 && size != 0 ==> out == db.spec_resolved_content(hash)
            && db.spec_block_of(hash, out))
        &&& (forall|j: int| 0 <= j < bls.len() ==> db.spec_has_block((#[trigger] bls[j])@))
        &&& (forall|j: int|
            0 <= j < bls.len() ==> spec_blocklist_resolved(db, (#[trigger] bls[j])@))
        &&& (bls.len() > 0 ==> out == spec_assembled(db, bls) && spec_strict_lengths(
            spec_resolved_blockss(db, bls),
            db.spec_block_size(),
        ))
    })
    &&& (bls.len() == 0 && size == 0 ==> r is Ok)
    &&& (bls.len() == 0 ==> (r == Result::<Seq<u8>, RestoreError>::Err(RestoreError::MissingBlock)
        <==> (size != 0 && !db.spec_has_block(hash))))
    &&& (bls.len() == 0 ==> (r == Result::<Seq<u8>, RestoreError>::Err(RestoreError::Io) <==> (size
        != 0 && db.spec_has_block(hash) && !db.spec_block_readable(hash))))
    &&& (bls.len() == 0 && size != 0 && db.spec_has_block(hash) && db.spec_block_readable(hash)
        ==> {
        &&& (r is Ok <==> sha256_of(db.spec_resolved_content(hash)) == hash)
        &&& (r == Result::<Seq<u8>, RestoreError>::Err(RestoreError::HashMismatch) <==> sha256_of(
            db.spec_resolved_content(hash),
        ) != hash)
    })
    &&& (r == Result::<Seq<u8>, RestoreError>::Err(RestoreError::MissingBlocklist) ==> exists|
        j: int,
    | 0 <= j < bls.len() && !db.spec_has_block((#[trigger] bls[j])@))
    &&& (bls.len() > 0 && (r == Result::<Seq<u8>, RestoreError>::Err(RestoreError::MissingBlock)
        || r == Result::<Seq<u8>, RestoreError>::Err(RestoreError::MissingBlocklist) || r
        == Result::<Seq<u8>, RestoreError>::Err(RestoreError::Io)) ==> !spec_multi_fetchable(
        db,
        bls,
    ))
    &&& (bls.len() > 0 && spec_multi_fetchable(db, bls) && !spec_strict_lengths(
        spec_resolved_blockss(db, bls),
        db.spec_block_size(),
    ) ==> r == Result::<Seq<u8>, RestoreError>::Err(RestoreError::ShortBlock))
    &&& (bls.len() > 0 && spec_multi_fetchable(db, bls) && spec_strict_lengths(
        spec_resolved_blockss(db, bls),
        db.spec_block_size(),
    ) ==> {
        &&& (r is Ok <==> (size == 0 || sha256_of(spec_assembled(db, bls)) == hash))
        &&& (r == Result::<Seq<u8>, RestoreError>::Err(RestoreError::HashMismatch) <==> (size != 0
            && sha256_of(spec_assembled(db, bls)) != hash))
    })
    &&& (r is Err ==> (r == Result::<Seq<u8>, RestoreError>::Err(RestoreError::MissingBlock) || r
        == Result::<Seq<u8>, RestoreError>::Err(RestoreError::MissingBlocklist) || r == Result::<
        Seq<u8>,
        RestoreError,
    >::Err(RestoreError::ShortBlock) || r == Result::<Seq<u8>, RestoreError>::Err(
        RestoreError::HashMismatch,
    ) || r == Result::<Seq<u8>, RestoreError>::Err(RestoreError::Io)))
}

/// Assembles one file's bytes from the repository and verifies their
/// SHA-256 against the declared digest. Success is owed whenever every
/// referenced block is present, readable and within the machine's
/// addresses, the strict-block rule holds, and the assembled bytes hash to
/// the declared digest.
pub fn restore_file(
    db: &DFileDatabase,
    ctx: &mut RestoreContext,
    hash: &BlockIdHash,
    size: i64,
    block_lists: &Vec<BlockIdHash>,
) -> (r: Result<Vec<u8>, RestoreError>)
    requires
        db.wf(),
        hash.wf(),
        size >= 0,
        forall|j: int| 0 <= j < block_lists@.len() ==> (#[trigger] block_lists@[j]).wf(),
    ensures
        r matches Ok(out) ==> {
            &&& (size != 0 ==> sha256_of(out@) == hash@)
            &&& (block_lists@.len() == 0 && size == 0 ==> out@ =~= Seq::<u8>::empty())
            &&& (block_lists@.len() == 0 && size != 0 ==> out@ == db.spec_resolved_content(hash@)
                && db.spec_block_of(hash@, out@))
            &&& (forall|j: int|
                0 <= j < block_lists@.len() ==> db.spec_has_block((#[trigger] block_lists@[j])@))
            &&& (forall|j: int|
                0 <= j < block_lists@.len() ==> spec_blocklist_resolved(
                    db,
                    (#[trigger] block_lists@[j])@,
                ))
            &&& (block_lists@.len() > 0 ==> out@ == spec_assembled(db, block_lists@)
                && spec_strict_lengths(
                spec_resolved_blockss(db, block_lists@),
                db.spec_block_size(),
            ))
        },
        block_lists@.len() == 0 && size == 0 ==> r is Ok,
        block_lists@.len() == 0 ==> (r == Err::<Vec<u8>, RestoreError>(RestoreError::MissingBlock)
            <==> (size != 0 && !db.spec_has_block(hash@))),
        block_lists@.len() == 0 ==> (r == Err::<Vec<u8>, RestoreError>(RestoreError::Io) <==> (size
            != 0 && db.spec_has_block(hash@) && !db.spec_block_readable(hash@))),
        block_lists@.len() == 0 && size != 0 && db.spec_has_block(hash@) && db.spec_block_readable(
            hash@,
        ) ==> {
            &&& (r is Ok <==> sha256_of(db.spec_resolved_content(hash@)) == hash@)
            &&& (r == Err::<Vec<u8>, RestoreError>(RestoreError::HashMismatch) <==> sha256_of(
                db.spec_resolved_content(hash@),
            ) != hash@)
        },
        r == Err::<Vec<u8>, RestoreError>(RestoreError::MissingBlocklist) ==> exists|j: int|
            0 <= j < block_lists@.len() && !db.spec_has_block((#[trigger] block_lists@[j])@),
        block_lists@.len() > 0 && (r == Err::<Vec<u8>, RestoreError>(RestoreError::MissingBlock)
            || r == Err::<Vec<u8>, RestoreError>(RestoreError::MissingBlocklist) || r == Err::<
            Vec<u8>,
            RestoreError,
        >(RestoreError::Io)) ==> !spec_multi_fetchable(db, block_lists@),
        block_lists@.len() > 0 && spec_multi_fetchable(db, block_lists@)
            && !spec_strict_lengths(
            spec_resolved_blockss(db, block_lists@),
            db.spec_block_size(),
        ) ==> r == Err::<Vec<u8>, RestoreError>(RestoreError::ShortBlock),
        block_lists@.len() > 0 && spec_multi_fetchable(db, block_lists@) && spec_strict_lengths(
            spec_resolved_blockss(db, block_lists@),
            db.spec_block_size(),
        ) ==> {
            &&& (r is Ok <==> (size == 0 || sha256_of(spec_assembled(db, block_lists@)) == hash@))
            &&& (r == Err::<Vec<u8>, RestoreError>(RestoreError::HashMismatch) <==> (size != 0
                && sha256_of(spec_assembled(db, block_lists@)) != hash@))
        },
        r is Err ==> (r == Err::<Vec<u8>, RestoreError>(RestoreError::MissingBlock) || r == Err::<
            Vec<u8>,
            RestoreError,
        >(RestoreError::MissingBlocklist) || r == Err::<Vec<u8>, RestoreError>(
            RestoreError::ShortBlock,
        ) || r == Err::<Vec<u8>, RestoreError>(RestoreError::HashMismatch) || r == Err::<
            Vec<u8>,
            RestoreError,
        >(RestoreError::Io)),
        spec_restore_file_post(
            db,
            hash@,
            size as int,
            block_lists@,
            match r {
                Ok(out) => Result::<Seq<u8>, RestoreError>::Ok(out@),
                Err(e) => Result::<Seq<u8>, RestoreError>::Err(e),
            },
        ),
{
    let out = if block_lists.len() == 0 {
        match restore_file_singleblock(db, ctx, hash, size) {
            Ok(out) => out,
            Err(e) => {
                return Err(e);
            },
        }
    } else {
        match restore_file_multiblock(db, ctx, block_lists) {
            Ok(out) => out,
            Err(e) => {
                return Err(e);
            },
        }
    };
    match check_file_hash(hash, size, &out) {
        Ok(()) => Ok(out),
        Err(e) => Err(e),
    }
}

/// What the driver is to do for one entry: create a directory, write a
/// file's bytes, report a verified file, or nothing (symlinks, and folders
/// in verify-only mode).
#[derive(Debug)]
pub enum RestoreAction {
    CreateDir { path: Vec<u8> },
    WriteFile { path: Vec<u8>, content: Vec<u8> },
    Verified { content_len: usize },
    Skip,
}

/// The absolute path an entry restores to under the given root.
pub open spec fn spec_entry_path(entry: &FileEntry, params: &RestoreParams, root: String) -> Seq<
    u8,
> {
    spec_path_join(
        spec_utf8(root@),
        spec_transformed(spec_utf8(entry.path@), params.replace_backslash_to_slash),
    )
}

/// Restores one snapshot entry: a folder with a restore root always becomes
/// a directory at its mapped path, a file is assembled and hash-checked and
/// carries every promise of `restore_file`, and a symlink is skipped. In
/// verify-only mode nothing is to be written, but files are still fully
/// assembled and checked.
pub fn restore_entry(
    entry: &FileEntry,
    params: &RestoreParams,
    ctx: &mut RestoreContext,
    db: &DFileDatabase,
) -> (r: Result<RestoreAction, RestoreError>)
    requires
        db.wf(),
        entry.wf(),
    ensures
        r is Err ==> entry.spec_is_file(),
        entry.spec_is_folder() && params.restore_path is Some ==> (r matches Ok(a) && a matches
            RestoreAction::CreateDir { path } && (params.restore_path matches Some(root)
            && path@ == spec_entry_path(entry, params, root))),
        entry.spec_is_folder() && params.restore_path is None ==> (r matches Ok(a)
            && a is Skip),
        entry.file_type is SymLink ==> (r matches Ok(a) && a is Skip),
        entry.spec_is_file() && params.restore_path is Some ==> match r {
            Ok(a) => {
                &&& a matches RestoreAction::WriteFile { path, content }
                &&& (params.restore_path matches Some(root) && path@ == spec_entry_path(
                    entry,
                    params,
                    root,
                ))
                &&& spec_restore_file_post(
                    db,
                    spec_file_hash(entry),
                    entry.spec_size(),
                    entry.block_lists@,
                    Result::<Seq<u8>, RestoreError>::Ok(content@),
                )
            },
            Err(e) => spec_restore_file_post(
                db,
                spec_file_hash(entry),
                entry.spec_size(),
                entry.block_lists@,
                Result::<Seq<u8>, RestoreError>::Err(e),
            ),
        },
        entry.spec_is_file() && params.restore_path is None ==> match r {
            Ok(a) => {
                &&& a matches RestoreAction::Verified { content_len }
                &&& exists|content: Seq<u8>|
                    {
                        &&& #[trigger] spec_restore_file_post(
                            db,
                            spec_file_hash(entry),
                            entry.spec_size(),
                            entry.block_lists@,
                            Result::<Seq<u8>, RestoreError>::Ok(content),
                        )
                        &&& content_len == content.len()
                    }
            },
            Err(e) => spec_restore_file_post(
                db,
                spec_file_hash(entry),
                entry.spec_size(),
                entry.block_lists@,
                Result::<Seq<u8>, RestoreError>::Err(e),
            ),
        },
{
    let paths = calculate_path(entry, params);
    match &entry.file_type {
        FileType::Folder { .. } => {
            match paths {
                Some((abs, _rel)) => Ok(RestoreAction::CreateDir { path: abs }),
                None => Ok(RestoreAction::Skip),
            }
        },
        FileType::File { hash, size, .. } => {
            let content = match restore_file(db, ctx, hash, *size, &entry.block_lists) {
                Ok(out) => out,
                Err(e) => {
                    return Err(e);
                },
            };
            match paths {
                Some((abs, _rel)) => Ok(RestoreAction::WriteFile { path: abs, content }),
                None => {
                    proof {
                        assert(spec_restore_file_post(
                            db,
                            spec_file_hash(entry),
                            entry.spec_size(),
                            entry.block_lists@,
                            Result::<Seq<u8>, RestoreError>::Ok(content@),
                        ));
                    }
                    Ok(RestoreAction::Verified { content_len: content.len() })
                },
            }
        },
        FileType::SymLink => Ok(RestoreAction::Skip),
    }
}

/// The number of file rows in a snapshot prefix.
pub open spec fn spec_count_files(s: Seq<FileEntry>) -> int
    decreases s.len(),
{
    if s.len() == 0 {
        0
    } else {
        spec_count_files(s.drop_last()) + if s.last().spec_is_file() {
            1int
        } else {
            0int
        }
    }
}

/// The number of folder rows in a snapshot prefix.
pub open spec fn spec_count_folders(s: Seq<FileEntry>) -> int
    decreases s.len(),
{
    if s.len() == 0 {
        0
    } else {
        spec_count_folders(s.drop_last()) + if s.last().spec_is_folder() {
            1int
        } else {
            0int
        }
    }
}

/// The declared bytes of all file rows.
pub open spec fn spec_sum_sizes(s: Seq<FileEntry>) -> int
    decreases s.len(),
{
    if s.len() == 0 {
        0
    } else {
        spec_sum_sizes(s.drop_last()) + s.last().spec_size()
    }
}

/// The predicted on-disk bytes of all rows.
pub open spec fn spec_sum_predicted(s: Seq<FileEntry>) -> int
    decreases s.len(),
{
    if s.len() == 0 {
        0
    } else {
        spec_sum_predicted(s.drop_last()) + s.last().spec_predicted_time()
    }
}

/// Sums what the restore run will touch: how many files and folders, and
/// how many bytes, saturating at the counters' limits.
pub fn calculate_summary(entries: &Vec<FileEntry>) -> (r: RestoreSummary)
    requires
        forall|i: int| 0 <= i < entries@.len() ==> (#[trigger] entries@[i]).wf(),
    ensures
        r.file_count == spec_count_files(entries@),
        r.folder_count == spec_count_folders(entries@),
        r.total_bytes == if spec_sum_sizes(entries@) <= u64::MAX as int {
            spec_sum_sizes(entries@)
        } else {
            u64::MAX as int
        },
        r.predicted_bytes == if spec_sum_predicted(entries@) <= u64::MAX as int {
            spec_sum_predicted(entries@)
        } else {
            u64::MAX as int
        },
{
    let mut file_count: usize = 0;
    let mut folder_count: usize = 0;
    let mut total_bytes: u64 = 0;
    let mut predicted_bytes: u64 = 0;
    let mut i: usize = 0;
    while i < entries.len()
        invariant
            0 <= i <= entries@.len(),
            forall|k: int| 0 <= k < entries@.len() ==> (#[trigger] entries@[k]).wf(),
            file_count == spec_count_files(entries@.take(i as int)),
            folder_count == spec_count_folders(entries@.take(i as int)),
            file_count <= i && folder_count <= i,
            total_bytes == if spec_sum_sizes(entries@.take(i as int)) <= u64::MAX as int {
                spec_sum_sizes(entries@.take(i as int))
            } else {
                u64::MAX as int
            },
            predicted_bytes == if spec_sum_predicted(entries@.take(i as int)) <= u64::MAX as int {
                spec_sum_predicted(entries@.take(i as int))
            } else {
                u64::MAX as int
            },
        decreases entries@.len() - i,
    {
        let e = &entries[i];
        proof {
            assert(entries@.take(i as int + 1).drop_last() =~= entries@.take(i as int));
            assert(entries@.take(i as int + 1).last() == entries@[i as int]);
            assert(spec_sum_sizes(entries@.take(i as int)) >= 0) by {
                lemma_sum_sizes_nonneg(entries@.take(i as int), entries@);
            }
            assert(spec_sum_predicted(entries@.take(i as int)) >= 0) by {
                lemma_sum_predicted_nonneg(entries@.take(i as int), entries@);
            }
        }
        if e.is_file() {
            file_count = file_count + 1;
        }
        if e.is_folder() {
            folder_count = folder_count + 1;
        }
        total_bytes = total_bytes.saturating_add(e.bytes_size());
        predicted_bytes = predicted_bytes.saturating_add(e.predicted_time());
        i = i + 1;
    }
    proof {
        assert(entries@.take(entries@.len() as int) =~= entries@);
    }
    RestoreSummary { file_count, folder_count, total_bytes, predicted_bytes }
}

/// What the folder pass emits for one folder entry: a directory at the
/// entry's mapped path, or nothing in verify-only mode.
pub open spec fn spec_folder_action_of(
    params: &RestoreParams,
    e: FileEntry,
    a: RestoreAction,
) -> bool {
    if params.restore_path is Some {
        a matches RestoreAction::CreateDir { path } && (params.restore_path matches Some(root)
            && path@ == spec_entry_path(&e, params, root))
    } else {
        a is Skip
    }
}

/// What the file pass emits for one file entry: its assembled, hash-checked
/// bytes at its mapped path, or the verified length in verify-only mode;
/// either way with every promise of `restore_file`.
pub open spec fn spec_file_action_of(
    db: &DFileDatabase,
    params: &RestoreParams,
    e: FileEntry,
    a: RestoreAction,
) -> bool {
    if params.restore_path is Some {
        &&& a matches RestoreAction::WriteFile { path, content }
        &&& (params.restore_path matches Some(root) && path@ == spec_entry_path(&e, params, root))
        &&& spec_restore_file_post(
            db,
            spec_file_hash(&e),
            e.spec_size(),
            e.block_lists@,
            Result::<Seq<u8>, RestoreError>::Ok(content@),
        )
    } else {
        &&& a matches RestoreAction::Verified { content_len }
        &&& exists|content: Seq<u8>|
            {
                &&& #[trigger] spec_restore_file_post(
                    db,
                    spec_file_hash(&e),
                    e.spec_size(),
                    e.block_lists@,
                    Result::<Seq<u8>, RestoreError>::Ok(content),
                )
                &&& content_len == content.len()
            }
    }
}

/// Removing one entry removes its contribution to the file and folder
/// counts.
proof fn lemma_counts_remove(s: Seq<FileEntry>, i: int)
    requires
        0 <= i < s.len(),
    ensures
        spec_count_files(s.remove(i)) == spec_count_files(s) - (if s[i].spec_is_file() {
            1int
        } else {
            0int
        }),
        spec_count_folders(s.remove(i)) == spec_count_folders(s) - (if s[i].spec_is_folder() {
            1int
        } else {
            0int
        }),
    decreases s.len(),
{
    if i == s.len() - 1 {
        assert(s.remove(i) =~= s.drop_last());
    } else {
        assert(s.remove(i).drop_last() =~= s.drop_last().remove(i));
        assert(s.remove(i).last() == s.last());
        lemma_counts_remove(s.drop_last(), i);
    }
}

/// Sequences with the same entries in any order count the same files and
/// folders.
proof fn lemma_counts_multiset(s1: Seq<FileEntry>, s2: Seq<FileEntry>)
    requires
        s1.to_multiset() == s2.to_multiset(),
    ensures
        spec_count_files(s1) == spec_count_files(s2),
        spec_count_folders(s1) == spec_count_folders(s2),
    decreases s1.len(),
{
    assert(s1.len() == s1.to_multiset().len());
    assert(s2.len() == s2.to_multiset().len());
    if s1.len() > 0 {
        let e = s1.last();
        assert(s1.to_multiset().count(e) > 0) by {
            assert(s1.contains(e));
        }
        assert(s2.contains(e));
        let i = choose|i: int| 0 <= i < s2.len() && s2[i] == e;
        assert(s1.drop_last() =~= s1.remove(s1.len() - 1));
        assert(s1.remove(s1.len() - 1).to_multiset() =~= s1.to_multiset().remove(e));
        assert(s2.remove(i).to_multiset() =~= s2.to_multiset().remove(e));
        lemma_counts_multiset(s1.drop_last(), s2.remove(i));
        lemma_counts_remove(s2, i);
    }
}

/// Whether one entry's restore cannot fail: folders and symlinks always
/// succeed; a file succeeds when every block it references is present,
/// readable and within the machine's addresses, the strict-block rule
/// holds, and the bytes hash to the declared digest.
pub open spec fn spec_entry_restorable(db: &DFileDatabase, e: FileEntry) -> bool {
    e.spec_is_file() ==> {
        &&& (e.block_lists@.len() == 0 ==> (e.spec_size() == 0 || (db.spec_has_block(
            spec_file_hash(&e),
        ) && db.spec_block_readable(spec_file_hash(&e)) && sha256_of(
            db.spec_resolved_content(spec_file_hash(&e)),
        ) == spec_file_hash(&e))))
        &&& (e.block_lists@.len() > 0 ==> (spec_multi_fetchable(db, e.block_lists@)
            && spec_strict_lengths(
            spec_resolved_blockss(db, e.block_lists@),
            db.spec_block_size(),
        ) && (e.spec_size() == 0 || sha256_of(spec_assembled(db, e.block_lists@))
            == spec_file_hash(&e))))
    }
}

/// Counts of files and folders are never negative.
proof fn lemma_counts_nonneg(s: Seq<FileEntry>)
    ensures
        spec_count_files(s) >= 0,
        spec_count_folders(s) >= 0,
    decreases s.len(),
{
    if s.len() > 0 {
        lemma_counts_nonneg(s.drop_last());
    }
}

/// Runs the whole restore: the folder pass over every folder entry in entry
/// order, then the locality sort, then the file pass over every file entry
/// in sorted order, stopping at the first error. On success the driver gets
/// one action per folder and one per file: the folder actions first, in
/// entry order, then the file actions over a reordering of the entries,
/// each carrying that entry's mapped path and every promise of
/// `restore_file` for its bytes.
#[verifier::rlimit(100)]
pub fn restore_all(db: &DFileDatabase, params: &RestoreParams, file_entries: FileEntries) -> (r:
    Result<Vec<RestoreAction>, RestoreError>)
    requires
        db.wf(),
        file_entries.wf(),
    ensures
        (forall|j: int|
            0 <= j < file_entries.entries@.len() ==> spec_entry_restorable(
                db,
                #[trigger] file_entries.entries@[j],
            )) ==> r is Ok,
        r matches Err(e) ==> exists|j: int|
            {
                &&& 0 <= j < file_entries.entries@.len()
                &&& (#[trigger] file_entries.entries@[j]).spec_is_file()
                &&& spec_restore_file_post(
                    db,
                    spec_file_hash(&file_entries.entries@[j]),
                    file_entries.entries@[j].spec_size(),
                    file_entries.entries@[j].block_lists@,
                    Result::<Seq<u8>, RestoreError>::Err(e),
                )
            },
        r matches Ok(actions) ==> forall|k: int|
            0 <= k < actions@.len() ==> spec_action_ok(
                db,
                params,
                file_entries.entries@,
                #[trigger] actions@[k],
            ),
        r matches Ok(actions) ==> ({
            let entries = file_entries.entries@;
            let nf = spec_count_folders(entries);
            &&& actions@.len() == nf + spec_count_files(entries)
            &&& exists|folder_idx: Seq<int>, sorted: Seq<FileEntry>, file_idx: Seq<int>|
                #![trigger folder_idx.len(), sorted.len(), file_idx.len()]
                {
                    &&& folder_idx.len() == nf
                    &&& (forall|k1: int, k2: int|
                        0 <= k1 < k2 < nf ==> #[trigger] folder_idx[k1] < #[trigger] folder_idx[k2])
                    &&& (forall|k: int|
                        0 <= k < nf ==> 0 <= #[trigger] folder_idx[k] < entries.len()
                            && entries[folder_idx[k]].spec_is_folder() && spec_folder_action_of(
                            params,
                            entries[folder_idx[k]],
                            actions@[k],
                        ))
                    &&& (forall|i: int|
                        0 <= i < entries.len() && (#[trigger] entries[i]).spec_is_folder()
                            ==> exists|k: int| 0 <= k < nf && #[trigger] folder_idx[k] == i)
                    &&& sorted.to_multiset() == entries.to_multiset()
                    &&& (exists|ks: Seq<crate::sorting::SortKey>|
                        #![trigger ks.len()]
                        {
                            &&& ks.len() == sorted.len()
                            &&& (forall|i: int|
                                0 <= i < ks.len() ==> crate::sorting::spec_key_valid(
                                    db,
                                    #[trigger] sorted[i],
                                    ks[i],
                                ))
                            &&& (forall|i: int, j2: int|
                                0 <= i < j2 < ks.len() ==> crate::sorting::spec_entry_le(
                                    #[trigger] ks[i],
                                    spec_utf8(sorted[i].path@),
                                    #[trigger] ks[j2],
                                    spec_utf8(sorted[j2].path@),
                                ))
                        })
                    &&& file_idx.len() == spec_count_files(entries)
                    &&& (forall|k1: int, k2: int|
                        0 <= k1 < k2 < file_idx.len() ==> #[trigger] file_idx[k1]
                            < #[trigger] file_idx[k2])
                    &&& (forall|k: int|
                        0 <= k < file_idx.len() ==> 0 <= #[trigger] file_idx[k] < sorted.len()
                            && sorted[file_idx[k]].spec_is_file() && spec_file_action_of(
                            db,
                            params,
                            sorted[file_idx[k]],
                            actions@[nf + k],
                        ))
                    &&& (forall|i: int|
                        0 <= i < sorted.len() && (#[trigger] sorted[i]).spec_is_file() ==> exists|
                            k: int,
                        | 0 <= k < file_idx.len() && #[trigger] file_idx[k] == i)
                }
        }),
{
    let ghost original = file_entries.entries@;
    let ghost nf = spec_count_folders(original);
    let mut actions: Vec<RestoreAction> = Vec::new();
    let mut ctx = RestoreContext::new();
    let ghost mut folder_idx: Seq<int> = Seq::empty();
    // Folder pass: create every directory, in entry order.
    let mut i: usize = 0;
    while i < file_entries.entries.len()
        invariant
            db.wf(),
            file_entries.wf(),
            original == file_entries.entries@,
            0 <= i <= original.len(),
            actions@.len() == spec_count_folders(original.take(i as int)),
            folder_idx.len() == actions@.len(),
            forall|k1: int, k2: int|
                0 <= k1 < k2 < folder_idx.len() ==> #[trigger] folder_idx[k1]
                    < #[trigger] folder_idx[k2],
            forall|k: int| 0 <= k < folder_idx.len() ==> 0 <= #[trigger] folder_idx[k] < i,
            forall|k: int|
                0 <= k < folder_idx.len() ==> original[#[trigger] folder_idx[k]].spec_is_folder()
                    && spec_folder_action_of(params, original[folder_idx[k]], actions@[k]),
            forall|x: int|
                0 <= x < i && (#[trigger] original[x]).spec_is_folder() ==> exists|k: int|
                    0 <= k < folder_idx.len() && #[trigger] folder_idx[k] == x,
            forall|k: int|
                0 <= k < actions@.len() ==> spec_action_ok(
                    db,
                    params,
                    original,
                    #[trigger] actions@[k],
                ),
        decreases original.len() - i,
    {
        let e = &file_entries.entries[i];
        proof {
            assert(original.take(i as int + 1).drop_last() =~= original.take(i as int));
            assert(original.take(i as int + 1).last() == original[i as int]);
        }
        if e.is_folder() {
            match restore_entry(e, params, &mut ctx, db) {
                Ok(a) => {
                    proof {
                        assert(original.contains(original[i as int]));
                        assert(original.to_multiset().count(original[i as int]) > 0);
                        assert(original.to_multiset().contains(original[i as int]));
                        assert(spec_folder_action_of(params, original[i as int], a));
                        let prev_fidx = folder_idx;
                        folder_idx = folder_idx.push(i as int);
                        assert(folder_idx[folder_idx.len() - 1] == i as int);
                        assert forall|x: int|
                            0 <= x < i + 1 && (#[trigger] original[x]).spec_is_folder() implies
                        exists|k: int|
                            0 <= k < folder_idx.len() && #[trigger] folder_idx[k] == x by {
                            if x < i {
                                let k = choose|k: int|
                                    0 <= k < prev_fidx.len() && #[trigger] prev_fidx[k] == x;
                                assert(folder_idx[k] == x);
                            } else {
                                assert(folder_idx[folder_idx.len() - 1] == x);
                            }
                        }
                    }
                    actions.push(a);
                },
                Err(err) => {
                    proof {
                        assert(false);
                    }
                    return Err(err);
                },
            }
        }
        i = i + 1;
    }
    proof {
        assert(original.take(original.len() as int) =~= original);
        assert(actions@.len() == nf);
    }
    // Locality sort, then the file pass in sorted order.
    let mut entries = file_entries.entries;
    sort_files_sequentially(&mut entries, db);
    proof {
        assert forall|k: int| 0 <= k < entries@.len() implies (#[trigger] entries@[k]).wf() by {
            assert(entries@.to_multiset().contains(entries@[k]));
            assert(original.contains(entries@[k]));
        }
        lemma_counts_multiset(entries@, original);
    }
    let ghost sorted = entries@;
    let ghost mut file_idx: Seq<int> = Seq::empty();
    let mut j: usize = 0;
    while j < entries.len()
        invariant
            db.wf(),
            0 <= j <= entries@.len(),
            sorted == entries@,
            original == file_entries.entries@,
            sorted.to_multiset() == original.to_multiset(),
            exists|ks: Seq<crate::sorting::SortKey>|
                #![trigger ks.len()]
                {
                    &&& ks.len() == sorted.len()
                    &&& (forall|i: int|
                        0 <= i < ks.len() ==> crate::sorting::spec_key_valid(
                            db,
                            #[trigger] sorted[i],
                            ks[i],
                        ))
                    &&& (forall|i: int, j2: int|
                        0 <= i < j2 < ks.len() ==> crate::sorting::spec_entry_le(
                            #[trigger] ks[i],
                            spec_utf8(sorted[i].path@),
                            #[trigger] ks[j2],
                            spec_utf8(sorted[j2].path@),
                        ))
                },
            nf == spec_count_folders(original),
            forall|k: int| 0 <= k < entries@.len() ==> (#[trigger] entries@[k]).wf(),
            folder_idx.len() == nf,
            forall|k1: int, k2: int|
                0 <= k1 < k2 < nf ==> #[trigger] folder_idx[k1] < #[trigger] folder_idx[k2],
            forall|k: int|
                0 <= k < nf ==> 0 <= #[trigger] folder_idx[k] < original.len()
                    && original[folder_idx[k]].spec_is_folder() && spec_folder_action_of(
                    params,
                    original[folder_idx[k]],
                    actions@[k],
                ),
            forall|x: int|
                0 <= x < original.len() && (#[trigger] original[x]).spec_is_folder() ==> exists|
                    k: int,
                | 0 <= k < nf && #[trigger] folder_idx[k] == x,
            actions@.len() == nf + spec_count_files(sorted.take(j as int)),
            file_idx.len() == spec_count_files(sorted.take(j as int)),
            forall|k1: int, k2: int|
                0 <= k1 < k2 < file_idx.len() ==> #[trigger] file_idx[k1]
                    < #[trigger] file_idx[k2],
            forall|k: int| 0 <= k < file_idx.len() ==> 0 <= #[trigger] file_idx[k] < j,
            forall|k: int|
                0 <= k < file_idx.len() ==> sorted[#[trigger] file_idx[k]].spec_is_file()
                    && spec_file_action_of(db, params, sorted[file_idx[k]], actions@[nf + k]),
            forall|x: int|
                0 <= x < j && (#[trigger] sorted[x]).spec_is_file() ==> exists|k: int|
                    0 <= k < file_idx.len() && #[trigger] file_idx[k] == x,
            forall|k: int|
                0 <= k < actions@.len() ==> spec_action_ok(
                    db,
                    params,
                    original,
                    #[trigger] actions@[k],
                ),
        decreases entries@.len() - j,
    {
        let e = &entries[j];
        proof {
            assert(sorted.take(j as int + 1).drop_last() =~= sorted.take(j as int));
            assert(sorted.take(j as int + 1).last() == sorted[j as int]);
        }
        if e.is_file() {
            match restore_entry(e, params, &mut ctx, db) {
                Ok(a) => {
                    proof {
                        assert(sorted.contains(sorted[j as int]));
                        assert(sorted.to_multiset().count(sorted[j as int]) > 0);
                        assert(original.to_multiset().count(sorted[j as int]) > 0);
                        assert(original.to_multiset().contains(sorted[j as int]));
                        assert(spec_file_action_of(db, params, sorted[j as int], a));
                        lemma_counts_nonneg(original);
                        lemma_counts_nonneg(sorted.take(j as int));
                        assert(actions@.len() == nf + file_idx.len());
                        let prev_fidx = file_idx;
                        file_idx = file_idx.push(j as int);
                        assert(file_idx[file_idx.len() - 1] == j as int);
                        assert forall|x: int|
                            0 <= x < j + 1 && (#[trigger] sorted[x]).spec_is_file() implies exists|
                            k: int,
                        | 0 <= k < file_idx.len() && #[trigger] file_idx[k] == x by {
                            if x < j {
                                let k = choose|k: int|
                                    0 <= k < prev_fidx.len() && #[trigger] prev_fidx[k] == x;
                                assert(file_idx[k] == x);
                            } else {
                                assert(file_idx[file_idx.len() - 1] == x);
                            }
                        }
                        assert forall|k: int| 0 <= k < nf implies spec_folder_action_of(
                            params,
                            original[folder_idx[k]],
                            actions@.push(a)[k],
                        ) by {
                            assert(actions@.push(a)[k] == actions@[k]);
                        }
                        assert forall|k: int| 0 <= k < file_idx.len() implies sorted[
                            #[trigger] file_idx[k]
                        ].spec_is_file() && spec_file_action_of(
                            db,
                            params,
                            sorted[file_idx[k]],
                            actions@.push(a)[nf + k],
                        ) by {
                            if k < prev_fidx.len() {
                                assert(file_idx[k] == prev_fidx[k]);
                                assert(actions@.push(a)[nf + k] == actions@[nf + k]);
                            } else {
                                assert(file_idx[k] == j as int);
                                assert(actions@.push(a)[nf + k] == a);
                            }
                        }
                    }
                    actions.push(a);
                },
                Err(err) => {
                    proof {
                        // The failing entry is one of the snapshot's own.
                        assert(sorted.contains(sorted[j as int]));
                        assert(sorted.to_multiset().count(sorted[j as int]) > 0);
                        assert(original.to_multiset().count(sorted[j as int]) > 0);
                        assert(original.contains(sorted[j as int]));
                        let jo = choose|jo: int|
                            0 <= jo < original.len() && original[jo] == sorted[j as int];
                        assert(original[jo].spec_is_file());
                        assert(spec_restore_file_post(
                            db,
                            spec_file_hash(&original[jo]),
                            original[jo].spec_size(),
                            original[jo].block_lists@,
                            Result::<Seq<u8>, RestoreError>::Err(err),
                        ));
                        // A restorable entry cannot have failed.
                        if spec_entry_restorable(db, original[jo]) {
                            assert(false);
                        }
                    }
                    return Err(err);
                },
            }
        }
        j = j + 1;
    }
    proof {
        assert(sorted.take(sorted.len() as int) =~= sorted);
        lemma_counts_multiset(sorted, original);
        assert(actions@.len() == nf + spec_count_files(original));
        assert(folder_idx.len() == nf);
        assert(file_idx.len() == spec_count_files(original));
        assert(sorted.len() == sorted.to_multiset().len());
        assert(folder_idx.len() == nf);
        assert(forall|k1: int, k2: int|
            0 <= k1 < k2 < nf ==> #[trigger] folder_idx[k1] < #[trigger] folder_idx[k2]);
        assert(forall|k: int|
            0 <= k < nf ==> 0 <= #[trigger] folder_idx[k] < original.len()
                && original[folder_idx[k]].spec_is_folder() && spec_folder_action_of(
                params,
                original[folder_idx[k]],
                actions@[k],
            ));
        assert(forall|i2: int|
            0 <= i2 < original.len() && (#[trigger] original[i2]).spec_is_folder() ==> exists|
                k: int,
            | 0 <= k < nf && #[trigger] folder_idx[k] == i2);
        assert(sorted.to_multiset() == original.to_multiset());
        assert(forall|k1: int, k2: int|
            0 <= k1 < k2 < file_idx.len() ==> #[trigger] file_idx[k1] < #[trigger] file_idx[k2]);
        assert(forall|k: int|
            0 <= k < file_idx.len() ==> 0 <= #[trigger] file_idx[k] < sorted.len()
                && sorted[file_idx[k]].spec_is_file() && spec_file_action_of(
                db,
                params,
                sorted[file_idx[k]],
                actions@[nf + k],
            ));
        assert(forall|i2: int|
            0 <= i2 < sorted.len() && (#[trigger] sorted[i2]).spec_is_file() ==> exists|k: int|
                0 <= k < file_idx.len() && #[trigger] file_idx[k] == i2);
    }
    Ok(actions)
}

/// What `restore_all` guarantees of each action it emits.
pub open spec fn spec_action_ok(
    db: &DFileDatabase,
    params: &RestoreParams,
    entries: Seq<FileEntry>,
    action: RestoreAction,
) -> bool {
    match action {
        RestoreAction::WriteFile { path, content } => exists|e: FileEntry|
            {
                &&& #[trigger] entries.to_multiset().contains(e)
                &&& e.spec_is_file()
                &&& (params.restore_path matches Some(root) && path@ == spec_path_join(
                    spec_utf8(root@),
                    spec_transformed(spec_utf8(e.path@), params.replace_backslash_to_slash),
                ))
                &&& (e.spec_size() != 0 ==> sha256_of(content@) == spec_file_hash(&e))
            },
        RestoreAction::CreateDir { path } => exists|e: FileEntry|
            {
                &&& #[trigger] entries.to_multiset().contains(e)
                &&& e.spec_is_folder()
                &&& (params.restore_path matches Some(root) && path@ == spec_path_join(
                    spec_utf8(root@),
                    spec_transformed(spec_utf8(e.path@), params.replace_backslash_to_slash),
                ))
            },
        _ => true,
    }
}

/// Sizes are declared non-negative, so their running sum never drops below
/// zero.
proof fn lemma_sum_sizes_nonneg(s: Seq<FileEntry>, whole: Seq<FileEntry>)
    requires
        forall|k: int| 0 <= k < whole.len() ==> (#[trigger] whole[k]).wf(),
        s.len() <= whole.len(),
        forall|k: int| 0 <= k < s.len() ==> s[k] == whole[k],
    ensures
        spec_sum_sizes(s) >= 0,
    decreases s.len(),
{
    if s.len() > 0 {
        lemma_sum_sizes_nonneg(s.drop_last(), whole);
        assert(s.last() == whole[s.len() - 1]);
        assert(s.last().wf());
        assert(s.last().spec_size() >= 0);
    }
}

/// Predicted costs are non-negative for well-formed entries.
proof fn lemma_sum_predicted_nonneg(s: Seq<FileEntry>, whole: Seq<FileEntry>)
    requires
        forall|k: int| 0 <= k < whole.len() ==> (#[trigger] whole[k]).wf(),
        s.len() <= whole.len(),
        forall|k: int| 0 <= k < s.len() ==> s[k] == whole[k],
    ensures
        spec_sum_predicted(s) >= 0,
    decreases s.len(),
{
    if s.len() > 0 {
        lemma_sum_predicted_nonneg(s.drop_last(), whole);
        assert(s.last() == whole[s.len() - 1]);
        assert(s.last().wf());
        assert(s.last().spec_size() >= 0);
    }
}

} // verus!
