use crate::dfileentry::spec_utf8;
use crate::errors::RestoreError;
use crate::stripbom::{spec_strip_bom, strip_bom_from_bufread};
use crate::ziparchive::{bytes_le, spec_bytes_le, zip_open, zip_read_entry};
use vstd::prelude::*;

verus! {

/// The bytes after the last slash of a path; the whole path when it has no
/// slash. (A path ending in a slash has an empty file name here.)
pub open spec fn spec_after_last_slash(p: Seq<u8>) -> Seq<u8>
    decreases p.len(),
{
    if p.len() == 0 {
        p
    } else if p.last() == 47 {
        Seq::empty()
    } else {
        spec_after_last_slash(p.drop_last()).push(p.last())
    }
}

/// Whether a byte sequence ends with a suffix.
pub open spec fn spec_ends_with(s: Seq<u8>, suffix: Seq<u8>) -> bool {
    s.len() >= suffix.len() && s.skip(s.len() - suffix.len()) == suffix
}

/// The bytes of `dlist.zip`, the suffix that names list archives.
pub open spec fn spec_dlist_suffix() -> Seq<u8> {
    seq![100u8, 108u8, 105u8, 115u8, 116u8, 46u8, 122u8, 105u8, 112u8]
}

/// The bytes of `dblock.zip`, the suffix that names data archives.
pub open spec fn spec_dblock_suffix() -> Seq<u8> {
    seq![100u8, 98u8, 108u8, 111u8, 99u8, 107u8, 46u8, 122u8, 105u8, 112u8]
}

/// Whether a path names a list archive.
pub open spec fn spec_is_dlist_path(p: Seq<u8>) -> bool {
    spec_ends_with(spec_after_last_slash(p), spec_dlist_suffix())
}

/// Whether a path names a data archive.
pub open spec fn spec_is_dblock_path(p: Seq<u8>) -> bool {
    spec_ends_with(spec_after_last_slash(p), spec_dblock_suffix())
}

/// The suffix after the last slash, byte for byte.
fn after_last_slash(p: &[u8]) -> (r: Vec<u8>)
    ensures
        r@ == spec_after_last_slash(p@),
{
    let mut cut: usize = 0;
    let mut i: usize = 0;
    while i < p.len()
        invariant
            0 <= i <= p@.len(),
            cut <= i,
            spec_after_last_slash(p@.take(i as int)) == p@.take(i as int).skip(cut as int),
        decreases p@.len() - i,
    {
        proof {
            assert(p@.take(i as int + 1).drop_last() =~= p@.take(i as int));
            assert(p@.take(i as int + 1).last() == p@[i as int]);
        }
        if p[i] == 47 {
            cut = i + 1;
            proof {
                assert(spec_after_last_slash(p@.take(i as int + 1)) =~= p@.take(i as int + 1).skip(
                    cut as int,
                ));
            }
        } else {
            proof {
                assert(spec_after_last_slash(p@.take(i as int + 1)) =~= p@.take(i as int + 1).skip(
                    cut as int,
                ));
            }
        }
        i = i + 1;
    }
    proof {
        assert(p@.take(p@.len() as int) =~= p@);
    }
    let mut out: Vec<u8> = Vec::new();
    let mut k: usize = cut;
    while k < p.len()
        invariant
            cut <= k <= p@.len(),
            out@ == p@.subrange(cut as int, k as int),
        decreases p@.len() - k,
    {
        let b = p[k];
        out.push(b);
        k = k + 1;
    }
    proof {
        assert(out@ =~= p@.skip(cut as int));
    }
    out
}

/// Whether the byte string ends with the suffix.
fn ends_with(s: &[u8], suffix: &[u8]) -> (r: bool)
    ensures
        r == spec_ends_with(s@, suffix@),
{
    if s.len() < suffix.len() {
        return false;
    }
    let start = s.len() - suffix.len();
    let mut i: usize = 0;
    while i < suffix.len()
        invariant
            0 <= i <= suffix@.len(),
            start == s@.len() - suffix@.len(),
            s@.len() <= usize::MAX,
            forall|j: int| 0 <= j < i ==> s@[start + j] == suffix@[j],
        decreases suffix@.len() - i,
    {
        if s[start + i] != suffix[i] {
            proof {
                assert(s@.skip(start as int)[i as int] != suffix@[i as int]);
            }
            return false;
        }
        i = i + 1;
    }
    proof {
        assert(s@.skip(start as int) =~= suffix@);
    }
    true
}

/// Whether the path's file name ends with the given suffix.
pub fn filename_ends_with(path: &str, suffix: &str) -> (r: bool)
    ensures
        r == spec_ends_with(spec_after_last_slash(spec_utf8(path@)), spec_utf8(suffix@)),
{
    let name = after_last_slash(path.as_bytes());
    ends_with(name.as_slice(), suffix.as_bytes())
}

/// Whether a path names a list archive (`*dlist.zip`).
pub fn path_is_dlist_zip(path: &str) -> (r: bool)
    ensures
        r == spec_is_dlist_path(spec_utf8(path@)),
{
    let r = filename_ends_with(path, "dlist.zip");
    proof {
        reveal_strlit("dlist.zip");
        assert(spec_utf8("dlist.zip"@) =~= spec_dlist_suffix()) by {
            vstd::string::is_ascii_spec_bytes("dlist.zip");
            assert("dlist.zip".is_ascii());
        }
    }
    r
}

/// Whether a path names a data archive (`*dblock.zip`).
pub fn path_is_dblock_zip(path: &str) -> (r: bool)
    ensures
        r == spec_is_dblock_path(spec_utf8(path@)),
{
    let r = filename_ends_with(path, "dblock.zip");
    proof {
        reveal_strlit("dblock.zip");
        assert(spec_utf8("dblock.zip"@) =~= spec_dblock_suffix()) by {
            vstd::string::is_ascii_spec_bytes("dblock.zip");
            assert("dblock.zip".is_ascii());
        }
    }
    r
}

/// Picks the newest snapshot: the lexicographically greatest list-archive
/// path (their names encode the backup time). Fails with `RepoNotFound`
/// when the directory has no list archive.
pub fn newest_dlist(paths: &Vec<String>) -> (r: Result<String, RestoreError>)
    ensures
        match r {
            Ok(p) => exists|i: int|
                {
                    &&& 0 <= i < paths@.len()
                    &&& p@ == (#[trigger] paths@[i])@
                    &&& spec_is_dlist_path(spec_utf8(p@))
                    &&& (forall|j: int|
                        0 <= j < paths@.len() && spec_is_dlist_path(
                            spec_utf8((#[trigger] paths@[j])@),
                        ) ==> spec_bytes_le(spec_utf8(paths@[j]@), spec_utf8(p@)))
                },
            Err(e) => e == RestoreError::RepoNotFound && (forall|j: int|
                0 <= j < paths@.len() ==> !spec_is_dlist_path(spec_utf8((#[trigger] paths@[j])@))),
        },
{
    let mut best: Option<usize> = None;
    let mut i: usize = 0;
    while i < paths.len()
        invariant
            0 <= i <= paths@.len(),
            match best {
                Some(b) => {
                    &&& b < i
                    &&& spec_is_dlist_path(spec_utf8(paths@[b as int]@))
                    &&& (forall|j: int|
                        0 <= j < i && spec_is_dlist_path(spec_utf8((#[trigger] paths@[j])@))
                            ==> spec_bytes_le(spec_utf8(paths@[j]@), spec_utf8(paths@[b as int]@)))
                },
                None => forall|j: int|
                    0 <= j < i ==> !spec_is_dlist_path(spec_utf8((#[trigger] paths@[j])@)),
            },
        decreases paths@.len() - i,
    {
        let p = &paths[i];
        if path_is_dlist_zip(p.as_str()) {
            match best {
                Some(b) => {
                    if bytes_le(paths[b].as_str().as_bytes(), p.as_str().as_bytes()) {
                        proof {
                            crate::ziparchive::lemma_bytes_le_total(
                                spec_utf8(paths@[i as int]@),
                                spec_utf8(paths@[i as int]@),
                            );
                            assert forall|j: int|
                                0 <= j < i && spec_is_dlist_path(
                                    spec_utf8((#[trigger] paths@[j])@),
                                ) implies spec_bytes_le(
                                spec_utf8(paths@[j]@),
                                spec_utf8(paths@[i as int]@),
                            ) by {
                                crate::ziparchive::lemma_bytes_le_trans(
                                    spec_utf8(paths@[j]@),
                                    spec_utf8(paths@[b as int]@),
                                    spec_utf8(paths@[i as int]@),
                                );
                            }
                        }
                        best = Some(i);
                    } else {
                        proof {
                            crate::ziparchive::lemma_bytes_le_total(
                                spec_utf8(paths@[b as int]@),
                                spec_utf8(paths@[i as int]@),
                            );
                        }
                    }
                },
                None => {
                    proof {
                        crate::ziparchive::lemma_bytes_le_total(
                            spec_utf8(paths@[i as int]@),
                            spec_utf8(paths@[i as int]@),
                        );
                    }
                    best = Some(i);
                },
            }
        }
        i = i + 1;
    }
    proof {
        if best is Some {
            let b = best->Some_0;
            assert(forall|j: int|
                0 <= j < paths@.len() && spec_is_dlist_path(spec_utf8((#[trigger] paths@[j])@))
                    ==> spec_bytes_le(spec_utf8(paths@[j]@), spec_utf8(paths@[b as int]@)));
        }
    }
    match best {
        Some(b) => Ok(paths[b].clone()),
        None => Err(RestoreError::RepoNotFound),
    }
}

/// Whether a byte is ASCII whitespace, the characters `trim` removes from
/// the manifest text.
pub open spec fn spec_is_ws(b: u8) -> bool {
    b == 9 || b == 10 || b == 13 || b == 32
}

/// The bytes with leading ASCII whitespace removed.
pub open spec fn spec_trim_start(s: Seq<u8>) -> Seq<u8>
    decreases s.len(),
{
    if s.len() > 0 && spec_is_ws(s.first()) {
        spec_trim_start(s.drop_first())
    } else {
        s
    }
}

/// The bytes with trailing ASCII whitespace removed.
pub open spec fn spec_trim_end(s: Seq<u8>) -> Seq<u8>
    decreases s.len(),
{
    if s.len() > 0 && spec_is_ws(s.last()) {
        spec_trim_end(s.drop_last())
    } else {
        s
    }
}

/// The bytes with whitespace removed from both ends.
pub open spec fn spec_trim_ascii(s: Seq<u8>) -> Seq<u8> {
    spec_trim_end(spec_trim_start(s))
}

/// A whitespace prefix scan lands on the trim-start result.
proof fn lemma_trim_start_at(s: Seq<u8>, i: int)
    requires
        0 <= i <= s.len(),
        forall|j: int| 0 <= j < i ==> spec_is_ws(#[trigger] s[j]),
        i < s.len() ==> !spec_is_ws(s[i]),
    ensures
        spec_trim_start(s) == s.skip(i),
    decreases i,
{
    if i == 0 {
        assert(s.skip(0) =~= s);
    } else {
        assert(spec_is_ws(s.first()));
        assert(forall|j: int| 0 <= j < i - 1 ==> spec_is_ws(#[trigger] s.drop_first()[j]));
        assert(i - 1 < s.drop_first().len() ==> !spec_is_ws(s.drop_first()[i - 1]));
        lemma_trim_start_at(s.drop_first(), i - 1);
        assert(s.drop_first().skip(i - 1) =~= s.skip(i));
    }
}

/// A whitespace suffix scan lands on the trim-end result.
proof fn lemma_trim_end_at(s: Seq<u8>, e: int)
    requires
        0 <= e <= s.len(),
        forall|j: int| e <= j < s.len() ==> spec_is_ws(#[trigger] s[j]),
        e > 0 ==> !spec_is_ws(s[e - 1]),
    ensures
        spec_trim_end(s) == s.take(e),
    decreases s.len() - e,
{
    if e == s.len() as int {
        assert(s.take(e) =~= s);
        if s.len() > 0 && spec_is_ws(s.last()) {
            assert(false);
        }
    } else {
        assert(spec_is_ws(s.last()));
        assert(forall|j: int| e <= j < s.drop_last().len() ==> spec_is_ws(#[trigger] s.drop_last()[j]));
        lemma_trim_end_at(s.drop_last(), e);
        assert(s.drop_last().take(e) =~= s.take(e));
    }
}

/// Removes ASCII whitespace from both ends.
pub fn trim_ascii(s: &Vec<u8>) -> (r: Vec<u8>)
    ensures
        r@ == spec_trim_ascii(s@),
{
    let mut start: usize = 0;
    while start < s.len() && (s[start] == 9 || s[start] == 10 || s[start] == 13 || s[start] == 32)
        invariant
            0 <= start <= s@.len(),
            forall|j: int| 0 <= j < start ==> spec_is_ws(#[trigger] s@[j]),
        decreases s@.len() - start,
    {
        start = start + 1;
    }
    proof {
        lemma_trim_start_at(s@, start as int);
    }
    let mut end: usize = s.len();
    while end > start && (s[end - 1] == 9 || s[end - 1] == 10 || s[end - 1] == 13 || s[end - 1]
        == 32)
        invariant
            start <= end <= s@.len(),
            forall|j: int| end <= j < s@.len() ==> spec_is_ws(#[trigger] s@[j]),
        decreases end,
    {
        end = end - 1;
    }
    proof {
        assert(forall|j: int|
            end - start <= j < s@.skip(start as int).len() ==> spec_is_ws(
                #[trigger] s@.skip(start as int)[j],
            ));
        if end > start {
            assert(!spec_is_ws(s@.skip(start as int)[end - start - 1]));
        }
        lemma_trim_end_at(s@.skip(start as int), end - start);
    }
    let mut out: Vec<u8> = Vec::new();
    let mut k: usize = start;
    while k < end
        invariant
            start <= k <= end <= s@.len(),
            out@ == s@.subrange(start as int, k as int),
        decreases end - k,
    {
        let b = s[k];
        out.push(b);
        k = k + 1;
    }
    proof {
        assert(out@ =~= s@.skip(start as int).take(end - start));
    }
    out
}

/// The bytes of the entry name `manifest`.
pub open spec fn spec_manifest_name() -> Seq<u8> {
    seq![109u8, 97u8, 110u8, 105u8, 102u8, 101u8, 115u8, 116u8]
}

/// The bytes of the entry name `filelist.json`.
pub open spec fn spec_filelist_name() -> Seq<u8> {
    seq![
        102u8,
        105u8,
        108u8,
        101u8,
        108u8,
        105u8,
        115u8,
        116u8,
        46u8,
        106u8,
        115u8,
        111u8,
        110u8,
    ]
}

/// Pulls the `manifest` entry out of a list archive held in memory, strips
/// a byte order mark, and trims surrounding whitespace. Succeeds exactly
/// when the bytes parse as a zip with a readable `manifest` entry, and then
/// yields that entry's text, stripped and trimmed.
pub fn read_manifest(dlist_data: Vec<u8>) -> (r: Result<Vec<u8>, RestoreError>)
    ensures
        r is Ok <==> (crate::ziparchive::zip_parses(dlist_data@)
            && crate::ziparchive::zip_names_of(dlist_data@).contains(spec_manifest_name())
            && crate::ziparchive::zip_readable(dlist_data@, spec_manifest_name())),
        r matches Ok(m) ==> m@ == spec_trim_ascii(
            spec_strip_bom(crate::ziparchive::zip_contents_of(dlist_data@)[spec_manifest_name()]),
        ),
        r is Err ==> r == Err::<Vec<u8>, RestoreError>(RestoreError::ManifestInvalid),
{
    let archive = match zip_open(dlist_data) {
        Ok(z) => z,
        Err(_) => {
            return Err(RestoreError::ManifestInvalid);
        },
    };
    let name = "manifest".as_bytes();
    proof {
        reveal_strlit("manifest");
        vstd::string::is_ascii_spec_bytes("manifest");
        assert("manifest".is_ascii());
        assert(name@ =~= spec_manifest_name());
    }
    let mut buf: Vec<u8> = Vec::new();
    match zip_read_entry(&archive, name, &mut buf) {
        Ok(_) => {},
        Err(_) => {
            return Err(RestoreError::ManifestInvalid);
        },
    }
    let ghost raw = buf@;
    strip_bom_from_bufread(&mut buf);
    let trimmed = trim_ascii(&buf);
    proof {
        assert(trimmed@ == spec_trim_ascii(spec_strip_bom(raw)));
    }
    Ok(trimmed)
}

/// Pulls the `filelist.json` entry out of a list archive held in memory and
/// strips a byte order mark; the JSON text itself goes to the snapshot
/// parser. Succeeds exactly when the bytes parse as a zip with a readable
/// `filelist.json` entry, and then yields that entry's text, stripped.
pub fn read_filelist(dlist_data: Vec<u8>) -> (r: Result<Vec<u8>, RestoreError>)
    ensures
        r is Ok <==> (crate::ziparchive::zip_parses(dlist_data@)
            && crate::ziparchive::zip_names_of(dlist_data@).contains(spec_filelist_name())
            && crate::ziparchive::zip_readable(dlist_data@, spec_filelist_name())),
        r matches Ok(m) ==> m@ == spec_strip_bom(
            crate::ziparchive::zip_contents_of(dlist_data@)[spec_filelist_name()],
        ),
        r is Err ==> r == Err::<Vec<u8>, RestoreError>(RestoreError::SnapshotInvalid),
{
    let archive = match zip_open(dlist_data) {
        Ok(z) => z,
        Err(_) => {
            return Err(RestoreError::SnapshotInvalid);
        },
    };
    let name = "filelist.json".as_bytes();
    proof {
        reveal_strlit("filelist.json");
        vstd::string::is_ascii_spec_bytes("filelist.json");
        assert("filelist.json".is_ascii());
        assert(name@ =~= spec_filelist_name());
    }
    let mut buf: Vec<u8> = Vec::new();
    match zip_read_entry(&archive, name, &mut buf) {
        Ok(_) => {},
        Err(_) => {
            return Err(RestoreError::SnapshotInvalid);
        },
    }
    let ghost raw = buf@;
    strip_bom_from_bufread(&mut buf);
    Ok(buf)
}

} // verus!
