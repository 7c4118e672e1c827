use crate::blockhash::{
    b64_decode_urlsafe, spec_b64_encode, Base64Alphabet, BlockIdHash,
};
use crate::errors::RestoreError;
use crate::ziparchive::{
    zip_entry_names, zip_len, zip_name_at, zip_open, ArchiveReader, BlockLocation,
    ZipArchiveWrapper, ZipLocation,
};
use std::collections::HashMap;
use vstd::string::StringSliceAdditionalSpecFns;
use vstd::prelude::*;

verus! {

broadcast use vstd::std_specs::hash::group_hash_axioms;

/// The map key a digest is sharded under: its first eight bytes, big-endian.
pub closed spec fn spec_prefix64(d: Seq<u8>) -> u64 {
    if d.len() >= 8 {
        ((d[0] as u64) << 56) | ((d[1] as u64) << 48) | ((d[2] as u64) << 40) | ((d[3] as u64)
            << 32) | ((d[4] as u64) << 24) | ((d[5] as u64) << 16) | ((d[6] as u64) << 8) | (
        d[7] as u64)
    } else {
        0
    }
}

/// The shard key of a digest.
fn digest_prefix64(h: &[u8]) -> (r: u64)
    requires
        h@.len() >= 8,
    ensures
        r == spec_prefix64(h@),
{
    ((h[0] as u64) << 56) | ((h[1] as u64) << 48) | ((h[2] as u64) << 40) | ((h[3] as u64) << 32)
        | ((h[4] as u64) << 24) | ((h[5] as u64) << 16) | ((h[6] as u64) << 8) | (h[7] as u64)
}

/// The digest → block-location map, sharded by digest prefix: one bucket of
/// (digest, location) pairs per 64-bit prefix. Fast to probe, heavy on
/// memory; built only in indexed mode.
pub struct HashToPath {
    hash2path: HashMap<u64, Vec<(BlockIdHash, BlockLocation)>>,
}

impl HashToPath {
    /// The bucket a digest would live in.
    pub closed spec fn bucket_of(&self, d: Seq<u8>) -> Seq<(BlockIdHash, BlockLocation)> {
        if self.hash2path@.contains_key(spec_prefix64(d)) {
            self.hash2path@[spec_prefix64(d)]@
        } else {
            Seq::empty()
        }
    }

    /// Whether the index knows this digest.
    pub closed spec fn spec_contains(&self, d: Seq<u8>) -> bool {
        exists|j: int|
            0 <= j < self.bucket_of(d).len() && (#[trigger] self.bucket_of(d)[j]).0@ == d
    }

    /// Where the entry for a digest sits in its bucket.
    closed spec fn entry_index(&self, d: Seq<u8>) -> int {
        choose|j: int| 0 <= j < self.bucket_of(d).len() && (#[trigger] self.bucket_of(d)[j]).0@ == d
    }

    /// The location the index holds for a digest it knows.
    pub closed spec fn spec_loc(&self, d: Seq<u8>) -> BlockLocation {
        self.bucket_of(d)[self.entry_index(d)].1
    }

    /// Every bucket entry is a 32-byte digest filed under its own prefix,
    /// and no digest appears twice in a bucket.
    pub closed spec fn wf(&self) -> bool {
        forall|k: u64| #[trigger]
            self.hash2path@.contains_key(k) ==> {
                let b = self.hash2path@[k]@;
                &&& (forall|j: int|
                    0 <= j < b.len() ==> (#[trigger] b[j]).0.wf() && spec_prefix64(b[j].0@) == k)
                &&& (forall|j1: int, j2: int|
                    0 <= j1 < j2 < b.len() ==> (#[trigger] b[j1]).0@ != (#[trigger] b[j2]).0@)
            }
    }

    /// An empty index.
    pub fn new() -> (r: Self)
        ensures
            r.wf(),
            forall|d: Seq<u8>| !r.spec_contains(d),
    {
        let r = HashToPath { hash2path: HashMap::new() };
        proof {
            assert(forall|d: Seq<u8>| r.bucket_of(d) =~= Seq::<(BlockIdHash, BlockLocation)>::empty());
        }
        r
    }

    /// Records the location of one digest; a digest recorded twice keeps the
    /// later location.
    pub fn insert(&mut self, hash: BlockIdHash, loc: BlockLocation)
        requires
            old(self).wf(),
            hash.wf(),
        ensures
            final(self).wf(),
            final(self).spec_contains(hash@),
            final(self).spec_loc(hash@) == loc,
            forall|d: Seq<u8>|
                d != hash@ ==> final(self).spec_contains(d) == old(self).spec_contains(d),
            forall|d: Seq<u8>|
                d != hash@ && old(self).spec_contains(d) ==> final(self).spec_loc(d) == old(
                    self,
                ).spec_loc(d),
    {
        let ghost oldself = *self;
        let key = digest_prefix64(hash.hash.as_slice());
        let mut bucket: Vec<(BlockIdHash, BlockLocation)> = match self.hash2path.remove(&key) {
            Some(b) => b,
            None => Vec::new(),
        };
        let ghost oldbucket = bucket@;
        proof {
            assert(oldself.bucket_of(hash@) == oldbucket);
            assert(oldbucket.len() > 0 ==> oldself.hash2path@.contains_key(key));
        }
        let mut i: usize = 0;
        let mut replaced = false;
        let ghost mut j0: int = 0;
        while i < bucket.len() && !replaced
            invariant
                0 <= i <= bucket@.len(),
                hash.wf(),
                !replaced ==> bucket@ == oldbucket,
                !replaced ==> j0 == 0,
                !replaced ==> forall|j: int| 0 <= j < i ==> (#[trigger] oldbucket[j]).0@ != hash@,
                replaced ==> {
                    &&& 0 <= j0 < bucket@.len()
                    &&& bucket@.len() == oldbucket.len()
                    &&& oldbucket[j0].0@ == hash@
                    &&& bucket@[j0].0@ == hash@
                    &&& bucket@[j0].0.wf()
                    &&& bucket@[j0].1 == loc
                    &&& (forall|k: int|
                        0 <= k < bucket@.len() && k != j0 ==> bucket@[k] == oldbucket[k])
                },
            decreases bucket@.len() - i + if replaced {
                0int
            } else {
                1int
            },
        {
            if bucket[i].0.hash == hash.hash {
                proof {
                    assert(bucket@[i as int].0@ =~= hash@);
                    j0 = i as int;
                }
                let cloned = hash.clone();
                proof {
                    assert(cloned@ == hash@ && cloned.wf());
                }
                bucket[i] = (cloned, loc.clone());
                replaced = true;
            } else {
                proof {
                    assert(bucket@[i as int].0@ != hash@) by {
                        if bucket@[i as int].0@ == hash@ {
                            assert(bucket@[i as int].0.hash@ =~= hash.hash@);
                        }
                    }
                }
                i = i + 1;
            }
        }
        if !replaced {
            proof {
                j0 = oldbucket.len() as int;
            }
            let cloned = hash.clone();
            proof {
                assert(cloned@ == hash@ && cloned.wf());
            }
            bucket.push((cloned, loc.clone()));
        }
        let ghost newbucket = bucket@;
        proof {
            // One entry holds the digest with its new location; all other old
            // entries are untouched, and none of them holds this digest.
            assert(0 <= j0 < newbucket.len());
            assert(newbucket[j0].0@ == hash@ && newbucket[j0].0.wf() && newbucket[j0].1 == loc);
            assert(forall|k: int|
                0 <= k < oldbucket.len() && k != j0 ==> #[trigger] newbucket[k] == oldbucket[k]);
            assert(newbucket.len() == oldbucket.len() || (newbucket.len() == oldbucket.len() + 1
                && j0 == oldbucket.len()));
            assert forall|k: int| 0 <= k < oldbucket.len() && k != j0 implies (
            #[trigger] oldbucket[k]).0@ != hash@ by {
                if j0 < oldbucket.len() {
                    // A replaced entry is the only one with this digest, by
                    // bucket uniqueness.
                    assert(oldself.hash2path@.contains_key(key));
                    assert(oldbucket[j0].0@ == hash@);
                    if k < j0 {
                        assert(oldbucket[k].0@ != oldbucket[j0].0@);
                    } else {
                        assert(oldbucket[j0].0@ != oldbucket[k].0@);
                    }
                }
            }
        }
        self.hash2path.insert(key, bucket);
        proof {
            assert(self.hash2path@[key]@ == newbucket);
            // Well-formedness of the rebuilt bucket, then of the whole map.
            assert forall|k: u64| #[trigger] self.hash2path@.contains_key(k) implies {
                let b = self.hash2path@[k]@;
                &&& (forall|j: int|
                    0 <= j < b.len() ==> (#[trigger] b[j]).0.wf() && spec_prefix64(b[j].0@) == k)
                &&& (forall|j1: int, j2: int|
                    0 <= j1 < j2 < b.len() ==> (#[trigger] b[j1]).0@ != (#[trigger] b[j2]).0@)
            } by {
                if k == key {
                    let b = self.hash2path@[k]@;
                    assert(b == newbucket);
                    assert forall|j: int| 0 <= j < b.len() implies (#[trigger] b[j]).0.wf()
                        && spec_prefix64(b[j].0@) == k by {
                        if j != j0 {
                            assert(b[j] == oldbucket[j]);
                            assert(oldself.hash2path@.contains_key(key));
                        }
                    }
                    assert forall|j1: int, j2: int| 0 <= j1 < j2 < b.len() implies (
                    #[trigger] b[j1]).0@ != (#[trigger] b[j2]).0@ by {
                        if j1 != j0 && j2 != j0 {
                            assert(oldself.hash2path@.contains_key(key));
                            assert(b[j1] == oldbucket[j1] && b[j2] == oldbucket[j2]);
                        } else if j1 == j0 {
                            assert(b[j2] == oldbucket[j2]);
                            assert(b[j2].0@ != hash@);
                        } else {
                            assert(b[j1] == oldbucket[j1]);
                            assert(b[j1].0@ != hash@);
                        }
                    }
                } else {
                    assert(oldself.hash2path@.contains_key(k));
                    assert(self.hash2path@[k] == oldself.hash2path@[k]);
                }
            }
            // The digest now maps to the new location.
            assert(final(self).bucket_of(hash@) == newbucket);
            assert(final(self).spec_contains(hash@)) by {
                assert(newbucket[j0].0@ == hash@);
            }
            assert(final(self).spec_loc(hash@) == loc) by {
                let j = final(self).entry_index(hash@);
                assert(newbucket[j].0@ == hash@);
                if j != j0 {
                    assert(j < oldbucket.len() || j0 < j);
                    if j < oldbucket.len() {
                        assert(newbucket[j] == oldbucket[j]);
                        assert(oldbucket[j].0@ != hash@);
                    }
                }
            }
            // Other digests are untouched.
            assert forall|d: Seq<u8>| d != hash@ implies final(self).spec_contains(d) == oldself
                .spec_contains(d) && (oldself.spec_contains(d) ==> final(self).spec_loc(d)
                == oldself.spec_loc(d)) by {
                if spec_prefix64(d) != key {
                    assert(final(self).bucket_of(d) == oldself.bucket_of(d));
                } else {
                    let bnew = final(self).bucket_of(d);
                    let bold = oldself.bucket_of(d);
                    assert(bnew == newbucket && bold == oldbucket);
                    if oldself.spec_contains(d) {
                        let j = oldself.entry_index(d);
                        assert(bold[j].0@ == d);
                        assert(j != j0);
                        assert(bnew[j] == bold[j]);
                        assert(final(self).spec_contains(d));
                        let jn = final(self).entry_index(d);
                        assert(bnew[jn].0@ == d);
                        assert(jn != j0);
                        assert(jn < oldbucket.len() || jn == j0);
                        assert(bnew[jn] == bold[jn]);
                        if jn != j {
                            assert(oldself.hash2path@.contains_key(key));
                            if jn < j {
                                assert(bold[jn].0@ != bold[j].0@);
                            } else {
                                assert(bold[j].0@ != bold[jn].0@);
                            }
                        }
                        assert(final(self).spec_loc(d) == oldself.spec_loc(d));
                    }
                    if final(self).spec_contains(d) {
                        let jn = final(self).entry_index(d);
                        assert(bnew[jn].0@ == d);
                        assert(jn != j0);
                        assert(jn < oldbucket.len());
                        assert(bold[jn].0@ == d);
                        assert(oldself.spec_contains(d));
                    }
                }
            }
        }
    }

    /// Looks a digest up in the index.
    pub fn get_location_by_block_id(&self, block_id: &BlockIdHash) -> (r: Option<BlockLocation>)
        requires
            self.wf(),
            block_id.wf(),
        ensures
            match r {
                Some(loc) => self.spec_contains(block_id@) && loc == self.spec_loc(block_id@),
                None => !self.spec_contains(block_id@),
            },
    {
        let key = digest_prefix64(block_id.hash.as_slice());
        let bucket: &Vec<(BlockIdHash, BlockLocation)> = match self.hash2path.get(&key) {
            Some(b) => b,
            None => {
                proof {
                    assert(self.bucket_of(block_id@)
                        =~= Seq::<(BlockIdHash, BlockLocation)>::empty());
                }
                return None;
            },
        };
        proof {
            assert(self.hash2path@.contains_key(key) && self.hash2path@[key] == *bucket);
            assert(self.bucket_of(block_id@) == bucket@);
        }
        let mut i: usize = 0;
        while i < bucket.len()
            invariant
                0 <= i <= bucket@.len(),
                block_id.wf(),
                self.wf(),
                self.bucket_of(block_id@) == bucket@,
                self.hash2path@.contains_key(key),
                self.hash2path@[key] == *bucket,
                forall|j: int| 0 <= j < i ==> (#[trigger] bucket@[j]).0@ != block_id@,
            decreases bucket@.len() - i,
        {
            if bucket[i].0.hash == block_id.hash {
                proof {
                    assert(bucket@[i as int].0@ =~= block_id@);
                    assert(self.spec_contains(block_id@));
                    let j = self.entry_index(block_id@);
                    assert(bucket@[j].0@ == block_id@);
                    if j != i as int {
                        if j < i as int {
                            assert(bucket@[j].0@ != bucket@[i as int].0@);
                        } else {
                            assert(bucket@[i as int].0@ != bucket@[j].0@);
                        }
                    }
                }
                let loc: &BlockLocation = &bucket[i].1;
                return Some(loc.clone());
            }
            proof {
                assert(bucket@[i as int].0@ != block_id@) by {
                    if bucket@[i as int].0@ == block_id@ {
                        assert(bucket@[i as int].0.hash@ =~= block_id.hash@);
                    }
                }
            }
            i = i + 1;
        }
        None
    }

    /// The path of the archive the index locates a digest in.
    pub fn get_zip_path_by_block_id(&self, block_id: &BlockIdHash) -> (r: Option<String>)
        requires
            self.wf(),
            block_id.wf(),
        ensures
            match r {
                Some(p) => self.spec_contains(block_id@) && p@ == self.spec_loc(
                    block_id@,
                ).ziplocation.path@,
                None => !self.spec_contains(block_id@),
            },
    {
        match self.get_location_by_block_id(block_id) {
            Some(loc) => Some(loc.ziplocation.path),
            None => None,
        }
    }
}

/// Key/value metadata from the newest list archive: the declared block size,
/// hash algorithm, and version strings.
#[derive(Debug, Clone)]
pub struct Manifest {
    pub version: i64,
    pub created: String,
    pub encoding: String,
    pub block_size: i64,
    pub block_hash: String,
    pub file_hash: String,
    pub app_version: String,
}

impl Manifest {
    /// The declared block size is positive and small enough that block
    /// offsets fit the machine's addresses.
    pub open spec fn wf(&self) -> bool {
        &&& 0 < self.block_size as int
        &&& self.block_size as int <= usize::MAX as int
        &&& (self.block_size as int / 32) * (self.block_size as int) <= usize::MAX as int
    }
}

/// The entry name a digest's block is stored under in a data archive.
pub open spec fn spec_name_of(d: Seq<u8>) -> Seq<u8> {
    spec_b64_encode(Base64Alphabet::UrlSafe, d)
}

/// Whether a location points at the entry of a digest in an archive with the
/// given names and path, registered at the given position.
pub open spec fn spec_loc_good(
    d: Seq<u8>,
    loc: BlockLocation,
    names: Seq<Seq<u8>>,
    path: Seq<char>,
    aidx: int,
) -> bool {
    &&& d.len() == 32
    &&& loc.archive_index == aidx
    &&& loc.file_index < names.len()
    &&& names[loc.file_index as int] == spec_name_of(d)
    &&& loc.ziplocation.path@ == path
}

/// The position of the first registered archive holding an entry with this
/// name; -1 when none does. Probing mode resolves digests this way.
pub open spec fn spec_first_archive_with(archs: Seq<ZipArchiveWrapper>, name: Seq<u8>) -> int
    decreases archs.len(),
{
    if archs.len() == 0 {
        -1
    } else if archs[0].names().contains(name) {
        0
    } else {
        let r = spec_first_archive_with(archs.drop_first(), name);
        if r == -1 {
            -1
        } else {
            r + 1
        }
    }
}

/// A forward scan that hits at `a` with no hit before it found the first
/// archive with the name.
pub proof fn lemma_first_archive_with_at(archs: Seq<ZipArchiveWrapper>, name: Seq<u8>, a: int)
    requires
        0 <= a < archs.len(),
        archs[a].names().contains(name),
        forall|x: int| 0 <= x < a ==> !(#[trigger] archs[x]).names().contains(name),
    ensures
        spec_first_archive_with(archs, name) == a,
    decreases a,
{
    if a == 0 {
    } else {
        assert(!archs[0].names().contains(name));
        assert(forall|x: int|
            0 <= x < a - 1 ==> (#[trigger] archs.drop_first()[x]) == archs[x + 1]);
        assert(archs.drop_first()[a - 1] == archs[a]);
        lemma_first_archive_with_at(archs.drop_first(), name, a - 1);
    }
}

/// A scan that hits nowhere found no archive with the name.
pub proof fn lemma_first_archive_with_none(archs: Seq<ZipArchiveWrapper>, name: Seq<u8>)
    requires
        forall|x: int| 0 <= x < archs.len() ==> !(#[trigger] archs[x]).names().contains(name),
    ensures
        spec_first_archive_with(archs, name) == -1,
    decreases archs.len(),
{
    if archs.len() > 0 {
        assert(forall|x: int|
            0 <= x < archs.drop_first().len() ==> (#[trigger] archs.drop_first()[x]) == archs[x
                + 1]);
        lemma_first_archive_with_none(archs.drop_first(), name);
    }
}

/// What the first-hit position means: -1 exactly when no archive holds the
/// name, else an in-range position that does, with none before it.
pub proof fn lemma_first_archive_with_props(archs: Seq<ZipArchiveWrapper>, name: Seq<u8>)
    ensures
        ({
            let r = spec_first_archive_with(archs, name);
            &&& (r == -1 ==> forall|x: int|
                0 <= x < archs.len() ==> !(#[trigger] archs[x]).names().contains(name))
            &&& (r != -1 ==> 0 <= r < archs.len() && archs[r].names().contains(name))
        }),
    decreases archs.len(),
{
    if archs.len() > 0 {
        lemma_first_archive_with_props(archs.drop_first(), name);
        assert(forall|x: int|
            0 <= x < archs.drop_first().len() ==> (#[trigger] archs.drop_first()[x]) == archs[x
                + 1]);
        let r = spec_first_archive_with(archs, name);
        let rd = spec_first_archive_with(archs.drop_first(), name);
        if !archs[0].names().contains(name) && rd == -1 {
            assert forall|x: int| 0 <= x < archs.len() implies !(#[trigger] archs[x]).names()
                .contains(name) by {
                if x > 0 {
                    assert(archs[x] == archs.drop_first()[x - 1]);
                }
            }
        } else if !archs[0].names().contains(name) {
            assert(archs[rd + 1] == archs.drop_first()[rd]);
        }
    }
}

/// Whether archive bytes can be imported: they parse as a zip whose entry
/// count fits the location type, and, in indexed mode, whose entry names all
/// decode as URL-safe base64.
pub open spec fn spec_importable(data: Seq<u8>, indexed: bool) -> bool {
    &&& crate::ziparchive::zip_parses(data)
    &&& crate::ziparchive::zip_names_of(data).len() <= u32::MAX
    &&& (indexed ==> forall|i: int|
        0 <= i < crate::ziparchive::zip_names_of(data).len()
            ==> crate::blockhash::spec_b64_valid(
            Base64Alphabet::UrlSafe,
            #[trigger] crate::ziparchive::zip_names_of(data)[i],
        ))
}

/// The registry of opened data archives, with the optional digest → location
/// index: indexed mode fills it, probing mode leaves it out and asks each
/// archive instead.
pub struct HashToBlocks {
    zip2ziparchive: Vec<ZipArchiveWrapper>,
    hash2path: Option<HashToPath>,
}

impl HashToBlocks {
    /// The registered archives, in registration order.
    pub closed spec fn archives(&self) -> Seq<ZipArchiveWrapper> {
        self.zip2ziparchive@
    }

    /// Whether the digest index was built (hash-to-path mode).
    pub closed spec fn is_indexed(&self) -> bool {
        self.hash2path is Some
    }

    /// Whether the index knows a digest; false in probing mode.
    pub closed spec fn index_contains(&self, d: Seq<u8>) -> bool {
        match self.hash2path {
            Some(hp) => hp.spec_contains(d),
            None => false,
        }
    }

    /// The location the index holds for a digest it knows.
    pub closed spec fn index_loc(&self, d: Seq<u8>) -> BlockLocation {
        match self.hash2path {
            Some(hp) => hp.spec_loc(d),
            None => vstd::pervasive::arbitrary(),
        }
    }

    /// Whether some registered archive holds an entry with this name.
    pub open spec fn spec_has_name(&self, name: Seq<u8>) -> bool {
        exists|a: int|
            0 <= a < self.archives().len() && (#[trigger] self.archives()[a]).names().contains(
                name,
            )
    }

    /// Whether some registered archive holds the block of this digest.
    pub open spec fn spec_has_block(&self, d: Seq<u8>) -> bool {
        self.spec_has_name(spec_name_of(d))
    }

    /// The archive a lookup resolves a digest to: the indexed location's
    /// archive in indexed mode, the first archive holding the digest's name
    /// in probing mode; -1 when the digest cannot be resolved.
    pub open spec fn spec_resolved_archive(&self, d: Seq<u8>) -> int {
        if self.is_indexed() {
            if self.index_contains(d) {
                self.index_loc(d).archive_index as int
            } else {
                -1
            }
        } else {
            spec_first_archive_with(self.archives(), spec_name_of(d))
        }
    }

    /// A digest resolves to no archive exactly when no archive holds its
    /// block; otherwise it resolves to an archive that does.
    pub proof fn lemma_resolved_archive(&self, d: Seq<u8>)
        requires
            self.inv(),
            d.len() == 32,
        ensures
            ({
                let a = self.spec_resolved_archive(d);
                &&& (a == -1 <==> !self.spec_has_block(d))
                &&& (a != -1 ==> 0 <= a < self.archives().len()
                    && self.archives()[a].names().contains(spec_name_of(d)))
            }),
    {
        match self.hash2path {
            Some(hp) => {
                if hp.spec_contains(d) {
                    let loc = hp.spec_loc(d);
                    assert(self.archives()[loc.archive_index as int].names().contains(
                        spec_name_of(d),
                    )) by {
                        assert(self.archives()[loc.archive_index as int].names()[loc.file_index as int]
                            == spec_name_of(d));
                    }
                } else {
                    self.lemma_unindexed_has_no_block(hp, d);
                }
            },
            None => {
                lemma_first_archive_with_props(self.archives(), spec_name_of(d));
                let r = spec_first_archive_with(self.archives(), spec_name_of(d));
                if r == -1 {
                    if self.spec_has_block(d) {
                        let x = choose|x: int|
                            0 <= x < self.archives().len() && (#[trigger] self.archives()[x])
                                .names().contains(spec_name_of(d));
                        assert(!self.archives()[x].names().contains(spec_name_of(d)));
                    }
                }
            },
        }
    }

    /// Every indexed digest points at a real entry of the archive its
    /// location names.
    pub closed spec fn index_sound(&self, hp: HashToPath) -> bool {
        forall|d: Seq<u8>| #[trigger]
            hp.spec_contains(d) ==> {
                let loc = hp.spec_loc(d);
                &&& 0 <= loc.archive_index < self.archives().len()
                &&& spec_loc_good(
                    d,
                    loc,
                    self.archives()[loc.archive_index as int].names(),
                    self.archives()[loc.archive_index as int].ziplocation.path@,
                    loc.archive_index as int,
                )
            }
    }

    /// Every archive entry name that is the encoding of a digest is indexed.
    pub closed spec fn index_complete(&self, hp: HashToPath) -> bool {
        forall|a: int, i: int, b: Seq<u8>|
            #![trigger spec_b64_encode(Base64Alphabet::UrlSafe, b), self.archives()[a].names()[i]]
            0 <= a < self.archives().len() && 0 <= i < self.archives()[a].names().len() && b.len()
                == 32 && spec_b64_encode(Base64Alphabet::UrlSafe, b) == self.archives()[a].names()[i]
                ==> hp.spec_contains(b)
    }

    /// The registry and index are consistent: archives know their position,
    /// entry counts fit the location type, and in indexed mode the index is
    /// sound and complete for the registered archives.
    pub closed spec fn inv(&self) -> bool {
        &&& (forall|a: int|
            0 <= a < self.archives().len() ==> (#[trigger] self.archives()[a]).archive_index == a)
        &&& (forall|a: int|
            0 <= a < self.archives().len() ==> (#[trigger] self.archives()[a]).names().len()
                <= u32::MAX)
        &&& match self.hash2path {
            Some(hp) => hp.wf() && self.index_sound(hp) && self.index_complete(hp),
            None => true,
        }
    }

    /// An empty registry, with or without the digest index.
    pub fn new(use_hash_to_path: bool) -> (r: Self)
        ensures
            r.inv(),
            r.archives().len() == 0,
            r.is_indexed() == use_hash_to_path,
            forall|d: Seq<u8>| !r.index_contains(d),
    {
        let hash2path = if use_hash_to_path {
            Some(HashToPath::new())
        } else {
            None
        };
        HashToBlocks { zip2ziparchive: Vec::new(), hash2path }
    }

    /// Whether a not-yet-registered archive can be pushed without breaking
    /// the index: in indexed mode the index must already cover its names,
    /// and any index entry must either point into the registry or at the
    /// new archive's position.
    pub closed spec fn spec_ready_to_register(&self, archive: ArchiveReader, path: Seq<char>) -> bool {
        &&& (forall|a: int|
            0 <= a < self.archives().len() ==> (#[trigger] self.archives()[a]).archive_index == a)
        &&& (forall|a: int|
            0 <= a < self.archives().len() ==> (#[trigger] self.archives()[a]).names().len()
                <= u32::MAX)
        &&& zip_entry_names(archive).len() <= u32::MAX
        &&& match self.hash2path {
            Some(hp) => {
                &&& hp.wf()
                &&& self.index_complete(hp)
                &&& (forall|i: int, b: Seq<u8>|
                    #![trigger spec_b64_encode(Base64Alphabet::UrlSafe, b), zip_entry_names(archive)[i]]
                    0 <= i < zip_entry_names(archive).len() && b.len() == 32 && spec_b64_encode(
                        Base64Alphabet::UrlSafe,
                        b,
                    ) == zip_entry_names(archive)[i] ==> hp.spec_contains(b))
                &&& (forall|d: Seq<u8>| #[trigger]
                    hp.spec_contains(d) ==> (0 <= hp.spec_loc(d).archive_index < self.archives().len()
                        && spec_loc_good(
                        d,
                        hp.spec_loc(d),
                        self.archives()[hp.spec_loc(d).archive_index as int].names(),
                        self.archives()[hp.spec_loc(d).archive_index as int].ziplocation.path@,
                        hp.spec_loc(d).archive_index as int,
                    )) || spec_loc_good(
                        d,
                        hp.spec_loc(d),
                        zip_entry_names(archive),
                        path,
                        self.archives().len() as int,
                    ))
            },
            None => true,
        }
    }

    /// Adds an opened archive to the registry, at the next position.
    pub fn register_zip_archive(&mut self, ziplocation: ZipLocation, archive: ArchiveReader)
        requires
            old(self).spec_ready_to_register(archive, ziplocation.path@),
        ensures
            final(self).inv(),
            final(self).is_indexed() == old(self).is_indexed(),
            final(self).archives().len() == old(self).archives().len() + 1,
            forall|a: int|
                0 <= a < old(self).archives().len() ==> final(self).archives()[a] == old(
                    self,
                ).archives()[a],
            final(self).archives().last().ziplocation.path@ == ziplocation.path@,
            final(self).archives().last().archive == archive,
            final(self).archives().last().archive_index == old(self).archives().len(),
            forall|d: Seq<u8>| final(self).index_contains(d) == old(self).index_contains(d),
            forall|d: Seq<u8>|
                old(self).index_contains(d) ==> final(self).index_loc(d) == old(self).index_loc(d),
    {
        let archive_index = self.zip2ziparchive.len();
        self.zip2ziparchive.push(ZipArchiveWrapper { ziplocation, archive_index, archive });
        proof {
            let archs = self.zip2ziparchive@;
            let n = archs.len() - 1;
            assert(archs[n as int].archive == archive);
            match &self.hash2path {
                Some(hp) => {
                    let hp = *hp;
                    assert(self.index_sound(hp)) by {
                        assert forall|d: Seq<u8>| #[trigger] hp.spec_contains(d) implies {
                            let loc = hp.spec_loc(d);
                            &&& 0 <= loc.archive_index < archs.len()
                            &&& spec_loc_good(
                                d,
                                loc,
                                archs[loc.archive_index as int].names(),
                                archs[loc.archive_index as int].ziplocation.path@,
                                loc.archive_index as int,
                            )
                        } by {
                            let loc = hp.spec_loc(d);
                            if loc.archive_index < n {
                                assert(archs[loc.archive_index as int] == old(
                                    self,
                                ).archives()[loc.archive_index as int]);
                            } else {
                                assert(spec_loc_good(
                                    d,
                                    loc,
                                    zip_entry_names(archive),
                                    archs[n as int].ziplocation.path@,
                                    n as int,
                                ));
                            }
                        }
                    }
                    assert(self.index_complete(hp)) by {
                        assert forall|a: int, i: int, b: Seq<u8>|
                            0 <= a < archs.len() && 0 <= i < archs[a].names().len() && b.len()
                                == 32 && #[trigger] spec_b64_encode(Base64Alphabet::UrlSafe, b)
                                == #[trigger] archs[a].names()[i] implies hp.spec_contains(b) by {
                            if a < n {
                                assert(archs[a] == old(self).archives()[a]);
                            } else {
                                assert(archs[a].names() == zip_entry_names(archive));
                            }
                        }
                    }
                },
                None => {},
            }
        }
    }
}

/// Scans one opened archive's entry names, decodes each as a URL-safe
/// base64 digest, and records `digest → (this archive, entry index)` in the
/// index. A name that is not base64 fails the archive; a name that decodes
/// to something other than 32 bytes can never be asked for and is skipped.
pub fn register_hash_to_path(
    hash2path: &mut HashToPath,
    archive: &ArchiveReader,
    ziplocation: &ZipLocation,
    archive_index: usize,
) -> (r: Result<(), RestoreError>)
    requires
        old(hash2path).wf(),
        zip_entry_names(*archive).len() <= u32::MAX,
    ensures
        final(hash2path).wf(),
        r is Ok <==> (forall|i: int|
            0 <= i < zip_entry_names(*archive).len() ==> crate::blockhash::spec_b64_valid(
                Base64Alphabet::UrlSafe,
                #[trigger] zip_entry_names(*archive)[i],
            )),
        r is Err ==> *final(hash2path) == *old(hash2path) && r == Err::<(), RestoreError>(
            RestoreError::ArchiveOpen,
        ),
        r is Ok ==> {
            &&& (forall|i: int, b: Seq<u8>|
                #![trigger spec_b64_encode(Base64Alphabet::UrlSafe, b), zip_entry_names(*archive)[i]]
                0 <= i < zip_entry_names(*archive).len() && b.len() == 32 && spec_b64_encode(
                    Base64Alphabet::UrlSafe,
                    b,
                ) == zip_entry_names(*archive)[i] ==> final(hash2path).spec_contains(b))
            &&& (forall|d: Seq<u8>| #[trigger]
                final(hash2path).spec_contains(d) ==> (old(hash2path).spec_contains(d)
                    && final(hash2path).spec_loc(d) == old(hash2path).spec_loc(d)) || spec_loc_good(
                    d,
                    final(hash2path).spec_loc(d),
                    zip_entry_names(*archive),
                    ziplocation.path@,
                    archive_index as int,
                ))
            &&& (forall|d: Seq<u8>|
                old(hash2path).spec_contains(d) ==> final(hash2path).spec_contains(d))
        },
{
    let n = zip_len(archive);
    let ghost names = zip_entry_names(*archive);
    // First pass: decode every name, so that a bad name leaves the index
    // untouched.
    let mut digests: Vec<(BlockIdHash, u32)> = Vec::new();
    let mut i: usize = 0;
    while i < n
        invariant
            0 <= i <= n,
            n == names.len(),
            names == zip_entry_names(*archive),
            names.len() <= u32::MAX,
            *hash2path == *old(hash2path),
            hash2path.wf(),
            forall|j: int|
                0 <= j < i ==> crate::blockhash::spec_b64_valid(
                    Base64Alphabet::UrlSafe,
                    #[trigger] names[j],
                ),
            forall|j: int|
                0 <= j < digests@.len() ==> {
                    let (h, fi) = #[trigger] digests@[j];
                    &&& h.wf()
                    &&& fi < i
                    &&& spec_b64_encode(Base64Alphabet::UrlSafe, h@) == names[fi as int]
                },
            forall|idx: int, b: Seq<u8>|
                #![trigger spec_b64_encode(Base64Alphabet::UrlSafe, b), names[idx]]
                0 <= idx < i && b.len() == 32 && spec_b64_encode(Base64Alphabet::UrlSafe, b)
                    == names[idx] ==> exists|j: int|
                    0 <= j < digests@.len() && (#[trigger] digests@[j]).1 == idx,
        decreases n - i,
    {
        let ghost prev = digests@;
        let name = zip_name_at(archive, i);
        match b64_decode_urlsafe(name.as_slice()) {
            None => {
                proof {
                    assert(!crate::blockhash::spec_b64_valid(Base64Alphabet::UrlSafe, names[i as int]));
                }
                return Err(RestoreError::ArchiveOpen);
            },
            Some(bytes) => {
                let blen = bytes.len();
                if blen == 32 {
                    digests.push((BlockIdHash { hash: bytes }, i as u32));
                } else {
                    proof {
                        // No 32-byte digest encodes to this name: the name
                        // decodes uniquely to the wrong length.
                        assert forall|b: Seq<u8>|
                            b.len() == 32 implies spec_b64_encode(Base64Alphabet::UrlSafe, b)
                            != names[i as int] by {
                            if spec_b64_encode(Base64Alphabet::UrlSafe, b) == names[i as int] {
                                crate::blockhash::lemma_b64_encode_injective(
                                    Base64Alphabet::UrlSafe,
                                    b,
                                    bytes@,
                                );
                            }
                        }
                    }
                }
                proof {
                    assert forall|idx: int, b: Seq<u8>|
                        0 <= idx < i + 1 && b.len() == 32 && #[trigger] spec_b64_encode(
                            Base64Alphabet::UrlSafe,
                            b,
                        ) == #[trigger] names[idx] implies exists|j: int|
                        0 <= j < digests@.len() && (#[trigger] digests@[j]).1 == idx by {
                        if idx < i {
                            let j = choose|j: int|
                                0 <= j < prev.len() && (#[trigger] prev[j]).1 == idx;
                            assert(digests@[j].1 == idx);
                        } else {
                            assert(blen == 32);
                            assert(digests@[prev.len() as int].1 == i as u32);
                        }
                    }
                }
            },
        }
        i = i + 1;
    }
    // Second pass: record every digest.
    let ghost half = *hash2path;
    let mut j: usize = 0;
    while j < digests.len()
        invariant
            0 <= j <= digests@.len(),
            hash2path.wf(),
            names == zip_entry_names(*archive),
            names.len() <= u32::MAX,
            forall|jj: int|
                0 <= jj < digests@.len() ==> {
                    let (h, fi) = #[trigger] digests@[jj];
                    &&& h.wf()
                    &&& fi < names.len()
                    &&& spec_b64_encode(Base64Alphabet::UrlSafe, h@) == names[fi as int]
                },
            forall|jj: int| 0 <= jj < j ==> hash2path.spec_contains((#[trigger] digests@[jj]).0@),
            forall|d: Seq<u8>| #[trigger]
                hash2path.spec_contains(d) ==> (half.spec_contains(d) && hash2path.spec_loc(d)
                    == half.spec_loc(d)) || spec_loc_good(
                    d,
                    hash2path.spec_loc(d),
                    names,
                    ziplocation.path@,
                    archive_index as int,
                ),
            forall|d: Seq<u8>| half.spec_contains(d) ==> hash2path.spec_contains(d),
        decreases digests@.len() - j,
    {
        let h = digests[j].0.clone();
        let fi = digests[j].1;
        proof {
            assert(digests@[j as int].0.wf());
            assert(h@ == digests@[j as int].0@);
        }
        let loc = BlockLocation {
            ziplocation: ziplocation.clone(),
            archive_index,
            file_index: fi,
        };
        let ghost before = *hash2path;
        hash2path.insert(h, loc);
        proof {
            assert forall|jj: int| 0 <= jj < j + 1 implies hash2path.spec_contains(
                (#[trigger] digests@[jj]).0@,
            ) by {
                if digests@[jj].0@ != digests@[j as int].0@ {
                    assert(before.spec_contains(digests@[jj].0@));
                }
            }
        }
        j = j + 1;
    }
    // Every digest-shaped name is covered by some collected pair, and every
    // collected pair was inserted.
    proof {
        assert forall|i2: int, b: Seq<u8>|
            0 <= i2 < names.len() && b.len() == 32 && #[trigger] spec_b64_encode(
                Base64Alphabet::UrlSafe,
                b,
            ) == #[trigger] names[i2] implies hash2path.spec_contains(b) by {
            let jj = choose|jj: int| 0 <= jj < digests@.len() && (#[trigger] digests@[jj]).1 == i2;
            assert(digests@[jj].1 == i2);
            assert(spec_b64_encode(Base64Alphabet::UrlSafe, digests@[jj].0@) == names[i2]);
            crate::blockhash::lemma_b64_encode_injective(
                Base64Alphabet::UrlSafe,
                b,
                digests@[jj].0@,
            );
            assert(hash2path.spec_contains(digests@[jj].0@));
        }
    }
    Ok(())
}

impl HashToBlocks {
    /// Opens one data archive held in memory and registers it; in indexed
    /// mode, every digest-named entry is recorded in the index first.
    pub fn import_from_zip(&mut self, zip_path: String, data: Vec<u8>) -> (r: Result<
        (),
        RestoreError,
    >)
        requires
            old(self).inv(),
        ensures
            final(self).inv(),
            final(self).is_indexed() == old(self).is_indexed(),
            r is Ok <==> spec_importable(data@, old(self).is_indexed()),
            r is Ok ==> {
                &&& final(self).archives().len() == old(self).archives().len() + 1
                &&& (forall|a: int|
                    0 <= a < old(self).archives().len() ==> final(self).archives()[a] == old(
                        self,
                    ).archives()[a])
                &&& final(self).archives().last().ziplocation.path@ == zip_path@
                &&& final(self).archives().last().names() == crate::ziparchive::zip_names_of(
                    data@,
                )
                &&& final(self).archives().last().contents() == crate::ziparchive::zip_contents_of(
                    data@,
                )
            },
            r is Err ==> r == Err::<(), RestoreError>(RestoreError::ArchiveOpen) && *final(self)
                == *old(self),
    {
        let archive = match zip_open(data) {
            Ok(z) => z,
            Err(_) => {
                return Err(RestoreError::ArchiveOpen);
            },
        };
        let n = zip_len(&archive);
        if n > u32::MAX as usize {
            return Err(RestoreError::ArchiveOpen);
        }
        let archive_index = self.zip2ziparchive.len();
        let ziplocation = ZipLocation { path: zip_path };
        match &mut self.hash2path {
            Some(hp) => {
                match register_hash_to_path(hp, &archive, &ziplocation, archive_index) {
                    Ok(()) => {},
                    Err(e) => {
                        return Err(e);
                    },
                }
            },
            None => {},
        }
        proof {
            assert(self.spec_ready_to_register(archive, ziplocation.path@)) by {
                match self.hash2path {
                    Some(hp) => {
                        assert(self.index_complete(hp)) by {
                            assert forall|a: int, i: int, b: Seq<u8>|
                                0 <= a < self.archives().len() && 0 <= i
                                    < self.archives()[a].names().len() && b.len() == 32
                                    && #[trigger] spec_b64_encode(Base64Alphabet::UrlSafe, b)
                                    == #[trigger] self.archives()[a].names()[i] implies hp
                                .spec_contains(b) by {
                                let oldhp = old(self).hash2path->Some_0;
                                assert(oldhp.spec_contains(b));
                            }
                        }
                    },
                    None => {},
                }
            }
        }
        self.register_zip_archive(ziplocation, archive);
        Ok(())
    }

    /// Resolves a digest to a block location: an index probe in indexed
    /// mode, a scan over the registered archives in probing mode.
    pub fn get_location_by_block_id(&self, block_id: &BlockIdHash) -> (r: Option<BlockLocation>)
        requires
            self.inv(),
            block_id.wf(),
        ensures
            match r {
                Some(loc) => {
                    &&& 0 <= loc.archive_index < self.archives().len()
                    &&& spec_loc_good(
                        block_id@,
                        loc,
                        self.archives()[loc.archive_index as int].names(),
                        self.archives()[loc.archive_index as int].ziplocation.path@,
                        loc.archive_index as int,
                    )
                    &&& (self.is_indexed() ==> self.index_contains(block_id@) && loc
                        == self.index_loc(block_id@))
                    &&& (!self.is_indexed() ==> forall|a: int|
                        0 <= a < loc.archive_index ==> !(#[trigger] self.archives()[a]).names()
                            .contains(spec_name_of(block_id@)))
                },
                None => !self.spec_has_block(block_id@),
            },
    {
        match &self.hash2path {
            Some(hp) => {
                match hp.get_location_by_block_id(block_id) {
                    Some(loc) => Some(loc),
                    None => {
                        proof {
                            self.lemma_unindexed_has_no_block(*hp, block_id@);
                        }
                        None
                    },
                }
            },
            None => self.get_location_by_block_id_purezip(block_id),
        }
    }

    /// In indexed mode, a digest the index does not know is in no archive.
    proof fn lemma_unindexed_has_no_block(&self, hp: HashToPath, d: Seq<u8>)
        requires
            self.inv(),
            self.hash2path == Some(hp),
            !hp.spec_contains(d),
            d.len() == 32,
        ensures
            !self.spec_has_block(d),
    {
        if self.spec_has_block(d) {
            let a = choose|a: int|
                0 <= a < self.archives().len() && (#[trigger] self.archives()[a]).names().contains(
                    spec_name_of(d),
                );
            let names = self.archives()[a].names();
            let i = choose|i: int| 0 <= i < names.len() && names[i] == spec_name_of(d);
            assert(0 <= i < self.archives()[a].names().len() && self.archives()[a].names()[i]
                == spec_b64_encode(Base64Alphabet::UrlSafe, d));
            assert(hp.spec_contains(d));
        }
    }

    /// Resolves a digest by asking each archive in turn for an entry named
    /// by the digest's URL-safe base64; the first archive that has one wins.
    pub fn get_location_by_block_id_purezip(&self, block_id: &BlockIdHash) -> (r: Option<
        BlockLocation,
    >)
        requires
            self.inv(),
            block_id.wf(),
        ensures
            match r {
                Some(loc) => {
                    &&& 0 <= loc.archive_index < self.archives().len()
                    &&& spec_loc_good(
                        block_id@,
                        loc,
                        self.archives()[loc.archive_index as int].names(),
                        self.archives()[loc.archive_index as int].ziplocation.path@,
                        loc.archive_index as int,
                    )
                    &&& (forall|a: int|
                        0 <= a < loc.archive_index ==> !(#[trigger] self.archives()[a]).names()
                            .contains(spec_name_of(block_id@)))
                },
                None => !self.spec_has_block(block_id@),
            },
    {
        let mut namebuf: Vec<u8> = Vec::new();
        block_id.as_base64_urlsafe(&mut namebuf);
        let ghost name = spec_name_of(block_id@);
        let mut a: usize = 0;
        while a < self.zip2ziparchive.len()
            invariant
                self.inv(),
                block_id.wf(),
                0 <= a <= self.archives().len(),
                namebuf@ == name,
                name == spec_name_of(block_id@),
                crate::ziparchive::is_ascii_bytes(namebuf@),
                forall|x: int|
                    0 <= x < a ==> !(#[trigger] self.archives()[x]).names().contains(name),
            decreases self.archives().len() - a,
        {
            let w = &self.zip2ziparchive[a];
            match w.get_block_location(namebuf.as_slice()) {
                Some(loc) => {
                    proof {
                        assert(self.archives()[a as int].archive_index == a);
                        assert(self.archives()[a as int].names().contains(name)) by {
                            assert(self.archives()[a as int].names()[loc.file_index as int]
                                == name);
                        }
                    }
                    return Some(loc);
                },
                None => {
                    proof {
                        assert(self.archives()[a as int].names().len() <= u32::MAX);
                        assert(!self.archives()[a as int].names().contains(name));
                    }
                },
            }
            a = a + 1;
        }
        proof {
            assert(!self.spec_has_block(block_id@)) by {
                if self.spec_has_block(block_id@) {
                    let x = choose|x: int|
                        0 <= x < self.archives().len() && (#[trigger] self.archives()[x]).names()
                            .contains(name);
                    assert(!self.archives()[x].names().contains(name));
                }
            }
        }
        None
    }

    /// The registry position of the archive that holds a digest's block, in
    /// whichever mode the registry runs.
    pub fn get_zip_by_block_id(&self, block_id: &BlockIdHash) -> (r: Option<usize>)
        requires
            self.inv(),
            block_id.wf(),
        ensures
            match r {
                Some(a) => {
                    &&& a < self.archives().len()
                    &&& self.archives()[a as int].names().contains(spec_name_of(block_id@))
                    &&& a as int == self.spec_resolved_archive(block_id@)
                },
                None => !self.spec_has_block(block_id@) && self.spec_resolved_archive(block_id@)
                    == -1,
            },
    {
        let r = match self.get_location_by_block_id(block_id) {
            Some(loc) => {
                proof {
                    assert(self.archives()[loc.archive_index as int].names().contains(
                        spec_name_of(block_id@),
                    )) by {
                        assert(self.archives()[loc.archive_index as int].names()[loc.file_index as int]
                            == spec_name_of(block_id@));
                    }
                    if !self.is_indexed() {
                        lemma_first_archive_with_at(
                            self.archives(),
                            spec_name_of(block_id@),
                            loc.archive_index as int,
                        );
                    }
                }
                Some(loc.archive_index)
            },
            None => None,
        };
        proof {
            if r is None {
                self.lemma_resolved_archive(block_id@);
            }
        }
        r
    }

    /// The registry position of the first archive that holds a digest's
    /// block, found by probing alone.
    pub fn get_zip_by_block_id_purezip(&self, block_id: &BlockIdHash) -> (r: Option<usize>)
        requires
            self.inv(),
            block_id.wf(),
        ensures
            match r {
                Some(a) => {
                    &&& a < self.archives().len()
                    &&& self.archives()[a as int].names().contains(spec_name_of(block_id@))
                    &&& (forall|x: int|
                        0 <= x < a ==> !(#[trigger] self.archives()[x]).names().contains(
                            spec_name_of(block_id@),
                        ))
                },
                None => !self.spec_has_block(block_id@),
            },
    {
        match self.get_location_by_block_id_purezip(block_id) {
            Some(loc) => {
                proof {
                    assert(self.archives()[loc.archive_index as int].names().contains(
                        spec_name_of(block_id@),
                    )) by {
                        assert(self.archives()[loc.archive_index as int].names()[loc.file_index as int]
                            == spec_name_of(block_id@));
                    }
                }
                Some(loc.archive_index)
            },
            None => None,
        }
    }

    /// The registered archive with the given path, if any.
    pub fn get_zip_archive(&self, zip_filename: &str) -> (r: Option<&ZipArchiveWrapper>)
        requires
            self.inv(),
        ensures
            match r {
                Some(w) => exists|a: int|
                    0 <= a < self.archives().len() && self.archives()[a] == *w
                        && crate::dfileentry::spec_utf8((#[trigger] self.archives()[a]).ziplocation.path@)
                        == zip_filename.spec_bytes(),
                None => forall|a: int|
                    0 <= a < self.archives().len() ==> crate::dfileentry::spec_utf8(
                        (#[trigger] self.archives()[a]).ziplocation.path@,
                    ) != zip_filename.spec_bytes(),
            },
    {
        let mut a: usize = 0;
        while a < self.zip2ziparchive.len()
            invariant
                0 <= a <= self.archives().len(),
                self.archives() == self.zip2ziparchive@,
                forall|x: int|
                    0 <= x < a ==> crate::dfileentry::spec_utf8(
                        (#[trigger] self.archives()[x]).ziplocation.path@,
                    ) != zip_filename.spec_bytes(),
            decreases self.archives().len() - a,
        {
            let w = &self.zip2ziparchive[a];
            if crate::ziparchive::bytes_eq(w.ziplocation.path.as_str().as_bytes(), zip_filename.as_bytes()) {
                return Some(w);
            }
            a = a + 1;
        }
        None
    }
}

/// The database over one repository: the archive registry with its optional
/// digest index, plus the manifest that fixes the block geometry.
pub struct DFileDatabase {
    inner: HashToBlocks,
    manifest: Manifest,
}

impl DFileDatabase {
    /// The manifest is sane and the registry is consistent.
    pub closed spec fn wf(&self) -> bool {
        self.manifest.wf() && self.inner.inv()
    }

    /// The registered archives, in registration order.
    pub closed spec fn archives(&self) -> Seq<ZipArchiveWrapper> {
        self.inner.archives()
    }

    /// Whether the digest index was built (hash-to-path mode).
    pub closed spec fn is_indexed(&self) -> bool {
        self.inner.is_indexed()
    }

    /// Whether the index knows a digest; false in probing mode.
    pub closed spec fn index_contains(&self, d: Seq<u8>) -> bool {
        self.inner.index_contains(d)
    }

    /// The location the index holds for a digest it knows.
    pub closed spec fn index_loc(&self, d: Seq<u8>) -> BlockLocation {
        self.inner.index_loc(d)
    }

    /// Whether some registered archive holds the block of this digest.
    pub open spec fn spec_has_block(&self, d: Seq<u8>) -> bool {
        exists|a: int|
            0 <= a < self.archives().len() && (#[trigger] self.archives()[a]).names().contains(
                spec_name_of(d),
            )
    }

    /// Whether `bytes` is what some registered archive stores for a digest.
    pub open spec fn spec_block_of(&self, d: Seq<u8>, bytes: Seq<u8>) -> bool {
        exists|a: int|
            0 <= a < self.archives().len() && (#[trigger] self.archives()[a]).names().contains(
                spec_name_of(d),
            ) && bytes == self.archives()[a].contents()[spec_name_of(d)]
    }

    /// The archive a lookup resolves a digest to; -1 when no archive holds
    /// its block.
    pub closed spec fn spec_resolved_archive(&self, d: Seq<u8>) -> int {
        self.inner.spec_resolved_archive(d)
    }

    /// The bytes the resolved archive stores for the digest.
    pub open spec fn spec_resolved_content(&self, d: Seq<u8>) -> Seq<u8> {
        self.archives()[self.spec_resolved_archive(d)].contents()[spec_name_of(d)]
    }

    /// Whether the resolved archive's entry for the digest can be read
    /// through (decompresses and passes its checksum).
    pub open spec fn spec_block_readable(&self, d: Seq<u8>) -> bool {
        crate::ziparchive::zip_entry_readable(
            self.archives()[self.spec_resolved_archive(d)].archive,
            spec_name_of(d),
        )
    }

    /// A digest resolves to no archive exactly when no archive holds its
    /// block; otherwise it resolves to an archive that does, and the
    /// resolved content is stored content of the digest.
    pub proof fn lemma_resolved_archive(&self, d: Seq<u8>)
        requires
            self.wf(),
            d.len() == 32,
        ensures
            ({
                let a = self.spec_resolved_archive(d);
                &&& (a == -1 <==> !self.spec_has_block(d))
                &&& (a != -1 ==> 0 <= a < self.archives().len()
                    && self.archives()[a].names().contains(spec_name_of(d))
                    && self.spec_block_of(d, self.spec_resolved_content(d)))
            }),
    {
        self.inner.lemma_resolved_archive(d);
    }

    /// The manifest the database was opened with.
    pub closed spec fn spec_manifest(&self) -> Manifest {
        self.manifest
    }

    /// The manifest's full block size `B`.
    pub open spec fn spec_block_size(&self) -> int {
        self.spec_manifest().block_size as int
    }

    /// The bytes one block-list block covers: `(B / 32) * B`.
    pub open spec fn spec_offset_size(&self) -> int {
        (self.spec_block_size() / 32) * self.spec_block_size()
    }

    /// Checks the manifest and opens an empty database in the chosen mode.
    pub fn new(manifest: Manifest, use_hash_to_path: bool) -> (r: Result<
        DFileDatabase,
        RestoreError,
    >)
        ensures
            r is Ok <==> manifest.wf(),
            r matches Ok(db) ==> {
                &&& db.wf()
                &&& db.archives().len() == 0
                &&& db.is_indexed() == use_hash_to_path
                &&& db.spec_manifest() == manifest
                &&& (forall|d: Seq<u8>| !db.index_contains(d))
            },
            r is Err ==> r == Err::<DFileDatabase, RestoreError>(RestoreError::ManifestInvalid),
    {
        if manifest.block_size <= 0 {
            return Err(RestoreError::ManifestInvalid);
        }
        let bs = manifest.block_size as u64;
        if !(bs <= usize::MAX as u64) {
            return Err(RestoreError::ManifestInvalid);
        }
        let hpb = bs / 32;
        match hpb.checked_mul(bs) {
            Some(p) => {
                if p > usize::MAX as u64 {
                    return Err(RestoreError::ManifestInvalid);
                }
            },
            None => {
                proof {
                    assert((bs as int / 32) * (bs as int) > u64::MAX as int);
                }
                return Err(RestoreError::ManifestInvalid);
            },
        }
        Ok(DFileDatabase { inner: HashToBlocks::new(use_hash_to_path), manifest })
    }

    /// Opens one data archive held in memory and registers it.
    pub fn import_from_zip(&mut self, zip_path: String, data: Vec<u8>) -> (r: Result<
        (),
        RestoreError,
    >)
        requires
            old(self).wf(),
        ensures
            final(self).wf(),
            final(self).spec_manifest() == old(self).spec_manifest(),
            final(self).is_indexed() == old(self).is_indexed(),
            r is Ok <==> spec_importable(data@, old(self).is_indexed()),
            r is Ok ==> {
                &&& final(self).archives().len() == old(self).archives().len() + 1
                &&& (forall|a: int|
                    0 <= a < old(self).archives().len() ==> final(self).archives()[a] == old(
                        self,
                    ).archives()[a])
                &&& final(self).archives().last().ziplocation.path@ == zip_path@
                &&& final(self).archives().last().names() == crate::ziparchive::zip_names_of(
                    data@,
                )
                &&& final(self).archives().last().contents() == crate::ziparchive::zip_contents_of(
                    data@,
                )
            },
            r is Err ==> r == Err::<(), RestoreError>(RestoreError::ArchiveOpen)
                && final(self).archives() == old(self).archives(),
    {
        self.inner.import_from_zip(zip_path, data)
    }

    /// Opens and registers every named archive, in order; stops at the
    /// first archive that cannot be opened or indexed.
    pub fn create_block_id_to_filenames(&mut self, zips: Vec<(String, Vec<u8>)>) -> (r: Result<
        (),
        RestoreError,
    >)
        requires
            old(self).wf(),
        ensures
            final(self).wf(),
            final(self).spec_manifest() == old(self).spec_manifest(),
            final(self).is_indexed() == old(self).is_indexed(),
            r is Ok <==> (forall|k: int|
                0 <= k < zips@.len() ==> spec_importable(
                    (#[trigger] zips@[k]).1@,
                    old(self).is_indexed(),
                )),
            r is Ok ==> {
                &&& final(self).archives().len() == old(self).archives().len() + zips@.len()
                &&& (forall|a: int|
                    0 <= a < old(self).archives().len() ==> final(self).archives()[a] == old(
                        self,
                    ).archives()[a])
                &&& (forall|k: int|
                    0 <= k < zips@.len() ==> {
                        let w = #[trigger] final(self).archives()[old(self).archives().len() + k];
                        &&& w.ziplocation.path@ == zips@[k].0@
                        &&& w.names() == crate::ziparchive::zip_names_of(zips@[k].1@)
                        &&& w.contents() == crate::ziparchive::zip_contents_of(zips@[k].1@)
                    })
            },
            r is Err ==> r == Err::<(), RestoreError>(RestoreError::ArchiveOpen),
    {
        let mut k: usize = 0;
        while k < zips.len()
            invariant
                self.wf(),
                self.spec_manifest() == old(self).spec_manifest(),
                self.is_indexed() == old(self).is_indexed(),
                0 <= k <= zips@.len(),
                self.archives().len() == old(self).archives().len() + k,
                forall|a: int|
                    0 <= a < old(self).archives().len() ==> self.archives()[a] == old(
                        self,
                    ).archives()[a],
                forall|j: int|
                    0 <= j < k ==> {
                        let w = #[trigger] self.archives()[old(self).archives().len() + j];
                        &&& w.ziplocation.path@ == zips@[j].0@
                        &&& w.names() == crate::ziparchive::zip_names_of(zips@[j].1@)
                        &&& w.contents() == crate::ziparchive::zip_contents_of(zips@[j].1@)
                    },
                forall|j: int|
                    0 <= j < k ==> spec_importable(
                        (#[trigger] zips@[j]).1@,
                        old(self).is_indexed(),
                    ),
            decreases zips@.len() - k,
        {
            let path = zips[k].0.clone();
            let data = zips[k].1.clone();
            proof {
                assert(data@ =~= zips@[k as int].1@);
            }
            match self.import_from_zip(path, data) {
                Ok(()) => {},
                Err(e) => {
                    proof {
                        assert(!spec_importable(zips@[k as int].1@, old(self).is_indexed()));
                    }
                    return Err(e);
                },
            }
            k = k + 1;
        }
        Ok(())
    }

    /// Adds an already-opened archive to the registry.
    pub fn register_zip_archive(&mut self, ziplocation: ZipLocation, archive: ArchiveReader)
        requires
            old(self).spec_manifest().wf(),
            old(self).spec_ready_to_register(archive, ziplocation.path@),
        ensures
            final(self).wf(),
            final(self).spec_manifest() == old(self).spec_manifest(),
            final(self).archives().len() == old(self).archives().len() + 1,
            final(self).archives().last().ziplocation.path@ == ziplocation.path@,
            final(self).archives().last().archive == archive,
    {
        self.inner.register_zip_archive(ziplocation, archive)
    }

    /// Whether an opened archive can be registered without breaking the
    /// index.
    pub closed spec fn spec_ready_to_register(&self, archive: ArchiveReader, path: Seq<char>) -> bool {
        self.inner.spec_ready_to_register(archive, path)
    }

    /// Resolves a digest to its block location, in whichever mode the
    /// database runs.
    pub fn get_block_id_location(&self, block_id: &BlockIdHash) -> (r: Option<BlockLocation>)
        requires
            self.wf(),
            block_id.wf(),
        ensures
            match r {
                Some(loc) => {
                    &&& 0 <= loc.archive_index < self.archives().len()
                    &&& spec_loc_good(
                        block_id@,
                        loc,
                        self.archives()[loc.archive_index as int].names(),
                        self.archives()[loc.archive_index as int].ziplocation.path@,
                        loc.archive_index as int,
                    )
                    &&& (self.is_indexed() ==> self.index_contains(block_id@) && loc
                        == self.index_loc(block_id@))
                },
                None => !self.spec_has_block(block_id@),
            },
    {
        self.inner.get_location_by_block_id(block_id)
    }

    /// The registry position of an archive that holds a digest's block.
    pub fn get_zip_by_block_id(&self, block_id: &BlockIdHash) -> (r: Option<usize>)
        requires
            self.wf(),
            block_id.wf(),
        ensures
            match r {
                Some(a) => {
                    &&& a < self.archives().len()
                    &&& self.archives()[a as int].names().contains(spec_name_of(block_id@))
                    &&& a as int == self.spec_resolved_archive(block_id@)
                },
                None => !self.spec_has_block(block_id@) && self.spec_resolved_archive(block_id@)
                    == -1,
            },
    {
        self.inner.get_zip_by_block_id(block_id)
    }

    /// Fetches the block stored for a digest, appending its bytes to the
    /// caller's buffer. `Ok(None)` means no archive has the block;
    /// an archive that has it but cannot be read is an error.
    pub fn get_content_block(&self, block_id: &BlockIdHash, block_buf: &mut Vec<u8>) -> (r: Result<
        Option<usize>,
        RestoreError,
    >)
        requires
            self.wf(),
            block_id.wf(),
        ensures
            match r {
                Ok(opt) => match opt {
                    Some(n) => {
                        &&& self.spec_has_block(block_id@)
                        &&& self.spec_block_readable(block_id@)
                        &&& self.spec_block_of(block_id@, self.spec_resolved_content(block_id@))
                        &&& final(block_buf)@ == old(block_buf)@ + self.spec_resolved_content(
                            block_id@,
                        )
                        &&& n == self.spec_resolved_content(block_id@).len()
                    },
                    None => !self.spec_has_block(block_id@) && final(block_buf)@ == old(
                        block_buf,
                    )@,
                },
                Err(e) => {
                    &&& e == RestoreError::Io
                    &&& final(block_buf)@ == old(block_buf)@
                    &&& self.spec_has_block(block_id@)
                    &&& !self.spec_block_readable(block_id@)
                },
            },
    {
        let aidx = match self.inner.get_zip_by_block_id(block_id) {
            Some(a) => a,
            None => {
                return Ok(None);
            },
        };
        let mut namebuf: Vec<u8> = Vec::new();
        block_id.as_base64_urlsafe(&mut namebuf);
        let w = &self.inner.zip2ziparchive[aidx];
        proof {
            assert(self.spec_resolved_archive(block_id@) == aidx as int);
            assert(self.archives()[aidx as int].archive == w.archive);
        }
        match crate::ziparchive::zip_read_entry(&w.archive, namebuf.as_slice(), block_buf) {
            Ok(n) => {
                proof {
                    let bytes = self.archives()[aidx as int].contents()[spec_name_of(block_id@)];
                    assert(self.spec_block_of(block_id@, bytes));
                    assert(self.spec_has_block(block_id@));
                }
                Ok(Some(n))
            },
            Err(_) => {
                proof {
                    assert(self.archives()[aidx as int].names().contains(spec_name_of(block_id@)));
                    assert(self.spec_has_block(block_id@));
                }
                Err(RestoreError::Io)
            },
        }
    }

    /// The manifest's full block size.
    pub fn block_size(&self) -> (r: usize)
        requires
            self.wf(),
        ensures
            r == self.spec_block_size(),
    {
        self.manifest.block_size as usize
    }

    /// The bytes of original file content one block-list block covers:
    /// digests per block-list block times block size.
    pub fn offset_size(&self) -> (r: usize)
        requires
            self.wf(),
        ensures
            r == self.spec_offset_size(),
    {
        let hashes_per_block = self.manifest.block_size as usize / 32;
        hashes_per_block * (self.manifest.block_size as usize)
    }

    /// The width of a raw digest inside a block-list block.
    pub fn hash_size(&self) -> (r: usize)
        ensures
            r == 32,
    {
        32
    }
}

/// Index completeness: in indexed mode, every archive entry whose name
/// decodes to a digest can be looked up, and the location found names an
/// entry holding exactly that name.
pub proof fn lemma_index_completeness(db: DFileDatabase, a: int, i: int, d: Seq<u8>)
    requires
        db.wf(),
        db.is_indexed(),
        0 <= a < db.archives().len(),
        0 <= i < db.archives()[a].names().len(),
        d.len() == 32,
        spec_name_of(d) == db.archives()[a].names()[i],
    ensures
        db.index_contains(d),
        0 <= db.index_loc(d).archive_index < db.archives().len(),
        db.archives()[db.index_loc(d).archive_index as int].names()[db.index_loc(
            d,
        ).file_index as int] == spec_name_of(d),
{
    match db.inner.hash2path {
        Some(hp) => {
            assert(hp.spec_contains(d)) by {
                assert(spec_b64_encode(Base64Alphabet::UrlSafe, d) == db.archives()[a].names()[i]);
            }
        },
        None => {},
    }
}

/// Mode equivalence: whenever exactly one registered archive holds a
/// digest's block, the indexed lookup and the probing lookup name the same
/// archive — the one that holds it.
pub proof fn lemma_mode_equivalence(db: DFileDatabase, d: Seq<u8>, a: int)
    requires
        db.wf(),
        db.is_indexed(),
        d.len() == 32,
        0 <= a < db.archives().len(),
        db.archives()[a].names().contains(spec_name_of(d)),
        forall|x: int|
            0 <= x < db.archives().len() && (#[trigger] db.archives()[x]).names().contains(
                spec_name_of(d),
            ) ==> x == a,
    ensures
        db.index_contains(d),
        db.index_loc(d).archive_index == a,
        forall|x: int|
            0 <= x < a ==> !(#[trigger] db.archives()[x]).names().contains(spec_name_of(d)),
{
    let names = db.archives()[a].names();
    let i = choose|i: int| 0 <= i < names.len() && names[i] == spec_name_of(d);
    lemma_index_completeness(db, a, i, d);
    let loc = db.index_loc(d);
    let ax = loc.archive_index as int;
    assert(db.archives()[ax].names().contains(spec_name_of(d))) by {
        assert(db.archives()[ax].names()[loc.file_index as int] == spec_name_of(d));
    }
    assert(ax == a);
}

} // verus!
