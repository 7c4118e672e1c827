use crate::database::{spec_loc_good, spec_name_of, DFileDatabase};
use crate::dfileentry::{spec_utf8, FileEntry};
use crate::dfiletype::FileType;
use crate::ziparchive::{
    bytes_eq, bytes_le, lemma_bytes_le_antisym, lemma_bytes_le_total, lemma_bytes_le_trans,
    spec_bytes_le, BlockLocation,
};
use vstd::prelude::*;
use vstd::multiset::Multiset;
use vstd::string::StrSliceExecFns;

verus! {

broadcast use {vstd::seq_lib::group_to_multiset_ensures, vstd::multiset::group_multiset_axioms};

/// The digest whose block holds a file's first byte: the file's own digest
/// for small files, the first block-list digest for large ones; nothing for
/// folders and symlinks.
pub open spec fn spec_first_digest(e: &FileEntry) -> Option<Seq<u8>> {
    match e.file_type {
        FileType::File { hash, .. } => if e.block_lists@.len() == 0 {
            Some(hash@)
        } else {
            Some(e.block_lists@[0]@)
        },
        _ => None,
    }
}

/// Looks up where a file's first byte-bearing block lives. Advisory: used
/// only to order the file pass so that reads stream through each archive.
pub fn get_first_bytes_location(entry: &FileEntry, db: &DFileDatabase) -> (r: Option<
    BlockLocation,
>)
    requires
        db.wf(),
        entry.wf(),
    ensures
        match r {
            Some(loc) => {
                &&& spec_first_digest(entry) matches Some(d)
                &&& 0 <= loc.archive_index < db.archives().len()
                &&& spec_loc_good(
                    spec_first_digest(entry)->Some_0,
                    loc,
                    db.archives()[loc.archive_index as int].names(),
                    db.archives()[loc.archive_index as int].ziplocation.path@,
                    loc.archive_index as int,
                )
            },
            None => match spec_first_digest(entry) {
                Some(d) => !db.spec_has_block(d),
                None => true,
            },
        },
{
    match &entry.file_type {
        FileType::File { hash, .. } => {
            if entry.block_lists.len() == 0 {
                db.get_block_id_location(hash)
            } else {
                db.get_block_id_location(&entry.block_lists[0])
            }
        },
        _ => None,
    }
}

/// The sort key of one entry: where its first block lives (the archive's
/// path bytes and the entry index), or an unlocated sentinel that orders
/// after every located entry.
pub struct SortKey {
    pub located: bool,
    pub archive_path: Vec<u8>,
    pub file_index: u32,
}

/// Key order: located keys in `(archive path, entry index)` order, unlocated
/// keys after all located ones.
pub open spec fn spec_key_le(a: SortKey, b: SortKey) -> bool {
    if a.located && b.located {
        if a.archive_path@ == b.archive_path@ {
            a.file_index <= b.file_index
        } else {
            spec_bytes_le(a.archive_path@, b.archive_path@)
        }
    } else {
        !a.located ==> !b.located
    }
}

/// The key order is total.
proof fn lemma_key_le_total(a: SortKey, b: SortKey)
    ensures
        spec_key_le(a, b) || spec_key_le(b, a),
{
    if a.located && b.located {
        lemma_bytes_le_total(a.archive_path@, b.archive_path@);
    }
}

/// The key order is transitive.
proof fn lemma_key_le_trans(a: SortKey, b: SortKey, c: SortKey)
    requires
        spec_key_le(a, b),
        spec_key_le(b, c),
    ensures
        spec_key_le(a, c),
{
    if a.located && b.located && c.located {
        let (pa, pb, pc) = (a.archive_path@, b.archive_path@, c.archive_path@);
        if pa != pb && pb != pc {
            if pa == pc {
                lemma_bytes_le_antisym(pa, pb);
                assert(false);
            } else {
                lemma_bytes_le_trans(pa, pb, pc);
            }
        }
    }
}

/// The order the file pass sorts by: key order first, ties broken by the
/// entry's path bytes so that the order is deterministic.
pub open spec fn spec_entry_le(ka: SortKey, pa: Seq<u8>, kb: SortKey, pb: Seq<u8>) -> bool {
    if spec_key_le(ka, kb) && spec_key_le(kb, ka) {
        spec_bytes_le(pa, pb)
    } else {
        spec_key_le(ka, kb)
    }
}

/// The entry order is total.
pub proof fn lemma_entry_le_total(ka: SortKey, pa: Seq<u8>, kb: SortKey, pb: Seq<u8>)
    ensures
        spec_entry_le(ka, pa, kb, pb) || spec_entry_le(kb, pb, ka, pa),
{
    lemma_key_le_total(ka, kb);
    lemma_bytes_le_total(pa, pb);
}

/// The entry order is transitive.
pub proof fn lemma_entry_le_trans(
    ka: SortKey,
    pa: Seq<u8>,
    kb: SortKey,
    pb: Seq<u8>,
    kc: SortKey,
    pc: Seq<u8>,
)
    requires
        spec_entry_le(ka, pa, kb, pb),
        spec_entry_le(kb, pb, kc, pc),
    ensures
        spec_entry_le(ka, pa, kc, pc),
{
    if spec_key_le(ka, kb) && spec_key_le(kb, ka) && spec_key_le(kb, kc) && spec_key_le(kc, kb) {
        lemma_bytes_le_trans(pa, pb, pc);
        lemma_key_le_trans(ka, kb, kc);
        lemma_key_le_trans(kc, kb, ka);
    } else {
        lemma_key_le_trans(ka, kb, kc);
        if spec_key_le(kc, ka) {
            lemma_key_le_trans(kc, ka, kb);
            lemma_key_le_trans(kb, kc, ka);
        }
    }
}

/// Whether a sort key truthfully describes an entry against the database:
/// a located key names a real archive entry holding the first block, an
/// unlocated key means there is nothing to locate.
pub open spec fn spec_key_valid(db: &DFileDatabase, e: FileEntry, k: SortKey) -> bool {
    if k.located {
        match spec_first_digest(&e) {
            Some(d) => exists|a: int|
                {
                    &&& 0 <= a < db.archives().len()
                    &&& vstd::utf8::encode_utf8(
                        (#[trigger] db.archives()[a]).ziplocation.path@,
                    ) == k.archive_path@
                    &&& k.file_index < db.archives()[a].names().len()
                    &&& db.archives()[a].names()[k.file_index as int] == spec_name_of(d)
                },
            None => false,
        }
    } else {
        match spec_first_digest(&e) {
            Some(d) => !db.spec_has_block(d),
            None => true,
        }
    }
}

/// Computes one entry's sort key.
fn key_of(entry: &FileEntry, db: &DFileDatabase) -> (r: SortKey)
    requires
        db.wf(),
        entry.wf(),
    ensures
        spec_key_valid(db, *entry, r),
{
    match get_first_bytes_location(entry, db) {
        Some(loc) => {
            let archive_path = loc.ziplocation.path.as_str().as_bytes_vec();
            proof {
                let a = loc.archive_index as int;
                assert(vstd::utf8::encode_utf8(db.archives()[a].ziplocation.path@)
                    == archive_path@);
            }
            SortKey { located: true, archive_path, file_index: loc.file_index }
        },
        None => SortKey { located: false, archive_path: Vec::new(), file_index: 0 },
    }
}

/// Whether the first keyed entry sorts no later than the second.
fn pair_le(ka: &SortKey, ea: &FileEntry, kb: &SortKey, eb: &FileEntry) -> (r: bool)
    ensures
        r == spec_entry_le(*ka, spec_utf8(ea.path@), *kb, spec_utf8(eb.path@)),
{
    let key_ab = key_le(ka, kb);
    let key_ba = key_le(kb, ka);
    if key_ab && key_ba {
        bytes_le(ea.path.as_str().as_bytes(), eb.path.as_str().as_bytes())
    } else {
        key_ab
    }
}

/// Whether one key orders no later than another.
fn key_le(a: &SortKey, b: &SortKey) -> (r: bool)
    ensures
        r == spec_key_le(*a, *b),
{
    if a.located && b.located {
        if bytes_eq(a.archive_path.as_slice(), b.archive_path.as_slice()) {
            a.file_index <= b.file_index
        } else {
            bytes_le(a.archive_path.as_slice(), b.archive_path.as_slice())
        }
    } else if !a.located {
        !b.located
    } else {
        true
    }
}

/// The path bytes of a keyed entry, the tie-breaker of the sort.
pub open spec fn spec_pair_path(p: (SortKey, FileEntry)) -> Seq<u8> {
    spec_utf8(p.1.path@)
}

/// A run of keyed entries in sorted order.
pub open spec fn spec_pairs_sorted(s: Seq<(SortKey, FileEntry)>) -> bool {
    forall|i: int, j: int|
        0 <= i < j < s.len() ==> spec_entry_le(
            (#[trigger] s[i]).0,
            spec_pair_path(s[i]),
            (#[trigger] s[j]).0,
            spec_pair_path(s[j]),
        )
}

/// Sorts the snapshot's entries by the physical location of each file's
/// first block, so that the file pass reads archives sequentially; entries
/// without a location come last, and ties fall back to path order. The
/// entries are reordered, never changed.
pub fn sort_files_sequentially(file_entries: &mut Vec<FileEntry>, dblock_db: &DFileDatabase)
    requires
        dblock_db.wf(),
        forall|i: int| 0 <= i < old(file_entries)@.len() ==> (#[trigger] old(file_entries)@[i]).wf(),
    ensures
        final(file_entries)@.len() == old(file_entries)@.len(),
        final(file_entries)@.to_multiset() == old(file_entries)@.to_multiset(),
        exists|ks: Seq<SortKey>|
            #![trigger ks.len()]
            {
                &&& ks.len() == final(file_entries)@.len()
                &&& (forall|i: int|
                    0 <= i < ks.len() ==> spec_key_valid(
                        dblock_db,
                        #[trigger] final(file_entries)@[i],
                        ks[i],
                    ))
                &&& (forall|i: int, j: int|
                    0 <= i < j < ks.len() ==> spec_entry_le(
                        #[trigger] ks[i],
                        spec_utf8(final(file_entries)@[i].path@),
                        #[trigger] ks[j],
                        spec_utf8(final(file_entries)@[j].path@),
                    ))
            },
{
    let ghost original = file_entries@;
    // Pair every entry with its key.
    let mut pairs: Vec<(SortKey, FileEntry)> = Vec::new();
    while file_entries.len() > 0
        invariant
            dblock_db.wf(),
            forall|i: int| 0 <= i < file_entries@.len() ==> (#[trigger] file_entries@[i]).wf(),
            forall|i: int|
                0 <= i < pairs@.len() ==> spec_key_valid(
                    dblock_db,
                    (#[trigger] pairs@[i]).1,
                    pairs@[i].0,
                ),
            file_entries@.to_multiset().add(pairs@.map_values(|p: (SortKey, FileEntry)| p.1).to_multiset())
                =~= original.to_multiset(),
        decreases file_entries@.len(),
    {
        let ghost before = file_entries@;
        let ghost pairs_before = pairs@;
        let entry = file_entries.remove(file_entries.len() - 1);
        proof {
            assert(before.remove(before.len() - 1) =~= before.drop_last());
            assert(entry == before.last());
        }
        let key = key_of(&entry, dblock_db);
        pairs.push((key, entry));
        proof {
            assert(before.drop_last().push(before.last()) =~= before);
            assert(pairs@.map_values(|p: (SortKey, FileEntry)| p.1) =~= pairs_before.map_values(
                |p: (SortKey, FileEntry)| p.1,
            ).push(before.last()));
        }
    }
    proof {
        assert(file_entries@.to_multiset() =~= Multiset::<FileEntry>::empty());
        assert(Multiset::<FileEntry>::empty().add(
            pairs@.map_values(|p: (SortKey, FileEntry)| p.1).to_multiset(),
        ) =~= pairs@.map_values(|p: (SortKey, FileEntry)| p.1).to_multiset());
    }
    // Insertion sort on the pairs.
    let mut sorted: Vec<(SortKey, FileEntry)> = Vec::new();
    proof {
        assert(sorted@.map_values(|p: (SortKey, FileEntry)| p.1).to_multiset() =~= Multiset::<
            FileEntry,
        >::empty());
        assert(pairs@.map_values(|p: (SortKey, FileEntry)| p.1).to_multiset().add(
            sorted@.map_values(|p: (SortKey, FileEntry)| p.1).to_multiset(),
        ) =~= original.to_multiset());
    }
    while pairs.len() > 0
        invariant
            spec_pairs_sorted(sorted@),
            forall|i: int|
                0 <= i < sorted@.len() ==> spec_key_valid(
                    dblock_db,
                    (#[trigger] sorted@[i]).1,
                    sorted@[i].0,
                ),
            forall|i: int|
                0 <= i < pairs@.len() ==> spec_key_valid(
                    dblock_db,
                    (#[trigger] pairs@[i]).1,
                    pairs@[i].0,
                ),
            pairs@.map_values(|p: (SortKey, FileEntry)| p.1).to_multiset().add(
                sorted@.map_values(|p: (SortKey, FileEntry)| p.1).to_multiset(),
            ) =~= original.to_multiset(),
        decreases pairs@.len(),
    {
        let ghost pairs_before = pairs@;
        let p = pairs.remove(pairs.len() - 1);
        proof {
            assert(pairs_before.remove(pairs_before.len() - 1) =~= pairs_before.drop_last());
            assert(p == pairs_before.last());
        }
        let mut pos: usize = 0;
        while pos < sorted.len() && pair_le(&sorted[pos].0, &sorted[pos].1, &p.0, &p.1)
            invariant
                0 <= pos <= sorted@.len(),
                forall|k: int|
                    0 <= k < pos ==> spec_entry_le(
                        (#[trigger] sorted@[k]).0,
                        spec_pair_path(sorted@[k]),
                        p.0,
                        spec_pair_path(p),
                    ),
            decreases sorted@.len() - pos,
        {
            pos = pos + 1;
        }
        proof {
            if pos < sorted@.len() {
                lemma_entry_le_total(
                    sorted@[pos as int].0,
                    spec_pair_path(sorted@[pos as int]),
                    p.0,
                    spec_pair_path(p),
                );
            }
        }
        let ghost sorted_before = sorted@;
        sorted.insert(pos, p);
        proof {
            assert(spec_pairs_sorted(sorted@)) by {
                assert forall|i: int, j: int| 0 <= i < j < sorted@.len() implies spec_entry_le(
                    (#[trigger] sorted@[i]).0,
                    spec_pair_path(sorted@[i]),
                    (#[trigger] sorted@[j]).0,
                    spec_pair_path(sorted@[j]),
                ) by {
                    let pi = pos as int;
                    if i < pi && j == pi {
                        assert(sorted@[i] == sorted_before[i]);
                    } else if i == pi && j > pi {
                        assert(sorted@[j] == sorted_before[j - 1]);
                        assert(pi < sorted_before.len());
                        if j - 1 > pi {
                            lemma_entry_le_trans(
                                p.0,
                                spec_pair_path(p),
                                sorted_before[pi].0,
                                spec_pair_path(sorted_before[pi]),
                                sorted_before[j - 1].0,
                                spec_pair_path(sorted_before[j - 1]),
                            );
                        }
                    } else if i < pi && j > pi {
                        assert(sorted@[i] == sorted_before[i]);
                        assert(sorted@[j] == sorted_before[j - 1]);
                    } else if i > pi && j > pi {
                        assert(sorted@[i] == sorted_before[i - 1]);
                        assert(sorted@[j] == sorted_before[j - 1]);
                    } else if i < pi && j < pi {
                        assert(sorted@[i] == sorted_before[i]);
                        assert(sorted@[j] == sorted_before[j]);
                    }
                }
            }
            assert(pairs_before.drop_last().push(pairs_before.last()) =~= pairs_before);
            assert(pairs@.map_values(|q: (SortKey, FileEntry)| q.1).push(p.1) =~= pairs_before
                .map_values(|q: (SortKey, FileEntry)| q.1));
            assert(sorted@.map_values(|q: (SortKey, FileEntry)| q.1).to_multiset()
                =~= sorted_before.map_values(|q: (SortKey, FileEntry)| q.1).to_multiset().insert(
                p.1,
            )) by {
                assert(sorted@.map_values(|q: (SortKey, FileEntry)| q.1) =~= sorted_before
                    .map_values(|q: (SortKey, FileEntry)| q.1).insert(pos as int, p.1));
                lemma_multiset_insert_mid(
                    sorted_before.map_values(|q: (SortKey, FileEntry)| q.1),
                    p.1,
                    pos as int,
                );
            }
        }
    }
    // Hand the entries back in sorted order.
    let total = sorted.len();
    let ghost keys = sorted@.map_values(|p: (SortKey, FileEntry)| p.0);
    let ghost sorted_entries = sorted@.map_values(|p: (SortKey, FileEntry)| p.1);
    proof {
        assert(pairs@.map_values(|p: (SortKey, FileEntry)| p.1).to_multiset() =~= Multiset::<
            FileEntry,
        >::empty());
        assert(sorted_entries.to_multiset().add(Multiset::<FileEntry>::empty())
            =~= sorted_entries.to_multiset());
        assert(sorted_entries.to_multiset() =~= original.to_multiset());
    }
    let mut k: usize = 0;
    while sorted.len() > 0
        invariant
            0 <= k,
            total == sorted_entries.len(),
            k as int + sorted@.len() == sorted_entries.len(),
            file_entries@.len() == k,
            keys.len() == sorted_entries.len(),
            forall|i: int| 0 <= i < k ==> file_entries@[i] == sorted_entries[i],
            forall|i: int|
                0 <= i < sorted@.len() ==> #[trigger] sorted@[i] == (keys[k + i], sorted_entries[k
                    + i]),
            spec_pairs_sorted(sorted@),
            forall|i: int, j: int|
                0 <= i < j < sorted_entries.len() ==> spec_entry_le(
                    #[trigger] keys[i],
                    spec_utf8(sorted_entries[i].path@),
                    #[trigger] keys[j],
                    spec_utf8(sorted_entries[j].path@),
                ),
            forall|i: int|
                0 <= i < sorted_entries.len() ==> spec_key_valid(
                    dblock_db,
                    #[trigger] sorted_entries[i],
                    keys[i],
                ),
            sorted_entries.to_multiset() =~= original.to_multiset(),
        decreases sorted@.len(),
    {
        let pair = sorted.remove(0);
        file_entries.push(pair.1);
        k = k + 1;
    }
    proof {
        assert(file_entries@ =~= sorted_entries);
        assert(sorted_entries.len() == sorted_entries.to_multiset().len());
        assert(original.len() == original.to_multiset().len());
    }
}

/// Inserting an element in the middle adds it to the multiset.
proof fn lemma_multiset_insert_mid<A>(s: Seq<A>, x: A, pos: int)
    requires
        0 <= pos <= s.len(),
    ensures
        s.insert(pos, x).to_multiset() =~= s.to_multiset().insert(x),
    decreases s.len() - pos,
{
    if pos == s.len() {
        assert(s.insert(pos, x) =~= s.push(x));
    } else {
        assert(s.insert(pos, x).remove(s.len() as int) =~= s.drop_last().insert(pos, x));
        assert(s.insert(pos, x)[s.len() as int] == s.last());
        lemma_multiset_insert_mid(s.drop_last(), x, pos);
        assert(s.insert(pos, x).to_multiset().remove(s.last()) =~= s.drop_last().insert(
            pos,
            x,
        ).to_multiset());
        assert(s.drop_last().push(s.last()) =~= s);
        assert(s.to_multiset() =~= s.drop_last().to_multiset().insert(s.last()));
        assert(s.insert(pos, x).to_multiset().contains(s.last()));
        assert(s.insert(pos, x).to_multiset() =~= s.insert(pos, x).to_multiset().remove(
            s.last(),
        ).insert(s.last()));
    }
}

/// Compares two entries as the locality sort does: first-block location in
/// archive order, unlocated entries last, ties broken by path bytes.
pub fn compare_fileentry(entry_a: &FileEntry, entry_b: &FileEntry, db: &DFileDatabase) -> (r:
    core::cmp::Ordering)
    requires
        db.wf(),
        entry_a.wf(),
        entry_b.wf(),
    ensures
        exists|ka: SortKey, kb: SortKey|
            {
                &&& #[trigger] spec_key_valid(db, *entry_a, ka)
                &&& #[trigger] spec_key_valid(db, *entry_b, kb)
                &&& (r is Less ==> spec_entry_le(
                    ka,
                    spec_utf8(entry_a.path@),
                    kb,
                    spec_utf8(entry_b.path@),
                ))
                &&& (r is Greater ==> spec_entry_le(
                    kb,
                    spec_utf8(entry_b.path@),
                    ka,
                    spec_utf8(entry_a.path@),
                ))
                &&& (r is Equal ==> spec_entry_le(
                    ka,
                    spec_utf8(entry_a.path@),
                    kb,
                    spec_utf8(entry_b.path@),
                ) && spec_entry_le(kb, spec_utf8(entry_b.path@), ka, spec_utf8(entry_a.path@))
                    && spec_key_le(ka, kb) && spec_key_le(kb, ka) && spec_utf8(entry_a.path@)
                    == spec_utf8(entry_b.path@))
            },
{
    let ka = key_of(entry_a, db);
    let kb = key_of(entry_b, db);
    let ab = pair_le(&ka, entry_a, &kb, entry_b);
    let ba = pair_le(&kb, entry_b, &ka, entry_a);
    let r = if ab && ba {
        core::cmp::Ordering::Equal
    } else if ab {
        core::cmp::Ordering::Less
    } else {
        core::cmp::Ordering::Greater
    };
    proof {
        lemma_entry_le_total(ka, spec_utf8(entry_a.path@), kb, spec_utf8(entry_b.path@));
        assert(spec_key_valid(db, *entry_a, ka) && spec_key_valid(db, *entry_b, kb));
        if ab && ba {
            lemma_bytes_le_antisym(spec_utf8(entry_a.path@), spec_utf8(entry_b.path@));
        }
    }
    r
}

} // verus!
