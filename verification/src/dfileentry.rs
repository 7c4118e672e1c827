use crate::blockhash::{spec_b64_encode, spec_is_b64_digest, Base64Alphabet, BlockIdHash};
use crate::dfiletype::FileType;
use crate::errors::RestoreError;
use vstd::prelude::*;

verus! {

/// The UTF-8 bytes of a string's characters, the form the base64 codecs
/// speak of.
pub open spec fn spec_utf8(s: Seq<char>) -> Seq<u8> {
    vstd::utf8::encode_utf8(s)
}

/// One raw snapshot row, exactly as the JSON edge hands it over: optional
/// fields not yet checked. Validation happens in `FileEntry::from_ientry`.
#[derive(Debug, Clone)]
pub struct IEntry {
    pub filetype: String,
    pub path: String,
    pub hash: Option<String>,
    pub size: Option<i64>,
    pub metablockhash: Option<String>,
    pub metahash: String,
    pub metasize: i64,
    pub time: Option<String>,
    pub blocklists: Option<Vec<String>>,
}

/// Whether every block-list digest of a raw row decodes as a standard-base64
/// 32-byte digest.
pub open spec fn spec_blocklists_ok(ie: IEntry) -> bool {
    match ie.blocklists {
        Some(bls) => forall|i: int|
            0 <= i < bls@.len() ==> spec_is_b64_digest(
                Base64Alphabet::Standard,
                spec_utf8(#[trigger] bls@[i]@),
            ),
        None => true,
    }
}

/// Whether a raw row carries everything its kind requires: a `File` needs a
/// decodable digest, a non-negative size and a time; a `Folder` needs its
/// metadata digest; anything else passes (it becomes a symlink row).
pub open spec fn spec_ientry_ok(ie: IEntry) -> bool {
    &&& spec_blocklists_ok(ie)
    &&& if ie.filetype@ == "File"@ {
        &&& ie.hash matches Some(h) && spec_is_b64_digest(Base64Alphabet::Standard, spec_utf8(h@))
        &&& ie.size matches Some(s) && s >= 0
        &&& ie.time is Some
    } else if ie.filetype@ == "Folder"@ {
        ie.metablockhash is Some
    } else {
        true
    }
}

/// How a parsed entry's digests relate to the raw row's strings: each parsed
/// digest encodes back to the text it came from.
pub open spec fn spec_block_lists_match(e: FileEntry, ie: IEntry) -> bool {
    match ie.blocklists {
        Some(bls) => e.block_lists@.len() == bls@.len() && forall|i: int|
            0 <= i < bls@.len() ==> spec_b64_encode(
                Base64Alphabet::Standard,
                (#[trigger] e.block_lists@[i])@,
            ) == spec_utf8(bls@[i]@),
        None => e.block_lists@.len() == 0,
    }
}

/// How a parsed entry's kind and fields follow from the raw row.
pub open spec fn spec_file_type_matches(e: FileEntry, ie: IEntry) -> bool {
    if ie.filetype@ == "File"@ {
        &&& e.file_type matches FileType::File { hash, size, time } && (ie.hash matches Some(hs)
            && spec_b64_encode(Base64Alphabet::Standard, hash@) == spec_utf8(hs@)) && (
        ie.size matches Some(sz) && size == sz) && (ie.time matches Some(t) && time@ == t@)
    } else if ie.filetype@ == "Folder"@ {
        e.file_type matches FileType::Folder { metablockhash } && (ie.metablockhash matches Some(m)
            && metablockhash@ == m@)
    } else {
        e.file_type is SymLink
    }
}

/// Everything `from_ientry` promises of a successful parse.
pub open spec fn spec_entry_of(e: FileEntry, ie: IEntry) -> bool {
    &&& e.wf()
    &&& e.path@ == ie.path@
    &&& e.metahash@ == ie.metahash@
    &&& e.metasize == ie.metasize
    &&& spec_block_lists_match(e, ie)
    &&& spec_file_type_matches(e, ie)
}

/// One row of the snapshot, validated: paths and opaque metadata as given,
/// digests decoded to 32 raw bytes.
#[derive(Debug, Clone)]
pub struct FileEntry {
    pub path: String,
    pub metahash: String,
    pub metasize: i64,
    pub file_type: FileType,
    pub block_lists: Vec<BlockIdHash>,
}

impl FileEntry {
    /// The kind is well formed and every block-list digest is 32 bytes.
    pub open spec fn wf(&self) -> bool {
        &&& self.file_type.wf()
        &&& forall|i: int|
            0 <= i < self.block_lists@.len() ==> (#[trigger] self.block_lists@[i]).wf()
    }

    pub open spec fn spec_is_file(&self) -> bool {
        self.file_type is File
    }

    pub open spec fn spec_is_folder(&self) -> bool {
        self.file_type is Folder
    }

    /// The declared content size of a file row; zero for anything else.
    pub open spec fn spec_size(&self) -> int {
        match self.file_type {
            FileType::File { size, .. } => size as int,
            _ => 0,
        }
    }

    /// Whether this entry is a file with content.
    pub fn is_file(&self) -> (r: bool)
        ensures
            r == self.spec_is_file(),
    {
        self.file_type.is_file()
    }

    /// Whether this entry is a folder.
    pub fn is_folder(&self) -> (r: bool)
        ensures
            r == self.spec_is_folder(),
    {
        self.file_type.is_folder()
    }

    /// A rough guess of the bytes this entry takes on disk when restored:
    /// a little for the name and metadata, plus the content size.
    pub open spec fn spec_predicted_time(&self) -> int {
        4096 + (spec_utf8(self.path@).len() as usize) as int + self.spec_size()
    }

    /// The rough on-disk cost, saturating at the integer's limit.
    pub fn predicted_time(&self) -> (r: u64)
        requires
            self.wf(),
        ensures
            r == if self.spec_predicted_time() <= u64::MAX as int {
                self.spec_predicted_time()
            } else {
                u64::MAX as int
            },
    {
        let psize: u64 = (self.path.as_str().len() as u64).saturating_add(4096);
        match &self.file_type {
            FileType::File { size, .. } => psize.saturating_add(*size as u64),
            _ => psize,
        }
    }

    /// The declared content size of a file entry, zero otherwise.
    pub fn bytes_size(&self) -> (r: u64)
        requires
            self.wf(),
        ensures
            r == self.spec_size(),
    {
        match &self.file_type {
            FileType::File { size, .. } => *size as u64,
            _ => 0,
        }
    }

    /// Validates one raw row: decodes its digests, checks that the fields
    /// its kind requires are present, and rejects anything else as an
    /// invalid snapshot.
    pub fn from_ientry(ientry: &IEntry) -> (r: Result<FileEntry, RestoreError>)
        ensures
            r is Ok <==> spec_ientry_ok(*ientry),
            r matches Ok(e) ==> spec_entry_of(e, *ientry),
            r is Err ==> r == Err::<FileEntry, RestoreError>(RestoreError::SnapshotInvalid),
    {
        let mut block_lists: Vec<BlockIdHash> = Vec::new();
        match &ientry.blocklists {
            Some(blocks) => {
                let mut i: usize = 0;
                while i < blocks.len()
                    invariant
                        0 <= i <= blocks@.len(),
                        ientry.blocklists matches Some(bls) && bls@ == blocks@,
                        block_lists@.len() == i,
                        forall|j: int|
                            0 <= j < i ==> (#[trigger] block_lists@[j]).wf() && spec_b64_encode(
                                Base64Alphabet::Standard,
                                block_lists@[j]@,
                            ) == spec_utf8(blocks@[j]@),
                    decreases blocks@.len() - i,
                {
                    let block: &String = &blocks[i];
                    match BlockIdHash::from_base64(block.as_str()) {
                        Some(h) => {
                            block_lists.push(h);
                        },
                        None => {
                            proof {
                                assert(!spec_is_b64_digest(
                                    Base64Alphabet::Standard,
                                    spec_utf8(blocks@[i as int]@),
                                ));
                                assert(!spec_blocklists_ok(*ientry));
                            }
                            return Err(RestoreError::SnapshotInvalid);
                        },
                    }
                    i = i + 1;
                }
                proof {
                    assert forall|j: int| 0 <= j < blocks@.len() implies spec_is_b64_digest(
                        Base64Alphabet::Standard,
                        spec_utf8(#[trigger] blocks@[j]@),
                    ) by {
                        assert(spec_b64_encode(Base64Alphabet::Standard, block_lists@[j]@)
                            == spec_utf8(blocks@[j]@));
                        assert(block_lists@[j]@.len() == 32);
                    }
                }
            },
            None => {},
        }
        let file_kind = String::from_str("File");
        let folder_kind = String::from_str("Folder");
        let file_type: FileType = if ientry.filetype == file_kind {
            let hash = match &ientry.hash {
                Some(hash_str) => match BlockIdHash::from_base64(hash_str.as_str()) {
                    Some(h) => h,
                    None => {
                        return Err(RestoreError::SnapshotInvalid);
                    },
                },
                None => {
                    return Err(RestoreError::SnapshotInvalid);
                },
            };
            let size = match &ientry.size {
                Some(s) => {
                    if *s < 0 {
                        return Err(RestoreError::SnapshotInvalid);
                    }
                    *s
                },
                None => {
                    return Err(RestoreError::SnapshotInvalid);
                },
            };
            let time = match &ientry.time {
                Some(t) => t.clone(),
                None => {
                    return Err(RestoreError::SnapshotInvalid);
                },
            };
            FileType::File { hash, size, time }
        } else if ientry.filetype == folder_kind {
            match &ientry.metablockhash {
                Some(m) => FileType::Folder { metablockhash: m.clone() },
                None => {
                    return Err(RestoreError::SnapshotInvalid);
                },
            }
        } else {
            FileType::SymLink
        };
        Ok(
            FileEntry {
                path: ientry.path.clone(),
                metahash: ientry.metahash.clone(),
                metasize: ientry.metasize,
                file_type,
                block_lists,
            },
        )
    }
}

/// The parsed snapshot: its rows in file order.
#[derive(Debug, Clone)]
pub struct FileEntries {
    pub entries: Vec<FileEntry>,
}

impl FileEntries {
    /// Every entry is well formed.
    pub open spec fn wf(&self) -> bool {
        forall|i: int| 0 <= i < self.entries@.len() ==> (#[trigger] self.entries@[i]).wf()
    }
}

/// Projects the raw snapshot rows to validated file entries, in order;
/// fails on the first invalid row.
pub fn parse_dlist_entries(list: &Vec<IEntry>) -> (r: Result<FileEntries, RestoreError>)
    ensures
        r is Ok <==> (forall|i: int| 0 <= i < list@.len() ==> spec_ientry_ok(#[trigger] list@[i])),
        r matches Ok(fe) ==> {
            &&& fe.wf()
            &&& fe.entries@.len() == list@.len()
            &&& forall|i: int|
                0 <= i < list@.len() ==> spec_entry_of(#[trigger] fe.entries@[i], list@[i])
        },
        r is Err ==> r == Err::<FileEntries, RestoreError>(RestoreError::SnapshotInvalid),
{
    let mut entries: Vec<FileEntry> = Vec::new();
    let mut i: usize = 0;
    while i < list.len()
        invariant
            0 <= i <= list@.len(),
            entries@.len() == i,
            forall|j: int| 0 <= j < i ==> spec_ientry_ok(#[trigger] list@[j]),
            forall|j: int| 0 <= j < i ==> spec_entry_of(#[trigger] entries@[j], list@[j]),
        decreases list@.len() - i,
    {
        match FileEntry::from_ientry(&list[i]) {
            Ok(e) => {
                entries.push(e);
            },
            Err(err) => {
                return Err(err);
            },
        }
        i = i + 1;
    }
    proof {
        assert forall|i: int| 0 <= i < entries@.len() implies (#[trigger] entries@[i]).wf() by {
            assert(spec_entry_of(entries@[i], list@[i]));
        }
    }
    Ok(FileEntries { entries })
}

} // verus!
