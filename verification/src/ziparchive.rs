use vstd::prelude::*;

verus! {

#[verifier::external_type_specification]
#[verifier::external_body]
#[verifier::reject_recursive_types(T)]
pub struct ExCursor<T>(std::io::Cursor<T>);

#[verifier::external_type_specification]
#[verifier::external_body]
#[verifier::reject_recursive_types(R)]
pub struct ExZipArchive<R>(zip::ZipArchive<R>);

#[verifier::external_type_specification]
#[verifier::external_body]
pub struct ExZipError(zip::result::ZipError);

/// A read handle over one data archive held in memory.
pub type ArchiveReader = zip::ZipArchive<std::io::Cursor<Vec<u8>>>;

/// The entry names of the archive, as UTF-8 bytes, in central-directory
/// order. Duplicate names are merged by the reader, so each name appears
/// once.
pub uninterp spec fn zip_entry_names(z: ArchiveReader) -> Seq<Seq<u8>>;

/// The decompressed bytes of each entry, keyed by entry name.
pub uninterp spec fn zip_entry_contents(z: ArchiveReader) -> Map<Seq<u8>, Seq<u8>>;

/// Whether the named entry of the archive can be read through to its end:
/// its stored data decompresses and passes the checksum. A function of the
/// in-memory archive and the name alone.
pub uninterp spec fn zip_entry_readable(z: ArchiveReader, name: Seq<u8>) -> bool;

/// Whether the bytes parse as a zip archive. Parsing is a function of the
/// bytes alone.
pub uninterp spec fn zip_parses(data: Seq<u8>) -> bool;

/// The entry names of the archive the bytes parse to.
pub uninterp spec fn zip_names_of(data: Seq<u8>) -> Seq<Seq<u8>>;

/// The entry bytes of the archive the bytes parse to, keyed by name.
pub uninterp spec fn zip_contents_of(data: Seq<u8>) -> Map<Seq<u8>, Seq<u8>>;

/// Which entries of the archive the bytes parse to are readable.
pub uninterp spec fn zip_readable(data: Seq<u8>, name: Seq<u8>) -> bool;

/// Whether every byte is ASCII; entry names handed to the archive reader
/// must be, so that they compare byte for byte against stored names.
pub open spec fn is_ascii_bytes(s: Seq<u8>) -> bool {
    forall|i: int| 0 <= i < s.len() ==> s[i] < 128
}

/// Checks that every byte is ASCII.
pub fn check_ascii_bytes(s: &[u8]) -> (r: bool)
    ensures
        r == is_ascii_bytes(s@),
{
    let mut i: usize = 0;
    while i < s.len()
        invariant
            0 <= i <= s@.len(),
            forall|j: int| 0 <= j < i ==> s@[j] < 128,
        decreases s@.len() - i,
    {
        if s[i] >= 128 {
            return false;
        }
        i = i + 1;
    }
    true
}

/// Byte-for-byte equality of two slices.
pub fn bytes_eq(a: &[u8], b: &[u8]) -> (r: bool)
    ensures
        r == (a@ == b@),
{
    if a.len() != b.len() {
        proof {
            assert(a@ != b@) by {
                if a@ == b@ {
                    assert(a@.len() == b@.len());
                }
            }
        }
        return false;
    }
    let mut i: usize = 0;
    while i < a.len()
        invariant
            0 <= i <= a@.len(),
            a@.len() == b@.len(),
            forall|j: int| 0 <= j < i ==> a@[j] == b@[j],
        decreases a@.len() - i,
    {
        if a[i] != b[i] {
            return false;
        }
        i = i + 1;
    }
    proof {
        assert(a@ =~= b@);
    }
    true
}

/// Lexicographic order on byte sequences.
pub open spec fn spec_bytes_le(a: Seq<u8>, b: Seq<u8>) -> bool
    decreases a.len(),
{
    if a.len() == 0 {
        true
    } else if b.len() == 0 {
        false
    } else if a[0] < b[0] {
        true
    } else if a[0] > b[0] {
        false
    } else {
        spec_bytes_le(a.skip(1), b.skip(1))
    }
}

/// Byte order is total.
pub proof fn lemma_bytes_le_total(a: Seq<u8>, b: Seq<u8>)
    ensures
        spec_bytes_le(a, b) || spec_bytes_le(b, a),
    decreases a.len(),
{
    if a.len() > 0 && b.len() > 0 && a[0] == b[0] {
        lemma_bytes_le_total(a.skip(1), b.skip(1));
    }
}

/// Byte order is transitive.
pub proof fn lemma_bytes_le_trans(a: Seq<u8>, b: Seq<u8>, c: Seq<u8>)
    requires
        spec_bytes_le(a, b),
        spec_bytes_le(b, c),
    ensures
        spec_bytes_le(a, c),
    decreases a.len(),
{
    if a.len() > 0 && b.len() > 0 && c.len() > 0 && a[0] == b[0] && b[0] == c[0] {
        lemma_bytes_le_trans(a.skip(1), b.skip(1), c.skip(1));
    }
}

/// Byte order is antisymmetric: mutual order means equality.
pub proof fn lemma_bytes_le_antisym(a: Seq<u8>, b: Seq<u8>)
    requires
        spec_bytes_le(a, b),
        spec_bytes_le(b, a),
    ensures
        a == b,
    decreases a.len(),
{
    if a.len() == 0 {
        assert(b.len() == 0);
        assert(a =~= b);
    } else {
        assert(b.len() > 0);
        assert(a[0] == b[0]);
        lemma_bytes_le_antisym(a.skip(1), b.skip(1));
        assert forall|i: int| 0 <= i < a.len() implies a[i] == b[i] by {
            if i > 0 {
                assert(a[i] == a.skip(1)[i - 1]);
                assert(b[i] == b.skip(1)[i - 1]);
            }
        }
        assert(a =~= b);
    }
}

/// Lexicographic comparison of byte strings.
pub fn bytes_le(a: &[u8], b: &[u8]) -> (r: bool)
    ensures
        r == spec_bytes_le(a@, b@),
{
    let mut i: usize = 0;
    proof {
        assert(a@.skip(0) == a@);
        assert(b@.skip(0) == b@);
    }
    while i < a.len() && i < b.len()
        invariant
            0 <= i <= a@.len(),
            i <= b@.len(),
            forall|j: int| 0 <= j < i ==> a@[j] == b@[j],
            spec_bytes_le(a@, b@) == spec_bytes_le(a@.skip(i as int), b@.skip(i as int)),
            spec_bytes_le(b@, a@) == spec_bytes_le(b@.skip(i as int), a@.skip(i as int)),
        decreases a@.len() - i,
    {
        if a[i] < b[i] {
            return true;
        }
        if a[i] > b[i] {
            return false;
        }
        proof {
            assert(a@.skip(i as int).skip(1) == a@.skip(i as int + 1));
            assert(b@.skip(i as int).skip(1) == b@.skip(i as int + 1));
        }
        i = i + 1;
    }
    proof {
        if i >= a@.len() {
            assert(a@.skip(i as int).len() == 0);
        } else {
            assert(b@.skip(i as int).len() == 0);
            assert(a@.skip(i as int).len() > 0);
        }
    }
    a.len() <= b.len()
}

/// Relies on `zip::ZipArchive::new`: parses the central directory of an
/// archive held in memory and fails exactly when the bytes do not parse.
/// The archive it yields is a function of the bytes, so its names, contents
/// and readability are the bytes' own.
#[verifier::external_body]
pub(crate) fn zip_open(data: Vec<u8>) -> (r: Result<ArchiveReader, zip::result::ZipError>)
    ensures
        r is Ok ==> zip_parses(data@),
        r is Err ==> !zip_parses(data@),
        r matches Ok(z) ==> {
            &&& zip_entry_names(z) == zip_names_of(data@)
            &&& zip_entry_contents(z) == zip_contents_of(data@)
            &&& (forall|name: Seq<u8>|
                #[trigger] zip_entry_readable(z, name) <==> zip_readable(data@, name))
        },
{
    zip::ZipArchive::new(std::io::Cursor::new(data))
}

/// Relies on `zip::ZipArchive::len`: the number of entries in the central
/// directory.
#[verifier::external_body]
pub(crate) fn zip_len(z: &ArchiveReader) -> (r: usize)
    ensures
        r == zip_entry_names(*z).len(),
{
    z.len()
}

/// Relies on `zip::ZipArchive::name_for_index`: the entry name at a
/// central-directory position.
#[verifier::external_body]
pub(crate) fn zip_name_at(z: &ArchiveReader, i: usize) -> (r: Vec<u8>)
    requires
        i < zip_entry_names(*z).len(),
    ensures
        r@ == zip_entry_names(*z)[i as int],
{
    match z.name_for_index(i) {
        Some(name) => name.as_bytes().to_vec(),
        None => Vec::new(),
    }
}

/// Relies on `zip::ZipArchive::index_for_name`: the central-directory
/// position of the entry with this name, if one exists. The name must be
/// ASCII, so that it can be compared byte for byte against stored names.
#[verifier::external_body]
pub(crate) fn zip_index_of(z: &ArchiveReader, name: &[u8]) -> (r: Option<usize>)
    requires
        is_ascii_bytes(name@),
    ensures
        match r {
            Some(i) => i < zip_entry_names(*z).len() && zip_entry_names(*z)[i as int] == name@,
            None => !zip_entry_names(*z).contains(name@),
        },
{
    match std::str::from_utf8(name) {
        Ok(s) => z.index_for_name(s),
        Err(_) => None,
    }
}

/// Relies on `zip::ZipArchive::index_for_name`: whether an entry with this
/// ASCII name exists.
#[verifier::external_body]
pub(crate) fn zip_contains_name(z: &ArchiveReader, name: &[u8]) -> (r: bool)
    requires
        is_ascii_bytes(name@),
    ensures
        r == zip_entry_names(*z).contains(name@),
{
    match std::str::from_utf8(name) {
        Ok(s) => z.index_for_name(s).is_some(),
        Err(_) => false,
    }
}

/// Relies on `zip::ZipArchive::by_name` and `std::io::Read::read_to_end`, on
/// a clone of the reader: the entry directory is shared, but the in-memory
/// archive bytes are copied, once per read — sharing them would need a
/// reader type of its own. Decompresses the named entry and appends its
/// bytes to `out`.
/// Reading an in-memory archive is deterministic: it succeeds exactly when
/// the name is present and its entry is readable. On failure `out` is
/// untouched.
#[verifier::external_body]
pub(crate) fn zip_read_entry(z: &ArchiveReader, name: &[u8], out: &mut Vec<u8>) -> (r: Result<
    usize,
    zip::result::ZipError,
>)
    requires
        is_ascii_bytes(name@),
    ensures
        r is Ok ==> zip_entry_names(*z).contains(name@) && zip_entry_readable(*z, name@),
        r is Err ==> !(zip_entry_names(*z).contains(name@) && zip_entry_readable(*z, name@)),
        r matches Ok(n) ==> {
            &&& final(out)@ == old(out)@ + zip_entry_contents(*z)[name@]
            &&& n == zip_entry_contents(*z)[name@].len()
        },
        r is Err ==> final(out)@ == old(out)@,
{
    let s = match std::str::from_utf8(name) {
        Ok(s) => s,
        Err(_) => return Err(zip::result::ZipError::FileNotFound),
    };
    let mut reader = z.clone();
    let mut entry = reader.by_name(s)?;
    let mut tmp: Vec<u8> = Vec::new();
    match std::io::Read::read_to_end(&mut entry, &mut tmp) {
        Ok(n) => {
            out.extend_from_slice(&tmp);
            Ok(n)
        },
        Err(e) => Err(zip::result::ZipError::Io(e)),
    }
}

/// The path of one data archive.
#[derive(Debug)]
pub struct ZipLocation {
    pub path: String,
}

impl Clone for ZipLocation {
    fn clone(&self) -> (r: Self)
        ensures
            r == *self,
    {
        ZipLocation { path: self.path.clone() }
    }
}

/// Where one block lives: which data archive, and which entry inside it.
/// `archive_index` is the archive's position in the registry; the ordering
/// on locations is lexicographic on `(archive path, file_index)`, which is
/// what "sequential on disk" means.
#[derive(Debug)]
pub struct BlockLocation {
    pub ziplocation: ZipLocation,
    pub archive_index: usize,
    pub file_index: u32,
}

impl Clone for BlockLocation {
    fn clone(&self) -> (r: Self)
        ensures
            r == *self,
    {
        BlockLocation {
            ziplocation: self.ziplocation.clone(),
            archive_index: self.archive_index,
            file_index: self.file_index,
        }
    }
}

/// The archive-order relation on block locations: first the archive's path
/// (byte-wise), then the entry index inside the archive. This total order
/// defines "sequential on disk".
pub open spec fn spec_loc_le(a: BlockLocation, b: BlockLocation) -> bool {
    if vstd::utf8::encode_utf8(a.ziplocation.path@) == vstd::utf8::encode_utf8(
        b.ziplocation.path@,
    ) {
        a.file_index <= b.file_index
    } else {
        spec_bytes_le(
            vstd::utf8::encode_utf8(a.ziplocation.path@),
            vstd::utf8::encode_utf8(b.ziplocation.path@),
        )
    }
}

impl BlockLocation {
    /// Compares two locations in archive order: archive paths first, equal
    /// paths fall through to the entry index.
    pub fn cmp(&self, other: &Self) -> (r: core::cmp::Ordering)
        ensures
            r is Less ==> spec_loc_le(*self, *other) && !spec_loc_le(*other, *self),
            r is Greater ==> spec_loc_le(*other, *self) && !spec_loc_le(*self, *other),
            r is Equal <==> (vstd::utf8::encode_utf8(self.ziplocation.path@)
                == vstd::utf8::encode_utf8(other.ziplocation.path@) && self.file_index
                == other.file_index),
    {
        let pa = self.ziplocation.path.as_str().as_bytes();
        let pb = other.ziplocation.path.as_str().as_bytes();
        if bytes_eq(pa, pb) {
            if self.file_index < other.file_index {
                core::cmp::Ordering::Less
            } else if self.file_index > other.file_index {
                core::cmp::Ordering::Greater
            } else {
                core::cmp::Ordering::Equal
            }
        } else if bytes_le(pa, pb) {
            proof {
                lemma_bytes_le_antisym_contra(pa@, pb@);
            }
            core::cmp::Ordering::Less
        } else {
            proof {
                lemma_bytes_le_total(pa@, pb@);
            }
            core::cmp::Ordering::Greater
        }
    }

    /// Whether this location comes no later than `other` in archive order.
    pub fn le(&self, other: &Self) -> (r: bool)
        ensures
            r == spec_loc_le(*self, *other),
    {
        let pa = self.ziplocation.path.as_str().as_bytes();
        let pb = other.ziplocation.path.as_str().as_bytes();
        if bytes_eq(pa, pb) {
            self.file_index <= other.file_index
        } else {
            bytes_le(pa, pb)
        }
    }
}

/// Mutual byte order on distinct sequences is impossible.
proof fn lemma_bytes_le_antisym_contra(a: Seq<u8>, b: Seq<u8>)
    requires
        a != b,
        spec_bytes_le(a, b),
    ensures
        !spec_bytes_le(b, a),
{
    if spec_bytes_le(b, a) {
        lemma_bytes_le_antisym(a, b);
    }
}

/// One registered data archive: its path, its position in the registry, and
/// a reader over its contents.
pub struct ZipArchiveWrapper {
    pub ziplocation: ZipLocation,
    pub archive_index: usize,
    pub archive: ArchiveReader,
}

impl ZipArchiveWrapper {
    /// The entry names of this archive, in central-directory order.
    pub open spec fn names(&self) -> Seq<Seq<u8>> {
        zip_entry_names(self.archive)
    }

    /// The decompressed bytes of each entry, keyed by name.
    pub open spec fn contents(&self) -> Map<Seq<u8>, Seq<u8>> {
        zip_entry_contents(self.archive)
    }

    /// Looks an entry name up in this archive's directory and, when found,
    /// names the location of that entry.
    pub fn get_block_location(&self, block_base64: &[u8]) -> (r: Option<BlockLocation>)
        ensures
            match r {
                Some(loc) => {
                    &&& is_ascii_bytes(block_base64@)
                    &&& loc.file_index < self.names().len()
                    &&& self.names()[loc.file_index as int] == block_base64@
                    &&& loc.archive_index == self.archive_index
                    &&& loc.ziplocation.path@ == self.ziplocation.path@
                },
                None => !(is_ascii_bytes(block_base64@) && self.names().contains(block_base64@))
                    || self.names().len() > u32::MAX,
            },
    {
        if !check_ascii_bytes(block_base64) {
            return None;
        }
        match zip_index_of(&self.archive, block_base64) {
            Some(index) => {
                if index <= u32::MAX as usize {
                    Some(
                        BlockLocation {
                            ziplocation: self.ziplocation.clone(),
                            archive_index: self.archive_index,
                            file_index: index as u32,
                        },
                    )
                } else {
                    None
                }
            },
            None => None,
        }
    }

    /// Whether this archive holds an entry with the given name.
    pub fn contains_file_name(&self, block_base64: &[u8]) -> (r: bool)
        ensures
            r == (is_ascii_bytes(block_base64@) && self.names().contains(block_base64@)),
    {
        if !check_ascii_bytes(block_base64) {
            return false;
        }
        zip_contains_name(&self.archive, block_base64)
    }
}

} // verus!
