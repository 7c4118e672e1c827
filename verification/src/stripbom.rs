use vstd::prelude::*;

verus! {

/// True when the byte sequence begins with the UTF-8 byte order mark
/// `EF BB BF`.
pub open spec fn spec_starts_with_bom(s: Seq<u8>) -> bool {
    s.len() >= 3 && s[0] == 0xEFu8 && s[1] == 0xBBu8 && s[2] == 0xBFu8
}

/// The byte sequence with a leading UTF-8 byte order mark removed; a no-op
/// when no byte order mark is present.
pub open spec fn spec_strip_bom(s: Seq<u8>) -> Seq<u8> {
    if spec_starts_with_bom(s) {
        s.skip(3)
    } else {
        s
    }
}

/// The character sequence with a leading U+FEFF removed; a no-op when the
/// sequence does not begin with one.
pub open spec fn spec_strip_bom_chars(s: Seq<char>) -> Seq<char> {
    if s.len() >= 1 && s[0] == '\u{feff}' {
        s.skip(1)
    } else {
        s
    }
}

/// Stripping the byte order mark from a sequence that does not begin with
/// one is a no-op. On a sequence that begins with two marks, stripping twice
/// removes both, so only this conditional form holds.
pub proof fn lemma_strip_bom_noop(s: Seq<u8>)
    requires
        !spec_starts_with_bom(s),
    ensures
        spec_strip_bom(s) == s,
{
}

/// Stripping a leading U+FEFF from a string that does not begin with one is
/// a no-op.
pub proof fn lemma_strip_bom_chars_noop(s: Seq<char>)
    requires
        s.len() == 0 || s[0] != '\u{feff}',
    ensures
        spec_strip_bom_chars(s) == s,
{
}

pub fn starts_with_bom_bytes(s: &[u8]) -> (r: bool)
    ensures
        r == spec_starts_with_bom(s@),
{
    s.len() >= 3 && s[0] == 0xEF && s[1] == 0xBB && s[2] == 0xBF
}

/// Removes a leading byte order mark from a fully buffered reader's bytes,
/// consuming the three mark bytes when they are present.
pub fn strip_bom_from_bufread(reader: &mut Vec<u8>)
    ensures
        final(reader)@ == spec_strip_bom(old(reader)@),
{
    if starts_with_bom_bytes(reader.as_slice()) {
        let mut out: Vec<u8> = Vec::new();
        let mut i: usize = 3;
        while i < reader.len()
            invariant
                3 <= i <= reader.len(),
                reader@ == old(reader)@,
                out@ == reader@.subrange(3, i as int),
            decreases reader.len() - i,
        {
            let b = reader[i];
            out.push(b);
            i = i + 1;
        }
        assert(out@ == reader@.skip(3));
        *reader = out;
    }
}

/// Removal of a leading U+FEFF from a string.
pub trait StripBom {
    /// The characters that `strip_bom` inspects.
    spec fn bom_chars(&self) -> Seq<char>;

    /// The string with a leading U+FEFF removed; otherwise a copy.
    fn strip_bom(&self) -> (r: String)
        ensures
            r@ == spec_strip_bom_chars(self.bom_chars()),
    ;
}

impl StripBom for String {
    open spec fn bom_chars(&self) -> Seq<char> {
        self@
    }

    fn strip_bom(&self) -> (r: String) {
        let n = self.as_str().unicode_len();
        if n >= 1 && self.as_str().get_char(0) == '\u{feff}' {
            self.as_str().substring_char(1, n).to_owned()
        } else {
            self.clone()
        }
    }
}

/// Removal of a leading UTF-8 byte order mark from a byte sequence.
pub trait StripBomBytes {
    /// The bytes that `strip_bom` inspects.
    spec fn bom_bytes(&self) -> Seq<u8>;

    /// The bytes with a leading byte order mark removed; otherwise a copy.
    fn strip_bom(&self) -> (r: Vec<u8>)
        ensures
            r@ == spec_strip_bom(self.bom_bytes()),
    ;
}

impl StripBomBytes for Vec<u8> {
    open spec fn bom_bytes(&self) -> Seq<u8> {
        self@
    }

    fn strip_bom(&self) -> (r: Vec<u8>) {
        let mut out: Vec<u8> = Vec::new();
        let start: usize = if starts_with_bom_bytes(self.as_slice()) {
            3
        } else {
            0
        };
        let mut i: usize = start;
        while i < self.len()
            invariant
                start <= i <= self.len(),
                start == 3 || start == 0,
                start == 3 ==> spec_starts_with_bom(self@),
                start == 0 ==> !spec_starts_with_bom(self@),
                out@ == self@.subrange(start as int, i as int),
            decreases self.len() - i,
        {
            let b = self[i];
            out.push(b);
            i = i + 1;
        }
        assert(spec_starts_with_bom(self@) ==> out@ == self@.skip(3));
        assert(!spec_starts_with_bom(self@) ==> out@ == self@.skip(0));
        assert(self@.skip(0) == self@);
        out
    }
}

} // verus!
