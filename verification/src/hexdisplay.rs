use crate::ziparchive::is_ascii_bytes;
use vstd::prelude::*;

verus! {

/// The lower-case hex digits, as a table of ASCII codes.
pub const HEX_CHARS_LOWER: [u8; 16] = [48, 49, 50, 51, 52, 53, 54, 55, 56, 57, 97, 98, 99, 100,
    101, 102];

/// The ASCII code of a nibble's lower-case hex digit.
pub open spec fn spec_hex_nibble_lower(v: u8) -> u8 {
    if v < 10 {
        (48 + v as int) as u8
    } else {
        (87 + v as int) as u8
    }
}

/// Lower-case hex of a byte sequence, two digits per byte.
pub open spec fn spec_hex_lower(data: Seq<u8>) -> Seq<u8>
    decreases data.len(),
{
    if data.len() == 0 {
        Seq::empty()
    } else {
        seq![spec_hex_nibble_lower(data[0] >> 4), spec_hex_nibble_lower(data[0] & 0x0f)]
            + spec_hex_lower(data.skip(1))
    }
}

/// One byte escaped for a quoted dump: printable bytes other than `"` stand
/// for themselves, everything else becomes `\xhh`.
pub open spec fn spec_escape_byte(b: u8) -> Seq<u8> {
    if b > 32 && b < 126 && b != 34 {
        seq![b]
    } else {
        seq![92u8, 120u8, spec_hex_nibble_lower(b >> 4), spec_hex_nibble_lower(b & 0x0f)]
    }
}

/// A whole byte sequence escaped as consecutive `\xhh` groups.
pub open spec fn spec_escape_whole(data: Seq<u8>) -> Seq<u8>
    decreases data.len(),
{
    if data.len() == 0 {
        Seq::empty()
    } else {
        seq![92u8, 120u8, spec_hex_nibble_lower(data[0] >> 4), spec_hex_nibble_lower(
            data[0] & 0x0f,
        )] + spec_escape_whole(data.skip(1))
    }
}

/// A byte sequence escaped byte by byte.
pub open spec fn spec_escape_raw(data: Seq<u8>) -> Seq<u8>
    decreases data.len(),
{
    if data.len() == 0 {
        Seq::empty()
    } else {
        spec_escape_byte(data[0]) + spec_escape_raw(data.skip(1))
    }
}

/// Relies on std `String::from_utf8`: ASCII bytes are valid UTF-8 and become
/// the string whose characters carry exactly those codes, all below 128.
#[verifier::external_body]
pub(crate) fn ascii_string_from_bytes(v: &[u8]) -> (r: String)
    requires
        is_ascii_bytes(v@),
    ensures
        r@.len() == v@.len(),
        forall|i: int| 0 <= i < v@.len() ==> r@[i] as u8 == v@[i],
        forall|i: int| 0 <= i < v@.len() ==> (r@[i] as u32) < 128,
{
    match String::from_utf8(v.to_vec()) {
        Ok(s) => s,
        Err(_) => String::new(),
    }
}

/// The two lower-case hex digits of a byte, looked up in the caller's table.
pub fn byte2hex(byte: u8, table: &[u8; 16]) -> (r: (u8, u8))
    ensures
        r.0 == table@[(byte >> 4) as int],
        r.1 == table@[(byte & 0x0f) as int],
{
    proof {
        assert(byte >> 4 < 16 && byte & 0x0f < 16) by (bit_vector);
    }
    let high = table[(byte >> 4) as usize];
    let low = table[(byte & 0x0f) as usize];
    (high, low)
}

/// The table digit of a nibble is the arithmetic digit.
proof fn lemma_table_matches_spec(v: u8)
    requires
        v < 16,
    ensures
        HEX_CHARS_LOWER@[v as int] == spec_hex_nibble_lower(v),
{
}

/// Appends one escaped byte to an output buffer: the byte itself when it is
/// printable and not `"`, else `\xhh`.
pub fn escape_byte_maybe(out: &mut Vec<u8>, b: u8)
    ensures
        final(out)@ == old(out)@ + spec_escape_byte(b),
{
    if b > 32 && b < 126 && b != 34 {
        out.push(b);
    } else {
        let (high, low) = byte2hex(b, &HEX_CHARS_LOWER);
        proof {
            assert(b >> 4 < 16 && b & 0x0f < 16) by (bit_vector);
            lemma_table_matches_spec(b >> 4);
            lemma_table_matches_spec(b & 0x0f);
        }
        out.push(92);
        out.push(120);
        out.push(high);
        out.push(low);
    }
}

/// Lower-case hex of the bytes, appended to an output buffer.
fn push_hex_lower(out: &mut Vec<u8>, data: &[u8])
    ensures
        final(out)@ == old(out)@ + spec_hex_lower(data@),
{
    let ghost orig = out@;
    let mut i: usize = 0;
    proof {
        assert(data@.skip(0) == data@);
    }
    while i < data.len()
        invariant
            0 <= i <= data@.len(),
            out@ + spec_hex_lower(data@.skip(i as int)) == orig + spec_hex_lower(data@),
        decreases data@.len() - i,
    {
        let b = data[i];
        let (high, low) = byte2hex(b, &HEX_CHARS_LOWER);
        proof {
            assert(b >> 4 < 16 && b & 0x0f < 16) by (bit_vector);
            lemma_table_matches_spec(b >> 4);
            lemma_table_matches_spec(b & 0x0f);
            assert(data@.skip(i as int)[0] == data@[i as int]);
            assert(data@.skip(i as int).skip(1) == data@.skip(i as int + 1));
        }
        out.push(high);
        out.push(low);
        i = i + 1;
    }
    proof {
        assert(data@.skip(data@.len() as int) =~= Seq::<u8>::empty());
        assert(out@ =~= orig + spec_hex_lower(data@));
    }
}

/// Bytes shown as lower-case hex, in place of `Display` formatting.
pub struct HexDisplayBytes<'a>(pub &'a [u8]);

impl<'a> HexDisplayBytes<'a> {
    /// The hex rendering, two lower-case digits per byte.
    pub fn to_string(&self) -> (r: String)
        ensures
            r@.len() == spec_hex_lower(self.0@).len(),
            forall|i: int| 0 <= i < r@.len() ==> r@[i] as u8 == spec_hex_lower(self.0@)[i],
    {
        let mut out: Vec<u8> = Vec::new();
        push_hex_lower(&mut out, self.0);
        proof {
            lemma_hex_lower_ascii(self.0@);
        }
        ascii_string_from_bytes(out.as_slice())
    }
}

/// Bytes shown as consecutive `\xhh` escapes, in place of `Display`
/// formatting.
pub struct EscapeWholeString<'a>(pub &'a [u8]);

impl<'a> EscapeWholeString<'a> {
    /// The escaped rendering, one `\xhh` group per byte.
    pub fn to_string(&self) -> (r: String)
        ensures
            r@.len() == spec_escape_whole(self.0@).len(),
            forall|i: int| 0 <= i < r@.len() ==> r@[i] as u8 == spec_escape_whole(self.0@)[i],
    {
        let data = self.0;
        let mut out: Vec<u8> = Vec::new();
        let mut i: usize = 0;
        proof {
            assert(data@.skip(0) == data@);
        }
        while i < data.len()
            invariant
                0 <= i <= data@.len(),
                out@ + spec_escape_whole(data@.skip(i as int)) == spec_escape_whole(data@),
            decreases data@.len() - i,
        {
            let b = data[i];
            let (high, low) = byte2hex(b, &HEX_CHARS_LOWER);
            proof {
                assert(b >> 4 < 16 && b & 0x0f < 16) by (bit_vector);
                lemma_table_matches_spec(b >> 4);
                lemma_table_matches_spec(b & 0x0f);
                assert(data@.skip(i as int)[0] == data@[i as int]);
                assert(data@.skip(i as int).skip(1) == data@.skip(i as int + 1));
            }
            out.push(92);
            out.push(120);
            out.push(high);
            out.push(low);
            i = i + 1;
        }
        proof {
            assert(data@.skip(data@.len() as int) =~= Seq::<u8>::empty());
            assert(out@ =~= spec_escape_whole(data@));
            lemma_escape_whole_ascii(data@);
        }
        ascii_string_from_bytes(out.as_slice())
    }
}

/// Bytes shown as a quoted string with non-printable bytes escaped, in place
/// of `Display` formatting.
pub struct EscapeRawString<'a>(pub &'a [u8]);

impl<'a> EscapeRawString<'a> {
    /// The quoted rendering: `"` around the bytes, each escaped if needed.
    pub fn to_string(&self) -> (r: String)
        ensures
            r@.len() == spec_escape_raw(self.0@).len() + 2,
            r@[0] as u8 == 34,
            r@[r@.len() - 1] as u8 == 34,
            forall|i: int|
                0 <= i < spec_escape_raw(self.0@).len() ==> r@[i + 1] as u8 == spec_escape_raw(
                    self.0@,
                )[i],
    {
        let data = self.0;
        let mut out: Vec<u8> = Vec::new();
        out.push(34);
        let mut i: usize = 0;
        proof {
            assert(data@.skip(0) == data@);
        }
        while i < data.len()
            invariant
                0 <= i <= data@.len(),
                out@.len() >= 1,
                out@[0] == 34u8,
                out@.skip(1) + spec_escape_raw(data@.skip(i as int)) == spec_escape_raw(data@),
            decreases data@.len() - i,
        {
            let b = data[i];
            proof {
                assert(data@.skip(i as int)[0] == data@[i as int]);
                assert(data@.skip(i as int).skip(1) == data@.skip(i as int + 1));
            }
            let ghost before = out@;
            escape_byte_maybe(&mut out, b);
            proof {
                assert(out@.skip(1) =~= before.skip(1) + spec_escape_byte(data@[i as int]));
            }
            i = i + 1;
        }
        out.push(34);
        proof {
            assert(data@.skip(data@.len() as int) =~= Seq::<u8>::empty());
            assert(out@.skip(1).take(out@.len() - 2) =~= spec_escape_raw(data@));
            lemma_escape_raw_ascii(data@);
            assert forall|j: int| 0 <= j < out@.len() implies out@[j] < 128 by {
                if 0 < j < out@.len() - 1 {
                    assert(out@[j] == out@.skip(1).take(out@.len() - 2)[j - 1]);
                    assert(out@[j] == spec_escape_raw(data@)[j - 1]);
                }
            }
        }
        let r = ascii_string_from_bytes(out.as_slice());
        proof {
            assert(forall|i: int|
                0 <= i < spec_escape_raw(self.0@).len() ==> #[trigger] r@[i + 1] as u8 == out@[i
                    + 1]);
            assert(out@[0] == 34u8);
            assert(out@[out@.len() - 1] == 34u8);
            assert(r@[0] as u8 == out@[0]);
            assert(r@[r@.len() - 1] as u8 == out@[out@.len() - 1]);
        }
        r
    }
}

/// Hex digits are ASCII.
proof fn lemma_hex_lower_ascii(data: Seq<u8>)
    ensures
        is_ascii_bytes(spec_hex_lower(data)),
        spec_hex_lower(data).len() == 2 * data.len(),
    decreases data.len(),
{
    if data.len() > 0 {
        lemma_hex_lower_ascii(data.skip(1));
        let b = data[0];
        assert(b >> 4 < 16 && b & 0x0f < 16) by (bit_vector);
        let rest = spec_hex_lower(data.skip(1));
        assert forall|i: int| 0 <= i < spec_hex_lower(data).len() implies spec_hex_lower(data)[i]
            < 128 by {
            if i >= 2 {
                assert(spec_hex_lower(data)[i] == rest[i - 2]);
            }
        }
    }
}

/// Whole-string escapes are ASCII.
proof fn lemma_escape_whole_ascii(data: Seq<u8>)
    ensures
        is_ascii_bytes(spec_escape_whole(data)),
        spec_escape_whole(data).len() == 4 * data.len(),
    decreases data.len(),
{
    if data.len() > 0 {
        lemma_escape_whole_ascii(data.skip(1));
        let b = data[0];
        assert(b >> 4 < 16 && b & 0x0f < 16) by (bit_vector);
        let rest = spec_escape_whole(data.skip(1));
        assert forall|i: int| 0 <= i < spec_escape_whole(data).len() implies spec_escape_whole(
            data,
        )[i] < 128 by {
            if i >= 4 {
                assert(spec_escape_whole(data)[i] == rest[i - 4]);
            }
        }
    }
}

/// Raw-string escapes are ASCII.
proof fn lemma_escape_raw_ascii(data: Seq<u8>)
    ensures
        is_ascii_bytes(spec_escape_raw(data)),
    decreases data.len(),
{
    if data.len() > 0 {
        lemma_escape_raw_ascii(data.skip(1));
        let b = data[0];
        let h = spec_escape_byte(b);
        assert(b >> 4 < 16 && b & 0x0f < 16) by (bit_vector);
        let rest = spec_escape_raw(data.skip(1));
        assert forall|i: int| 0 <= i < spec_escape_raw(data).len() implies spec_escape_raw(
            data,
        )[i] < 128 by {
            if i < h.len() {
                assert(spec_escape_raw(data)[i] == h[i]);
            } else {
                assert(spec_escape_raw(data)[i] == rest[i - h.len()]);
            }
        }
    }
}

} // verus!
