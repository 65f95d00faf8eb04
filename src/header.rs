use vstd::prelude::*;
use vstd::string::StringSliceAdditionalSpecFns;
use vstd::utf8::valid_utf8;

verus! {

/// Size in bytes of an encoded header.
pub const HEADER_SIZE: usize = 56;

/// Width in bytes of the name field.
pub const NAME_SIZE: usize = 24;

/// The format identifier, `LINUIZARCHIVEV01` in ASCII.
pub open spec fn magic() -> Seq<u8> {
    seq![76u8, 73, 78, 85, 73, 90, 65, 82, 67, 72, 73, 86, 69, 86, 48, 49]
}

/// The eight little-endian bytes of `v`.
pub open spec fn le_bytes(v: u64) -> Seq<u8> {
    seq![
        v as u8,
        (v >> 8u64) as u8,
        (v >> 16u64) as u8,
        (v >> 24u64) as u8,
        (v >> 32u64) as u8,
        (v >> 40u64) as u8,
        (v >> 48u64) as u8,
        (v >> 56u64) as u8,
    ]
}

/// The integer whose little-endian bytes are the first eight of `s`.
pub open spec fn le_value(s: Seq<u8>) -> u64
    recommends
        s.len() >= 8,
{
    (s[0] as u64) | ((s[1] as u64) << 8u64) | ((s[2] as u64) << 16u64) | ((s[3] as u64) << 24u64)
        | ((s[4] as u64) << 32u64) | ((s[5] as u64) << 40u64) | ((s[6] as u64) << 48u64) | ((
    s[7] as u64) << 56u64)
}

/// Reading back the little-endian bytes of `v` gives `v`.
pub proof fn lemma_le_value_of_bytes(v: u64)
    ensures
        le_value(le_bytes(v)) == v,
{
    let b = le_bytes(v);
    assert(b[0] == v as u8 && b[1] == (v >> 8u64) as u8 && b[2] == (v >> 16u64) as u8 && b[3] == (v
        >> 24u64) as u8 && b[4] == (v >> 32u64) as u8 && b[5] == (v >> 40u64) as u8 && b[6] == (v
        >> 48u64) as u8 && b[7] == (v >> 56u64) as u8);
    assert(((v as u8) as u64) | ((((v >> 8u64) as u8) as u64) << 8u64) | ((((v >> 16u64) as u8)
        as u64) << 16u64) | ((((v >> 24u64) as u8) as u64) << 24u64) | ((((v >> 32u64) as u8)
        as u64) << 32u64) | ((((v >> 40u64) as u8) as u64) << 40u64) | ((((v >> 48u64) as u8)
        as u64) << 48u64) | ((((v >> 56u64) as u8) as u64) << 56u64) == v) by (bit_vector);
}

/// Eight bytes are the little-endian bytes of the integer they encode.
pub proof fn lemma_le_bytes_of_value(s: Seq<u8>)
    requires
        s.len() == 8,
    ensures
        le_bytes(le_value(s)) == s,
{
    let (b0, b1, b2, b3, b4, b5, b6, b7) = (s[0], s[1], s[2], s[3], s[4], s[5], s[6], s[7]);
    let v = le_value(s);
    assert(v == (b0 as u64) | ((b1 as u64) << 8u64) | ((b2 as u64) << 16u64) | ((b3 as u64)
        << 24u64) | ((b4 as u64) << 32u64) | ((b5 as u64) << 40u64) | ((b6 as u64) << 48u64) | ((
    b7 as u64) << 56u64));
    assert(v as u8 == b0 && (v >> 8u64) as u8 == b1 && (v >> 16u64) as u8 == b2 && (v >> 24u64)
        as u8 == b3 && (v >> 32u64) as u8 == b4 && (v >> 40u64) as u8 == b5 && (v >> 48u64) as u8
        == b6 && (v >> 56u64) as u8 == b7) by (bit_vector)
        requires
            v == (b0 as u64) | ((b1 as u64) << 8u64) | ((b2 as u64) << 16u64) | ((b3 as u64)
                << 24u64) | ((b4 as u64) << 32u64) | ((b5 as u64) << 40u64) | ((b6 as u64)
                << 48u64) | ((b7 as u64) << 56u64),
    ;
    assert(le_bytes(v) =~= s);
}

/// `s` with its trailing zero bytes removed.
pub open spec fn trim_nul(s: Seq<u8>) -> Seq<u8>
    decreases s.len(),
{
    if s.len() > 0 && s.last() == 0 {
        trim_nul(s.drop_last())
    } else {
        s
    }
}

/// `name` followed by zero bytes up to the width of the name field.
pub open spec fn pad_name(name: Seq<u8>) -> Seq<u8> {
    name + Seq::new((NAME_SIZE - name.len()) as nat, |i: int| 0u8)
}

/// The encoded header with the given fields.
pub open spec fn header_bytes(magic: Seq<u8>, name: Seq<u8>, len: u64, next_file: u64) -> Seq<u8> {
    magic + name + le_bytes(len) + le_bytes(next_file)
}

/// The magic field of an encoded header.
pub open spec fn magic_field(b: Seq<u8>) -> Seq<u8> {
    b.subrange(0, 16)
}

/// The name field of an encoded header.
pub open spec fn name_field(b: Seq<u8>) -> Seq<u8> {
    b.subrange(16, 40)
}

/// The original payload length recorded in an encoded header.
pub open spec fn len_field(b: Seq<u8>) -> u64 {
    le_value(b.subrange(40, 48))
}

/// The stored payload length recorded in an encoded header.
pub open spec fn next_file_field(b: Seq<u8>) -> u64 {
    le_value(b.subrange(48, 56))
}

/// Each field of an encoded header reads back as the value it was encoded from.
pub proof fn lemma_header_bytes_fields(magic: Seq<u8>, name: Seq<u8>, len: u64, next_file: u64)
    requires
        magic.len() == 16,
        name.len() == NAME_SIZE,
    ensures
        header_bytes(magic, name, len, next_file).len() == HEADER_SIZE,
        magic_field(header_bytes(magic, name, len, next_file)) == magic,
        name_field(header_bytes(magic, name, len, next_file)) == name,
        len_field(header_bytes(magic, name, len, next_file)) == len,
        next_file_field(header_bytes(magic, name, len, next_file)) == next_file,
{
    let b = header_bytes(magic, name, len, next_file);
    assert(magic_field(b) =~= magic);
    assert(name_field(b) =~= name);
    assert(b.subrange(40, 48) =~= le_bytes(len));
    assert(b.subrange(48, 56) =~= le_bytes(next_file));
    lemma_le_value_of_bytes(len);
    lemma_le_value_of_bytes(next_file);
}

/// One record header: the format identifier, a zero-padded name, the length of
/// the original payload and the length of the payload as stored after it.
#[derive(Clone, Copy, Debug)]
pub struct Header {
    pub magic: [u8; 16],
    pub name: [u8; 24],
    pub len: u64,
    pub next_file: u64,
}

impl Header {
    /// The 56 bytes that encode this header.
    pub open spec fn spec_bytes(&self) -> Seq<u8> {
        header_bytes(self.magic@, self.name@, self.len, self.next_file)
    }

    /// Each field of a header reads back from its encoding.
    pub proof fn lemma_fields_of_bytes(&self)
        ensures
            self.spec_bytes().len() == HEADER_SIZE,
            magic_field(self.spec_bytes()) == self.magic@,
            name_field(self.spec_bytes()) == self.name@,
            len_field(self.spec_bytes()) == self.len,
            next_file_field(self.spec_bytes()) == self.next_file,
    {
        lemma_header_bytes_fields(self.magic@, self.name@, self.len, self.next_file);
    }

    /// A header is determined by its encoding: decoding the bytes of a header
    /// gives that header back.
    pub proof fn lemma_bytes_determine_header(h1: Header, h2: Header)
        requires
            h1.spec_bytes() == h2.spec_bytes(),
        ensures
            h1 == h2,
    {
        h1.lemma_fields_of_bytes();
        h2.lemma_fields_of_bytes();
        assert(h1.magic =~= h2.magic);
        assert(h1.name =~= h2.name);
    }

    /// Decodes a header from exactly `HEADER_SIZE` bytes; any other length is
    /// refused. Every bit pattern of the right length is a header.
    pub fn parse(bytes: &[u8]) -> (r: Option<Header>)
        ensures
            r is Some <==> bytes@.len() == HEADER_SIZE,
            r matches Some(h) ==> h.spec_bytes() == bytes@,
    {
        if bytes.len() != HEADER_SIZE {
            return None;
        }
        let mut magic = [0u8; 16];
        let mut i: usize = 0;
        while i < 16
            invariant
                bytes@.len() == HEADER_SIZE,
                i <= 16,
                forall|j: int| 0 <= j < i ==> magic@[j] == bytes@[j],
            decreases 16 - i,
        {
            magic[i] = bytes[i];
            i = i + 1;
        }
        let mut name = [0u8; 24];
        let mut k: usize = 0;
        while k < NAME_SIZE
            invariant
                bytes@.len() == HEADER_SIZE,
                k <= NAME_SIZE,
                forall|j: int| 0 <= j < k ==> name@[j] == bytes@[16 + j],
            decreases NAME_SIZE - k,
        {
            name[k] = bytes[16 + k];
            k = k + 1;
        }
        let len = read_u64_le(bytes, 40);
        let next_file = read_u64_le(bytes, 48);
        let h = Header { magic, name, len, next_file };
        proof {
            lemma_le_bytes_of_value(bytes@.subrange(40, 48));
            lemma_le_bytes_of_value(bytes@.subrange(48, 56));
            assert(magic@ =~= bytes@.subrange(0, 16));
            assert(name@ =~= bytes@.subrange(16, 40));
            assert(h.spec_bytes() =~= bytes@);
        }
        Some(h)
    }

    /// The 56 bytes that encode this header.
    pub fn to_bytes(&self) -> (r: Vec<u8>)
        ensures
            r@ == self.spec_bytes(),
    {
        let mut out: Vec<u8> = Vec::with_capacity(HEADER_SIZE);
        let mut i: usize = 0;
        while i < 16
            invariant
                i <= 16,
                out@ == self.magic@.take(i as int),
            decreases 16 - i,
        {
            out.push(self.magic[i]);
            i = i + 1;
            assert(out@ =~= self.magic@.take(i as int));
        }
        assert(self.magic@.take(16) =~= self.magic@);
        let mut k: usize = 0;
        while k < NAME_SIZE
            invariant
                k <= NAME_SIZE,
                out@ == self.magic@ + self.name@.take(k as int),
            decreases NAME_SIZE - k,
        {
            out.push(self.name[k]);
            k = k + 1;
            assert(out@ =~= self.magic@ + self.name@.take(k as int));
        }
        assert(self.name@.take(24) =~= self.name@);
        push_u64_le(&mut out, self.len);
        push_u64_le(&mut out, self.next_file);
        assert(out@ =~= self.spec_bytes());
        out
    }

    /// True iff the magic field is the format identifier.
    pub fn magic_is_valid(&self) -> (r: bool)
        ensures
            r == (self.magic@ == magic()),
    {
        let expected = magic_array();
        let mut i: usize = 0;
        while i < 16
            invariant
                i <= 16,
                expected@ == magic(),
                forall|j: int| 0 <= j < i ==> self.magic@[j] == magic()[j],
            decreases 16 - i,
        {
            if self.magic[i] != expected[i] {
                return false;
            }
            i = i + 1;
        }
        assert(self.magic@ =~= magic());
        true
    }
    /// The name field without its trailing zero bytes, read as UTF-8; the
    /// text "Unknown" where those bytes are not well-formed UTF-8.
    pub fn name(&self) -> (r: &str)
        ensures
            valid_utf8(trim_nul(self.name@)) ==> r.spec_bytes() == trim_nul(self.name@),
            !valid_utf8(trim_nul(self.name@)) ==> r@ == "Unknown"@,
    {
        let n = self.name_len();
        let (used, _) = self.name.as_slice().split_at(n);
        match utf8_str(used) {
            Some(text) => text,
            None => "Unknown",
        }
    }

    /// Number of bytes of the name field before its trailing zero bytes.
    pub fn name_len(&self) -> (r: usize)
        ensures
            r <= NAME_SIZE,
            self.name@.take(r as int) == trim_nul(self.name@),
    {
        let mut n: usize = NAME_SIZE;
        assert(self.name@.take(24) =~= self.name@);
        while n > 0 && self.name[n - 1] == 0
            invariant
                n <= NAME_SIZE,
                trim_nul(self.name@.take(n as int)) == trim_nul(self.name@),
            decreases n,
        {
            assert(self.name@.take(n as int).drop_last() =~= self.name@.take(n - 1));
            n = n - 1;
        }
        n
    }

    /// The original payload length; `None` where the header records zero,
    /// which no well-formed record does.
    pub fn len(&self) -> (r: Option<u64>)
        ensures
            r == (if self.len == 0 { None } else { Some(self.len) }),
    {
        if self.len == 0 {
            None
        } else {
            Some(self.len)
        }
    }
}

/// Relies on core::str::from_utf8: it accepts exactly the well-formed UTF-8
/// byte strings and hands back a view of those same bytes.
#[verifier::external_body]
fn utf8_str(b: &[u8]) -> (r: Option<&str>)
    ensures
        r is Some <==> valid_utf8(b@),
        r matches Some(s) ==> s.spec_bytes() == b@,
{
    core::str::from_utf8(b).ok()
}

/// The format identifier as an array.
pub(crate) fn magic_array() -> (r: [u8; 16])
    ensures
        r@ == magic(),
{
    let r = [76u8, 73, 78, 85, 73, 90, 65, 82, 67, 72, 73, 86, 69, 86, 48, 49];
    assert(r@ =~= magic());
    r
}

/// Reads the little-endian integer stored at `at`.
fn read_u64_le(b: &[u8], at: usize) -> (r: u64)
    requires
        at + 8 <= b@.len(),
    ensures
        r == le_value(b@.subrange(at as int, at + 8)),
{
    let s = Ghost(b@.subrange(at as int, at + 8));
    assert(s@[0] == b@[at as int] && s@[7] == b@[at + 7]);
    (b[at] as u64) | ((b[at + 1] as u64) << 8u64) | ((b[at + 2] as u64) << 16u64) | ((b[at + 3]
        as u64) << 24u64) | ((b[at + 4] as u64) << 32u64) | ((b[at + 5] as u64) << 40u64) | ((b[at
        + 6] as u64) << 48u64) | ((b[at + 7] as u64) << 56u64)
}

/// Appends the little-endian bytes of `v`.
fn push_u64_le(out: &mut Vec<u8>, v: u64)
    ensures
        final(out)@ == old(out)@ + le_bytes(v),
{
    out.push(v as u8);
    out.push((v >> 8u64) as u8);
    out.push((v >> 16u64) as u8);
    out.push((v >> 24u64) as u8);
    out.push((v >> 32u64) as u8);
    out.push((v >> 40u64) as u8);
    out.push((v >> 48u64) as u8);
    out.push((v >> 56u64) as u8);
    assert(final(out)@ =~= old(out)@ + le_bytes(v));
}

} // verus!
