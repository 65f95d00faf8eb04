use vstd::prelude::*;
use vstd::string::StringSliceAdditionalSpecFns;
use crate::header::{
    Header, NAME_SIZE, magic, magic_array, pad_name, header_bytes, name_field, len_field,
    lemma_header_bytes_fields,
};
use crate::reader::{
    ReadError, read_seq, concat_records, well_formed_record, lemma_read_concat,
};

verus! {

/// How hard the compressor works, from no compression to the smallest output.
#[derive(Clone, Copy, Debug, PartialEq, Eq, Structural)]
pub enum CompressionLevel {
    NoCompression,
    BestSpeed,
    BestCompression,
    UberCompression,
    DefaultLevel,
    DefaultCompression,
}

impl CompressionLevel {
    /// The level number that the compressor takes.
    pub open spec fn spec_code(self) -> u8 {
        match self {
            CompressionLevel::NoCompression => 0,
            CompressionLevel::BestSpeed => 1,
            CompressionLevel::BestCompression => 9,
            CompressionLevel::UberCompression => 10,
            CompressionLevel::DefaultLevel => 6,
            CompressionLevel::DefaultCompression => 255,
        }
    }

    /// The level number that the compressor takes; the default level is
    /// the byte with all bits set.
    pub fn code(self) -> (r: u8)
        ensures
            r == self.spec_code(),
    {
        match self {
            CompressionLevel::NoCompression => 0,
            CompressionLevel::BestSpeed => 1,
            CompressionLevel::BestCompression => 9,
            CompressionLevel::UberCompression => 10,
            CompressionLevel::DefaultLevel => 6,
            CompressionLevel::DefaultCompression => 255,
        }
    }
}

/// The raw deflate stream of `data` at level `level`.
pub uninterp spec fn deflated(data: Seq<u8>, level: u8) -> Seq<u8>;

/// Relies on miniz_oxide::deflate::compress_to_vec: the raw deflate stream of
/// the input, which depends on the input bytes and the level alone.
#[verifier::external_body]
fn deflate(data: &[u8], level: u8) -> (r: Vec<u8>)
    ensures
        r@ == deflated(data@, level),
{
    miniz_oxide::deflate::compress_to_vec(data, level)
}

/// A name longer than the header's name field was refused.
#[derive(Clone, Copy, Debug, PartialEq, Eq, Structural)]
pub struct ArchiveBuilderError;

/// The header bytes and payload that the builder stores for `data` pushed
/// under the name bytes `name` at level code `level`.
pub open spec fn stored_record(name: Seq<u8>, data: Seq<u8>, level: u8) -> (Seq<u8>, Seq<u8>) {
    (
        header_bytes(
            magic(),
            pad_name(name),
            data.len() as u64,
            deflated(data, level).len() as u64,
        ),
        deflated(data, level),
    )
}

/// Accumulates records into one archive buffer, compressing each payload.
pub struct ArchiveBuilder {
    data: Vec<u8>,
    compression_level: CompressionLevel,
    entries: Ghost<Seq<(Seq<u8>, Seq<u8>)>>,
}

impl ArchiveBuilder {
    /// The archive bytes written so far.
    pub closed spec fn output(&self) -> Seq<u8> {
        self.data@
    }

    /// The pushes accepted so far, in order, as name bytes and raw data.
    pub closed spec fn entries(&self) -> Seq<(Seq<u8>, Seq<u8>)> {
        self.entries@
    }

    /// The compression level of every push.
    pub closed spec fn level(&self) -> CompressionLevel {
        self.compression_level
    }

    /// The records stored for the accepted pushes, in order.
    pub open spec fn stored(&self) -> Seq<(Seq<u8>, Seq<u8>)> {
        self.entries().map_values(
            |e: (Seq<u8>, Seq<u8>)| stored_record(e.0, e.1, self.level().spec_code()),
        )
    }

    /// The output is the stored records back to back; every accepted name
    /// fits the name field and every length fits its header field.
    pub open spec fn wf(&self) -> bool {
        &&& self.output() == concat_records(self.stored())
        &&& forall|i: int|
            0 <= i < self.entries().len() ==> {
                &&& (#[trigger] self.entries()[i]).0.len() <= NAME_SIZE
                &&& self.entries()[i].1.len() <= u64::MAX
                &&& deflated(self.entries()[i].1, self.level().spec_code()).len() <= u64::MAX
            }
    }

    /// An empty builder that compresses at `compression_level`.
    pub fn new(compression_level: CompressionLevel) -> (r: Self)
        ensures
            r.wf(),
            r.output() == Seq::<u8>::empty(),
            r.entries() == Seq::<(Seq<u8>, Seq<u8>)>::empty(),
            r.level() == compression_level,
    {
        let r = Self { data: Vec::new(), compression_level, entries: Ghost(Seq::empty()) };
        assert(r.stored() =~= Seq::<(Seq<u8>, Seq<u8>)>::empty());
        r
    }

    /// Appends one record: the header for `name` and `data`, then `data`
    /// compressed. A name longer than the name field is refused and leaves
    /// the builder as it was. Returns the header and the stored payload.
    pub fn push_data(&mut self, name: &str, data: &[u8]) -> (r: Result<
        (Header, Vec<u8>),
        ArchiveBuilderError,
    >)
        requires
            old(self).wf(),
        ensures
            final(self).wf(),
            final(self).level() == old(self).level(),
            name.spec_bytes().len() > NAME_SIZE ==> r == Err::<(Header, Vec<u8>), _>(
                ArchiveBuilderError,
            ) && final(self).output() == old(self).output() && final(self).entries() == old(
                self,
            ).entries(),
            name.spec_bytes().len() <= NAME_SIZE ==> (r matches Ok((h, c)) && {
                &&& c@ == deflated(data@, old(self).level().spec_code())
                &&& h.magic@ == magic()
                &&& h.name@ == pad_name(name.spec_bytes())
                &&& h.len == data@.len()
                &&& h.next_file == c@.len()
                &&& final(self).entries() == old(self).entries().push((name.spec_bytes(), data@))
                &&& final(self).output() == old(self).output() + h.spec_bytes() + c@
            }),
    {
        let name_bytes = name.as_bytes();
        if name_bytes.len() > NAME_SIZE {
            return Err(ArchiveBuilderError);
        }
        let mut field = [0u8; 24];
        let mut i: usize = 0;
        while i < name_bytes.len()
            invariant
                name_bytes@.len() <= NAME_SIZE,
                i <= name_bytes@.len(),
                forall|j: int| 0 <= j < i ==> field@[j] == name_bytes@[j],
                forall|j: int| i <= j < NAME_SIZE ==> field@[j] == 0,
            decreases name_bytes@.len() - i,
        {
            field[i] = name_bytes[i];
            i = i + 1;
        }
        assert(field@ =~= pad_name(name_bytes@));
        let compressed = deflate(data, self.compression_level.code());
        let header = Header {
            magic: magic_array(),
            name: field,
            len: data.len() as u64,
            next_file: compressed.len() as u64,
        };
        let encoded = header.to_bytes();
        let mut k: usize = 0;
        let ghost before = self.data@;
        while k < encoded.len()
            invariant
                k <= encoded@.len(),
                self.data@ == before + encoded@.take(k as int),
                self.entries == old(self).entries,
                self.compression_level == old(self).compression_level,
            decreases encoded@.len() - k,
        {
            self.data.push(encoded[k]);
            k = k + 1;
            assert(self.data@ =~= before + encoded@.take(k as int));
        }
        assert(encoded@.take(encoded@.len() as int) =~= encoded@);
        let mut m: usize = 0;
        while m < compressed.len()
            invariant
                m <= compressed@.len(),
                self.data@ == before + encoded@ + compressed@.take(m as int),
                self.entries == old(self).entries,
                self.compression_level == old(self).compression_level,
            decreases compressed@.len() - m,
        {
            self.data.push(compressed[m]);
            m = m + 1;
            assert(self.data@ =~= before + encoded@ + compressed@.take(m as int));
        }
        assert(compressed@.take(compressed@.len() as int) =~= compressed@);
        let ghost old_stored = self.stored();
        self.entries = Ghost(self.entries@.push((name_bytes@, data@)));
        proof {
            assert(self.stored() =~= old_stored.push(
                stored_record(name_bytes@, data@, self.level().spec_code()),
            ));
            assert(self.stored().drop_last() =~= old_stored);
            assert forall|j: int| 0 <= j < self.entries().len() implies {
                &&& (#[trigger] self.entries()[j]).0.len() <= NAME_SIZE
                &&& self.entries()[j].1.len() <= u64::MAX
                &&& deflated(self.entries()[j].1, self.level().spec_code()).len() <= u64::MAX
            } by {
                if j < self.entries().len() - 1 {
                    assert(self.entries()[j] == old(self).entries()[j]);
                }
            }
        }
        Ok((header, compressed))
    }

    /// Ends building and hands over the archive bytes.
    pub fn take_data(self) -> (r: Vec<u8>)
        ensures
            r@ == self.output(),
    {
        self.data
    }
}

/// Reading back what a builder wrote yields one record per accepted push, in
/// push order, and no error; each record carries the pushed name padded to
/// the name field, the pushed length, and the compressed data as payload.
pub proof fn lemma_round_trip(b: ArchiveBuilder)
    requires
        b.wf(),
    ensures
        read_seq(b.output()) == (b.stored(), Option::<ReadError>::None),
        b.stored().len() == b.entries().len(),
        forall|i: int|
            0 <= i < b.entries().len() ==> {
                &&& name_field((#[trigger] b.stored()[i]).0) == pad_name(b.entries()[i].0)
                &&& len_field(b.stored()[i].0) == b.entries()[i].1.len()
                &&& b.stored()[i].1 == deflated(b.entries()[i].1, b.level().spec_code())
            },
{
    let code = b.level().spec_code();
    assert forall|i: int| 0 <= i < b.entries().len() implies {
        &&& well_formed_record(#[trigger] b.stored()[i])
        &&& name_field(b.stored()[i].0) == pad_name(b.entries()[i].0)
        &&& len_field(b.stored()[i].0) == b.entries()[i].1.len()
    } by {
        let e = b.entries()[i];
        assert(pad_name(e.0).len() == NAME_SIZE);
        lemma_header_bytes_fields(
            magic(),
            pad_name(e.0),
            e.1.len() as u64,
            deflated(e.1, code).len() as u64,
        );
    }
    lemma_read_concat(b.stored());
}

} // verus!
