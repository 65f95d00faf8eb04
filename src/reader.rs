use vstd::prelude::*;
use crate::header::{Header, HEADER_SIZE, magic, magic_field, next_file_field};

verus! {

/// Why reading stopped short of a record that the buffer announces.
#[derive(Clone, Copy, Debug, PartialEq, Eq, Structural)]
pub enum ReadError {
    /// Bytes remain, but fewer than a header needs.
    TruncatedHeader,
    /// A valid header declares more payload bytes than remain after it.
    TruncatedPayload,
}

/// What one read step does with the bytes `rest` not yet consumed.
pub enum Step {
    /// Nothing is left: the archive ends cleanly.
    End,
    /// A header was consumed whose magic does not match: reading stops.
    Stop,
    /// Reading fails; `rest` becomes the second field.
    Fail(ReadError, Seq<u8>),
    /// A record: its header bytes and payload, then what is left after it.
    Record(Seq<u8>, Seq<u8>, Seq<u8>),
}

/// The payload length that the header at the start of `rest` declares.
pub open spec fn declared_payload(rest: Seq<u8>) -> int {
    next_file_field(rest.take(HEADER_SIZE as int)) as int
}

/// One read step over the unconsumed bytes `rest`.
pub open spec fn step(rest: Seq<u8>) -> Step {
    if rest.len() == 0 {
        Step::End
    } else if rest.len() < HEADER_SIZE {
        Step::Fail(ReadError::TruncatedHeader, rest)
    } else if magic_field(rest) != magic() {
        Step::Stop
    } else if declared_payload(rest) > rest.len() - HEADER_SIZE {
        Step::Fail(ReadError::TruncatedPayload, rest.skip(HEADER_SIZE as int))
    } else {
        let end = HEADER_SIZE + declared_payload(rest);
        Step::Record(rest.take(HEADER_SIZE as int), rest.subrange(HEADER_SIZE as int, end), rest.skip(end))
    }
}

/// Every record that reading `rest` to its end yields, in order, as pairs of
/// header bytes and payload, and the error that ended it, if any.
pub open spec fn read_seq(rest: Seq<u8>) -> (Seq<(Seq<u8>, Seq<u8>)>, Option<ReadError>)
    decreases rest.len(),
{
    match step(rest) {
        Step::Record(h, p, next) => {
            if next.len() < rest.len() {
                let (recs, err) = read_seq(next);
                (seq![(h, p)] + recs, err)
            } else {
                (seq![], None)
            }
        },
        Step::Fail(e, _) => (seq![], Some(e)),
        _ => (seq![], None),
    }
}

/// A record as stored: header bytes with the format's magic, followed by
/// exactly as many payload bytes as the header declares.
pub open spec fn well_formed_record(r: (Seq<u8>, Seq<u8>)) -> bool {
    &&& r.0.len() == HEADER_SIZE
    &&& magic_field(r.0) == magic()
    &&& next_file_field(r.0) == r.1.len()
}

/// The archive that stores `recs` back to back, each header before its payload.
pub open spec fn concat_records(recs: Seq<(Seq<u8>, Seq<u8>)>) -> Seq<u8>
    decreases recs.len(),
{
    if recs.len() == 0 {
        seq![]
    } else {
        concat_records(recs.drop_last()) + recs.last().0 + recs.last().1
    }
}

proof fn lemma_concat_front(recs: Seq<(Seq<u8>, Seq<u8>)>)
    requires
        recs.len() > 0,
    ensures
        concat_records(recs) == recs[0].0 + recs[0].1 + concat_records(recs.drop_first()),
    decreases recs.len(),
{
    if recs.len() == 1 {
        assert(recs.drop_last() =~= seq![]);
        assert(recs.drop_first() =~= seq![]);
        assert(concat_records(recs) =~= recs[0].0 + recs[0].1 + concat_records(recs.drop_first()));
    } else {
        lemma_concat_front(recs.drop_last());
        assert(recs.drop_last().drop_first() =~= recs.drop_first().drop_last());
        assert(recs.drop_first().last() == recs.last());
        assert(concat_records(recs) =~= recs[0].0 + recs[0].1 + concat_records(recs.drop_first()));
    }
}

/// Reading an archive of well-formed records back yields exactly those
/// records, in order, and no error.
pub proof fn lemma_read_concat(recs: Seq<(Seq<u8>, Seq<u8>)>)
    requires
        forall|i: int| 0 <= i < recs.len() ==> well_formed_record(#[trigger] recs[i]),
    ensures
        read_seq(concat_records(recs)) == (recs, Option::<ReadError>::None),
    decreases recs.len(),
{
    if recs.len() == 0 {
        assert(read_seq(concat_records(recs)).0 =~= recs);
    } else {
        let buf = concat_records(recs);
        let tail = recs.drop_first();
        let (h, p) = recs[0];
        assert(well_formed_record(recs[0]));
        lemma_concat_front(recs);
        assert(buf.take(HEADER_SIZE as int) =~= h);
        assert(magic_field(buf) =~= magic_field(h));
        assert(buf.subrange(HEADER_SIZE as int, HEADER_SIZE + p.len()) =~= p);
        assert(buf.skip(HEADER_SIZE + p.len()) =~= concat_records(tail));
        assert forall|i: int| 0 <= i < tail.len() implies well_formed_record(#[trigger] tail[i]) by {
            assert(tail[i] == recs[i + 1]);
        }
        lemma_read_concat(tail);
        assert(seq![(h, p)] + tail =~= recs);
    }
}

/// An empty buffer holds no record and reading it reports no error.
pub proof fn lemma_empty_archive()
    ensures
        step(Seq::<u8>::empty()) == Step::End,
        read_seq(Seq::<u8>::empty()) == (Seq::<(Seq<u8>, Seq<u8>)>::empty(), Option::<ReadError>::None),
{
    assert(read_seq(Seq::<u8>::empty()).0 =~= Seq::<(Seq<u8>, Seq<u8>)>::empty());
}

/// A valid header followed by fewer bytes than it declares is a truncated
/// payload: reading yields no record and reports that error.
pub proof fn lemma_truncated_payload(buf: Seq<u8>)
    requires
        buf.len() >= HEADER_SIZE,
        magic_field(buf) == magic(),
        declared_payload(buf) > buf.len() - HEADER_SIZE,
    ensures
        step(buf) == Step::Fail(ReadError::TruncatedPayload, buf.skip(HEADER_SIZE as int)),
        read_seq(buf) == (Seq::<(Seq<u8>, Seq<u8>)>::empty(), Some(ReadError::TruncatedPayload)),
{
    assert(read_seq(buf).0 =~= Seq::<(Seq<u8>, Seq<u8>)>::empty());
}

/// A first header whose magic does not match ends reading at once: no record
/// and no error, whatever follows it.
pub proof fn lemma_corrupted_magic(buf: Seq<u8>)
    requires
        buf.len() >= HEADER_SIZE,
        magic_field(buf) != magic(),
    ensures
        step(buf) == Step::Stop,
        read_seq(buf) == (Seq::<(Seq<u8>, Seq<u8>)>::empty(), Option::<ReadError>::None),
{
    assert(read_seq(buf).0 =~= Seq::<(Seq<u8>, Seq<u8>)>::empty());
}

/// A forward cursor over an archive: each step yields the next header and a
/// view of its payload, without copying.
pub struct ArchiveReader<'a>(&'a [u8]);

impl<'a> View for ArchiveReader<'a> {
    type V = Seq<u8>;

    /// The bytes not yet consumed.
    closed spec fn view(&self) -> Seq<u8> {
        self.0@
    }
}

impl<'a> ArchiveReader<'a> {
    /// A reader positioned at the start of `data`.
    pub fn new(data: &'a [u8]) -> (r: Self)
        ensures
            r@ == data@,
    {
        Self(data)
    }

    /// The bytes not yet consumed.
    pub fn remaining(&self) -> (r: &'a [u8])
        ensures
            r@ == self@,
    {
        self.0
    }

    /// Reads the next record. `None` ends the archive: nothing is left, or a
    /// header with a wrong magic was consumed. A header or payload that runs
    /// past the end of the buffer is an error, never a short view.
    pub fn next(&mut self) -> (r: Option<Result<(Header, &'a [u8]), ReadError>>)
        ensures
            match step(old(self)@) {
                Step::End => r is None && final(self)@ == old(self)@,
                Step::Stop => r is None && final(self)@ == old(self)@.skip(HEADER_SIZE as int),
                Step::Fail(e, rest) => r == Some(Err::<(Header, &'a [u8]), ReadError>(e))
                    && final(self)@ == rest,
                Step::Record(hb, p, rest) => r matches Some(Ok((h, payload))) && h.spec_bytes()
                    == hb && payload@ == p && final(self)@ == rest,
            },
    {
        if self.0.len() == 0 {
            return None;
        }
        if self.0.len() < HEADER_SIZE {
            return Some(Err(ReadError::TruncatedHeader));
        }
        let (header_bytes, rest) = self.0.split_at(HEADER_SIZE);
        self.0 = rest;
        let header = match Header::parse(header_bytes) {
            Some(h) => h,
            None => {
                return None;
            },
        };
        proof {
            header.lemma_fields_of_bytes();
            assert(header_bytes@ =~= old(self)@.take(HEADER_SIZE as int));
            assert(magic_field(old(self)@) =~= magic_field(header_bytes@));
        }
        if !header.magic_is_valid() {
            return None;
        }
        if header.next_file > rest.len() as u64 {
            return Some(Err(ReadError::TruncatedPayload));
        }
        let (payload, after) = rest.split_at(header.next_file as usize);
        self.0 = after;
        Some(Ok((header, payload)))
    }
}

} // verus!
