//! The block framer: the on-disk shape of one encrypted block and the parser
//! for a stream of such records.
//!
//! A record is `length:u32 little-endian || nonce[12] || ciphertext`, where
//! `length` counts the ciphertext bytes (tag included). Records stand back to
//! back with no padding, header or trailer; a framed file is nothing but the
//! records of the original blocks, in block order.

use vstd::bytes::lemma_auto_spec_u32_to_from_le_bytes;
use vstd::bytes::spec_u32_from_le_bytes;
use vstd::bytes::spec_u32_to_le_bytes;
use vstd::bytes::u32_from_le_bytes;
use vstd::bytes::u32_to_le_bytes;
use vstd::prelude::*;
use vstd::slice::slice_subrange;
use vstd::slice::slice_to_vec;

use crate::CryptError;
use crate::NONCE_SIZE;

verus! {

/// Bytes of header before the ciphertext: the 4-byte length and the nonce.
pub const HEADER_SIZE: usize = 16;

/// One framed block as the engine moves it around: the nonce the block was
/// sealed under and the ciphertext with its tag.
pub struct Record {
    /// The 12-byte nonce, fresh at encryption, read verbatim at decryption.
    pub nonce: Vec<u8>,
    /// The ciphertext of one block, authentication tag appended.
    pub ciphertext: Vec<u8>,
}

/// The mathematical shadow of a `Record`: the same two byte sequences.
pub ghost struct RecordView {
    pub nonce: Seq<u8>,
    pub ciphertext: Seq<u8>,
}

impl View for Record {
    type V = RecordView;

    open spec fn view(&self) -> RecordView {
        RecordView { nonce: self.nonce@, ciphertext: self.ciphertext@ }
    }
}

impl RecordView {
    /// A record can be framed when its nonce has the fixed size and its
    /// ciphertext length fits the 4-byte length field.
    pub open spec fn wf(self) -> bool {
        &&& self.nonce.len() == NONCE_SIZE
        &&& self.ciphertext.len() <= u32::MAX
    }
}

impl Record {
    /// See `RecordView::wf`.
    pub open spec fn wf(&self) -> bool {
        self@.wf()
    }
}

/// The exact bytes a record occupies on disk.
pub open spec fn record_bytes(rec: RecordView) -> Seq<u8> {
    spec_u32_to_le_bytes(rec.ciphertext.len() as u32) + rec.nonce + rec.ciphertext
}

/// Reads one record off the front of `data`: the record and how many bytes
/// it occupied, or nothing when the front of `data` is no complete record.
/// An empty `data` is not handled here; the stream parser treats it as a
/// clean end.
pub open spec fn record_at(data: Seq<u8>) -> Option<(RecordView, int)> {
    if data.len() < HEADER_SIZE {
        None
    } else {
        let len = spec_u32_from_le_bytes(data.take(4)) as int;
        if data.len() < HEADER_SIZE + len {
            None
        } else {
            Some(
                (
                    RecordView {
                        nonce: data.subrange(4, HEADER_SIZE as int),
                        ciphertext: data.subrange(HEADER_SIZE as int, HEADER_SIZE + len),
                    },
                    HEADER_SIZE + len,
                ),
            )
        }
    }
}

/// Parses a whole framed stream into its records. `None` means the stream is
/// malformed: somewhere a record is cut short. This is all-or-nothing; the
/// records that parse before the damage are `parsed_prefix`.
pub open spec fn parse_records(data: Seq<u8>) -> Option<Seq<RecordView>>
    decreases data.len(),
{
    if data.len() == 0 {
        Some(Seq::empty())
    } else {
        match record_at(data) {
            None => None,
            Some((rec, used)) => match parse_records(data.skip(used)) {
                None => None,
                Some(rest) => Some(seq![rec] + rest),
            },
        }
    }
}

/// The records that parse off the front of `data` before its end or before
/// a malformed record, whichever comes first.
pub open spec fn parsed_prefix(data: Seq<u8>) -> Seq<RecordView>
    decreases data.len(),
{
    if data.len() == 0 {
        Seq::empty()
    } else {
        match record_at(data) {
            None => Seq::empty(),
            Some((rec, used)) => seq![rec] + parsed_prefix(data.skip(used)),
        }
    }
}

/// A parse of the whole stream sees exactly the records of the prefix parse.
pub proof fn lemma_parse_implies_prefix(data: Seq<u8>)
    requires
        parse_records(data) is Some,
    ensures
        parsed_prefix(data) == parse_records(data)->Some_0,
    decreases data.len(),
{
    if data.len() != 0 {
        let (rec, used) = record_at(data)->Some_0;
        lemma_parse_implies_prefix(data.skip(used));
    }
}

/// Encodes one record into the framed form that `record_at` reads back.
pub fn encode_record(rec: &Record) -> (out: Vec<u8>)
    requires
        rec.wf(),
    ensures
        out@ == record_bytes(rec@),
{
    let mut out = u32_to_le_bytes(rec.ciphertext.len() as u32);
    out.extend_from_slice(rec.nonce.as_slice());
    out.extend_from_slice(rec.ciphertext.as_slice());
    out
}

/// Reading the front record of `rec`'s bytes followed by anything gives back
/// exactly `rec`.
pub proof fn lemma_record_at_prepend(rec: RecordView, rest: Seq<u8>)
    requires
        rec.wf(),
    ensures
        record_at(record_bytes(rec) + rest) == Some(
            (rec, record_bytes(rec).len() as int),
        ),
{
    let data = record_bytes(rec) + rest;
    let enc = record_bytes(rec);
    lemma_auto_spec_u32_to_from_le_bytes();
    assert(data.take(4) =~= spec_u32_to_le_bytes(rec.ciphertext.len() as u32));
    assert(enc.len() == HEADER_SIZE + rec.ciphertext.len());
    assert(data.subrange(4, HEADER_SIZE as int) =~= rec.nonce);
    assert(data.subrange(HEADER_SIZE as int, HEADER_SIZE + rec.ciphertext.len()) =~= rec.ciphertext);
}

/// Framing one well-formed record in front of a framed stream extends its
/// parse by that record; in front of a malformed stream it leaves the stream
/// malformed.
pub proof fn lemma_parse_prepend(rec: RecordView, rest: Seq<u8>)
    requires
        rec.wf(),
    ensures
        parse_records(rest) matches Some(rs) ==> parse_records(record_bytes(rec) + rest) == Some(
            seq![rec] + rs,
        ),
        parse_records(rest) is None ==> parse_records(record_bytes(rec) + rest) is None,
{
    let data = record_bytes(rec) + rest;
    lemma_record_at_prepend(rec, rest);
    assert(data.skip(record_bytes(rec).len() as int) =~= rest);
    assert(data.len() > 0);
}

/// Two framed streams placed back to back parse to the records of the first
/// followed by the records of the second; if the second is malformed, so is
/// the whole.
pub proof fn lemma_parse_append(a: Seq<u8>, b: Seq<u8>)
    requires
        parse_records(a) is Some,
    ensures
        parse_records(b) matches Some(rb) ==> parse_records(a + b) == Some(
            parse_records(a)->Some_0 + rb,
        ),
        parse_records(b) is None ==> parse_records(a + b) is None,
    decreases a.len(),
{
    if a.len() == 0 {
        assert(a + b =~= b);
        assert(parse_records(a)->Some_0 =~= Seq::<RecordView>::empty());
        if parse_records(b) is Some {
            assert(parse_records(a)->Some_0 + parse_records(b)->Some_0 =~= parse_records(
                b,
            )->Some_0);
        }
    } else {
        let (rec, used) = record_at(a)->Some_0;
        let len = spec_u32_from_le_bytes(a.take(4)) as int;
        assert((a + b).take(4) =~= a.take(4));
        assert((a + b).len() >= HEADER_SIZE + len);
        assert((a + b).subrange(4, HEADER_SIZE as int) =~= a.subrange(4, HEADER_SIZE as int));
        assert((a + b).subrange(HEADER_SIZE as int, HEADER_SIZE + len) =~= a.subrange(
            HEADER_SIZE as int,
            HEADER_SIZE + len,
        ));
        assert(record_at(a + b) == Some((rec, used)));
        assert((a + b).skip(used) =~= a.skip(used) + b);
        lemma_parse_append(a.skip(used), b);
        let ra = parse_records(a)->Some_0;
        let ras = parse_records(a.skip(used))->Some_0;
        if parse_records(b) is Some {
            let rb = parse_records(b)->Some_0;
            assert(seq![rec] + (ras + rb) =~= (seq![rec] + ras) + rb);
        }
    }
}

/// Whether `pos` lies exactly between two records of `data` (or at its very
/// start or end): the positions a cut can take without landing inside a
/// record.
pub open spec fn is_record_boundary(data: Seq<u8>, pos: int) -> bool
    decreases data.len(),
{
    pos == 0 || (match record_at(data) {
        Some((rec, used)) => used <= pos && is_record_boundary(data.skip(used), pos - used),
        None => false,
    })
}

/// How a partly consumed stream relates to the whole: the records `consumed`
/// so far, together with whatever the unread tail from `pos` on holds, make
/// up the parse of the whole stream — and if the tail is malformed, the
/// whole stream is.
pub open spec fn parse_decomposition(data: Seq<u8>, consumed: Seq<RecordView>, pos: int) -> bool {
    &&& (match parse_records(data.skip(pos)) {
        Some(rest) => parse_records(data) == Some(consumed + rest),
        None => parse_records(data) is None,
    })
    &&& parsed_prefix(data) == consumed + parsed_prefix(data.skip(pos))
}

/// Consuming the record at the front of the unread tail keeps the
/// decomposition: the record joins `consumed` and the position moves past it.
pub proof fn lemma_parse_step(
    data: Seq<u8>,
    consumed: Seq<RecordView>,
    pos: int,
    rec: RecordView,
    used: int,
)
    requires
        0 <= pos <= data.len(),
        record_at(data.skip(pos)) == Some((rec, used)),
        parse_decomposition(data, consumed, pos),
    ensures
        16 <= used,
        pos + used <= data.len(),
        parse_decomposition(data, consumed.push(rec), pos + used),
{
    let s = data.skip(pos);
    assert(s.skip(used) =~= data.skip(pos + used));
    match parse_records(data.skip(pos + used)) {
        Some(rest) => {
            assert(parse_records(s) == Some(seq![rec] + rest));
            assert(consumed + (seq![rec] + rest) =~= consumed.push(rec) + rest);
        },
        None => {
            assert(parse_records(s) is None);
        },
    }
    assert(parsed_prefix(s) == seq![rec] + parsed_prefix(s.skip(used)));
    assert(consumed + (seq![rec] + parsed_prefix(data.skip(pos + used))) =~= consumed.push(rec)
        + parsed_prefix(data.skip(pos + used)));
}

/// The exact bytes a whole sequence of records occupies on disk: their
/// encodings back to back, nothing between, before or after them.
pub open spec fn records_bytes(recs: Seq<RecordView>) -> Seq<u8>
    decreases recs.len(),
{
    if recs.len() == 0 {
        Seq::empty()
    } else {
        record_bytes(recs.first()) + records_bytes(recs.drop_first())
    }
}

/// Framing well-formed records and parsing the result gives the records
/// back: the parser accepts every concatenation of record encodings.
pub proof fn lemma_records_bytes_parse(recs: Seq<RecordView>)
    requires
        forall|i: int| 0 <= i < recs.len() ==> (#[trigger] recs[i]).wf(),
    ensures
        parse_records(records_bytes(recs)) == Some(recs),
    decreases recs.len(),
{
    if recs.len() == 0 {
        assert(records_bytes(recs) =~= Seq::<u8>::empty());
        assert(parse_records(records_bytes(recs)) == Some(Seq::<RecordView>::empty()));
        assert(recs =~= Seq::<RecordView>::empty());
    } else {
        lemma_records_bytes_parse(recs.drop_first());
        lemma_parse_prepend(recs.first(), records_bytes(recs.drop_first()));
        assert(seq![recs.first()] + recs.drop_first() =~= recs);
    }
}

/// A stream the parser accepts is nothing but its records' encodings back to
/// back: the on-disk format is canonical, with no padding or trailer the
/// parser would let pass.
pub proof fn lemma_parse_records_bytes(data: Seq<u8>)
    requires
        parse_records(data) is Some,
    ensures
        records_bytes(parse_records(data)->Some_0) == data,
        forall|i: int|
            0 <= i < parse_records(data)->Some_0.len() ==> (#[trigger] parse_records(
                data,
            )->Some_0[i]).wf(),
    decreases data.len(),
{
    let recs = parse_records(data)->Some_0;
    if data.len() == 0 {
        assert(records_bytes(recs) =~= data);
    } else {
        let (rec, used) = record_at(data)->Some_0;
        let rest = parse_records(data.skip(used))->Some_0;
        lemma_parse_records_bytes(data.skip(used));
        lemma_auto_spec_u32_to_from_le_bytes();
        assert(record_bytes(rec) =~= data.take(used));
        assert(recs.first() == rec);
        assert(recs.drop_first() =~= rest);
        assert(record_bytes(rec) + records_bytes(rest) =~= data.take(used) + data.skip(used));
        assert(data.take(used) + data.skip(used) =~= data);
    }
}

/// Reads the ciphertext length out of a record header: its first four bytes
/// as a little-endian u32 — the same length `record_at` reads. For a caller
/// that takes a framed stream in header-sized sips instead of one buffer.
pub fn header_ciphertext_len(head: &[u8]) -> (len: u32)
    requires
        head@.len() >= 4,
    ensures
        len == spec_u32_from_le_bytes(head@.take(4)),
{
    let four = slice_subrange(head, 0, 4);
    proof {
        assert(four@ =~= head@.take(4));
    }
    u32_from_le_bytes(four)
}

/// Reads the record that starts at `pos` in `data`. `Ok(None)` is the clean
/// end of the stream (no byte left); a record cut short by the end of `data`
/// is `TruncatedInput`; otherwise the record and the position just past it
/// come back.
pub fn decode_record(data: &Vec<u8>, pos: usize) -> (r: Result<Option<(Record, usize)>, CryptError>)
    requires
        pos <= data@.len(),
    ensures
        r matches Ok(None) ==> pos == data@.len(),
        pos == data@.len() ==> r matches Ok(None),
        r is Err ==> r == Err::<Option<(Record, usize)>, CryptError>(CryptError::TruncatedInput)
            && pos < data@.len() && record_at(data@.skip(pos as int)) is None,
        pos < data@.len() && record_at(data@.skip(pos as int)) is None ==> r is Err,
        r matches Ok(Some((rec, next))) ==> {
            &&& record_at(data@.skip(pos as int)) == Some((rec@, next - pos))
            &&& rec.wf()
            &&& pos < next <= data@.len()
        },
{
    let ghost suffix = data@.skip(pos as int);
    if pos == data.len() {
        return Ok(None);
    }
    if data.len() - pos < HEADER_SIZE {
        assert(suffix.len() < HEADER_SIZE);
        return Err(CryptError::TruncatedInput);
    }
    let len_bytes = slice_subrange(data.as_slice(), pos, pos + 4);
    let len32 = u32_from_le_bytes(len_bytes);
    proof {
        assert(len_bytes@ =~= suffix.take(4));
    }
    let len: usize = len32 as usize;
    if data.len() - pos - HEADER_SIZE < len {
        assert(suffix.len() < HEADER_SIZE + len);
        return Err(CryptError::TruncatedInput);
    }
    let nonce = slice_to_vec(slice_subrange(data.as_slice(), pos + 4, pos + HEADER_SIZE));
    let ciphertext = slice_to_vec(
        slice_subrange(data.as_slice(), pos + HEADER_SIZE, pos + HEADER_SIZE + len),
    );
    let next = pos + HEADER_SIZE + len;
    proof {
        assert(nonce@ =~= suffix.subrange(4, HEADER_SIZE as int));
        assert(ciphertext@ =~= suffix.subrange(HEADER_SIZE as int, HEADER_SIZE + len));
    }
    Ok(Some((Record { nonce, ciphertext }, next)))
}

} // verus!
