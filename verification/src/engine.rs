//! The round-robin pipeline driver: a file is processed in rounds of up to
//! `lanes` blocks. In a round the driver dispatches one unit per lane in lane
//! order (a plaintext block when encrypting, a framed record when
//! decrypting), then collects the results in the same fixed order and writes
//! each one out at once. Collecting strictly in dispatch order makes the
//! output order equal the input order whatever order the lanes finish in,
//! and bounds the in-flight work to `lanes` blocks.
//!
//! Here the rounds are driven to completion one result at a time; handing
//! the blocks of a round to parallel worker threads is the surrounding
//! program's business, and changes nothing about the bytes: the contracts
//! below never mention the lane count.

use vstd::prelude::*;

use crate::aead::decrypt_block;
use crate::aead::encrypt_block;
use crate::aead::unseal_of;
use crate::frame::decode_record;
use crate::frame::encode_record;
use crate::frame::is_record_boundary;
use crate::frame::lemma_parse_append;
use crate::frame::lemma_parse_implies_prefix;
use crate::frame::lemma_parse_prepend;
use crate::frame::lemma_parse_step;
use crate::frame::parse_decomposition;
use crate::frame::parse_records;
use crate::frame::parsed_prefix;
use crate::frame::record_at;
use crate::frame::record_bytes;
use crate::frame::HEADER_SIZE;
use crate::frame::Record;
use crate::frame::RecordView;
use crate::keys::Key;
use crate::CryptError;
use crate::BLOCK_SIZE;
use crate::NONCE_SIZE;
use crate::TAG_SIZE;

verus! {

/// Whether a run turns plaintext into framed records or framed records back
/// into plaintext.
#[derive(Clone, Copy, Debug, PartialEq, Eq, Structural)]
pub enum Mode {
    Encrypt,
    Decrypt,
}

/// The blocks a byte sequence is cut into: full `bs`-byte blocks and, when
/// the length is no multiple of `bs`, a shorter final block. Empty input has
/// no blocks at all.
pub open spec fn blocks_of(data: Seq<u8>, bs: int) -> Seq<Seq<u8>>
    decreases data.len(),
    when bs >= 1
{
    if data.len() == 0 {
        Seq::empty()
    } else if data.len() <= bs {
        seq![data]
    } else {
        seq![data.take(bs)] + blocks_of(data.skip(bs), bs)
    }
}

/// The views of a sequence of plaintext blocks.
pub open spec fn block_views(blocks: Seq<Vec<u8>>) -> Seq<Seq<u8>> {
    blocks.map_values(|b: Vec<u8>| b@)
}

/// The views of a sequence of records.
pub open spec fn record_views(recs: Seq<Record>) -> Seq<RecordView> {
    recs.map_values(|r: Record| r@)
}

/// Every record in `recs` opens under `key`: each tag verifies.
pub open spec fn opens_all(key: Seq<u8>, recs: Seq<RecordView>) -> bool {
    forall|i: int|
        0 <= i < recs.len() ==> (#[trigger] unseal_of(key, recs[i].nonce, recs[i].ciphertext))
            is Some
}

/// The plaintext blocks that `recs` open to under `key`.
pub open spec fn opened(key: Seq<u8>, recs: Seq<RecordView>) -> Seq<Seq<u8>> {
    recs.map_values(|r: RecordView| unseal_of(key, r.nonce, r.ciphertext)->Some_0)
}

/// What `framed` is an encryption of `plain` under `key` means: the framed
/// bytes parse into exactly one record per block of `plain`, in block order,
/// and record `i` carries a fixed-size nonce and a ciphertext one tag longer
/// than block `i` that opens back to block `i` under `key`.
pub open spec fn encryption_of(key: Seq<u8>, framed: Seq<u8>, plain: Seq<u8>) -> bool {
    match parse_records(framed) {
        Some(recs) => {
            let blocks = blocks_of(plain, BLOCK_SIZE as int);
            &&& recs.len() == blocks.len()
            &&& forall|i: int|
                0 <= i < recs.len() ==> {
                    &&& (#[trigger] recs[i]).nonce.len() == NONCE_SIZE
                    &&& recs[i].ciphertext.len() == blocks[i].len() + TAG_SIZE
                    &&& unseal_of(key, recs[i].nonce, recs[i].ciphertext) == Some(blocks[i])
                }
        },
        None => false,
    }
}

/// What decrypting `framed` under `key` yields: the concatenation of the
/// plaintexts of its records when the stream parses and every tag verifies,
/// nothing otherwise.
pub open spec fn decrypts_to(key: Seq<u8>, framed: Seq<u8>) -> Option<Seq<u8>> {
    match parse_records(framed) {
        Some(recs) => if opens_all(key, recs) {
            Some(opened(key, recs).flatten())
        } else {
            None
        },
        None => None,
    }
}

/// Encrypts a whole input: cuts it into blocks of at most `BLOCK_SIZE`
/// bytes, rounds of up to `lanes` blocks at a time, seals every block under
/// a fresh nonce and frames the records in block order. This never fails:
/// the cipher cannot reject a block-sized plaintext.
pub fn encrypt_stream(key: &Key, data: &Vec<u8>, lanes: usize) -> (r: Result<Vec<u8>, CryptError>)
    requires
        key.wf(),
        lanes >= 1,
    ensures
        r is Ok,
        r matches Ok(framed) ==> encryption_of(key@, framed@, data@),
{
    let mut out: Vec<u8> = Vec::new();
    let mut pos: usize = 0;
    let mut done = false;
    let ghost mut recs: Seq<RecordView> = Seq::empty();
    let ghost mut blocks: Seq<Seq<u8>> = Seq::empty();

    proof {
        assert(data@.skip(0) =~= data@);
        assert(blocks + blocks_of(data@.skip(0), BLOCK_SIZE as int) =~= blocks_of(
            data@,
            BLOCK_SIZE as int,
        ));
    }

    while !done
        invariant
            key.wf(),
            lanes >= 1,
            pos <= data@.len(),
            parse_records(out@) == Some(recs),
            recs.len() == blocks.len(),
            forall|i: int|
                0 <= i < recs.len() ==> {
                    &&& (#[trigger] recs[i]).nonce.len() == NONCE_SIZE
                    &&& recs[i].ciphertext.len() == blocks[i].len() + TAG_SIZE
                    &&& unseal_of(key@, recs[i].nonce, recs[i].ciphertext) == Some(blocks[i])
                },
            blocks_of(data@, BLOCK_SIZE as int) == blocks + blocks_of(
                data@.skip(pos as int),
                BLOCK_SIZE as int,
            ),
            done ==> pos == data@.len(),
        decreases data@.len() - pos + (if done { 0int } else { 1int }),
    {
        // Dispatching: read the next block for each lane in turn, stopping
        // early when the input is exhausted.
        let ghost pos0 = pos;
        let mut jobs: Vec<Vec<u8>> = Vec::new();
        let mut i: usize = 0;
        while i < lanes && !done
            invariant
                key.wf(),
                lanes >= 1,
                pos <= data@.len(),
                pos0 + i <= pos,
                i == jobs@.len(),
                parse_records(out@) == Some(recs),
                recs.len() == blocks.len(),
                forall|k: int|
                    0 <= k < recs.len() ==> {
                        &&& (#[trigger] recs[k]).nonce.len() == NONCE_SIZE
                        &&& recs[k].ciphertext.len() == blocks[k].len() + TAG_SIZE
                        &&& unseal_of(key@, recs[k].nonce, recs[k].ciphertext) == Some(blocks[k])
                    },
                forall|k: int| 0 <= k < jobs@.len() ==> (#[trigger] jobs@[k])@.len() <= BLOCK_SIZE,
                blocks_of(data@, BLOCK_SIZE as int) == blocks + block_views(jobs@) + blocks_of(
                    data@.skip(pos as int),
                    BLOCK_SIZE as int,
                ),
                done ==> pos == data@.len(),
            decreases lanes - i + (if done { 0int } else { 1int }),
        {
            if pos == data.len() {
                done = true;
            } else {
                let ghost suffix = data@.skip(pos as int);
                let rem = data.len() - pos;
                let take = if rem < BLOCK_SIZE {
                    rem
                } else {
                    BLOCK_SIZE
                };
                let chunk = vstd::slice::slice_to_vec(
                    vstd::slice::slice_subrange(data.as_slice(), pos, pos + take),
                );
                proof {
                    assert(chunk@ =~= suffix.take(take as int));
                    if rem <= BLOCK_SIZE {
                        assert(chunk@ =~= suffix);
                        assert(data@.skip((pos + take) as int) =~= Seq::<u8>::empty());
                        assert(blocks_of(suffix, BLOCK_SIZE as int) == seq![suffix]);
                        assert(blocks_of(data@.skip((pos + take) as int), BLOCK_SIZE as int)
                            =~= Seq::<Seq<u8>>::empty());
                    } else {
                        assert(data@.skip((pos + take) as int) =~= suffix.skip(BLOCK_SIZE as int));
                    }
                    assert(blocks_of(suffix, BLOCK_SIZE as int) == seq![chunk@] + blocks_of(
                        data@.skip((pos + take) as int),
                        BLOCK_SIZE as int,
                    ));
                    assert(block_views(jobs@.push(chunk)) =~= block_views(jobs@).push(chunk@));
                    assert(blocks + block_views(jobs@.push(chunk)) + blocks_of(
                        data@.skip((pos + take) as int),
                        BLOCK_SIZE as int,
                    ) =~= blocks + block_views(jobs@) + (seq![chunk@] + blocks_of(
                        data@.skip((pos + take) as int),
                        BLOCK_SIZE as int,
                    )));
                }
                jobs.push(chunk);
                pos = pos + take;
                i = i + 1;
            }
        }
        // Collecting: seal each dispatched block in dispatch order and write
        // its framed record at once.
        while jobs.len() > 0
            invariant
                key.wf(),
                lanes >= 1,
                pos <= data@.len(),
                done || pos0 + lanes <= pos,
                parse_records(out@) == Some(recs),
                recs.len() == blocks.len(),
                forall|k: int|
                    0 <= k < recs.len() ==> {
                        &&& (#[trigger] recs[k]).nonce.len() == NONCE_SIZE
                        &&& recs[k].ciphertext.len() == blocks[k].len() + TAG_SIZE
                        &&& unseal_of(key@, recs[k].nonce, recs[k].ciphertext) == Some(blocks[k])
                    },
                forall|k: int| 0 <= k < jobs@.len() ==> (#[trigger] jobs@[k])@.len() <= BLOCK_SIZE,
                blocks_of(data@, BLOCK_SIZE as int) == blocks + block_views(jobs@) + blocks_of(
                    data@.skip(pos as int),
                    BLOCK_SIZE as int,
                ),
                done ==> pos == data@.len(),
            decreases jobs@.len(),
        {
            let ghost jobs0 = jobs@;
            let block = jobs.remove(0);
            let ghost block_v = block@;
            match encrypt_block(key, block) {
                Ok(rec) => {
                    let mut framed = encode_record(&rec);
                    let ghost framed_v = framed@;
                    let ghost out0 = out@;
                    proof {
                        assert(record_bytes(rec@) + Seq::<u8>::empty() =~= record_bytes(rec@));
                        lemma_parse_prepend(rec@, Seq::<u8>::empty());
                        assert(seq![rec@] + Seq::<RecordView>::empty() =~= seq![rec@]);
                        assert(parse_records(framed_v) == Some(seq![rec@]));
                        lemma_parse_append(out0, framed_v);
                        assert(recs + seq![rec@] =~= recs.push(rec@));
                        assert(block_views(jobs0) == seq![block_v] + block_views(jobs@)) by {
                            assert(block_views(jobs0) =~= seq![block_v] + block_views(jobs@));
                        }
                        assert(blocks + block_views(jobs0) + blocks_of(
                            data@.skip(pos as int),
                            BLOCK_SIZE as int,
                        ) =~= blocks.push(block_v) + block_views(jobs@) + blocks_of(
                            data@.skip(pos as int),
                            BLOCK_SIZE as int,
                        ));
                    }
                    out.append(&mut framed);
                    proof {
                        recs = recs.push(rec@);
                        blocks = blocks.push(block_v);
                        assert(parse_records(out@) == Some(recs));
                    }
                },
                Err(e) => {
                    return Err(e);
                },
            }
        }
        proof {
            assert(block_views(jobs@) =~= Seq::<Seq<u8>>::empty());
            assert(blocks + block_views(jobs@) + blocks_of(data@.skip(pos as int), BLOCK_SIZE as int)
                =~= blocks + blocks_of(data@.skip(pos as int), BLOCK_SIZE as int));
        }
    }
    proof {
        assert(data@.skip(pos as int) =~= Seq::<u8>::empty());
        assert(blocks_of(Seq::<u8>::empty(), BLOCK_SIZE as int) == Seq::<Seq<u8>>::empty());
        assert(blocks + Seq::<Seq<u8>>::empty() =~= blocks);
    }
    Ok(out)
}

/// Decrypts a whole framed input, rounds of up to `lanes` records at a time,
/// writing the plaintext of each record in record order. It succeeds exactly
/// when the stream parses and every tag verifies, and then returns the
/// concatenated plaintexts. A malformed or cut-short record is
/// `TruncatedInput` and implies the stream does not parse; a tag that does
/// not verify is `AuthenticationFailure` and implies some readable record
/// does not open. When only one of the two faults is present the error names
/// it; a stream with both faults reports whichever its rounds reach first.
pub fn decrypt_stream(key: &Key, data: &Vec<u8>, lanes: usize) -> (r: Result<Vec<u8>, CryptError>)
    requires
        key.wf(),
        lanes >= 1,
    ensures
        r is Ok <==> decrypts_to(key@, data@) is Some,
        r matches Ok(plain) ==> decrypts_to(key@, data@) == Some(plain@),
        r is Err ==> r == Err::<Vec<u8>, CryptError>(CryptError::TruncatedInput) || r == Err::<
            Vec<u8>,
            CryptError,
        >(CryptError::AuthenticationFailure),
        r == Err::<Vec<u8>, CryptError>(CryptError::TruncatedInput) ==> parse_records(data@)
            is None,
        r == Err::<Vec<u8>, CryptError>(CryptError::AuthenticationFailure) ==> !opens_all(
            key@,
            parsed_prefix(data@),
        ),
        parse_records(data@) is None && opens_all(key@, parsed_prefix(data@)) ==> r == Err::<
            Vec<u8>,
            CryptError,
        >(CryptError::TruncatedInput),
        parse_records(data@) matches Some(recs) && !opens_all(key@, recs) ==> r == Err::<
            Vec<u8>,
            CryptError,
        >(CryptError::AuthenticationFailure),
{
    let mut out: Vec<u8> = Vec::new();
    let mut pos: usize = 0;
    let mut done = false;
    let ghost mut opened_recs: Seq<RecordView> = Seq::empty();

    proof {
        assert(data@.skip(0) =~= data@);
        if parse_records(data@) is Some {
            assert(opened_recs + parse_records(data@)->Some_0 =~= parse_records(data@)->Some_0);
        }
        assert(opened_recs + parsed_prefix(data@) =~= parsed_prefix(data@));
        assert(opened(key@, opened_recs) =~= Seq::<Seq<u8>>::empty());
    }

    while !done
        invariant
            key.wf(),
            lanes >= 1,
            pos <= data@.len(),
            opens_all(key@, opened_recs),
            out@ == opened(key@, opened_recs).flatten(),
            parse_decomposition(data@, opened_recs, pos as int),
            done ==> pos == data@.len(),
        decreases data@.len() - pos + (if done { 0int } else { 1int }),
    {
        // Dispatching: read the next framed record for each lane in turn,
        // stopping early at the clean end of the stream.
        let ghost pos0 = pos;
        let mut round: Vec<Record> = Vec::new();
        let mut i: usize = 0;
        while i < lanes && !done
            invariant
                key.wf(),
                lanes >= 1,
                pos <= data@.len(),
                pos0 + i <= pos,
                i == round@.len(),
                opens_all(key@, opened_recs),
                out@ == opened(key@, opened_recs).flatten(),
                forall|k: int| 0 <= k < round@.len() ==> (#[trigger] round@[k]).wf(),
                parse_decomposition(data@, opened_recs + record_views(round@), pos as int),
                done ==> pos == data@.len(),
            decreases lanes - i + (if done { 0int } else { 1int }),
        {
            match decode_record(data, pos) {
                Ok(None) => {
                    done = true;
                },
                Err(e) => {
                    proof {
                        assert(parse_records(data@.skip(pos as int)) is None);
                        assert(parse_records(data@) is None);
                    }
                    return Err(e);
                },
                Ok(Some((rec, next))) => {
                    proof {
                        lemma_parse_step(
                            data@,
                            opened_recs + record_views(round@),
                            pos as int,
                            rec@,
                            next - pos,
                        );
                        assert(record_views(round@.push(rec)) =~= record_views(round@).push(rec@));
                        assert((opened_recs + record_views(round@)).push(rec@) =~= opened_recs
                            + record_views(round@).push(rec@));
                    }
                    round.push(rec);
                    pos = next;
                    i = i + 1;
                },
            }
        }
        // Collecting: open each record of the round in dispatch order and
        // write its plaintext at once. A tag that does not verify aborts the
        // whole stream.
        while round.len() > 0
            invariant
                key.wf(),
                lanes >= 1,
                pos <= data@.len(),
                done || pos0 + lanes <= pos,
                opens_all(key@, opened_recs),
                out@ == opened(key@, opened_recs).flatten(),
                forall|k: int| 0 <= k < round@.len() ==> (#[trigger] round@[k]).wf(),
                parse_decomposition(data@, opened_recs + record_views(round@), pos as int),
                done ==> pos == data@.len(),
            decreases round@.len(),
        {
            let ghost round0 = round@;
            let rec = round.remove(0);
            proof {
                assert(record_views(round0) =~= seq![rec@] + record_views(round@));
            }
            match decrypt_block(key, &rec) {
                Ok(plain) => {
                    let ghost plain_v = plain@;
                    let mut plain = plain;
                    proof {
                        assert(opened(key@, opened_recs.push(rec@)) =~= opened(
                            key@,
                            opened_recs,
                        ).push(plain_v));
                        opened(key@, opened_recs).lemma_flatten_push(plain_v);
                        assert((opened_recs.push(rec@)) + record_views(round@) =~= opened_recs + (
                        seq![rec@] + record_views(round@)));
                    }
                    out.append(&mut plain);
                    proof {
                        opened_recs = opened_recs.push(rec@);
                    }
                },
                Err(_) => {
                    proof {
                        let pp = parsed_prefix(data@);
                        let idx = opened_recs.len() as int;
                        assert(pp[idx] == rec@);
                        assert(unseal_of(key@, pp[idx].nonce, pp[idx].ciphertext) is None);
                        assert(!opens_all(key@, pp));
                        if parse_records(data@) is Some {
                            lemma_parse_implies_prefix(data@);
                            assert(!opens_all(key@, parse_records(data@)->Some_0));
                        }
                    }
                    return Err(CryptError::AuthenticationFailure);
                },
            }
        }
        proof {
            assert(record_views(round@) =~= Seq::<RecordView>::empty());
            assert(opened_recs + record_views(round@) =~= opened_recs);
        }
    }
    proof {
        assert(data@.skip(pos as int) =~= Seq::<u8>::empty());
        assert(parse_records(Seq::<u8>::empty()) == Some(Seq::<RecordView>::empty()));
        assert(opened_recs + Seq::<RecordView>::empty() =~= opened_recs);
        lemma_parse_implies_prefix(data@);
    }
    Ok(out)
}

/// Runs the pipeline over one file's bytes: encryption frames the sealed
/// blocks of `input`, decryption gives the plaintext of `input`'s records
/// back. The per-mode guarantees are those of `encrypt_stream` and
/// `decrypt_stream`.
pub fn run(key: &Key, mode: Mode, input: &Vec<u8>, lanes: usize) -> (r: Result<Vec<u8>, CryptError>)
    requires
        key.wf(),
        lanes >= 1,
    ensures
        mode == Mode::Encrypt ==> r is Ok && (r matches Ok(framed) ==> encryption_of(
            key@,
            framed@,
            input@,
        )),
        mode == Mode::Decrypt ==> {
            &&& (r is Ok <==> decrypts_to(key@, input@) is Some)
            &&& (r matches Ok(plain) ==> decrypts_to(key@, input@) == Some(plain@))
            &&& (r is Err ==> r == Err::<Vec<u8>, CryptError>(CryptError::TruncatedInput) || r
                == Err::<Vec<u8>, CryptError>(CryptError::AuthenticationFailure))
            &&& (r == Err::<Vec<u8>, CryptError>(CryptError::TruncatedInput) ==> parse_records(
                input@,
            ) is None)
            &&& (r == Err::<Vec<u8>, CryptError>(CryptError::AuthenticationFailure) ==> !opens_all(
                key@,
                parsed_prefix(input@),
            ))
            &&& (parse_records(input@) is None && opens_all(key@, parsed_prefix(input@)) ==> r
                == Err::<Vec<u8>, CryptError>(CryptError::TruncatedInput))
            &&& (parse_records(input@) matches Some(recs) && !opens_all(key@, recs) ==> r == Err::<
                Vec<u8>,
                CryptError,
            >(CryptError::AuthenticationFailure))
        },
{
    match mode {
        Mode::Encrypt => encrypt_stream(key, input, lanes),
        Mode::Decrypt => decrypt_stream(key, input, lanes),
    }
}

/// The blocks of a byte sequence, concatenated back together, are the byte
/// sequence: cutting loses nothing and keeps the order.
pub proof fn lemma_blocks_cover(data: Seq<u8>, bs: int)
    requires
        bs >= 1,
    ensures
        blocks_of(data, bs).flatten() == data,
    decreases data.len(),
{
    if data.len() == 0 {
        assert(blocks_of(data, bs).flatten() =~= data);
    } else if data.len() <= bs {
        assert(blocks_of(data, bs) == seq![data]);
        seq![data].lemma_flatten_one_element();
        assert(seq![data].first() == data);
    } else {
        lemma_blocks_cover(data.skip(bs), bs);
        let head = seq![data.take(bs)];
        let tail = blocks_of(data.skip(bs), bs);
        assert(blocks_of(data, bs) == head + tail);
        assert((head + tail).flatten() == head.flatten() + tail.flatten()) by {
            vstd::seq_lib::lemma_flatten_concat(head, tail);
        }
        head.lemma_flatten_one_element();
        assert(head.first() == data.take(bs));
        assert(data.take(bs) + data.skip(bs) =~= data);
    }
}

/// Round trip: any framed stream that is an encryption of `plain` under
/// `key` decrypts under `key` to exactly `plain` — whatever the block count,
/// the lane count that produced it, and the nonces its records carry.
pub proof fn lemma_round_trip(key: Seq<u8>, framed: Seq<u8>, plain: Seq<u8>)
    requires
        encryption_of(key, framed, plain),
    ensures
        decrypts_to(key, framed) == Some(plain),
{
    let recs = parse_records(framed)->Some_0;
    let blocks = blocks_of(plain, BLOCK_SIZE as int);
    assert(opens_all(key, recs));
    assert(opened(key, recs) =~= blocks);
    lemma_blocks_cover(plain, BLOCK_SIZE as int);
}

/// Order preservation: two encryptions of the same plaintext — by runs with
/// any two lane counts — decrypt to the same bytes, the plaintext itself.
/// The framed bytes may differ (each run draws its own nonces); the decrypted
/// output does not depend on how the work was spread over lanes.
pub proof fn lemma_order_preserved(
    key: Seq<u8>,
    framed_a: Seq<u8>,
    framed_b: Seq<u8>,
    plain: Seq<u8>,
)
    requires
        encryption_of(key, framed_a, plain),
        encryption_of(key, framed_b, plain),
    ensures
        decrypts_to(key, framed_a) == decrypts_to(key, framed_b),
        decrypts_to(key, framed_a) == Some(plain),
{
    lemma_round_trip(key, framed_a, plain);
    lemma_round_trip(key, framed_b, plain);
}

/// Truncation detection: cutting a well-formed framed stream anywhere inside
/// a record leaves a stream that no longer parses, while every record still
/// readable before the cut keeps verifying. By `decrypt_stream`'s contract,
/// decrypting such a cut stream therefore fails with `TruncatedInput` — not
/// with a panic, a tag error, or silent partial output.
pub proof fn lemma_truncation_detected(key: Seq<u8>, framed: Seq<u8>, cut: int)
    requires
        parse_records(framed) is Some,
        opens_all(key, parse_records(framed)->Some_0),
        0 <= cut < framed.len(),
        !is_record_boundary(framed, cut),
    ensures
        parse_records(framed.take(cut)) is None,
        opens_all(key, parsed_prefix(framed.take(cut))),
        decrypts_to(key, framed.take(cut)) is None,
    decreases framed.len(),
{
    let t = framed.take(cut);
    let (rec, used) = record_at(framed)->Some_0;
    let full = parse_records(framed)->Some_0;
    let rest = parse_records(framed.skip(used))->Some_0;
    assert(full == seq![rec] + rest);
    if cut < used {
        if cut < HEADER_SIZE {
            assert(record_at(t) is None);
        } else {
            assert(t.take(4) =~= framed.take(4));
            assert(record_at(t) is None);
        }
        assert(parse_records(t) is None);
        assert(parsed_prefix(t) =~= Seq::<RecordView>::empty());
    } else {
        // A cut exactly at `used` would be a boundary, so the cut lies
        // strictly inside a later record.
        assert(cut != used) by {
            if cut == used {
                assert(is_record_boundary(framed.skip(used), 0));
                assert(is_record_boundary(framed, cut));
            }
        }
        assert(t.take(4) =~= framed.take(4));
        assert(t.subrange(4, HEADER_SIZE as int) =~= framed.subrange(4, HEADER_SIZE as int));
        assert(t.subrange(HEADER_SIZE as int, used) =~= framed.subrange(HEADER_SIZE as int, used));
        assert(record_at(t) == Some((rec, used)));
        assert(t.skip(used) =~= framed.skip(used).take(cut - used));
        assert(opens_all(key, rest)) by {
            assert forall|i: int| 0 <= i < rest.len() implies (#[trigger] unseal_of(
                key,
                rest[i].nonce,
                rest[i].ciphertext,
            )) is Some by {
                assert(rest[i] == full[i + 1]);
                assert(unseal_of(key, full[i + 1].nonce, full[i + 1].ciphertext) is Some);
            }
        }
        lemma_truncation_detected(key, framed.skip(used), cut - used);
        assert(parse_records(t.skip(used)) is None);
        assert(parse_records(t) is None);
        let tail_prefix = parsed_prefix(t.skip(used));
        assert(parsed_prefix(t) == seq![rec] + tail_prefix);
        assert(unseal_of(key, full[0].nonce, full[0].ciphertext) is Some);
        assert(opens_all(key, parsed_prefix(t))) by {
            assert forall|i: int| 0 <= i < parsed_prefix(t).len() implies (#[trigger] unseal_of(
                key,
                parsed_prefix(t)[i].nonce,
                parsed_prefix(t)[i].ciphertext,
            )) is Some by {
                if i == 0 {
                    assert(parsed_prefix(t)[0] == rec);
                    assert(rec == full[0]);
                } else {
                    assert(parsed_prefix(t)[i] == tail_prefix[i - 1]);
                    assert(unseal_of(
                        key,
                        tail_prefix[i - 1].nonce,
                        tail_prefix[i - 1].ciphertext,
                    ) is Some);
                }
            }
        }
    }
}

} // verus!
