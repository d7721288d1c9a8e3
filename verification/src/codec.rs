//! Encoding and decoding snapshots as byte streams, in a binary and a text
//! format, with fail-fast validation on decode.

use vstd::prelude::*;

use crate::binfmt;
use crate::errors::Error;
use crate::errors::ValidationError;
use crate::snapshot::lemma_closed_models;
use crate::snapshot::models;
use crate::snapshot::models_closed;
use crate::snapshot::models_have_id;
use crate::snapshot::spec_has_record;
use crate::snapshot::RecordModel;
use crate::snapshot::SavedLayout;
use crate::textfmt;

verus! {

/// The two persisted stream formats.
#[derive(Clone, Copy, Debug, PartialEq, Eq, Structural)]
pub enum StreamFormat {
    /// Fixed-width little-endian positional encoding.
    Binary,
    /// Pretty-printed structured text array.
    Text,
}

/// The bytes a record list encodes to in a format.
pub open spec fn spec_encode(ms: Seq<RecordModel>, format: StreamFormat) -> Seq<u8> {
    match format {
        StreamFormat::Binary => binfmt::spec_enc_stream(ms),
        StreamFormat::Text => textfmt::spec_t_enc_stream(ms),
    }
}

/// The record list a byte stream spells in a format, if any.
pub open spec fn spec_decode_records(b: Seq<u8>, format: StreamFormat) -> Option<
    Seq<RecordModel>,
> {
    match format {
        StreamFormat::Binary => binfmt::spec_dec_stream(b),
        StreamFormat::Text => textfmt::spec_dec_stream_text(b),
    }
}

/// Encode a layout's records as a byte stream.
pub fn encode(layout: &SavedLayout, format: StreamFormat) -> (r: Vec<u8>)
    ensures
        r@ == spec_encode(models(layout@), format),
{
    match format {
        StreamFormat::Binary => binfmt::encode_stream(&layout.nodes),
        StreamFormat::Text => textfmt::encode_stream_text(&layout.nodes),
    }
}

/// Everything decoding promises: validation succeeds exactly on a
/// non-empty, referentially closed record list, and each failure names its
/// cause — a malformed stream, an empty list, or the record and child id of
/// a dangling reference.
pub open spec fn decode_post(b: Seq<u8>, format: StreamFormat, r: Result<SavedLayout, Error>) -> bool {
    let dec = spec_decode_records(b, format);
    &&& (r matches Ok(s) ==> s.wf() && dec == Some(models(s@)))
    &&& (r is Ok <==> (dec matches Some(ms) && ms.len() > 0 && models_closed(ms)))
    &&& (dec is None <==> r == Err::<SavedLayout, Error>(
        Error::Validation(ValidationError::Malformed),
    ))
    &&& ((r matches Err(Error::Validation(ValidationError::EmptyLayout))) <==> dec == Some(
        Seq::<RecordModel>::empty(),
    ))
    &&& (r matches Err(Error::Validation(ValidationError::MissingChild { node, child }))
        ==> dec matches Some(ms) && exists|i: int, j: int|
        0 <= i < ms.len() && 0 <= j < ms[i].children.len() && #[trigger] ms[i].children[j]
            == child && ms[i].id == node && !models_have_id(ms, child))
    &&& (r matches Err(e) ==> e is Validation)
}

/// Decode a byte stream into a validated layout.
///
/// The stream is re-validated exactly as construction validates: a stream
/// whose records reference a child id absent from the record set fails with
/// a validation error here, never later during traversal.  Bytes after the
/// encoded records are ignored.
#[verifier::rlimit(100)]
#[verifier::spinoff_prover]
pub fn decode(bytes: &Vec<u8>, format: StreamFormat) -> (r: Result<SavedLayout, Error>)
    ensures
        decode_post(bytes@, format, r),
{
    let parsed = match format {
        StreamFormat::Binary => binfmt::decode_stream(bytes),
        StreamFormat::Text => textfmt::decode_stream_text(bytes),
    };
    let nodes = match parsed {
        Some(nodes) => nodes,
        None => {
            return Err(Error::Validation(ValidationError::Malformed));
        },
    };
    proof {
        lemma_closed_models(nodes@);
    }
    let r = SavedLayout::new(nodes);
    proof {
        let ms = models(nodes@);
        assert(ms.len() == nodes@.len());
        if nodes@.len() == 0 {
            assert(ms =~= Seq::<RecordModel>::empty());
        } else {
            assert(ms != Seq::<RecordModel>::empty()) by {
                assert(Seq::<RecordModel>::empty().len() == 0);
            }
        }
        if r is Err {
            let e = r->Err_0;
            match e {
                Error::Validation(ValidationError::MissingChild { node, child }) => {
                    let (i, j) = choose|i: int, j: int|
                        0 <= i < nodes@.len() && 0 <= j < nodes@[i].children@.len()
                            && #[trigger] nodes@[i].children@[j] == child && nodes@[i].id == node
                            && !spec_has_record(nodes@, child);
                    assert(ms[i].children[j] == child && ms[i].id == node);
                    assert(!models_have_id(ms, child));
                },
                _ => {},
            }
        }
    }
    r
}

impl SavedLayout {
    /// Serialize the layout: the text format when `json_output` holds, the
    /// binary format otherwise.
    pub fn serialize(&self, json_output: bool) -> (r: Vec<u8>)
        ensures
            r@ == spec_encode(
                models(self@),
                if json_output {
                    StreamFormat::Text
                } else {
                    StreamFormat::Binary
                },
            ),
    {
        if json_output {
            encode(self, StreamFormat::Text)
        } else {
            encode(self, StreamFormat::Binary)
        }
    }

    /// Load a layout from a byte stream, validating it.
    #[verifier::rlimit(100)]
    #[verifier::spinoff_prover]
    pub fn deserialize(bytes: &Vec<u8>, json_input: bool) -> (r: Result<SavedLayout, Error>)
        ensures
            decode_post(
                bytes@,
                if json_input {
                    StreamFormat::Text
                } else {
                    StreamFormat::Binary
                },
                r,
            ),
    {
        let stream_format = if json_input {
            StreamFormat::Text
        } else {
            StreamFormat::Binary
        };
        decode(bytes, stream_format)
    }
}

/// The round-trip law: for any valid layout and either format, decoding the
/// encoding yields exactly the records that were encoded — the same record
/// set, in the same order, with the same field values — and those records
/// pass validation, so decoding returns a layout equal to the original
/// record for record.
pub proof fn lemma_round_trip(s: SavedLayout, format: StreamFormat)
    requires
        s.wf(),
    ensures
        spec_decode_records(spec_encode(models(s@), format), format) == Some(models(s@)),
        models(s@).len() > 0,
        models_closed(models(s@)),
{
    let ms = models(s@);
    assert(s.nodes.len() == s.nodes@.len());
    match format {
        StreamFormat::Binary => {
            assert(binfmt::bounded_records(ms)) by {
                assert forall|i: int| 0 <= i < ms.len() implies (#[trigger] ms[i].children).len()
                    <= usize::MAX by {
                    assert(ms[i].children == s@[i].children@);
                    assert(s@[i].children.len() == s@[i].children@.len());
                }
            }
            binfmt::lemma_stream_round_trip(ms);
        },
        StreamFormat::Text => {
            textfmt::lemma_text_round_trip(ms);
        },
    }
    lemma_closed_models(s@);
}

} // verus!
