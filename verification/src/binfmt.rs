//! The binary stream format: a fixed-width, little-endian positional
//! encoding of a record list, with no schema tag and with trailing bytes
//! ignored on decode.
//!
//! Layout of a stream: a 64-bit record count, then each record as
//! `id:u64, kind tag:u32 (+ payload), layout tag:u32, child count:u64,
//! child ids:u64...`.  Signed fields travel as their two's complement.

use vstd::prelude::*;

use crate::snapshot::models;
use crate::snapshot::KindNode;
use crate::snapshot::LayoutNode;
use crate::snapshot::RecordModel;
use crate::snapshot::SavedNode;
use crate::snapshot::SavedWindow;

verus! {

// ---------------------------------------------------------------------------
// Two's complement as arithmetic.
// ---------------------------------------------------------------------------

/// The unsigned 64-bit word that carries a signed value.
pub open spec fn spec_i64_to_u64(v: i64) -> u64 {
    if v >= 0 {
        v as u64
    } else {
        (v + 0x1_0000_0000_0000_0000) as u64
    }
}

/// The signed value a 64-bit word carries.
pub open spec fn spec_u64_to_i64(u: u64) -> i64 {
    if u < 0x8000_0000_0000_0000 {
        u as i64
    } else {
        (u - 0x1_0000_0000_0000_0000) as i64
    }
}

/// The unsigned 32-bit word that carries a signed value.
pub open spec fn spec_i32_to_u32(v: i32) -> u32 {
    if v >= 0 {
        v as u32
    } else {
        (v + 0x1_0000_0000) as u32
    }
}

/// The signed value a 32-bit word carries.
pub open spec fn spec_u32_to_i32(u: u32) -> i32 {
    if u < 0x8000_0000 {
        u as i32
    } else {
        (u - 0x1_0000_0000) as i32
    }
}

pub fn i64_to_u64(v: i64) -> (r: u64)
    ensures
        r == spec_i64_to_u64(v),
{
    if v >= 0 {
        v as u64
    } else {
        let offset = v - i64::MIN;
        0x8000_0000_0000_0000u64 + (offset as u64)
    }
}

pub fn u64_to_i64(u: u64) -> (r: i64)
    ensures
        r == spec_u64_to_i64(u),
{
    if u < 0x8000_0000_0000_0000 {
        u as i64
    } else {
        let offset = u - 0x8000_0000_0000_0000u64;
        i64::MIN + (offset as i64)
    }
}

pub fn i32_to_u32(v: i32) -> (r: u32)
    ensures
        r == spec_i32_to_u32(v),
{
    if v >= 0 {
        v as u32
    } else {
        let offset = v - i32::MIN;
        0x8000_0000u32 + (offset as u32)
    }
}

pub fn u32_to_i32(u: u32) -> (r: i32)
    ensures
        r == spec_u32_to_i32(u),
{
    if u < 0x8000_0000 {
        u as i32
    } else {
        let offset = u - 0x8000_0000u32;
        i32::MIN + (offset as i32)
    }
}

/// The two conversions invert each other.
pub proof fn lemma_i64_u64_inverse(v: i64)
    ensures
        spec_u64_to_i64(spec_i64_to_u64(v)) == v,
{
}

pub proof fn lemma_i32_u32_inverse(v: i32)
    ensures
        spec_u32_to_i32(spec_i32_to_u32(v)) == v,
{
}

// ---------------------------------------------------------------------------
// Words as little-endian bytes.
// ---------------------------------------------------------------------------

pub open spec fn spec_enc_u64(v: u64) -> Seq<u8> {
    seq![
        (v & 0xff) as u8,
        ((v >> 8) & 0xff) as u8,
        ((v >> 16) & 0xff) as u8,
        ((v >> 24) & 0xff) as u8,
        ((v >> 32) & 0xff) as u8,
        ((v >> 40) & 0xff) as u8,
        ((v >> 48) & 0xff) as u8,
        ((v >> 56) & 0xff) as u8,
    ]
}

pub open spec fn spec_enc_u32(v: u32) -> Seq<u8> {
    seq![
        (v & 0xff) as u8,
        ((v >> 8) & 0xff) as u8,
        ((v >> 16) & 0xff) as u8,
        ((v >> 24) & 0xff) as u8,
    ]
}

/// The word spelled by eight bytes starting at `pos`.
pub open spec fn spec_asm_u64(b: Seq<u8>, pos: int) -> u64 {
    (b[pos] as u64) | (b[pos + 1] as u64) << 8 | (b[pos + 2] as u64) << 16 | (b[pos + 3] as u64)
        << 24 | (b[pos + 4] as u64) << 32 | (b[pos + 5] as u64) << 40 | (b[pos + 6] as u64) << 48
        | (b[pos + 7] as u64) << 56
}

/// The word spelled by four bytes starting at `pos`.
pub open spec fn spec_asm_u32(b: Seq<u8>, pos: int) -> u32 {
    (b[pos] as u32) | (b[pos + 1] as u32) << 8 | (b[pos + 2] as u32) << 16 | (b[pos + 3] as u32)
        << 24
}

pub open spec fn spec_dec_u64(b: Seq<u8>, pos: int) -> Option<(u64, int)> {
    if 0 <= pos && pos + 8 <= b.len() {
        Some((spec_asm_u64(b, pos), pos + 8))
    } else {
        None
    }
}

pub open spec fn spec_dec_u32(b: Seq<u8>, pos: int) -> Option<(u32, int)> {
    if 0 <= pos && pos + 4 <= b.len() {
        Some((spec_asm_u32(b, pos), pos + 4))
    } else {
        None
    }
}

/// A window of bytes standing at a position.
pub open spec fn bytes_at(b: Seq<u8>, pos: int, w: Seq<u8>) -> bool {
    &&& 0 <= pos
    &&& pos + w.len() <= b.len()
    &&& b.subrange(pos, pos + w.len() as int) == w
}

pub proof fn lemma_bytes_at_split(b: Seq<u8>, pos: int, x: Seq<u8>, y: Seq<u8>)
    requires
        bytes_at(b, pos, x + y),
    ensures
        bytes_at(b, pos, x),
        bytes_at(b, pos + x.len(), y),
{
    let w = x + y;
    assert(b.subrange(pos, pos + x.len() as int) =~= x) by {
        assert forall|k: int| 0 <= k < x.len() implies b.subrange(pos, pos + x.len() as int)[k]
            == x[k] by {
            assert(b.subrange(pos, pos + w.len() as int)[k] == w[k]);
        }
    }
    assert(b.subrange(pos + x.len(), pos + x.len() + y.len() as int) =~= y) by {
        assert forall|k: int| 0 <= k < y.len() implies b.subrange(
            pos + x.len(),
            pos + x.len() + y.len() as int,
        )[k] == y[k] by {
            assert(b.subrange(pos, pos + w.len() as int)[x.len() + k] == w[x.len() + k]);
            assert(w[x.len() + k] == y[k]);
        }
    }
}

pub proof fn lemma_dec_enc_u64(b: Seq<u8>, pos: int, v: u64)
    requires
        bytes_at(b, pos, spec_enc_u64(v)),
    ensures
        spec_dec_u64(b, pos) == Some((v, pos + 8)),
{
    let e = spec_enc_u64(v);
    assert forall|k: int| 0 <= k < 8 implies b[pos + k] == e[k] by {
        assert(b.subrange(pos, pos + 8)[k] == e[k]);
    }
    let b0 = (v & 0xff) as u8;
    let b1 = ((v >> 8) & 0xff) as u8;
    let b2 = ((v >> 16) & 0xff) as u8;
    let b3 = ((v >> 24) & 0xff) as u8;
    let b4 = ((v >> 32) & 0xff) as u8;
    let b5 = ((v >> 40) & 0xff) as u8;
    let b6 = ((v >> 48) & 0xff) as u8;
    let b7 = ((v >> 56) & 0xff) as u8;
    assert((b0 as u64) | (b1 as u64) << 8 | (b2 as u64) << 16 | (b3 as u64) << 24 | (b4 as u64)
        << 32 | (b5 as u64) << 40 | (b6 as u64) << 48 | (b7 as u64) << 56 == v) by (bit_vector)
        requires
            b0 == (v & 0xff) as u8,
            b1 == ((v >> 8) & 0xff) as u8,
            b2 == ((v >> 16) & 0xff) as u8,
            b3 == ((v >> 24) & 0xff) as u8,
            b4 == ((v >> 32) & 0xff) as u8,
            b5 == ((v >> 40) & 0xff) as u8,
            b6 == ((v >> 48) & 0xff) as u8,
            b7 == ((v >> 56) & 0xff) as u8,
    ;
}

pub proof fn lemma_dec_enc_u32(b: Seq<u8>, pos: int, v: u32)
    requires
        bytes_at(b, pos, spec_enc_u32(v)),
    ensures
        spec_dec_u32(b, pos) == Some((v, pos + 4)),
{
    let e = spec_enc_u32(v);
    assert forall|k: int| 0 <= k < 4 implies b[pos + k] == e[k] by {
        assert(b.subrange(pos, pos + 4)[k] == e[k]);
    }
    let b0 = (v & 0xff) as u8;
    let b1 = ((v >> 8) & 0xff) as u8;
    let b2 = ((v >> 16) & 0xff) as u8;
    let b3 = ((v >> 24) & 0xff) as u8;
    assert((b0 as u32) | (b1 as u32) << 8 | (b2 as u32) << 16 | (b3 as u32) << 24 == v)
        by (bit_vector)
        requires
            b0 == (v & 0xff) as u8,
            b1 == ((v >> 8) & 0xff) as u8,
            b2 == ((v >> 16) & 0xff) as u8,
            b3 == ((v >> 24) & 0xff) as u8,
    ;
}

// ---------------------------------------------------------------------------
// Exec byte writers and readers.
// ---------------------------------------------------------------------------

pub fn write_u64(out: &mut Vec<u8>, v: u64)
    ensures
        final(out)@ == old(out)@ + spec_enc_u64(v),
{
    out.push((v & 0xff) as u8);
    out.push(((v >> 8) & 0xff) as u8);
    out.push(((v >> 16) & 0xff) as u8);
    out.push(((v >> 24) & 0xff) as u8);
    out.push(((v >> 32) & 0xff) as u8);
    out.push(((v >> 40) & 0xff) as u8);
    out.push(((v >> 48) & 0xff) as u8);
    out.push(((v >> 56) & 0xff) as u8);
    proof {
        assert(out@ =~= old(out)@ + spec_enc_u64(v));
    }
}

pub fn write_u32(out: &mut Vec<u8>, v: u32)
    ensures
        final(out)@ == old(out)@ + spec_enc_u32(v),
{
    out.push((v & 0xff) as u8);
    out.push(((v >> 8) & 0xff) as u8);
    out.push(((v >> 16) & 0xff) as u8);
    out.push(((v >> 24) & 0xff) as u8);
    proof {
        assert(out@ =~= old(out)@ + spec_enc_u32(v));
    }
}

pub fn read_u64(b: &Vec<u8>, pos: &mut usize) -> (r: Option<u64>)
    requires
        *old(pos) <= b@.len(),
    ensures
        match r {
            Some(v) => spec_dec_u64(b@, *old(pos) as int) == Some((v, *final(pos) as int)) && *final(pos) <= b@.len(),
            None => spec_dec_u64(b@, *old(pos) as int) is None && *final(pos) == *old(pos),
        },
{
    let p = *pos;
    if b.len() - p < 8 {
        return None;
    }
    let v = (b[p] as u64) | (b[p + 1] as u64) << 8 | (b[p + 2] as u64) << 16 | (b[p + 3] as u64)
        << 24 | (b[p + 4] as u64) << 32 | (b[p + 5] as u64) << 40 | (b[p + 6] as u64) << 48
        | (b[p + 7] as u64) << 56;
    *pos = p + 8;
    Some(v)
}

pub fn read_u32(b: &Vec<u8>, pos: &mut usize) -> (r: Option<u32>)
    requires
        *old(pos) <= b@.len(),
    ensures
        match r {
            Some(v) => spec_dec_u32(b@, *old(pos) as int) == Some((v, *final(pos) as int)) && *final(pos) <= b@.len(),
            None => spec_dec_u32(b@, *old(pos) as int) is None && *final(pos) == *old(pos),
        },
{
    let p = *pos;
    if b.len() - p < 4 {
        return None;
    }
    let v = (b[p] as u32) | (b[p + 1] as u32) << 8 | (b[p + 2] as u32) << 16 | (b[p + 3] as u32)
        << 24;
    *pos = p + 4;
    Some(v)
}

// ---------------------------------------------------------------------------
// Records as byte streams.
// ---------------------------------------------------------------------------

pub open spec fn spec_enc_kind(k: KindNode) -> Seq<u8> {
    match k {
        KindNode::Workspace(num) => spec_enc_u32(0) + spec_enc_u32(spec_i32_to_u32(num)),
        KindNode::NormalWindow(w) => spec_enc_u32(1) + spec_enc_u64(spec_i64_to_u64(w.width))
            + spec_enc_u64(spec_i64_to_u64(w.height)),
        KindNode::Splitter => spec_enc_u32(2),
    }
}

pub open spec fn spec_layout_tag(l: LayoutNode) -> u32 {
    match l {
        LayoutNode::SplitH => 0,
        LayoutNode::SplitV => 1,
        LayoutNode::Stacked => 2,
        LayoutNode::Tabbed => 3,
    }
}

pub open spec fn spec_enc_ids(ids: Seq<u64>) -> Seq<u8>
    decreases ids.len(),
{
    if ids.len() == 0 {
        Seq::empty()
    } else {
        spec_enc_u64(ids[0]) + spec_enc_ids(ids.drop_first())
    }
}

pub open spec fn spec_enc_record(m: RecordModel) -> Seq<u8> {
    spec_enc_u64(m.id) + spec_enc_kind(m.kind) + spec_enc_u32(spec_layout_tag(m.layout))
        + spec_enc_u64(m.children.len() as u64) + spec_enc_ids(m.children)
}

pub open spec fn spec_enc_records(ms: Seq<RecordModel>) -> Seq<u8>
    decreases ms.len(),
{
    if ms.len() == 0 {
        Seq::empty()
    } else {
        spec_enc_record(ms[0]) + spec_enc_records(ms.drop_first())
    }
}

/// The whole binary stream of a record list.
pub open spec fn spec_enc_stream(ms: Seq<RecordModel>) -> Seq<u8> {
    spec_enc_u64(ms.len() as u64) + spec_enc_records(ms)
}

pub open spec fn spec_dec_kind(b: Seq<u8>, pos: int) -> Option<(KindNode, int)> {
    match spec_dec_u32(b, pos) {
        None => None,
        Some((tag, p)) => if tag == 0 {
            match spec_dec_u32(b, p) {
                None => None,
                Some((u, p2)) => Some((KindNode::Workspace(spec_u32_to_i32(u)), p2)),
            }
        } else if tag == 1 {
            match spec_dec_u64(b, p) {
                None => None,
                Some((w, p2)) => match spec_dec_u64(b, p2) {
                    None => None,
                    Some((h, p3)) => Some(
                        (
                            KindNode::NormalWindow(
                                SavedWindow {
                                    width: spec_u64_to_i64(w),
                                    height: spec_u64_to_i64(h),
                                },
                            ),
                            p3,
                        ),
                    ),
                },
            }
        } else if tag == 2 {
            Some((KindNode::Splitter, p))
        } else {
            None
        },
    }
}

pub open spec fn spec_dec_layout(b: Seq<u8>, pos: int) -> Option<(LayoutNode, int)> {
    match spec_dec_u32(b, pos) {
        None => None,
        Some((tag, p)) => if tag == 0 {
            Some((LayoutNode::SplitH, p))
        } else if tag == 1 {
            Some((LayoutNode::SplitV, p))
        } else if tag == 2 {
            Some((LayoutNode::Stacked, p))
        } else if tag == 3 {
            Some((LayoutNode::Tabbed, p))
        } else {
            None
        },
    }
}

pub open spec fn spec_dec_ids(b: Seq<u8>, pos: int, k: nat) -> Option<(Seq<u64>, int)>
    decreases k,
{
    if k == 0 {
        Some((Seq::empty(), pos))
    } else {
        match spec_dec_u64(b, pos) {
            None => None,
            Some((id, p)) => match spec_dec_ids(b, p, (k - 1) as nat) {
                None => None,
                Some((ids, end)) => Some((seq![id] + ids, end)),
            },
        }
    }
}

pub open spec fn spec_dec_record(b: Seq<u8>, pos: int) -> Option<(RecordModel, int)> {
    match spec_dec_u64(b, pos) {
        None => None,
        Some((id, p1)) => match spec_dec_kind(b, p1) {
            None => None,
            Some((kind, p2)) => match spec_dec_layout(b, p2) {
                None => None,
                Some((layout, p3)) => match spec_dec_u64(b, p3) {
                    None => None,
                    Some((count, p4)) => if count <= usize::MAX as u64 {
                        match spec_dec_ids(b, p4, count as nat) {
                            None => None,
                            Some((children, end)) => Some(
                                (RecordModel { id, kind, layout, children }, end),
                            ),
                        }
                    } else {
                        None
                    },
                },
            },
        },
    }
}

pub open spec fn spec_dec_records(b: Seq<u8>, pos: int, k: nat) -> Option<(Seq<RecordModel>, int)>
    decreases k,
{
    if k == 0 {
        Some((Seq::empty(), pos))
    } else {
        match spec_dec_record(b, pos) {
            None => None,
            Some((m, p)) => match spec_dec_records(b, p, (k - 1) as nat) {
                None => None,
                Some((ms, end)) => Some((seq![m] + ms, end)),
            },
        }
    }
}

/// The record list a binary stream spells, if any; trailing bytes after the
/// last record are ignored.
pub open spec fn spec_dec_stream(b: Seq<u8>) -> Option<Seq<RecordModel>> {
    match spec_dec_u64(b, 0) {
        None => None,
        Some((count, p)) => if count <= usize::MAX as u64 {
            match spec_dec_records(b, p, count as nat) {
                None => None,
                Some((ms, _end)) => Some(ms),
            }
        } else {
            None
        },
    }
}

} // verus!

verus! {

// ---------------------------------------------------------------------------
// Concatenation lemmas for the recursive encoders.
// ---------------------------------------------------------------------------

pub proof fn lemma_enc_ids_push(ids: Seq<u64>, x: u64)
    ensures
        spec_enc_ids(ids.push(x)) == spec_enc_ids(ids) + spec_enc_u64(x),
    decreases ids.len(),
{
    if ids.len() == 0 {
        assert(ids.push(x)[0] == x);
        assert(ids.push(x).drop_first() =~= Seq::<u64>::empty());
        assert(spec_enc_ids(ids.push(x)) == spec_enc_u64(x) + spec_enc_ids(Seq::<u64>::empty()));
        assert(spec_enc_u64(x) + Seq::<u8>::empty() =~= spec_enc_u64(x));
        assert(spec_enc_ids(ids) + spec_enc_u64(x) =~= spec_enc_u64(x));
    } else {
        assert(ids.push(x).drop_first() =~= ids.drop_first().push(x));
        assert(ids.push(x)[0] == ids[0]);
        lemma_enc_ids_push(ids.drop_first(), x);
        assert(spec_enc_ids(ids.push(x)) == spec_enc_u64(ids[0]) + spec_enc_ids(
            ids.drop_first().push(x),
        ));
        assert(spec_enc_u64(ids[0]) + (spec_enc_ids(ids.drop_first()) + spec_enc_u64(x)) =~= (
        spec_enc_u64(ids[0]) + spec_enc_ids(ids.drop_first())) + spec_enc_u64(x));
        assert(spec_enc_ids(ids) == spec_enc_u64(ids[0]) + spec_enc_ids(ids.drop_first()));
    }
}

pub proof fn lemma_enc_records_push(ms: Seq<RecordModel>, m: RecordModel)
    ensures
        spec_enc_records(ms.push(m)) == spec_enc_records(ms) + spec_enc_record(m),
    decreases ms.len(),
{
    if ms.len() == 0 {
        assert(ms.push(m)[0] == m);
        assert(ms.push(m).drop_first() =~= Seq::<RecordModel>::empty());
        assert(spec_enc_records(ms.push(m)) == spec_enc_record(m) + spec_enc_records(
            Seq::<RecordModel>::empty(),
        ));
        assert(spec_enc_record(m) + Seq::<u8>::empty() =~= spec_enc_record(m));
        assert(spec_enc_records(ms) + spec_enc_record(m) =~= spec_enc_record(m));
    } else {
        assert(ms.push(m).drop_first() =~= ms.drop_first().push(m));
        assert(ms.push(m)[0] == ms[0]);
        lemma_enc_records_push(ms.drop_first(), m);
        assert(spec_enc_records(ms.push(m)) == spec_enc_record(ms[0]) + spec_enc_records(
            ms.drop_first().push(m),
        ));
        assert(spec_enc_record(ms[0]) + (spec_enc_records(ms.drop_first()) + spec_enc_record(m))
            =~= (spec_enc_record(ms[0]) + spec_enc_records(ms.drop_first())) + spec_enc_record(m));
        assert(spec_enc_records(ms) == spec_enc_record(ms[0]) + spec_enc_records(ms.drop_first()));
    }
}

// ---------------------------------------------------------------------------
// Exec encoding.
// ---------------------------------------------------------------------------

pub fn layout_tag(l: LayoutNode) -> (r: u32)
    ensures
        r == spec_layout_tag(l),
{
    match l {
        LayoutNode::SplitH => 0,
        LayoutNode::SplitV => 1,
        LayoutNode::Stacked => 2,
        LayoutNode::Tabbed => 3,
    }
}

#[verifier::loop_isolation(false)]
fn write_ids(out: &mut Vec<u8>, ids: &Vec<u64>)
    ensures
        final(out)@ == old(out)@ + spec_enc_ids(ids@),
{
    let ghost out0 = out@;
    let mut j: usize = 0;
    while j < ids.len()
        invariant
            j <= ids@.len(),
            out@ == out0 + spec_enc_ids(ids@.take(j as int)),
        decreases ids@.len() - j,
    {
        write_u64(out, ids[j]);
        proof {
            assert(ids@.take((j + 1) as int) =~= ids@.take(j as int).push(ids@[j as int]));
            lemma_enc_ids_push(ids@.take(j as int), ids@[j as int]);
            assert(out@ =~= out0 + spec_enc_ids(ids@.take((j + 1) as int)));
        }
        j += 1;
    }
    proof {
        assert(ids@.take(ids@.len() as int) =~= ids@);
    }
}

fn write_record(out: &mut Vec<u8>, n: &SavedNode)
    ensures
        final(out)@ == old(out)@ + spec_enc_record(n.model()),
{
    let ghost out0 = out@;
    write_u64(out, n.id);
    match &n.kind {
        KindNode::Workspace(num) => {
            write_u32(out, 0);
            write_u32(out, i32_to_u32(*num));
        },
        KindNode::NormalWindow(w) => {
            write_u32(out, 1);
            write_u64(out, i64_to_u64(w.width));
            write_u64(out, i64_to_u64(w.height));
        },
        KindNode::Splitter => {
            write_u32(out, 2);
        },
    }
    proof {
        assert(out@ =~= out0 + spec_enc_u64(n.id) + spec_enc_kind(n.kind));
    }
    let ghost out1 = out@;
    write_u32(out, layout_tag(n.layout));
    write_u64(out, n.children.len() as u64);
    write_ids(out, &n.children);
    proof {
        assert(out@ =~= out1 + spec_enc_u32(spec_layout_tag(n.layout)) + spec_enc_u64(
            n.children@.len() as u64,
        ) + spec_enc_ids(n.children@));
        assert(out@ =~= out0 + spec_enc_record(n.model()));
    }
}

/// Encode a record list as a binary stream.
#[verifier::loop_isolation(false)]
pub fn encode_stream(nodes: &Vec<SavedNode>) -> (r: Vec<u8>)
    ensures
        r@ == spec_enc_stream(models(nodes@)),
{
    let mut out: Vec<u8> = Vec::new();
    write_u64(&mut out, nodes.len() as u64);
    proof {
        assert(models(nodes@).len() == nodes@.len());
        assert(out@ =~= spec_enc_u64(nodes@.len() as u64) + spec_enc_records(
            models(nodes@).take(0),
        ));
    }
    let mut i: usize = 0;
    while i < nodes.len()
        invariant
            i <= nodes@.len(),
            models(nodes@).len() == nodes@.len(),
            out@ == spec_enc_u64(nodes@.len() as u64) + spec_enc_records(
                models(nodes@).take(i as int),
            ),
        decreases nodes@.len() - i,
    {
        write_record(&mut out, &nodes[i]);
        proof {
            let ms = models(nodes@);
            assert(ms[i as int] == nodes@[i as int].model());
            assert(ms.take((i + 1) as int) =~= ms.take(i as int).push(ms[i as int]));
            lemma_enc_records_push(ms.take(i as int), ms[i as int]);
            assert(out@ =~= spec_enc_u64(nodes@.len() as u64) + spec_enc_records(
                ms.take((i + 1) as int),
            ));
        }
        i += 1;
    }
    proof {
        assert(models(nodes@).take(nodes@.len() as int) =~= models(nodes@));
    }
    out
}

// ---------------------------------------------------------------------------
// Exec decoding.
// ---------------------------------------------------------------------------

pub open spec fn comb_ids(prefix: Seq<u64>, r: Option<(Seq<u64>, int)>) -> Option<(Seq<u64>, int)> {
    match r {
        None => None,
        Some((ids, end)) => Some((prefix + ids, end)),
    }
}

pub open spec fn comb_records(prefix: Seq<RecordModel>, r: Option<(Seq<RecordModel>, int)>) -> Option<
    (Seq<RecordModel>, int),
> {
    match r {
        None => None,
        Some((ms, end)) => Some((prefix + ms, end)),
    }
}

#[verifier::loop_isolation(false)]
fn read_ids(b: &Vec<u8>, pos: &mut usize, count: usize) -> (r: Option<Vec<u64>>)
    requires
        *old(pos) <= b@.len(),
    ensures
        match r {
            Some(ids) => spec_dec_ids(b@, *old(pos) as int, count as nat) == Some(
                (ids@, *final(pos) as int),
            ) && *final(pos) <= b@.len(),
            None => spec_dec_ids(b@, *old(pos) as int, count as nat) is None && *final(pos)
                <= b@.len(),
        },
{
    let ghost p0 = *pos as int;
    let mut ids: Vec<u64> = Vec::new();
    proof {
        assert(comb_ids(ids@, spec_dec_ids(b@, p0, count as nat)) == spec_dec_ids(
            b@,
            p0,
            count as nat,
        )) by {
            if spec_dec_ids(b@, p0, count as nat) is Some {
                let (rest, e) = spec_dec_ids(b@, p0, count as nat)->Some_0;
                assert(ids@ + rest =~= rest);
            }
        }
    }
    let mut j: usize = 0;
    while j < count
        invariant
            j <= count,
            *pos <= b@.len(),
            ids@.len() == j,
            comb_ids(ids@, spec_dec_ids(b@, *pos as int, (count - j) as nat)) == spec_dec_ids(
                b@,
                p0,
                count as nat,
            ),
        decreases count - j,
    {
        let ghost p_before = *pos as int;
        let v = match read_u64(b, pos) {
            Some(v) => v,
            None => {
                proof {
                    assert(spec_dec_ids(b@, p_before, (count - j) as nat) is None);
                }
                return None;
            },
        };
        proof {
            let tail = spec_dec_ids(b@, *pos as int, (count - j - 1) as nat);
            assert(spec_dec_ids(b@, p_before, (count - j) as nat) == (match tail {
                None => None::<(Seq<u64>, int)>,
                Some((rest, e)) => Some((seq![v] + rest, e)),
            }));
            if tail is Some {
                let (rest, e) = tail->Some_0;
                assert(ids@.push(v) + rest =~= ids@ + (seq![v] + rest));
            }
        }
        ids.push(v);
        j += 1;
    }
    proof {
        assert(spec_dec_ids(b@, *pos as int, 0) == Some((Seq::<u64>::empty(), *pos as int)));
        assert(ids@ + Seq::<u64>::empty() =~= ids@);
    }
    Some(ids)
}

fn read_kind(b: &Vec<u8>, pos: &mut usize) -> (r: Option<KindNode>)
    requires
        *old(pos) <= b@.len(),
    ensures
        match r {
            Some(k) => spec_dec_kind(b@, *old(pos) as int) == Some((k, *final(pos) as int))
                && *final(pos) <= b@.len(),
            None => spec_dec_kind(b@, *old(pos) as int) is None && *final(pos) <= b@.len(),
        },
{
    let tag = match read_u32(b, pos) {
        Some(tag) => tag,
        None => {
            return None;
        },
    };
    if tag == 0 {
        match read_u32(b, pos) {
            Some(u) => Some(KindNode::Workspace(u32_to_i32(u))),
            None => None,
        }
    } else if tag == 1 {
        let w = match read_u64(b, pos) {
            Some(w) => w,
            None => {
                return None;
            },
        };
        match read_u64(b, pos) {
            Some(h) => Some(
                KindNode::NormalWindow(SavedWindow::new(u64_to_i64(w), u64_to_i64(h))),
            ),
            None => None,
        }
    } else if tag == 2 {
        Some(KindNode::Splitter)
    } else {
        None
    }
}

fn read_layout(b: &Vec<u8>, pos: &mut usize) -> (r: Option<LayoutNode>)
    requires
        *old(pos) <= b@.len(),
    ensures
        match r {
            Some(l) => spec_dec_layout(b@, *old(pos) as int) == Some((l, *final(pos) as int))
                && *final(pos) <= b@.len(),
            None => spec_dec_layout(b@, *old(pos) as int) is None && *final(pos) <= b@.len(),
        },
{
    let tag = match read_u32(b, pos) {
        Some(tag) => tag,
        None => {
            return None;
        },
    };
    if tag == 0 {
        Some(LayoutNode::SplitH)
    } else if tag == 1 {
        Some(LayoutNode::SplitV)
    } else if tag == 2 {
        Some(LayoutNode::Stacked)
    } else if tag == 3 {
        Some(LayoutNode::Tabbed)
    } else {
        None
    }
}

fn read_record(b: &Vec<u8>, pos: &mut usize) -> (r: Option<SavedNode>)
    requires
        *old(pos) <= b@.len(),
    ensures
        match r {
            Some(n) => spec_dec_record(b@, *old(pos) as int) == Some((n.model(), *final(pos) as int))
                && *final(pos) <= b@.len(),
            None => spec_dec_record(b@, *old(pos) as int) is None && *final(pos) <= b@.len(),
        },
{
    let id = match read_u64(b, pos) {
        Some(id) => id,
        None => {
            return None;
        },
    };
    let kind = match read_kind(b, pos) {
        Some(kind) => kind,
        None => {
            return None;
        },
    };
    let layout = match read_layout(b, pos) {
        Some(layout) => layout,
        None => {
            return None;
        },
    };
    let count64 = match read_u64(b, pos) {
        Some(count64) => count64,
        None => {
            return None;
        },
    };
    if count64 > usize::MAX as u64 {
        return None;
    }
    let count = count64 as usize;
    let children = match read_ids(b, pos, count) {
        Some(children) => children,
        None => {
            return None;
        },
    };
    Some(SavedNode::new(id, kind, layout, children))
}

/// Decode a binary stream into a record list; `None` spells a malformed
/// stream.
#[verifier::loop_isolation(false)]
pub fn decode_stream(b: &Vec<u8>) -> (r: Option<Vec<SavedNode>>)
    ensures
        match r {
            Some(ns) => spec_dec_stream(b@) == Some(models(ns@)),
            None => spec_dec_stream(b@) is None,
        },
{
    let mut pos: usize = 0;
    let count64 = match read_u64(b, &mut pos) {
        Some(count64) => count64,
        None => {
            return None;
        },
    };
    if count64 > usize::MAX as u64 {
        return None;
    }
    let count = count64 as usize;
    let ghost p0 = pos as int;
    let mut nodes: Vec<SavedNode> = Vec::new();
    proof {
        assert(models(nodes@) =~= Seq::<RecordModel>::empty());
        assert(comb_records(models(nodes@), spec_dec_records(b@, p0, count as nat))
            == spec_dec_records(b@, p0, count as nat)) by {
            if spec_dec_records(b@, p0, count as nat) is Some {
                let (rest, e) = spec_dec_records(b@, p0, count as nat)->Some_0;
                assert(models(nodes@) + rest =~= rest);
            }
        }
    }
    let mut i: usize = 0;
    while i < count
        invariant
            i <= count,
            pos <= b@.len(),
            nodes@.len() == i,
            comb_records(models(nodes@), spec_dec_records(b@, pos as int, (count - i) as nat))
                == spec_dec_records(b@, p0, count as nat),
        decreases count - i,
    {
        let ghost p_before = pos as int;
        let n = match read_record(b, &mut pos) {
            Some(n) => n,
            None => {
                proof {
                    assert(spec_dec_records(b@, p_before, (count - i) as nat) is None);
                }
                return None;
            },
        };
        proof {
            let tail = spec_dec_records(b@, pos as int, (count - i - 1) as nat);
            assert(spec_dec_records(b@, p_before, (count - i) as nat) == (match tail {
                None => None::<(Seq<RecordModel>, int)>,
                Some((rest, e)) => Some((seq![n.model()] + rest, e)),
            }));
            assert(models(nodes@.push(n)) =~= models(nodes@).push(n.model()));
            if tail is Some {
                let (rest, e) = tail->Some_0;
                assert(models(nodes@).push(n.model()) + rest =~= models(nodes@) + (seq![n.model()]
                    + rest));
            }
        }
        nodes.push(n);
        i += 1;
    }
    proof {
        assert(spec_dec_records(b@, pos as int, 0) == Some(
            (Seq::<RecordModel>::empty(), pos as int),
        ));
        assert(models(nodes@) + Seq::<RecordModel>::empty() =~= models(nodes@));
    }
    Some(nodes)
}

} // verus!

verus! {

// ---------------------------------------------------------------------------
// The stream format inverts itself: decoding an encoded record list gives
// the list back.
// ---------------------------------------------------------------------------

/// Record lists whose counts fit the wire format's length fields.
pub open spec fn bounded_records(ms: Seq<RecordModel>) -> bool {
    &&& ms.len() <= usize::MAX
    &&& forall|i: int| 0 <= i < ms.len() ==> (#[trigger] ms[i].children).len() <= usize::MAX
}

pub proof fn lemma_dec_enc_ids(b: Seq<u8>, pos: int, ids: Seq<u64>)
    requires
        bytes_at(b, pos, spec_enc_ids(ids)),
    ensures
        spec_dec_ids(b, pos, ids.len()) == Some((ids, pos + spec_enc_ids(ids).len())),
    decreases ids.len(),
{
    if ids.len() == 0 {
        assert(spec_dec_ids(b, pos, 0) == Some((Seq::<u64>::empty(), pos)));
        assert(Seq::<u64>::empty() =~= ids);
    } else {
        let head = spec_enc_u64(ids[0]);
        let tail = spec_enc_ids(ids.drop_first());
        assert(spec_enc_ids(ids) == head + tail);
        lemma_bytes_at_split(b, pos, head, tail);
        lemma_dec_enc_u64(b, pos, ids[0]);
        lemma_dec_enc_ids(b, pos + 8, ids.drop_first());
        assert(seq![ids[0]] + ids.drop_first() =~= ids);
    }
}

pub proof fn lemma_dec_enc_kind(b: Seq<u8>, pos: int, k: KindNode)
    requires
        bytes_at(b, pos, spec_enc_kind(k)),
    ensures
        spec_dec_kind(b, pos) == Some((k, pos + spec_enc_kind(k).len())),
{
    match k {
        KindNode::Workspace(num) => {
            let head = spec_enc_u32(0);
            let tail = spec_enc_u32(spec_i32_to_u32(num));
            lemma_bytes_at_split(b, pos, head, tail);
            lemma_dec_enc_u32(b, pos, 0);
            lemma_dec_enc_u32(b, pos + 4, spec_i32_to_u32(num));
            lemma_i32_u32_inverse(num);
        },
        KindNode::NormalWindow(w) => {
            let head = spec_enc_u32(1);
            let mid = spec_enc_u64(spec_i64_to_u64(w.width));
            let tail = spec_enc_u64(spec_i64_to_u64(w.height));
            assert(spec_enc_kind(k) == head + (mid + tail)) by {
                assert(head + mid + tail =~= head + (mid + tail));
            }
            lemma_bytes_at_split(b, pos, head, mid + tail);
            lemma_bytes_at_split(b, pos + 4, mid, tail);
            lemma_dec_enc_u32(b, pos, 1);
            lemma_dec_enc_u64(b, pos + 4, spec_i64_to_u64(w.width));
            lemma_dec_enc_u64(b, pos + 12, spec_i64_to_u64(w.height));
            lemma_i64_u64_inverse(w.width);
            lemma_i64_u64_inverse(w.height);
        },
        KindNode::Splitter => {
            lemma_dec_enc_u32(b, pos, 2);
        },
    }
}

pub proof fn lemma_dec_enc_layout(b: Seq<u8>, pos: int, l: LayoutNode)
    requires
        bytes_at(b, pos, spec_enc_u32(spec_layout_tag(l))),
    ensures
        spec_dec_layout(b, pos) == Some((l, pos + 4)),
{
    lemma_dec_enc_u32(b, pos, spec_layout_tag(l));
}

pub proof fn lemma_dec_enc_record(b: Seq<u8>, pos: int, m: RecordModel)
    requires
        bytes_at(b, pos, spec_enc_record(m)),
        m.children.len() <= usize::MAX,
    ensures
        spec_dec_record(b, pos) == Some((m, pos + spec_enc_record(m).len())),
{
    let e_id = spec_enc_u64(m.id);
    let e_kind = spec_enc_kind(m.kind);
    let e_layout = spec_enc_u32(spec_layout_tag(m.layout));
    let e_count = spec_enc_u64(m.children.len() as u64);
    let e_ids = spec_enc_ids(m.children);
    assert(spec_enc_record(m) == e_id + (e_kind + (e_layout + (e_count + e_ids)))) by {
        assert(e_id + e_kind + e_layout + e_count + e_ids =~= e_id + (e_kind + (e_layout + (
        e_count + e_ids))));
    }
    lemma_bytes_at_split(b, pos, e_id, e_kind + (e_layout + (e_count + e_ids)));
    let p1 = pos + e_id.len();
    lemma_bytes_at_split(b, p1, e_kind, e_layout + (e_count + e_ids));
    let p2 = p1 + e_kind.len();
    lemma_bytes_at_split(b, p2, e_layout, e_count + e_ids);
    let p3 = p2 + e_layout.len();
    lemma_bytes_at_split(b, p3, e_count, e_ids);
    let p4 = p3 + e_count.len();
    lemma_dec_enc_u64(b, pos, m.id);
    lemma_dec_enc_kind(b, p1, m.kind);
    lemma_dec_enc_layout(b, p2, m.layout);
    lemma_dec_enc_u64(b, p3, m.children.len() as u64);
    lemma_dec_enc_ids(b, p4, m.children);
    assert((m.children.len() as u64) as nat == m.children.len());
    let rebuilt = RecordModel {
        id: m.id,
        kind: m.kind,
        layout: m.layout,
        children: m.children,
    };
    assert(rebuilt =~= m);
}

pub proof fn lemma_dec_enc_records(b: Seq<u8>, pos: int, ms: Seq<RecordModel>)
    requires
        bytes_at(b, pos, spec_enc_records(ms)),
        bounded_records(ms),
    ensures
        spec_dec_records(b, pos, ms.len()) == Some((ms, pos + spec_enc_records(ms).len())),
    decreases ms.len(),
{
    if ms.len() == 0 {
        assert(spec_dec_records(b, pos, 0) == Some((Seq::<RecordModel>::empty(), pos)));
        assert(Seq::<RecordModel>::empty() =~= ms);
    } else {
        let head = spec_enc_record(ms[0]);
        let tail = spec_enc_records(ms.drop_first());
        assert(spec_enc_records(ms) == head + tail);
        lemma_bytes_at_split(b, pos, head, tail);
        lemma_dec_enc_record(b, pos, ms[0]);
        assert(bounded_records(ms.drop_first())) by {
            assert forall|i: int|
                0 <= i < ms.drop_first().len() implies (#[trigger] ms.drop_first()[i].children).len()
                <= usize::MAX by {
                assert(ms.drop_first()[i] == ms[i + 1]);
            }
        }
        lemma_dec_enc_records(b, pos + head.len(), ms.drop_first());
        assert(seq![ms[0]] + ms.drop_first() =~= ms);
    }
}

/// Decoding an encoded stream yields exactly the records that were encoded.
pub proof fn lemma_stream_round_trip(ms: Seq<RecordModel>)
    requires
        bounded_records(ms),
    ensures
        spec_dec_stream(spec_enc_stream(ms)) == Some(ms),
{
    let b = spec_enc_stream(ms);
    let e_count = spec_enc_u64(ms.len() as u64);
    let e_records = spec_enc_records(ms);
    assert(bytes_at(b, 0, e_count + e_records)) by {
        assert(b.subrange(0, b.len() as int) =~= b);
    }
    lemma_bytes_at_split(b, 0, e_count, e_records);
    lemma_dec_enc_u64(b, 0, ms.len() as u64);
    lemma_dec_enc_records(b, 8, ms);
    assert((ms.len() as u64) as nat == ms.len());
}

} // verus!
