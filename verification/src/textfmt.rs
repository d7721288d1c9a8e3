//! The text stream format: the record list as a pretty-printed, structured
//! text array — one record object per line, spelled with the tokens of the
//! ubiquitous brace-and-bracket notation, so any text editor (or an ordinary
//! JSON reader) can inspect a saved layout.
//!
//! The decoder is token-oriented: any run of blanks, tabs and line breaks
//! may stand between two tokens, and bytes after the closing bracket are
//! ignored.

use vstd::prelude::*;

use crate::binfmt::bytes_at;
use crate::binfmt::comb_ids;
use crate::binfmt::comb_records;
use crate::binfmt::lemma_bytes_at_split;
use crate::snapshot::models;
use crate::snapshot::KindNode;
use crate::snapshot::LayoutNode;
use crate::snapshot::RecordModel;
use crate::snapshot::SavedNode;
use crate::snapshot::SavedWindow;

verus! {

// ---------------------------------------------------------------------------
// Characters.
// ---------------------------------------------------------------------------

pub const B_SPACE: u8 = 32;
pub const B_NEWLINE: u8 = 10;
pub const B_TAB: u8 = 9;
pub const B_RETURN: u8 = 13;
pub const B_QUOTE: u8 = 34;
pub const B_COMMA: u8 = 44;
pub const B_MINUS: u8 = 45;
pub const B_COLON: u8 = 58;
pub const B_LBRACK: u8 = 91;
pub const B_RBRACK: u8 = 93;
pub const B_LBRACE: u8 = 123;
pub const B_RBRACE: u8 = 125;
pub const B_ZERO: u8 = 48;

pub open spec fn is_ws(c: u8) -> bool {
    c == B_SPACE || c == B_NEWLINE || c == B_TAB || c == B_RETURN
}

pub open spec fn is_digit(c: u8) -> bool {
    B_ZERO <= c <= 57
}

// ---------------------------------------------------------------------------
// Whitespace runs and digit runs.
// ---------------------------------------------------------------------------

/// The first position at or after `pos` that does not hold whitespace.
pub open spec fn skip_ws(b: Seq<u8>, pos: int) -> int
    decreases b.len() - pos,
{
    if 0 <= pos < b.len() && is_ws(b[pos]) {
        skip_ws(b, pos + 1)
    } else {
        pos
    }
}

/// Skipping a run of whitespace that stands right there.
pub proof fn lemma_skip_ws_run(b: Seq<u8>, pos: int, w: Seq<u8>)
    requires
        0 <= pos,
        pos + w.len() <= b.len(),
        b.subrange(pos, pos + w.len() as int) == w,
        forall|k: int| 0 <= k < w.len() ==> is_ws(#[trigger] w[k]),
        pos + w.len() == b.len() || !is_ws(b[pos + w.len()]),
    ensures
        skip_ws(b, pos) == pos + w.len(),
    decreases w.len(),
{
    if w.len() == 0 {
    } else {
        assert(b[pos] == w[0]) by {
            assert(b.subrange(pos, pos + w.len() as int)[0] == w[0]);
        }
        assert(b.subrange(pos + 1, pos + 1 + (w.len() - 1) as int) =~= w.drop_first()) by {
            assert forall|k: int| 0 <= k < w.len() - 1 implies b.subrange(
                pos + 1,
                pos + 1 + (w.len() - 1) as int,
            )[k] == w.drop_first()[k] by {
                assert(b.subrange(pos, pos + w.len() as int)[k + 1] == w[k + 1]);
            }
        }
        assert(forall|k: int| 0 <= k < w.drop_first().len() ==> is_ws(#[trigger] w.drop_first()[k]))
            by {
            assert forall|k: int| 0 <= k < w.drop_first().len() implies is_ws(
                #[trigger] w.drop_first()[k],
            ) by {
                assert(w.drop_first()[k] == w[k + 1]);
            }
        }
        lemma_skip_ws_run(b, pos + 1, w.drop_first());
    }
}

/// The maximal run of decimal digits standing at `pos`.
pub open spec fn digit_run(b: Seq<u8>, pos: int) -> Seq<u8>
    decreases b.len() - pos,
{
    if 0 <= pos < b.len() && is_digit(b[pos]) {
        seq![b[pos]] + digit_run(b, pos + 1)
    } else {
        Seq::empty()
    }
}

pub proof fn lemma_digit_run_bounds(b: Seq<u8>, pos: int)
    requires
        0 <= pos <= b.len(),
    ensures
        pos + digit_run(b, pos).len() <= b.len(),
    decreases b.len() - pos,
{
    if pos < b.len() && is_digit(b[pos]) {
        lemma_digit_run_bounds(b, pos + 1);
    }
}

/// A digit run standing right there is read back exactly.
pub proof fn lemma_digit_run_exact(b: Seq<u8>, pos: int, s: Seq<u8>)
    requires
        0 <= pos,
        pos + s.len() <= b.len(),
        b.subrange(pos, pos + s.len() as int) == s,
        forall|k: int| 0 <= k < s.len() ==> is_digit(#[trigger] s[k]),
        pos + s.len() == b.len() || !is_digit(b[pos + s.len()]),
    ensures
        digit_run(b, pos) == s,
    decreases s.len(),
{
    if s.len() == 0 {
        assert(digit_run(b, pos) =~= s);
    } else {
        assert(b[pos] == s[0]) by {
            assert(b.subrange(pos, pos + s.len() as int)[0] == s[0]);
        }
        assert(b.subrange(pos + 1, pos + 1 + (s.len() - 1) as int) =~= s.drop_first()) by {
            assert forall|k: int| 0 <= k < s.len() - 1 implies b.subrange(
                pos + 1,
                pos + 1 + (s.len() - 1) as int,
            )[k] == s.drop_first()[k] by {
                assert(b.subrange(pos, pos + s.len() as int)[k + 1] == s[k + 1]);
            }
        }
        assert(forall|k: int| 0 <= k < s.drop_first().len() ==> is_digit(
            #[trigger] s.drop_first()[k],
        )) by {
            assert forall|k: int| 0 <= k < s.drop_first().len() implies is_digit(
                #[trigger] s.drop_first()[k],
            ) by {
                assert(s.drop_first()[k] == s[k + 1]);
            }
        }
        lemma_digit_run_exact(b, pos + 1, s.drop_first());
        assert(digit_run(b, pos) =~= s);
    }
}

// ---------------------------------------------------------------------------
// Decimal spellings of numbers.
// ---------------------------------------------------------------------------

/// The decimal digits of an unsigned value, most significant first.
pub open spec fn spec_digits(v: u64) -> Seq<u8>
    decreases v,
{
    if v < 10 {
        seq![(v + 48) as u8]
    } else {
        spec_digits(v / 10).push((v % 10 + 48) as u8)
    }
}

/// The value of a digit run, folded from the left; `None` on overflow.
pub open spec fn val_opt(s: Seq<u8>) -> Option<u64>
    decreases s.len(),
{
    if s.len() == 0 {
        Some(0u64)
    } else {
        match val_opt(s.drop_last()) {
            None => None,
            Some(a) => {
                let t = (a as int) * 10 + (s.last() - 48);
                if 0 <= t <= u64::MAX as int {
                    Some(t as u64)
                } else {
                    None
                }
            },
        }
    }
}

pub proof fn lemma_digits_are_digits(v: u64)
    ensures
        spec_digits(v).len() >= 1,
        forall|k: int| 0 <= k < spec_digits(v).len() ==> is_digit(#[trigger] spec_digits(v)[k]),
    decreases v,
{
    if v >= 10 {
        lemma_digits_are_digits(v / 10);
        assert forall|k: int| 0 <= k < spec_digits(v).len() implies is_digit(
            #[trigger] spec_digits(v)[k],
        ) by {
            if k < spec_digits(v).len() - 1 {
                assert(spec_digits(v)[k] == spec_digits(v / 10)[k]);
            }
        }
    }
}

/// Reading the digits of a value gives the value back.
pub proof fn lemma_val_digits(v: u64)
    ensures
        val_opt(spec_digits(v)) == Some(v),
    decreases v,
{
    if v < 10 {
        let s = spec_digits(v);
        assert(s.drop_last() =~= Seq::<u8>::empty());
        assert(val_opt(s.drop_last()) == Some(0u64));
        assert(s.last() == (v + 48) as u8);
    } else {
        lemma_val_digits(v / 10);
        let s = spec_digits(v);
        assert(s.drop_last() =~= spec_digits(v / 10));
        assert(s.last() == (v % 10 + 48) as u8);
        assert((v / 10) as int * 10 + (v % 10) == v as int) by (nonlinear_arith);
    }
}

/// An overflow while folding a prefix dooms the whole run.
pub proof fn lemma_val_none_mono(s: Seq<u8>, j: int)
    requires
        0 <= j <= s.len(),
        val_opt(s.take(j)) is None,
    ensures
        val_opt(s) is None,
    decreases s.len() - j,
{
    if j == s.len() {
        assert(s.take(j) =~= s);
    } else {
        assert(s.take(j + 1).drop_last() =~= s.take(j));
        lemma_val_none_mono(s, j + 1);
    }
}

} // verus!

verus! {

// ---------------------------------------------------------------------------
// Words and tokens.
// ---------------------------------------------------------------------------

pub open spec fn word_id() -> Seq<u8> {
    seq![105u8, 100u8]
}

pub open spec fn word_kind() -> Seq<u8> {
    seq![107u8, 105u8, 110u8, 100u8]
}

pub open spec fn word_layout() -> Seq<u8> {
    seq![108u8, 97u8, 121u8, 111u8, 117u8, 116u8]
}

pub open spec fn word_children() -> Seq<u8> {
    seq![99u8, 104u8, 105u8, 108u8, 100u8, 114u8, 101u8, 110u8]
}

pub open spec fn word_workspace() -> Seq<u8> {
    seq![87u8, 111u8, 114u8, 107u8, 115u8, 112u8, 97u8, 99u8, 101u8]
}

pub open spec fn word_normal_window() -> Seq<u8> {
    seq![78u8, 111u8, 114u8, 109u8, 97u8, 108u8, 87u8, 105u8, 110u8, 100u8, 111u8, 119u8]
}

pub open spec fn word_width() -> Seq<u8> {
    seq![119u8, 105u8, 100u8, 116u8, 104u8]
}

pub open spec fn word_height() -> Seq<u8> {
    seq![104u8, 101u8, 105u8, 103u8, 104u8, 116u8]
}

pub open spec fn word_splitter() -> Seq<u8> {
    seq![83u8, 112u8, 108u8, 105u8, 116u8, 116u8, 101u8, 114u8]
}

pub open spec fn word_splith() -> Seq<u8> {
    seq![83u8, 112u8, 108u8, 105u8, 116u8, 72u8]
}

pub open spec fn word_splitv() -> Seq<u8> {
    seq![83u8, 112u8, 108u8, 105u8, 116u8, 86u8]
}

pub open spec fn word_stacked() -> Seq<u8> {
    seq![83u8, 116u8, 97u8, 99u8, 107u8, 101u8, 100u8]
}

pub open spec fn word_tabbed() -> Seq<u8> {
    seq![84u8, 97u8, 98u8, 98u8, 101u8, 100u8]
}

/// The word a layout mode is spelled as.
pub open spec fn layout_word(l: LayoutNode) -> Seq<u8> {
    match l {
        LayoutNode::SplitH => word_splith(),
        LayoutNode::SplitV => word_splitv(),
        LayoutNode::Stacked => word_stacked(),
        LayoutNode::Tabbed => word_tabbed(),
    }
}

/// A word between quotes.
pub open spec fn quoted(w: Seq<u8>) -> Seq<u8> {
    seq![B_QUOTE] + w + seq![B_QUOTE]
}

/// A token led by one space.
pub open spec fn sp_tok(text: Seq<u8>) -> Seq<u8> {
    seq![B_SPACE] + text
}

/// A token led by one line break.
pub open spec fn nl_tok(text: Seq<u8>) -> Seq<u8> {
    seq![B_NEWLINE] + text
}

/// The decimal spelling of a signed value.
pub open spec fn spec_signed_digits(v: i64) -> Seq<u8> {
    if v >= 0 {
        spec_digits(v as u64)
    } else {
        seq![B_MINUS] + spec_digits((0 - v as int) as u64)
    }
}

// ---------------------------------------------------------------------------
// The text encoding.
// ---------------------------------------------------------------------------

pub open spec fn spec_t_enc_key(w: Seq<u8>) -> Seq<u8> {
    sp_tok(quoted(w)) + sp_tok(seq![B_COLON])
}

pub open spec fn spec_t_enc_kind(k: KindNode) -> Seq<u8> {
    match k {
        KindNode::Workspace(num) => sp_tok(seq![B_LBRACE]) + (spec_t_enc_key(word_workspace()) + (
        sp_tok(spec_signed_digits(num as i64)) + sp_tok(seq![B_RBRACE]))),
        KindNode::NormalWindow(w) => sp_tok(seq![B_LBRACE]) + (spec_t_enc_key(word_normal_window())
            + (sp_tok(seq![B_LBRACE]) + (spec_t_enc_key(word_width()) + (sp_tok(
            spec_signed_digits(w.width),
        ) + (sp_tok(seq![B_COMMA]) + (spec_t_enc_key(word_height()) + (sp_tok(
            spec_signed_digits(w.height),
        ) + (sp_tok(seq![B_RBRACE]) + sp_tok(seq![B_RBRACE]))))))))),
        KindNode::Splitter => sp_tok(quoted(word_splitter())),
    }
}

pub open spec fn spec_t_enc_ids_rest(ids: Seq<u64>) -> Seq<u8>
    decreases ids.len(),
{
    if ids.len() == 0 {
        Seq::empty()
    } else {
        sp_tok(seq![B_COMMA]) + (sp_tok(spec_digits(ids[0])) + spec_t_enc_ids_rest(
            ids.drop_first(),
        ))
    }
}

pub open spec fn spec_t_enc_idlist(ids: Seq<u64>) -> Seq<u8> {
    if ids.len() == 0 {
        sp_tok(seq![B_LBRACK]) + sp_tok(seq![B_RBRACK])
    } else {
        sp_tok(seq![B_LBRACK]) + (sp_tok(spec_digits(ids[0])) + (spec_t_enc_ids_rest(
            ids.drop_first(),
        ) + sp_tok(seq![B_RBRACK])))
    }
}

pub open spec fn spec_t_enc_record(m: RecordModel) -> Seq<u8> {
    nl_tok(seq![B_LBRACE]) + (spec_t_enc_key(word_id()) + (sp_tok(spec_digits(m.id)) + (sp_tok(
        seq![B_COMMA],
    ) + (spec_t_enc_key(word_kind()) + (spec_t_enc_kind(m.kind) + (sp_tok(seq![B_COMMA]) + (
    spec_t_enc_key(word_layout()) + (sp_tok(quoted(layout_word(m.layout))) + (sp_tok(
        seq![B_COMMA],
    ) + (spec_t_enc_key(word_children()) + (spec_t_enc_idlist(m.children) + sp_tok(
        seq![B_RBRACE],
    ))))))))))))
}

pub open spec fn spec_t_enc_records_rest(ms: Seq<RecordModel>) -> Seq<u8>
    decreases ms.len(),
{
    if ms.len() == 0 {
        Seq::empty()
    } else {
        sp_tok(seq![B_COMMA]) + (spec_t_enc_record(ms[0]) + spec_t_enc_records_rest(
            ms.drop_first(),
        ))
    }
}

/// The whole text stream of a record list.
pub open spec fn spec_t_enc_stream(ms: Seq<RecordModel>) -> Seq<u8> {
    if ms.len() == 0 {
        sp_tok(seq![B_LBRACK]) + nl_tok(seq![B_RBRACK])
    } else {
        sp_tok(seq![B_LBRACK]) + (spec_t_enc_record(ms[0]) + (spec_t_enc_records_rest(
            ms.drop_first(),
        ) + nl_tok(seq![B_RBRACK])))
    }
}

// ---------------------------------------------------------------------------
// The text decoding.
// ---------------------------------------------------------------------------

/// One expected punctuation mark, after any whitespace.
pub open spec fn spec_expect(b: Seq<u8>, pos: int, c: u8) -> Option<int> {
    let p = skip_ws(b, pos);
    if p < b.len() && b[p] == c {
        Some(p + 1)
    } else {
        None
    }
}

/// The position of the closing quote at or after `pos`.
pub open spec fn quote_scan(b: Seq<u8>, pos: int) -> Option<int>
    decreases b.len() - pos,
{
    if 0 <= pos < b.len() {
        if b[pos] == B_QUOTE {
            Some(pos)
        } else {
            quote_scan(b, pos + 1)
        }
    } else {
        None
    }
}

/// A quoted word, after any whitespace: its contents and the position after
/// the closing quote.
pub open spec fn spec_dec_qstr(b: Seq<u8>, pos: int) -> Option<(Seq<u8>, int)> {
    let p = skip_ws(b, pos);
    if p < b.len() && b[p] == B_QUOTE {
        match quote_scan(b, p + 1) {
            None => None,
            Some(q) => Some((b.subrange(p + 1, q), q + 1)),
        }
    } else {
        None
    }
}

/// An unsigned number, after any whitespace.
pub open spec fn spec_dec_u64_text(b: Seq<u8>, pos: int) -> Option<(u64, int)> {
    let p = skip_ws(b, pos);
    let run = digit_run(b, p);
    if run.len() == 0 {
        None
    } else {
        match val_opt(run) {
            None => None,
            Some(v) => Some((v, p + run.len())),
        }
    }
}

/// A signed number, after any whitespace.
pub open spec fn spec_dec_i64_text(b: Seq<u8>, pos: int) -> Option<(i64, int)> {
    let p = skip_ws(b, pos);
    if p < b.len() && b[p] == B_MINUS {
        let run = digit_run(b, p + 1);
        if run.len() == 0 {
            None
        } else {
            match val_opt(run) {
                None => None,
                Some(m) => if m <= 0x8000_0000_0000_0000u64 {
                    Some(((0 - m as int) as i64, p + 1 + run.len()))
                } else {
                    None
                },
            }
        }
    } else {
        let run = digit_run(b, p);
        if run.len() == 0 {
            None
        } else {
            match val_opt(run) {
                None => None,
                Some(m) => if m <= i64::MAX as u64 {
                    Some((m as i64, p + run.len()))
                } else {
                    None
                },
            }
        }
    }
}

/// A signed number that must fit 32 bits.
pub open spec fn spec_dec_i32_text(b: Seq<u8>, pos: int) -> Option<(i32, int)> {
    match spec_dec_i64_text(b, pos) {
        None => None,
        Some((v, p)) => if i32::MIN as i64 <= v <= i32::MAX as i64 {
            Some((v as i32, p))
        } else {
            None
        },
    }
}

/// An expected quoted key followed by its colon.
pub open spec fn spec_dec_key(b: Seq<u8>, pos: int, w: Seq<u8>) -> Option<int> {
    match spec_dec_qstr(b, pos) {
        None => None,
        Some((got, p)) => if got == w {
            spec_expect(b, p, B_COLON)
        } else {
            None
        },
    }
}

pub open spec fn spec_dec_layout_text(b: Seq<u8>, pos: int) -> Option<(LayoutNode, int)> {
    match spec_dec_qstr(b, pos) {
        None => None,
        Some((w, p)) => if w == word_splith() {
            Some((LayoutNode::SplitH, p))
        } else if w == word_splitv() {
            Some((LayoutNode::SplitV, p))
        } else if w == word_stacked() {
            Some((LayoutNode::Stacked, p))
        } else if w == word_tabbed() {
            Some((LayoutNode::Tabbed, p))
        } else {
            None
        },
    }
}

pub open spec fn spec_dec_kind_text(b: Seq<u8>, pos: int) -> Option<(KindNode, int)> {
    let p = skip_ws(b, pos);
    if p >= b.len() {
        None
    } else if b[p] == B_QUOTE {
        match spec_dec_qstr(b, p) {
            None => None,
            Some((w, p2)) => if w == word_splitter() {
                Some((KindNode::Splitter, p2))
            } else {
                None
            },
        }
    } else if b[p] == B_LBRACE {
        match spec_dec_qstr(b, p + 1) {
            None => None,
            Some((w, p2)) => if w == word_workspace() {
                match spec_expect(b, p2, B_COLON) {
                    None => None,
                    Some(p3) => match spec_dec_i32_text(b, p3) {
                        None => None,
                        Some((num, p4)) => match spec_expect(b, p4, B_RBRACE) {
                            None => None,
                            Some(p5) => Some((KindNode::Workspace(num), p5)),
                        },
                    },
                }
            } else if w == word_normal_window() {
                match spec_expect(b, p2, B_COLON) {
                    None => None,
                    Some(p3) => match spec_expect(b, p3, B_LBRACE) {
                        None => None,
                        Some(p4) => match spec_dec_key(b, p4, word_width()) {
                            None => None,
                            Some(p5) => match spec_dec_i64_text(b, p5) {
                                None => None,
                                Some((width, p6)) => match spec_expect(b, p6, B_COMMA) {
                                    None => None,
                                    Some(p7) => match spec_dec_key(b, p7, word_height()) {
                                        None => None,
                                        Some(p8) => match spec_dec_i64_text(b, p8) {
                                            None => None,
                                            Some((height, p9)) => match spec_expect(
                                                b,
                                                p9,
                                                B_RBRACE,
                                            ) {
                                                None => None,
                                                Some(p10) => match spec_expect(b, p10, B_RBRACE) {
                                                    None => None,
                                                    Some(p11) => Some(
                                                        (
                                                            KindNode::NormalWindow(
                                                                SavedWindow { width, height },
                                                            ),
                                                            p11,
                                                        ),
                                                    ),
                                                },
                                            },
                                        },
                                    },
                                },
                            },
                        },
                    },
                }
            } else {
                None
            },
        }
    } else {
        None
    }
}

/// The id elements after the first one, up to the closing bracket.
pub open spec fn spec_dec_ids_rest(b: Seq<u8>, pos: int, fuel: nat) -> Option<(Seq<u64>, int)>
    decreases fuel,
{
    if fuel == 0 {
        None
    } else {
        let p = skip_ws(b, pos);
        if p < b.len() && b[p] == B_RBRACK {
            Some((Seq::empty(), p + 1))
        } else if p < b.len() && b[p] == B_COMMA {
            match spec_dec_u64_text(b, p + 1) {
                None => None,
                Some((v, p2)) => match spec_dec_ids_rest(b, p2, (fuel - 1) as nat) {
                    None => None,
                    Some((ids, end)) => Some((seq![v] + ids, end)),
                },
            }
        } else {
            None
        }
    }
}

/// A bracketed id list, after any whitespace.
pub open spec fn spec_dec_idlist(b: Seq<u8>, pos: int, fuel: nat) -> Option<(Seq<u64>, int)> {
    match spec_expect(b, pos, B_LBRACK) {
        None => None,
        Some(p) => {
            let q = skip_ws(b, p);
            if q < b.len() && b[q] == B_RBRACK {
                Some((Seq::empty(), q + 1))
            } else {
                match spec_dec_u64_text(b, p) {
                    None => None,
                    Some((v, p2)) => match spec_dec_ids_rest(b, p2, fuel) {
                        None => None,
                        Some((ids, end)) => Some((seq![v] + ids, end)),
                    },
                }
            }
        },
    }
}

/// One record object.
pub open spec fn spec_dec_record_text(b: Seq<u8>, pos: int, fuel: nat) -> Option<
    (RecordModel, int),
> {
    match spec_expect(b, pos, B_LBRACE) {
        None => None,
        Some(p1) => match spec_dec_key(b, p1, word_id()) {
            None => None,
            Some(p2) => match spec_dec_u64_text(b, p2) {
                None => None,
                Some((id, p3)) => match spec_expect(b, p3, B_COMMA) {
                    None => None,
                    Some(p4) => match spec_dec_key(b, p4, word_kind()) {
                        None => None,
                        Some(p5) => match spec_dec_kind_text(b, p5) {
                            None => None,
                            Some((kind, p6)) => match spec_expect(b, p6, B_COMMA) {
                                None => None,
                                Some(p7) => match spec_dec_key(b, p7, word_layout()) {
                                    None => None,
                                    Some(p8) => match spec_dec_layout_text(b, p8) {
                                        None => None,
                                        Some((layout, p9)) => match spec_expect(b, p9, B_COMMA) {
                                            None => None,
                                            Some(p10) => match spec_dec_key(
                                                b,
                                                p10,
                                                word_children(),
                                            ) {
                                                None => None,
                                                Some(p11) => match spec_dec_idlist(b, p11, fuel) {
                                                    None => None,
                                                    Some((children, p12)) => match spec_expect(
                                                        b,
                                                        p12,
                                                        B_RBRACE,
                                                    ) {
                                                        None => None,
                                                        Some(end) => Some(
                                                            (
                                                                RecordModel {
                                                                    id,
                                                                    kind,
                                                                    layout,
                                                                    children,
                                                                },
                                                                end,
                                                            ),
                                                        ),
                                                    },
                                                },
                                            },
                                        },
                                    },
                                },
                            },
                        },
                    },
                },
            },
        },
    }
}

/// The record objects after the first one, up to the closing bracket.
pub open spec fn spec_dec_records_rest(b: Seq<u8>, pos: int, fuel: nat) -> Option<
    (Seq<RecordModel>, int),
>
    decreases fuel,
{
    if fuel == 0 {
        None
    } else {
        let p = skip_ws(b, pos);
        if p < b.len() && b[p] == B_RBRACK {
            Some((Seq::empty(), p + 1))
        } else if p < b.len() && b[p] == B_COMMA {
            match spec_dec_record_text(b, p + 1, fuel) {
                None => None,
                Some((m, p2)) => match spec_dec_records_rest(b, p2, (fuel - 1) as nat) {
                    None => None,
                    Some((ms, end)) => Some((seq![m] + ms, end)),
                },
            }
        } else {
            None
        }
    }
}

/// The record list a text stream spells, if any; trailing bytes after the
/// closing bracket are ignored.
pub open spec fn spec_dec_stream_text(b: Seq<u8>) -> Option<Seq<RecordModel>> {
    let fuel = (b.len() + 1) as nat;
    match spec_expect(b, 0, B_LBRACK) {
        None => None,
        Some(p) => {
            let q = skip_ws(b, p);
            if q < b.len() && b[q] == B_RBRACK {
                Some(Seq::empty())
            } else {
                match spec_dec_record_text(b, p, fuel) {
                    None => None,
                    Some((m, p2)) => match spec_dec_records_rest(b, p2, fuel) {
                        None => None,
                        Some((ms, _end)) => Some(seq![m] + ms),
                    },
                }
            }
        },
    }
}

} // verus!

verus! {

/// A word fit to stand between quotes: non-empty, no quote character, and
/// opening with a visible character.
pub open spec fn word_ok(w: Seq<u8>) -> bool {
    &&& w.len() >= 1
    &&& !is_ws(w[0])
    &&& forall|k: int| 0 <= k < w.len() ==> #[trigger] w[k] != B_QUOTE
}

/// Every word of the format is fit to stand between quotes, and the
/// four layout words are pairwise distinct.
pub proof fn lemma_words_wf()
    ensures
        word_ok(word_id()),
        word_ok(word_kind()),
        word_ok(word_layout()),
        word_ok(word_children()),
        word_ok(word_workspace()),
        word_ok(word_normal_window()),
        word_ok(word_width()),
        word_ok(word_height()),
        word_ok(word_splitter()),
        word_ok(word_splith()),
        word_ok(word_splitv()),
        word_ok(word_stacked()),
        word_ok(word_tabbed()),
        word_splith() != word_splitv(),
        word_splith() != word_stacked(),
        word_splith() != word_tabbed(),
        word_splitv() != word_stacked(),
        word_splitv() != word_tabbed(),
        word_stacked() != word_tabbed(),
{
    let w_id = word_id();
    assert(w_id.len() == 2);
    assert(w_id[0] == 105u8);
    assert(w_id[1] == 100u8);
    assert forall|k: int| 0 <= k < w_id.len() implies #[trigger] w_id[k] != B_QUOTE by {
        assert(k == 0 || k == 1);
    }
    let w_kind = word_kind();
    assert(w_kind.len() == 4);
    assert(w_kind[0] == 107u8);
    assert(w_kind[1] == 105u8);
    assert(w_kind[2] == 110u8);
    assert(w_kind[3] == 100u8);
    assert forall|k: int| 0 <= k < w_kind.len() implies #[trigger] w_kind[k] != B_QUOTE by {
        assert(k == 0 || k == 1 || k == 2 || k == 3);
    }
    let w_layout = word_layout();
    assert(w_layout.len() == 6);
    assert(w_layout[0] == 108u8);
    assert(w_layout[1] == 97u8);
    assert(w_layout[2] == 121u8);
    assert(w_layout[3] == 111u8);
    assert(w_layout[4] == 117u8);
    assert(w_layout[5] == 116u8);
    assert forall|k: int| 0 <= k < w_layout.len() implies #[trigger] w_layout[k] != B_QUOTE by {
        assert(k == 0 || k == 1 || k == 2 || k == 3 || k == 4 || k == 5);
    }
    let w_children = word_children();
    assert(w_children.len() == 8);
    assert(w_children[0] == 99u8);
    assert(w_children[1] == 104u8);
    assert(w_children[2] == 105u8);
    assert(w_children[3] == 108u8);
    assert(w_children[4] == 100u8);
    assert(w_children[5] == 114u8);
    assert(w_children[6] == 101u8);
    assert(w_children[7] == 110u8);
    assert forall|k: int| 0 <= k < w_children.len() implies #[trigger] w_children[k] != B_QUOTE by {
        assert(k == 0 || k == 1 || k == 2 || k == 3 || k == 4 || k == 5 || k == 6 || k == 7);
    }
    let w_workspace = word_workspace();
    assert(w_workspace.len() == 9);
    assert(w_workspace[0] == 87u8);
    assert(w_workspace[1] == 111u8);
    assert(w_workspace[2] == 114u8);
    assert(w_workspace[3] == 107u8);
    assert(w_workspace[4] == 115u8);
    assert(w_workspace[5] == 112u8);
    assert(w_workspace[6] == 97u8);
    assert(w_workspace[7] == 99u8);
    assert(w_workspace[8] == 101u8);
    assert forall|k: int| 0 <= k < w_workspace.len() implies #[trigger] w_workspace[k] != B_QUOTE by {
        assert(k == 0 || k == 1 || k == 2 || k == 3 || k == 4 || k == 5 || k == 6 || k == 7 || k == 8);
    }
    let w_normal_window = word_normal_window();
    assert(w_normal_window.len() == 12);
    assert(w_normal_window[0] == 78u8);
    assert(w_normal_window[1] == 111u8);
    assert(w_normal_window[2] == 114u8);
    assert(w_normal_window[3] == 109u8);
    assert(w_normal_window[4] == 97u8);
    assert(w_normal_window[5] == 108u8);
    assert(w_normal_window[6] == 87u8);
    assert(w_normal_window[7] == 105u8);
    assert(w_normal_window[8] == 110u8);
    assert(w_normal_window[9] == 100u8);
    assert(w_normal_window[10] == 111u8);
    assert(w_normal_window[11] == 119u8);
    assert forall|k: int| 0 <= k < w_normal_window.len() implies #[trigger] w_normal_window[k] != B_QUOTE by {
        assert(k == 0 || k == 1 || k == 2 || k == 3 || k == 4 || k == 5 || k == 6 || k == 7 || k == 8 || k == 9 || k == 10 || k == 11);
    }
    let w_width = word_width();
    assert(w_width.len() == 5);
    assert(w_width[0] == 119u8);
    assert(w_width[1] == 105u8);
    assert(w_width[2] == 100u8);
    assert(w_width[3] == 116u8);
    assert(w_width[4] == 104u8);
    assert forall|k: int| 0 <= k < w_width.len() implies #[trigger] w_width[k] != B_QUOTE by {
        assert(k == 0 || k == 1 || k == 2 || k == 3 || k == 4);
    }
    let w_height = word_height();
    assert(w_height.len() == 6);
    assert(w_height[0] == 104u8);
    assert(w_height[1] == 101u8);
    assert(w_height[2] == 105u8);
    assert(w_height[3] == 103u8);
    assert(w_height[4] == 104u8);
    assert(w_height[5] == 116u8);
    assert forall|k: int| 0 <= k < w_height.len() implies #[trigger] w_height[k] != B_QUOTE by {
        assert(k == 0 || k == 1 || k == 2 || k == 3 || k == 4 || k == 5);
    }
    let w_splitter = word_splitter();
    assert(w_splitter.len() == 8);
    assert(w_splitter[0] == 83u8);
    assert(w_splitter[1] == 112u8);
    assert(w_splitter[2] == 108u8);
    assert(w_splitter[3] == 105u8);
    assert(w_splitter[4] == 116u8);
    assert(w_splitter[5] == 116u8);
    assert(w_splitter[6] == 101u8);
    assert(w_splitter[7] == 114u8);
    assert forall|k: int| 0 <= k < w_splitter.len() implies #[trigger] w_splitter[k] != B_QUOTE by {
        assert(k == 0 || k == 1 || k == 2 || k == 3 || k == 4 || k == 5 || k == 6 || k == 7);
    }
    let w_splith = word_splith();
    assert(w_splith.len() == 6);
    assert(w_splith[0] == 83u8);
    assert(w_splith[1] == 112u8);
    assert(w_splith[2] == 108u8);
    assert(w_splith[3] == 105u8);
    assert(w_splith[4] == 116u8);
    assert(w_splith[5] == 72u8);
    assert forall|k: int| 0 <= k < w_splith.len() implies #[trigger] w_splith[k] != B_QUOTE by {
        assert(k == 0 || k == 1 || k == 2 || k == 3 || k == 4 || k == 5);
    }
    let w_splitv = word_splitv();
    assert(w_splitv.len() == 6);
    assert(w_splitv[0] == 83u8);
    assert(w_splitv[1] == 112u8);
    assert(w_splitv[2] == 108u8);
    assert(w_splitv[3] == 105u8);
    assert(w_splitv[4] == 116u8);
    assert(w_splitv[5] == 86u8);
    assert forall|k: int| 0 <= k < w_splitv.len() implies #[trigger] w_splitv[k] != B_QUOTE by {
        assert(k == 0 || k == 1 || k == 2 || k == 3 || k == 4 || k == 5);
    }
    let w_stacked = word_stacked();
    assert(w_stacked.len() == 7);
    assert(w_stacked[0] == 83u8);
    assert(w_stacked[1] == 116u8);
    assert(w_stacked[2] == 97u8);
    assert(w_stacked[3] == 99u8);
    assert(w_stacked[4] == 107u8);
    assert(w_stacked[5] == 101u8);
    assert(w_stacked[6] == 100u8);
    assert forall|k: int| 0 <= k < w_stacked.len() implies #[trigger] w_stacked[k] != B_QUOTE by {
        assert(k == 0 || k == 1 || k == 2 || k == 3 || k == 4 || k == 5 || k == 6);
    }
    let w_tabbed = word_tabbed();
    assert(w_tabbed.len() == 6);
    assert(w_tabbed[0] == 84u8);
    assert(w_tabbed[1] == 97u8);
    assert(w_tabbed[2] == 98u8);
    assert(w_tabbed[3] == 98u8);
    assert(w_tabbed[4] == 101u8);
    assert(w_tabbed[5] == 100u8);
    assert forall|k: int| 0 <= k < w_tabbed.len() implies #[trigger] w_tabbed[k] != B_QUOTE by {
        assert(k == 0 || k == 1 || k == 2 || k == 3 || k == 4 || k == 5);
    }
    assert(word_splith()[5] != word_splitv()[5]);
    assert(word_splith().len() != word_stacked().len());
    assert(word_splith()[0] != word_tabbed()[0]);
    assert(word_splitv().len() != word_stacked().len());
    assert(word_splitv()[0] != word_tabbed()[0]);
    assert(word_stacked().len() != word_tabbed().len());
}

pub fn push_word_id(out: &mut Vec<u8>)
    ensures
        final(out)@ == old(out)@ + word_id(),
{
    out.push(105u8);
    out.push(100u8);
    proof {
        assert(out@ =~= old(out)@ + word_id());
    }
}

pub fn push_word_kind(out: &mut Vec<u8>)
    ensures
        final(out)@ == old(out)@ + word_kind(),
{
    out.push(107u8);
    out.push(105u8);
    out.push(110u8);
    out.push(100u8);
    proof {
        assert(out@ =~= old(out)@ + word_kind());
    }
}

pub fn push_word_layout(out: &mut Vec<u8>)
    ensures
        final(out)@ == old(out)@ + word_layout(),
{
    out.push(108u8);
    out.push(97u8);
    out.push(121u8);
    out.push(111u8);
    out.push(117u8);
    out.push(116u8);
    proof {
        assert(out@ =~= old(out)@ + word_layout());
    }
}

pub fn push_word_children(out: &mut Vec<u8>)
    ensures
        final(out)@ == old(out)@ + word_children(),
{
    out.push(99u8);
    out.push(104u8);
    out.push(105u8);
    out.push(108u8);
    out.push(100u8);
    out.push(114u8);
    out.push(101u8);
    out.push(110u8);
    proof {
        assert(out@ =~= old(out)@ + word_children());
    }
}

pub fn push_word_workspace(out: &mut Vec<u8>)
    ensures
        final(out)@ == old(out)@ + word_workspace(),
{
    out.push(87u8);
    out.push(111u8);
    out.push(114u8);
    out.push(107u8);
    out.push(115u8);
    out.push(112u8);
    out.push(97u8);
    out.push(99u8);
    out.push(101u8);
    proof {
        assert(out@ =~= old(out)@ + word_workspace());
    }
}

pub fn push_word_normal_window(out: &mut Vec<u8>)
    ensures
        final(out)@ == old(out)@ + word_normal_window(),
{
    out.push(78u8);
    out.push(111u8);
    out.push(114u8);
    out.push(109u8);
    out.push(97u8);
    out.push(108u8);
    out.push(87u8);
    out.push(105u8);
    out.push(110u8);
    out.push(100u8);
    out.push(111u8);
    out.push(119u8);
    proof {
        assert(out@ =~= old(out)@ + word_normal_window());
    }
}

pub fn push_word_width(out: &mut Vec<u8>)
    ensures
        final(out)@ == old(out)@ + word_width(),
{
    out.push(119u8);
    out.push(105u8);
    out.push(100u8);
    out.push(116u8);
    out.push(104u8);
    proof {
        assert(out@ =~= old(out)@ + word_width());
    }
}

pub fn push_word_height(out: &mut Vec<u8>)
    ensures
        final(out)@ == old(out)@ + word_height(),
{
    out.push(104u8);
    out.push(101u8);
    out.push(105u8);
    out.push(103u8);
    out.push(104u8);
    out.push(116u8);
    proof {
        assert(out@ =~= old(out)@ + word_height());
    }
}

pub fn push_word_splitter(out: &mut Vec<u8>)
    ensures
        final(out)@ == old(out)@ + word_splitter(),
{
    out.push(83u8);
    out.push(112u8);
    out.push(108u8);
    out.push(105u8);
    out.push(116u8);
    out.push(116u8);
    out.push(101u8);
    out.push(114u8);
    proof {
        assert(out@ =~= old(out)@ + word_splitter());
    }
}

pub fn push_word_splith(out: &mut Vec<u8>)
    ensures
        final(out)@ == old(out)@ + word_splith(),
{
    out.push(83u8);
    out.push(112u8);
    out.push(108u8);
    out.push(105u8);
    out.push(116u8);
    out.push(72u8);
    proof {
        assert(out@ =~= old(out)@ + word_splith());
    }
}

pub fn push_word_splitv(out: &mut Vec<u8>)
    ensures
        final(out)@ == old(out)@ + word_splitv(),
{
    out.push(83u8);
    out.push(112u8);
    out.push(108u8);
    out.push(105u8);
    out.push(116u8);
    out.push(86u8);
    proof {
        assert(out@ =~= old(out)@ + word_splitv());
    }
}

pub fn push_word_stacked(out: &mut Vec<u8>)
    ensures
        final(out)@ == old(out)@ + word_stacked(),
{
    out.push(83u8);
    out.push(116u8);
    out.push(97u8);
    out.push(99u8);
    out.push(107u8);
    out.push(101u8);
    out.push(100u8);
    proof {
        assert(out@ =~= old(out)@ + word_stacked());
    }
}

pub fn push_word_tabbed(out: &mut Vec<u8>)
    ensures
        final(out)@ == old(out)@ + word_tabbed(),
{
    out.push(84u8);
    out.push(97u8);
    out.push(98u8);
    out.push(98u8);
    out.push(101u8);
    out.push(100u8);
    proof {
        assert(out@ =~= old(out)@ + word_tabbed());
    }
}

} // verus!

verus! {

// ---------------------------------------------------------------------------
// The text format inverts itself.
// ---------------------------------------------------------------------------

/// A run of whitespace only.
pub open spec fn all_ws(w: Seq<u8>) -> bool {
    forall|k: int| 0 <= k < w.len() ==> is_ws(#[trigger] w[k])
}

/// A token led by whitespace is found right after its lead.
pub proof fn lemma_tok_at(b: Seq<u8>, pos: int, w_lead: Seq<u8>, text: Seq<u8>)
    requires
        bytes_at(b, pos, w_lead + text),
        all_ws(w_lead),
        text.len() >= 1,
        !is_ws(text[0]),
    ensures
        skip_ws(b, pos) == pos + w_lead.len(),
        bytes_at(b, pos + w_lead.len(), text),
{
    lemma_bytes_at_split(b, pos, w_lead, text);
    assert(b[pos + w_lead.len()] == text[0]) by {
        assert(b.subrange(pos + w_lead.len(), pos + w_lead.len() + text.len() as int)[0]
            == text[0]);
    }
    lemma_skip_ws_run(b, pos, w_lead);
}

/// A led punctuation mark is expected successfully.
pub proof fn lemma_expect_at(b: Seq<u8>, pos: int, w_lead: Seq<u8>, c: u8)
    requires
        bytes_at(b, pos, w_lead + seq![c]),
        all_ws(w_lead),
        !is_ws(c),
    ensures
        spec_expect(b, pos, c) == Some(pos + w_lead.len() + 1),
{
    assert(seq![c].len() == 1 && seq![c][0] == c);
    lemma_tok_at(b, pos, w_lead, seq![c]);
    assert(b[pos + w_lead.len()] == c) by {
        assert(b.subrange(pos + w_lead.len(), pos + w_lead.len() + 1)[0] == c);
    }
}

pub proof fn lemma_quote_scan(b: Seq<u8>, pos: int, w: Seq<u8>)
    requires
        0 <= pos,
        pos + w.len() < b.len(),
        b.subrange(pos, pos + w.len() as int) == w,
        forall|k: int| 0 <= k < w.len() ==> #[trigger] w[k] != B_QUOTE,
        b[pos + w.len()] == B_QUOTE,
    ensures
        quote_scan(b, pos) == Some(pos + w.len()),
    decreases w.len(),
{
    if w.len() == 0 {
    } else {
        assert(b[pos] == w[0]) by {
            assert(b.subrange(pos, pos + w.len() as int)[0] == w[0]);
        }
        assert(b.subrange(pos + 1, pos + 1 + (w.len() - 1) as int) =~= w.drop_first()) by {
            assert forall|k: int| 0 <= k < w.len() - 1 implies b.subrange(
                pos + 1,
                pos + 1 + (w.len() - 1) as int,
            )[k] == w.drop_first()[k] by {
                assert(b.subrange(pos, pos + w.len() as int)[k + 1] == w[k + 1]);
            }
        }
        assert forall|k: int| 0 <= k < w.drop_first().len() implies #[trigger] w.drop_first()[k]
            != B_QUOTE by {
            assert(w.drop_first()[k] == w[k + 1]);
        }
        lemma_quote_scan(b, pos + 1, w.drop_first());
    }
}

/// A led quoted word is read back exactly.
pub proof fn lemma_dec_qstr_at(b: Seq<u8>, pos: int, w_lead: Seq<u8>, w: Seq<u8>)
    requires
        bytes_at(b, pos, w_lead + quoted(w)),
        all_ws(w_lead),
        word_ok(w),
    ensures
        spec_dec_qstr(b, pos) == Some((w, pos + w_lead.len() + w.len() + 2)),
{
    assert(quoted(w).len() == w.len() + 2);
    assert(quoted(w)[0] == B_QUOTE) by {
        assert(quoted(w) == seq![B_QUOTE] + w + seq![B_QUOTE]);
        assert((seq![B_QUOTE] + w)[0] == B_QUOTE);
    }
    lemma_tok_at(b, pos, w_lead, quoted(w));
    let p = pos + w_lead.len();
    assert(quoted(w) =~= seq![B_QUOTE] + (w + seq![B_QUOTE]));
    lemma_bytes_at_split(b, p, seq![B_QUOTE], w + seq![B_QUOTE]);
    lemma_bytes_at_split(b, p + 1, w, seq![B_QUOTE]);
    assert(b[p] == B_QUOTE) by {
        assert(b.subrange(p, p + 1)[0] == B_QUOTE);
    }
    assert(b[p + 1 + w.len()] == B_QUOTE) by {
        assert(b.subrange(p + 1 + w.len(), p + 1 + w.len() + 1)[0] == B_QUOTE);
    }
    lemma_quote_scan(b, p + 1, w);
    assert(b.subrange(p + 1, p + 1 + w.len() as int) == w);
}

/// A led key and its colon are read back exactly.
pub proof fn lemma_dec_key_at(b: Seq<u8>, pos: int, w: Seq<u8>)
    requires
        bytes_at(b, pos, spec_t_enc_key(w)),
        word_ok(w),
    ensures
        spec_dec_key(b, pos, w) == Some(pos + spec_t_enc_key(w).len()),
{
    assert(sp_tok(quoted(w)) =~= seq![B_SPACE] + quoted(w));
    assert(sp_tok(seq![B_COLON]) =~= seq![B_SPACE] + seq![B_COLON]);
    lemma_bytes_at_split(b, pos, sp_tok(quoted(w)), sp_tok(seq![B_COLON]));
    assert(all_ws(seq![B_SPACE])) by {
        assert(seq![B_SPACE][0] == B_SPACE);
    }
    lemma_dec_qstr_at(b, pos, seq![B_SPACE], w);
    let p2 = pos + 1 + w.len() + 2;
    lemma_expect_at(b, p2, seq![B_SPACE], B_COLON);
    assert(spec_t_enc_key(w).len() == w.len() + 5);
}

/// A led unsigned number is read back exactly.
pub proof fn lemma_dec_u64_at(b: Seq<u8>, pos: int, v: u64)
    requires
        bytes_at(b, pos, sp_tok(spec_digits(v))),
        pos + 1 + spec_digits(v).len() == b.len() || !is_digit(b[pos + 1 + spec_digits(v).len()]),
    ensures
        spec_dec_u64_text(b, pos) == Some((v, pos + 1 + spec_digits(v).len())),
{
    lemma_digits_are_digits(v);
    assert(sp_tok(spec_digits(v)) =~= seq![B_SPACE] + spec_digits(v));
    assert(all_ws(seq![B_SPACE])) by {
        assert(seq![B_SPACE][0] == B_SPACE);
    }
    lemma_tok_at(b, pos, seq![B_SPACE], spec_digits(v));
    lemma_digit_run_exact(b, pos + 1, spec_digits(v));
    lemma_val_digits(v);
}

/// A led signed number is read back exactly.
pub proof fn lemma_dec_i64_at(b: Seq<u8>, pos: int, v: i64)
    requires
        bytes_at(b, pos, sp_tok(spec_signed_digits(v))),
        pos + 1 + spec_signed_digits(v).len() == b.len() || !is_digit(
            b[pos + 1 + spec_signed_digits(v).len()],
        ),
    ensures
        spec_dec_i64_text(b, pos) == Some((v, pos + 1 + spec_signed_digits(v).len())),
{
    assert(all_ws(seq![B_SPACE])) by {
        assert(seq![B_SPACE][0] == B_SPACE);
    }
    if v >= 0 {
        let m = v as u64;
        lemma_digits_are_digits(m);
        assert(spec_signed_digits(v) == spec_digits(m));
        assert(sp_tok(spec_digits(m)) =~= seq![B_SPACE] + spec_digits(m));
        lemma_tok_at(b, pos, seq![B_SPACE], spec_digits(m));
        lemma_digit_run_exact(b, pos + 1, spec_digits(m));
        lemma_val_digits(m);
        let p = pos + 1;
        assert(b[p] == spec_digits(m)[0]) by {
            assert(b.subrange(p, p + spec_digits(m).len() as int)[0] == spec_digits(m)[0]);
        }
        assert(is_digit(spec_digits(m)[0]));
        assert(b[p] != B_MINUS);
    } else {
        let m = (0 - v as int) as u64;
        lemma_digits_are_digits(m);
        let text = seq![B_MINUS] + spec_digits(m);
        assert(spec_signed_digits(v) == text);
        assert(text.len() == 1 + spec_digits(m).len());
        assert(text[0] == B_MINUS);
        assert(!is_ws(B_MINUS));
        assert(sp_tok(text) =~= seq![B_SPACE] + text);
        lemma_tok_at(b, pos, seq![B_SPACE], text);
        let p = pos + 1;
        assert(b[p] == B_MINUS) by {
            assert(b.subrange(p, p + text.len() as int)[0] == text[0]);
        }
        assert(b.subrange(p + 1, p + 1 + spec_digits(m).len() as int) =~= spec_digits(m)) by {
            assert forall|k: int| 0 <= k < spec_digits(m).len() implies b.subrange(
                p + 1,
                p + 1 + spec_digits(m).len() as int,
            )[k] == spec_digits(m)[k] by {
                assert(b.subrange(p, p + text.len() as int)[k + 1] == text[k + 1]);
                assert(text[k + 1] == spec_digits(m)[k]);
            }
        }
        lemma_digit_run_exact(b, p + 1, spec_digits(m));
        lemma_val_digits(m);
        assert(m <= 0x8000_0000_0000_0000u64);
        assert((0 - m as int) as i64 == v);
    }
}

/// A led signed number that fits 32 bits is read back exactly.
pub proof fn lemma_dec_i32_at(b: Seq<u8>, pos: int, v: i32)
    requires
        bytes_at(b, pos, sp_tok(spec_signed_digits(v as i64))),
        pos + 1 + spec_signed_digits(v as i64).len() == b.len() || !is_digit(
            b[pos + 1 + spec_signed_digits(v as i64).len()],
        ),
    ensures
        spec_dec_i32_text(b, pos) == Some((v, pos + 1 + spec_signed_digits(v as i64).len())),
{
    lemma_dec_i64_at(b, pos, v as i64);
}

} // verus!

verus! {

/// An encoded kind is read back exactly.
#[verifier::rlimit(100)]
pub proof fn lemma_dec_kind_at(b: Seq<u8>, pos: int, k: KindNode)
    requires
        bytes_at(b, pos, spec_t_enc_kind(k)),
    ensures
        spec_dec_kind_text(b, pos) == Some((k, pos + spec_t_enc_kind(k).len())),
{
    lemma_words_wf();
    assert(all_ws(seq![B_SPACE])) by {
        assert(seq![B_SPACE][0] == B_SPACE);
    }
    match k {
        KindNode::Splitter => {
            let w = word_splitter();
            assert(sp_tok(quoted(w)) =~= seq![B_SPACE] + quoted(w));
            assert(quoted(w)[0] == B_QUOTE) by {
                assert(quoted(w) == seq![B_QUOTE] + w + seq![B_QUOTE]);
                assert((seq![B_QUOTE] + w)[0] == B_QUOTE);
            }
            lemma_tok_at(b, pos, seq![B_SPACE], quoted(w));
            let p = pos + 1;
            assert(b[p] == B_QUOTE) by {
                assert(b.subrange(p, p + quoted(w).len() as int)[0] == quoted(w)[0]);
            }
            assert(bytes_at(b, p, Seq::<u8>::empty() + quoted(w))) by {
                assert(Seq::<u8>::empty() + quoted(w) =~= quoted(w));
            }
            lemma_dec_qstr_at(b, p, Seq::<u8>::empty(), w);
            assert(skip_ws(b, p) == p);
        },
        KindNode::Workspace(num) => {
            let e_open = sp_tok(seq![B_LBRACE]);
            let e_key = spec_t_enc_key(word_workspace());
            let e_num = sp_tok(spec_signed_digits(num as i64));
            let e_close = sp_tok(seq![B_RBRACE]);
            assert(spec_t_enc_kind(k) == e_open + (e_key + (e_num + e_close)));
            lemma_bytes_at_split(b, pos, e_open, e_key + (e_num + e_close));
            let p1 = pos + e_open.len();
            lemma_bytes_at_split(b, p1, e_key, e_num + e_close);
            let p2 = p1 + e_key.len();
            lemma_bytes_at_split(b, p2, e_num, e_close);
            let p3 = p2 + e_num.len();
            assert(e_open =~= seq![B_SPACE] + seq![B_LBRACE]);
            lemma_tok_at(b, pos, seq![B_SPACE], seq![B_LBRACE]);
            let p = pos + 1;
            assert(b[p] == B_LBRACE) by {
                assert(b.subrange(p, p + 1)[0] == seq![B_LBRACE][0]);
            }
            assert(p1 == p + 1);
            lemma_dec_key_at(b, p1, word_workspace());
            assert(b[p3] == B_SPACE) by {
                assert(b.subrange(p3, p3 + e_close.len() as int)[0] == e_close[0]);
                assert(e_close[0] == B_SPACE) by {
                    assert(e_close =~= seq![B_SPACE] + seq![B_RBRACE]);
                }
            }
            assert(!is_digit(B_SPACE));
            lemma_dec_i32_at(b, p2, num);
            assert(e_close =~= seq![B_SPACE] + seq![B_RBRACE]);
            lemma_expect_at(b, p3, seq![B_SPACE], B_RBRACE);
        },
        KindNode::NormalWindow(win) => {
            let e_open = sp_tok(seq![B_LBRACE]);
            let e_key = spec_t_enc_key(word_normal_window());
            let e_open2 = sp_tok(seq![B_LBRACE]);
            let e_wkey = spec_t_enc_key(word_width());
            let e_w = sp_tok(spec_signed_digits(win.width));
            let e_comma = sp_tok(seq![B_COMMA]);
            let e_hkey = spec_t_enc_key(word_height());
            let e_h = sp_tok(spec_signed_digits(win.height));
            let e_close = sp_tok(seq![B_RBRACE]);
            let e_close2 = sp_tok(seq![B_RBRACE]);
            assert(spec_t_enc_kind(k) == e_open + (e_key + (e_open2 + (e_wkey + (e_w + (e_comma
                + (e_hkey + (e_h + (e_close + e_close2)))))))));
            lemma_bytes_at_split(b, pos, e_open, e_key + (e_open2 + (e_wkey + (e_w + (e_comma + (
            e_hkey + (e_h + (e_close + e_close2))))))));
            let p1 = pos + e_open.len();
            lemma_bytes_at_split(b, p1, e_key, e_open2 + (e_wkey + (e_w + (e_comma + (e_hkey + (
            e_h + (e_close + e_close2)))))));
            let p2 = p1 + e_key.len();
            lemma_bytes_at_split(b, p2, e_open2, e_wkey + (e_w + (e_comma + (e_hkey + (e_h + (
            e_close + e_close2))))));
            let p3 = p2 + e_open2.len();
            lemma_bytes_at_split(b, p3, e_wkey, e_w + (e_comma + (e_hkey + (e_h + (e_close
                + e_close2)))));
            let p4 = p3 + e_wkey.len();
            lemma_bytes_at_split(b, p4, e_w, e_comma + (e_hkey + (e_h + (e_close + e_close2))));
            let p5 = p4 + e_w.len();
            lemma_bytes_at_split(b, p5, e_comma, e_hkey + (e_h + (e_close + e_close2)));
            let p6 = p5 + e_comma.len();
            lemma_bytes_at_split(b, p6, e_hkey, e_h + (e_close + e_close2));
            let p7 = p6 + e_hkey.len();
            lemma_bytes_at_split(b, p7, e_h, e_close + e_close2);
            let p8 = p7 + e_h.len();
            lemma_bytes_at_split(b, p8, e_close, e_close2);
            let p9 = p8 + e_close.len();
            assert(e_open =~= seq![B_SPACE] + seq![B_LBRACE]);
            lemma_tok_at(b, pos, seq![B_SPACE], seq![B_LBRACE]);
            let p = pos + 1;
            assert(b[p] == B_LBRACE) by {
                assert(b.subrange(p, p + 1)[0] == seq![B_LBRACE][0]);
            }
            assert(p1 == p + 1);
            lemma_dec_key_at(b, p1, word_normal_window());
            assert(e_open2 =~= seq![B_SPACE] + seq![B_LBRACE]);
            lemma_expect_at(b, p2, seq![B_SPACE], B_LBRACE);
            lemma_dec_key_at(b, p3, word_width());
            assert(b[p5] == B_SPACE) by {
                assert(b.subrange(p5, p5 + e_comma.len() as int)[0] == e_comma[0]);
                assert(e_comma[0] == B_SPACE) by {
                    assert(e_comma =~= seq![B_SPACE] + seq![B_COMMA]);
                }
            }
            assert(!is_digit(B_SPACE));
            lemma_dec_i64_at(b, p4, win.width);
            assert(e_comma =~= seq![B_SPACE] + seq![B_COMMA]);
            lemma_expect_at(b, p5, seq![B_SPACE], B_COMMA);
            lemma_dec_key_at(b, p6, word_height());
            assert(b[p8] == B_SPACE) by {
                assert(b.subrange(p8, p8 + e_close.len() as int)[0] == e_close[0]);
                assert(e_close[0] == B_SPACE) by {
                    assert(e_close =~= seq![B_SPACE] + seq![B_RBRACE]);
                }
            }
            lemma_dec_i64_at(b, p7, win.height);
            assert(e_close =~= seq![B_SPACE] + seq![B_RBRACE]);
            lemma_expect_at(b, p8, seq![B_SPACE], B_RBRACE);
            assert(e_close2 =~= seq![B_SPACE] + seq![B_RBRACE]);
            lemma_expect_at(b, p9, seq![B_SPACE], B_RBRACE);
            assert(SavedWindow { width: win.width, height: win.height } == win);
        },
    }
}

/// An encoded id-list tail followed by its closing bracket is read back
/// exactly.
pub proof fn lemma_dec_ids_rest_at(
    b: Seq<u8>,
    pos: int,
    ids: Seq<u64>,
    close_lead: u8,
    fuel: nat,
)
    requires
        bytes_at(b, pos, spec_t_enc_ids_rest(ids) + (seq![close_lead] + seq![B_RBRACK])),
        is_ws(close_lead),
        fuel >= ids.len() + 1,
    ensures
        spec_dec_ids_rest(b, pos, fuel) == Some(
            (ids, pos + spec_t_enc_ids_rest(ids).len() + 2),
        ),
    decreases ids.len(),
{
    assert(all_ws(seq![close_lead])) by {
        assert(seq![close_lead][0] == close_lead);
    }
    assert(all_ws(seq![B_SPACE])) by {
        assert(seq![B_SPACE][0] == B_SPACE);
    }
    if ids.len() == 0 {
        assert(spec_t_enc_ids_rest(ids) + (seq![close_lead] + seq![B_RBRACK]) =~= seq![close_lead]
            + seq![B_RBRACK]);
        lemma_expect_at(b, pos, seq![close_lead], B_RBRACK);
        let p = skip_ws(b, pos);
        assert(p == pos + 1);
        assert(b[p] == B_RBRACK) by {
            assert(bytes_at(b, pos, seq![close_lead] + seq![B_RBRACK]));
            assert(b.subrange(pos, pos + 2)[1] == (seq![close_lead] + seq![B_RBRACK])[1]);
        }
        assert(spec_dec_ids_rest(b, pos, fuel) == Some((Seq::<u64>::empty(), p + 1)));
        assert(Seq::<u64>::empty() =~= ids);
    } else {
        let e_comma = sp_tok(seq![B_COMMA]);
        let e_num = sp_tok(spec_digits(ids[0]));
        let e_rest = spec_t_enc_ids_rest(ids.drop_first());
        let closer = seq![close_lead] + seq![B_RBRACK];
        assert(spec_t_enc_ids_rest(ids) == e_comma + (e_num + e_rest));
        assert(bytes_at(b, pos, e_comma + ((e_num + e_rest) + closer))) by {
            assert(spec_t_enc_ids_rest(ids) + closer =~= e_comma + ((e_num + e_rest) + closer));
        }
        lemma_bytes_at_split(b, pos, e_comma, (e_num + e_rest) + closer);
        let p1 = pos + e_comma.len();
        assert(bytes_at(b, p1, e_num + (e_rest + closer))) by {
            assert((e_num + e_rest) + closer =~= e_num + (e_rest + closer));
        }
        lemma_bytes_at_split(b, p1, e_num, e_rest + closer);
        let p2 = p1 + e_num.len();
        assert(e_comma =~= seq![B_SPACE] + seq![B_COMMA]);
        lemma_expect_at(b, pos, seq![B_SPACE], B_COMMA);
        let p = skip_ws(b, pos);
        assert(p == pos + 1);
        assert(b[p] == B_COMMA) by {
            assert(bytes_at(b, pos, seq![B_SPACE] + seq![B_COMMA]));
            assert(b.subrange(pos, pos + 2)[1] == (seq![B_SPACE] + seq![B_COMMA])[1]);
        }
        assert(B_COMMA != B_RBRACK);
        assert(!is_digit(b[p2])) by {
            assert(b.subrange(p2, p2 + (e_rest + closer).len() as int)[0] == (e_rest + closer)[0]);
            if ids.drop_first().len() == 0 {
                assert((e_rest + closer)[0] == closer[0]);
                assert(closer[0] == close_lead);
                assert(is_ws(b[p2]));
            } else {
                assert((e_rest + closer)[0] == e_rest[0]);
                assert(e_rest[0] == B_SPACE) by {
                    assert(e_rest == sp_tok(seq![B_COMMA]) + (sp_tok(
                        spec_digits(ids.drop_first()[0]),
                    ) + spec_t_enc_ids_rest(ids.drop_first().drop_first())));
                }
            }
        }
        lemma_dec_u64_at(b, p1, ids[0]);
        lemma_dec_ids_rest_at(b, p2, ids.drop_first(), close_lead, (fuel - 1) as nat);
        assert(seq![ids[0]] + ids.drop_first() =~= ids);
    }
}

} // verus!

verus! {

/// An encoded id list is read back exactly.
pub proof fn lemma_dec_idlist_at(b: Seq<u8>, pos: int, ids: Seq<u64>, fuel: nat)
    requires
        bytes_at(b, pos, spec_t_enc_idlist(ids)),
        fuel >= ids.len() + 1,
    ensures
        spec_dec_idlist(b, pos, fuel) == Some((ids, pos + spec_t_enc_idlist(ids).len())),
{
    assert(all_ws(seq![B_SPACE])) by {
        assert(seq![B_SPACE][0] == B_SPACE);
    }
    if ids.len() == 0 {
        let e_open = sp_tok(seq![B_LBRACK]);
        let e_close = sp_tok(seq![B_RBRACK]);
        assert(spec_t_enc_idlist(ids) == e_open + e_close);
        lemma_bytes_at_split(b, pos, e_open, e_close);
        assert(e_open =~= seq![B_SPACE] + seq![B_LBRACK]);
        lemma_expect_at(b, pos, seq![B_SPACE], B_LBRACK);
        let p = pos + 2;
        assert(e_close =~= seq![B_SPACE] + seq![B_RBRACK]);
        lemma_tok_at(b, p, seq![B_SPACE], seq![B_RBRACK]);
        let q = skip_ws(b, p);
        assert(q == p + 1);
        assert(b[q] == B_RBRACK) by {
            assert(b.subrange(q, q + 1)[0] == seq![B_RBRACK][0]);
        }
        assert(Seq::<u64>::empty() =~= ids);
    } else {
        let e_open = sp_tok(seq![B_LBRACK]);
        let e_num = sp_tok(spec_digits(ids[0]));
        let e_rest = spec_t_enc_ids_rest(ids.drop_first());
        let e_close = sp_tok(seq![B_RBRACK]);
        assert(spec_t_enc_idlist(ids) == e_open + (e_num + (e_rest + e_close)));
        lemma_bytes_at_split(b, pos, e_open, e_num + (e_rest + e_close));
        let p = pos + e_open.len();
        lemma_bytes_at_split(b, p, e_num, e_rest + e_close);
        let p2 = p + e_num.len();
        assert(e_open =~= seq![B_SPACE] + seq![B_LBRACK]);
        lemma_expect_at(b, pos, seq![B_SPACE], B_LBRACK);
        assert(p == pos + 2);
        lemma_digits_are_digits(ids[0]);
        assert(e_num =~= seq![B_SPACE] + spec_digits(ids[0]));
        lemma_tok_at(b, p, seq![B_SPACE], spec_digits(ids[0]));
        let q = skip_ws(b, p);
        assert(q == p + 1);
        assert(b[q] == spec_digits(ids[0])[0]) by {
            assert(b.subrange(q, q + spec_digits(ids[0]).len() as int)[0] == spec_digits(
                ids[0],
            )[0]);
        }
        assert(is_digit(b[q]));
        assert(b[q] != B_RBRACK);
        assert(!is_digit(b[p2])) by {
            assert(b.subrange(p2, p2 + (e_rest + e_close).len() as int)[0] == (e_rest
                + e_close)[0]);
            if ids.drop_first().len() == 0 {
                assert((e_rest + e_close)[0] == e_close[0]);
                assert(e_close[0] == B_SPACE) by {
                    assert(e_close =~= seq![B_SPACE] + seq![B_RBRACK]);
                }
            } else {
                assert((e_rest + e_close)[0] == e_rest[0]);
                assert(e_rest[0] == B_SPACE) by {
                    assert(e_rest == sp_tok(seq![B_COMMA]) + (sp_tok(
                        spec_digits(ids.drop_first()[0]),
                    ) + spec_t_enc_ids_rest(ids.drop_first().drop_first())));
                }
            }
        }
        lemma_dec_u64_at(b, p, ids[0]);
        assert(bytes_at(b, p2, e_rest + (seq![B_SPACE] + seq![B_RBRACK]))) by {
            assert(e_rest + e_close =~= e_rest + (seq![B_SPACE] + seq![B_RBRACK]));
        }
        lemma_dec_ids_rest_at(b, p2, ids.drop_first(), B_SPACE, fuel);
        assert(seq![ids[0]] + ids.drop_first() =~= ids);
    }
}

/// An encoded record object is read back exactly.
#[verifier::rlimit(100)]
#[verifier::spinoff_prover]
pub proof fn lemma_dec_record_at(b: Seq<u8>, pos: int, m: RecordModel, fuel: nat)
    requires
        bytes_at(b, pos, spec_t_enc_record(m)),
        fuel >= m.children.len() + 1,
    ensures
        spec_dec_record_text(b, pos, fuel) == Some((m, pos + spec_t_enc_record(m).len())),
{
    lemma_words_wf();
    assert(all_ws(seq![B_SPACE])) by {
        assert(seq![B_SPACE][0] == B_SPACE);
    }
    assert(all_ws(seq![B_NEWLINE])) by {
        assert(seq![B_NEWLINE][0] == B_NEWLINE);
    }
    let e_open = nl_tok(seq![B_LBRACE]);
    let e_idkey = spec_t_enc_key(word_id());
    let e_idnum = sp_tok(spec_digits(m.id));
    let e_c1 = sp_tok(seq![B_COMMA]);
    let e_kindkey = spec_t_enc_key(word_kind());
    let e_kind = spec_t_enc_kind(m.kind);
    let e_c2 = sp_tok(seq![B_COMMA]);
    let e_laykey = spec_t_enc_key(word_layout());
    let e_lay = sp_tok(quoted(layout_word(m.layout)));
    let e_c3 = sp_tok(seq![B_COMMA]);
    let e_chkey = spec_t_enc_key(word_children());
    let e_list = spec_t_enc_idlist(m.children);
    let e_close = sp_tok(seq![B_RBRACE]);
    assert(spec_t_enc_record(m) == e_open + (e_idkey + (e_idnum + (e_c1 + (e_kindkey + (e_kind + (
    e_c2 + (e_laykey + (e_lay + (e_c3 + (e_chkey + (e_list + e_close))))))))))));
    lemma_bytes_at_split(b, pos, e_open, e_idkey + (e_idnum + (e_c1 + (e_kindkey + (e_kind + (e_c2
        + (e_laykey + (e_lay + (e_c3 + (e_chkey + (e_list + e_close)))))))))));
    let p1 = pos + e_open.len();
    lemma_bytes_at_split(b, p1, e_idkey, e_idnum + (e_c1 + (e_kindkey + (e_kind + (e_c2 + (
    e_laykey + (e_lay + (e_c3 + (e_chkey + (e_list + e_close))))))))));
    let p2 = p1 + e_idkey.len();
    lemma_bytes_at_split(b, p2, e_idnum, e_c1 + (e_kindkey + (e_kind + (e_c2 + (e_laykey + (e_lay
        + (e_c3 + (e_chkey + (e_list + e_close)))))))));
    let p3 = p2 + e_idnum.len();
    lemma_bytes_at_split(b, p3, e_c1, e_kindkey + (e_kind + (e_c2 + (e_laykey + (e_lay + (e_c3 + (
    e_chkey + (e_list + e_close))))))));
    let p4 = p3 + e_c1.len();
    lemma_bytes_at_split(b, p4, e_kindkey, e_kind + (e_c2 + (e_laykey + (e_lay + (e_c3 + (e_chkey
        + (e_list + e_close)))))));
    let p5 = p4 + e_kindkey.len();
    lemma_bytes_at_split(b, p5, e_kind, e_c2 + (e_laykey + (e_lay + (e_c3 + (e_chkey + (e_list
        + e_close))))));
    let p6 = p5 + e_kind.len();
    lemma_bytes_at_split(b, p6, e_c2, e_laykey + (e_lay + (e_c3 + (e_chkey + (e_list + e_close)))));
    let p7 = p6 + e_c2.len();
    lemma_bytes_at_split(b, p7, e_laykey, e_lay + (e_c3 + (e_chkey + (e_list + e_close))));
    let p8 = p7 + e_laykey.len();
    lemma_bytes_at_split(b, p8, e_lay, e_c3 + (e_chkey + (e_list + e_close)));
    let p9 = p8 + e_lay.len();
    lemma_bytes_at_split(b, p9, e_c3, e_chkey + (e_list + e_close));
    let p10 = p9 + e_c3.len();
    lemma_bytes_at_split(b, p10, e_chkey, e_list + e_close);
    let p11 = p10 + e_chkey.len();
    lemma_bytes_at_split(b, p11, e_list, e_close);
    let p12 = p11 + e_list.len();
    assert(e_open =~= seq![B_NEWLINE] + seq![B_LBRACE]);
    lemma_expect_at(b, pos, seq![B_NEWLINE], B_LBRACE);
    lemma_dec_key_at(b, p1, word_id());
    assert(!is_digit(b[p3])) by {
        assert(b.subrange(p3, p3 + e_c1.len() as int)[0] == e_c1[0]);
        assert(e_c1[0] == B_SPACE) by {
            assert(e_c1 =~= seq![B_SPACE] + seq![B_COMMA]);
        }
    }
    lemma_dec_u64_at(b, p2, m.id);
    assert(e_c1 =~= seq![B_SPACE] + seq![B_COMMA]);
    lemma_expect_at(b, p3, seq![B_SPACE], B_COMMA);
    lemma_dec_key_at(b, p4, word_kind());
    lemma_dec_kind_at(b, p5, m.kind);
    assert(e_c2 =~= seq![B_SPACE] + seq![B_COMMA]);
    lemma_expect_at(b, p6, seq![B_SPACE], B_COMMA);
    lemma_dec_key_at(b, p7, word_layout());
    assert(word_ok(layout_word(m.layout)));
    lemma_dec_qstr_at(b, p8, seq![B_SPACE], layout_word(m.layout));
    assert(e_lay.len() == layout_word(m.layout).len() + 3);
    assert(e_c3 =~= seq![B_SPACE] + seq![B_COMMA]);
    lemma_expect_at(b, p9, seq![B_SPACE], B_COMMA);
    lemma_dec_key_at(b, p10, word_children());
    lemma_dec_idlist_at(b, p11, m.children, fuel);
    assert(e_close =~= seq![B_SPACE] + seq![B_RBRACE]);
    lemma_expect_at(b, p12, seq![B_SPACE], B_RBRACE);
    assert(spec_dec_layout_text(b, p8) == Some((m.layout, p9)));
    assert(RecordModel { id: m.id, kind: m.kind, layout: m.layout, children: m.children } =~= m);
}

/// How many child ids a record list holds in all.
pub open spec fn sum_children(ms: Seq<RecordModel>) -> nat
    decreases ms.len(),
{
    if ms.len() == 0 {
        0
    } else {
        ms[0].children.len() + sum_children(ms.drop_first())
    }
}

pub proof fn lemma_enc_record_len(m: RecordModel)
    ensures
        spec_t_enc_record(m).len() >= m.children.len() + 2,
{
    lemma_enc_idlist_len(m.children);
}

pub proof fn lemma_enc_ids_rest_len(ids: Seq<u64>)
    ensures
        spec_t_enc_ids_rest(ids).len() >= ids.len(),
    decreases ids.len(),
{
    if ids.len() > 0 {
        lemma_enc_ids_rest_len(ids.drop_first());
        lemma_digits_are_digits(ids[0]);
    }
}

pub proof fn lemma_enc_idlist_len(ids: Seq<u64>)
    ensures
        spec_t_enc_idlist(ids).len() >= ids.len() + 2,
{
    if ids.len() > 0 {
        lemma_enc_ids_rest_len(ids.drop_first());
        lemma_digits_are_digits(ids[0]);
    }
}

pub proof fn lemma_enc_records_rest_len(ms: Seq<RecordModel>)
    ensures
        spec_t_enc_records_rest(ms).len() >= ms.len() + sum_children(ms),
    decreases ms.len(),
{
    if ms.len() > 0 {
        lemma_enc_records_rest_len(ms.drop_first());
        lemma_enc_record_len(ms[0]);
    }
}

/// An encoded record-list tail followed by its closing bracket is read back
/// exactly.
#[verifier::rlimit(100)]
pub proof fn lemma_dec_records_rest_at(
    b: Seq<u8>,
    pos: int,
    ms: Seq<RecordModel>,
    close_lead: u8,
    fuel: nat,
)
    requires
        bytes_at(b, pos, spec_t_enc_records_rest(ms) + (seq![close_lead] + seq![B_RBRACK])),
        is_ws(close_lead),
        fuel >= ms.len() + 1 + sum_children(ms),
    ensures
        spec_dec_records_rest(b, pos, fuel) == Some(
            (ms, pos + spec_t_enc_records_rest(ms).len() + 2),
        ),
    decreases ms.len(),
{
    assert(all_ws(seq![close_lead])) by {
        assert(seq![close_lead][0] == close_lead);
    }
    assert(all_ws(seq![B_SPACE])) by {
        assert(seq![B_SPACE][0] == B_SPACE);
    }
    if ms.len() == 0 {
        assert(spec_t_enc_records_rest(ms) + (seq![close_lead] + seq![B_RBRACK]) =~= seq![
            close_lead,
        ] + seq![B_RBRACK]);
        lemma_expect_at(b, pos, seq![close_lead], B_RBRACK);
        let p = skip_ws(b, pos);
        assert(p == pos + 1);
        assert(b[p] == B_RBRACK) by {
            assert(bytes_at(b, pos, seq![close_lead] + seq![B_RBRACK]));
            assert(b.subrange(pos, pos + 2)[1] == (seq![close_lead] + seq![B_RBRACK])[1]);
        }
        assert(Seq::<RecordModel>::empty() =~= ms);
    } else {
        let e_comma = sp_tok(seq![B_COMMA]);
        let e_rec = spec_t_enc_record(ms[0]);
        let e_rest = spec_t_enc_records_rest(ms.drop_first());
        let closer = seq![close_lead] + seq![B_RBRACK];
        assert(spec_t_enc_records_rest(ms) == e_comma + (e_rec + e_rest));
        assert(bytes_at(b, pos, e_comma + (e_rec + (e_rest + closer)))) by {
            assert(spec_t_enc_records_rest(ms) + closer =~= e_comma + (e_rec + (e_rest + closer)));
        }
        lemma_bytes_at_split(b, pos, e_comma, e_rec + (e_rest + closer));
        let p1 = pos + e_comma.len();
        lemma_bytes_at_split(b, p1, e_rec, e_rest + closer);
        let p2 = p1 + e_rec.len();
        assert(e_comma =~= seq![B_SPACE] + seq![B_COMMA]);
        lemma_expect_at(b, pos, seq![B_SPACE], B_COMMA);
        let p = skip_ws(b, pos);
        assert(p == pos + 1);
        assert(b[p] == B_COMMA) by {
            assert(bytes_at(b, pos, seq![B_SPACE] + seq![B_COMMA]));
            assert(b.subrange(pos, pos + 2)[1] == (seq![B_SPACE] + seq![B_COMMA])[1]);
        }
        assert(B_COMMA != B_RBRACK);
        lemma_dec_record_at(b, p1, ms[0], fuel);
        lemma_dec_records_rest_at(b, p2, ms.drop_first(), close_lead, (fuel - 1) as nat);
        assert(seq![ms[0]] + ms.drop_first() =~= ms);
    }
}

/// An encoded record opens with a line break and a brace.
pub proof fn lemma_enc_record_head(m: RecordModel)
    ensures
        spec_t_enc_record(m).len() >= 2,
        spec_t_enc_record(m)[0] == B_NEWLINE,
        spec_t_enc_record(m)[1] == B_LBRACE,
{
    let h = nl_tok(seq![B_LBRACE]);
    assert(h.len() == 2 && h[0] == B_NEWLINE && h[1] == B_LBRACE);
    assert(spec_t_enc_record(m)[0] == h[0]);
    assert(spec_t_enc_record(m)[1] == h[1]);
}

/// Decoding an encoded text stream yields exactly the records that were
/// encoded.
#[verifier::rlimit(100)]
#[verifier::spinoff_prover]
proof fn lemma_text_round_trip_nonempty(ms: Seq<RecordModel>)
    requires
        ms.len() > 0,
    ensures
        spec_dec_stream_text(spec_t_enc_stream(ms)) == Some(ms),
{
    let b = spec_t_enc_stream(ms);
    let fuel = (b.len() + 1) as nat;
    assert(all_ws(seq![B_SPACE])) by {
        assert(seq![B_SPACE][0] == B_SPACE);
    }
    assert(all_ws(seq![B_NEWLINE])) by {
        assert(seq![B_NEWLINE][0] == B_NEWLINE);
    }
    assert(bytes_at(b, 0int, b)) by {
        assert(b.subrange(0, b.len() as int) =~= b);
    }

        let e_open = sp_tok(seq![B_LBRACK]);
        let e_rec = spec_t_enc_record(ms[0]);
        let e_rest = spec_t_enc_records_rest(ms.drop_first());
        let e_close = nl_tok(seq![B_RBRACK]);
        assert(b == e_open + (e_rec + (e_rest + e_close)));
        lemma_bytes_at_split(b, 0int, e_open, e_rec + (e_rest + e_close));
        let p1 = 0int + e_open.len();
        lemma_bytes_at_split(b, p1, e_rec, e_rest + e_close);
        let p2 = p1 + e_rec.len();
        assert(e_open =~= seq![B_SPACE] + seq![B_LBRACK]);
        lemma_expect_at(b, 0int, seq![B_SPACE], B_LBRACK);
        assert(p1 == 2);
        // the list is not empty: after the bracket a record's brace opens
        lemma_enc_record_head(ms[0]);
        assert(b[2] == B_NEWLINE && b[3] == B_LBRACE) by {
            assert(b.subrange(p1, p1 + e_rec.len() as int)[0] == e_rec[0]);
            assert(b.subrange(p1, p1 + e_rec.len() as int)[1] == e_rec[1]);
        }
        let q = skip_ws(b, 2int);
        assert(q == 3) by {
            assert(skip_ws(b, 3int) == 3);
        }
        assert(b[q] != B_RBRACK);
        assert(fuel >= ms[0].children.len() + 1) by {
            lemma_enc_record_len(ms[0]);
        }
        lemma_dec_record_at(b, 2int, ms[0], fuel);
        assert(bytes_at(b, p2, e_rest + (seq![B_NEWLINE] + seq![B_RBRACK]))) by {
            assert(e_rest + e_close =~= e_rest + (seq![B_NEWLINE] + seq![B_RBRACK]));
        }
        assert(fuel >= ms.drop_first().len() + 1 + sum_children(ms.drop_first())) by {
            lemma_enc_records_rest_len(ms.drop_first());
        }
        lemma_dec_records_rest_at(b, p2, ms.drop_first(), B_NEWLINE, fuel);
        assert(seq![ms[0]] + ms.drop_first() =~= ms);
}

#[verifier::rlimit(100)]
#[verifier::spinoff_prover]
pub proof fn lemma_text_round_trip(ms: Seq<RecordModel>)
    ensures
        spec_dec_stream_text(spec_t_enc_stream(ms)) == Some(ms),
{
    let b = spec_t_enc_stream(ms);
    let fuel = (b.len() + 1) as nat;
    assert(all_ws(seq![B_SPACE])) by {
        assert(seq![B_SPACE][0] == B_SPACE);
    }
    assert(all_ws(seq![B_NEWLINE])) by {
        assert(seq![B_NEWLINE][0] == B_NEWLINE);
    }
    assert(bytes_at(b, 0, b)) by {
        assert(b.subrange(0, b.len() as int) =~= b);
    }
    if ms.len() == 0 {
        let e_open = sp_tok(seq![B_LBRACK]);
        let e_close = nl_tok(seq![B_RBRACK]);
        assert(b == e_open + e_close);
        lemma_bytes_at_split(b, 0int, e_open, e_close);
        assert(e_open =~= seq![B_SPACE] + seq![B_LBRACK]);
        lemma_expect_at(b, 0int, seq![B_SPACE], B_LBRACK);
        assert(e_close =~= seq![B_NEWLINE] + seq![B_RBRACK]);
        lemma_tok_at(b, 2int, seq![B_NEWLINE], seq![B_RBRACK]);
        let q = skip_ws(b, 2int);
        assert(q == 3);
        assert(b[q] == B_RBRACK) by {
            assert(b.subrange(q, q + 1)[0] == seq![B_RBRACK][0]);
        }
        assert(Seq::<RecordModel>::empty() =~= ms);
    } else {
        lemma_text_round_trip_nonempty(ms);
    }
}

} // verus!

verus! {

// ---------------------------------------------------------------------------
// Exec text encoding.
// ---------------------------------------------------------------------------

/// Append the decimal digits of a value.
pub fn push_udigits(out: &mut Vec<u8>, v: u64)
    ensures
        final(out)@ == old(out)@ + spec_digits(v),
    decreases v,
{
    if v < 10 {
        out.push((v + 48) as u8);
        proof {
            assert(out@ =~= old(out)@ + spec_digits(v));
        }
    } else {
        push_udigits(out, v / 10);
        out.push((v % 10 + 48) as u8);
        proof {
            assert(out@ =~= old(out)@ + spec_digits(v));
        }
    }
}

/// Append the decimal spelling of a signed value.
pub fn push_signed(out: &mut Vec<u8>, v: i64)
    ensures
        final(out)@ == old(out)@ + spec_signed_digits(v),
{
    if v >= 0 {
        push_udigits(out, v as u64);
    } else {
        out.push(B_MINUS);
        let m: u64 = ((-(v + 1)) as u64) + 1;
        proof {
            assert(m == (0 - v as int) as u64);
        }
        push_udigits(out, m);
        proof {
            assert(out@ =~= old(out)@ + spec_signed_digits(v));
        }
    }
}

fn push_sp(out: &mut Vec<u8>, c: u8)
    ensures
        final(out)@ == old(out)@ + sp_tok(seq![c]),
{
    out.push(B_SPACE);
    out.push(c);
    proof {
        assert(out@ =~= old(out)@ + sp_tok(seq![c]));
    }
}

fn push_nl(out: &mut Vec<u8>, c: u8)
    ensures
        final(out)@ == old(out)@ + nl_tok(seq![c]),
{
    out.push(B_NEWLINE);
    out.push(c);
    proof {
        assert(out@ =~= old(out)@ + nl_tok(seq![c]));
    }
}

fn push_sp_num(out: &mut Vec<u8>, v: u64)
    ensures
        final(out)@ == old(out)@ + sp_tok(spec_digits(v)),
{
    out.push(B_SPACE);
    push_udigits(out, v);
    proof {
        assert(out@ =~= old(out)@ + sp_tok(spec_digits(v)));
    }
}

fn push_sp_signed(out: &mut Vec<u8>, v: i64)
    ensures
        final(out)@ == old(out)@ + sp_tok(spec_signed_digits(v)),
{
    out.push(B_SPACE);
    push_signed(out, v);
    proof {
        assert(out@ =~= old(out)@ + sp_tok(spec_signed_digits(v)));
    }
}

fn push_key_id(out: &mut Vec<u8>)
    ensures
        final(out)@ == old(out)@ + spec_t_enc_key(word_id()),
{
    out.push(B_SPACE);
    out.push(B_QUOTE);
    push_word_id(out);
    out.push(B_QUOTE);
    out.push(B_SPACE);
    out.push(B_COLON);
    proof {
        assert(out@ =~= old(out)@ + spec_t_enc_key(word_id()));
    }
}

fn push_key_kind(out: &mut Vec<u8>)
    ensures
        final(out)@ == old(out)@ + spec_t_enc_key(word_kind()),
{
    out.push(B_SPACE);
    out.push(B_QUOTE);
    push_word_kind(out);
    out.push(B_QUOTE);
    out.push(B_SPACE);
    out.push(B_COLON);
    proof {
        assert(out@ =~= old(out)@ + spec_t_enc_key(word_kind()));
    }
}

fn push_key_layout(out: &mut Vec<u8>)
    ensures
        final(out)@ == old(out)@ + spec_t_enc_key(word_layout()),
{
    out.push(B_SPACE);
    out.push(B_QUOTE);
    push_word_layout(out);
    out.push(B_QUOTE);
    out.push(B_SPACE);
    out.push(B_COLON);
    proof {
        assert(out@ =~= old(out)@ + spec_t_enc_key(word_layout()));
    }
}

fn push_key_children(out: &mut Vec<u8>)
    ensures
        final(out)@ == old(out)@ + spec_t_enc_key(word_children()),
{
    out.push(B_SPACE);
    out.push(B_QUOTE);
    push_word_children(out);
    out.push(B_QUOTE);
    out.push(B_SPACE);
    out.push(B_COLON);
    proof {
        assert(out@ =~= old(out)@ + spec_t_enc_key(word_children()));
    }
}

fn push_key_workspace(out: &mut Vec<u8>)
    ensures
        final(out)@ == old(out)@ + spec_t_enc_key(word_workspace()),
{
    out.push(B_SPACE);
    out.push(B_QUOTE);
    push_word_workspace(out);
    out.push(B_QUOTE);
    out.push(B_SPACE);
    out.push(B_COLON);
    proof {
        assert(out@ =~= old(out)@ + spec_t_enc_key(word_workspace()));
    }
}

fn push_key_normal_window(out: &mut Vec<u8>)
    ensures
        final(out)@ == old(out)@ + spec_t_enc_key(word_normal_window()),
{
    out.push(B_SPACE);
    out.push(B_QUOTE);
    push_word_normal_window(out);
    out.push(B_QUOTE);
    out.push(B_SPACE);
    out.push(B_COLON);
    proof {
        assert(out@ =~= old(out)@ + spec_t_enc_key(word_normal_window()));
    }
}

fn push_key_width(out: &mut Vec<u8>)
    ensures
        final(out)@ == old(out)@ + spec_t_enc_key(word_width()),
{
    out.push(B_SPACE);
    out.push(B_QUOTE);
    push_word_width(out);
    out.push(B_QUOTE);
    out.push(B_SPACE);
    out.push(B_COLON);
    proof {
        assert(out@ =~= old(out)@ + spec_t_enc_key(word_width()));
    }
}

fn push_key_height(out: &mut Vec<u8>)
    ensures
        final(out)@ == old(out)@ + spec_t_enc_key(word_height()),
{
    out.push(B_SPACE);
    out.push(B_QUOTE);
    push_word_height(out);
    out.push(B_QUOTE);
    out.push(B_SPACE);
    out.push(B_COLON);
    proof {
        assert(out@ =~= old(out)@ + spec_t_enc_key(word_height()));
    }
}

fn push_kind_text(out: &mut Vec<u8>, k: &KindNode)
    ensures
        final(out)@ == old(out)@ + spec_t_enc_kind(*k),
{
    match k {
        KindNode::Workspace(num) => {
            push_sp(out, B_LBRACE);
            push_key_workspace(out);
            push_sp_signed(out, *num as i64);
            push_sp(out, B_RBRACE);
            proof {
                assert(out@ =~= old(out)@ + spec_t_enc_kind(*k));
            }
        },
        KindNode::NormalWindow(w) => {
            push_sp(out, B_LBRACE);
            push_key_normal_window(out);
            push_sp(out, B_LBRACE);
            push_key_width(out);
            push_sp_signed(out, w.width);
            push_sp(out, B_COMMA);
            push_key_height(out);
            push_sp_signed(out, w.height);
            push_sp(out, B_RBRACE);
            push_sp(out, B_RBRACE);
            proof {
                assert(out@ =~= old(out)@ + spec_t_enc_kind(*k));
            }
        },
        KindNode::Splitter => {
            out.push(B_SPACE);
            out.push(B_QUOTE);
            push_word_splitter(out);
            out.push(B_QUOTE);
            proof {
                assert(out@ =~= old(out)@ + spec_t_enc_kind(*k));
            }
        },
    }
}

fn push_layout_text(out: &mut Vec<u8>, l: LayoutNode)
    ensures
        final(out)@ == old(out)@ + sp_tok(quoted(layout_word(l))),
{
    out.push(B_SPACE);
    out.push(B_QUOTE);
    match l {
        LayoutNode::SplitH => push_word_splith(out),
        LayoutNode::SplitV => push_word_splitv(out),
        LayoutNode::Stacked => push_word_stacked(out),
        LayoutNode::Tabbed => push_word_tabbed(out),
    }
    out.push(B_QUOTE);
    proof {
        assert(out@ =~= old(out)@ + sp_tok(quoted(layout_word(l))));
    }
}

pub proof fn lemma_t_ids_rest_push(ids: Seq<u64>, x: u64)
    ensures
        spec_t_enc_ids_rest(ids.push(x)) == spec_t_enc_ids_rest(ids) + (sp_tok(seq![B_COMMA])
            + sp_tok(spec_digits(x))),
    decreases ids.len(),
{
    if ids.len() == 0 {
        assert(ids.push(x)[0] == x);
        assert(ids.push(x).drop_first() =~= Seq::<u64>::empty());
        assert(spec_t_enc_ids_rest(Seq::<u64>::empty()) == Seq::<u8>::empty());
        assert(spec_t_enc_ids_rest(ids.push(x)) == sp_tok(seq![B_COMMA]) + (sp_tok(
            spec_digits(x),
        ) + Seq::<u8>::empty()));
        assert(sp_tok(seq![B_COMMA]) + (sp_tok(spec_digits(x)) + Seq::<u8>::empty()) =~= Seq::<
            u8,
        >::empty() + (sp_tok(seq![B_COMMA]) + sp_tok(spec_digits(x))));
    } else {
        assert(ids.push(x).drop_first() =~= ids.drop_first().push(x));
        assert(ids.push(x)[0] == ids[0]);
        lemma_t_ids_rest_push(ids.drop_first(), x);
        let piece = sp_tok(seq![B_COMMA]) + sp_tok(spec_digits(x));
        let head = sp_tok(seq![B_COMMA]);
        let num0 = sp_tok(spec_digits(ids[0]));
        assert(spec_t_enc_ids_rest(ids.push(x)) == head + (num0 + (spec_t_enc_ids_rest(
            ids.drop_first(),
        ) + piece)));
        assert(spec_t_enc_ids_rest(ids) == head + (num0 + spec_t_enc_ids_rest(ids.drop_first())));
        assert(head + (num0 + (spec_t_enc_ids_rest(ids.drop_first()) + piece)) =~= (head + (num0
            + spec_t_enc_ids_rest(ids.drop_first()))) + piece);
    }
}

#[verifier::loop_isolation(false)]
fn push_idlist(out: &mut Vec<u8>, ids: &Vec<u64>)
    ensures
        final(out)@ == old(out)@ + spec_t_enc_idlist(ids@),
{
    let ghost out0 = out@;
    push_sp(out, B_LBRACK);
    if ids.len() == 0 {
        push_sp(out, B_RBRACK);
        proof {
            assert(out@ =~= out0 + spec_t_enc_idlist(ids@));
        }
        return ;
    }
    push_sp_num(out, ids[0]);
    let ghost base = out@;
    let mut j: usize = 1;
    while j < ids.len()
        invariant
            1 <= j <= ids@.len(),
            out@ == base + spec_t_enc_ids_rest(ids@.subrange(1, j as int)),
        decreases ids@.len() - j,
    {
        push_sp(out, B_COMMA);
        push_sp_num(out, ids[j]);
        proof {
            assert(ids@.subrange(1, (j + 1) as int) =~= ids@.subrange(1, j as int).push(
                ids@[j as int],
            ));
            lemma_t_ids_rest_push(ids@.subrange(1, j as int), ids@[j as int]);
            assert(out@ =~= base + spec_t_enc_ids_rest(ids@.subrange(1, (j + 1) as int)));
        }
        j += 1;
    }
    push_sp(out, B_RBRACK);
    proof {
        assert(ids@.subrange(1, ids@.len() as int) =~= ids@.drop_first());
        assert(out@ =~= out0 + spec_t_enc_idlist(ids@));
    }
}

#[verifier::rlimit(100)]
#[verifier::spinoff_prover]
fn push_record_text(out: &mut Vec<u8>, n: &SavedNode)
    ensures
        final(out)@ == old(out)@ + spec_t_enc_record(n.model()),
{
    push_nl(out, B_LBRACE);
    push_key_id(out);
    push_sp_num(out, n.id);
    push_sp(out, B_COMMA);
    push_key_kind(out);
    push_kind_text(out, &n.kind);
    push_sp(out, B_COMMA);
    push_key_layout(out);
    push_layout_text(out, n.layout);
    push_sp(out, B_COMMA);
    push_key_children(out);
    push_idlist(out, &n.children);
    push_sp(out, B_RBRACE);
    proof {
        assert(out@ =~= old(out)@ + spec_t_enc_record(n.model()));
    }
}

#[verifier::rlimit(100)]
pub proof fn lemma_t_records_rest_push(ms: Seq<RecordModel>, m: RecordModel)
    ensures
        spec_t_enc_records_rest(ms.push(m)) == spec_t_enc_records_rest(ms) + (sp_tok(
            seq![B_COMMA],
        ) + spec_t_enc_record(m)),
    decreases ms.len(),
{
    if ms.len() == 0 {
        assert(ms.push(m)[0] == m);
        assert(ms.push(m).drop_first() =~= Seq::<RecordModel>::empty());
        assert(spec_t_enc_records_rest(Seq::<RecordModel>::empty()) == Seq::<u8>::empty());
        assert(spec_t_enc_records_rest(ms.push(m)) == sp_tok(seq![B_COMMA]) + (spec_t_enc_record(
            m,
        ) + Seq::<u8>::empty()));
        assert(sp_tok(seq![B_COMMA]) + (spec_t_enc_record(m) + Seq::<u8>::empty()) =~= Seq::<
            u8,
        >::empty() + (sp_tok(seq![B_COMMA]) + spec_t_enc_record(m)));
    } else {
        assert(ms.push(m).drop_first() =~= ms.drop_first().push(m));
        assert(ms.push(m)[0] == ms[0]);
        lemma_t_records_rest_push(ms.drop_first(), m);
        let piece = sp_tok(seq![B_COMMA]) + spec_t_enc_record(m);
        let head = sp_tok(seq![B_COMMA]);
        let rec0 = spec_t_enc_record(ms[0]);
        assert(spec_t_enc_records_rest(ms.push(m)) == head + (rec0 + (spec_t_enc_records_rest(
            ms.drop_first(),
        ) + piece)));
        assert(spec_t_enc_records_rest(ms) == head + (rec0 + spec_t_enc_records_rest(
            ms.drop_first(),
        )));
        assert(head + (rec0 + (spec_t_enc_records_rest(ms.drop_first()) + piece)) =~= (head + (
        rec0 + spec_t_enc_records_rest(ms.drop_first()))) + piece);
    }
}

/// Encode a record list as a text stream.
#[verifier::rlimit(100)]
#[verifier::spinoff_prover]
#[verifier::loop_isolation(false)]
pub fn encode_stream_text(nodes: &Vec<SavedNode>) -> (r: Vec<u8>)
    ensures
        r@ == spec_t_enc_stream(models(nodes@)),
{
    let mut out: Vec<u8> = Vec::new();
    push_sp(&mut out, B_LBRACK);
    if nodes.len() == 0 {
        push_nl(&mut out, B_RBRACK);
        proof {
            assert(models(nodes@).len() == 0);
            assert(out@ =~= spec_t_enc_stream(models(nodes@)));
        }
        return out;
    }
    push_record_text(&mut out, &nodes[0]);
    let ghost ms = models(nodes@);
    let ghost base = out@;
    let mut i: usize = 1;
    while i < nodes.len()
        invariant
            1 <= i <= nodes@.len(),
            ms == models(nodes@),
            ms.len() == nodes@.len(),
            out@ == base + spec_t_enc_records_rest(ms.subrange(1, i as int)),
        decreases nodes@.len() - i,
    {
        push_sp(&mut out, B_COMMA);
        push_record_text(&mut out, &nodes[i]);
        proof {
            assert(ms.subrange(1, (i + 1) as int) =~= ms.subrange(1, i as int).push(
                ms[i as int],
            ));
            lemma_t_records_rest_push(ms.subrange(1, i as int), ms[i as int]);
            assert(ms[i as int] == nodes@[i as int].model());
            assert(out@ =~= base + spec_t_enc_records_rest(ms.subrange(1, (i + 1) as int)));
        }
        i += 1;
    }
    push_nl(&mut out, B_RBRACK);
    proof {
        assert(ms.subrange(1, ms.len() as int) =~= ms.drop_first());
        assert(out@ =~= spec_t_enc_stream(ms));
    }
    out
}

} // verus!

verus! {

// ---------------------------------------------------------------------------
// Exec text decoding.
// ---------------------------------------------------------------------------

fn is_ws_byte(c: u8) -> (r: bool)
    ensures
        r == is_ws(c),
{
    c == B_SPACE || c == B_NEWLINE || c == B_TAB || c == B_RETURN
}

fn is_digit_byte(c: u8) -> (r: bool)
    ensures
        r == is_digit(c),
{
    B_ZERO <= c && c <= 57
}

#[verifier::loop_isolation(false)]
fn skip_ws_exec(b: &Vec<u8>, pos: &mut usize)
    requires
        *old(pos) <= b@.len(),
    ensures
        *final(pos) as int == skip_ws(b@, *old(pos) as int),
        *old(pos) <= *final(pos) <= b@.len(),
{
    while *pos < b.len() && is_ws_byte(b[*pos])
        invariant
            *old(pos) <= *pos <= b@.len(),
            skip_ws(b@, *old(pos) as int) == skip_ws(b@, *pos as int),
        decreases b@.len() - *pos,
    {
        *pos = *pos + 1;
    }
}

fn expect_exec(b: &Vec<u8>, pos: &mut usize, c: u8) -> (r: bool)
    requires
        *old(pos) <= b@.len(),
        !is_ws(c),
    ensures
        r ==> spec_expect(b@, *old(pos) as int, c) == Some(*final(pos) as int) && *old(pos)
            < *final(pos) <= b@.len(),
        !r ==> spec_expect(b@, *old(pos) as int, c) is None && *old(pos) <= *final(pos)
            <= b@.len(),
{
    skip_ws_exec(b, pos);
    if *pos < b.len() && b[*pos] == c {
        *pos = *pos + 1;
        true
    } else {
        false
    }
}

#[verifier::loop_isolation(false)]
fn read_qstr(b: &Vec<u8>, pos: &mut usize) -> (r: Option<Vec<u8>>)
    requires
        *old(pos) <= b@.len(),
    ensures
        match r {
            Some(w) => spec_dec_qstr(b@, *old(pos) as int) == Some((w@, *final(pos) as int))
                && *old(pos) < *final(pos) <= b@.len(),
            None => spec_dec_qstr(b@, *old(pos) as int) is None && *old(pos) <= *final(pos)
                <= b@.len(),
        },
{
    skip_ws_exec(b, pos);
    if !(*pos < b.len() && b[*pos] == B_QUOTE) {
        return None;
    }
    let start = *pos + 1;
    let mut i: usize = start;
    while i < b.len() && b[i] != B_QUOTE
        invariant
            start <= i <= b@.len(),
            quote_scan(b@, start as int) == quote_scan(b@, i as int),
        decreases b@.len() - i,
    {
        i = i + 1;
    }
    if i == b.len() {
        proof {
            assert(quote_scan(b@, i as int) is None);
        }
        return None;
    }
    let mut w: Vec<u8> = Vec::new();
    let mut j: usize = start;
    while j < i
        invariant
            start <= j <= i <= b@.len(),
            w@ == b@.subrange(start as int, j as int),
        decreases i - j,
    {
        w.push(b[j]);
        proof {
            assert(w@ =~= b@.subrange(start as int, (j + 1) as int));
        }
        j = j + 1;
    }
    proof {
        assert(quote_scan(b@, start as int) == Some(i as int));
    }
    *pos = i + 1;
    Some(w)
}

fn bytes_eq(a: &Vec<u8>, c: &Vec<u8>) -> (r: bool)
    ensures
        r == (a@ == c@),
{
    if a.len() != c.len() {
        return false;
    }
    let mut i: usize = 0;
    while i < a.len()
        invariant
            i <= a@.len(),
            a@.len() == c@.len(),
            forall|k: int| 0 <= k < i ==> a@[k] == c@[k],
        decreases a@.len() - i,
    {
        if a[i] != c[i] {
            return false;
        }
        i = i + 1;
    }
    proof {
        assert(a@ =~= c@);
    }
    true
}

/// The maximal digit run at the current position, folded into a value.
#[verifier::loop_isolation(false)]
fn scan_uint(b: &Vec<u8>, pos: &mut usize) -> (r: Option<u64>)
    requires
        *old(pos) <= b@.len(),
    ensures
        match r {
            Some(v) => ({
                let run = digit_run(b@, *old(pos) as int);
                &&& run.len() >= 1
                &&& val_opt(run) == Some(v)
                &&& *final(pos) as int == *old(pos) + run.len()
                &&& *old(pos) < *final(pos) <= b@.len()
            }),
            None => ({
                let run = digit_run(b@, *old(pos) as int);
                (run.len() == 0 || val_opt(run) is None) && *old(pos) <= *final(pos) <= b@.len()
            }),
        },
{
    let ghost run = digit_run(b@, *old(pos) as int);
    proof {
        lemma_digit_run_bounds(b@, *old(pos) as int);
    }
    if !(*pos < b.len() && is_digit_byte(b[*pos])) {
        proof {
            assert(run.len() == 0);
        }
        return None;
    }
    let mut acc: u64 = 0;
    let ghost k0 = *old(pos) as int;
    let ghost mut k: int = 0;
    proof {
        assert(run.take(0) =~= Seq::<u8>::empty());
        assert(run.skip(0) =~= run);
    }
    while *pos < b.len() && is_digit_byte(b[*pos])
        invariant
            k0 <= *pos as int <= b@.len(),
            *pos as int == k0 + k,
            0 <= k <= run.len(),
            run == digit_run(b@, k0),
            digit_run(b@, *pos as int) == run.skip(k),
            val_opt(run.take(k)) == Some(acc),
        decreases b@.len() - *pos,
    {
        let d = (b[*pos] - 48) as u64;
        proof {
            assert(digit_run(b@, *pos as int) == seq![b@[*pos as int]] + digit_run(
                b@,
                *pos as int + 1,
            ));
            assert(run.skip(k).len() >= 1);
            assert(k < run.len());
            assert(run[k] == run.skip(k)[0]);
            assert(run[k] == b@[*pos as int]);
            assert(run.skip(k).drop_first() =~= digit_run(b@, *pos as int + 1)) by {
                assert(run.skip(k) == seq![b@[*pos as int]] + digit_run(b@, *pos as int + 1));
                assert forall|j: int|
                    0 <= j < digit_run(b@, *pos as int + 1).len() implies run.skip(
                    k,
                ).drop_first()[j] == digit_run(b@, *pos as int + 1)[j] by {
                    assert(run.skip(k)[j + 1] == (seq![b@[*pos as int]] + digit_run(
                        b@,
                        *pos as int + 1,
                    ))[j + 1]);
                }
            }
            assert(run.skip(k + 1) =~= run.skip(k).drop_first());
            assert(run.take(k + 1).drop_last() =~= run.take(k));
            assert(run.take(k + 1).last() == run[k]);
        }
        let m = match acc.checked_mul(10) {
            Some(m) => m,
            None => {
                proof {
                    assert(val_opt(run.take(k + 1)) is None);
                    lemma_val_none_mono(run, k + 1);
                }
                return None;
            },
        };
        let s = match m.checked_add(d) {
            Some(s) => s,
            None => {
                proof {
                    assert(val_opt(run.take(k + 1)) is None);
                    lemma_val_none_mono(run, k + 1);
                }
                return None;
            },
        };
        acc = s;
        *pos = *pos + 1;
        proof {
            assert(val_opt(run.take(k + 1)) == Some(acc));
            k = k + 1;
        }
    }
    proof {
        assert(digit_run(b@, *pos as int) =~= Seq::<u8>::empty());
        assert(run.skip(k).len() == 0);
        assert(k == run.len());
        assert(run.take(k) =~= run);
    }
    Some(acc)
}

fn read_u64_text(b: &Vec<u8>, pos: &mut usize) -> (r: Option<u64>)
    requires
        *old(pos) <= b@.len(),
    ensures
        match r {
            Some(v) => spec_dec_u64_text(b@, *old(pos) as int) == Some((v, *final(pos) as int))
                && *old(pos) < *final(pos) <= b@.len(),
            None => spec_dec_u64_text(b@, *old(pos) as int) is None && *old(pos) <= *final(pos)
                <= b@.len(),
        },
{
    skip_ws_exec(b, pos);
    scan_uint(b, pos)
}

fn read_i64_text(b: &Vec<u8>, pos: &mut usize) -> (r: Option<i64>)
    requires
        *old(pos) <= b@.len(),
    ensures
        match r {
            Some(v) => spec_dec_i64_text(b@, *old(pos) as int) == Some((v, *final(pos) as int))
                && *old(pos) < *final(pos) <= b@.len(),
            None => spec_dec_i64_text(b@, *old(pos) as int) is None && *old(pos) <= *final(pos)
                <= b@.len(),
        },
{
    skip_ws_exec(b, pos);
    if *pos < b.len() && b[*pos] == B_MINUS {
        *pos = *pos + 1;
        let m = match scan_uint(b, pos) {
            Some(m) => m,
            None => {
                return None;
            },
        };
        if m > 0x8000_0000_0000_0000u64 {
            return None;
        }
        if m == 0 {
            Some(0i64)
        } else {
            let v = -((m - 1) as i64) - 1;
            proof {
                assert(v as int == 0 - m as int);
            }
            Some(v)
        }
    } else {
        let m = match scan_uint(b, pos) {
            Some(m) => m,
            None => {
                return None;
            },
        };
        if m > i64::MAX as u64 {
            return None;
        }
        Some(m as i64)
    }
}

fn read_i32_text(b: &Vec<u8>, pos: &mut usize) -> (r: Option<i32>)
    requires
        *old(pos) <= b@.len(),
    ensures
        match r {
            Some(v) => spec_dec_i32_text(b@, *old(pos) as int) == Some((v, *final(pos) as int))
                && *old(pos) < *final(pos) <= b@.len(),
            None => spec_dec_i32_text(b@, *old(pos) as int) is None && *old(pos) <= *final(pos)
                <= b@.len(),
        },
{
    let v = match read_i64_text(b, pos) {
        Some(v) => v,
        None => {
            return None;
        },
    };
    if v < i32::MIN as i64 || v > i32::MAX as i64 {
        return None;
    }
    Some(v as i32)
}

/// An expected quoted key and its colon.
fn read_key(b: &Vec<u8>, pos: &mut usize, w: &Vec<u8>) -> (r: bool)
    requires
        *old(pos) <= b@.len(),
    ensures
        r ==> spec_dec_key(b@, *old(pos) as int, w@) == Some(*final(pos) as int) && *old(pos)
            < *final(pos) <= b@.len(),
        !r ==> spec_dec_key(b@, *old(pos) as int, w@) is None && *old(pos) <= *final(pos)
            <= b@.len(),
{
    let got = match read_qstr(b, pos) {
        Some(got) => got,
        None => {
            return false;
        },
    };
    if !bytes_eq(&got, w) {
        return false;
    }
    expect_exec(b, pos, B_COLON)
}

} // verus!

verus! {

fn make_word_id() -> (r: Vec<u8>)
    ensures
        r@ == word_id(),
{
    let mut r: Vec<u8> = Vec::new();
    push_word_id(&mut r);
    proof {
        assert(Seq::<u8>::empty() + word_id() =~= word_id());
    }
    r
}

fn make_word_kind() -> (r: Vec<u8>)
    ensures
        r@ == word_kind(),
{
    let mut r: Vec<u8> = Vec::new();
    push_word_kind(&mut r);
    proof {
        assert(Seq::<u8>::empty() + word_kind() =~= word_kind());
    }
    r
}

fn make_word_layout() -> (r: Vec<u8>)
    ensures
        r@ == word_layout(),
{
    let mut r: Vec<u8> = Vec::new();
    push_word_layout(&mut r);
    proof {
        assert(Seq::<u8>::empty() + word_layout() =~= word_layout());
    }
    r
}

fn make_word_children() -> (r: Vec<u8>)
    ensures
        r@ == word_children(),
{
    let mut r: Vec<u8> = Vec::new();
    push_word_children(&mut r);
    proof {
        assert(Seq::<u8>::empty() + word_children() =~= word_children());
    }
    r
}

fn make_word_workspace() -> (r: Vec<u8>)
    ensures
        r@ == word_workspace(),
{
    let mut r: Vec<u8> = Vec::new();
    push_word_workspace(&mut r);
    proof {
        assert(Seq::<u8>::empty() + word_workspace() =~= word_workspace());
    }
    r
}

fn make_word_normal_window() -> (r: Vec<u8>)
    ensures
        r@ == word_normal_window(),
{
    let mut r: Vec<u8> = Vec::new();
    push_word_normal_window(&mut r);
    proof {
        assert(Seq::<u8>::empty() + word_normal_window() =~= word_normal_window());
    }
    r
}

fn make_word_width() -> (r: Vec<u8>)
    ensures
        r@ == word_width(),
{
    let mut r: Vec<u8> = Vec::new();
    push_word_width(&mut r);
    proof {
        assert(Seq::<u8>::empty() + word_width() =~= word_width());
    }
    r
}

fn make_word_height() -> (r: Vec<u8>)
    ensures
        r@ == word_height(),
{
    let mut r: Vec<u8> = Vec::new();
    push_word_height(&mut r);
    proof {
        assert(Seq::<u8>::empty() + word_height() =~= word_height());
    }
    r
}

fn make_word_splitter() -> (r: Vec<u8>)
    ensures
        r@ == word_splitter(),
{
    let mut r: Vec<u8> = Vec::new();
    push_word_splitter(&mut r);
    proof {
        assert(Seq::<u8>::empty() + word_splitter() =~= word_splitter());
    }
    r
}

fn make_word_splith() -> (r: Vec<u8>)
    ensures
        r@ == word_splith(),
{
    let mut r: Vec<u8> = Vec::new();
    push_word_splith(&mut r);
    proof {
        assert(Seq::<u8>::empty() + word_splith() =~= word_splith());
    }
    r
}

fn make_word_splitv() -> (r: Vec<u8>)
    ensures
        r@ == word_splitv(),
{
    let mut r: Vec<u8> = Vec::new();
    push_word_splitv(&mut r);
    proof {
        assert(Seq::<u8>::empty() + word_splitv() =~= word_splitv());
    }
    r
}

fn make_word_stacked() -> (r: Vec<u8>)
    ensures
        r@ == word_stacked(),
{
    let mut r: Vec<u8> = Vec::new();
    push_word_stacked(&mut r);
    proof {
        assert(Seq::<u8>::empty() + word_stacked() =~= word_stacked());
    }
    r
}

fn make_word_tabbed() -> (r: Vec<u8>)
    ensures
        r@ == word_tabbed(),
{
    let mut r: Vec<u8> = Vec::new();
    push_word_tabbed(&mut r);
    proof {
        assert(Seq::<u8>::empty() + word_tabbed() =~= word_tabbed());
    }
    r
}

} // verus!

verus! {

fn read_layout_text(b: &Vec<u8>, pos: &mut usize) -> (r: Option<LayoutNode>)
    requires
        *old(pos) <= b@.len(),
    ensures
        match r {
            Some(l) => spec_dec_layout_text(b@, *old(pos) as int) == Some((l, *final(pos) as int))
                && *old(pos) < *final(pos) <= b@.len(),
            None => spec_dec_layout_text(b@, *old(pos) as int) is None && *final(pos) <= b@.len(),
        },
{
    let w = match read_qstr(b, pos) {
        Some(w) => w,
        None => {
            return None;
        },
    };
    if bytes_eq(&w, &make_word_splith()) {
        Some(LayoutNode::SplitH)
    } else if bytes_eq(&w, &make_word_splitv()) {
        Some(LayoutNode::SplitV)
    } else if bytes_eq(&w, &make_word_stacked()) {
        Some(LayoutNode::Stacked)
    } else if bytes_eq(&w, &make_word_tabbed()) {
        Some(LayoutNode::Tabbed)
    } else {
        None
    }
}

#[verifier::rlimit(100)]
fn read_kind_text(b: &Vec<u8>, pos: &mut usize) -> (r: Option<KindNode>)
    requires
        *old(pos) <= b@.len(),
    ensures
        match r {
            Some(k) => spec_dec_kind_text(b@, *old(pos) as int) == Some((k, *final(pos) as int))
                && *old(pos) <= *final(pos) <= b@.len(),
            None => spec_dec_kind_text(b@, *old(pos) as int) is None && *final(pos) <= b@.len(),
        },
{
    skip_ws_exec(b, pos);
    if *pos >= b.len() {
        return None;
    }
    let c = b[*pos];
    if c == B_QUOTE {
        let w = match read_qstr(b, pos) {
            Some(w) => w,
            None => {
                return None;
            },
        };
        if bytes_eq(&w, &make_word_splitter()) {
            Some(KindNode::Splitter)
        } else {
            None
        }
    } else if c == B_LBRACE {
        *pos = *pos + 1;
        let w = match read_qstr(b, pos) {
            Some(w) => w,
            None => {
                return None;
            },
        };
        if bytes_eq(&w, &make_word_workspace()) {
            if !expect_exec(b, pos, B_COLON) {
                return None;
            }
            let num = match read_i32_text(b, pos) {
                Some(num) => num,
                None => {
                    return None;
                },
            };
            if !expect_exec(b, pos, B_RBRACE) {
                return None;
            }
            Some(KindNode::Workspace(num))
        } else if bytes_eq(&w, &make_word_normal_window()) {
            if !expect_exec(b, pos, B_COLON) {
                return None;
            }
            if !expect_exec(b, pos, B_LBRACE) {
                return None;
            }
            if !read_key(b, pos, &make_word_width()) {
                return None;
            }
            let width = match read_i64_text(b, pos) {
                Some(width) => width,
                None => {
                    return None;
                },
            };
            if !expect_exec(b, pos, B_COMMA) {
                return None;
            }
            if !read_key(b, pos, &make_word_height()) {
                return None;
            }
            let height = match read_i64_text(b, pos) {
                Some(height) => height,
                None => {
                    return None;
                },
            };
            if !expect_exec(b, pos, B_RBRACE) {
                return None;
            }
            if !expect_exec(b, pos, B_RBRACE) {
                return None;
            }
            Some(KindNode::NormalWindow(SavedWindow::new(width, height)))
        } else {
            None
        }
    } else {
        None
    }
}

#[verifier::loop_isolation(false)]
#[verifier::rlimit(100)]
fn read_idlist(b: &Vec<u8>, pos: &mut usize, Ghost(fuel): Ghost<nat>) -> (r: Option<Vec<u64>>)
    requires
        *old(pos) <= b@.len(),
        fuel >= b@.len() + 1 - *old(pos),
    ensures
        match r {
            Some(ids) => spec_dec_idlist(b@, *old(pos) as int, fuel) == Some(
                (ids@, *final(pos) as int),
            ) && *old(pos) < *final(pos) <= b@.len(),
            None => spec_dec_idlist(b@, *old(pos) as int, fuel) is None && *final(pos)
                <= b@.len(),
        },
{
    if !expect_exec(b, pos, B_LBRACK) {
        return None;
    }
    let ghost p2_0 = *pos as int;
    let mut probe: usize = *pos;
    skip_ws_exec(b, &mut probe);
    if probe < b.len() && b[probe] == B_RBRACK {
        *pos = probe + 1;
        let ids: Vec<u64> = Vec::new();
        proof {
            assert(ids@ =~= Seq::<u64>::empty());
        }
        return Some(ids);
    }
    let first = match read_u64_text(b, pos) {
        Some(first) => first,
        None => {
            return None;
        },
    };
    let mut ids: Vec<u64> = Vec::new();
    ids.push(first);
    let ghost mut fuel_left: nat = fuel;
    proof {
        assert(ids@.skip(1) =~= Seq::<u64>::empty());
        assert(comb_ids(ids@.skip(1), spec_dec_ids_rest(b@, *pos as int, fuel_left))
            == spec_dec_ids_rest(b@, *pos as int, fuel)) by {
            if spec_dec_ids_rest(b@, *pos as int, fuel) is Some {
                let (rest, e) = spec_dec_ids_rest(b@, *pos as int, fuel)->Some_0;
                assert(ids@.skip(1) + rest =~= rest);
            }
        }
    }
    let ghost p_rest = *pos as int;
    loop
        invariant
            *old(pos) < *pos <= b@.len(),
            ids@.len() >= 1,
            ids@[0] == first,
            fuel_left >= b@.len() + 1 - *pos,
            fuel_left <= fuel,
            comb_ids(ids@.skip(1), spec_dec_ids_rest(b@, *pos as int, fuel_left))
                == spec_dec_ids_rest(b@, p_rest, fuel),
        decreases b@.len() - *pos,
    {
        let ghost p_cur = *pos as int;
        let mut q: usize = *pos;
        skip_ws_exec(b, &mut q);
        proof {
            assert(fuel_left >= 1);
        }
        if q < b.len() && b[q] == B_RBRACK {
            *pos = q + 1;
            proof {
                assert(spec_dec_ids_rest(b@, p_cur, fuel_left) == Some(
                    (Seq::<u64>::empty(), q + 1 as int),
                ));
                assert(ids@.skip(1) + Seq::<u64>::empty() =~= ids@.skip(1));
                assert(seq![first] + ids@.skip(1) =~= ids@);
            }
            return Some(ids);
        } else if q < b.len() && b[q] == B_COMMA {
            *pos = q + 1;
            let v = match read_u64_text(b, pos) {
                Some(v) => v,
                None => {
                    proof {
                        assert(spec_dec_ids_rest(b@, p_cur, fuel_left) is None);
                    }
                    return None;
                },
            };
            proof {
                let tail = spec_dec_ids_rest(b@, *pos as int, (fuel_left - 1) as nat);
                assert(spec_dec_ids_rest(b@, p_cur, fuel_left) == (match tail {
                    None => None::<(Seq<u64>, int)>,
                    Some((rest, e)) => Some((seq![v] + rest, e)),
                }));
                if tail is Some {
                    let (rest, e) = tail->Some_0;
                    assert(ids@.push(v).skip(1) =~= ids@.skip(1).push(v));
                    assert(ids@.skip(1).push(v) + rest =~= ids@.skip(1) + (seq![v] + rest));
                }
                fuel_left = (fuel_left - 1) as nat;
            }
            ids.push(v);
        } else {
            proof {
                assert(spec_dec_ids_rest(b@, p_cur, fuel_left) is None);
            }
            return None;
        }
    }
}

} // verus!

verus! {

#[verifier::rlimit(100)]
fn read_record_text(b: &Vec<u8>, pos: &mut usize, Ghost(fuel): Ghost<nat>) -> (r: Option<
    SavedNode,
>)
    requires
        *old(pos) <= b@.len(),
        fuel >= b@.len() + 1 - *old(pos),
    ensures
        match r {
            Some(n) => spec_dec_record_text(b@, *old(pos) as int, fuel) == Some(
                (n.model(), *final(pos) as int),
            ) && *old(pos) < *final(pos) <= b@.len(),
            None => spec_dec_record_text(b@, *old(pos) as int, fuel) is None && *final(pos)
                <= b@.len(),
        },
{
    if !expect_exec(b, pos, B_LBRACE) {
        return None;
    }
    if !read_key(b, pos, &make_word_id()) {
        return None;
    }
    let id = match read_u64_text(b, pos) {
        Some(id) => id,
        None => {
            return None;
        },
    };
    if !expect_exec(b, pos, B_COMMA) {
        return None;
    }
    if !read_key(b, pos, &make_word_kind()) {
        return None;
    }
    let kind = match read_kind_text(b, pos) {
        Some(kind) => kind,
        None => {
            return None;
        },
    };
    if !expect_exec(b, pos, B_COMMA) {
        return None;
    }
    if !read_key(b, pos, &make_word_layout()) {
        return None;
    }
    let layout = match read_layout_text(b, pos) {
        Some(layout) => layout,
        None => {
            return None;
        },
    };
    if !expect_exec(b, pos, B_COMMA) {
        return None;
    }
    if !read_key(b, pos, &make_word_children()) {
        return None;
    }
    let children = match read_idlist(b, pos, Ghost(fuel)) {
        Some(children) => children,
        None => {
            return None;
        },
    };
    if !expect_exec(b, pos, B_RBRACE) {
        return None;
    }
    Some(SavedNode::new(id, kind, layout, children))
}

/// The record objects after the first one; on success the parsed records
/// are appended to `nodes`.
#[verifier::rlimit(100)]
#[verifier::spinoff_prover]
fn read_records_rest(
    b: &Vec<u8>,
    pos: &mut usize,
    nodes: &mut Vec<SavedNode>,
    Ghost(fuel): Ghost<nat>,
) -> (r: bool)
    requires
        *old(pos) <= b@.len(),
        fuel >= b@.len() + 1 - *old(pos),
    ensures
        r ==> ({
            let res = spec_dec_records_rest(b@, *old(pos) as int, fuel);
            &&& res is Some
            &&& models(final(nodes)@) == models(old(nodes)@) + res->Some_0.0
            &&& *final(pos) as int == res->Some_0.1
            &&& *final(pos) <= b@.len()
        }),
        !r ==> spec_dec_records_rest(b@, *old(pos) as int, fuel) is None,
{
    let ghost p_rest = *pos as int;
    let ghost mut fuel_left: nat = fuel;
    let ghost n0 = old(nodes)@.len() as int;
    proof {
        assert(models(nodes@).skip(n0) =~= Seq::<RecordModel>::empty());
        assert(comb_records(
            models(nodes@).skip(n0),
            spec_dec_records_rest(b@, *pos as int, fuel_left),
        ) == spec_dec_records_rest(b@, p_rest, fuel)) by {
            if spec_dec_records_rest(b@, p_rest, fuel) is Some {
                let (rest, e) = spec_dec_records_rest(b@, p_rest, fuel)->Some_0;
                assert(models(nodes@).skip(n0) + rest =~= rest);
            }
        }
    }
    loop
        invariant
            *pos <= b@.len(),
            p_rest == *old(pos) as int,
            n0 == old(nodes)@.len() as int,
            nodes@.len() >= n0 >= 0,
            old(nodes)@ == nodes@.subrange(0, n0),
            models(nodes@).len() == nodes@.len(),
            fuel_left >= b@.len() + 1 - *pos,
            fuel_left <= fuel,
            comb_records(
                models(nodes@).skip(n0),
                spec_dec_records_rest(b@, *pos as int, fuel_left),
            ) == spec_dec_records_rest(b@, p_rest, fuel),
        decreases b@.len() - *pos,
    {
        let ghost p_cur = *pos as int;
        let mut q: usize = *pos;
        skip_ws_exec(b, &mut q);
        proof {
            assert(fuel_left >= 1);
        }
        if q < b.len() && b[q] == B_RBRACK {
            *pos = q + 1;
            proof {
                assert(spec_dec_records_rest(b@, p_cur, fuel_left) == Some(
                    (Seq::<RecordModel>::empty(), q + 1 as int),
                ));
                assert(models(nodes@).skip(n0) + Seq::<RecordModel>::empty() =~= models(
                    nodes@,
                ).skip(n0));
                assert(models(nodes@) =~= models(nodes@.subrange(0, n0)) + models(nodes@).skip(
                    n0,
                ));
            }
            return true;
        } else if q < b.len() && b[q] == B_COMMA {
            *pos = q + 1;
            let n = match read_record_text(b, pos, Ghost(fuel_left)) {
                Some(n) => n,
                None => {
                    proof {
                        assert(spec_dec_records_rest(b@, p_cur, fuel_left) is None);
                    }
                    return false;
                },
            };
            proof {
                let tail = spec_dec_records_rest(b@, *pos as int, (fuel_left - 1) as nat);
                assert(spec_dec_records_rest(b@, p_cur, fuel_left) == (match tail {
                    None => None::<(Seq<RecordModel>, int)>,
                    Some((rest, e)) => Some((seq![n.model()] + rest, e)),
                }));
                assert(models(nodes@.push(n)) =~= models(nodes@).push(n.model()));
                assert(nodes@.push(n).subrange(0, n0) =~= nodes@.subrange(0, n0));
                if tail is Some {
                    let (rest, e) = tail->Some_0;
                    assert(models(nodes@).push(n.model()).skip(n0) =~= models(nodes@).skip(
                        n0,
                    ).push(n.model()));
                    assert(models(nodes@).skip(n0).push(n.model()) + rest =~= models(nodes@).skip(
                        n0,
                    ) + (seq![n.model()] + rest));
                }
                fuel_left = (fuel_left - 1) as nat;
            }
            nodes.push(n);
        } else {
            proof {
                assert(spec_dec_records_rest(b@, p_cur, fuel_left) is None);
            }
            return false;
        }
    }
}

/// Decode a text stream into a record list; `None` spells a malformed
/// stream.
#[verifier::rlimit(100)]
#[verifier::spinoff_prover]
pub fn decode_stream_text(b: &Vec<u8>) -> (r: Option<Vec<SavedNode>>)
    ensures
        match r {
            Some(ns) => spec_dec_stream_text(b@) == Some(models(ns@)),
            None => spec_dec_stream_text(b@) is None,
        },
{
    let ghost fuel = (b@.len() + 1) as nat;
    let mut pos: usize = 0;
    if !expect_exec(b, &mut pos, B_LBRACK) {
        return None;
    }
    let mut probe: usize = pos;
    skip_ws_exec(b, &mut probe);
    if probe < b.len() && b[probe] == B_RBRACK {
        let ns: Vec<SavedNode> = Vec::new();
        proof {
            assert(models(ns@) =~= Seq::<RecordModel>::empty());
        }
        return Some(ns);
    }
    let first = match read_record_text(b, &mut pos, Ghost(fuel)) {
        Some(first) => first,
        None => {
            return None;
        },
    };
    let ghost m0 = first.model();
    let mut nodes: Vec<SavedNode> = Vec::new();
    nodes.push(first);
    let ghost nodes1 = nodes@;
    proof {
        assert(models(nodes1).len() == 1);
        assert(models(nodes1)[0] == m0);
    }
    if !read_records_rest(b, &mut pos, &mut nodes, Ghost(fuel)) {
        return None;
    }
    proof {
        let res = spec_dec_records_rest(b@, nodes1.len() as int * 0 + pos as int, fuel);
    }
    proof {
        let rest = spec_dec_records_rest(
            b@,
            *&pos as int,
            fuel,
        );
    }
    proof {
        assert(models(nodes@) =~= seq![m0] + models(nodes@).skip(1)) by {
            assert(models(nodes1) + (models(nodes@).skip(1)) =~= models(nodes@)) by {
                assert(models(nodes1).len() == 1);
            }
            assert(models(nodes1) =~= seq![m0]);
        }
    }
    Some(nodes)
}

} // verus!
