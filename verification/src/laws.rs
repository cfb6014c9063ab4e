//! Properties of the library as a whole, stated over the meanings that the
//! functions' contracts use.
use vstd::prelude::*;
use crate::lexer::{
    SpecToken,
    lex,
    lex_from,
    lex_step,
    rules_step,
    opt_seq,
    lemma_lex_step_progress,
    lemma_lex_from_unfold,
    lemma_digits_end,
    digits_value,
    int_literal_value,
    is_digit,
    tok,
    SpecTokenKind,
    string_scan,
    msg_unclosed_string,
    line_comment_end,
    block_comment_end,
    spec_is_whitespace,
    spec_is_symbolic,
    lemma_symbol_end,
    digits_end,
};
use crate::runtime::{SpecValue, ValueType, satisfies, type_text, type_named};
use crate::faestd::{values_equal, f32_bits_eq};
use crate::machine::{
    apply_stack_builtin,
    end_block,
    has_scope,
    model_wf,
    run_node,
    scoped_count,
    set_cur,
    set_stack,
    step_spec,
    FrameKind,
    FrameModel,
    MachineModel,
    ScopeModel,
    SpecEvent,
    cur,
    push_frame,
};
use crate::ast::{
    SpecNode,
    SpecNodeKind,
    ItemResult,
    ItemsResult,
    parse,
    parse_item,
    parse_items,
    parse_stalls,
    parse_top,
};
use crate::runtime::{SpecFunction, function_params, params_match, value_text};
use crate::runtime::Builtin;
use crate::lexer::Span;
use crate::error::{decimal_width, drawn_line, drawn_marks, pad_left, lemma_decimal_text_len, count_newlines, section_defined, section_first, section_last, line_start, line_end, split_acc, split_lines, char_index};
use crate::text::{decimal_text, digit_char};
use crate::runtime::int_text;
use crate::text::{byte_pos, lemma_byte_pos_mono, lemma_byte_pos_strict, lemma_byte_pos_step, lemma_width_pos};

verus! {

// ---------------------------------------------------------------------------
// Lexer
// ---------------------------------------------------------------------------

/// All tokens of `ts` lie, in order and without overlap, between byte
/// offsets `lo` and `hi`.
pub open spec fn spans_ordered(ts: Seq<SpecToken>, lo: nat, hi: nat) -> bool {
    &&& forall|k: int| 0 <= k < ts.len() ==> lo <= (#[trigger] ts[k]).start <= ts[k].end <= hi
    &&& forall|k: int| 0 <= k < ts.len() - 1 ==> (#[trigger] ts[k]).end <= ts[k + 1].start
}

proof fn lemma_step_span(s: Seq<char>, i: int)
    requires
        0 <= i < s.len(),
    ensures
        lex_step(s, i).0 matches Some(t) ==> byte_pos(s, i) <= t.start < t.end <= byte_pos(
            s,
            lex_step(s, i).1,
        ),
{
    reveal(rules_step);
    lemma_lex_step_progress(s, i);
    let j = lex_step(s, i).1;
    lemma_byte_pos_step(s, i);
    lemma_width_pos(s[i]);
    assert forall|a: int, b: int| i <= a <= b <= s.len() implies byte_pos(s, a) <= byte_pos(s, b)
        && byte_pos(s, i) <= byte_pos(s, a) by {
        lemma_byte_pos_mono(s, a, b);
        lemma_byte_pos_mono(s, i, a);
    }
    assert forall|a: int, b: int| i <= a < b <= s.len() implies byte_pos(s, a) < byte_pos(s, b) by {
        lemma_byte_pos_strict(s, a, b);
    }
    let is_pos = s[i] != '-';
    let jj = if is_pos { i } else { i + 1 };
    crate::lexer::lemma_digits_end(s, jj);
    let d = crate::lexer::digits_end(s, jj);
    if d < s.len() {
        crate::lexer::lemma_digits_end(s, d + 1);
        lemma_byte_pos_step(s, d);
    }
    crate::lexer::lemma_string_scan(s, i + 1);
    crate::lexer::lemma_symbol_end(s, i);
}

proof fn lemma_lex_from_spans(s: Seq<char>, i: int)
    requires
        0 <= i <= s.len(),
    ensures
        spans_ordered(lex_from(s, i), byte_pos(s, i), byte_pos(s, s.len() as int)),
    decreases s.len() - i,
{
    if i < s.len() {
        lemma_lex_from_unfold(s, i);
        lemma_lex_step_progress(s, i);
        lemma_step_span(s, i);
        let (t, j) = lex_step(s, i);
        lemma_lex_from_spans(s, j);
        lemma_byte_pos_mono(s, i, j);
        lemma_byte_pos_mono(s, j, s.len() as int);
        let head = opt_seq(t);
        let rest = lex_from(s, j);
        let all = head + rest;
        assert(lex_from(s, i) == all);
        assert forall|k: int| 0 <= k < all.len() - 1 implies (#[trigger] all[k]).end <= all[k
            + 1].start by {
            if head.len() == 1 && k == 0 {
                if rest.len() > 0 {
                    assert(all[1] == rest[0]);
                }
            } else {
                assert(all[k] == rest[k - head.len()]);
                assert(all[k + 1] == rest[k + 1 - head.len()]);
            }
        }
        assert forall|k: int| 0 <= k < all.len() implies byte_pos(s, i) <= (#[trigger] all[k]).start
            <= all[k].end <= byte_pos(s, s.len() as int) by {
            if head.len() == 1 && k == 0 {
            } else {
                assert(all[k] == rest[k - head.len()]);
            }
        }
    } else {
        assert(lex_from(s, i) =~= Seq::<SpecToken>::empty());
    }
}

proof fn lemma_lex_from_count(s: Seq<char>, i: int)
    requires
        0 <= i <= s.len(),
    ensures
        spans_nonempty(lex_from(s, i)),
        lex_from(s, i).len() + byte_pos(s, i) <= byte_pos(s, s.len() as int),
    decreases s.len() - i,
{
    if i < s.len() {
        lemma_lex_from_unfold(s, i);
        lemma_lex_step_progress(s, i);
        lemma_step_span(s, i);
        let (t, j) = lex_step(s, i);
        lemma_lex_from_count(s, j);
        lemma_byte_pos_mono(s, i, j);
        let head = opt_seq(t);
        let rest = lex_from(s, j);
        let all = head + rest;
        assert(lex_from(s, i) == all);
        if t is Some {
            let tt = t->0;
            assert(byte_pos(s, i) <= tt.start < tt.end <= byte_pos(s, j));
            assert(all[0] == tt);
        }
        assert forall|k: int| 0 <= k < all.len() implies (#[trigger] all[k]).start < all[k].end by {
            if head.len() == 1 && k == 0 {
            } else {
                assert(all[k] == rest[k - head.len()]);
            }
        }
    } else {
        assert(lex_from(s, i) =~= Seq::<SpecToken>::empty());
    }
}

/// Every token covers at least one byte.
pub open spec fn spans_nonempty(ts: Seq<SpecToken>) -> bool {
    forall|k: int| 0 <= k < ts.len() ==> (#[trigger] ts[k]).start < ts[k].end
}

/// The tokens of any source come in order, each span within the source's
/// bytes, none empty and none overlapping the next; so there are no more
/// tokens than bytes.
pub proof fn law_token_spans_ordered(s: Seq<char>)
    ensures
        spans_ordered(lex(s), 0, byte_pos(s, s.len() as int)),
        spans_nonempty(lex(s)),
        lex(s).len() <= byte_pos(s, s.len() as int),
{
    lemma_lex_from_spans(s, 0);
    lemma_lex_from_count(s, 0);
    assert(s.take(0) =~= Seq::<char>::empty());
}

/// The value of digits is positional in base 10: no digits are worth 0, and
/// one more digit `c` at the end multiplies the value by ten and adds `c`'s
/// worth; a leading minus sign negates the value.
pub proof fn law_digits_positional(ds: Seq<char>, c: char)
    requires
        is_digit(c),
    ensures
        digits_value(Seq::<char>::empty()) == 0,
        digits_value(ds.push(c)) == 10 * digits_value(ds) + (c as u32 - '0' as u32),
        int_literal_value(seq!['-'] + ds) == -digits_value(ds),
        ds.len() == 0 || ds[0] != '-' ==> int_literal_value(ds) == digits_value(ds),
{
    assert(ds.push(c).drop_last() =~= ds);
    assert((seq!['-'] + ds).drop_first() =~= ds);
}

proof fn lemma_byte_pos_ascii(s: Seq<char>, i: int)
    requires
        0 <= i <= s.len(),
        forall|k: int| 0 <= k < s.len() ==> is_digit(#[trigger] s[k]) || s[k] == '-',
    ensures
        byte_pos(s, i) == i,
    decreases i,
{
    if i == 0 {
        assert(s.take(0) =~= Seq::<char>::empty());
    } else {
        lemma_byte_pos_ascii(s, i - 1);
        lemma_byte_pos_step(s, i - 1);
        lemma_width_pos(s[i - 1]);
    }
}

/// A source made of decimal digits, with or without a minus sign before
/// them, lexes to one integer token over all of it, whose value is the
/// digits' positional value, negated after the sign.
#[verifier::spinoff_prover]
#[verifier::rlimit(40)]
pub proof fn law_lex_integer(ds: Seq<char>)
    requires
        ds.len() > 0,
        forall|k: int| 0 <= k < ds.len() ==> is_digit(#[trigger] ds[k]),
    ensures
        lex(ds) == seq![tok(SpecTokenKind::Int(digits_value(ds)), 0, ds.len())],
        lex(seq!['-'] + ds) == seq![
            tok(SpecTokenKind::Int(-digits_value(ds)), 0, ds.len() + 1),
        ],
{
    reveal(rules_step);
    lemma_digits_end(ds, 0);
    lemma_byte_pos_ascii(ds, 0);
    lemma_byte_pos_ascii(ds, ds.len() as int);
    lemma_lex_from_unfold(ds, 0);
    assert(ds.subrange(0, ds.len() as int) =~= ds);
    assert(lex_from(ds, ds.len() as int) =~= Seq::<SpecToken>::empty());
    assert(lex(ds) =~= seq![tok(SpecTokenKind::Int(digits_value(ds)), 0, ds.len())]);

    let s = seq!['-'] + ds;
    assert forall|k: int| 0 <= k < s.len() implies is_digit(#[trigger] s[k]) || s[k] == '-' by {
        if k > 0 {
            assert(s[k] == ds[k - 1]);
        }
    }
    assert forall|k: int| 1 <= k < s.len() implies is_digit(#[trigger] s[k]) by {
        assert(s[k] == ds[k - 1]);
    }
    lemma_digits_end(s, 1);
    lemma_byte_pos_ascii(s, 0);
    lemma_byte_pos_ascii(s, s.len() as int);
    lemma_lex_from_unfold(s, 0);
    assert(s.subrange(0, s.len() as int) =~= s);
    assert(s.drop_first() =~= ds);
    assert(lex_from(s, s.len() as int) =~= Seq::<SpecToken>::empty());
    assert(lex(s) =~= seq![tok(SpecTokenKind::Int(-digits_value(ds)), 0, ds.len() + 1)]);
}

proof fn lemma_scan_plain(s: Seq<char>, j: int, p: int)
    requires
        1 <= j <= p <= s.len(),
        forall|k: int| j <= k < p ==> #[trigger] s[k] != '"' && s[k] != '\\',
    ensures
        string_scan(s, j) == (
            string_scan(s, p).0,
            s.subrange(j, p) + string_scan(s, p).1,
            string_scan(s, p).2,
        ),
    decreases p - j,
{
    if j < p {
        lemma_scan_plain(s, j + 1, p);
        assert(s.subrange(j, p) =~= seq![s[j]] + s.subrange(j + 1, p));
        assert(seq![s[j]] + (s.subrange(j + 1, p) + string_scan(s, p).1) =~= s.subrange(j, p)
            + string_scan(s, p).1);
    } else {
        assert(s.subrange(j, p) + string_scan(s, p).1 =~= string_scan(s, p).1);
    }
}

#[verifier::spinoff_prover]
proof fn lemma_lex_one_string(s: Seq<char>)
    requires
        s.len() > 0,
        s[0] == '"',
        string_scan(s, 1).2 == s.len(),
    ensures
        lex(s) == seq![
            tok(
                if string_scan(s, 1).0 {
                    SpecTokenKind::String(string_scan(s, 1).1)
                } else {
                    SpecTokenKind::Error(msg_unclosed_string())
                },
                0,
                byte_pos(s, s.len() as int),
            ),
        ],
{
    reveal(rules_step);
    lemma_digits_end(s, 0);
    assert(s.take(0) =~= Seq::<char>::empty());
    lemma_lex_from_unfold(s, 0);
    assert(lex_from(s, s.len() as int) =~= Seq::<SpecToken>::empty());
    assert(lex(s) =~= opt_seq(lex_step(s, 0).0));
}

/// A string literal: its characters up to the closing quote, with `\n`,
/// `\\`, `\t` and `\"` standing for a newline, a backslash, a tab and a
/// quote; without a closing quote, an "Unclosed string" error over the rest.
/// Each is one token over the whole literal.
#[verifier::spinoff_prover]
pub proof fn law_lex_string(t: Seq<char>)
    requires
        forall|k: int| 0 <= k < t.len() ==> #[trigger] t[k] != '"' && t[k] != '\\',
    ensures
        ({
            let q = seq!['"'];
            let plain = q + t + q;
            let open = q + t;
            let nl = q + t + seq!['\\', 'n', '"'];
            let bs = q + t + seq!['\\', '\\', '"'];
            let tab = q + t + seq!['\\', 't', '"'];
            let quote = q + t + seq!['\\', '"', '"'];
            &&& lex(plain) == seq![
                tok(SpecTokenKind::String(t), 0, byte_pos(plain, plain.len() as int)),
            ]
            &&& lex(open) == seq![
                tok(SpecTokenKind::Error("Unclosed string"@), 0, byte_pos(open, open.len() as int)),
            ]
            &&& lex(nl) == seq![
                tok(SpecTokenKind::String(t.push('\n')), 0, byte_pos(nl, nl.len() as int)),
            ]
            &&& lex(bs) == seq![
                tok(SpecTokenKind::String(t.push('\\')), 0, byte_pos(bs, bs.len() as int)),
            ]
            &&& lex(tab) == seq![
                tok(SpecTokenKind::String(t.push('\t')), 0, byte_pos(tab, tab.len() as int)),
            ]
            &&& lex(quote) == seq![
                tok(SpecTokenKind::String(t.push('"')), 0, byte_pos(quote, quote.len() as int)),
            ]
        }),
{
    let q = seq!['"'];
    let p: int = t.len() + 1int;
    let plain = q + t + q;
    let open = q + t;
    assert forall|k: int| 1 <= k < p implies #[trigger] plain[k] != '"' && plain[k] != '\\' by {
        assert(plain[k] == t[k - 1]);
    }
    lemma_scan_plain(plain, 1, p);
    assert(plain.subrange(1, p) =~= t);
    assert(string_scan(plain, p) == (true, Seq::<char>::empty(), p + 1));
    assert(t + Seq::<char>::empty() =~= t);
    lemma_lex_one_string(plain);

    assert forall|k: int| 1 <= k < p implies #[trigger] open[k] != '"' && open[k] != '\\' by {
        assert(open[k] == t[k - 1]);
    }
    lemma_scan_plain(open, 1, p);
    assert(open.subrange(1, p) =~= t);
    lemma_lex_one_string(open);
    reveal_strlit("Unclosed string");

    let tail = seq![seq!['\\', 'n', '"'], seq!['\\', '\\', '"'], seq!['\\', 't', '"'], seq!['\\', '"', '"']];
    let outs = seq!['\n', '\\', '\t', '"'];
    assert forall|e: int| 0 <= e < 4 implies {
        let w = q + t + #[trigger] tail[e];
        lex(w) == seq![tok(SpecTokenKind::String(t.push(outs[e])), 0, byte_pos(w, w.len() as int))]
    } by {
        let w = q + t + tail[e];
        assert forall|k: int| 1 <= k < p implies #[trigger] w[k] != '"' && w[k] != '\\' by {
            assert(w[k] == t[k - 1]);
        }
        lemma_scan_plain(w, 1, p);
        assert(w.subrange(1, p) =~= t);
        assert(w[p] == '\\');
        assert(w[p + 2] == '"');
        assert(string_scan(w, p + 2) == (true, Seq::<char>::empty(), p + 3));
        assert(string_scan(w, p).1 =~= seq![outs[e]]);
        assert(t + seq![outs[e]] =~= t.push(outs[e]));
        lemma_lex_one_string(w);
    }
    assert(tail[0] == seq!['\\', 'n', '"']);
    assert(tail[1] == seq!['\\', '\\', '"']);
    assert(tail[2] == seq!['\\', 't', '"']);
    assert(tail[3] == seq!['\\', '"', '"']);
}

proof fn lemma_line_comment_end(s: Seq<char>, j: int)
    requires
        0 <= j < s.len(),
        s.last() == '\n',
        forall|k: int| j <= k < s.len() - 1 ==> #[trigger] s[k] != '\n',
    ensures
        line_comment_end(s, j) == s.len(),
    decreases s.len() - j,
{
    if j < s.len() - 1 {
        lemma_line_comment_end(s, j + 1);
    }
}

proof fn lemma_block_comment_end(s: Seq<char>, j: int)
    requires
        0 <= j <= s.len() - 2,
        s[s.len() - 2] == '*',
        s[s.len() - 1] == '/',
        forall|k: int| j <= k < s.len() - 2 ==> !(#[trigger] s[k] == '*' && s[k + 1] == '/'),
    ensures
        block_comment_end(s, j) == s.len(),
    decreases s.len() - j,
{
    if j < s.len() - 2 {
        lemma_block_comment_end(s, j + 1);
    }
}

proof fn lemma_lex_whitespace(s: Seq<char>, i: int)
    requires
        0 <= i <= s.len(),
        forall|k: int| 0 <= k < s.len() ==> spec_is_whitespace(#[trigger] s[k]),
    ensures
        lex_from(s, i) == Seq::<SpecToken>::empty(),
    decreases s.len() - i,
{
    reveal(rules_step);
    if i < s.len() {
        lemma_lex_from_unfold(s, i);
        lemma_lex_whitespace(s, i + 1);
        assert(lex_from(s, i) =~= Seq::<SpecToken>::empty());
    }
}

/// Whitespace and comments give no tokens: a text of whitespace only, a line
/// comment up to and with its newline, and a block comment up to its first
/// `*/`.
#[verifier::spinoff_prover]
pub proof fn law_lex_skips(w: Seq<char>, t: Seq<char>)
    ensures
        (forall|k: int| 0 <= k < w.len() ==> spec_is_whitespace(#[trigger] w[k])) ==> lex(w)
            == Seq::<SpecToken>::empty(),
        (forall|k: int| 0 <= k < t.len() ==> #[trigger] t[k] != '\n') ==> lex(
            seq!['/', '/'] + t + seq!['\n'],
        ) == Seq::<SpecToken>::empty(),
        (forall|k: int| 0 <= k < t.len() - 1 ==> !(#[trigger] t[k] == '*' && t[k + 1] == '/'))
            ==> lex(seq!['/', '*'] + t + seq!['*', '/']) == Seq::<SpecToken>::empty(),
{
    reveal(rules_step);
    if forall|k: int| 0 <= k < w.len() ==> spec_is_whitespace(#[trigger] w[k]) {
        lemma_lex_whitespace(w, 0);
    }
    if forall|k: int| 0 <= k < t.len() ==> #[trigger] t[k] != '\n' {
        let s = seq!['/', '/'] + t + seq!['\n'];
        assert forall|k: int| 2 <= k < s.len() - 1 implies #[trigger] s[k] != '\n' by {
            assert(s[k] == t[k - 2]);
        }
        lemma_line_comment_end(s, 2);
        lemma_lex_from_unfold(s, 0);
        assert(lex_from(s, s.len() as int) =~= Seq::<SpecToken>::empty());
        assert(lex(s) =~= Seq::<SpecToken>::empty());
    }
    if forall|k: int| 0 <= k < t.len() - 1 ==> !(#[trigger] t[k] == '*' && t[k + 1] == '/') {
        let s = seq!['/', '*'] + t + seq!['*', '/'];
        assert forall|k: int| 2 <= k < s.len() - 2 implies !(#[trigger] s[k] == '*' && s[k + 1]
            == '/') by {
            assert(s[k] == t[k - 2]);
            if k + 1 < s.len() - 2 {
                assert(s[k + 1] == t[k - 1]);
            } else {
                assert(s[k + 1] == '*');
            }
        }
        lemma_block_comment_end(s, 2);
        lemma_lex_from_unfold(s, 0);
        assert(lex_from(s, s.len() as int) =~= Seq::<SpecToken>::empty());
        assert(lex(s) =~= Seq::<SpecToken>::empty());
    }
}

/// A run of symbol characters that no earlier rule takes (it does not start
/// with a digit, a quote, a minus sign before a digit, a comment opener or
/// whitespace) is one token over all of it: one of the keywords `if`,
/// `else`, `loop`, `break`, `with`, `true`, `false`, or else a symbol
/// holding the text.
#[verifier::spinoff_prover]
pub proof fn law_lex_symbol(t: Seq<char>)
    requires
        t.len() > 0,
        forall|k: int| 0 <= k < t.len() ==> spec_is_symbolic(#[trigger] t[k]),
        !is_digit(t[0]),
        t[0] != '\'',
        !spec_is_whitespace(t[0]),
        !(t[0] == '-' && t.len() > 1 && is_digit(t[1])),
        !(t[0] == '/' && t.len() > 1 && (t[1] == '/' || t[1] == '*')),
    ensures
        ({
            let kind = if t == seq!['i', 'f'] {
                SpecTokenKind::KwIf
            } else if t == seq!['e', 'l', 's', 'e'] {
                SpecTokenKind::KwElse
            } else if t == seq!['l', 'o', 'o', 'p'] {
                SpecTokenKind::KwLoop
            } else if t == seq!['b', 'r', 'e', 'a', 'k'] {
                SpecTokenKind::KwBreak
            } else if t == seq!['w', 'i', 't', 'h'] {
                SpecTokenKind::KwWith
            } else if t == seq!['t', 'r', 'u', 'e'] {
                SpecTokenKind::Bool(true)
            } else if t == seq!['f', 'a', 'l', 's', 'e'] {
                SpecTokenKind::Bool(false)
            } else {
                SpecTokenKind::Symbol(t)
            };
            lex(t) == seq![tok(kind, 0, byte_pos(t, t.len() as int))]
        }),
{
    reveal(rules_step);
    lemma_symbol_end(t, 0);
    lemma_digits_end(t, 0);
    if t.len() > 1 {
        lemma_digits_end(t, 1);
    }
    assert(t.take(0) =~= Seq::<char>::empty());
    assert(t.subrange(0, t.len() as int) =~= t);
    lemma_lex_from_unfold(t, 0);
    assert(lex_from(t, t.len() as int) =~= Seq::<SpecToken>::empty());
    assert(lex(t) =~= opt_seq(lex_step(t, 0).0));
}

/// Digits, a point and more digits make one `Number` token that keeps its
/// text; digits and a point with no digit after it give a "Dangling floating
/// point" error over the point.
#[verifier::spinoff_prover]
pub proof fn law_lex_decimal(ds: Seq<char>, fs: Seq<char>)
    requires
        ds.len() > 0,
        forall|k: int| 0 <= k < ds.len() ==> is_digit(#[trigger] ds[k]),
        forall|k: int| 0 <= k < fs.len() ==> is_digit(#[trigger] fs[k]),
    ensures
        fs.len() > 0 ==> lex(ds + seq!['.'] + fs) == seq![
            tok(SpecTokenKind::Number(ds + seq!['.'] + fs), 0, ds.len() + 1 + fs.len()),
        ],
        lex(ds + seq!['.']) == seq![
            tok(SpecTokenKind::Error("Dangling floating point"@), ds.len(), ds.len() + 1),
        ],
{
    reveal(rules_step);
    reveal_strlit("Dangling floating point");
    let n = ds.len() as int;
    let s = ds + seq!['.'] + fs;
    assert forall|k: int| 0 <= k < s.len() implies is_digit(#[trigger] s[k]) || s[k] == '-' || s[k]
        == '.' by {
        if k < n {
            assert(s[k] == ds[k]);
        } else if k > n {
            assert(s[k] == fs[k - n - 1]);
        }
    }
    lemma_byte_pos_punct(s, s.len() as int);
    lemma_byte_pos_punct(s, 0);
    assert forall|k: int| 0 <= k < n implies is_digit(#[trigger] s[k]) by {
        assert(s[k] == ds[k]);
    }
    assert forall|k: int| n + 1 <= k < s.len() implies is_digit(#[trigger] s[k]) by {
        assert(s[k] == fs[k - n - 1]);
    }
    lemma_digits_end(s, 0);
    lemma_digits_end(s, n + 1);
    assert(s[n] == '.');
    assert(digits_end(s, 0) == n);
    assert(digits_end(s, n + 1) == s.len());
    if fs.len() > 0 {
        assert(s.subrange(0, s.len() as int) =~= s);
        lemma_lex_from_unfold(s, 0);
        assert(lex_from(s, s.len() as int) =~= Seq::<SpecToken>::empty());
        assert(lex(s) =~= opt_seq(lex_step(s, 0).0));
    }
    let d = ds + seq!['.'];
    assert forall|k: int| 0 <= k < d.len() implies is_digit(#[trigger] d[k]) || d[k] == '-' || d[k]
        == '.' by {
        if k < n {
            assert(d[k] == ds[k]);
        }
    }
    assert forall|k: int| 0 <= k < n implies is_digit(#[trigger] d[k]) by {
        assert(d[k] == ds[k]);
    }
    lemma_byte_pos_punct(d, n);
    lemma_byte_pos_punct(d, n + 1);
    lemma_digits_end(d, 0);
    lemma_lex_from_unfold(d, 0);
    assert(lex_from(d, d.len() as int) =~= Seq::<SpecToken>::empty());
    assert(lex(d) =~= opt_seq(lex_step(d, 0).0));
}

proof fn lemma_byte_pos_punct(s: Seq<char>, i: int)
    requires
        0 <= i <= s.len(),
        forall|k: int| 0 <= k < s.len() ==> is_digit(#[trigger] s[k]) || s[k] == '-' || s[k] == '.',
    ensures
        byte_pos(s, i) == i,
    decreases i,
{
    if i == 0 {
        assert(s.take(0) =~= Seq::<char>::empty());
    } else {
        lemma_byte_pos_punct(s, i - 1);
        lemma_byte_pos_step(s, i - 1);
        lemma_width_pos(s[i - 1]);
    }
}

#[verifier::spinoff_prover]
proof fn lemma_lex_one_char(s: Seq<char>)
    requires
        s.len() > 0,
        s[0] == '\'',
        !spec_is_whitespace(s[0]),
        lex_step(s, 0).1 == s.len(),
    ensures
        lex(s) == opt_seq(lex_step(s, 0).0),
{
    lemma_lex_from_unfold(s, 0);
    assert(lex_from(s, s.len() as int) =~= Seq::<SpecToken>::empty());
    assert(lex(s) =~= opt_seq(lex_step(s, 0).0));
}

/// A character literal: one character between quotes, or a backslash and
/// `n`, `\`, `t` or `"` standing for a newline, a backslash, a tab or a
/// quote; a quote alone is an "Unclosed character quote" error.
#[verifier::spinoff_prover]
pub proof fn law_lex_char(c: char)
    ensures
        ({
            let w = seq!['\'', c, '\''];
            lex(w) == seq![tok(SpecTokenKind::Char(c), 0, byte_pos(w, 3))]
        }),
        lex(seq!['\'', '\\', 'n', '\'']) == seq![tok(SpecTokenKind::Char('\n'), 0, 4)],
        lex(seq!['\'', '\\', '\\', '\'']) == seq![tok(SpecTokenKind::Char('\\'), 0, 4)],
        lex(seq!['\'', '\\', 't', '\'']) == seq![tok(SpecTokenKind::Char('\t'), 0, 4)],
        lex(seq!['\'', '\\', '"', '\'']) == seq![tok(SpecTokenKind::Char('"'), 0, 4)],
        lex(seq!['\'']) == seq![tok(SpecTokenKind::Error("Unclosed character quote \"'\""@), 0, 1)],
{
    reveal(rules_step);
    reveal_strlit("Unclosed character quote \"'\"");
    let w = seq!['\'', c, '\''];
    lemma_digits_end(w, 0);
    lemma_lex_one_char(w);
    let es = seq![
        seq!['\'', '\\', 'n', '\''],
        seq!['\'', '\\', '\\', '\''],
        seq!['\'', '\\', 't', '\''],
        seq!['\'', '\\', '"', '\''],
    ];
    assert forall|e: int| 0 <= e < 4 implies lex(#[trigger] es[e]) == opt_seq(lex_step(es[e], 0).0)
        && byte_pos(es[e], 4) == 4 by {
        let x = es[e];
        lemma_digits_end(x, 0);
        lemma_lex_one_char(x);
        assert(x.take(4) =~= x);
        lemma_byte_pos_step(x, 0);
        lemma_byte_pos_step(x, 1);
        lemma_byte_pos_step(x, 2);
        lemma_byte_pos_step(x, 3);
        assert(x.take(0) =~= Seq::<char>::empty());
    }
    assert(es[0] == seq!['\'', '\\', 'n', '\'']);
    assert(es[1] == seq!['\'', '\\', '\\', '\'']);
    assert(es[2] == seq!['\'', '\\', 't', '\'']);
    assert(es[3] == seq!['\'', '\\', '"', '\'']);
    let q = seq!['\''];
    lemma_digits_end(q, 0);
    lemma_lex_one_char(q);
    lemma_byte_pos_step(q, 0);
    assert(q.take(0) =~= Seq::<char>::empty());
    assert(w.take(0) =~= Seq::<char>::empty());
}

// ---------------------------------------------------------------------------
// Types
// ---------------------------------------------------------------------------

/// Each type's name reads back as that type, and only the names of types
/// read as a type.
pub proof fn law_type_name_round_trip(t: ValueType, name: Seq<char>)
    ensures
        type_named(type_text(t)) == Some(t),
        type_named(name) matches Some(u) ==> type_text(u) == name,
{
    reveal_strlit("String");
    reveal_strlit("Int");
    reveal_strlit("Bool");
    reveal_strlit("Number");
    reveal_strlit("Any");
    reveal_strlit("Integral");
    reveal_strlit("Stack");
    assert("Any"@[0] != "Int"@[0]);
    assert("Number"@[0] != "String"@[0]);
    match t {
        ValueType::String => {},
        ValueType::Int => {
            assert("Int"@.len() != "String"@.len());
        },
        ValueType::Bool => {
            assert("Bool"@.len() != "String"@.len());
            assert("Bool"@.len() != "Int"@.len());
        },
        ValueType::Number => {
            assert("Number"@.len() != "Int"@.len());
            assert("Number"@.len() != "Bool"@.len());
        },
        ValueType::Any => {
            assert("Any"@.len() != "String"@.len());
            assert("Any"@.len() != "Bool"@.len());
            assert("Any"@.len() != "Number"@.len());
        },
        ValueType::Integral => {
            assert("Integral"@.len() != "String"@.len());
            assert("Integral"@.len() != "Int"@.len());
            assert("Integral"@.len() != "Bool"@.len());
            assert("Integral"@.len() != "Number"@.len());
            assert("Integral"@.len() != "Any"@.len());
        },
        ValueType::Stack => {
            assert("Stack"@.len() != "String"@.len());
            assert("Stack"@.len() != "Int"@.len());
            assert("Stack"@.len() != "Bool"@.len());
            assert("Stack"@.len() != "Number"@.len());
            assert("Stack"@.len() != "Any"@.len());
            assert("Stack"@.len() != "Integral"@.len());
        },
    }
}

/// Every type meets itself and `Any`; `Integral` admits exactly `Int`,
/// `Number` and itself.
pub proof fn law_constraints(t: ValueType)
    ensures
        satisfies(t, t),
        satisfies(t, ValueType::Any),
        satisfies(t, ValueType::Integral) <==> (t == ValueType::Int || t == ValueType::Number || t
            == ValueType::Integral),
{
}

// ---------------------------------------------------------------------------
// Stack built-ins
// ---------------------------------------------------------------------------

/// What each stack built-in does, value by value (`n` is the depth before):
/// `dup` adds a copy of the top; `pop` removes the top; `swap` exchanges the
/// top two; `rot` brings the third from the top up; `rot-` sinks the top
/// below the next two; `depth` pushes `n`; `=` replaces the top two by
/// whether they are equal. Nothing below the values they touch changes.
pub proof fn law_stack_builtins(s: Seq<SpecValue>)
    requires
        s.len() >= 3,
    ensures
        ({
            let n = s.len() as int;
            let dup = apply_stack_builtin(Builtin::Dup, s);
            let pop = apply_stack_builtin(Builtin::Pop, s);
            let swap = apply_stack_builtin(Builtin::Swap, s);
            let rot = apply_stack_builtin(Builtin::Rot, s);
            let rotr = apply_stack_builtin(Builtin::RotRev, s);
            let eq = apply_stack_builtin(Builtin::Equal, s);
            &&& dup.len() == n + 1 && dup[n] == s[n - 1]
            &&& pop.len() == n - 1
            &&& swap.len() == n && swap[n - 1] == s[n - 2] && swap[n - 2] == s[n - 1]
            &&& rot.len() == n && rot[n - 1] == s[n - 3] && rot[n - 2] == s[n - 1] && rot[n - 3]
                == s[n - 2]
            &&& rotr.len() == n && rotr[n - 1] == s[n - 2] && rotr[n - 2] == s[n - 3] && rotr[n
                - 3] == s[n - 1]
            &&& eq.len() == n - 1 && eq[n - 2] == SpecValue::Bool(values_equal(s[n - 2], s[n - 1]))
            &&& forall|i: int|
                0 <= i < n - 3 ==> dup[i] == s[i] && pop[i] == s[i] && swap[i] == s[i] && rot[i]
                    == s[i] && rotr[i] == s[i] && eq[i] == s[i]
            &&& dup[n - 3] == s[n - 3] && dup[n - 2] == s[n - 2] && dup[n - 1] == s[n - 1]
            &&& pop[n - 3] == s[n - 3] && pop[n - 2] == s[n - 2]
            &&& swap[n - 3] == s[n - 3] && eq[n - 3] == s[n - 3]
        }),
{
}

/// `swap` twice leaves the stack as it was.
pub proof fn law_swap_twice(s: Seq<SpecValue>)
    requires
        s.len() >= 2,
    ensures
        apply_stack_builtin(Builtin::Swap, apply_stack_builtin(Builtin::Swap, s)) == s,
{
    let t = apply_stack_builtin(Builtin::Swap, s);
    assert(t.len() == s.len());
    assert(t.take(t.len() - 2) =~= s.take(s.len() - 2));
    assert(apply_stack_builtin(Builtin::Swap, t) =~= s);
}

/// `rot` then `rot-` leaves the stack as it was, and so does `rot-` then `rot`.
pub proof fn law_rot_inverse(s: Seq<SpecValue>)
    requires
        s.len() >= 3,
    ensures
        apply_stack_builtin(Builtin::RotRev, apply_stack_builtin(Builtin::Rot, s)) == s,
        apply_stack_builtin(Builtin::Rot, apply_stack_builtin(Builtin::RotRev, s)) == s,
{
    let t = apply_stack_builtin(Builtin::Rot, s);
    assert(t.take(t.len() - 3) =~= s.take(s.len() - 3));
    assert(apply_stack_builtin(Builtin::RotRev, t) =~= s);
    let u = apply_stack_builtin(Builtin::RotRev, s);
    assert(u.take(u.len() - 3) =~= s.take(s.len() - 3));
    assert(apply_stack_builtin(Builtin::Rot, u) =~= s);
}

/// `rot` three times leaves the stack as it was.
pub proof fn law_rot_thrice(s: Seq<SpecValue>)
    requires
        s.len() >= 3,
    ensures
        apply_stack_builtin(
            Builtin::Rot,
            apply_stack_builtin(Builtin::Rot, apply_stack_builtin(Builtin::Rot, s)),
        ) == s,
{
    let t1 = apply_stack_builtin(Builtin::Rot, s);
    assert(t1.take(t1.len() - 3) =~= s.take(s.len() - 3));
    let t2 = apply_stack_builtin(Builtin::Rot, t1);
    assert(t2.take(t2.len() - 3) =~= s.take(s.len() - 3));
    assert(apply_stack_builtin(Builtin::Rot, t2) =~= s);
}

/// `dup` then `pop` leaves the stack as it was.
pub proof fn law_dup_pop(s: Seq<SpecValue>)
    requires
        s.len() >= 1,
    ensures
        apply_stack_builtin(Builtin::Pop, apply_stack_builtin(Builtin::Dup, s)) == s,
{
    assert(apply_stack_builtin(Builtin::Dup, s).drop_last() =~= s);
}

/// `depth` pushes the number of values below it.
pub proof fn law_depth(s: Seq<SpecValue>)
    requires
        s.len() <= i32::MAX,
    ensures
        apply_stack_builtin(Builtin::Depth, s) == s.push(SpecValue::Int(s.len() as i32)),
        apply_stack_builtin(Builtin::Depth, s).last() matches SpecValue::Int(n) && n == s.len(),
{
}

/// `=` on numbers is binary32 equality: a NaN equals nothing, the two zeros
/// equal each other, and otherwise two numbers are equal exactly when their
/// bit patterns are; so a nonzero number never equals its negation.
pub proof fn law_number_equality(a: u32, b: u32)
    ensures
        (a & 0x7fff_ffffu32) > 0x7f80_0000u32 ==> !values_equal(
            SpecValue::Number(a),
            SpecValue::Number(b),
        ),
        (a & 0x7fff_ffffu32) == 0 && (b & 0x7fff_ffffu32) == 0 ==> values_equal(
            SpecValue::Number(a),
            SpecValue::Number(b),
        ),
        values_equal(SpecValue::Number(a), SpecValue::Number(b)) && !((a & 0x7fff_ffffu32) == 0 && (b
            & 0x7fff_ffffu32) == 0) ==> a == b,
        a == b && (a & 0x7fff_ffffu32) <= 0x7f80_0000u32 ==> values_equal(
            SpecValue::Number(a),
            SpecValue::Number(b),
        ),
        (a & 0x7fff_ffffu32) != 0 ==> !values_equal(
            SpecValue::Number(a),
            SpecValue::Number(a ^ 0x8000_0000u32),
        ),
{
    assert(a ^ 0x8000_0000u32 != a) by (bit_vector);
    assert((a ^ 0x8000_0000u32) & 0x7fff_ffffu32 == a & 0x7fff_ffffu32) by (bit_vector);
}

/// `=` is symmetric.
pub proof fn law_equal_symmetric(a: SpecValue, b: SpecValue)
    ensures
        values_equal(a, b) == values_equal(b, a),
{
}

/// `=` holds of every value with itself, except a NaN number and a stack.
pub proof fn law_equal_reflexive(a: SpecValue)
    ensures
        match a {
            SpecValue::Number(x) => values_equal(a, a) <==> (x & 0x7fff_ffffu32) <= 0x7f80_0000u32,
            SpecValue::Stack(_) => !values_equal(a, a),
            _ => values_equal(a, a),
        },
{
}


// ---------------------------------------------------------------------------
// Error sections
// ---------------------------------------------------------------------------

proof fn lemma_line_start_le(f: Seq<char>, i: int)
    requires
        0 <= i <= f.len(),
    ensures
        0 <= line_start(f, i) <= i,
    decreases i,
{
    if i > 0 && f[i - 1] != '\n' {
        lemma_line_start_le(f, i - 1);
    }
}

proof fn lemma_line_end_ge(f: Seq<char>, j: int)
    requires
        0 <= j <= f.len(),
    ensures
        j <= line_end(f, j) <= f.len(),
    decreases f.len() - j,
{
    if j < f.len() && f[j] != '\n' {
        lemma_line_end_ge(f, j + 1);
    }
}

proof fn lemma_split_acc_no_newline(s: Seq<char>)
    ensures
        !split_acc(s).1.contains('\n'),
        forall|k: int|
            0 <= k < split_acc(s).0.len() ==> !(#[trigger] split_acc(s).0[k]).contains('\n'),
    decreases s.len(),
{
    if s.len() > 0 {
        lemma_split_acc_no_newline(s.drop_last());
        let r = split_acc(s.drop_last());
        if s.last() != '\n' {
            assert forall|x: char| r.1.push(s.last()).contains(x) implies x != '\n' by {
                let k = choose|k: int| 0 <= k < r.1.push(s.last()).len() && r.1.push(s.last())[k] == x;
                if k < r.1.len() {
                    assert(r.1.contains(x));
                }
            }
        } else {
            assert forall|k: int| 0 <= k < r.0.push(r.1).len() implies !(#[trigger] r.0.push(r.1)[k]).contains('\n') by {
                if k < r.0.len() {
                    assert(r.0.push(r.1)[k] == r.0[k]);
                }
            }
            assert(!Seq::<char>::empty().contains('\n'));
        }
    }
}

/// Counting newlines counts each one: none in no text, one in a newline
/// alone, none in any other character, and the count of two texts joined is
/// the sum of their counts. So the line number that `section_at_pos` gives,
/// one more than the newlines before the section, counts blank lines too.
pub proof fn law_count_newlines(a: Seq<char>, b: Seq<char>, c: char)
    ensures
        count_newlines(Seq::<char>::empty()) == 0,
        count_newlines(seq![c]) == if c == '\n' {
            1nat
        } else {
            0nat
        },
        count_newlines(a + b) == count_newlines(a) + count_newlines(b),
    decreases b.len(),
{
    assert(seq![c].drop_last() =~= Seq::<char>::empty());
    if b.len() > 0 {
        law_count_newlines(a, b.drop_last(), c);
        assert((a + b).drop_last() =~= a + b.drop_last());
        assert((a + b).last() == b.last());
    } else {
        assert(a + b =~= a);
    }
}

/// The section that `section_at_pos` cuts out holds the marked span, and
/// none of its lines holds a newline.
pub proof fn law_section_covers_span(f: Seq<char>, pos: Span)
    requires
        section_defined(f, pos),
    ensures
        byte_pos(f, section_first(f, pos)) <= pos.start,
        pos.end <= byte_pos(f, section_last(f, pos)),
        forall|k: int|
            0 <= k < split_lines(f.subrange(section_first(f, pos), section_last(f, pos))).len()
                ==> !(#[trigger] split_lines(
                f.subrange(section_first(f, pos), section_last(f, pos)),
            )[k]).contains('\n'),
{
    let a = char_index(f, pos.start as int);
    let b = char_index(f, pos.end as int);
    assert(0 <= a <= f.len() && byte_pos(f, a) == pos.start);
    assert(0 <= b <= f.len() && byte_pos(f, b) == pos.end);
    lemma_line_start_le(f, a);
    lemma_line_end_ge(f, b);
    lemma_byte_pos_mono(f, section_first(f, pos), a);
    lemma_byte_pos_mono(f, b, section_last(f, pos));
    let sub = f.subrange(section_first(f, pos), section_last(f, pos));
    lemma_split_acc_no_newline(sub);
    let r = split_acc(sub);
    if r.1.len() > 0 {
        assert forall|k: int| 0 <= k < r.0.push(r.1).len() implies !(#[trigger] r.0.push(r.1)[k]).contains('\n') by {
            if k < r.0.len() {
                assert(r.0.push(r.1)[k] == r.0[k]);
            }
        }
    }
}


// ---------------------------------------------------------------------------
// Running blocks
// ---------------------------------------------------------------------------

/// A `break` ends the innermost loop: every `if` body above it ends too,
/// and what ran below the loop goes on.
pub proof fn law_break_leaves_loop(m: MachineModel, k: int)
    requires
        0 <= k < m.frames.len(),
        m.frames[k].kind == FrameKind::Loop,
        forall|j: int| k < j < m.frames.len() ==> (#[trigger] m.frames[j]).kind == FrameKind::If,
    ensures
        end_block(m, true) == (MachineModel { scopes: m.scopes, frames: m.frames.take(k) }),
    decreases m.frames.len() - k,
{
    let fr = m.frames.drop_last();
    let popped = MachineModel { scopes: m.scopes, frames: fr };
    if m.frames.len() - 1 == k {
        assert(fr =~= m.frames.take(k));
    } else {
        assert(m.frames.last().kind == FrameKind::If);
        assert forall|j: int| k < j < popped.frames.len() implies (#[trigger] popped.frames[j]).kind
            == FrameKind::If by {
            assert(popped.frames[j] == m.frames[j]);
        }
        law_break_leaves_loop(popped, k);
        assert(fr.take(k) =~= m.frames.take(k));
    }
}

/// A `break` inside `if` bodies directly inside a called function's body
/// ends those bodies and then the call: the frames below the call are left,
/// and the callee's stack lands on top of the caller's, whose functions stay.
/// The `break` node does exactly this.
pub proof fn law_break_leaves_call(m: MachineModel, k: int, n: SpecNode)
    requires
        0 <= k < m.frames.len(),
        m.scopes.len() >= 2,
        m.frames[k].kind == FrameKind::Call,
        forall|j: int| k < j < m.frames.len() ==> (#[trigger] m.frames[j]).kind == FrameKind::If,
        n.kind == SpecNodeKind::Break,
    ensures
        ({
            let callee = m.scopes.last();
            let rest = m.scopes.drop_last();
            let caller = rest.last();
            let r = end_block(m, true);
            &&& r.frames == m.frames.take(k)
            &&& r.scopes.len() == m.scopes.len() - 1
            &&& r.scopes.take(r.scopes.len() - 1) == rest.drop_last()
            &&& r.scopes.last() == (ScopeModel {
                stack: caller.stack + callee.stack,
                funcs: caller.funcs,
            })
            &&& run_node(m, n).0 == r
        }),
    decreases m.frames.len() - k,
{
    let fr = m.frames.drop_last();
    let popped = MachineModel { scopes: m.scopes, frames: fr };
    let r = end_block(m, true);
    if m.frames.len() - 1 == k {
        assert(fr =~= m.frames.take(k));
        let rest = m.scopes.drop_last();
        assert(r.scopes.take(r.scopes.len() - 1) =~= rest.drop_last());
    } else {
        assert(m.frames.last().kind == FrameKind::If);
        assert forall|j: int| k < j < popped.frames.len() implies (#[trigger] popped.frames[j]).kind
            == FrameKind::If by {
            assert(popped.frames[j] == m.frames[j]);
        }
        law_break_leaves_call(popped, k, n);
        assert(fr.take(k) =~= m.frames.take(k));
    }
}

/// When a loop's body ends normally, the loop runs it again from its start.
pub proof fn law_loop_repeats(m: MachineModel)
    requires
        m.frames.len() > 0,
        m.frames.last().kind == FrameKind::Loop,
    ensures
        end_block(m, false).scopes == m.scopes,
        end_block(m, false).frames == m.frames.update(
            m.frames.len() - 1,
            FrameModel { index: 0, ..m.frames.last() },
        ),
{
    assert(m.frames.drop_last().push(FrameModel { index: 0, ..m.frames.last() }) =~= m.frames.update(
        m.frames.len() - 1,
        FrameModel { index: 0, ..m.frames.last() },
    ));
}

proof fn lemma_scoped_count_last(fs: Seq<FrameModel>)
    requires
        fs.len() > 0,
        has_scope(fs.last().kind),
    ensures
        scoped_count(fs) >= 1,
{
}

/// When a called function's body ends, by its end or by a `break`, its scope
/// goes away: the caller's functions are as they were before the call, and
/// the callee's stack lands on top of the caller's.
pub proof fn law_call_returns(m: MachineModel, brk: bool)
    requires
        model_wf(m),
        m.frames.len() > 0,
        m.frames.last().kind == FrameKind::Call,
    ensures
        ({
            let r = end_block(m, brk);
            let n = m.scopes.len() as int;
            &&& n >= 2
            &&& r.frames == m.frames.drop_last()
            &&& r.scopes.len() == n - 1
            &&& r.scopes.take(n - 2) == m.scopes.take(n - 2)
            &&& r.scopes.last().funcs == m.scopes[n - 2].funcs
            &&& r.scopes.last().stack == m.scopes[n - 2].stack + m.scopes[n - 1].stack
        }),
{
    lemma_scoped_count_last(m.frames);
    let n = m.scopes.len() as int;
    let r = end_block(m, brk);
    assert(r.scopes.take(n - 2) =~= m.scopes.take(n - 2));
}

/// When a `with` body ends, its scope goes away and its stack is pushed, as
/// one value, onto the enclosing stack; the enclosing functions are as they
/// were.
pub proof fn law_with_returns(m: MachineModel, brk: bool)
    requires
        model_wf(m),
        m.frames.len() > 0,
        m.frames.last().kind == FrameKind::With,
    ensures
        ({
            let r = end_block(m, brk);
            let n = m.scopes.len() as int;
            &&& n >= 2
            &&& r.frames == m.frames.drop_last()
            &&& r.scopes.len() == n - 1
            &&& r.scopes.take(n - 2) == m.scopes.take(n - 2)
            &&& r.scopes.last().funcs == m.scopes[n - 2].funcs
            &&& r.scopes.last().stack == m.scopes[n - 2].stack.push(
                SpecValue::Stack(m.scopes[n - 1].stack),
            )
        }),
{
    lemma_scoped_count_last(m.frames);
    let n = m.scopes.len() as int;
    let r = end_block(m, brk);
    assert(r.scopes.take(n - 2) =~= m.scopes.take(n - 2));
}


// ---------------------------------------------------------------------------
// A whole call
// ---------------------------------------------------------------------------

/// One scope for the top level and one for each call or `with` being run.
pub open spec fn counted(m: MachineModel) -> bool {
    m.scopes.len() == 1 + scoped_count(m.frames)
}

/// The position of the scope of the code that made the call whose frame is
/// frame `f` of `m0`.
pub open spec fn caller_index(m0: MachineModel, f: int) -> int {
    scoped_count(m0.frames.take(f)) as int
}

/// The call whose frame is frame `f` of `m0` is still running in `m`: the
/// frames below it are those of `m0`, and so are the scopes up to the caller's.
pub open spec fn in_call(m0: MachineModel, m: MachineModel, f: int) -> bool {
    &&& counted(m)
    &&& 0 <= f < m.frames.len()
    &&& f <= m0.frames.len()
    &&& m.frames.take(f) == m0.frames.take(f)
    &&& m.frames[f].kind == FrameKind::Call
    &&& caller_index(m0, f) < m0.scopes.len()
    &&& m.scopes.take(caller_index(m0, f) + 1) == m0.scopes.take(caller_index(m0, f) + 1)
}

/// The call of `in_call(m0, prev, f)` has just returned in `m`: the frames
/// below it are left, the caller's functions are as they were in `m0`, and
/// the caller's stack is what it was in `m0` with the callee's stack of
/// `prev` on top.
pub open spec fn returned_from(m0: MachineModel, prev: MachineModel, m: MachineModel, f: int) -> bool {
    let c = caller_index(m0, f);
    &&& counted(m)
    &&& m.frames == m0.frames.take(f)
    &&& m.scopes == m0.scopes.take(c).push(
        ScopeModel {
            stack: m0.scopes[c].stack + prev.scopes[c + 1].stack,
            funcs: m0.scopes[c].funcs,
        },
    )
}

proof fn lemma_scoped_prefix(fs: Seq<FrameModel>, f: int)
    requires
        0 <= f < fs.len(),
    ensures
        scoped_count(fs) >= scoped_count(fs.take(f)) + if has_scope(fs[f].kind) {
            1nat
        } else {
            0nat
        },
        f == fs.len() - 1 ==> scoped_count(fs) == scoped_count(fs.take(f)) + if has_scope(
            fs[f].kind,
        ) {
            1nat
        } else {
            0nat
        },
    decreases fs.len(),
{
    let d = fs.drop_last();
    if f == fs.len() - 1 {
        assert(d =~= fs.take(f));
    } else {
        lemma_scoped_prefix(d, f);
        assert(d.take(f) =~= fs.take(f));
        assert(d[f] == fs[f]);
    }
}

proof fn lemma_scoped_update_last(fs: Seq<FrameModel>, x: FrameModel)
    requires
        fs.len() > 0,
        x.kind == fs.last().kind,
    ensures
        scoped_count(fs.update(fs.len() - 1, x)) == scoped_count(fs),
{
    assert(fs.update(fs.len() - 1, x).drop_last() =~= fs.drop_last());
}

proof fn lemma_scoped_push_frame(fs: Seq<FrameModel>, x: FrameModel)
    ensures
        scoped_count(fs.push(x)) == scoped_count(fs) + if has_scope(x.kind) {
            1nat
        } else {
            0nat
        },
{
    assert(fs.push(x).drop_last() =~= fs);
}

/// Facts that follow from `in_call`: the caller's and callee's scopes exist.
proof fn lemma_in_call_scopes(m0: MachineModel, m: MachineModel, f: int)
    requires
        in_call(m0, m, f),
    ensures
        caller_index(m0, f) == scoped_count(m.frames.take(f)),
        m.scopes.len() >= caller_index(m0, f) + 2,
        f == m.frames.len() - 1 ==> m.scopes.len() == caller_index(m0, f) + 2,
        f < m.frames.len() - 1 && has_scope(m.frames.last().kind) ==> m.scopes.len()
            >= caller_index(m0, f) + 3,
{
    lemma_scoped_prefix(m.frames, f);
    if f < m.frames.len() - 1 {
        let d = m.frames.drop_last();
        lemma_scoped_prefix(d, f);
        assert(d.take(f) =~= m.frames.take(f));
        assert(d[f] == m.frames[f]);
    }
}

/// Dropping the top frame, when it is above the call and holds no scope,
/// keeps the call running.
proof fn lemma_in_call_pop_plain(m0: MachineModel, m: MachineModel, f: int)
    requires
        in_call(m0, m, f),
        f < m.frames.len() - 1,
        !has_scope(m.frames.last().kind),
    ensures
        in_call(m0, MachineModel { scopes: m.scopes, frames: m.frames.drop_last() }, f),
{
    let d = m.frames.drop_last();
    assert(d.take(f) =~= m.frames.take(f));
    assert(d[f] == m.frames[f]);
}

/// Changing the current stack keeps the call running.
proof fn lemma_in_call_set_cur(m0: MachineModel, m: MachineModel, f: int, sc: ScopeModel)
    requires
        in_call(m0, m, f),
    ensures
        in_call(m0, set_cur(m, sc), f),
{
    lemma_in_call_scopes(m0, m, f);
    let c = caller_index(m0, f);
    assert(set_cur(m, sc).scopes.take(c + 1) =~= m.scopes.take(c + 1));
}

/// Pushing a frame, with a scope when it has one, keeps the call running.
proof fn lemma_in_call_push(m0: MachineModel, m: MachineModel, f: int, r: MachineModel)
    requires
        in_call(m0, m, f),
        r.frames.len() == m.frames.len() + 1,
        r.frames.drop_last() == m.frames,
        has_scope(r.frames.last().kind) ==> r.scopes.drop_last() == m.scopes && r.scopes.len()
            == m.scopes.len() + 1,
        !has_scope(r.frames.last().kind) ==> r.scopes == m.scopes,
    ensures
        in_call(m0, r, f),
{
    lemma_in_call_scopes(m0, m, f);
    let c = caller_index(m0, f);
    assert(r.frames =~= m.frames.push(r.frames.last()));
    lemma_scoped_push_frame(m.frames, r.frames.last());
    assert(r.frames.take(f) =~= m.frames.take(f));
    assert(r.frames[f] == m.frames[f]);
    if has_scope(r.frames.last().kind) {
        assert(r.scopes.take(c + 1) =~= m.scopes.take(c + 1));
    }
}

proof fn lemma_end_block_in_call(m0: MachineModel, m: MachineModel, f: int, brk: bool)
    requires
        in_call(m0, m, f),
    ensures
        in_call(m0, end_block(m, brk), f) || returned_from(m0, m, end_block(m, brk), f),
    decreases m.frames.len(),
{
    lemma_in_call_scopes(m0, m, f);
    let c = caller_index(m0, f);
    let t = m.frames.len() - 1;
    let fr = m.frames.drop_last();
    let popped = MachineModel { scopes: m.scopes, frames: fr };
    let top = m.frames.last();
    lemma_scoped_prefix(m.frames, t);
    assert(fr =~= m.frames.take(t));
    match top.kind {
        FrameKind::Loop => {
            lemma_in_call_pop_plain(m0, m, f);
            if !brk {
                let nf = FrameModel { index: 0, ..top };
                assert(fr.push(nf).drop_last() =~= fr);
                lemma_in_call_push(m0, popped, f, MachineModel { scopes: m.scopes, frames: fr.push(nf) });
            }
        },
        FrameKind::If => {
            lemma_in_call_pop_plain(m0, m, f);
            if brk {
                lemma_end_block_in_call(m0, popped, f, true);
            }
        },
        FrameKind::Top => {
            lemma_in_call_pop_plain(m0, m, f);
        },
        FrameKind::Call => {
            let r = end_block(m, brk);
            let rest = m.scopes.drop_last();
            if t == f {
                assert(m.scopes[c] == m0.scopes[c]) by {
                    assert(m.scopes.take(c + 1)[c] == m0.scopes.take(c + 1)[c]);
                }
                assert(rest.take(c) =~= m0.scopes.take(c)) by {
                    assert forall|k: int| 0 <= k < c implies rest[k] == m0.scopes[k] by {
                        assert(m.scopes.take(c + 1)[k] == m0.scopes.take(c + 1)[k]);
                    }
                }
                assert(r.scopes =~= m0.scopes.take(c).push(
                    ScopeModel {
                        stack: m0.scopes[c].stack + m.scopes[c + 1].stack,
                        funcs: m0.scopes[c].funcs,
                    },
                ));
                assert(r.frames =~= m0.frames.take(f));
            } else {
                assert(r.frames == fr);
                assert(fr.take(f) =~= m.frames.take(f));
                assert(fr[f] == m.frames[f]);
                assert(r.scopes.take(c + 1) =~= m.scopes.take(c + 1));
            }
        },
        FrameKind::With => {
            let r = end_block(m, brk);
            assert(r.frames == fr);
            assert(fr.take(f) =~= m.frames.take(f));
            assert(fr[f] == m.frames[f]);
            assert(r.scopes.take(c + 1) =~= m.scopes.take(c + 1));
        },
    }
}


proof fn lemma_in_call_push_frame(
    m0: MachineModel,
    m: MachineModel,
    f: int,
    body: Seq<SpecNode>,
    kind: FrameKind,
)
    requires
        in_call(m0, m, f),
        !has_scope(kind),
    ensures
        in_call(m0, push_frame(m, body, kind), f),
{
    let r = push_frame(m, body, kind);
    assert(r.frames.drop_last() =~= m.frames);
    lemma_in_call_push(m0, m, f, r);
}

proof fn lemma_run_node_in_call(m0: MachineModel, m: MachineModel, f: int, n: SpecNode)
    requires
        in_call(m0, m, f),
    ensures
        in_call(m0, run_node(m, n).0, f) || returned_from(m0, m, run_node(m, n).0, f),
{
    let sc = cur(m);
    let st = sc.stack;
    let r = run_node(m, n).0;
    match n.kind {
        SpecNodeKind::Loop(body) => {
            lemma_in_call_push_frame(m0, m, f, body, FrameKind::Loop);
        },
        SpecNodeKind::If(body) => {
            let m1 = set_stack(m, st.drop_last());
            lemma_in_call_set_cur(m0, m, f, ScopeModel { stack: st.drop_last(), funcs: sc.funcs });
            lemma_in_call_set_cur(m0, m, f, ScopeModel { stack: st, funcs: sc.funcs });
            lemma_in_call_push_frame(m0, m1, f, body, FrameKind::If);
        },
        SpecNodeKind::Function(name, params, body) => {
            lemma_in_call_set_cur(
                m0,
                m,
                f,
                ScopeModel { stack: st, funcs: sc.funcs.insert(name, SpecFunction::Runtime(params, body)) },
            );
        },
        SpecNodeKind::Break => {
            lemma_end_block_in_call(m0, m, f, true);
        },
        SpecNodeKind::Instruction(name) => {
            if sc.funcs.dom().contains(name) {
                match sc.funcs[name] {
                    SpecFunction::Runtime(params, body) => {
                        if params_match(st, params) {
                            let k = st.len() - params.len();
                            let caller = set_stack(m, st.take(k));
                            lemma_in_call_set_cur(m0, m, f, ScopeModel { stack: st.take(k), funcs: sc.funcs });
                            assert(r.frames.drop_last() =~= caller.frames);
                            assert(r.scopes.drop_last() =~= caller.scopes);
                            lemma_in_call_push(m0, caller, f, r);
                        }
                    },
                    SpecFunction::Internal(params, op) => {
                        if params_match(st, params) {
                            lemma_in_call_set_cur(
                                m0,
                                m,
                                f,
                                ScopeModel { stack: apply_stack_builtin(op, st), funcs: sc.funcs },
                            );
                            lemma_in_call_set_cur(
                                m0,
                                m,
                                f,
                                ScopeModel { stack: st.drop_last(), funcs: sc.funcs },
                            );
                            match st.last() {
                                SpecValue::Bool(b) => {
                                    lemma_in_call_set_cur(
                                        m0,
                                        m,
                                        f,
                                        ScopeModel {
                                            stack: st.drop_last().push(
                                                SpecValue::Int(if b { 1i32 } else { 0i32 }),
                                            ),
                                            funcs: sc.funcs,
                                        },
                                    );
                                },
                                _ => {},
                            }
                            lemma_in_call_set_cur(
                                m0,
                                m,
                                f,
                                ScopeModel {
                                    stack: st.drop_last().push(SpecValue::String(value_text(st.last()))),
                                    funcs: sc.funcs,
                                },
                            );
                        }
                    },
                }
            }
        },
        SpecNodeKind::String(t) => {
            lemma_in_call_set_cur(m0, m, f, ScopeModel { stack: st.push(SpecValue::String(t)), funcs: sc.funcs });
        },
        SpecNodeKind::Int(v) => {
            lemma_in_call_set_cur(m0, m, f, ScopeModel { stack: st.push(SpecValue::Int(v as i32)), funcs: sc.funcs });
        },
        SpecNodeKind::Bool(b) => {
            lemma_in_call_set_cur(m0, m, f, ScopeModel { stack: st.push(SpecValue::Bool(b)), funcs: sc.funcs });
        },
        SpecNodeKind::Stack(vs) => {
            lemma_in_call_set_cur(m0, m, f, ScopeModel { stack: st.push(SpecValue::Stack(vs)), funcs: sc.funcs });
        },
        SpecNodeKind::With(body) => {
            if params_match(st, seq![ValueType::Stack]) {
                let outer = set_stack(m, st.drop_last());
                lemma_in_call_set_cur(m0, m, f, ScopeModel { stack: st.drop_last(), funcs: sc.funcs });
                assert(r.frames.drop_last() =~= outer.frames);
                assert(r.scopes.drop_last() =~= outer.scopes);
                lemma_in_call_push(m0, outer, f, r);
            }
        },
        _ => {},
    }
}

proof fn lemma_step_in_call(m0: MachineModel, m: MachineModel, f: int)
    requires
        in_call(m0, m, f),
    ensures
        in_call(m0, step_spec(m).0, f) || returned_from(m0, m, step_spec(m).0, f),
{
    let fm = m.frames.last();
    if fm.index >= fm.body.len() {
        lemma_end_block_in_call(m0, m, f, false);
    } else {
        let nf = FrameModel { index: fm.index + 1, ..fm };
        let moved = MachineModel { scopes: m.scopes, frames: m.frames.update(m.frames.len() - 1, nf) };
        lemma_scoped_update_last(m.frames, nf);
        assert(moved.frames.take(f) =~= m.frames.take(f));
        assert(moved.frames[f].kind == m.frames[f].kind);
        lemma_run_node_in_call(m0, moved, f, fm.body[fm.index as int]);
    }
}


/// Starting a call of a function defined by the program: the caller's scope
/// keeps the values below the arguments and its functions, the callee's
/// stack holds the arguments, and the call is running.
pub proof fn law_call_starts(m: MachineModel, n: SpecNode)
    requires
        counted(m),
        n.kind matches SpecNodeKind::Instruction(name) && cur(m).funcs.dom().contains(name) && (
        cur(m).funcs[name] matches SpecFunction::Runtime(params, _) && params_match(
            cur(m).stack,
            params,
        )),
    ensures
        ({
            let r = run_node(m, n).0;
            let f = m.frames.len() as int;
            let c = caller_index(r, f);
            let st = cur(m).stack;
            let name = n.kind->Instruction_0;
            let k = st.len() - function_params(cur(m).funcs[name]).len();
            &&& in_call(r, r, f)
            &&& c == m.scopes.len() - 1
            &&& r.scopes[c] == (ScopeModel { stack: st.take(k), funcs: cur(m).funcs })
            &&& r.scopes[c + 1].stack == st.skip(k)
            &&& r.scopes[c + 1].funcs == cur(m).funcs
            &&& cur(r).funcs == cur(m).funcs
            &&& r.scopes.take(c) == m.scopes.take(c)
        }),
{
    let r = run_node(m, n).0;
    let f = m.frames.len() as int;
    assert(r.frames.take(f) =~= m.frames);
    lemma_scoped_push_frame(m.frames, r.frames.last());
    assert(r.frames =~= m.frames.push(r.frames.last()));
    let c = caller_index(r, f);
    assert(r.scopes.take(c) =~= m.scopes.take(c));
}

/// Each step, and each change the caller of `step` makes to the current
/// stack, either keeps a running call running, with the frames below it and
/// the scopes up to its caller's untouched, or returns from it.
pub proof fn law_call_runs_apart(m0: MachineModel, m: MachineModel, f: int, st: Seq<SpecValue>)
    requires
        in_call(m0, m, f),
    ensures
        in_call(m0, step_spec(m).0, f) || returned_from(m0, m, step_spec(m).0, f),
        in_call(m0, set_stack(m, st), f),
{
    lemma_step_in_call(m0, m, f);
    lemma_in_call_set_cur(m0, m, f, ScopeModel { stack: st, funcs: cur(m).funcs });
}

/// A run of the machine: each state comes from the one before by a step or
/// by a change of the current stack.
pub open spec fn runs(ms: Seq<MachineModel>) -> bool {
    forall|k: int|
        0 <= k < ms.len() - 1 ==> #[trigger] ms[k + 1] == step_spec(ms[k]).0 || ms[k + 1]
            == set_stack(ms[k], cur(ms[k + 1]).stack)
}

proof fn lemma_scan_call(ms: Seq<MachineModel>, f: int, j: int)
    requires
        runs(ms),
        0 <= j < ms.len(),
        forall|i: int| 0 <= i <= j ==> #[trigger] in_call(ms[0], ms[i], f),
        !in_call(ms[0], ms.last(), f),
    ensures
        exists|k: int|
            #![trigger ms[k]]
            0 < k < ms.len() && (forall|i: int| 0 <= i < k ==> #[trigger] in_call(ms[0], ms[i], f))
                && returned_from(ms[0], ms[k - 1], ms[k], f),
    decreases ms.len() - j,
{
    assert(in_call(ms[0], ms[j], f));
    assert(j < ms.len() - 1);
    let next = ms[j + 1];
    lemma_step_in_call(ms[0], ms[j], f);
    lemma_in_call_set_cur(ms[0], ms[j], f, ScopeModel { stack: cur(next).stack, funcs: cur(ms[j]).funcs });
    if in_call(ms[0], next, f) {
        lemma_scan_call(ms, f, j + 1);
    } else {
        assert(returned_from(ms[0], ms[j], next, f));
        assert(forall|i: int| 0 <= i < j + 1 ==> #[trigger] in_call(ms[0], ms[i], f));
    }
}

/// A whole call: in any run that starts inside a call and ends outside it,
/// the call stays running until one state where it has returned. There the
/// frames below it are as they were, the caller's functions are those it
/// had when the call was running (definitions made in the call do not leak),
/// and the caller's stack is the values it kept below the arguments with
/// the callee's final stack on top.
pub proof fn law_call_whole(ms: Seq<MachineModel>, f: int)
    requires
        ms.len() >= 1,
        runs(ms),
        in_call(ms[0], ms[0], f),
        !in_call(ms[0], ms.last(), f),
    ensures
        exists|k: int|
            #![trigger ms[k]]
            0 < k < ms.len() && (forall|i: int| 0 <= i < k ==> #[trigger] in_call(ms[0], ms[i], f))
                && returned_from(ms[0], ms[k - 1], ms[k], f),
{
    lemma_scan_call(ms, f, 0);
}


/// One call of a function defined by the program, run to its end: from the
/// node that calls it, through any run of steps and changes of the current
/// stack, until the call is over. It stays running until one state where it
/// has returned; there the caller's blocks are as they were (the caller goes
/// on normally, whether the body ended by its end or by a `break`), every
/// scope below the caller's is as it was, the caller's functions are those it
/// had before the call (definitions made in the call do not leak), and the
/// caller's stack is the values below the arguments with what the body left
/// on top.
pub proof fn law_call(m: MachineModel, n: SpecNode, ms: Seq<MachineModel>)
    requires
        counted(m),
        n.kind matches SpecNodeKind::Instruction(name) && cur(m).funcs.dom().contains(name) && (
        cur(m).funcs[name] matches SpecFunction::Runtime(params, _) && params_match(
            cur(m).stack,
            params,
        )),
        ms.len() >= 1,
        ms[0] == run_node(m, n).0,
        runs(ms),
        !in_call(ms[0], ms.last(), m.frames.len() as int),
    ensures
        exists|k: int|
            #![trigger ms[k]]
            0 < k < ms.len() && (forall|i: int|
                0 <= i < k ==> #[trigger] in_call(ms[0], ms[i], m.frames.len() as int)) && ({
                let c = m.scopes.len() - 1;
                let st = cur(m).stack;
                let below = st.take(
                    st.len() - function_params(cur(m).funcs[n.kind->Instruction_0]).len(),
                );
                &&& ms[k].frames == m.frames
                &&& ms[k].scopes == m.scopes.take(c).push(
                    ScopeModel { stack: below + ms[k - 1].scopes[c + 1].stack, funcs: cur(m).funcs },
                )
            }),
{
    let f = m.frames.len() as int;
    law_call_starts(m, n);
    lemma_scan_call(ms, f, 0);
    let k = choose|k: int|
        #![trigger ms[k]]
        0 < k < ms.len() && (forall|i: int| 0 <= i < k ==> #[trigger] in_call(ms[0], ms[i], f))
            && returned_from(ms[0], ms[k - 1], ms[k], f);
    let r = ms[0];
    assert(r.frames.take(f) =~= m.frames);
    assert(ms[k].frames == m.frames);
}


// ---------------------------------------------------------------------------
// Parsing
// ---------------------------------------------------------------------------

/// The node that a token standing alone gives: a literal, `break`, or an
/// instruction naming a symbol; `None` for other tokens.
pub open spec fn single_node(t: SpecToken) -> Option<SpecNodeKind> {
    match t.kind {
        SpecTokenKind::Int(n) => Some(SpecNodeKind::Int(n)),
        SpecTokenKind::Number(x) => Some(SpecNodeKind::Number(x)),
        SpecTokenKind::String(x) => Some(SpecNodeKind::String(x)),
        SpecTokenKind::Bool(b) => Some(SpecNodeKind::Bool(b)),
        SpecTokenKind::KwBreak => Some(SpecNodeKind::Break),
        SpecTokenKind::Symbol(x) => Some(SpecNodeKind::Instruction(x)),
        _ => None,
    }
}

/// Token `c` stands alone: it gives a node by itself, and when it is a
/// symbol, no `(` follows it.
pub open spec fn stands_alone(toks: Seq<SpecToken>, c: int) -> bool {
    &&& single_node(toks[c]) is Some
    &&& (toks[c].kind is Symbol && c + 1 < toks.len() ==> toks[c + 1].kind != SpecTokenKind::LParen)
}

/// The nodes of tokens `a` to `b` (excluded) when each stands alone: one
/// node per token, over that token's span.
pub open spec fn single_nodes(toks: Seq<SpecToken>, a: int, b: int) -> Seq<SpecNode>
    decreases b - a,
{
    if a >= b {
        Seq::empty()
    } else {
        seq![SpecNode { kind: single_node(toks[a])->0, start: toks[a].start, end: toks[a].end }]
            + single_nodes(toks, a + 1, b)
    }
}

proof fn lemma_item_alone(toks: Seq<SpecToken>, c: int)
    requires
        0 <= c < toks.len(),
        stands_alone(toks, c),
    ensures
        parse_item(toks, c) == (ItemResult {
            matched: true,
            emitted: seq![
                SpecNode { kind: single_node(toks[c])->0, start: toks[c].start, end: toks[c].end },
            ],
            next: c + 1,
            stalls: false,
        }),
{
}

proof fn lemma_top_alone(toks: Seq<SpecToken>, c: int)
    requires
        0 <= c <= toks.len(),
        forall|k: int| c <= k < toks.len() ==> #[trigger] stands_alone(toks, k),
    ensures
        parse_top(toks, c) == (single_nodes(toks, c, toks.len() as int), false),
    decreases toks.len() - c,
{
    if c < toks.len() {
        lemma_item_alone(toks, c);
        lemma_top_alone(toks, c + 1);
    }
}

proof fn lemma_items_alone(toks: Seq<SpecToken>, c: int, e: int)
    requires
        1 <= c <= e < toks.len(),
        toks[e].kind == SpecTokenKind::RCurly,
        forall|k: int| c <= k < e ==> #[trigger] stands_alone(toks, k),
    ensures
        parse_items(toks, c) == (ItemsResult {
            closed: true,
            emitted: single_nodes(toks, c, e),
            next: e + 1,
            stalls: false,
        }),
    decreases e - c,
{
    if c < e {
        lemma_item_alone(toks, c);
        lemma_items_alone(toks, c + 1, e);
    }
}

/// Tokens that each stand alone parse to one node apiece, in order, each
/// over its token's span, and the parse returns.
pub proof fn law_parse_singles(toks: Seq<SpecToken>)
    requires
        forall|k: int| 0 <= k < toks.len() ==> #[trigger] stands_alone(toks, k),
    ensures
        parse(toks) == single_nodes(toks, 0, toks.len() as int),
        !parse_stalls(toks),
        parse(toks).len() == toks.len(),
{
    lemma_top_alone(toks, 0);
    lemma_single_nodes_len(toks, 0, toks.len() as int);
}

proof fn lemma_single_nodes_len(toks: Seq<SpecToken>, a: int, b: int)
    requires
        a <= b,
    ensures
        single_nodes(toks, a, b).len() == b - a,
    decreases b - a,
{
    if a < b {
        lemma_single_nodes_len(toks, a + 1, b);
    }
}

/// A block: `loop`, `if`, or a name with `()`, then `{`, tokens that each
/// stand alone, and `}`, parses to one node over all of it, whose body is
/// the nodes of the tokens inside: a loop, an `if`, or a function with that
/// name and no parameters.
pub proof fn law_parse_block(toks: Seq<SpecToken>, h: int)
    requires
        h == 1 || h == 3,
        toks.len() >= h + 2,
        h == 1 ==> toks[0].kind == SpecTokenKind::KwLoop || toks[0].kind == SpecTokenKind::KwIf,
        h == 3 ==> toks[0].kind is Symbol && toks[1].kind == SpecTokenKind::LParen && toks[2].kind
            == SpecTokenKind::RParen,
        toks[h].kind == SpecTokenKind::LCurly,
        toks.last().kind == SpecTokenKind::RCurly,
        forall|k: int| h < k < toks.len() - 1 ==> #[trigger] stands_alone(toks, k),
    ensures
        ({
            let body = single_nodes(toks, h + 1, toks.len() - 1);
            let kind = if toks[0].kind == SpecTokenKind::KwLoop {
                SpecNodeKind::Loop(body)
            } else if toks[0].kind == SpecTokenKind::KwIf {
                SpecNodeKind::If(body)
            } else {
                SpecNodeKind::Function(toks[0].kind->Symbol_0, Seq::empty(), body)
            };
            &&& parse(toks) == seq![SpecNode { kind, start: toks[0].start, end: toks.last().end }]
            &&& !parse_stalls(toks)
        }),
{
    let e = toks.len() - 1;
    if h + 1 < e {
        lemma_items_alone(toks, h + 1, e);
    }
    assert(single_nodes(toks, e, e) =~= Seq::<SpecNode>::empty());
    assert(parse_top(toks, toks.len() as int) == (Seq::<SpecNode>::empty(), false));
}


// ---------------------------------------------------------------------------
// What each node does
// ---------------------------------------------------------------------------

/// What running one node does to the machine (`st` is the current stack,
/// `fs` the current functions):
/// - a literal pushes its value and changes nothing else;
/// - a decimal literal changes nothing and asks for its number;
/// - `if` pops a `true` and runs its body next, pops a `false` and goes on,
///   and fails on anything else;
/// - a definition binds a new name in the current scope, and fails on a
///   name already bound, changing nothing;
/// - an unknown name fails, changing nothing;
/// - `loop` runs its body next, on the same stack;
/// - an error node is reported.
#[verifier::spinoff_prover]
pub proof fn law_node_effects(m: MachineModel, n: SpecNode)
    requires
        m.scopes.len() > 0,
    ensures
        ({
            let (r, ev) = run_node(m, n);
            let st = cur(m).stack;
            let fs = cur(m).funcs;
            let at = Span { start: n.start as usize, end: n.end as usize };
            let only_stack = |v: SpecValue|
                r.frames == m.frames && r.scopes.len() == m.scopes.len() && r.scopes.drop_last()
                    == m.scopes.drop_last() && cur(r) == (ScopeModel { stack: st.push(v), funcs: fs })
                    && ev == SpecEvent::Continue;
            &&& n.kind matches SpecNodeKind::Int(v) ==> only_stack(SpecValue::Int(v as i32))
            &&& n.kind matches SpecNodeKind::String(t) ==> only_stack(SpecValue::String(t))
            &&& n.kind matches SpecNodeKind::Bool(b) ==> only_stack(SpecValue::Bool(b))
            &&& n.kind matches SpecNodeKind::Stack(vs) ==> only_stack(SpecValue::Stack(vs))
            &&& n.kind matches SpecNodeKind::Number(t) ==> r == m && ev == SpecEvent::Number(t, at)
            &&& n.kind matches SpecNodeKind::If(body) ==> {
                &&& st.len() > 0 && st.last() == SpecValue::Bool(true) ==> r.frames == m.frames.push(
                    FrameModel { body, index: 0, kind: FrameKind::If },
                ) && cur(r).stack == st.drop_last() && cur(r).funcs == fs && ev
                    == SpecEvent::Continue
                &&& st.len() > 0 && st.last() == SpecValue::Bool(false) ==> r.frames == m.frames
                    && cur(r).stack == st.drop_last() && cur(r).funcs == fs && ev
                    == SpecEvent::Continue
                &&& !(st.len() > 0 && st.last() is Bool) ==> r.frames == m.frames && ev
                    == SpecEvent::Error(at, "If expects parameters: (bool)"@)
            }
            &&& n.kind matches SpecNodeKind::Function(name, params, body) ==> {
                &&& !fs.dom().contains(name) ==> r.frames == m.frames && cur(r).stack == st
                    && cur(r).funcs == fs.insert(name, SpecFunction::Runtime(params, body))
                    && cur(r).funcs.dom() == fs.dom().insert(name) && ev == SpecEvent::Continue
                &&& fs.dom().contains(name) ==> r == m && ev == SpecEvent::Error(
                    at,
                    "Cannot redefine existing function '"@ + name + "'"@,
                )
            }
            &&& n.kind matches SpecNodeKind::Instruction(name) ==> (!fs.dom().contains(name) ==> r
                == m && ev == SpecEvent::Error(at, "Function not found"@))
            &&& n.kind matches SpecNodeKind::Loop(body) ==> r.scopes == m.scopes && r.frames
                == m.frames.push(FrameModel { body, index: 0, kind: FrameKind::Loop }) && ev
                == SpecEvent::Continue
            &&& n.kind is Error ==> r == m && ev == SpecEvent::ErrorNode(at)
        }),
{
    let st = cur(m).stack;
    let r = run_node(m, n).0;
    if n.kind is Int || n.kind is String || n.kind is Bool || n.kind is Stack {
        assert(r.scopes.drop_last() =~= m.scopes.drop_last());
    }
    if n.kind is Function {
        assert(cur(r).funcs.dom() =~= cur(m).funcs.dom().insert(n.kind->Function_0));
    }
}


// ---------------------------------------------------------------------------
// Numbers written out
// ---------------------------------------------------------------------------

/// Writing a number in decimal and reading it back as a literal gives the
/// number: the text is digits only, with no leading zero but for zero
/// itself, and an integer's text has a minus sign exactly when it is
/// negative.
pub proof fn law_decimal_round_trip(n: nat, i: int)
    ensures
        digits_value(decimal_text(n)) == n,
        forall|k: int| 0 <= k < decimal_text(n).len() ==> is_digit(#[trigger] decimal_text(n)[k]),
        decimal_text(n).len() > 0,
        n > 0 ==> decimal_text(n)[0] != '0',
        int_literal_value(int_text(i)) == i,
        (int_text(i)[0] == '-') <==> i < 0,
    decreases n,
{
    lemma_decimal_value(n);
    if n < 10 {
        lemma_digit_char(n);
        assert(seq![digit_char(n)].drop_last() =~= Seq::<char>::empty());
    } else {
        lemma_digit_char(n % 10);
        law_decimal_round_trip(n / 10, i);
        let q = decimal_text(n / 10);
        assert(decimal_text(n).drop_last() =~= q);
        assert(decimal_text(n)[0] == q[0]);
        assert forall|k: int| 0 <= k < decimal_text(n).len() implies is_digit(
            #[trigger] decimal_text(n)[k],
        ) by {
            if k < q.len() {
                assert(decimal_text(n)[k] == q[k]);
            }
        }
    }
    lemma_int_text(i);
}

proof fn lemma_int_text(i: int)
    ensures
        int_literal_value(int_text(i)) == i,
        (int_text(i)[0] == '-') <==> i < 0,
{
    if i < 0 {
        let m = (-i) as nat;
        lemma_decimal_value(m);
        assert((seq!['-'] + decimal_text(m)).drop_first() =~= decimal_text(m));
    } else {
        lemma_decimal_value(i as nat);
    }
}

proof fn lemma_decimal_value(n: nat)
    ensures
        digits_value(decimal_text(n)) == n,
        decimal_text(n).len() > 0,
        is_digit(decimal_text(n)[0]),
    decreases n,
{
    let t = decimal_text(n);
    if n < 10 {
        lemma_digit_char(n);
        assert(t.drop_last() =~= Seq::<char>::empty());
        assert(digits_value(t) == digits_value(t.drop_last()) * 10 + (t.last() as u32 - '0' as u32));
    } else {
        lemma_decimal_value(n / 10);
        lemma_digit_char(n % 10);
        assert(t.drop_last() =~= decimal_text(n / 10));
        assert(t[0] == decimal_text(n / 10)[0]);
        assert(t.last() == digit_char(n % 10));
        assert(digits_value(t) == digits_value(t.drop_last()) * 10 + (t.last() as u32 - '0' as u32));
        assert(n == (n / 10) * 10 + n % 10);
    }
}

proof fn lemma_digit_char(d: nat)
    requires
        d < 10,
    ensures
        digit_char(d) as u32 == '0' as u32 + d,
        is_digit(digit_char(d)),
{
}

// ---------------------------------------------------------------------------
// Lines
// ---------------------------------------------------------------------------

/// The line around position `i` of `f` runs from just after the last
/// newline before `i` (or the start) to just after the first newline at or
/// after `i` (or the end), and holds no other newline.
pub proof fn law_line_bounds(f: Seq<char>, i: int)
    requires
        0 <= i <= f.len(),
    ensures
        0 <= line_start(f, i) <= i,
        line_start(f, i) == 0 || f[line_start(f, i) - 1] == '\n',
        forall|k: int| line_start(f, i) <= k < i ==> #[trigger] f[k] != '\n',
        i <= line_end(f, i) <= f.len(),
        line_end(f, i) == f.len() || f[line_end(f, i) - 1] == '\n',
        forall|k: int| i <= k < line_end(f, i) - 1 ==> #[trigger] f[k] != '\n',
    decreases f.len() - i,
{
    lemma_line_start_bounds(f, i);
    if i < f.len() && f[i] != '\n' {
        law_line_bounds(f, i + 1);
    }
}

proof fn lemma_line_start_bounds(f: Seq<char>, i: int)
    requires
        0 <= i <= f.len(),
    ensures
        0 <= line_start(f, i) <= i,
        line_start(f, i) == 0 || f[line_start(f, i) - 1] == '\n',
        forall|k: int| line_start(f, i) <= k < i ==> #[trigger] f[k] != '\n',
    decreases i,
{
    if i > 0 && f[i - 1] != '\n' {
        lemma_line_start_bounds(f, i - 1);
    }
}


/// How a section is drawn: a source line is its number right-aligned in
/// `w` columns (spaces, then the digits), ` | `, and the line itself; the
/// line under it is `w` spaces and ` | `, then, when some character is
/// marked, `b` spaces and `mk` carets.
pub proof fn law_drawn_lines(line: Seq<char>, no: nat, w: nat, b: nat, mk: nat)
    requires
        decimal_width(no) <= w,
    ensures
        ({
            let d = drawn_line(line, no, w);
            let k = decimal_width(no);
            &&& d.len() == w + 3int + line.len()
            &&& forall|i: int| 0 <= i < w - k as int ==> #[trigger] d[i] == ' '
            &&& d.subrange(w - k as int, w as int) == decimal_text(no)
            &&& d.subrange(w as int, w + 3int) == seq![' ', '|', ' ']
            &&& d.skip(w + 3int) == line
        }),
        ({
            let e = drawn_marks(w, b, mk);
            &&& forall|i: int| 0 <= i < w ==> #[trigger] e[i] == ' '
            &&& e.subrange(w as int, w + 3int) == seq![' ', '|', ' ']
            &&& mk == 0 ==> e.len() == w + 3int
            &&& mk > 0 ==> e.len() == w + 3int + b + mk && (forall|i: int|
                w + 3int <= i < w + 3int + b ==> #[trigger] e[i] == ' ') && (forall|i: int|
                w + 3int + b <= i < e.len() ==> #[trigger] e[i] == '^')
        }),
{
    reveal_strlit(" | ");
    lemma_decimal_text_len(no);
    let d = drawn_line(line, no, w);
    let k = decimal_width(no);
    let p = pad_left(decimal_text(no), w);
    if k < w {
        assert(p.subrange(w - k as int, w as int) =~= decimal_text(no));
    } else {
        assert(p =~= decimal_text(no));
    }
    assert(d.subrange(w - k as int, w as int) =~= p.subrange(w - k as int, w as int));
    assert forall|i: int| 0 <= i < w - k as int implies #[trigger] d[i] == ' ' by {
        assert(d[i] == p[i]);
    }
    assert(d.subrange(w as int, w + 3int) =~= seq![' ', '|', ' ']);
    assert(d.skip(w + 3int) =~= line);
    let e = drawn_marks(w, b, mk);
    assert(e.subrange(w as int, w + 3int) =~= seq![' ', '|', ' ']);
}


/// A `with` block on a stack value: the value is popped, and the body runs
/// on that stack in a scope of its own that sees the current functions; on
/// anything else it fails, changing nothing.
#[verifier::spinoff_prover]
pub proof fn law_with_starts(m: MachineModel, n: SpecNode)
    requires
        m.scopes.len() > 0,
        n.kind is With,
    ensures
        ({
            let (r, ev) = run_node(m, n);
            let st = cur(m).stack;
            let fs = cur(m).funcs;
            &&& st.len() > 0 && st.last() is Stack ==> {
                &&& r.frames == m.frames.push(
                    FrameModel { body: n.kind->With_0, index: 0, kind: FrameKind::With },
                )
                &&& r.scopes.len() == m.scopes.len() + 1
                &&& r.scopes[m.scopes.len() - 1] == (ScopeModel { stack: st.drop_last(), funcs: fs })
                &&& cur(r) == (ScopeModel { stack: st.last()->Stack_0, funcs: fs })
                &&& ev == SpecEvent::Continue
            }
            &&& !(st.len() > 0 && st.last() is Stack) ==> r == m && ev is Error
        }),
{
    let st = cur(m).stack;
    if st.len() > 0 && st.last() is Stack {
        assert(crate::runtime::type_of(st[st.len() - 1 + 0]) == ValueType::Stack);
    } else if st.len() > 0 {
        assert(!satisfies(crate::runtime::type_of(st[st.len() - 1 + 0]), ValueType::Stack));
    }
}

} // verus!
