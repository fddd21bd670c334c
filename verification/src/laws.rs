use vstd::prelude::*;

use crate::error::LexError;
use crate::lexer::ident_end;
use crate::lexer::is_letter_byte;
use crate::lexer::is_whitespace_byte;
use crate::lexer::lemma_ident_end_bounds;
use crate::lexer::lemma_ident_end_of_run;
use crate::lexer::lemma_skip_ws_bounds;
use crate::lexer::skip_ws_from;
use crate::lexer::Lexer;
use crate::text::chars_of;
use crate::token::keyword_of;
use crate::token::Token;
use crate::token::TokenType;

verus! {

/// An input that is one unbroken word of identifier bytes matching a known
/// keyword scans, from the start of the buffer, to a token whose literal is
/// the whole input and whose kind is the table's entry for it, and leaves
/// the scanner at the end of the buffer.
pub proof fn lemma_keyword_input_yields_its_token<'l>(
    pre: Lexer<'l>,
    post: Lexer<'l>,
    r: Result<Token, LexError>,
)
    requires
        pre.wf(),
        pre.position == 0,
        pre.bytes().len() > 0,
        forall|i: int| 0 <= i < pre.bytes().len() ==> is_letter_byte(#[trigger] pre.bytes()[i]),
        keyword_of(chars_of(pre.bytes())) is Some,
        Lexer::token_post(pre, post, r),
    ensures
        r matches Ok(t) && t.literal@ == chars_of(pre.bytes()) && Some(t.token_type)
            == keyword_of(chars_of(pre.bytes())),
        post.at_end(),
{
    let b = pre.bytes();
    assert(skip_ws_from(b, 0) == 0);
    lemma_ident_end_of_run(b, 0, b.len() as int);
    assert(b.subrange(0, b.len() as int) =~= b);
}

/// Once the buffer is exhausted, `token()` returns the end-of-input marker —
/// never an error — and the scanner stays at the end. In particular the call
/// after the one that consumed a lone keyword yields the marker.
pub proof fn lemma_token_at_end_is_end_marker<'l>(
    pre: Lexer<'l>,
    post: Lexer<'l>,
    r: Result<Token, LexError>,
)
    requires
        pre.wf(),
        pre.at_end(),
        Lexer::token_post(pre, post, r),
    ensures
        r matches Ok(t) && t.token_type == TokenType::EndOfInput && t.literal@
            == Seq::<char>::empty(),
        post.at_end(),
{
}

/// An input that begins with an unrecognized word makes `token()` fail with
/// `UnrecognizedKeyword` carrying exactly that word.
pub proof fn lemma_unrecognized_first_word_fails<'l>(
    pre: Lexer<'l>,
    post: Lexer<'l>,
    r: Result<Token, LexError>,
    n: int,
)
    requires
        pre.wf(),
        pre.position == 0,
        0 < n <= pre.bytes().len(),
        forall|i: int| 0 <= i < n ==> is_letter_byte(#[trigger] pre.bytes()[i]),
        n < pre.bytes().len() ==> !is_letter_byte(pre.bytes()[n]),
        keyword_of(chars_of(pre.bytes().subrange(0, n))) is None,
        Lexer::token_post(pre, post, r),
    ensures
        r matches Err(e) && e matches LexError::UnrecognizedKeyword(w) && w@ == chars_of(
            pre.bytes().subrange(0, n),
        ),
{
    let b = pre.bytes();
    assert(skip_ws_from(b, 0) == 0);
    lemma_ident_end_of_run(b, 0, n);
}

/// A buffer holding only whitespace ahead of the cursor scans to the
/// end-of-input marker, without error.
pub proof fn lemma_whitespace_only_scans_to_end<'l>(
    pre: Lexer<'l>,
    post: Lexer<'l>,
    r: Result<Token, LexError>,
)
    requires
        pre.wf(),
        forall|i: int|
            pre.position <= i < pre.bytes().len() ==> is_whitespace_byte(
                #[trigger] pre.bytes()[i],
            ),
        Lexer::token_post(pre, post, r),
    ensures
        r matches Ok(t) && t.token_type == TokenType::EndOfInput && t.literal@
            == Seq::<char>::empty(),
        post.at_end(),
{
    lemma_skip_ws_bounds(pre.bytes(), pre.position as int);
}

/// Whitespace never stands inside a returned literal: every character of
/// every token `token()` hands back reads, as a byte, as a letter or an
/// underscore — the end-of-input marker's literal being empty.
pub proof fn lemma_literal_free_of_whitespace<'l>(pre: Lexer<'l>, post: Lexer<'l>, t: Token)
    requires
        pre.wf(),
        Lexer::token_post(pre, post, Ok(t)),
    ensures
        forall|i: int|
            0 <= i < t.literal@.len() ==> is_letter_byte(#[trigger] t.literal@[i] as u8),
        forall|i: int|
            0 <= i < t.literal@.len() ==> !is_whitespace_byte(#[trigger] t.literal@[i] as u8),
{
    let b = pre.bytes();
    let start = skip_ws_from(b, pre.position as int);
    if start == b.len() {
    } else if !is_letter_byte(b[start]) {
        assert(false);
    } else {
        lemma_skip_ws_bounds(b, pre.position as int);
        lemma_ident_end_bounds(b, start);
        let end = ident_end(b, start);
        let run = b.subrange(start, end);
        assert forall|i: int| 0 <= i < t.literal@.len() implies is_letter_byte(
            #[trigger] t.literal@[i] as u8,
        ) by {
            assert(is_letter_byte(run[i]));
            assert(t.literal@[i] == run[i] as char);
        };
    }
}

/// Advancing past the end of the buffer is idempotent: at the end of the
/// input an advance leaves the whole cursor state unchanged — so any number
/// of repeated advances does too — and never reads out of bounds.
pub proof fn lemma_advance_past_end_is_idempotent<'l>(pre: Lexer<'l>, post: Lexer<'l>)
    requires
        pre.wf(),
        pre.at_end(),
        Lexer::read_char_post(pre, post),
    ensures
        post.position == pre.position,
        post.read_position == pre.read_position,
        post.ch == pre.ch,
        post.input@ == pre.input@,
        post.wf(),
        post.at_end(),
{
}

/// A word: a non-empty run of identifier bytes.
pub open spec fn is_word(w: Seq<u8>) -> bool {
    w.len() > 0 && forall|j: int| 0 <= j < w.len() ==> is_letter_byte(#[trigger] w[j])
}

/// The words of the buffer from position `i` on: the literals, as bytes,
/// that successive `token()` calls consume, up to where scanning stops —
/// the buffer's end or a byte no identifier may hold.
pub open spec fn runs_from(b: Seq<u8>, i: int) -> Seq<Seq<u8>>
    decreases b.len() - i
        when 0 <= i <= b.len()
{
    let start = skip_ws_from(b, i);
    if start >= b.len() || !is_letter_byte(b[start]) {
        seq![]
    } else {
        proof {
            lemma_skip_ws_bounds(b, i);
            lemma_ident_end_bounds(b, start);
        }
        seq![b.subrange(start, ident_end(b, start))] + runs_from(b, ident_end(b, start))
    }
}

/// Words joined back into one buffer, separated by single spaces.
pub open spec fn join_spaced(ws: Seq<Seq<u8>>) -> Seq<u8>
    decreases ws.len(),
{
    if ws.len() == 0 {
        seq![]
    } else if ws.len() == 1 {
        ws[0]
    } else {
        ws[0] + seq![(' ' as u8)] + join_spaced(ws.drop_first())
    }
}

/// Every word the scanner produces is non-empty and holds identifier bytes
/// only.
pub proof fn lemma_runs_are_words(b: Seq<u8>, i: int)
    requires
        0 <= i <= b.len(),
    ensures
        forall|k: int|
            0 <= k < runs_from(b, i).len() ==> is_word(#[trigger] runs_from(b, i)[k]),
    decreases b.len() - i,
{
    lemma_skip_ws_bounds(b, i);
    let start = skip_ws_from(b, i);
    if start < b.len() && is_letter_byte(b[start]) {
        lemma_ident_end_bounds(b, start);
        let end = ident_end(b, start);
        lemma_runs_are_words(b, end);
        assert(is_word(b.subrange(start, end)));
        assert forall|k: int| 0 <= k < runs_from(b, i).len() implies is_word(
            #[trigger] runs_from(b, i)[k],
        ) by {
            if k > 0 {
                assert(runs_from(b, i)[k] == runs_from(b, end)[k - 1]);
            }
        };
    }
}

/// Scanning a buffer that spells given words, single-space-separated,
/// starting at `i`, yields exactly those words.
proof fn lemma_scan_of_joined_at(b: Seq<u8>, i: int, ws: Seq<Seq<u8>>)
    requires
        0 <= i <= b.len(),
        b.subrange(i, b.len() as int) == join_spaced(ws),
        forall|k: int| 0 <= k < ws.len() ==> is_word(#[trigger] ws[k]),
    ensures
        runs_from(b, i) == ws,
    decreases ws.len(),
{
    let n = b.len() as int;
    let suf = b.subrange(i, n);
    assert(suf.len() == n - i);
    if ws.len() == 0 {
        assert(join_spaced(ws) =~= Seq::<u8>::empty());
        assert(i == n);
        assert(runs_from(b, i) =~= ws);
    } else {
        let w0 = ws[0];
        let m = w0.len() as int;
        assert(is_word(w0));
        if ws.len() == 1 {
            assert(suf == w0);
            assert(i + m == n);
            assert forall|j: int| i <= j < i + m implies is_letter_byte(#[trigger] b[j]) by {
                assert(suf[j - i] == b[j]);
                assert(suf[j - i] == w0[j - i]);
                assert(is_letter_byte(w0[j - i]));
            };
            assert(skip_ws_from(b, i) == i);
            lemma_ident_end_of_run(b, i, i + m);
            assert(b.subrange(i, i + m) =~= w0);
            assert(runs_from(b, i + m) =~= Seq::<Seq<u8>>::empty());
            assert(runs_from(b, i) =~= ws);
        } else {
            let rest = ws.drop_first();
            let jr = join_spaced(rest);
            let sp = seq![(' ' as u8)];
            assert(suf == w0 + sp + jr);
            assert(rest[0] == ws[1] && is_word(rest[0]));
            assert(jr.len() >= rest[0].len()) by {
                if rest.len() == 1 {
                    assert(jr == rest[0]);
                } else {
                    assert(jr == rest[0] + sp + join_spaced(rest.drop_first()));
                }
            };
            assert(n - i == m + 1 + jr.len());
            assert forall|j: int| i <= j < i + m implies is_letter_byte(#[trigger] b[j]) by {
                assert(suf[j - i] == b[j]);
                assert(suf[j - i] == (w0 + sp)[j - i]);
                assert((w0 + sp)[j - i] == w0[j - i]);
                assert(is_letter_byte(w0[j - i]));
            };
            assert(skip_ws_from(b, i) == i);
            assert(b[i + m] == suf[m] && suf[m] == (w0 + sp)[m] && (w0 + sp)[m] == (
            ' ' as u8));
            lemma_ident_end_of_run(b, i, i + m);
            assert(b.subrange(i, i + m) =~= w0);
            assert forall|k: int| 0 <= k < jr.len() implies b[i + m + 1 + k] == jr[k] by {
                assert(suf[m + 1 + k] == b[i + m + 1 + k]);
                assert(suf[m + 1 + k] == jr[k]);
            };
            assert(b.subrange(i + m + 1, n) =~= jr);
            lemma_scan_of_joined_at(b, i + m + 1, rest);
            assert(b[i + m + 1] == jr[0]);
            assert(jr[0] == rest[0][0]) by {
                if rest.len() == 1 {
                    assert(jr == rest[0]);
                } else {
                    assert(jr == rest[0] + sp + join_spaced(rest.drop_first()));
                }
            };
            assert(is_letter_byte(b[i + m + 1]));
            assert(skip_ws_from(b, i + m) == skip_ws_from(b, i + m + 1));
            assert(skip_ws_from(b, i + m + 1) == i + m + 1);
            assert(runs_from(b, i + m) =~= runs_from(b, i + m + 1));
            assert(runs_from(b, i) =~= ws);
        }
    }
}

/// Each keyword token consumes exactly the first word of the buffer's word
/// sequence and leaves the rest for the calls after it: collecting literals
/// by calling `token()` until the end-of-input marker walks `runs_from`
/// word by word.
pub proof fn lemma_token_consumes_first_word<'l>(pre: Lexer<'l>, post: Lexer<'l>, t: Token)
    requires
        pre.wf(),
        Lexer::token_post(pre, post, Ok(t)),
        t.token_type != TokenType::EndOfInput,
    ensures
        runs_from(pre.bytes(), pre.position as int).len() > 0,
        t.literal@ == chars_of(runs_from(pre.bytes(), pre.position as int)[0]),
        runs_from(post.bytes(), post.position as int) == runs_from(
            pre.bytes(),
            pre.position as int,
        ).drop_first(),
{
    let b = pre.bytes();
    let p = pre.position as int;
    let start = skip_ws_from(b, p);
    lemma_skip_ws_bounds(b, p);
    assert(start < b.len() && is_letter_byte(b[start]));
    let end = ident_end(b, start);
    assert(post.bytes() == b);
    assert(runs_from(b, p) == seq![b.subrange(start, end)] + runs_from(b, end));
    assert(runs_from(b, p).drop_first() =~= runs_from(b, end));
}

/// The end-of-input marker comes exactly when no word remains ahead of the
/// cursor, and the scanner then stands at the end of its buffer.
pub proof fn lemma_end_token_means_no_words<'l>(pre: Lexer<'l>, post: Lexer<'l>, t: Token)
    requires
        pre.wf(),
        Lexer::token_post(pre, post, Ok(t)),
        t.token_type == TokenType::EndOfInput,
    ensures
        runs_from(pre.bytes(), pre.position as int) == Seq::<Seq<u8>>::empty(),
        post.at_end(),
{
    let b = pre.bytes();
    let p = pre.position as int;
    lemma_skip_ws_bounds(b, p);
    assert(skip_ws_from(b, p) == b.len());
    assert(runs_from(b, p) =~= Seq::<Seq<u8>>::empty());
}

/// Skipping whitespace never stops inside a whitespace block: positions `i`
/// and `j` with only whitespace between them skip to the same place.
proof fn lemma_skip_ws_through(b: Seq<u8>, i: int, j: int)
    requires
        0 <= i <= j <= b.len(),
        forall|k: int| i <= k < j ==> is_whitespace_byte(#[trigger] b[k]),
    ensures
        skip_ws_from(b, i) == skip_ws_from(b, j),
    decreases j - i,
{
    if i < j {
        lemma_skip_ws_through(b, i + 1, j);
    }
}

/// In a padded buffer the whitespace scan tracks the bare one: from a
/// position inside `w` it stops where `w`'s own scan stops, or runs through
/// the trailing padding to the buffer's end when `w` holds only whitespace
/// from there on.
proof fn lemma_skip_ws_padded(ws1: Seq<u8>, w: Seq<u8>, ws2: Seq<u8>, i: int)
    requires
        0 <= i <= w.len(),
        forall|k: int| 0 <= k < ws2.len() ==> is_whitespace_byte(#[trigger] ws2[k]),
    ensures
        ({
            let b = ws1 + w + ws2;
            let s = skip_ws_from(w, i);
            if s < w.len() {
                skip_ws_from(b, ws1.len() + i) == ws1.len() + s
            } else {
                skip_ws_from(b, ws1.len() + i) == b.len()
            }
        }),
    decreases w.len() - i,
{
    let b = ws1 + w + ws2;
    let n1 = ws1.len() as int;
    let nw = w.len() as int;
    assert(b.len() == n1 + nw + ws2.len());
    if i < nw {
        assert(b[n1 + i] == (ws1 + w)[n1 + i] && (ws1 + w)[n1 + i] == w[i]);
        if is_whitespace_byte(w[i]) {
            lemma_skip_ws_padded(ws1, w, ws2, i + 1);
        }
    } else {
        assert forall|k: int| n1 + nw <= k < b.len() implies is_whitespace_byte(
            #[trigger] b[k],
        ) by {
            assert(b[k] == ws2[k - n1 - nw]);
        };
        lemma_skip_ws_bounds(b, n1 + nw);
    }
}

/// In a padded buffer an identifier run inside `w` ends exactly where it
/// ends in `w`: whitespace padding can neither feed nor cut a run of
/// letters.
proof fn lemma_ident_end_padded(ws1: Seq<u8>, w: Seq<u8>, ws2: Seq<u8>, i: int)
    requires
        0 <= i <= w.len(),
        forall|k: int| 0 <= k < ws2.len() ==> is_whitespace_byte(#[trigger] ws2[k]),
    ensures
        ident_end(ws1 + w + ws2, ws1.len() + i) == ws1.len() + ident_end(w, i),
    decreases w.len() - i,
{
    let b = ws1 + w + ws2;
    let n1 = ws1.len() as int;
    let nw = w.len() as int;
    assert(b.len() == n1 + nw + ws2.len());
    if i < nw {
        assert(b[n1 + i] == (ws1 + w)[n1 + i] && (ws1 + w)[n1 + i] == w[i]);
        if is_letter_byte(w[i]) {
            lemma_ident_end_padded(ws1, w, ws2, i + 1);
        }
    } else {
        if n1 + nw < b.len() {
            assert(b[n1 + nw] == ws2[0]);
            assert(is_whitespace_byte(ws2[0]));
        }
    }
}

/// From any position inside `w`, the padded buffer scans to exactly the
/// words the bare `w` scans to.
proof fn lemma_runs_padded_from(ws1: Seq<u8>, w: Seq<u8>, ws2: Seq<u8>, i: int)
    requires
        0 <= i <= w.len(),
        forall|k: int| 0 <= k < ws2.len() ==> is_whitespace_byte(#[trigger] ws2[k]),
    ensures
        runs_from(ws1 + w + ws2, ws1.len() + i) == runs_from(w, i),
    decreases w.len() - i,
{
    let b = ws1 + w + ws2;
    let n1 = ws1.len() as int;
    let nw = w.len() as int;
    assert(b.len() == n1 + nw + ws2.len());
    lemma_skip_ws_bounds(w, i);
    lemma_skip_ws_padded(ws1, w, ws2, i);
    let sw = skip_ws_from(w, i);
    if sw == nw {
        assert(runs_from(w, i) =~= Seq::<Seq<u8>>::empty());
        assert(runs_from(b, n1 + i) =~= Seq::<Seq<u8>>::empty());
    } else if !is_letter_byte(w[sw]) {
        assert(b[n1 + sw] == (ws1 + w)[n1 + sw] && (ws1 + w)[n1 + sw] == w[sw]);
        assert(runs_from(w, i) =~= Seq::<Seq<u8>>::empty());
        assert(runs_from(b, n1 + i) =~= Seq::<Seq<u8>>::empty());
    } else {
        assert(b[n1 + sw] == (ws1 + w)[n1 + sw] && (ws1 + w)[n1 + sw] == w[sw]);
        lemma_ident_end_bounds(w, sw);
        lemma_ident_end_padded(ws1, w, ws2, sw);
        let ew = ident_end(w, sw);
        assert forall|k: int| sw <= k < ew implies b[n1 + k] == w[k] by {
            assert(b[n1 + k] == (ws1 + w)[n1 + k]);
            assert((ws1 + w)[n1 + k] == w[k]);
        };
        assert(b.subrange(n1 + sw, n1 + ew) =~= w.subrange(sw, ew));
        lemma_runs_padded_from(ws1, w, ws2, ew);
        assert(runs_from(b, n1 + i) =~= runs_from(w, i));
    }
}

/// Surrounding whitespace never changes what is scanned: the words of
/// `ws1 + w + ws2`, with `ws1` and `ws2` whitespace-only, are exactly the
/// words of `w` — a padded buffer yields the same literals, in the same
/// order, as the bare one.
pub proof fn lemma_padding_preserves_words(ws1: Seq<u8>, w: Seq<u8>, ws2: Seq<u8>)
    requires
        forall|k: int| 0 <= k < ws1.len() ==> is_whitespace_byte(#[trigger] ws1[k]),
        forall|k: int| 0 <= k < ws2.len() ==> is_whitespace_byte(#[trigger] ws2[k]),
    ensures
        runs_from(ws1 + w + ws2, 0) == runs_from(w, 0),
{
    let b = ws1 + w + ws2;
    let n1 = ws1.len() as int;
    assert forall|k: int| 0 <= k < n1 implies is_whitespace_byte(#[trigger] b[k]) by {
        assert(b[k] == (ws1 + w)[k]);
        assert((ws1 + w)[k] == ws1[k]);
    };
    lemma_skip_ws_through(b, 0, n1);
    assert(runs_from(b, 0) =~= runs_from(b, n1));
    lemma_runs_padded_from(ws1, w, ws2, 0);
}

/// Round trip: joining the words of a buffer with single spaces and
/// scanning the result reproduces exactly those words, in order — the
/// rendering and the original buffer carry the same keyword occurrences,
/// differing only in whitespace.
pub proof fn lemma_round_trip(b: Seq<u8>, i: int)
    requires
        0 <= i <= b.len(),
    ensures
        runs_from(join_spaced(runs_from(b, i)), 0) == runs_from(b, i),
{
    let ws = runs_from(b, i);
    lemma_runs_are_words(b, i);
    let j = join_spaced(ws);
    assert(j.subrange(0, j.len() as int) =~= j);
    lemma_scan_of_joined_at(j, 0, ws);
}

} // verus!
