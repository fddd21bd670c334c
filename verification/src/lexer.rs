use vstd::prelude::*;
use vstd::string::StringSliceAdditionalSpecFns;

use crate::error::LexError;
use crate::text::chars_of;
use crate::text::copy_run;
use crate::token::keyword;
use crate::token::keyword_of;
use crate::token::Token;
use crate::token::TokenType;

verus! {

broadcast use vstd::slice::group_slice_axioms;

/// True of the bytes that may form an identifier: ASCII letters and the
/// underscore.
pub open spec fn is_letter_byte(ch: u8) -> bool {
    (('a' as u8) <= ch && ch <= ('z' as u8)) || (('A' as u8) <= ch && ch <= ('Z' as u8)) || ch == ('_' as u8)
}

/// True of the bytes the scanner skips between tokens: space, tab, newline
/// and carriage return.
pub open spec fn is_whitespace_byte(ch: u8) -> bool {
    ch == (' ' as u8) || ch == ('\t' as u8) || ch == ('\n' as u8) || ch == ('\r' as u8)
}

/// The first position at or after `i` that does not hold a whitespace byte;
/// the buffer length when only whitespace remains.
pub open spec fn skip_ws_from(b: Seq<u8>, i: int) -> int
    decreases b.len() - i,
{
    if 0 <= i < b.len() && is_whitespace_byte(b[i]) {
        skip_ws_from(b, i + 1)
    } else {
        i
    }
}

/// The end of the identifier run that starts at `i`: the first position at
/// or after `i` that does not hold a letter byte.
pub open spec fn ident_end(b: Seq<u8>, i: int) -> int
    decreases b.len() - i,
{
    if 0 <= i < b.len() && is_letter_byte(b[i]) {
        ident_end(b, i + 1)
    } else {
        i
    }
}

/// Where the whitespace scan stops: never before `i`, never past the buffer,
/// always on a byte that is not whitespace, and only whitespace lies behind.
pub proof fn lemma_skip_ws_bounds(b: Seq<u8>, i: int)
    requires
        0 <= i <= b.len(),
    ensures
        i <= skip_ws_from(b, i) <= b.len(),
        forall|j: int| i <= j < skip_ws_from(b, i) ==> is_whitespace_byte(b[j]),
        skip_ws_from(b, i) < b.len() ==> !is_whitespace_byte(b[skip_ws_from(b, i)]),
    decreases b.len() - i,
{
    if i < b.len() && is_whitespace_byte(b[i]) {
        lemma_skip_ws_bounds(b, i + 1);
    }
}

/// Where the identifier scan stops: never before `i`, never past the buffer,
/// always on a byte that is not a letter, and only letters lie behind.
pub proof fn lemma_ident_end_bounds(b: Seq<u8>, i: int)
    requires
        0 <= i <= b.len(),
    ensures
        i <= ident_end(b, i) <= b.len(),
        forall|j: int| i <= j < ident_end(b, i) ==> is_letter_byte(b[j]),
        ident_end(b, i) < b.len() ==> !is_letter_byte(b[ident_end(b, i)]),
    decreases b.len() - i,
{
    if i < b.len() && is_letter_byte(b[i]) {
        lemma_ident_end_bounds(b, i + 1);
    }
}

/// A block of letters from `i` up to `n`, closed off by the buffer end or by
/// a non-letter byte, is exactly the identifier run that starts at `i`.
pub proof fn lemma_ident_end_of_run(b: Seq<u8>, i: int, n: int)
    requires
        0 <= i <= n <= b.len(),
        forall|j: int| i <= j < n ==> is_letter_byte(b[j]),
        n < b.len() ==> !is_letter_byte(b[n]),
    ensures
        ident_end(b, i) == n,
    decreases n - i,
{
    if i < n {
        lemma_ident_end_of_run(b, i + 1, n);
    }
}

/// Decides whether a byte may be part of an identifier.
pub fn is_letter(ch: u8) -> (r: bool)
    ensures
        r == is_letter_byte(ch),
{
    ('a' as u8) <= ch && ch <= ('z' as u8) || ('A' as u8) <= ch && ch <= ('Z' as u8) || ch == ('_' as u8)
}

/// The scanner: a cursor over a borrowed input buffer.
///
/// `position` indexes the current byte, `read_position` the next byte to
/// read, and `ch` caches the byte at `position` — or the sentinel 0 once the
/// buffer is exhausted.
pub struct Lexer<'l> {
    pub input: &'l str,
    pub position: usize,
    pub read_position: usize,
    pub ch: u8,
}

impl<'l> Lexer<'l> {
    /// The input buffer as the byte sequence the cursor walks.
    pub open spec fn bytes(self) -> Seq<u8> {
        self.input.spec_bytes()
    }

    /// Cursor well-formedness: `read_position` runs one ahead of `position`
    /// after every completed advance; `ch` caches the byte at `position`
    /// while one remains, and holds the sentinel once `position` has reached
    /// the buffer length. (Only a buffer of `usize::MAX` bytes — which no
    /// `str` can reach, though no fact here bounds it — would leave no room
    /// for the final `read_position`; the advance then parks both indices at
    /// the length.)
    pub open spec fn wf(self) -> bool {
        if self.position < self.bytes().len() {
            &&& self.read_position == self.position + 1
            &&& self.ch == self.bytes()[self.position as int]
        } else {
            &&& self.position == self.bytes().len()
            &&& if self.position < usize::MAX {
                self.read_position == self.position + 1
            } else {
                self.read_position == self.position
            }
            &&& self.ch == 0
        }
    }

    /// True once the cursor has passed the last byte: the terminal state,
    /// from which every further advance is a no-op.
    pub open spec fn at_end(self) -> bool {
        self.position >= self.bytes().len()
    }

    /// Opens a scan session over `input`, with the cursor on the first byte.
    pub fn new(input: &'l str) -> (l: Lexer<'l>)
        ensures
            l.wf(),
            l.input@ == input@,
            l.position == 0,
    {
        let mut lexer = Lexer { input, position: 0, read_position: 0, ch: ('0' as u8) };
        lexer.read_char();
        lexer
    }

    /// What one advance does: relates the cursor before the call to the
    /// cursor after it, whatever state the cursor was in. A read within the
    /// buffer, and the read that exhausts it, both step `position` to
    /// `read_position` and `read_position` one further; any later advance is
    /// a no-op beyond caching the sentinel.
    pub open spec fn read_char_post(pre: Lexer<'l>, post: Lexer<'l>) -> bool {
        &&& post.input@ == pre.input@
        &&& pre.read_position < pre.bytes().len() ==> {
            &&& post.ch == pre.bytes()[pre.read_position as int]
            &&& post.position == pre.read_position
            &&& post.read_position == pre.read_position + 1
        }
        &&& pre.read_position == pre.bytes().len() ==> {
            &&& post.ch == 0
            &&& post.position == pre.read_position
            &&& pre.read_position < usize::MAX ==> post.read_position == pre.read_position + 1
            &&& pre.read_position == usize::MAX ==> post.read_position == pre.read_position
        }
        &&& pre.read_position > pre.bytes().len() ==> {
            &&& post.ch == 0
            &&& post.position == pre.position
            &&& post.read_position == pre.read_position
        }
    }

    /// Advances the cursor one byte, caching the byte it lands on. The read
    /// that exhausts the buffer caches the sentinel and leaves
    /// `read_position` one past the buffer length; every further call is a
    /// no-op.
    pub fn read_char(&mut self)
        ensures
            Lexer::read_char_post(*old(self), *final(self)),
    {
        let bytes = self.input.as_bytes();
        if self.read_position < bytes.len() {
            self.ch = bytes[self.read_position];
            self.position = self.read_position;
            self.read_position = self.read_position + 1;
        } else if self.read_position == bytes.len() {
            self.ch = 0;
            self.position = self.read_position;
            if self.read_position < usize::MAX {
                self.read_position = self.read_position + 1;
            }
        } else {
            self.ch = 0;
        }
    }

    /// Advances while the current byte is whitespace, stopping on the first
    /// other byte or at the end of the buffer.
    pub fn skip_whitespace(&mut self)
        requires
            old(self).wf(),
        ensures
            final(self).wf(),
            final(self).input@ == old(self).input@,
            final(self).position == skip_ws_from(old(self).bytes(), old(self).position as int),
    {
        let ghost b = self.bytes();
        let ghost iv = self.input@;
        let ghost p0 = self.position as int;
        while self.ch == (' ' as u8) || self.ch == ('\t' as u8) || self.ch == ('\n' as u8) || self.ch == ('\r' as u8)
            invariant
                self.wf(),
                self.input@ == iv,
                self.bytes() == b,
                skip_ws_from(b, self.position as int) == skip_ws_from(b, p0),
            decreases b.len() - self.position,
        {
            self.read_char();
        }
    }

    /// Reads the maximal run of identifier bytes at the cursor and returns
    /// it as an owned string; signals `EmptyIdentifier` when no identifier
    /// byte is available, so a caller never mistakes an empty run for a
    /// token.
    pub fn read_identifier(&mut self) -> (r: Result<String, LexError>)
        requires
            old(self).wf(),
        ensures
            final(self).wf(),
            final(self).input@ == old(self).input@,
            final(self).position == ident_end(old(self).bytes(), old(self).position as int),
            ({
                let b = old(self).bytes();
                let start = old(self).position as int;
                let end = ident_end(b, start);
                match r {
                    Ok(s) => start < end && s@ == chars_of(b.subrange(start, end)),
                    Err(e) => start == end && e == LexError::EmptyIdentifier,
                }
            }),
    {
        let ghost b = self.bytes();
        let ghost iv = self.input@;
        let position = self.position;
        while is_letter(self.ch)
            invariant
                self.wf(),
                self.input@ == iv,
                self.bytes() == b,
                position <= self.position,
                ident_end(b, self.position as int) == ident_end(b, position as int),
                forall|j: int| position <= j < self.position ==> is_letter_byte(b[j]),
            decreases b.len() - self.position,
        {
            self.read_char();
        }
        if self.position == position {
            return Err(LexError::EmptyIdentifier);
        }
        let literal = copy_run(self.input, position, self.position);
        Ok(literal)
    }

    /// What one `token()` call does: relates the scanner before the call,
    /// the scanner after it, and the result handed back.
    pub open spec fn token_post(pre: Lexer<'l>, post: Lexer<'l>, r: Result<
        Token,
        LexError,
    >) -> bool {
        &&& post.wf()
        &&& post.input@ == pre.input@
        &&& ({
            let b = pre.bytes();
            let start = skip_ws_from(b, pre.position as int);
            if start == b.len() {
                &&& post.position == b.len()
                &&& r matches Ok(t) && t.token_type == TokenType::EndOfInput
                    && t.literal@ == Seq::<char>::empty()
            } else if !is_letter_byte(b[start]) {
                &&& post.position == start
                &&& r matches Err(e) && e == LexError::EmptyIdentifier
            } else {
                let end = ident_end(b, start);
                let lit = chars_of(b.subrange(start, end));
                &&& post.position == end
                &&& match keyword_of(lit) {
                    Some(t) => r matches Ok(tok) && tok.token_type == t && tok.literal@ == lit,
                    None => r matches Err(e) && e matches LexError::UnrecognizedKeyword(w)
                        && w@ == lit,
                }
            }
        })
    }

    /// Produces the next token: skips whitespace, reads an identifier run,
    /// and classifies it against the keyword table. At the end of the input
    /// it returns the end-of-input token rather than an error, on every
    /// call; failures of identifier reading and of classification are
    /// propagated unchanged.
    pub fn token(&mut self) -> (r: Result<Token, LexError>)
        requires
            old(self).wf(),
        ensures
            Lexer::token_post(*old(self), *final(self), r),
    {
        self.skip_whitespace();
        let bytes = self.input.as_bytes();
        if self.position >= bytes.len() {
            return Ok(Token { literal: String::new(), token_type: TokenType::EndOfInput });
        }
        proof {
            lemma_ident_end_bounds(self.bytes(), self.position as int);
        }
        let literal = match self.read_identifier() {
            Ok(l) => l,
            Err(e) => {
                return Err(e);
            },
        };
        let token_type = match keyword(literal.as_str()) {
            Ok(t) => t,
            Err(e) => {
                return Err(e);
            },
        };
        Ok(Token { literal, token_type })
    }
}

} // verus!
