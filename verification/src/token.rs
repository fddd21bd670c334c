use vstd::prelude::*;
use vstd::string::StringSliceAdditionalSpecFns;
use vstd::utf8::encode_utf8_decode_utf8;

use crate::error::LexError;

verus! {

/// The closed set of token kinds: one variant per recognized keyword, plus
/// the explicit end-of-input marker. There is no generic identifier variant:
/// a word outside the keyword table is a scan failure, not a token.
#[derive(Debug, Clone, Copy, PartialEq, Eq, Structural)]
pub enum TokenType {
    /// The keyword `create`.
    Create,
    /// The marker returned once the input buffer is exhausted.
    EndOfInput,
}

/// A classified unit of lexical input: the exact source text matched, as an
/// owned string independent of the input buffer, and its kind.
#[derive(Debug, Clone, PartialEq, Eq)]
pub struct Token {
    pub literal: String,
    pub token_type: TokenType,
}

/// The keyword table: the fixed, case-sensitive mapping from the text of
/// each recognized keyword to its token kind.
pub open spec fn keyword_of(s: Seq<char>) -> Option<TokenType> {
    if s == "create"@ {
        Some(TokenType::Create)
    } else {
        None
    }
}

/// Compares two borrowed strings for character-for-character equality.
fn str_eq(a: &str, b: &str) -> (r: bool)
    ensures
        r == (a@ == b@),
{
    let ab = a.as_bytes();
    let bb = b.as_bytes();
    proof {
        encode_utf8_decode_utf8(a@);
        encode_utf8_decode_utf8(b@);
    }
    if ab.len() != bb.len() {
        return false;
    }
    let n = ab.len();
    let mut i: usize = 0;
    while i < n
        invariant
            n == ab@.len() == bb@.len(),
            i <= n,
            ab@ == a.spec_bytes(),
            bb@ == b.spec_bytes(),
            forall|j: int| 0 <= j < i ==> ab@[j] == bb@[j],
        decreases n - i,
    {
        if ab[i] != bb[i] {
            return false;
        }
        i = i + 1;
    }
    proof {
        assert(a.spec_bytes() =~= b.spec_bytes());
        encode_utf8_decode_utf8(a@);
        encode_utf8_decode_utf8(b@);
    }
    true
}

/// Classifies an identifier against the keyword table: the matching kind on
/// a hit, and `UnrecognizedKeyword` carrying the offending word on a miss.
pub fn keyword(literal: &str) -> (r: Result<TokenType, LexError>)
    ensures
        match r {
            Ok(t) => keyword_of(literal@) == Some(t),
            Err(e) => {
                &&& keyword_of(literal@) is None
                &&& e matches LexError::UnrecognizedKeyword(w) && w@ == literal@
            },
        },
{
    if str_eq(literal, "create") {
        Ok(TokenType::Create)
    } else {
        Err(LexError::UnrecognizedKeyword(literal.to_owned()))
    }
}

} // verus!
