use vstd::prelude::*;
use vstd::string::StringSliceAdditionalSpecFns;
use vstd::utf8::decode_utf8;
use vstd::utf8::encode_utf8_decode_utf8;
use vstd::utf8::encode_utf8_valid_utf8;
use vstd::utf8::is_char_boundary;
use vstd::utf8::is_char_boundary_iff_not_is_continuation_byte;
use vstd::utf8::is_char_boundary_start_end_of_seq;
use vstd::utf8::is_continuation_byte;
use vstd::utf8::is_leading_byte_width_1;
use vstd::utf8::length_of_first_scalar;
use vstd::utf8::pop_first_scalar;
use vstd::utf8::valid_utf8;
use vstd::utf8::valid_utf8_split;

verus! {

broadcast use vstd::slice::group_slice_axioms;

/// The characters spelled by a sequence of ASCII bytes, byte for byte.
pub open spec fn chars_of(b: Seq<u8>) -> Seq<char> {
    b.map_values(|x: u8| x as char)
}

/// A sequence of ASCII bytes decodes to exactly those bytes read as
/// characters.
pub proof fn lemma_ascii_decode(b: Seq<u8>)
    requires
        valid_utf8(b),
        forall|i: int| 0 <= i < b.len() ==> b[i] < 128,
    ensures
        decode_utf8(b) == chars_of(b),
    decreases b.len(),
{
    if b.len() == 0 {
        assert(decode_utf8(b) =~= chars_of(b));
    } else {
        assert(is_leading_byte_width_1(b[0]));
        let b0: u8 = b[0];
        assert((b0 & 0x7f) == b0) by (bit_vector)
            requires
                b0 < 128,
        ;
        let rest = pop_first_scalar(b);
        assert(rest =~= b.subrange(1, b.len() as int));
        lemma_ascii_decode(rest);
        assert(decode_utf8(b) =~= chars_of(b));
    }
}

/// In valid text, the byte after an ASCII byte starts a new character.
pub proof fn lemma_boundary_after_ascii(b: Seq<u8>, i: int)
    requires
        valid_utf8(b),
        0 <= i < b.len(),
        b[i] < 128,
    ensures
        is_char_boundary(b, i + 1),
{
    is_char_boundary_iff_not_is_continuation_byte(b, i);
    if i + 1 == b.len() {
        is_char_boundary_start_end_of_seq(b);
    } else {
        valid_utf8_split(b, i);
        let suf = b.subrange(i, b.len() as int);
        assert(length_of_first_scalar(suf) == 1);
        let suf2 = pop_first_scalar(suf);
        assert(suf2 =~= b.subrange(i + 1, b.len() as int));
        assert(valid_utf8(suf2));
        assert(suf2.len() > 0);
        assert(!is_continuation_byte(suf2[0]));
        is_char_boundary_iff_not_is_continuation_byte(b, i + 1);
    }
}

/// Copies the ASCII run `[start, end)` of `s`, by byte index, into an owned
/// string that spells exactly those bytes.
pub fn copy_run(s: &str, start: usize, end: usize) -> (r: String)
    requires
        start < end <= s.spec_bytes().len(),
        forall|j: int| start <= j < end ==> s.spec_bytes()[j] < 128,
    ensures
        r@ == chars_of(s.spec_bytes().subrange(start as int, end as int)),
{
    let ghost b = s.spec_bytes();
    proof {
        encode_utf8_valid_utf8(s@);
        assert(valid_utf8(b));
        if start == 0 {
            is_char_boundary_start_end_of_seq(b);
        } else {
            is_char_boundary_iff_not_is_continuation_byte(b, start as int);
        }
    }
    let (_, rest) = s.split_at(start);
    let ghost rb = b.subrange(start as int, b.len() as int);
    proof {
        valid_utf8_split(b, start as int);
        assert(rest.spec_bytes() == rb);
        if end == b.len() {
            is_char_boundary_start_end_of_seq(rb);
        } else {
            assert(rb[end - start - 1] == b[end - 1] && b[end - 1] < 128);
            lemma_boundary_after_ascii(rb, end - start - 1);
        }
    }
    let (run, _) = rest.split_at(end - start);
    proof {
        let runb = b.subrange(start as int, end as int);
        assert(run.spec_bytes() =~= runb);
        valid_utf8_split(rb, end - start);
        assert(valid_utf8(runb));
        encode_utf8_decode_utf8(run@);
        lemma_ascii_decode(runb);
        assert(run@ == chars_of(runb));
    }
    run.to_owned()
}

} // verus!
