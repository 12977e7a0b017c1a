//! The skill's side of the boundary with its host: what it computes from
//! the log and filter bytes it is handed, how it packs a result buffer's
//! address and length into one `u64`, and the layouts of its allocations.
use vstd::prelude::*;
use vstd::arithmetic::power2::is_pow2;
use vstd::layout::valid_layout;
use vstd::utf8::{decode_utf8, encode_utf8, valid_utf8};

use crate::mission::{
    decode_text, encode_text, find_longest, lemma_encode_decode_roundtrip,
    lemma_find_longest_first_longest, lemma_parsed_fields_clean, spec_find_longest,
    spec_parse_line, matches_filter,
};
use crate::text::{
    chars_of, contains_char, lemma_split_concat, lemma_split_no_sep, lines, split, split_ranges,
};

verus! {

/// The text that the bytes `b` hold, or `None` where they are not UTF-8.
///
/// Calls `std::str::from_utf8`, which by its documentation fails exactly on
/// byte sequences that are not UTF-8; the contract states that the text it
/// returns is the one those bytes encode.
#[verifier::external_body]
pub(crate) fn str_from_utf8(b: &[u8]) -> (r: Option<&str>)
    ensures
        r is Some <==> valid_utf8(b@),
        r matches Some(s) ==> s@ == decode_utf8(b@),
{
    std::str::from_utf8(b).ok()
}

/// What the skill answers for a log and a filter `destination|status`:
/// nothing where either is not UTF-8 or the filter has no `|`; otherwise
/// the encoded longest match, or empty text where nothing matches.
pub open spec fn spec_analyze(log: Seq<u8>, filter: Seq<u8>) -> Option<Seq<char>> {
    if !valid_utf8(log) || !valid_utf8(filter) {
        None
    } else {
        let parts = split(decode_utf8(filter), '|');
        if parts.len() < 2 {
            None
        } else {
            match spec_find_longest(decode_utf8(log), parts[0], parts[1]) {
                Some(b) => Some(encode_text(b)),
                None => Some(Seq::<char>::empty()),
            }
        }
    }
}

/// Runs the analysis on the bytes of a log and of a filter
/// `destination|status`. `None` stands for the skill's error answer.
pub fn analyze(log_bytes: &[u8], filter_bytes: &[u8]) -> (res: Option<String>)
    ensures
        match res {
            Some(s) => spec_analyze(log_bytes@, filter_bytes@) == Some(s@),
            None => spec_analyze(log_bytes@, filter_bytes@) is None,
        },
{
    let log = match str_from_utf8(log_bytes) {
        Some(s) => s,
        None => {
            return None;
        },
    };
    let filter = match str_from_utf8(filter_bytes) {
        Some(s) => s,
        None => {
            return None;
        },
    };
    let fv = chars_of(filter);
    assert(fv@.subrange(0, fv@.len() as int) =~= filter@);
    let parts = split_ranges(&fv, 0, fv.len(), '|');
    if parts.len() < 2 {
        return None;
    }
    let destination = filter.substring_char(parts[0].0, parts[0].1);
    let status = filter.substring_char(parts[1].0, parts[1].1);
    match find_longest(log, destination, status) {
        Some(best) => Some(best.encode()),
        None => Some(String::new()),
    }
}

proof fn lemma_encode_utf8_empty(t: Seq<char>)
    ensures
        (encode_utf8(t).len() == 0) == (t.len() == 0),
{
    if t.len() > 0 {
        assert(encode_utf8(t) == vstd::utf8::encode_scalar(t[0] as u32) + encode_utf8(
            t.drop_first(),
        ));
    }
}

/// Law: for a filter `destination|status` whose parts hold no `|`, the
/// skill answers for any UTF-8 log, and the bytes of its answer decode on
/// the host's side to what `find_longest` finds in the same log: no bytes
/// where nothing matches, otherwise text that decodes to the same summary.
pub proof fn lemma_skill_agrees_with_native(log: Seq<char>, dest: Seq<char>, status: Seq<char>)
    requires
        !contains_char(dest, '|'),
        !contains_char(status, '|'),
    ensures
        spec_analyze(encode_utf8(log), encode_utf8(dest + seq!['|'] + status)) matches Some(t)
            && {
            let out = encode_utf8(t);
            &&& valid_utf8(out)
            &&& decode_utf8(out) == t
            &&& match spec_find_longest(log, dest, status) {
                None => out.len() == 0,
                Some(b) => out.len() > 0 && decode_text(decode_utf8(out)) == Some(b),
            }
        },
{
    broadcast use vstd::utf8::group_utf8_lib;

    let filter = dest + seq!['|'] + status;
    lemma_split_concat(dest, status, '|');
    lemma_split_no_sep(dest, '|');
    lemma_split_no_sep(status, '|');
    assert(split(filter, '|') =~= seq![dest, status]);
    lemma_find_longest_first_longest(log, dest, status);
    match spec_find_longest(log, dest, status) {
        None => {
            lemma_encode_utf8_empty(Seq::<char>::empty());
        },
        Some(b) => {
            let ls = lines(log);
            let i = choose|i: int|
                {
                    &&& 0 <= i < ls.len()
                    &&& matches_filter(#[trigger] ls[i], dest, status)
                    &&& b == crate::mission::best_of(spec_parse_line(ls[i]).unwrap())
                    &&& forall|j: int|
                        0 <= j < ls.len() && matches_filter(#[trigger] ls[j], dest, status)
                            ==> crate::mission::line_duration(ls[j]) <= b.duration
                    &&& forall|j: int|
                        0 <= j < i && matches_filter(#[trigger] ls[j], dest, status)
                            ==> crate::mission::line_duration(ls[j]) < b.duration
                };
            lemma_parsed_fields_clean(ls[i]);
            lemma_encode_decode_roundtrip(b);
            lemma_encode_utf8_empty(encode_text(b));
            assert(encode_text(b)[b.code.len() as int] == '|');
        },
    }
}

/// The `u64` that carries a buffer's address in its high half and its
/// length in its low half.
pub open spec fn spec_pack(ptr: u32, len: u32) -> u64 {
    (ptr as int * 0x1_0000_0000 + len as int) as u64
}

/// Packs a result buffer's address and length into one `u64`.
pub fn pack_result(ptr: u32, len: u32) -> (r: u64)
    ensures
        r == spec_pack(ptr, len),
        r as int == ptr as int * 0x1_0000_0000 + len as int,
{
    let hi = ptr as u64;
    let lo = len as u64;
    assert((hi << 32u64) | lo == hi * 0x1_0000_0000 + lo) by (bit_vector)
        requires
            hi < 0x1_0000_0000,
            lo < 0x1_0000_0000,
    ;
    (hi << 32u64) | lo
}

/// The high and low halves of `packed`: the address and the length of a
/// result buffer.
pub fn unpack(packed: u64) -> (r: (u32, u32))
    ensures
        packed as int == r.0 as int * 0x1_0000_0000 + r.1 as int,
{
    let hi = packed >> 32u64;
    let lo = packed & 0xFFFF_FFFFu64;
    assert(hi < 0x1_0000_0000 && lo < 0x1_0000_0000 && packed == hi * 0x1_0000_0000 + lo)
        by (bit_vector)
        requires
            hi == packed >> 32u64,
            lo == packed & 0xFFFF_FFFFu64,
    ;
    (hi as u32, lo as u32)
}

/// Law: unpacking what `pack_result` packs gives back the address and the
/// length.
pub proof fn lemma_pack_unpack(ptr: u32, len: u32, hi: u32, lo: u32)
    requires
        spec_pack(ptr, len) as int == hi as int * 0x1_0000_0000 + lo as int,
    ensures
        hi == ptr,
        lo == len,
{
    assert(ptr as int * 0x1_0000_0000 + len as int <= u64::MAX);
}

/// The size and alignment of an allocation the skill makes.
pub struct BlockLayout {
    pub size: usize,
    pub align: usize,
}

/// The alignment of the skill's allocations.
pub const ALIGN: usize = 8;

/// The layout of an allocation of `size` bytes aligned to `ALIGN`: none for
/// zero bytes, nor for a size that the allocator cannot accept at that
/// alignment (one that rounded up to a multiple of `ALIGN` exceeds
/// `isize::MAX`).
pub fn layout(size: u32) -> (r: Option<BlockLayout>)
    ensures
        r is Some <==> (size != 0 && valid_layout(size as usize, ALIGN)),
        r matches Some(l) ==> l.size == size as usize && l.align == ALIGN,
{
    assert(is_pow2(8)) by {
        reveal_with_fuel(is_pow2, 4);
    }
    assert(isize::MAX as int % 8 == 7);
    if size == 0 {
        return None;
    }
    let sz = size as usize;
    if sz <= (isize::MAX as usize) - 7 {
        Some(BlockLayout { size: sz, align: ALIGN })
    } else {
        None
    }
}

} // verus!
