//! Resolution of string-table offsets to nul-terminated names.

use vstd::prelude::*;
use vstd::slice::{slice_index_get, slice_subrange};
use vstd::utf8::{decode_utf8, valid_utf8};

verus! {

/// Index of the byte that ends the name starting at `off`: the first nul at
/// or after `off`, or the end of the buffer if no nul follows.
pub open spec fn name_end(content: Seq<u8>, off: int) -> int
    decreases content.len() - off,
{
    if off < 0 || off >= content.len() {
        content.len() as int
    } else if content[off] == 0 {
        off
    } else {
        name_end(content, off + 1)
    }
}

/// The bytes of the name that `off` points at: everything from `off` up to,
/// not including, its terminating nul. An offset outside the buffer names
/// nothing.
pub open spec fn name_bytes(content: Seq<u8>, off: int) -> Seq<u8> {
    if 0 <= off <= content.len() {
        content.subrange(off, name_end(content, off))
    } else {
        Seq::empty()
    }
}

/// The characters the name resolves to: the UTF-8 decoding of its bytes, or
/// the empty string where those bytes are not valid UTF-8.
pub open spec fn str_from_offset(content: Seq<u8>, off: int) -> Seq<char> {
    if valid_utf8(name_bytes(content, off)) {
        decode_utf8(name_bytes(content, off))
    } else {
        Seq::empty()
    }
}

pub proof fn lemma_name_end_bounds(content: Seq<u8>, off: int)
    requires
        0 <= off <= content.len(),
    ensures
        off <= name_end(content, off) <= content.len(),
        forall|k: int| off <= k < name_end(content, off) ==> content[k] != 0,
        name_end(content, off) < content.len() ==> content[name_end(content, off)] == 0,
    decreases content.len() - off,
{
    if off < content.len() && content[off] != 0 {
        lemma_name_end_bounds(content, off + 1);
    }
}

proof fn lemma_name_end_at(content: Seq<u8>, off: int, end: int)
    requires
        0 <= off <= end <= content.len(),
        forall|k: int| off <= k < end ==> content[k] != 0,
        end < content.len() ==> content[end] == 0,
    ensures
        name_end(content, off) == end,
    decreases end - off,
{
    if off < end {
        lemma_name_end_at(content, off + 1, end);
    }
}

/// Relies on core::str::from_utf8: it succeeds exactly on input that is
/// valid UTF-8, and the returned slice holds the decoding of those bytes.
#[verifier::external_body]
fn str_from_utf8(bytes: &[u8]) -> (r: Option<&str>)
    ensures
        r is Some <==> valid_utf8(bytes@),
        r matches Some(s) ==> s@ == decode_utf8(bytes@),
{
    core::str::from_utf8(bytes).ok()
}

/// Resolve a string-table offset to the name it points at: the bytes from
/// `offset` up to the first nul, decoded as UTF-8. An offset past the end of
/// the buffer, or name bytes that are not valid UTF-8, resolve to the empty
/// string. Total: no offset and no buffer make it fail.
pub fn read_str_from_offset<'a>(content: &'a [u8], offset: usize) -> (r: &'a str)
    ensures
        r@ == str_from_offset(content@, offset as int),
{
    proof {
        reveal_strlit("");
        assert(""@ =~= Seq::<char>::empty());
    }
    if offset > content.len() {
        return "";
    }
    let mut end = offset;
    while end < content.len() && *slice_index_get(content, end) != 0
        invariant
            offset <= end <= content@.len(),
            forall|k: int| offset <= k < end ==> content@[k] != 0,
        decreases content@.len() - end,
    {
        end = end + 1;
    }
    proof {
        lemma_name_end_at(content@, offset as int, end as int);
    }
    let bytes = slice_subrange(content, offset, end);
    match str_from_utf8(bytes) {
        Some(s) => s,
        None => "",
    }
}

} // verus!
