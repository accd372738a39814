//! Reading a sequence of nucleotide bases from text.

use vstd::prelude::*;

use crate::errors::{AlignError, ERR_INVALID_SYMBOL};

verus! {

broadcast use vstd::string::axiom_spec_iter;

/// Whether `c` is one of the bases `A`, `G`, `C`, `T`.
pub open spec fn is_base(c: char) -> bool {
    c == 'A' || c == 'G' || c == 'C' || c == 'T'
}

/// The bytes of `seq` when every character of it is a base; `InvalidSymbol`
/// otherwise.
pub fn string_to_vec(seq: &str) -> (r: Result<Vec<u8>, AlignError>)
    ensures
        r is Ok <==> forall|k: int| 0 <= k < seq@.len() ==> is_base(#[trigger] seq@[k]),
        r matches Ok(v) ==> v@ == seq@.map_values(|c: char| c as u8),
        r matches Err(e) ==> e == AlignError::InvalidSymbol,
{
    let mut out: Vec<u8> = Vec::new();
    for c in it: seq.chars()
        invariant
            it.seq() == seq@,
            out@.len() == it.index(),
            forall|k: int| 0 <= k < it.index() ==> is_base(#[trigger] seq@[k]) && out@[k] == seq@[k] as u8,
    {
        if c == 'A' || c == 'G' || c == 'C' || c == 'T' {
            out.push(c as u8);
        } else {
            return Err(ERR_INVALID_SYMBOL);
        }
    }
    assert(out@ =~= seq@.map_values(|c: char| c as u8));
    Ok(out)
}

} // verus!
