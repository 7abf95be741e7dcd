//! The byte encoding of ids and values, as the storage layout holds them.

use vstd::arithmetic::power2::pow2;
use vstd::prelude::*;

verus! {

/// The bytes that bincode writes for an id: its sixteen bytes, least
/// significant first.
pub open spec fn id_code(id: u128) -> Seq<u8> {
    Seq::new(16, |i: int| ((id as int / pow2((8 * i) as nat) as int) % 256) as u8)
}

/// The bytes that bincode writes for a string.
pub uninterp spec fn text_code(s: Seq<char>) -> Seq<u8>;

/// Relies on `bincode::serialize` for a `u128`: the bytes of the id in
/// bincode's format. Writing into a `Vec` with no size limit, bincode does
/// not fail on a `u128`.
#[verifier::external_body]
pub(crate) fn encode_id(id: u128) -> (r: Option<Vec<u8>>)
    ensures
        r is Some && r->0@ == id_code(id),
{
    bincode::serialize(&id).ok()
}

/// Relies on `bincode::deserialize` for a `u128`: it reads back the id that
/// `bincode::serialize` wrote.
#[verifier::external_body]
pub(crate) fn decode_id(b: &Vec<u8>) -> (r: Option<u128>)
    ensures
        forall|x: u128| b@ == #[trigger] id_code(x) ==> r == Some(x),
{
    bincode::deserialize::<u128>(b).ok()
}

/// Relies on `bincode::serialize` for a `String`: the bytes of the string
/// in bincode's format: the length, then the bytes. Writing into a `Vec`
/// with no size limit, bincode does not fail on a `String`.
#[verifier::external_body]
pub(crate) fn encode_text(s: &String) -> (r: Option<Vec<u8>>)
    ensures
        r is Some && r->0@ == text_code(s@),
{
    bincode::serialize(s).ok()
}

/// Relies on `bincode::deserialize` for a `String`: it reads back the
/// string that `bincode::serialize` wrote.
#[verifier::external_body]
pub(crate) fn decode_text(b: &Vec<u8>) -> (r: Option<String>)
    ensures
        forall|t: Seq<char>| b@ == #[trigger] text_code(t) ==> r is Some && r->0@ == t,
{
    bincode::deserialize::<String>(b).ok()
}

/// `pairs` holds, in order, the encoded id and the encoded data of each
/// record of `s`.
pub open spec fn encodes(pairs: Seq<(Vec<u8>, Vec<u8>)>, s: Seq<(u128, Seq<char>)>) -> bool {
    &&& pairs.len() == s.len()
    &&& forall|j: int|
        0 <= j < s.len() ==> (#[trigger] pairs[j]).0@ == id_code(s[j].0) && pairs[j].1@ == text_code(
            s[j].1,
        )
}

/// No id occurs twice in `s`.
pub open spec fn distinct_ids(s: Seq<(u128, Seq<char>)>) -> bool {
    forall|i: int, j: int| 0 <= i < j < s.len() ==> #[trigger] s[i].0 != #[trigger] s[j].0
}

} // verus!
