//! The snapshot encoding, which `bincode` computes.
//!
//! A snapshot is the `bincode` encoding, in the configuration of its plain
//! `serialize` and `deserialize` functions, of the triple of the bound path,
//! the main slots and the auxiliary slots. Nothing here is proved: each item
//! states what is taken on trust from `bincode`.

use crate::namespace::slots_view;
use vstd::prelude::*;

verus! {

/// The error of `bincode`, carried through unread.
#[verifier::external_type_specification]
#[verifier::external_body]
pub struct ExErrorKind(bincode::ErrorKind);

/// What `bincode::serialize` returns for the triple of a path and two slot
/// lists: the bytes, or `None` where it reports an error.
pub uninterp spec fn bincode_image(
    path: Seq<char>,
    main: Seq<(Seq<u8>, Option<Seq<u8>>)>,
    aux: Seq<(Seq<u8>, Option<Seq<u8>>)>,
) -> Option<Seq<u8>>;

/// What `bincode::deserialize` reads from `bytes` as such a triple, or `None`
/// where it reports an error.
pub uninterp spec fn bincode_parse(bytes: Seq<u8>) -> Option<
    (Seq<char>, Seq<(Seq<u8>, Option<Seq<u8>>)>, Seq<(Seq<u8>, Option<Seq<u8>>)>),
>;

/// Calls `bincode::serialize` on the triple `(path, main, aux)`. Two claims
/// are made: that the outcome is a function of the three values, named
/// `bincode_image`; and that the bytes it gives are read back by
/// `bincode::deserialize` as the same triple, which is what the crate's
/// documentation says of the pair.
#[verifier::external_body]
pub(crate) fn encode_state(
    path: &String,
    main: &Vec<(Vec<u8>, Option<Vec<u8>>)>,
    aux: &Vec<(Vec<u8>, Option<Vec<u8>>)>,
) -> (r: Result<Vec<u8>, Box<bincode::ErrorKind>>)
    ensures
        match r {
            Ok(bytes) => {
                &&& bincode_image(path@, slots_view(main@), slots_view(aux@)) == Some(bytes@)
                &&& bincode_parse(bytes@) == Some((path@, slots_view(main@), slots_view(aux@)))
            },
            Err(_) => bincode_image(path@, slots_view(main@), slots_view(aux@)) is None,
        },
{
    bincode::serialize(&(path, main, aux))
}

/// Calls `bincode::deserialize` to read a triple of a path and two slot
/// lists from `bytes`. The claim is only that the outcome is a function of
/// the bytes, named `bincode_parse`.
#[verifier::external_body]
pub(crate) fn decode_state(bytes: &[u8]) -> (r: Result<
    (String, Vec<(Vec<u8>, Option<Vec<u8>>)>, Vec<(Vec<u8>, Option<Vec<u8>>)>),
    Box<bincode::ErrorKind>,
>)
    ensures
        match r {
            Ok(state) => bincode_parse(bytes@) == Some(
                (state.0@, slots_view(state.1@), slots_view(state.2@)),
            ),
            Err(_) => bincode_parse(bytes@) is None,
        },
{
    bincode::deserialize(bytes)
}

} // verus!
