//! The decode half of the marshalling capability pair.

use core::marker::PhantomData;
use vstd::prelude::*;
use vstd::slice::slice_to_vec;

use crate::cursor::ByteCursor;
use crate::error::MarshalError;
use crate::haskell_size::HaskellSize;
use crate::to_haskell::ToHaskell;

verus! {

/// The element-wise deep view of a sequence.
pub open spec fn deep_seq<T: DeepView>(s: Seq<T>) -> Seq<T::V> {
    Seq::new(s.len(), |i: int| s[i].deep_view())
}

/// Capability to decode a value sent by the foreign runtime.
///
/// See [`ToHaskell`] for a discussion of the `Tag` argument.
///
/// The contract of [`from_haskell`](Self::from_haskell) pins the decoder down
/// in both directions: whatever it returns re-encodes to exactly the bytes it
/// consumed, and whenever the input starts with the encoding of some value it
/// must succeed and return that value. Together with the contract of
/// [`ToHaskell::to_haskell`] this says that decoding an encoded value gives
/// the value back.
pub trait FromHaskell<Tag>: ToHaskell<Tag> + DeepView + Sized {
    /// Decode one value from the cursor, advancing it by exactly the number
    /// of bytes consumed.
    fn from_haskell(buf: &mut ByteCursor, tag: PhantomData<Tag>) -> (res: Result<
        Self,
        MarshalError,
    >)
        requires
            old(buf).wf(),
        ensures
            final(buf).wf(),
            final(buf).bytes@ == old(buf).bytes@,
            old(buf).pos <= final(buf).pos,
            res matches Ok(v) ==> v.encodable() && final(buf).pos == old(buf).pos
                + v.hs_encoding().len() && v.hs_encoding() == old(buf).bytes@.subrange(
                old(buf).pos as int,
                final(buf).pos as int,
            ),
            forall|v: Self|
                v.encodable() && (#[trigger] v.hs_encoding()).is_prefix_of(old(buf).remaining())
                    ==> (res matches Ok(w) && w.deep_view() == v.deep_view() && final(buf).pos
                    == old(buf).pos + v.hs_encoding().len()),
    ;

    /// Decode one value from a whole buffer; fail with
    /// [`MarshalError::TrailingBytes`] if the buffer holds more than that one
    /// value.
    fn from_haskell_slice(slice: &[u8], tag: PhantomData<Tag>) -> (res: Result<
        Self,
        MarshalError,
    >)
        ensures
            res matches Ok(v) ==> v.encodable() && v.hs_encoding() == slice@,
            forall|v: Self|
                v.encodable() && (#[trigger] v.hs_encoding()) == slice@ ==> (res matches Ok(w)
                    && w.deep_view() == v.deep_view()),
            forall|v: Self|
                v.encodable() && (#[trigger] v.hs_encoding()).is_prefix_of(slice@)
                    && v.hs_encoding().len() < slice@.len() ==> res == Err::<
                    Self,
                    MarshalError,
                >(MarshalError::TrailingBytes),
    {
        let mut cursor = ByteCursor::new(slice_to_vec(slice));
        let ghost start = cursor;
        match Self::from_haskell(&mut cursor, tag) {
            Ok(v) => {
                if cursor.remaining_len() > 0 {
                    proof {
                        assert forall|w: Self|
                            w.encodable() && (#[trigger] w.hs_encoding()) == slice@ implies false by {
                            assert(w.hs_encoding().is_prefix_of(start.remaining()));
                        }
                    }
                    Err(MarshalError::TrailingBytes)
                } else {
                    proof {
                        assert(v.hs_encoding() =~= slice@);
                        assert forall|w: Self|
                            w.encodable() && (#[trigger] w.hs_encoding())
                                == slice@ implies v.deep_view() == w.deep_view() by {
                            assert(w.hs_encoding().is_prefix_of(start.remaining()));
                        }
                        assert forall|w: Self|
                            w.encodable() && (#[trigger] w.hs_encoding()).is_prefix_of(slice@)
                                && w.hs_encoding().len() < slice@.len() implies false by {
                            assert(w.hs_encoding().is_prefix_of(start.remaining()));
                        }
                    }
                    Ok(v)
                }
            },
            Err(e) => {
                proof {
                    assert forall|w: Self|
                        w.encodable() && ((#[trigger] w.hs_encoding()) == slice@ || (
                        w.hs_encoding().is_prefix_of(slice@) && w.hs_encoding().len()
                            < slice@.len())) implies false by {
                        assert(w.hs_encoding().is_prefix_of(start.remaining()));
                    }
                }
                Err(e)
            },
        }
    }
}

/// Marshall a value with variable-sized encoding out of a buffer the
/// foreign runtime produced.
///
/// The buffer must hold exactly one encoded value; the boundary signature
/// has no channel for a typed error, so a malformed buffer is a bug in the
/// caller and is excluded by the precondition (the unverified boundary shim
/// stops the process instead).
pub fn marshall_from_haskell_var<Tag, T: FromHaskell<Tag>>(inp: &[u8], tag: PhantomData<Tag>) -> (res:
    T)
    requires
        exists|v: T| v.encodable() && (#[trigger] v.hs_encoding()) == inp@,
    ensures
        res.encodable(),
        res.hs_encoding() == inp@,
        forall|v: T|
            v.encodable() && (#[trigger] v.hs_encoding()) == inp@ ==> res.deep_view()
                == v.deep_view(),
{
    let r = T::from_haskell_slice(inp, tag);
    match r {
        Ok(t) => t,
        Err(_) => {
            proof {
                let v = choose|v: T| v.encodable() && (#[trigger] v.hs_encoding()) == inp@;
                assert(false);
            }
            vstd::pervasive::unreached()
        },
    }
}

/// Marshall a value with fixed-size encoding out of a buffer the foreign
/// runtime produced.
///
/// The buffer's length only confirms that both runtimes agree on the size
/// of the encoding: it must equal the type's [`HaskellSize`].
pub fn marshall_from_haskell_fixed<Tag, T: FromHaskell<Tag> + HaskellSize<Tag>>(
    inp: &[u8],
    tag: PhantomData<Tag>,
) -> (res: T)
    requires
        inp@.len() == T::spec_size(),
        exists|v: T| v.encodable() && (#[trigger] v.hs_encoding()) == inp@,
    ensures
        res.encodable(),
        res.hs_encoding() == inp@,
        forall|v: T|
            v.encodable() && (#[trigger] v.hs_encoding()) == inp@ ==> res.deep_view()
                == v.deep_view(),
{
    let n = inp.len();
    proof {
        let v = choose|v: T| v.encodable() && (#[trigger] v.hs_encoding()) == inp@;
        T::size_law(&v);
        assert(T::spec_size() == n);
    }
    let expected = T::haskell_size(tag);
    if n == expected {
        marshall_from_haskell_var(inp, tag)
    } else {
        proof {
            assert(false);
        }
        vstd::pervasive::unreached()
    }
}

} // verus!
