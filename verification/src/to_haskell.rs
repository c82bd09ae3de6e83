//! The encode half of the marshalling capability pair.

use core::marker::PhantomData;
use vstd::prelude::*;

use crate::error::MarshalError;
use crate::haskell_max_size::HaskellMaxSize;
use crate::haskell_size::HaskellSize;

verus! {

/// Capability to encode a value for the foreign runtime.
///
/// The `Tag` argument allows client libraries to define additional instances
/// of `ToHaskell` for foreign (non-local) types: a library can give an
/// encoding to a type it does not own, as long as it uses a marker type
/// defined locally, because the two instances then differ in `Tag`.
pub trait ToHaskell<Tag> {
    /// Whether the value fits the wire format. Only a variable-length part
    /// that does not fit the 32-bit length prefix makes this false.
    spec fn encodable(&self) -> bool;

    /// The bytes of the encoded value.
    spec fn hs_encoding(&self) -> Seq<u8>;

    /// Serialize data to be sent to the foreign runtime, appending the
    /// encoded bytes to `writer`.
    ///
    /// Succeeds exactly on encodable values; on success, `writer` grows by
    /// exactly [`hs_encoding`](Self::hs_encoding).
    fn to_haskell(&self, writer: &mut Vec<u8>, tag: PhantomData<Tag>) -> (res: Result<
        (),
        MarshalError,
    >)
        ensures
            res is Ok <==> self.encodable(),
            res is Ok ==> final(writer)@ == old(writer)@ + self.hs_encoding(),
    ;

    /// Encode the value into a fresh buffer.
    fn to_haskell_vec(&self, tag: PhantomData<Tag>) -> (res: Result<Vec<u8>, MarshalError>)
        ensures
            res is Ok <==> self.encodable(),
            res matches Ok(v) ==> v@ == self.hs_encoding(),
    {
        let mut result: Vec<u8> = Vec::new();
        match self.to_haskell(&mut result, tag) {
            Ok(_) => {
                proof {
                    assert(result@ =~= self.hs_encoding());
                }
                Ok(result)
            },
            Err(e) => Err(e),
        }
    }
}

/// The concatenation of the encodings of the elements of `s`, in order.
pub open spec fn encode_elems<Tag, T: ToHaskell<Tag>>(s: Seq<T>) -> Seq<u8>
    decreases s.len(),
{
    if s.len() == 0 {
        Seq::empty()
    } else {
        s[0].hs_encoding() + encode_elems::<Tag, T>(s.drop_first())
    }
}

/// Whether every element of `s` is encodable.
pub open spec fn elems_encodable<Tag, T: ToHaskell<Tag>>(s: Seq<T>) -> bool {
    forall|i: int| 0 <= i < s.len() ==> (#[trigger] s[i]).encodable()
}

pub proof fn lemma_encode_elems_push<Tag, T: ToHaskell<Tag>>(s: Seq<T>, x: T)
    ensures
        encode_elems::<Tag, T>(s.push(x)) == encode_elems::<Tag, T>(s) + x.hs_encoding(),
    decreases s.len(),
{
    let p = s.push(x);
    if s.len() == 0 {
        assert(p.len() == 1);
        assert(p[0] == x);
        assert(p.drop_first() =~= Seq::<T>::empty());
        assert(encode_elems::<Tag, T>(p.drop_first()) =~= Seq::<u8>::empty());
        assert(encode_elems::<Tag, T>(p) == p[0].hs_encoding() + encode_elems::<Tag, T>(
            p.drop_first(),
        ));
        assert(encode_elems::<Tag, T>(s) =~= Seq::<u8>::empty());
        assert(encode_elems::<Tag, T>(p) =~= encode_elems::<Tag, T>(s) + x.hs_encoding());
    } else {
        assert(p.drop_first() =~= s.drop_first().push(x));
        assert(p[0] == s[0]);
        lemma_encode_elems_push::<Tag, T>(s.drop_first(), x);
        assert(encode_elems::<Tag, T>(p) == p[0].hs_encoding() + encode_elems::<Tag, T>(
            p.drop_first(),
        ));
        assert(encode_elems::<Tag, T>(p.drop_first()) == encode_elems::<Tag, T>(s.drop_first())
            + x.hs_encoding());
        assert(encode_elems::<Tag, T>(s) == s[0].hs_encoding() + encode_elems::<Tag, T>(
            s.drop_first(),
        ));
        assert(encode_elems::<Tag, T>(p) =~= encode_elems::<Tag, T>(s) + x.hs_encoding());
    }
}

pub proof fn lemma_encode_elems_take_succ<Tag, T: ToHaskell<Tag>>(s: Seq<T>, i: int)
    requires
        0 <= i < s.len(),
    ensures
        encode_elems::<Tag, T>(s.take(i + 1)) == encode_elems::<Tag, T>(s.take(i))
            + s[i].hs_encoding(),
{
    assert(s.take(i + 1) =~= s.take(i).push(s[i]));
    lemma_encode_elems_push::<Tag, T>(s.take(i), s[i]);
}

/// The encoding of a sequence splits at any index into the encoding of the
/// part before it and the encoding of the part after it.
pub proof fn lemma_encode_elems_split<Tag, T: ToHaskell<Tag>>(s: Seq<T>, i: int)
    requires
        0 <= i <= s.len(),
    ensures
        encode_elems::<Tag, T>(s) == encode_elems::<Tag, T>(s.take(i)) + encode_elems::<Tag, T>(
            s.skip(i),
        ),
    decreases i,
{
    if i == 0 {
        assert(s.take(0) =~= Seq::<T>::empty());
        assert(s.skip(0) =~= s);
        assert(Seq::empty() + encode_elems::<Tag, T>(s) =~= encode_elems::<Tag, T>(s));
    } else {
        lemma_encode_elems_split::<Tag, T>(s, i - 1);
        lemma_encode_elems_take_succ::<Tag, T>(s, i - 1);
        assert(s.skip(i - 1).drop_first() =~= s.skip(i));
        assert(s.skip(i - 1).len() > 0 && s.skip(i - 1)[0] == s[i - 1]);
        assert(encode_elems::<Tag, T>(s.skip(i - 1)) == s[i - 1].hs_encoding()
            + encode_elems::<Tag, T>(s.skip(i)));
        assert((encode_elems::<Tag, T>(s.take(i - 1)) + s[i - 1].hs_encoding())
            + encode_elems::<Tag, T>(s.skip(i)) =~= encode_elems::<Tag, T>(s.take(i - 1)) + (s[i
            - 1].hs_encoding() + encode_elems::<Tag, T>(s.skip(i))));
    }
}

/// Marshall a value with variable-sized encoding, by the two-phase
/// protocol.
///
/// `out` is the caller's buffer; its length is the capacity that the caller
/// announced in `out_len`. The true required length is always written back
/// to `out_len`; the bytes are copied into the front of `out` only when they
/// fit, so a caller may pass capacity `0` first to learn the required
/// length, and call again with a buffer of exactly that length.
pub fn marshall_to_haskell_var<Tag, T: ToHaskell<Tag>>(
    t: &T,
    out: &mut Vec<u8>,
    out_len: &mut usize,
    tag: PhantomData<Tag>,
)
    requires
        t.encodable(),
        old(out)@.len() == *old(out_len),
    ensures
        *final(out_len) == t.hs_encoding().len(),
        t.hs_encoding().len() <= old(out)@.len() ==> final(out)@ == t.hs_encoding() + old(
            out,
        )@.skip(t.hs_encoding().len() as int),
        t.hs_encoding().len() > old(out)@.len() ==> final(out)@ == old(out)@,
{
    match t.to_haskell_vec(tag) {
        Ok(vec) => {
            if vec.len() <= out.len() {
                let mut i: usize = 0;
                while i < vec.len()
                    invariant
                        vec@ == t.hs_encoding(),
                        i <= vec@.len() <= out@.len(),
                        out@.len() == old(out)@.len(),
                        forall|k: int| 0 <= k < i ==> out@[k] == vec@[k],
                        forall|k: int| i <= k < out@.len() ==> out@[k] == old(out)@[k],
                    decreases vec@.len() - i,
                {
                    let b = vec[i];
                    out[i] = b;
                    i = i + 1;
                }
                proof {
                    assert(out@ =~= t.hs_encoding() + old(out)@.skip(
                        t.hs_encoding().len() as int,
                    ));
                }
            } else {
                proof {
                    assert(out@ =~= old(out)@);
                }
            }
            *out_len = vec.len();
        },
        Err(_) => {
            proof {
                assert(false);
            }
        },
    }
}

/// Marshall a value with fixed-size encoding.
///
/// The `out_len` argument only confirms that both runtimes agree on the
/// size of the encoding: it must equal the type's [`HaskellSize`], and the
/// buffer is exactly filled.
pub fn marshall_to_haskell_fixed<Tag, T: HaskellSize<Tag> + ToHaskell<Tag>>(
    t: &T,
    out: &mut Vec<u8>,
    out_len: usize,
    tag: PhantomData<Tag>,
)
    requires
        out_len == T::spec_size(),
        old(out)@.len() == out_len,
    ensures
        final(out)@ == t.hs_encoding(),
{
    proof {
        T::size_law(t);
    }
    let mut out_len_copy = out_len;
    marshall_to_haskell_var(t, out, &mut out_len_copy, tag);
    proof {
        assert(old(out)@.skip(t.hs_encoding().len() as int) =~= Seq::<u8>::empty());
        assert(t.hs_encoding() + Seq::<u8>::empty() =~= t.hs_encoding());
    }
}

/// Marshall a value with an encoding of known maximum size.
///
/// The `out_len` argument only confirms that both runtimes agree on the
/// bound: it must equal the type's [`HaskellMaxSize`]. The encoded bytes
/// fill a prefix of the buffer, which is never exceeded.
pub fn marshall_to_haskell_max<Tag, T: HaskellMaxSize<Tag> + ToHaskell<Tag>>(
    t: &T,
    out: &mut Vec<u8>,
    out_len: usize,
    tag: PhantomData<Tag>,
)
    requires
        out_len == T::spec_max_size(),
        old(out)@.len() == out_len,
    ensures
        t.hs_encoding().len() <= T::spec_max_size(),
        final(out)@ == t.hs_encoding() + old(out)@.skip(t.hs_encoding().len() as int),
{
    proof {
        T::max_size_law(t);
    }
    let mut out_len_copy = out_len;
    marshall_to_haskell_var(t, out, &mut out_len_copy, tag);
}

/// Wrapper around [`marshall_to_haskell_var`] for the result of an
/// operation whose error has already been rendered as text.
pub fn marshall_result_to_haskell_var<Tag, T: ToHaskell<Tag>>(
    res: &Result<T, String>,
    out: &mut Vec<u8>,
    out_len: &mut usize,
    tag: PhantomData<Tag>,
)
    requires
        <Result<T, String> as ToHaskell<Tag>>::encodable(res),
        old(out)@.len() == *old(out_len),
    ensures
        *final(out_len) == <Result<T, String> as ToHaskell<Tag>>::hs_encoding(res).len(),
        <Result<T, String> as ToHaskell<Tag>>::hs_encoding(res).len() <= old(out)@.len()
            ==> final(out)@ == <Result<T, String> as ToHaskell<Tag>>::hs_encoding(res) + old(
            out,
        )@.skip(<Result<T, String> as ToHaskell<Tag>>::hs_encoding(res).len() as int),
        <Result<T, String> as ToHaskell<Tag>>::hs_encoding(res).len() > old(out)@.len()
            ==> final(out)@ == old(out)@,
{
    marshall_to_haskell_var(res, out, out_len, tag);
}

/// Append the encodings of all elements of `s`, in order.
pub(crate) fn encode_slice<Tag, T: ToHaskell<Tag>>(
    s: &[T],
    writer: &mut Vec<u8>,
    tag: PhantomData<Tag>,
) -> (res: Result<(), MarshalError>)
    ensures
        res is Ok <==> elems_encodable::<Tag, T>(s@),
        res is Ok ==> final(writer)@ == old(writer)@ + encode_elems::<Tag, T>(s@),
{
    let ghost w0 = writer@;
    proof {
        assert(s@.take(0) =~= Seq::<T>::empty());
        assert(writer@ =~= w0 + encode_elems::<Tag, T>(s@.take(0)));
    }
    let mut i: usize = 0;
    while i < s.len()
        invariant
            i <= s@.len(),
            writer@ == w0 + encode_elems::<Tag, T>(s@.take(i as int)),
            forall|j: int| 0 <= j < i ==> (#[trigger] s@[j]).encodable(),
        decreases s@.len() - i,
    {
        let r = vstd::slice::slice_index_get(s, i).to_haskell(writer, tag);
        match r {
            Ok(_) => {
                proof {
                    lemma_encode_elems_take_succ::<Tag, T>(s@, i as int);
                    assert((w0 + encode_elems::<Tag, T>(s@.take(i as int)))
                        + s@[i as int].hs_encoding() =~= w0 + encode_elems::<Tag, T>(
                        s@.take(i as int + 1),
                    ));
                }
            },
            Err(e) => {
                return Err(e);
            },
        }
        i = i + 1;
    }
    proof {
        assert(s@.take(s@.len() as int) =~= s@);
    }
    Ok(())
}

} // verus!
