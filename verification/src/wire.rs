//! The arithmetic of the wire format: little-endian byte strings of a fixed
//! width, as the base codec writes them for its integer types and for the
//! 32-bit length prefix of its variable-length types.

use vstd::prelude::*;

verus! {

/// `256^n`, the number of values an `n`-byte string can hold.
pub open spec fn pow256(n: nat) -> nat
    decreases n,
{
    if n == 0 {
        1
    } else {
        256 * pow256((n - 1) as nat)
    }
}

/// The `n`-byte little-endian representation of `x` (least significant byte
/// first). Faithful only for `x < pow256(n)`; higher bits are dropped.
pub open spec fn le_bytes(x: nat, n: nat) -> Seq<u8>
    decreases n,
{
    if n == 0 {
        Seq::empty()
    } else {
        seq![(x % 256) as u8] + le_bytes(x / 256, (n - 1) as nat)
    }
}

/// The two's-complement image of `x` as a non-negative number below `bound`:
/// negative values are shifted up by `bound`.
pub open spec fn wrap_signed(x: int, bound: int) -> nat {
    if x >= 0 {
        x as nat
    } else {
        (x + bound) as nat
    }
}

/// The value of a little-endian byte string.
pub open spec fn le_nat(s: Seq<u8>) -> nat
    decreases s.len(),
{
    if s.len() == 0 {
        0
    } else {
        (s[0] + 256 * le_nat(s.drop_first())) as nat
    }
}

pub proof fn lemma_le_bytes_len(x: nat, n: nat)
    ensures
        le_bytes(x, n).len() == n,
    decreases n,
{
    if n > 0 {
        lemma_le_bytes_len(x / 256, (n - 1) as nat);
    }
}

/// Reading back the little-endian representation recovers the value.
pub proof fn lemma_le_nat_le_bytes(x: nat, n: nat)
    requires
        x < pow256(n),
    ensures
        le_nat(le_bytes(x, n)) == x,
    decreases n,
{
    if n > 0 {
        let s = le_bytes(x, n);
        let rest = le_bytes(x / 256, (n - 1) as nat);
        assert(s.drop_first() =~= rest);
        assert(x / 256 < pow256((n - 1) as nat)) by {
            assert(x < 256 * pow256((n - 1) as nat));
            assert(x / 256 < pow256((n - 1) as nat)) by (nonlinear_arith)
                requires
                    x < 256 * pow256((n - 1) as nat),
            ;
        }
        lemma_le_nat_le_bytes(x / 256, (n - 1) as nat);
        assert(x % 256 + 256 * (x / 256) == x) by (nonlinear_arith);
    }
}

/// Two values below `pow256(n)` with the same `n`-byte representation are
/// equal.
pub proof fn lemma_le_bytes_injective(x1: nat, x2: nat, n: nat)
    requires
        x1 < pow256(n),
        x2 < pow256(n),
        le_bytes(x1, n) == le_bytes(x2, n),
    ensures
        x1 == x2,
{
    lemma_le_nat_le_bytes(x1, n);
    lemma_le_nat_le_bytes(x2, n);
}

/// A byte string that starts with `x + y` starts with `x`, and continues
/// with `y` where `x` ends.
pub proof fn lemma_concat_prefix(x: Seq<u8>, y: Seq<u8>, rem: Seq<u8>)
    requires
        (x + y).is_prefix_of(rem),
    ensures
        x.is_prefix_of(rem),
        y.is_prefix_of(rem.skip(x.len() as int)),
{
    let xy = x + y;
    assert(xy =~= rem.take(xy.len() as int));
    assert forall|k: int| 0 <= k < x.len() implies rem[k] == x[k] by {
        assert(xy[k] == x[k]);
        assert(rem.take(xy.len() as int)[k] == rem[k]);
    }
    assert(x =~= rem.take(x.len() as int));
    let rest = rem.skip(x.len() as int);
    assert forall|k: int| 0 <= k < y.len() implies rest[k] == y[k] by {
        assert(xy[x.len() + k] == y[k]);
        assert(rem.take(xy.len() as int)[x.len() + k] == rem[x.len() + k]);
        assert(rest[k] == rem[x.len() + k]);
    }
    assert(y =~= rest.take(y.len() as int));
}

/// The widths this library uses, as plain numbers.
pub proof fn lemma_pow256_widths()
    ensures
        pow256(1) == 0x100,
        pow256(2) == 0x1_0000,
        pow256(4) == 0x1_0000_0000,
        pow256(8) == 0x1_0000_0000_0000_0000,
        pow256(16) == 0x1_0000_0000_0000_0000_0000_0000_0000_0000,
{
    assert(pow256(0) == 1);
    assert(pow256(1) == 0x100);
    assert(pow256(2) == 0x1_0000);
    assert(pow256(3) == 0x100_0000);
    assert(pow256(4) == 0x1_0000_0000);
    assert(pow256(5) == 0x100_0000_0000);
    assert(pow256(6) == 0x1_0000_0000_0000);
    assert(pow256(7) == 0x100_0000_0000_0000);
    assert(pow256(8) == 0x1_0000_0000_0000_0000);
    assert(pow256(9) == 0x100_0000_0000_0000_0000);
    assert(pow256(10) == 0x1_0000_0000_0000_0000_0000);
    assert(pow256(11) == 0x100_0000_0000_0000_0000_0000);
    assert(pow256(12) == 0x1_0000_0000_0000_0000_0000_0000);
    assert(pow256(13) == 0x100_0000_0000_0000_0000_0000_0000);
    assert(pow256(14) == 0x1_0000_0000_0000_0000_0000_0000_0000);
    assert(pow256(15) == 0x100_0000_0000_0000_0000_0000_0000_0000);
    assert(pow256(16) == 0x1_0000_0000_0000_0000_0000_0000_0000_0000);
}

} // verus!
