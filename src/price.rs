use vstd::prelude::*;

verus! {

/// Offset of the amount field in a token account.
pub const AMOUNT_OFFSET: usize = 64;

/// Little-endian value of `bytes`.
pub open spec fn le_value(bytes: Seq<u8>) -> nat
    decreases bytes.len(),
{
    if bytes.len() == 0 {
        0
    } else {
        (bytes[0] + 256 * le_value(bytes.drop_first())) as nat
    }
}

proof fn lemma_le_value_bound(bytes: Seq<u8>)
    ensures
        le_value(bytes) < pow256(bytes.len()),
    decreases bytes.len(),
{
    if bytes.len() > 0 {
        let rest = bytes.drop_first();
        lemma_le_value_bound(rest);
        let v = le_value(rest);
        let p = pow256(rest.len());
        assert(bytes[0] + 256 * v < 256 * p) by (nonlinear_arith)
            requires
                v < p,
                bytes[0] < 256,
        ;
    }
}

pub open spec fn pow256(n: nat) -> nat
    decreases n,
{
    if n == 0 {
        1
    } else {
        256 * pow256((n - 1) as nat)
    }
}

/// Pool state reader for Orca whirlpools.
pub struct OrcaClient {}

impl OrcaClient {
    pub fn new() -> (r: OrcaClient) {
        OrcaClient {  }
    }
}

/// Pool state reader for Raydium pools.
pub struct RaydiumClient {}

impl RaydiumClient {
    pub fn new() -> (r: RaydiumClient) {
        RaydiumClient {  }
    }

    /// Balance held in a token account's data: the little-endian 64-bit
    /// amount at its fixed offset, or 0 where the data is too short.
    pub fn token_account_amount(data: &[u8]) -> (r: u64)
        ensures
            data@.len() >= 72 ==> r == le_value(data@.subrange(64, 72)),
            data@.len() < 72 ==> r == 0,
    {
        if data.len() < 72 {
            return 0;
        }
        let mut v: u64 = 0;
        let mut j: usize = 8;
        while j > 0
            invariant
                0 <= j <= 8,
                data@.len() >= 72,
                v == le_value(data@.subrange(64 + j as int, 72)),
            decreases j,
        {
            j = j - 1;
            let ghost tail = data@.subrange(64 + j as int, 72);
            proof {
                assert(tail.drop_first() =~= data@.subrange(64 + j + 1, 72));
                lemma_le_value_bound(tail.drop_first());
                reveal_with_fuel(pow256, 8);
                assert(pow256(7) == 72057594037927936nat);
                assert(pow256((7 - j) as nat) <= pow256(7)) by {
                    lemma_pow256_mono((7 - j) as nat, 7);
                }
                assert(v < 72057594037927936);
            }
            v = data[AMOUNT_OFFSET + j] as u64 + 256 * v;
        }
        proof {
            assert(data@.subrange(64 + j as int, 72) =~= data@.subrange(64, 72));
        }
        v
    }
}

proof fn lemma_pow256_mono(a: nat, b: nat)
    requires
        a <= b,
    ensures
        pow256(a) <= pow256(b),
    decreases b,
{
    if a < b {
        lemma_pow256_mono(a, (b - 1) as nat);
    }
}

} // verus!
