//! Integer bookkeeping of the transformer: how the model width splits over
//! attention heads and which positions the causal mask hides.
use vstd::prelude::*;
use vstd::arithmetic::div_mod::lemma_fundamental_div_mod_converse;

verus! {

/// Width of one attention head: the model width shared evenly by the heads.
pub fn head_dim(d_model: usize, num_heads: usize) -> (d_k: usize)
    requires
        num_heads > 0,
        d_model % num_heads == 0,
    ensures
        d_k == d_model / num_heads,
        d_k * num_heads == d_model,
{
    let d_k = d_model / num_heads;
    proof {
        vstd::arithmetic::div_mod::lemma_fundamental_div_mod(d_model as int, num_heads as int);
        assert(d_k * num_heads == num_heads * d_k) by (nonlinear_arith);
    }
    d_k
}

/// Row-major causal mask over `n` positions: entry `p` stands for query
/// position `p / n` and key position `p % n`, and is hidden when the key comes
/// after the query.
pub open spec fn causal_mask_spec(n: nat) -> Seq<bool> {
    Seq::new(n * n, |p: int| p % (n as int) > p / (n as int))
}

/// The causal mask of a sequence of `seq_len` positions, row after row:
/// `true` where position `j` lies in the future of position `i` and must be hidden.
pub fn causal_mask(seq_len: usize) -> (hidden: Vec<bool>)
    requires
        seq_len * seq_len <= usize::MAX,
    ensures
        hidden@ == causal_mask_spec(seq_len as nat),
{
    let n = seq_len;
    let mut hidden: Vec<bool> = Vec::new();
    let ghost full = causal_mask_spec(n as nat);
    proof {
        assert(0 * n == 0);
        assert(full.take(0) =~= hidden@);
    }
    for i in 0..n
        invariant
            n == seq_len,
            n * n <= usize::MAX,
            full == causal_mask_spec(n as nat),
            i <= n,
            hidden@ == full.take(i * n),
    {
        for j in 0..n
            invariant
                n == seq_len,
                n * n <= usize::MAX,
                full == causal_mask_spec(n as nat),
                i < n,
                hidden@ == full.take(i * n + j),
        {
            proof {
                assert(i * n + j < n * n) by (nonlinear_arith)
                    requires i < n, j < n;
                lemma_fundamental_div_mod_converse((i * n + j) as int, n as int, i as int, j as int);
                assert(full[i * n + j] == (j > i));
                assert(full.take(i * n + j + 1) =~= full.take(i * n + j).push(j > i));
            }
            hidden.push(j > i);
        }
        proof {
            assert(i * n + n == (i + 1) * n) by (nonlinear_arith);
        }
    }
    proof {
        assert(full.take(n * n) =~= full);
    }
    hidden
}

/// Query `i` may look at key `j` of an `n`-position mask exactly when `j <= i`.
pub proof fn lemma_causal_mask_entry(n: nat, i: nat, j: nat)
    requires
        i < n,
        j < n,
    ensures
        i * n + j < n * n,
        causal_mask_spec(n)[(i * n + j) as int] == (j > i),
{
    assert(i * n + j < n * n) by (nonlinear_arith)
        requires i < n, j < n;
    lemma_fundamental_div_mod_converse((i * n + j) as int, n as int, i as int, j as int);
}

} // verus!
