use vstd::prelude::*;
use vstd::arithmetic::div_mod::*;

use crate::model::channel_len;
use crate::model::lemma_stride_seq_index;
use crate::model::lemma_stride_seq_len;
use crate::model::splice_model;
use crate::model::stride_seq;

verus! {

/// Equivalence: the splice contract determines the output completely, so any
/// two results that meet it for the same channel count and input — as the
/// direct, strided and parallel variants all do — are equal, and equal to the
/// model.
pub proof fn lemma_variants_agree(n: int, s: Seq<u8>, a: Seq<Seq<u8>>, b: Seq<Seq<u8>>)
    requires
        n >= 1,
        a.len() == n,
        forall|i: int| 0 <= i < n ==> #[trigger] a[i] == stride_seq(s, i, n),
        b.len() == n,
        forall|i: int| 0 <= i < n ==> #[trigger] b[i] == stride_seq(s, i, n),
    ensures
        a == b,
        a == splice_model(n, s),
{
    assert(a =~= splice_model(n, s));
    assert(b =~= splice_model(n, s));
}

/// Reading channel `p % n` at index `p / n` for each input position `p`:
/// the round-robin re-interleaving of the channels.
pub open spec fn reassemble(n: int, s: Seq<u8>) -> Seq<u8> {
    Seq::new(s.len(), |p: int| splice_model(n, s)[p % n][p / n])
}

/// Partition completeness: re-interleaving the channels round-robin
/// reconstructs the input exactly — every input element sits in its channel,
/// within bounds, at its round number, and nothing else does.
pub proof fn lemma_partition_complete(n: int, s: Seq<u8>)
    requires
        n >= 1,
    ensures
        reassemble(n, s) == s,
        forall|p: int|
            0 <= p < s.len() ==> 0 <= p % n < n && 0 <= p / n < #[trigger] splice_model(n, s)[p
                % n].len(),
{
    assert forall|p: int| 0 <= p < s.len() implies 0 <= p % n < n && 0 <= p / n
        < #[trigger] splice_model(n, s)[p % n].len() && splice_model(n, s)[p % n][p / n] == s[p] by {
        let i = p % n;
        let k = p / n;
        lemma_fundamental_div_mod(p, n);
        lemma_mod_division_less_than_divisor(p, n);
        lemma_div_pos_is_pos(p, n);
        assert(n * k == k * n) by (nonlinear_arith);
        assert(i + k * n == p);
        lemma_stride_seq_index(s, i, n, k);
    }
    assert(reassemble(n, s) =~= s);
}

/// Size law: channel `i` holds `ceil((len - i) / n)` elements when `i < len`
/// and none otherwise; equivalently `len / n`, plus one for the first
/// `len % n` channels.
pub proof fn lemma_size_law(n: int, s: Seq<u8>, i: int)
    requires
        n >= 1,
        0 <= i < n,
    ensures
        splice_model(n, s)[i].len() == channel_len(s.len() as int, i, n),
        splice_model(n, s)[i].len() == s.len() as int / n + (if i < s.len() as int % n {
            1int
        } else {
            0int
        }),
{
    let len = s.len() as int;
    lemma_stride_seq_len(s, i, n);
    let q = len / n;
    let r = len % n;
    lemma_fundamental_div_mod(len, n);
    lemma_mod_division_less_than_divisor(len, n);
    lemma_div_pos_is_pos(len, n);
    assert(n * q == q * n) by (nonlinear_arith);
    if i >= len {
        lemma_basic_div(len, n);
        lemma_small_mod(len as nat, n as nat);
    } else {
        if i < r {
            assert((q + 1) * n == q * n + n) by (nonlinear_arith);
            lemma_fundamental_div_mod_converse_div(len - i + n - 1, n, q + 1, r - i - 1);
        } else {
            lemma_fundamental_div_mod_converse_div(len - i + n - 1, n, q, r - i + n - 1);
        }
    }
}

/// Shape of the empty splice: an empty input yields `n` channels, all empty.
pub proof fn lemma_empty_input(n: int, s: Seq<u8>)
    requires
        n >= 1,
        s.len() == 0,
    ensures
        splice_model(n, s).len() == n,
        forall|i: int| 0 <= i < n ==> #[trigger] splice_model(n, s)[i] == Seq::<u8>::empty(),
{
    assert forall|i: int| 0 <= i < n implies #[trigger] splice_model(n, s)[i]
        == Seq::<u8>::empty() by {
        assert(stride_seq(s, i, n) == Seq::<u8>::empty());
    }
}

} // verus!
