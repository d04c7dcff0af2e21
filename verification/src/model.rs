use vstd::prelude::*;
use vstd::arithmetic::div_mod::*;

verus! {

/// The elements of `s` at positions `offset`, `offset + n`, `offset + 2*n`, ...
/// in increasing order of position: the contents of one channel of a splice
/// with stride `n`.
pub open spec fn stride_seq(s: Seq<u8>, offset: int, n: int) -> Seq<u8>
    decreases (if offset <= s.len() { s.len() - offset } else { 0 }) when n >= 1 && 0 <= offset
{
    if n >= 1 && 0 <= offset && offset < s.len() {
        seq![s[offset]] + stride_seq(s, offset + n, n)
    } else {
        Seq::empty()
    }
}

/// The whole result of splicing `s` into `n` channels: channel `i` holds the
/// elements of `s` whose position is congruent to `i` modulo `n`.
pub open spec fn splice_model(n: int, s: Seq<u8>) -> Seq<Seq<u8>> {
    Seq::new(n as nat, |i: int| stride_seq(s, i, n))
}

/// How many positions `offset`, `offset + n`, ... fall below `len`:
/// `ceil((len - offset) / n)` when `offset < len`, else zero.
pub open spec fn channel_len(len: int, offset: int, n: int) -> int {
    if offset < len {
        (len - offset + n - 1) / n
    } else {
        0
    }
}

/// A channel's length is given by the closed formula `channel_len`.
pub proof fn lemma_stride_seq_len(s: Seq<u8>, offset: int, n: int)
    requires
        n >= 1,
        0 <= offset,
    ensures
        stride_seq(s, offset, n).len() == channel_len(s.len() as int, offset, n),
    decreases s.len() - offset,
{
    let len = s.len() as int;
    if offset < len {
        let d = len - offset;
        if offset + n < len {
            lemma_stride_seq_len(s, offset + n, n);
            lemma_div_plus_one(d - 1, n);
        } else {
            assert(stride_seq(s, offset + n, n) == Seq::<u8>::empty());
            lemma_fundamental_div_mod_converse(d + n - 1, n, 1, d - 1);
        }
    }
}

/// Appending one element to the input extends exactly the channel whose
/// offset matches the new position modulo `n`, and leaves the others as
/// they were.
pub proof fn lemma_stride_seq_push(s: Seq<u8>, x: u8, offset: int, n: int)
    requires
        n >= 1,
        0 <= offset,
    ensures
        stride_seq(s.push(x), offset, n) == (if offset <= s.len() && (s.len() - offset) % n == 0 {
            stride_seq(s, offset, n).push(x)
        } else {
            stride_seq(s, offset, n)
        }),
    decreases (if offset <= s.len() { s.len() - offset } else { 0 }),
{
    let t = s.push(x);
    if offset > s.len() {
        assert(stride_seq(t, offset, n) == Seq::<u8>::empty());
        assert(stride_seq(s, offset, n) == Seq::<u8>::empty());
    } else if offset == s.len() {
        assert(t[offset] == x);
        assert(stride_seq(t, offset + n, n) == Seq::<u8>::empty());
        assert((s.len() - offset) % n == 0) by {
            lemma_small_mod(0, n as nat);
        }
        assert(stride_seq(s, offset, n) == Seq::<u8>::empty());
        assert(seq![x] + Seq::<u8>::empty() =~= Seq::<u8>::empty().push(x));
    } else {
        let d = s.len() - offset;
        lemma_stride_seq_push(s, x, offset + n, n);
        lemma_mod_sub_multiples_vanish(d, n);
        assert((d - n) % n == d % n);
        if d % n == 0 {
            assert(d >= n) by {
                if d < n {
                    lemma_small_mod(d as nat, n as nat);
                }
            }
            assert(t[offset] == s[offset]);
            assert(seq![s[offset]] + stride_seq(s, offset + n, n).push(x) =~= (seq![s[offset]]
                + stride_seq(s, offset + n, n)).push(x));
        }
    }
}

/// For `0 <= i < n`, position `p` lands in channel `i` exactly when
/// `p % n == i`; moreover `p % n <= p`.
pub proof fn lemma_mod_characterizes(p: int, n: int, i: int)
    requires
        n >= 1,
        0 <= p,
        0 <= i < n,
    ensures
        (p % n == i) <==> ((p - i) % n == 0),
        p % n <= p,
{
    lemma_fundamental_div_mod(p, n);
    lemma_mod_division_less_than_divisor(p, n);
    if p < n {
        lemma_small_mod(p as nat, n as nat);
    }
    if p % n == i {
        assert(p - i == n * (p / n));
        lemma_mod_multiples_basic(p / n, n);
        assert((p / n) * n == n * (p / n)) by (nonlinear_arith);
        assert(((p / n) * n) % n == 0);
        assert((p - i) % n == 0);
    }
    if (p - i) % n == 0 {
        lemma_fundamental_div_mod(p - i, n);
        let q = (p - i) / n;
        assert(p - i == n * q);
        assert(p == q * n + i) by (nonlinear_arith)
            requires
                p - i == n * q,
        ;
        lemma_fundamental_div_mod_converse(p, n, q, i);
        assert(p % n == i);
    }
}

/// The `k`th element of a channel is the input element at position
/// `offset + k * n`.
pub proof fn lemma_stride_seq_index(s: Seq<u8>, offset: int, n: int, k: int)
    requires
        n >= 1,
        0 <= offset,
        0 <= k,
        offset + k * n < s.len(),
    ensures
        k < stride_seq(s, offset, n).len(),
        stride_seq(s, offset, n)[k] == s[offset + k * n],
    decreases k,
{
    assert(k * n >= 0) by (nonlinear_arith)
        requires
            k >= 0,
            n >= 1,
    ;
    if k == 0 {
        assert(0 * n == 0) by (nonlinear_arith);
    } else {
        assert((k - 1) * n + n == k * n) by (nonlinear_arith);
        lemma_stride_seq_index(s, offset + n, n, k - 1);
        assert(stride_seq(s, offset, n) == seq![s[offset]] + stride_seq(s, offset + n, n));
        assert(stride_seq(s, offset, n)[k] == stride_seq(s, offset + n, n)[k - 1]);
    }
}

}
