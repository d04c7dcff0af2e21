//! A byte splicer: demultiplexes a sequence of bytes into `n` channels by
//! round-robin assignment, so that channel `i` holds exactly the input
//! elements whose position is congruent to `i` modulo `n`, in input order.
//!
//! Three variants share one contract: a single direct pass, a strided pass
//! per channel, and a strided pass per channel run on rayon's worker pool.
//! A channel count of zero is excluded by precondition: the operation has no
//! meaning for it.

use rayon::iter::IndexedParallelIterator;
use rayon::iter::IntoParallelRefIterator;
use rayon::iter::ParallelIterator;
use vstd::prelude::*;

pub mod laws;
pub mod model;

verus! {

use crate::model::lemma_mod_characterizes;
use crate::model::lemma_stride_seq_push;
use crate::model::stride_seq;
use vstd::arithmetic::div_mod::lemma_div_nonincreasing;

/// Direct splice: a single pass over the input, appending the element at
/// position `p` to channel `p % channels`. Each channel is pre-sized to the
/// largest length any channel can reach.
pub fn splice(channels: usize, data: &[u8]) -> (out: Vec<Vec<u8>>)
    requires
        channels >= 1,
    ensures
        out@.len() == channels,
        forall|i: int|
            0 <= i < channels ==> #[trigger] out@[i]@ == stride_seq(
                data@,
                i,
                channels as int,
            ),
{
    let each_len = if data.len() == 0 {
        0
    } else {
        proof {
            lemma_div_nonincreasing(data.len() - 1, channels as int);
        }
        (data.len() - 1) / channels + 1
    };
    let mut out: Vec<Vec<u8>> = Vec::new();
    while out.len() < channels
        invariant
            out@.len() <= channels,
            forall|i: int| 0 <= i < out@.len() ==> #[trigger] out@[i]@ == Seq::<u8>::empty(),
        decreases channels - out@.len(),
    {
        out.push(Vec::with_capacity(each_len));
    }
    let ghost s = data@;
    let n = channels;
    let mut p: usize = 0;
    proof {
        assert(s.take(0) =~= Seq::<u8>::empty());
        assert(forall|i: int|
            0 <= i < n ==> #[trigger] stride_seq(s.take(0), i, n as int) == Seq::<u8>::empty());
    }
    while p < data.len()
        invariant
            n >= 1,
            p <= data.len(),
            out@.len() == n,
            data@ == s,
            forall|i: int|
                0 <= i < n ==> #[trigger] out@[i]@ == stride_seq(s.take(p as int), i, n as int),
        decreases data.len() - p,
    {
        let idx = p % n;
        let d = data[p];
        out[idx].push(d);
        proof {
            let pi = p as int;
            let ni = n as int;
            assert(s.take(pi + 1) =~= s.take(pi).push(s[pi]));
            assert forall|i: int| 0 <= i < ni implies #[trigger] out@[i]@ == stride_seq(
                s.take(pi + 1),
                i,
                ni,
            ) by {
                lemma_stride_seq_push(s.take(pi), s[pi], i, ni);
                lemma_mod_characterizes(pi, ni, i);
            }
        }
        p = p + 1;
    }
    proof {
        assert(s.take(data@.len() as int) =~= s);
    }
    out
}

/// One strided pass: collect the elements of `data` at positions `offset`,
/// `offset + stride`, `offset + 2 * stride`, ... in order.
fn collect_strided(data: &[u8], offset: usize, stride: usize) -> (ch: Vec<u8>)
    requires
        stride >= 1,
    ensures
        ch@ == stride_seq(data@, offset as int, stride as int),
{
    let mut ch: Vec<u8> = Vec::new();
    let mut j: usize = offset;
    while j < data.len()
        invariant
            stride >= 1,
            stride_seq(data@, offset as int, stride as int) =~= ch@ + stride_seq(
                data@,
                j as int,
                stride as int,
            ),
        decreases data.len() - j,
    {
        let d = data[j];
        ch.push(d);
        proof {
            assert(ch@ + stride_seq(data@, j + stride, stride as int) =~= ch@.drop_last() + (seq![
                data@[j as int],
            ] + stride_seq(data@, j + stride, stride as int)));
        }
        if stride < data.len() - j {
            j = j + stride;
        } else {
            proof {
                assert(stride_seq(data@, j + stride, stride as int) == Seq::<u8>::empty());
                assert(stride_seq(data@, data@.len() as int, stride as int) == Seq::<u8>::empty());
            }
            j = data.len();
        }
    }
    proof {
        assert(ch@ + stride_seq(data@, j as int, stride as int) =~= ch@);
    }
    ch
}

/// One strided pass run on rayon's worker pool. Relies on rayon's slice
/// `par_iter`, an indexed parallel iterator that yields the slice's elements
/// in position order: `skip(offset)` drops the first `offset` of them,
/// `step_by(stride)` keeps every `stride`th of the rest starting with the
/// first, and `collect` into a `Vec` preserves that order, so the result is
/// the elements at positions `offset`, `offset + stride`, ... exactly as the
/// sequential pass produces them.
#[verifier::external_body]
fn collect_strided_parallel(data: &[u8], offset: usize, stride: usize) -> (ch: Vec<u8>)
    requires
        stride >= 1,
    ensures
        ch@ == stride_seq(data@, offset as int, stride as int),
{
    data.par_iter().copied().skip(offset).step_by(stride).collect()
}

/// Parallel strided splice: the same per-channel passes as the strided
/// variant, but each pass runs on a worker of rayon's pool; the results are
/// collected in channel order, not completion order.
pub fn splice_parallel(channels: usize, data: &[u8]) -> (out: Vec<Vec<u8>>)
    requires
        channels >= 1,
    ensures
        out@.len() == channels,
        forall|i: int|
            0 <= i < channels ==> #[trigger] out@[i]@ == stride_seq(
                data@,
                i,
                channels as int,
            ),
{
    let mut out: Vec<Vec<u8>> = Vec::new();
    let mut offset: usize = 0;
    while offset < channels
        invariant
            channels >= 1,
            offset <= channels,
            out@.len() == offset,
            forall|i: int|
                0 <= i < offset ==> #[trigger] out@[i]@ == stride_seq(data@, i, channels as int),
        decreases channels - offset,
    {
        let ch = collect_strided_parallel(data, offset, channels);
        out.push(ch);
        offset = offset + 1;
    }
    out
}

/// Strided splice: one independent pass per channel, each walking the input
/// with stride `channels` from start offset equal to the channel index.
pub fn splice_stepped(channels: usize, data: &[u8]) -> (out: Vec<Vec<u8>>)
    requires
        channels >= 1,
    ensures
        out@.len() == channels,
        forall|i: int|
            0 <= i < channels ==> #[trigger] out@[i]@ == stride_seq(
                data@,
                i,
                channels as int,
            ),
{
    let mut out: Vec<Vec<u8>> = Vec::new();
    let mut offset: usize = 0;
    while offset < channels
        invariant
            channels >= 1,
            offset <= channels,
            out@.len() == offset,
            forall|i: int|
                0 <= i < offset ==> #[trigger] out@[i]@ == stride_seq(data@, i, channels as int),
        decreases channels - offset,
    {
        let ch = collect_strided(data, offset, channels);
        out.push(ch);
        offset = offset + 1;
    }
    out
}

} // verus!
