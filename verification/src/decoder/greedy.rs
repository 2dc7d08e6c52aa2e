//! Greedy argmax decoder: the baseline that emits the per-step argmax token
//! whenever it differs from the previous step's argmax and is not the blank.

use super::Decoder;
use super::DecoderOutput;
use super::output_wf;
use super::outputs_sorted;
use super::outputs_wf;
use crate::score::spec_cap_add;
use vstd::prelude::*;

verus! {

/// Index of the first maximum of `data[base .. base + len]`, relative to
/// `base`: ties go to the earliest position.
pub open spec fn argmax_in(data: Seq<i64>, base: int, len: int) -> int
    decreases len,
{
    if len <= 1 {
        0
    } else {
        let p = argmax_in(data, base, len - 1);
        if data[base + (len - 1)] > data[base + p] {
            len - 1
        } else {
            p
        }
    }
}

/// The first maximum is in range, dominates every element, and strictly
/// dominates everything before it.
pub proof fn lemma_argmax_in(data: Seq<i64>, base: int, len: int)
    requires
        1 <= len,
        0 <= base,
        base + len <= data.len(),
    ensures
        0 <= argmax_in(data, base, len) < len,
        forall|j: int|
            0 <= j < len ==> #[trigger] data[base + j] <= data[base + argmax_in(data, base, len)],
        forall|j: int|
            0 <= j < argmax_in(data, base, len) ==> #[trigger] data[base + j] < data[base
                + argmax_in(data, base, len)],
    decreases len,
{
    if len > 1 {
        lemma_argmax_in(data, base, len - 1);
    }
}

/// The three properties above pin the argmax down: any index with them is it.
pub proof fn lemma_argmax_unique(data: Seq<i64>, base: int, len: int, i: int)
    requires
        1 <= len,
        0 <= base,
        base + len <= data.len(),
        0 <= i < len,
        forall|j: int| 0 <= j < len ==> #[trigger] data[base + j] <= data[base + i],
        forall|j: int| 0 <= j < i ==> #[trigger] data[base + j] < data[base + i],
    ensures
        i == argmax_in(data, base, len),
{
    lemma_argmax_in(data, base, len);
    let r = argmax_in(data, base, len);
    assert(data[base + i] <= data[base + r]);
    assert(data[base + r] <= data[base + i]);
}

/// The emissions of a greedy decode from step `t` on, given that the argmax
/// of the previous step was `last`: pairs of (token, step).
pub open spec fn greedy_emits(
    data: Seq<i64>,
    steps: int,
    v: int,
    blank: i32,
    t: int,
    last: int,
) -> Seq<(int, int)>
    decreases steps - t,
{
    if t < 0 || t >= steps {
        Seq::empty()
    } else {
        let a = argmax_in(data, t * v, v);
        let tail = greedy_emits(data, steps, v, blank, t + 1, a);
        if a != last && a != blank as int {
            seq![(a, t)] + tail
        } else {
            tail
        }
    }
}

/// Total greedy score: the accumulator folded left with the clamped sum of
/// the emitted tokens' acoustic scores.
pub open spec fn greedy_score(data: Seq<i64>, v: int, es: Seq<(int, int)>, acc: int) -> int
    decreases es.len(),
{
    if es.len() == 0 {
        acc
    } else {
        greedy_score(
            data,
            v,
            es.drop_first(),
            spec_cap_add(acc, data[es[0].1 * v + es[0].0] as int),
        )
    }
}

/// The value and index of the first maximum of `data[base .. base + len]`.
fn find_max_index(data: &[i64], base: usize, len: usize) -> (r: (i64, usize))
    requires
        1 <= len,
        base + len <= data@.len(),
    ensures
        r.1 < len,
        r.0 == data@[base as int + r.1 as int],
        forall|j: int| 0 <= j < len as int ==> #[trigger] data@[base as int + j] <= r.0,
        forall|j: int| 0 <= j < r.1 as int ==> #[trigger] data@[base as int + j] < r.0,
        r.1 as int == argmax_in(data@, base as int, len as int),
{
    let dl = data.len();
    let mut max_index: usize = 0;
    let mut max_value: i64 = data[base];
    let mut i: usize = 1;
    while i < len
        invariant
            1 <= i <= len,
            base + len <= dl,
            dl == data@.len(),
            max_index < i,
            max_value == data@[base as int + max_index as int],
            forall|j: int| 0 <= j < i as int ==> #[trigger] data@[base as int + j] <= max_value,
            forall|j: int| 0 <= j < max_index as int ==> #[trigger] data@[base as int + j] < max_value,
        decreases len - i,
    {
        let v = data[base + i];
        if v > max_value {
            max_index = i;
            max_value = v;
        }
        i = i + 1;
    }
    proof {
        lemma_argmax_unique(data@, base as int, len as int, max_index as int);
    }
    (max_value, max_index)
}

/// The reference argmax decoder; it shares the output type of the beam
/// search and produces exactly one hypothesis.
#[derive(Clone, Debug)]
pub struct GreedyDecoder;

impl Decoder for GreedyDecoder {
    /// A well-shaped matrix with a blank inside the alphabet, small enough
    /// that each token fits an `i32`.
    open spec fn decode_req(
        pre: Self,
        data: Seq<i64>,
        steps: usize,
        n_vocab: usize,
        blank_id: i32,
    ) -> bool {
        &&& data.len() == steps * n_vocab
        &&& 1 <= n_vocab
        &&& n_vocab <= i32::MAX
        &&& 0 <= blank_id
        &&& (blank_id as int) < n_vocab as int
    }

    /// Exactly one well-formed output whose tokens, steps and scores are the
    /// greedy emissions of the matrix.
    open spec fn decode_ens(
        pre: Self,
        post: Self,
        data: Seq<i64>,
        steps: usize,
        n_vocab: usize,
        blank_id: i32,
        outputs: Seq<DecoderOutput>,
    ) -> bool {
        let v = n_vocab as int;
        let es = greedy_emits(data, steps as int, v, blank_id, 0, blank_id as int);
        &&& outputs.len() == 1
        &&& outputs_wf(outputs, steps as int, v, blank_id)
        &&& outputs_sorted(outputs)
        &&& outputs[0].tokens@.len() == es.len()
        &&& forall|k: int|
            0 <= k < es.len() ==> (#[trigger] outputs[0].tokens@[k]) as int == es[k].0
                && outputs[0].timesteps@[k] as int == es[k].1 && outputs[0].am_scores@[k]
                == data[es[k].1 * v + es[k].0] && outputs[0].lm_scores@[k] == 0
        &&& outputs[0].score as int == greedy_score(data, v, es, 0)
    }

    fn decode(&mut self, data: &[i64], steps: usize, n_vocab: usize, blank_id: i32) -> (outputs:
        Vec<DecoderOutput>)
    {
        let ghost v = n_vocab as int;
        let ghost es_full = greedy_emits(data@, steps as int, v, blank_id, 0, blank_id as int);
        let mut out = DecoderOutput::new();
        let mut last_token: i32 = blank_id;
        let ghost mut done: Seq<(int, int)> = Seq::empty();
        let mut t: usize = 0;
        proof {
            assert(es_full =~= done + greedy_emits(
                data@,
                steps as int,
                v,
                blank_id,
                0,
                last_token as int,
            ));
        }
        while t < steps
            invariant
                t <= steps,
                v == n_vocab as int,
                1 <= n_vocab,
                n_vocab <= i32::MAX,
                0 <= blank_id,
                (blank_id as int) < v,
                data@.len() == steps * n_vocab,
                es_full == greedy_emits(data@, steps as int, v, blank_id, 0, blank_id as int),
                es_full =~= done + greedy_emits(
                    data@,
                    steps as int,
                    v,
                    blank_id,
                    t as int,
                    last_token as int,
                ),
                greedy_score(data@, v, es_full, 0) == greedy_score(
                    data@,
                    v,
                    greedy_emits(data@, steps as int, v, blank_id, t as int, last_token as int),
                    out.score as int,
                ),
                out.tokens@.len() == done.len(),
                out.timesteps@.len() == done.len(),
                out.am_scores@.len() == done.len(),
                out.lm_scores@.len() == done.len(),
                forall|k: int|
                    0 <= k < done.len() ==> ((#[trigger] out.tokens@[k]) as int) == done[k].0,
                forall|k: int|
                    0 <= k < done.len() ==> ((#[trigger] out.timesteps@[k]) as int) == done[k].1,
                forall|k: int|
                    0 <= k < done.len() ==> (#[trigger] out.am_scores@[k]) == data@[done[k].1 * v
                        + done[k].0],
                forall|k: int| 0 <= k < done.len() ==> (#[trigger] out.lm_scores@[k]) == 0i64,
                forall|k: int|
                    0 <= k < done.len() ==> (#[trigger] done[k]).0 != blank_id as int && 0 <= done[k].0 < v,
                forall|k: int| 0 <= k < done.len() ==> 0 <= (#[trigger] done[k]).1 < t as int,
                forall|k: int| 0 <= k < done.len() - 1 ==> (#[trigger] done[k]).1 < done[k + 1].1,
            decreases steps - t,
        {
            let dlen = data.len();
            proof {
                assert(t * n_vocab + n_vocab <= steps * n_vocab) by (nonlinear_arith)
                    requires
                        (t as int) < steps as int,
                        1 <= n_vocab,
                ;
                assert(t * n_vocab >= 0) by (nonlinear_arith)
                    requires
                        0 <= t,
                        0 <= n_vocab,
                ;
                assert(t * n_vocab + n_vocab <= dlen);
            }
            let base = t * n_vocab;
            let (am, target) = find_max_index(data, base, n_vocab);
            let token = target as i32;
            let ghost rem = greedy_emits(
                data@,
                steps as int,
                v,
                blank_id,
                t as int,
                last_token as int,
            );
            let ghost a = argmax_in(data@, t as int * v, v);
            proof {
                assert(base as int == t as int * v);
                assert(a == target as int);
            }
            if last_token != token && token != blank_id {
                out.tokens.push(token);
                out.timesteps.push(t);
                out.am_scores.push(am);
                out.lm_scores.push(0);
                out.score = crate::score::cap_add(out.score, am);
                proof {
                    assert(rem == seq![(a, t as int)] + greedy_emits(
                        data@,
                        steps as int,
                        v,
                        blank_id,
                        t as int + 1,
                        a,
                    ));
                    assert(rem.drop_first() =~= greedy_emits(
                        data@,
                        steps as int,
                        v,
                        blank_id,
                        t as int + 1,
                        a,
                    ));
                    assert(rem[0] == (a, t as int));
                    let ghost prev = done;
                    done = done.push((a, t as int));
                    assert(es_full =~= done + greedy_emits(
                        data@,
                        steps as int,
                        v,
                        blank_id,
                        t as int + 1,
                        a,
                    ));
                    assert forall|k: int| 0 <= k < done.len() - 1 implies (
                    #[trigger] done[k]).1 < done[k + 1].1 by {
                        if k < prev.len() - 1 {
                            assert(done[k] == prev[k] && done[k + 1] == prev[k + 1]);
                            assert((prev[k]).1 < (prev[k + 1]).1);
                        } else {
                            assert(done[k] == prev[k] && done[k + 1] == (a, t as int));
                            assert((prev[k]).1 < t as int);
                        }
                    }
                }
            } else {
                proof {
                    assert(rem == greedy_emits(data@, steps as int, v, blank_id, t as int + 1, a));
                }
            }
            last_token = token;
            t = t + 1;
        }
        proof {
            assert(greedy_emits(data@, steps as int, v, blank_id, steps as int, last_token as int)
                =~= Seq::<(int, int)>::empty());
            assert(es_full =~= done);
        }
        let mut outputs: Vec<DecoderOutput> = Vec::new();
        proof {
            assert(done == es_full);
        }
        outputs.push(out);
        proof {
            assert(outputs@[0] == out);
            assert forall|k: int|
                0 <= k < out.tokens@.len() implies #[trigger] out.tokens@[k] != blank_id && 0
                <= out.tokens@[k] && (out.tokens@[k] as int) < v by {
                assert((done[k]).0 != blank_id as int && 0 <= (done[k]).0 < v);
            }
            assert forall|k: int|
                0 <= k < out.timesteps@.len() implies ((#[trigger] out.timesteps@[k]) as int)
                < steps as int by {
                assert(0 <= (done[k]).1 < steps as int);
            }
            assert forall|k: int|
                0 <= k < out.timesteps@.len() - 1 implies ((#[trigger] out.timesteps@[k]) as int)
                < (out.timesteps@[k + 1] as int) by {
                assert((done[k]).1 < (done[k + 1]).1);
            }
            assert(output_wf(out, steps as int, v, blank_id));
        }
        outputs
    }
}

/// Shifting every emission in the matrix by one constant leaves the greedy
/// emissions — tokens and timesteps alike — unchanged.
pub proof fn lemma_greedy_shift(
    data: Seq<i64>,
    shifted: Seq<i64>,
    c: int,
    steps: int,
    v: int,
    blank: i32,
    t: int,
    last: int,
)
    requires
        shifted.len() == data.len(),
        forall|i: int| 0 <= i < data.len() ==> #[trigger] shifted[i] as int == data[i] as int + c,
        1 <= v,
        steps * v <= data.len(),
        0 <= t,
    ensures
        greedy_emits(shifted, steps, v, blank, t, last) == greedy_emits(
            data,
            steps,
            v,
            blank,
            t,
            last,
        ),
    decreases steps - t,
{
    if 0 <= t < steps {
        assert(0 <= t * v && t * v + v <= steps * v) by (nonlinear_arith)
            requires
                0 <= t < steps,
                1 <= v,
        ;
        lemma_argmax_shift(data, shifted, c, t * v, v);
        let a = argmax_in(data, t * v, v);
        lemma_greedy_shift(data, shifted, c, steps, v, blank, t + 1, a);
    }
}

/// The first maximum of a range does not move when every element is shifted
/// by one constant.
pub proof fn lemma_argmax_shift(data: Seq<i64>, shifted: Seq<i64>, c: int, base: int, len: int)
    requires
        shifted.len() == data.len(),
        forall|i: int| 0 <= i < data.len() ==> #[trigger] shifted[i] as int == data[i] as int + c,
        1 <= len,
        0 <= base,
        base + len <= data.len(),
    ensures
        argmax_in(shifted, base, len) == argmax_in(data, base, len),
    decreases len,
{
    if len > 1 {
        lemma_argmax_shift(data, shifted, c, base, len - 1);
        lemma_argmax_in(data, base, len - 1);
        let p = argmax_in(data, base, len - 1);
        assert(shifted[base + (len - 1)] as int == data[base + (len - 1)] as int + c);
        assert(shifted[base + p] as int == data[base + p] as int + c);
    }
}

} // verus!
