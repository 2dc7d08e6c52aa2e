//! Prefix beam-search decoder with language-model fusion.
//!
//! Per timestep the decoder proposes, for every surviving hypothesis and
//! every token of a per-step shortlist, a blank-extended, repeat, or
//! new-token candidate; prunes candidates scoring too far below the best;
//! merges candidates that denote the same collapsed prefix in the same
//! trailing state by log-sum-exp; keeps the best `beam_size` of them; and
//! finally backtracks the survivors into collapsed outputs.

use super::collapse;
use super::collapse_from;
use super::greedy::argmax_in;
use super::greedy::lemma_argmax_in;
use super::Decoder;
use super::DecoderOutput;
use super::output_wf;
use super::outputs_sorted;
use super::outputs_wf;
use crate::lm::EOS_TOKEN;
use crate::lm::LM;
use crate::lm::SequenceState;
use crate::lm::SequenceStateRef;
use crate::score::cap_add;
use crate::score::lemma_cap_add_monotone;
use crate::score::lemma_zero_weight_cancels;
use crate::score::lse_merge;
use crate::score::mul_weight;
use crate::score::spec_cap_add;
use crate::score::spec_lse;
use crate::score::spec_mul_weight;
use crate::score::SCORE_CAP;
use vstd::prelude::*;
use vstd::seq_lib::group_to_multiset_ensures;

verus! {

/// Configuration of a beam search. Scores and weights are fixed-point, in
/// units of `2^-20`.
#[derive(Clone, Copy, PartialEq, Eq, Structural, Debug)]
pub struct BeamSearchDecoderOptions {
    /// Maximum surviving hypotheses per step.
    pub beam_size: usize,
    /// Maximum candidate tokens considered per step (top-k over the alphabet).
    pub beam_size_token: usize,
    /// Candidates scoring more than this below the best candidate are pruned.
    pub beam_threshold: i64,
    /// Weight applied to language-model scores in the combined score.
    pub lm_weight: i64,
}

/// One beam entry: cumulative combined score, the token of the last acoustic
/// step, whether that step was a blank, the per-step acoustic and
/// language-model score increments of the last true emission, the index of
/// the parent entry one layer back, and the interned prefix identity.
#[derive(Clone, Copy, PartialEq, Eq, Structural, Debug)]
pub struct DecoderState {
    /// Cumulative combined log-score.
    pub score: i64,
    /// Token of the last acoustic step.
    pub token: i32,
    /// Whether the last acoustic step was a blank.
    pub prev_blank: bool,
    /// Acoustic increment of the step.
    pub am_score: i64,
    /// Language-model increment of the last true emission.
    pub lm_score: i64,
    /// Index of the parent entry one layer back.
    pub parent_index: usize,
    /// Interned prefix identity.
    pub seq_state: SequenceStateRef,
}

/// A proposed beam entry, before pruning and merging; `emitted` records
/// whether it extends the collapsed prefix by a true emission, so that the
/// language-model state is materialized only for emitting survivors.
#[derive(Clone, Copy, PartialEq, Eq, Structural, Debug)]
struct Candidate {
    state: DecoderState,
    emitted: bool,
}

/// A surviving hypothesis of one layer: its beam state together with the
/// language-model state that continues it.
pub struct Hyp<S> {
    /// The language-model state that continues this hypothesis.
    pub lm_state: S,
    /// The beam state.
    pub state: DecoderState,
}

/// Validity of a beam state for a layer whose predecessor holds `prev_len`
/// entries: the parent index points into the previous layer, the token lies
/// in the alphabet, and the prefix identity names a node of the tree.
pub open spec fn state_ok(s: DecoderState, prev_len: int, n_vocab: int, ncount: int) -> bool {
    &&& (s.parent_index as int) < prev_len
    &&& 0 <= s.token
    &&& (s.token as int) < n_vocab
    &&& (s.seq_state.id as int) < ncount
}

/// Two beam states that agree on everything except the merged score.
spec fn state_like(a: DecoderState, b: DecoderState) -> bool {
    &&& a.token == b.token
    &&& a.prev_blank == b.prev_blank
    &&& a.am_score == b.am_score
    &&& a.lm_score == b.lm_score
    &&& a.parent_index == b.parent_index
    &&& a.seq_state == b.seq_state
}

/// Validity of a whole layer.
pub open spec fn layer_ok<S>(layer: Seq<Hyp<S>>, prev_len: int, n_vocab: int, ncount: int) -> bool {
    forall|i: int|
        0 <= i < layer.len() ==> state_ok((#[trigger] layer[i]).state, prev_len, n_vocab, ncount)
}

/// Validity of the chain of hypothesis layers: one root layer, and each
/// later layer valid with respect to the one before it.
pub open spec fn layers_ok<S>(h: Seq<Vec<Hyp<S>>>, n_vocab: int, ncount: int) -> bool {
    &&& h.len() >= 1
    &&& h[0]@.len() == 1
    &&& forall|t: int|
        0 <= t < h.len() ==> layer_ok(
            (#[trigger] h[t])@,
            if t == 0 {
                1int
            } else {
                h[t - 1]@.len() as int
            },
            n_vocab,
            ncount,
        )
}

/// Merge order of candidates: by prefix identity, then token, then trailing
/// state, then descending score, so that mergeable candidates are adjacent
/// and the best of each run comes first.
spec fn key_le(a: DecoderState, b: DecoderState) -> bool {
    if a.seq_state.id != b.seq_state.id {
        a.seq_state.id < b.seq_state.id
    } else if a.token != b.token {
        a.token < b.token
    } else if a.prev_blank != b.prev_blank {
        !a.prev_blank
    } else {
        a.score >= b.score
    }
}

/// Whether two candidates denote the same collapsed prefix in the same
/// trailing state, and so must be merged.
pub open spec fn same_pattern(a: DecoderState, b: DecoderState) -> bool {
    a.seq_state.id == b.seq_state.id && a.token == b.token && a.prev_blank == b.prev_blank
}

/// Strict lexicographic order on the merge pattern (prefix identity, token,
/// trailing state) alone.
spec fn pattern_lt(a: DecoderState, b: DecoderState) -> bool {
    if a.seq_state.id != b.seq_state.id {
        a.seq_state.id < b.seq_state.id
    } else if a.token != b.token {
        a.token < b.token
    } else {
        !a.prev_blank && b.prev_blank
    }
}

/// The pattern order is transitive.
proof fn lemma_pattern_lt_trans(a: DecoderState, b: DecoderState, c: DecoderState)
    requires
        pattern_lt(a, b),
        pattern_lt(b, c),
    ensures
        pattern_lt(a, c),
{
}

/// The merge order sorts primarily by the pattern: two key-ordered states
/// with different patterns are pattern-ordered.
proof fn lemma_key_le_pattern(a: DecoderState, b: DecoderState)
    requires
        key_le(a, b),
        !same_pattern(a, b),
    ensures
        pattern_lt(a, b),
{
}

/// A layer in which merging is complete: no two entries denote the same
/// collapsed prefix in the same trailing state.
pub open spec fn layer_merged<S>(layer: Seq<Hyp<S>>) -> bool {
    forall|k1: int, k2: int|
        0 <= k1 < k2 < layer.len() ==> !same_pattern(
            (#[trigger] layer[k1]).state,
            (#[trigger] layer[k2]).state,
        )
}

/// Exec comparison deciding `key_le`.
fn key_le_exec(a: &DecoderState, b: &DecoderState) -> (r: bool)
    ensures
        r == key_le(*a, *b),
{
    if a.seq_state.id != b.seq_state.id {
        a.seq_state.id < b.seq_state.id
    } else if a.token != b.token {
        a.token < b.token
    } else if a.prev_blank != b.prev_blank {
        !a.prev_blank
    } else {
        a.score >= b.score
    }
}

/// Exec comparison deciding `same_pattern`.
fn same_pattern_exec(a: &DecoderState, b: &DecoderState) -> (r: bool)
    ensures
        r == same_pattern(*a, *b),
{
    a.seq_state.id == b.seq_state.id && a.token == b.token && a.prev_blank == b.prev_blank
}

/// Clamped sum of the per-step row maxima of the first `t` emission rows:
/// the score of the acoustic argmax path. With no language model, no beam
/// ever does worse, because the best candidate of each step survives
/// pruning, merging only raises scores, and top-k keeps the maximum.
pub open spec fn acoustic_bound(data: Seq<i64>, v: int, t: int) -> int
    decreases t,
{
    if t <= 0 {
        0
    } else {
        spec_cap_add(
            acoustic_bound(data, v, t - 1),
            data[(t - 1) * v + argmax_in(data, (t - 1) * v, v)] as int,
        )
    }
}

/// Whether a candidate score passes the pruning threshold against the
/// current best score.
pub open spec fn admitted(score: int, best: int, threshold: int) -> bool {
    score > best - threshold
}

/// Threshold pruning is shift-invariant: moving a candidate's score and the
/// best score by the same constant does not change whether the candidate is
/// admitted.
pub proof fn lemma_admitted_shift(score: int, best: int, threshold: int, c: int)
    ensures
        admitted(score + c, best + c, threshold) == admitted(score, best, threshold),
{
}

/// Records a proposed candidate: the running best score is raised first, and
/// the candidate is kept only if it scores above the raised best minus the
/// threshold.
fn add_candidate(cands: &mut Vec<Candidate>, best: &mut i64, threshold: i64, c: Candidate)
    ensures
        *final(best) == if c.state.score > *old(best) {
            c.state.score
        } else {
            *old(best)
        },
        final(cands)@ == if admitted(c.state.score as int, *final(best) as int, threshold as int) {
            old(cands)@.push(c)
        } else {
            old(cands)@
        },
{
    if c.state.score > *best {
        *best = c.state.score;
    }
    if (c.state.score as i128) > (*best as i128) - (threshold as i128) {
        cands.push(c);
    }
}

/// Every element of a sequence with the same multiset as another already
/// appears in that other sequence.
proof fn lemma_perm_element<A>(s1: Seq<A>, s2: Seq<A>, i: int)
    requires
        s1.to_multiset() == s2.to_multiset(),
        0 <= i < s2.len(),
    ensures
        exists|j: int| 0 <= j < s1.len() && s1[j] == s2[i],
{
    broadcast use group_to_multiset_ensures;

    assert(s2.contains(s2[i]));
    assert(s2.to_multiset().count(s2[i]) > 0);
    assert(s1.contains(s2[i]));
}

/// Names the permutation that `pdqselect::select_by` produces for the
/// descending-by-first-field order at index `k`: the algorithm draws on no
/// randomness, so the reordering is a function of the contents and the index
/// alone, identical in every run. Its pattern-breaking shuffle seeds a
/// xorshift generator from the slice length with a word-size-dependent
/// variant, so the name is fixed per build target, not across 32- and 64-bit
/// targets.
pub uninterp spec fn pdq_desc_of(s: Seq<(i64, usize)>, k: int) -> Seq<(i64, usize)>;

/// Relies on `pdqselect::select_by`: it reorders the slice in place so that
/// the element at `k` is in its position of the descending-by-first-field
/// order, everything before it compares greater or equal, and everything
/// after compares less or equal; the contents are permuted, never changed,
/// and the reordering depends on the contents and the index alone.
#[verifier::external_body]
fn select_desc(v: &mut Vec<(i64, usize)>, k: usize)
    requires
        k < old(v)@.len(),
    ensures
        final(v)@ == pdq_desc_of(old(v)@, k as int),
        final(v)@.len() == old(v)@.len(),
        final(v)@.to_multiset() == old(v)@.to_multiset(),
        forall|i: int| 0 <= i < k as int ==> (#[trigger] final(v)@[i]).0 >= final(v)@[k as int].0,
        forall|j: int|
            k as int <= j < final(v)@.len() ==> (#[trigger] final(v)@[j]).0 <= final(v)@[k
                as int].0,
{
    pdqselect::select_by(v, k, |a: &(i64, usize), b: &(i64, usize)| b.0.cmp(&a.0));
}

/// Insertion sort of (score, index) pairs by descending score; stable, so
/// equal scores keep their relative order. Every element of the result is an
/// element of the input and the length is unchanged.
fn sort_pairs_desc(input: &Vec<(i64, usize)>) -> (r: Vec<(i64, usize)>)
    ensures
        r@.len() == input@.len(),
        r@.to_multiset() == input@.to_multiset(),
        forall|k: int| 0 <= k < r@.len() ==> input@.contains(#[trigger] r@[k]),
        forall|a: int, b: int| 0 <= a < b < r@.len() ==> (#[trigger] r@[a]).0 >= (#[trigger] r@[b]).0,
{
    broadcast use group_to_multiset_ensures;

    let mut r: Vec<(i64, usize)> = Vec::new();
    let n = input.len();
    let mut i: usize = 0;
    while i < n
        invariant
            i <= n,
            n == input@.len(),
            r@.len() == i as int,
            r@.to_multiset() == input@.subrange(0, i as int).to_multiset(),
            forall|k: int| 0 <= k < r@.len() ==> input@.contains(#[trigger] r@[k]),
            forall|a: int, b: int|
                0 <= a < b < r@.len() ==> (#[trigger] r@[a]).0 >= (#[trigger] r@[b]).0,
        decreases n - i,
    {
        let x = input[i];
        let mut pos: usize = 0;
        while pos < r.len() && r[pos].0 >= x.0
            invariant
                pos <= r@.len(),
                forall|a: int| 0 <= a < pos as int ==> (#[trigger] r@[a]).0 >= x.0,
            decreases r@.len() - pos,
        {
            pos = pos + 1;
        }
        let ghost old_r = r@;
        r.insert(pos, x);
        proof {
            broadcast use group_to_multiset_ensures;

            assert(r@ == old_r.insert(pos as int, x));
            assert(r@.to_multiset() =~= old_r.to_multiset().insert(x));
            assert(input@.subrange(0, i as int + 1) =~= input@.subrange(0, i as int).push(x));
            assert(input@.subrange(0, i as int + 1).to_multiset() =~= input@.subrange(
                0,
                i as int,
            ).to_multiset().insert(x));
            assert forall|k: int| 0 <= k < r@.len() implies input@.contains(#[trigger] r@[k]) by {
                if k < pos as int {
                    assert(r@[k] == old_r[k]);
                } else if k == pos as int {
                    assert(r@[k] == x);
                    assert(input@[i as int] == x);
                } else {
                    assert(r@[k] == old_r[k - 1]);
                }
            }
            assert forall|a: int, b: int|
                0 <= a < b < r@.len() implies (#[trigger] r@[a]).0 >= (#[trigger] r@[b]).0 by {
                let p = pos as int;
                if a < p {
                    assert(r@[a] == old_r[a]);
                } else if a == p {
                    assert(r@[a] == x);
                } else {
                    assert(r@[a] == old_r[a - 1]);
                }
                if b < p {
                    assert(r@[b] == old_r[b]);
                } else if b == p {
                    assert(r@[b] == x);
                } else {
                    assert(r@[b] == old_r[b - 1]);
                }
                if b > p {
                    assert(p < old_r.len());
                    assert(old_r[p].0 < x.0);
                }
            }
        }
        i = i + 1;
    }
    proof {
        assert(input@.subrange(0, n as int) =~= input@);
    }
    r
}

/// Insertion sort of candidates by the merge order `key_le`; every element
/// of the result is an element of the input and the length is unchanged.
fn sort_cands_by_key(input: &Vec<Candidate>) -> (r: Vec<Candidate>)
    ensures
        r@.len() == input@.len(),
        r@.to_multiset() == input@.to_multiset(),
        forall|k: int| 0 <= k < r@.len() ==> input@.contains(#[trigger] r@[k]),
        forall|a: int, b: int|
            0 <= a < b < r@.len() ==> key_le((#[trigger] r@[a]).state, (#[trigger] r@[b]).state),
{
    broadcast use group_to_multiset_ensures;

    let mut r: Vec<Candidate> = Vec::new();
    let n = input.len();
    let mut i: usize = 0;
    while i < n
        invariant
            i <= n,
            n == input@.len(),
            r@.len() == i as int,
            r@.to_multiset() == input@.subrange(0, i as int).to_multiset(),
            forall|k: int| 0 <= k < r@.len() ==> input@.contains(#[trigger] r@[k]),
            forall|a: int, b: int|
                0 <= a < b < r@.len() ==> key_le((#[trigger] r@[a]).state, (#[trigger] r@[b]).state),
        decreases n - i,
    {
        let x = input[i];
        let mut pos: usize = 0;
        while pos < r.len() && key_le_exec(&r[pos].state, &x.state)
            invariant
                pos <= r@.len(),
                forall|a: int| 0 <= a < pos as int ==> key_le((#[trigger] r@[a]).state, x.state),
            decreases r@.len() - pos,
        {
            pos = pos + 1;
        }
        let ghost old_r = r@;
        r.insert(pos, x);
        proof {
            broadcast use group_to_multiset_ensures;

            assert(r@ == old_r.insert(pos as int, x));
            assert(r@.to_multiset() =~= old_r.to_multiset().insert(x));
            assert(input@.subrange(0, i as int + 1) =~= input@.subrange(0, i as int).push(x));
            assert(input@.subrange(0, i as int + 1).to_multiset() =~= input@.subrange(
                0,
                i as int,
            ).to_multiset().insert(x));
            assert forall|k: int| 0 <= k < r@.len() implies input@.contains(#[trigger] r@[k]) by {
                if k < pos as int {
                    assert(r@[k] == old_r[k]);
                } else if k == pos as int {
                    assert(r@[k] == x);
                    assert(input@[i as int] == x);
                } else {
                    assert(r@[k] == old_r[k - 1]);
                }
            }
            assert forall|a: int, b: int|
                0 <= a < b < r@.len() implies key_le(
                (#[trigger] r@[a]).state,
                (#[trigger] r@[b]).state,
            ) by {
                let p = pos as int;
                if a < p {
                    assert(r@[a] == old_r[a]);
                } else if a == p {
                    assert(r@[a] == x);
                } else {
                    assert(r@[a] == old_r[a - 1]);
                }
                if b < p {
                    assert(r@[b] == old_r[b]);
                } else if b == p {
                    assert(r@[b] == x);
                } else {
                    assert(r@[b] == old_r[b - 1]);
                }
                if b > p {
                    assert(p < old_r.len());
                    assert(!key_le(old_r[p].state, x.state));
                    if a == p {
                        assert(key_le(x.state, old_r[b - 1].state));
                    }
                }
            }
        }
        i = i + 1;
    }
    proof {
        assert(input@.subrange(0, n as int) =~= input@);
    }
    r
}

/// The emission/token pairs of one row, token by token.
pub open spec fn spec_row_pairs(data: Seq<i64>, base: int, v: int) -> Seq<(i64, usize)> {
    Seq::new(v as nat, |i: int| (data[base + i], i as usize))
}

/// The per-step shortlist as a function of the row: the whole alphabet when
/// it fits the token beam, otherwise the first `bst` pairs of the named
/// selection permutation — the top-k by emission score.
pub open spec fn spec_shortlist(data: Seq<i64>, base: int, v: int, bst: int) -> Seq<(i64, usize)> {
    if v > bst {
        pdq_desc_of(spec_row_pairs(data, base, v), bst).subrange(0, bst)
    } else {
        spec_row_pairs(data, base, v)
    }
}

/// Whether a token sits on the step's shortlist.
pub open spec fn in_shortlist(tok: i32, data: Seq<i64>, base: int, v: int, bst: int) -> bool {
    exists|i: int|
        0 <= i < spec_shortlist(data, base, v, bst).len() && ((#[trigger] spec_shortlist(
            data,
            base,
            v,
            bst,
        )[i]).1 as int) == tok as int
}

/// Every entry of every expansion layer carries a token of its step's
/// shortlist: candidates are proposed for shortlisted tokens only, so the
/// token beam is semantically binding.
pub open spec fn layers_shortlisted<S>(
    h: Seq<Vec<Hyp<S>>>,
    upto: int,
    v: int,
    bst: int,
    data: Seq<i64>,
) -> bool {
    forall|u: int, k: int|
        #![trigger h[u]@[k]]
        1 <= u <= upto && u < h.len() && 0 <= k < h[u]@.len() ==> in_shortlist(
            h[u]@[k].state.token,
            data,
            (u - 1) * v,
            v,
            bst,
        )
}

/// The per-step token shortlist: every token paired with its emission score,
/// cut to the `beam_size_token` highest-scoring ones when the alphabet is
/// larger than that. The ghost witness maps every token of the alphabet to a
/// kept pair whose emission is at least as high: nothing above the kept
/// scores is ever dropped.
fn token_shortlist(data: &[i64], base: usize, n_vocab: usize, beam_size_token: usize) -> (res: (
    Vec<(i64, usize)>,
    Ghost<Seq<int>>,
))
    requires
        base + n_vocab <= data@.len(),
        1 <= n_vocab,
    ensures
        res.0@ == spec_shortlist(
            data@,
            base as int,
            n_vocab as int,
            beam_size_token as int,
        ),
        res.0@.len() == if (beam_size_token as int) < n_vocab as int {
            beam_size_token as int
        } else {
            n_vocab as int
        },
        forall|i: int|
            0 <= i < res.0@.len() ==> ((#[trigger] res.0@[i]).1 as int) < n_vocab as int
                && res.0@[i].0 == data@[base as int + res.0@[i].1 as int],
        res.0@.len() >= 1 ==> res.1@.len() == n_vocab as int && forall|j: int|
            0 <= j < n_vocab as int ==> 0 <= #[trigger] res.1@[j] < res.0@.len()
                && res.0@[res.1@[j]].0 >= data@[base as int + j],
{
    let dl = data.len();
    let mut pairs: Vec<(i64, usize)> = Vec::new();
    let mut tok: usize = 0;
    while tok < n_vocab
        invariant
            tok <= n_vocab,
            base + n_vocab <= dl,
            dl == data@.len(),
            pairs@.len() == tok as int,
            forall|i: int|
                0 <= i < pairs@.len() ==> ((#[trigger] pairs@[i]).1 as int) < n_vocab as int
                    && pairs@[i].0 == data@[base as int + pairs@[i].1 as int],
            forall|i: int| 0 <= i < pairs@.len() ==> ((#[trigger] pairs@[i]).1 as int) == i,
        decreases n_vocab - tok,
    {
        pairs.push((data[base + tok], tok));
        tok = tok + 1;
    }
    if n_vocab > beam_size_token {
        let ghost before = pairs@;
        select_desc(&mut pairs, beam_size_token);
        proof {
            assert forall|i: int|
                0 <= i < pairs@.len() implies ((#[trigger] pairs@[i]).1 as int) < n_vocab as int
                && pairs@[i].0 == data@[base as int + pairs@[i].1 as int] by {
                lemma_perm_element(before, pairs@, i);
                let j = choose|j: int| 0 <= j < before.len() && before[j] == pairs@[i];
                assert(before[j].0 == data@[base as int + before[j].1 as int]);
            }
        }
        let mut cut: Vec<(i64, usize)> = Vec::new();
        let mut i: usize = 0;
        while i < beam_size_token
            invariant
                i <= beam_size_token,
                (beam_size_token as int) < pairs@.len(),
                cut@.len() == i as int,
                forall|k: int| 0 <= k < cut@.len() ==> #[trigger] cut@[k] == pairs@[k],
                forall|k: int|
                    0 <= k < pairs@.len() ==> ((#[trigger] pairs@[k]).1 as int) < n_vocab as int
                        && pairs@[k].0 == data@[base as int + pairs@[k].1 as int],
            decreases beam_size_token - i,
        {
            cut.push(pairs[i]);
            i = i + 1;
        }
        // For each token of the alphabet, some kept pair dominates it: its
        // own pair either survived the cut or ranks below everything kept.
        let ghost wit = Seq::new(
            n_vocab as nat,
            |j: int|
                choose|i2: int|
                    0 <= i2 < cut@.len() && cut@[i2].0 >= data@[base as int + j],
        );
        proof {
            if beam_size_token >= 1 {
                assert forall|j: int|
                    0 <= j < n_vocab as int implies 0 <= #[trigger] wit[j] < cut@.len()
                    && cut@[wit[j]].0 >= data@[base as int + j] by {
                    assert((before[j].1 as int) == j && before[j].0 == data@[base as int + j]);
                    lemma_perm_element(pairs@, before, j);
                    let pos = choose|p: int| 0 <= p < pairs@.len() && pairs@[p] == before[j];
                    if pos < beam_size_token as int {
                        assert(cut@[pos] == pairs@[pos]);
                        assert(cut@[pos].0 >= data@[base as int + j]);
                    } else {
                        assert(pairs@[0].0 >= pairs@[beam_size_token as int].0);
                        assert(pairs@[pos].0 <= pairs@[beam_size_token as int].0);
                        assert(cut@[0] == pairs@[0]);
                        assert(cut@[0].0 >= data@[base as int + j]);
                    }
                    assert(exists|i2: int|
                        0 <= i2 < cut@.len() && cut@[i2].0 >= data@[base as int + j]);
                }
            }
        }
        proof {
            assert(before =~= spec_row_pairs(data@, base as int, n_vocab as int));
            assert(cut@ =~= pairs@.subrange(0, beam_size_token as int));
            assert(cut@ =~= spec_shortlist(
                data@,
                base as int,
                n_vocab as int,
                beam_size_token as int,
            ));
        }
        (cut, Ghost(wit))
    } else {
        // Nothing was cut: each token's own pair is the dominating witness.
        let ghost wit = Seq::new(n_vocab as nat, |j: int| j);
        proof {
            assert forall|j: int|
                0 <= j < n_vocab as int implies 0 <= #[trigger] wit[j] < pairs@.len()
                && pairs@[wit[j]].0 >= data@[base as int + j] by {
                assert((pairs@[j].1 as int) == j && pairs@[j].0 == data@[base as int + j]);
            }
        }
        proof {
            assert(pairs@ =~= spec_row_pairs(data@, base as int, n_vocab as int));
        }
        (pairs, Ghost(wit))
    }
}

/// Candidate validity transfers, through the witness indices, to the layer
/// built from the candidates, because merging only changes scores.
proof fn lemma_layer_from_cands_ok<S>(
    layer: Seq<Hyp<S>>,
    cands: Seq<Candidate>,
    wit: Seq<int>,
    prev_len: int,
    n_vocab: int,
    ncount: int,
)
    requires
        wit.len() == layer.len(),
        forall|k: int|
            0 <= k < layer.len() ==> 0 <= #[trigger] wit[k] < cands.len() && state_like(
                layer[k].state,
                cands[wit[k]].state,
            ),
        forall|i: int|
            0 <= i < cands.len() ==> state_ok((#[trigger] cands[i]).state, prev_len, n_vocab, ncount),
    ensures
        layer_ok(layer, prev_len, n_vocab, ncount),
{
    assert forall|k: int|
        0 <= k < layer.len() implies state_ok(
        (#[trigger] layer[k]).state,
        prev_len,
        n_vocab,
        ncount,
    ) by {
        assert(state_like(layer[k].state, cands[wit[k]].state));
        assert(state_ok(cands[wit[k]].state, prev_len, n_vocab, ncount));
    }
}

/// The pairwise log-sum-exp fold of a run of candidates' scores, in run
/// order: `max + log1p(exp(min - max))` applied left to right.
spec fn lse_fold(run: Seq<Candidate>) -> int
    decreases run.len(),
{
    if run.len() <= 0 {
        0
    } else if run.len() == 1 {
        run[0].state.score as int
    } else {
        spec_lse(lse_fold(run.drop_last()), run.last().state.score as int)
    }
}

/// Finalizes the candidates of one step: drops those scoring more than the
/// threshold below the best, sorts by merge order, folds runs of candidates
/// with the same prefix and trailing state into one entry by log-sum-exp,
/// keeps the best `beam_size`, and attaches a language-model state to each
/// survivor — a fresh one only for true emissions, the parent's otherwise.
///
/// Besides the layer it returns ghost evidence of each stage: for each
/// survivor the index of a proposed candidate it descends from and — when
/// anything could survive at all — the position of a survivor carrying at
/// least the best proposed score; the merged candidate list itself; the
/// selection permutation over it, whose kept prefix dominates everything
/// dropped; and the run decomposition of the merge, in which each merged
/// entry's score is exactly the pairwise log-sum-exp fold of a run of
/// admitted same-pattern candidates led by its highest-scoring member, whose
/// fields the entry keeps. Each survivor agrees with its candidate on
/// everything but the score, was admitted by the threshold, scores at least
/// as high as its candidate, holds exactly the language-model state the step
/// demands, and no two survivors share a merge pattern.
#[verifier::rlimit(100)]
fn finalize_candidates<T: LM>(
    lm: &mut T,
    cands: &Vec<Candidate>,
    best: i64,
    best_at: Ghost<int>,
    threshold: i64,
    beam_size: usize,
    prev_layer: &Vec<Hyp<T::State>>,
) -> (res: (Vec<Hyp<T::State>>, Ghost<Seq<int>>, Ghost<int>, Ghost<Seq<Candidate>>, Ghost<
    Seq<(i64, usize)>,
>, Ghost<Seq<Seq<Candidate>>>))
    requires
        forall|i: int|
            0 <= i < cands@.len() ==> ((#[trigger] cands@[i]).state.parent_index as int)
                < prev_layer@.len() as int,
        forall|i: int| 0 <= i < cands@.len() ==> (#[trigger] cands@[i]).state.score <= best,
        forall|i: int|
            0 <= i < cands@.len() ==> -SCORE_CAP <= (#[trigger] cands@[i]).state.score
                <= SCORE_CAP,
        cands@.len() > 0 ==> 0 <= best_at@ < cands@.len() && cands@[best_at@].state.score == best,
    ensures
        res.0@.len() <= beam_size as int,
        cands@.len() > 0 && threshold >= 1 && beam_size >= 1 ==> res.0@.len() >= 1,
        res.1@.len() == res.0@.len(),
        forall|k: int|
            0 <= k < res.0@.len() ==> 0 <= #[trigger] res.1@[k] < cands@.len() && state_like(
                res.0@[k].state,
                cands@[res.1@[k]].state,
            ),
        forall|k: int|
            0 <= k < res.0@.len() ==> admitted(
                cands@[res.1@[k]].state.score as int,
                best as int,
                threshold as int,
            ),
        forall|k: int|
            0 <= k < res.0@.len() ==> (#[trigger] res.0@[k]).state.score
                >= cands@[res.1@[k]].state.score,
        forall|k: int|
            0 <= k < res.0@.len() ==> -SCORE_CAP <= (#[trigger] res.0@[k]).state.score
                <= SCORE_CAP,
        forall|k: int|
            0 <= k < res.0@.len() ==> (#[trigger] res.0@[k]).lm_state == (if cands@[res.1@[k]].emitted {
                T::next_spec(
                    prev_layer@[cands@[res.1@[k]].state.parent_index as int].lm_state,
                    cands@[res.1@[k]].state.token,
                )
            } else {
                prev_layer@[cands@[res.1@[k]].state.parent_index as int].lm_state
            }),
        cands@.len() > 0 && threshold >= 1 && beam_size >= 1 ==> 0 <= res.2@ < res.0@.len()
            && res.0@[res.2@].state.score >= best,
        layer_merged(res.0@),
        cands@.len() > 0 || res.0@.len() == 0,
        cands@.len() > 0 && threshold >= 1 ==> res.0@.len() == (if (beam_size as int)
            <= res.3@.len() {
            beam_size as int
        } else {
            res.3@.len() as int
        }),
        res.4@.len() == res.3@.len(),
        res.4@.to_multiset() == Seq::new(
            res.3@.len(),
            |i: int| (res.3@[i].state.score, i as usize),
        ).to_multiset(),
        forall|k: int|
            0 <= k < res.4@.len() ==> ((#[trigger] res.4@[k]).1 as int) < res.3@.len()
                && res.4@[k].0 == res.3@[res.4@[k].1 as int].state.score,
        forall|q: int|
            0 <= q < res.0@.len() ==> (#[trigger] res.0@[q]).state == res.3@[res.4@[q].1
                as int].state,
        forall|a: int, b: int|
            0 <= a < res.0@.len() <= b < res.4@.len() ==> (#[trigger] res.4@[a]).0
                >= (#[trigger] res.4@[b]).0,
        res.5@.len() == res.3@.len(),
        forall|k: int|
            0 <= k < res.3@.len() ==> {
                let run = #[trigger] res.5@[k];
                &&& run.len() >= 1
                &&& state_like(res.3@[k].state, run[0].state)
                &&& res.3@[k].emitted == run[0].emitted
                &&& res.3@[k].state.score as int == lse_fold(run)
                &&& forall|j: int|
                    0 <= j < run.len() ==> same_pattern(
                        (#[trigger] run[j]).state,
                        res.3@[k].state,
                    ) && cands@.contains(run[j]) && admitted(
                        run[j].state.score as int,
                        best as int,
                        threshold as int,
                    )
                &&& forall|j: int| 0 <= j < run.len() ==> run[0].state.score >= (#[trigger] run[j]).state.score
            },
{
    // 1. Threshold sweep against the final best score.
    let mut kept: Vec<Candidate> = Vec::new();
    let n = cands.len();
    let mut i: usize = 0;
    while i < n
        invariant
            i <= n,
            n == cands@.len(),
            forall|i0: int|
                0 <= i0 < cands@.len() ==> -SCORE_CAP <= (#[trigger] cands@[i0]).state.score
                    <= SCORE_CAP,
            forall|k: int| 0 <= k < kept@.len() ==> cands@.contains(#[trigger] kept@[k]),
            forall|k: int|
                0 <= k < kept@.len() ==> admitted(
                    (#[trigger] kept@[k]).state.score as int,
                    best as int,
                    threshold as int,
                ),
            threshold >= 1 ==> forall|i0: int|
                0 <= i0 < i as int && (#[trigger] cands@[i0]).state.score == best ==> exists|
                    k: int,
                |
                    0 <= k < kept@.len() && kept@[k].state.score == best,
        decreases n - i,
    {
        let c = cands[i];
        let ghost pre_kept = kept@;
        if (c.state.score as i128) > (best as i128) - (threshold as i128) {
            kept.push(c);
            proof {
                assert(cands@[i as int] == c);
            }
        }
        proof {
            if threshold >= 1 {
                assert forall|i0: int|
                    0 <= i0 < i as int + 1 && (#[trigger] cands@[i0]).state.score == best implies exists|
                    k: int,
                |
                    0 <= k < kept@.len() && kept@[k].state.score == best by {
                    if i0 == i as int {
                        assert(c.state.score == best);
                        assert((c.state.score as i128) > (best as i128) - (threshold as i128));
                        assert(kept@[kept@.len() - 1] == c);
                    } else {
                        let k0 = choose|k: int|
                            0 <= k < pre_kept.len() && pre_kept[k].state.score == best;
                        assert(kept@[k0].state.score == best);
                    }
                }
            }
        }
        i = i + 1;
    }
    if kept.len() == 0 {
        proof {
            if cands@.len() > 0 && threshold >= 1 {
                assert(cands@[best_at@].state.score == best);
                assert(false);
            }
        }
        let empty: Vec<Hyp<T::State>> = Vec::new();
        proof {
            let ghost none: Seq<Candidate> = Seq::empty();
            assert(Seq::new(none.len(), |i: int| (none[i].state.score, i as usize))
                =~= Seq::<(i64, usize)>::empty());
        }
        return (
            empty,
            Ghost(Seq::empty()),
            Ghost(0),
            Ghost(Seq::empty()),
            Ghost(Seq::empty()),
            Ghost(Seq::empty()),
        );
    }

    // 2. Sort so that mergeable candidates are adjacent, best first.
    let sorted = sort_cands_by_key(&kept);

    // 3. Merge runs of candidates with the same prefix and trailing state.
    // `src[k]` is a ghost witness: the index of a proposed candidate that
    // `merged[k]` descends from; `mi` tracks an entry whose folded score has
    // reached the best proposed score.
    let mut merged: Vec<Candidate> = Vec::new();
    let ghost mut src: Seq<int> = Seq::empty();
    let ghost mut runs: Seq<Seq<Candidate>> = Seq::empty();
    let ghost mut mi: int = 0;
    let m = sorted.len();
    let mut i: usize = 0;
    while i < m
        invariant
            i <= m,
            m == sorted@.len(),
            i > 0 ==> merged@.len() >= 1,
            merged@.len() <= i as int,
            src.len() == merged@.len(),
            forall|k: int| 0 <= k < sorted@.len() ==> kept@.contains(#[trigger] sorted@[k]),
            forall|a: int, b: int|
                0 <= a < b < sorted@.len() ==> key_le(
                    (#[trigger] sorted@[a]).state,
                    (#[trigger] sorted@[b]).state,
                ),
            forall|k1: int, k2: int|
                0 <= k1 < k2 < merged@.len() ==> pattern_lt(
                    (#[trigger] merged@[k1]).state,
                    (#[trigger] merged@[k2]).state,
                ),
            i > 0 ==> merged@.len() >= 1 && same_pattern(
                merged@[merged@.len() - 1].state,
                sorted@[i as int - 1].state,
            ),
            runs.len() == merged@.len(),
            i > 0 ==> runs[runs.len() - 1].last() == sorted@[i as int - 1],
            forall|k: int|
                0 <= k < merged@.len() ==> {
                    let run = #[trigger] runs[k];
                    &&& run.len() >= 1
                    &&& state_like(merged@[k].state, run[0].state)
                    &&& merged@[k].emitted == run[0].emitted
                    &&& merged@[k].state.score as int == lse_fold(run)
                    &&& forall|j: int|
                        0 <= j < run.len() ==> same_pattern(
                            (#[trigger] run[j]).state,
                            merged@[k].state,
                        ) && cands@.contains(run[j]) && admitted(
                            run[j].state.score as int,
                            best as int,
                            threshold as int,
                        ) && -SCORE_CAP <= run[j].state.score <= SCORE_CAP
                    &&& forall|j1: int, j2: int|
                        0 <= j1 < j2 < run.len() ==> (#[trigger] run[j1]).state.score
                            >= (#[trigger] run[j2]).state.score
                },
            forall|k: int| 0 <= k < kept@.len() ==> cands@.contains(#[trigger] kept@[k]),
            forall|k: int|
                0 <= k < kept@.len() ==> admitted(
                    (#[trigger] kept@[k]).state.score as int,
                    best as int,
                    threshold as int,
                ),
            forall|i0: int|
                0 <= i0 < cands@.len() ==> (#[trigger] cands@[i0]).state.score <= best,
            forall|i0: int|
                0 <= i0 < cands@.len() ==> -SCORE_CAP <= (#[trigger] cands@[i0]).state.score
                    <= SCORE_CAP,
            forall|k: int|
                0 <= k < merged@.len() ==> 0 <= #[trigger] src[k] < cands@.len() && state_like(
                    merged@[k].state,
                    cands@[src[k]].state,
                ),
            forall|k: int|
                0 <= k < merged@.len() ==> (#[trigger] merged@[k]).state.score
                    >= cands@[src[k]].state.score,
            forall|k: int|
                0 <= k < merged@.len() ==> admitted(
                    cands@[src[k]].state.score as int,
                    best as int,
                    threshold as int,
                ),
            forall|k: int|
                0 <= k < merged@.len() ==> -SCORE_CAP <= (#[trigger] merged@[k]).state.score
                    <= SCORE_CAP,
            forall|k: int|
                0 <= k < merged@.len() ==> (#[trigger] merged@[k]).emitted == cands@[src[k]].emitted,
            (exists|j: int| 0 <= j < i as int && (#[trigger] sorted@[j]).state.score == best)
                ==> 0 <= mi < merged@.len() && merged@[mi].state.score >= best,
        decreases m - i,
    {
        let c = sorted[i];
        proof {
            assert(kept@.contains(sorted@[i as int]));
        }
        let ghost cj = choose|cj: int| 0 <= cj < cands@.len() && cands@[cj] == c;
        proof {
            let ki = choose|ki: int| 0 <= ki < kept@.len() && kept@[ki] == c;
            assert(admitted(kept@[ki].state.score as int, best as int, threshold as int));
            assert(cands@.contains(kept@[ki]));
            assert(cands@[cj] == c);
        }
        let ghost pre_merged = merged@;
        let ghost pre_mi = mi;
        if merged.len() == 0 {
            merged.push(c);
            proof {
                src = src.push(cj);
                runs = runs.push(seq![c]);
                if c.state.score == best {
                    mi = 0;
                }
            }
        } else {
            let li = merged.len() - 1;
            let last = merged[li];
            if same_pattern_exec(&last.state, &c.state) {
                let mut mc = last;
                mc.state.score = lse_merge(last.state.score, c.state.score);
                merged[li] = mc;
                proof {
                    assert(merged@ == pre_merged.update(li as int, mc));
                    assert(state_like(mc.state, cands@[src[li as int]].state));
                    if c.state.score == best {
                        mi = li as int;
                    }
                    let ghost pre_runs = runs;
                    let ghost old_run = runs[li as int];
                    runs = runs.update(li as int, old_run.push(c));
                    assert(old_run.push(c).drop_last() =~= old_run);
                    assert(old_run.push(c).last() == c);
                    assert(lse_fold(old_run.push(c)) == spec_lse(
                        lse_fold(old_run),
                        c.state.score as int,
                    ));
                    assert(same_pattern(sorted@[i as int - 1].state, c.state));
                    assert(key_le(sorted@[i as int - 1].state, sorted@[i as int].state));
                    assert(sorted@[i as int - 1].state.score >= c.state.score);
                    assert(old_run.last() == sorted@[i as int - 1]);
                    assert forall|k: int|
                        0 <= k < merged@.len() implies {
                        let run = #[trigger] runs[k];
                        &&& run.len() >= 1
                        &&& state_like(merged@[k].state, run[0].state)
                        &&& merged@[k].emitted == run[0].emitted
                        &&& merged@[k].state.score as int == lse_fold(run)
                        &&& forall|j: int|
                            0 <= j < run.len() ==> same_pattern(
                                (#[trigger] run[j]).state,
                                merged@[k].state,
                            ) && cands@.contains(run[j]) && admitted(
                                run[j].state.score as int,
                                best as int,
                                threshold as int,
                            ) && -SCORE_CAP <= run[j].state.score <= SCORE_CAP
                        &&& forall|j1: int, j2: int|
                            0 <= j1 < j2 < run.len() ==> (#[trigger] run[j1]).state.score
                                >= (#[trigger] run[j2]).state.score
                    } by {
                        if k != li as int {
                            assert(merged@[k] == pre_merged[k]);
                            assert(runs[k] == pre_runs[k]);
                        } else {
                            assert(runs[k] == old_run.push(c));
                            assert forall|j1: int, j2: int|
                                0 <= j1 < j2 < old_run.push(c).len() implies (#[trigger] old_run.push(
                                c,
                            )[j1]).state.score >= (#[trigger] old_run.push(c)[j2]).state.score by {
                                if j2 == old_run.len() as int {
                                    if j1 < old_run.len() as int - 1 {
                                        assert(old_run[j1].state.score
                                            >= old_run[old_run.len() - 1].state.score);
                                    }
                                    assert(old_run[old_run.len() - 1].state.score
                                        >= c.state.score);
                                }
                            }
                        }
                    }
                    assert forall|k: int|
                        0 <= k < merged@.len() implies 0 <= #[trigger] src[k] < cands@.len()
                        && state_like(merged@[k].state, cands@[src[k]].state) by {
                        if k != li as int {
                            assert(merged@[k] == pre_merged[k]);
                        }
                    }
                    assert forall|k: int|
                        0 <= k < merged@.len() implies (#[trigger] merged@[k]).state.score
                        >= cands@[src[k]].state.score by {
                        if k != li as int {
                            assert(merged@[k] == pre_merged[k]);
                        }
                    }
                }
            } else {
                merged.push(c);
                proof {
                    src = src.push(cj);
                    runs = runs.push(seq![c]);
                    if c.state.score == best {
                        mi = merged@.len() - 1;
                    }
                }
            }
        }
        proof {
            if exists|j: int| 0 <= j < i as int + 1 && (#[trigger] sorted@[j]).state.score
                == best {
                let j = choose|j: int|
                    0 <= j < i as int + 1 && (#[trigger] sorted@[j]).state.score == best;
                if c.state.score != best {
                    assert(j < i as int);
                    assert(0 <= pre_mi < pre_merged.len() && pre_merged[pre_mi].state.score
                        >= best);
                    assert(merged@[mi].state.score >= pre_merged[pre_mi].state.score);
                }
            }
        }
        i = i + 1;
    }

    // 4. Keep the best `beam_size` by score.
    let mut pairs: Vec<(i64, usize)> = Vec::new();
    let mm = merged.len();
    let mut i: usize = 0;
    while i < mm
        invariant
            i <= mm,
            mm == merged@.len(),
            pairs@.len() == i as int,
            forall|k: int|
                0 <= k < pairs@.len() ==> ((#[trigger] pairs@[k]).1 as int) < mm as int
                    && pairs@[k].0 == merged@[pairs@[k].1 as int].state.score,
            forall|k: int| 0 <= k < pairs@.len() ==> (#[trigger] pairs@[k]).1 as int == k,
        decreases mm - i,
    {
        pairs.push((merged[i].state.score, i));
        i = i + 1;
    }
    let ghost flat_pairs = pairs@;
    proof {
        assert forall|a: int, b: int| 0 <= a < b < flat_pairs.len() implies flat_pairs[a]
            != flat_pairs[b] by {
            assert((flat_pairs[a].1 as int) == a && (flat_pairs[b].1 as int) == b);
        }
        assert(flat_pairs.no_duplicates());
    }
    if mm > beam_size {
        let ghost before = pairs@;
        select_desc(&mut pairs, beam_size);
        proof {
            assert forall|k: int|
                0 <= k < pairs@.len() implies ((#[trigger] pairs@[k]).1 as int) < mm as int
                && pairs@[k].0 == merged@[pairs@[k].1 as int].state.score by {
                lemma_perm_element(before, pairs@, k);
                let j = choose|j: int| 0 <= j < before.len() && before[j] == pairs@[k];
            }
            before.lemma_multiset_has_no_duplicates();
            pairs@.lemma_multiset_has_no_duplicates_conv();
        }
    }
    let take = if beam_size < mm {
        beam_size
    } else {
        mm
    };

    // 5. Materialize the survivors' language-model states. `layer_src[k]`
    // again names the candidate that survivor `k` descends from.
    let mut layer: Vec<Hyp<T::State>> = Vec::new();
    let ghost mut layer_src: Seq<int> = Seq::empty();
    let mut r: usize = 0;
    while r < take
        invariant
            r <= take,
            take as int <= pairs@.len(),
            take as int <= mm as int,
            mm == merged@.len(),
            src.len() == merged@.len(),
            layer@.len() == r as int,
            layer_src.len() == r as int,
            forall|k: int|
                0 <= k < pairs@.len() ==> ((#[trigger] pairs@[k]).1 as int) < mm as int
                    && pairs@[k].0 == merged@[pairs@[k].1 as int].state.score,
            pairs@.no_duplicates(),
            forall|k1: int, k2: int|
                0 <= k1 < k2 < merged@.len() ==> pattern_lt(
                    (#[trigger] merged@[k1]).state,
                    (#[trigger] merged@[k2]).state,
                ),
            forall|k: int|
                0 <= k < merged@.len() ==> 0 <= #[trigger] src[k] < cands@.len() && state_like(
                    merged@[k].state,
                    cands@[src[k]].state,
                ),
            forall|k: int|
                0 <= k < merged@.len() ==> (#[trigger] merged@[k]).state.score
                    >= cands@[src[k]].state.score,
            forall|k: int|
                0 <= k < merged@.len() ==> admitted(
                    cands@[src[k]].state.score as int,
                    best as int,
                    threshold as int,
                ),
            forall|k: int|
                0 <= k < merged@.len() ==> -SCORE_CAP <= (#[trigger] merged@[k]).state.score
                    <= SCORE_CAP,
            forall|k: int|
                0 <= k < merged@.len() ==> (#[trigger] merged@[k]).emitted == cands@[src[k]].emitted,
            forall|i0: int|
                0 <= i0 < cands@.len() ==> ((#[trigger] cands@[i0]).state.parent_index as int)
                    < prev_layer@.len() as int,
            forall|q: int|
                0 <= q < layer@.len() ==> (#[trigger] layer@[q]).state == merged@[pairs@[q].1
                    as int].state,
            forall|q: int|
                0 <= q < layer@.len() ==> 0 <= #[trigger] layer_src[q] < cands@.len() && state_like(
                    layer@[q].state,
                    cands@[layer_src[q]].state,
                ),
            forall|q: int|
                0 <= q < layer@.len() ==> (#[trigger] layer@[q]).state.score
                    >= cands@[layer_src[q]].state.score,
            forall|q: int|
                0 <= q < layer@.len() ==> admitted(
                    cands@[layer_src[q]].state.score as int,
                    best as int,
                    threshold as int,
                ),
            forall|q: int|
                0 <= q < layer@.len() ==> -SCORE_CAP <= (#[trigger] layer@[q]).state.score
                    <= SCORE_CAP,
            forall|q: int|
                0 <= q < layer@.len() ==> (#[trigger] layer@[q]).lm_state == (if cands@[layer_src[q]].emitted {
                    T::next_spec(
                        prev_layer@[cands@[layer_src[q]].state.parent_index as int].lm_state,
                        cands@[layer_src[q]].state.token,
                    )
                } else {
                    prev_layer@[cands@[layer_src[q]].state.parent_index as int].lm_state
                }),
        decreases take - r,
    {
        let idx = pairs[r].1;
        let c = merged[idx];
        proof {
            assert(state_like(merged@[idx as int].state, cands@[src[idx as int]].state));
            assert((c.state.parent_index as int) < prev_layer@.len() as int);
        }
        let parent = c.state.parent_index;
        let lm_state: T::State = if c.emitted {
            lm.next_state(&prev_layer[parent].lm_state, c.state.token)
        } else {
            prev_layer[parent].lm_state
        };
        layer.push(Hyp { lm_state, state: c.state });
        proof {
            layer_src = layer_src.push(src[idx as int]);
        }
        r = r + 1;
    }
    proof {
        assert forall|k1: int, k2: int|
            0 <= k1 < k2 < layer@.len() implies !same_pattern(
            (#[trigger] layer@[k1]).state,
            (#[trigger] layer@[k2]).state,
        ) by {
            assert(layer@[k1].state == merged@[pairs@[k1].1 as int].state);
            assert(layer@[k2].state == merged@[pairs@[k2].1 as int].state);
            let i1 = pairs@[k1].1 as int;
            let i2 = pairs@[k2].1 as int;
            if i1 == i2 {
                assert(pairs@[k1].0 == merged@[i1].state.score);
                assert(pairs@[k2].0 == merged@[i2].state.score);
                assert(pairs@[k1] == pairs@[k2]);
                assert(false);
            } else if i1 < i2 {
                assert(pattern_lt(merged@[i1].state, merged@[i2].state));
            } else {
                assert(pattern_lt(merged@[i2].state, merged@[i1].state));
            }
        }
    }
    // The survivor that carries at least the best proposed score.
    let ghost mut bk: int = 0;
    proof {
        if cands@.len() > 0 && threshold >= 1 && beam_size >= 1 {
            assert(cands@[best_at@].state.score == best);
            let kb = choose|k: int| 0 <= k < kept@.len() && kept@[k].state.score == best;
            lemma_perm_element(sorted@, kept@, kb);
            let sb = choose|j: int| 0 <= j < sorted@.len() && sorted@[j] == kept@[kb];
            assert(sorted@[sb].state.score == best);
            assert(0 <= mi < merged@.len() && merged@[mi].state.score >= best);
            if mm > beam_size {
                assert(flat_pairs[mi] == (merged@[mi].state.score, mi as usize));
                lemma_perm_element(pairs@, flat_pairs, mi);
                let pos = choose|j: int| 0 <= j < pairs@.len() && pairs@[j] == flat_pairs[mi];
                if pos < beam_size as int {
                    bk = pos;
                    assert(layer@[pos].state == merged@[pairs@[pos].1 as int].state);
                    assert(layer@[pos].state.score == merged@[mi].state.score);
                } else {
                    bk = 0;
                    assert(pairs@[0].0 >= pairs@[beam_size as int].0);
                    assert(pairs@[pos].0 <= pairs@[beam_size as int].0);
                    assert(layer@[0].state.score == pairs@[0].0);
                }
            } else {
                bk = mi;
                assert(pairs@[mi] == (merged@[mi].state.score, mi as usize));
                assert(layer@[mi].state == merged@[pairs@[mi].1 as int].state);
            }
        }
    }
    proof {
        assert(pairs@.len() == flat_pairs.len());
        assert(flat_pairs =~= Seq::new(
            merged@.len(),
            |i: int| (merged@[i].state.score, i as usize),
        ));
        if mm > beam_size {
            assert(pairs@.to_multiset() == flat_pairs.to_multiset());
        } else {
            assert(pairs@ == flat_pairs);
        }
        assert forall|a: int, b: int|
            0 <= a < layer@.len() <= b < pairs@.len() implies (#[trigger] pairs@[a]).0
            >= (#[trigger] pairs@[b]).0 by {
            assert(mm > beam_size);
            assert(pairs@[a].0 >= pairs@[beam_size as int].0);
            assert(pairs@[b].0 <= pairs@[beam_size as int].0);
        }
    }
    (layer, Ghost(layer_src), Ghost(bk), Ghost(merged@), Ghost(pairs@), Ghost(runs))
}

/// A layer chain stays valid when the prefix tree grows.
proof fn lemma_layers_ok_grow<S>(h: Seq<Vec<Hyp<S>>>, n_vocab: int, n1: int, n2: int)
    requires
        layers_ok(h, n_vocab, n1),
        n1 <= n2,
    ensures
        layers_ok(h, n_vocab, n2),
{
    assert forall|t: int|
        0 <= t < h.len() implies layer_ok(
        (#[trigger] h[t])@,
        if t == 0 {
            1int
        } else {
            h[t - 1]@.len() as int
        },
        n_vocab,
        n2,
    ) by {
        let prev = if t == 0 {
            1int
        } else {
            h[t - 1]@.len() as int
        };
        assert(layer_ok(h[t]@, prev, n_vocab, n1));
        assert forall|i: int|
            0 <= i < h[t]@.len() implies state_ok((#[trigger] h[t]@[i]).state, prev, n_vocab, n2) by {
            assert(state_ok(h[t]@[i].state, prev, n_vocab, n1));
        }
    }
}

/// Candidate validity also survives tree growth.
proof fn lemma_cands_ok_grow(cands: Seq<Candidate>, prev_len: int, n_vocab: int, n1: int, n2: int)
    requires
        forall|i: int|
            0 <= i < cands.len() ==> state_ok((#[trigger] cands[i]).state, prev_len, n_vocab, n1),
        n1 <= n2,
    ensures
        forall|i: int|
            0 <= i < cands.len() ==> state_ok((#[trigger] cands[i]).state, prev_len, n_vocab, n2),
{
    assert forall|i: int|
        0 <= i < cands.len() implies state_ok((#[trigger] cands[i]).state, prev_len, n_vocab, n2) by {
        assert(state_ok(cands[i].state, prev_len, n_vocab, n1));
    }
}

/// How one surviving entry of a hypothesis layer relates to its parent in
/// the layer before, under the expansion rules: its acoustic increment is its
/// own token's emission in the step's row; a blank keeps prefix, language
/// state and running language score; a true emission carries the model's
/// continuation score, the interned extended prefix, and the successor
/// language state; an uninterrupted repeat keeps everything but the score.
/// The score itself is at least the rule's sum, because merging equal
/// prefixes only adds probability.
pub open spec fn entry_rule<T: LM>(
    e: Hyp<T::State>,
    p: Hyp<T::State>,
    row_base: int,
    data: Seq<i64>,
    w: int,
    blank_id: i32,
    tree: SequenceState,
) -> bool {
    &&& e.state.am_score == data[row_base + e.state.token as int]
    &&& if e.state.token == blank_id {
        &&& e.state.prev_blank == true
        &&& e.state.lm_score == p.state.lm_score
        &&& e.state.seq_state == p.state.seq_state
        &&& e.state.score as int >= spec_cap_add(p.state.score as int, e.state.am_score as int)
        &&& e.lm_state == p.lm_state
    } else if e.state.token != p.state.token || p.state.prev_blank {
        &&& e.state.prev_blank == false
        &&& e.state.lm_score == T::score_spec(p.lm_state, e.state.token)
        &&& tree.has_child(p.state.seq_state.id as int, e.state.token as int)
        &&& (e.state.seq_state.id as int) == tree.child_of(
            p.state.seq_state.id as int,
            e.state.token as int,
        )
        &&& e.state.score as int >= spec_cap_add(
            spec_cap_add(p.state.score as int, e.state.am_score as int),
            spec_mul_weight(w, T::score_spec(p.lm_state, e.state.token) as int),
        )
        &&& e.lm_state == T::next_spec(p.lm_state, e.state.token)
    } else {
        &&& e.state.prev_blank == false
        &&& e.state.lm_score == p.state.lm_score
        &&& e.state.seq_state == p.state.seq_state
        &&& e.state.score as int >= spec_cap_add(p.state.score as int, e.state.am_score as int)
        &&& e.lm_state == p.lm_state
    }
}

/// Every entry of every expansion layer follows the rules with respect to
/// its parent, its step's emission row, and the tree.
pub open spec fn layers_rule<T: LM>(
    h: Seq<Vec<Hyp<T::State>>>,
    upto: int,
    v: int,
    data: Seq<i64>,
    w: int,
    blank_id: i32,
    tree: SequenceState,
) -> bool {
    forall|u: int, k: int|
        #![trigger h[u]@[k]]
        1 <= u <= upto && u < h.len() && 0 <= k < h[u]@.len() ==> entry_rule::<T>(
            h[u]@[k],
            h[u - 1]@[h[u]@[k].state.parent_index as int],
            (u - 1) * v,
            data,
            w,
            blank_id,
            tree,
        )
}

/// Whether every interned edge of one tree still stands, unchanged, in
/// another: growth never moves an edge.
pub open spec fn tree_extends(t1: SequenceState, t2: SequenceState) -> bool {
    forall|p: int, tok: int|
        #[trigger] t1.has_child(p, tok) ==> t2.has_child(p, tok) && t2.child_of(p, tok)
            == t1.child_of(p, tok)
}

/// The per-entry rules survive tree growth: their tree facts only mention
/// edges, and edges persist.
proof fn lemma_rules_grow<T: LM>(
    h: Seq<Vec<Hyp<T::State>>>,
    upto: int,
    v: int,
    data: Seq<i64>,
    w: int,
    blank_id: i32,
    t1: SequenceState,
    t2: SequenceState,
)
    requires
        layers_rule::<T>(h, upto, v, data, w, blank_id, t1),
        tree_extends(t1, t2),
    ensures
        layers_rule::<T>(h, upto, v, data, w, blank_id, t2),
{
    assert forall|u: int, k: int|
        #![trigger h[u]@[k]]
        1 <= u <= upto && u < h.len() && 0 <= k < h[u]@.len() implies entry_rule::<T>(
        h[u]@[k],
        h[u - 1]@[h[u]@[k].state.parent_index as int],
        (u - 1) * v,
        data,
        w,
        blank_id,
        t2,
    ) by {
        let e = h[u]@[k];
        let p = h[u - 1]@[e.state.parent_index as int];
        assert(entry_rule::<T>(e, p, (u - 1) * v, data, w, blank_id, t1));
        if e.state.token != blank_id && (e.state.token != p.state.token || p.state.prev_blank) {
            assert(t1.has_child(p.state.seq_state.id as int, e.state.token as int));
        }
    }
}

/// How a proposed candidate relates to its parent hypothesis under the
/// expansion rules, before pruning and merging: as `entry_rule`, but with the
/// exact rule score and the emission flag in place of the survivor's merged
/// score and materialized language state.
spec fn cand_rule<T: LM>(
    c: Candidate,
    p: Hyp<T::State>,
    row_base: int,
    data: Seq<i64>,
    w: int,
    blank_id: i32,
    tree: SequenceState,
) -> bool {
    &&& c.state.am_score == data[row_base + c.state.token as int]
    &&& if c.state.token == blank_id {
        &&& c.state.prev_blank == true
        &&& c.state.lm_score == p.state.lm_score
        &&& c.state.seq_state == p.state.seq_state
        &&& c.state.score as int == spec_cap_add(p.state.score as int, c.state.am_score as int)
        &&& c.emitted == false
    } else if c.state.token != p.state.token || p.state.prev_blank {
        &&& c.state.prev_blank == false
        &&& c.state.lm_score == T::score_spec(p.lm_state, c.state.token)
        &&& tree.has_child(p.state.seq_state.id as int, c.state.token as int)
        &&& (c.state.seq_state.id as int) == tree.child_of(
            p.state.seq_state.id as int,
            c.state.token as int,
        )
        &&& c.state.score as int == spec_cap_add(
            spec_cap_add(p.state.score as int, c.state.am_score as int),
            spec_mul_weight(w, T::score_spec(p.lm_state, c.state.token) as int),
        )
        &&& c.emitted == true
    } else {
        &&& c.state.prev_blank == false
        &&& c.state.lm_score == p.state.lm_score
        &&& c.state.seq_state == p.state.seq_state
        &&& c.state.score as int == spec_cap_add(p.state.score as int, c.state.am_score as int)
        &&& c.emitted == false
    }
}

/// The candidate rules also survive tree growth.
proof fn lemma_cand_rules_grow<T: LM>(
    cands: Seq<Candidate>,
    layer: Seq<Hyp<T::State>>,
    row_base: int,
    data: Seq<i64>,
    w: int,
    blank_id: i32,
    t1: SequenceState,
    t2: SequenceState,
)
    requires
        forall|i: int|
            0 <= i < cands.len() ==> ((#[trigger] cands[i]).state.parent_index as int)
                < layer.len() && cand_rule::<T>(
                cands[i],
                layer[cands[i].state.parent_index as int],
                row_base,
                data,
                w,
                blank_id,
                t1,
            ),
        tree_extends(t1, t2),
    ensures
        forall|i: int|
            0 <= i < cands.len() ==> ((#[trigger] cands[i]).state.parent_index as int)
                < layer.len() && cand_rule::<T>(
                cands[i],
                layer[cands[i].state.parent_index as int],
                row_base,
                data,
                w,
                blank_id,
                t2,
            ),
{
    assert forall|i: int|
        0 <= i < cands.len() implies ((#[trigger] cands[i]).state.parent_index as int)
        < layer.len() && cand_rule::<T>(
        cands[i],
        layer[cands[i].state.parent_index as int],
        row_base,
        data,
        w,
        blank_id,
        t2,
    ) by {
        let c = cands[i];
        let p = layer[c.state.parent_index as int];
        assert(cand_rule::<T>(c, p, row_base, data, w, blank_id, t1));
        if c.state.token != blank_id && (c.state.token != p.state.token || p.state.prev_blank) {
            assert(t1.has_child(p.state.seq_state.id as int, c.state.token as int));
        }
    }
}

/// Builds the candidate that one parent hypothesis proposes for one
/// shortlisted token, exactly as the expansion rules demand. For the blank,
/// the score grows by the emission alone and the trailing state records the
/// blank. For a token that differs from the parent's last token or follows a
/// blank, a true emission: the language model scores the continuation, the
/// weighted score joins the sum, and the extended prefix is interned. For an
/// uninterrupted repeat, the score grows by the emission and nothing else
/// changes. Only a true emission touches the tree, by one interning.
fn propose_candidate<T: LM>(
    lm: &mut T,
    tree: &mut SequenceState,
    parent: &Hyp<T::State>,
    pi: usize,
    token: i32,
    am: i64,
    lm_weight: i64,
    blank_id: i32,
) -> (c: Candidate)
    requires
        old(tree).wf(),
        (parent.state.seq_state.id as int) < old(tree).node_count(),
        0 <= token,
        (token as int) < old(tree).vocab(),
    ensures
        final(tree).wf(),
        final(tree).vocab() == old(tree).vocab(),
        old(tree).node_count() <= final(tree).node_count(),
        tree_extends(*old(tree), *final(tree)),
        c.state.parent_index == pi,
        c.state.am_score == am,
        (c.state.seq_state.id as int) < final(tree).node_count(),
        token == blank_id ==> {
            &&& *final(tree) == *old(tree)
            &&& c.state.score as int == spec_cap_add(parent.state.score as int, am as int)
            &&& c.state.token == blank_id
            &&& c.state.prev_blank == true
            &&& c.state.lm_score == parent.state.lm_score
            &&& c.state.seq_state == parent.state.seq_state
            &&& c.emitted == false
        },
        token != blank_id && (token != parent.state.token || parent.state.prev_blank) ==> {
            &&& c.state.score as int == spec_cap_add(
                spec_cap_add(parent.state.score as int, am as int),
                spec_mul_weight(lm_weight as int, T::score_spec(parent.lm_state, token) as int),
            )
            &&& c.state.token == token
            &&& c.state.prev_blank == false
            &&& c.state.lm_score == T::score_spec(parent.lm_state, token)
            &&& final(tree).has_child(parent.state.seq_state.id as int, token as int)
            &&& (c.state.seq_state.id as int) == final(tree).child_of(
                parent.state.seq_state.id as int,
                token as int,
            )
            &&& c.emitted == true
        },
        token != blank_id && token == parent.state.token && !parent.state.prev_blank ==> {
            &&& *final(tree) == *old(tree)
            &&& c.state.score as int == spec_cap_add(parent.state.score as int, am as int)
            &&& c.state.token == token
            &&& c.state.prev_blank == false
            &&& c.state.lm_score == parent.state.lm_score
            &&& c.state.seq_state == parent.state.seq_state
            &&& c.emitted == false
        },
{
    let s = cap_add(parent.state.score, am);
    if token != blank_id && (token != parent.state.token || parent.state.prev_blank) {
        let lmsc = lm.score(&parent.lm_state, token);
        let ws = mul_weight(lm_weight, lmsc);
        let child = parent.state.seq_state.child(tree, token);
        Candidate {
            state: DecoderState {
                score: cap_add(s, ws),
                token,
                prev_blank: false,
                am_score: am,
                lm_score: lmsc,
                parent_index: pi,
                seq_state: child,
            },
            emitted: true,
        }
    } else if token == blank_id {
        Candidate {
            state: DecoderState {
                score: s,
                token,
                prev_blank: true,
                am_score: am,
                lm_score: parent.state.lm_score,
                parent_index: pi,
                seq_state: parent.state.seq_state,
            },
            emitted: false,
        }
    } else {
        Candidate {
            state: DecoderState {
                score: s,
                token,
                prev_blank: false,
                am_score: am,
                lm_score: parent.state.lm_score,
                parent_index: pi,
                seq_state: parent.state.seq_state,
            },
            emitted: false,
        }
    }
}

/// Runs the per-step expansion over all timesteps: for each step, builds the
/// token shortlist, proposes a blank-extended, repeat, or new-token candidate
/// for every surviving hypothesis and shortlisted token, and finalizes the
/// candidates into the next hypothesis layer.
fn decode_step<T: LM>(
    lm: &mut T,
    options: BeamSearchDecoderOptions,
    tree: &mut SequenceState,
    hyps: &mut Vec<Vec<Hyp<T::State>>>,
    data: &[i64],
    steps: usize,
    n_vocab: usize,
    blank_id: i32,
) -> (bw: Ghost<int>)
    requires
        old(tree).wf(),
        old(tree).vocab() == n_vocab as int,
        data@.len() == steps * n_vocab,
        1 <= n_vocab,
        n_vocab <= i32::MAX,
        0 <= blank_id,
        (blank_id as int) < n_vocab as int,
        old(hyps)@.len() == 1,
        layers_ok(old(hyps)@, n_vocab as int, old(tree).node_count()),
        old(hyps)@[0]@[0].state.score == 0,
        steps + 1 <= usize::MAX,
    ensures
        final(tree).wf(),
        final(tree).vocab() == n_vocab as int,
        old(tree).node_count() <= final(tree).node_count(),
        final(hyps)@.len() == steps as int + 1,
        final(hyps)@[0] == old(hyps)@[0],
        layers_ok(final(hyps)@, n_vocab as int, final(tree).node_count()),
        forall|u: int|
            1 <= u <= steps as int ==> (#[trigger] final(hyps)@[u])@.len()
                <= options.beam_size as int,
        forall|u: int| 1 <= u <= steps as int ==> layer_merged((#[trigger] final(hyps)@[u])@),
        layers_shortlisted(
            final(hyps)@,
            steps as int,
            n_vocab as int,
            options.beam_size_token as int,
            data@,
        ),
        options.beam_threshold >= 1 && options.beam_size >= 1 && options.beam_size_token >= 1
            ==> forall|u: int| 0 <= u <= steps as int ==> (#[trigger] final(hyps)@[u])@.len() >= 1,
        forall|k: int|
            0 <= k < final(hyps)@[steps as int]@.len()
                ==> -SCORE_CAP <= (#[trigger] final(hyps)@[steps as int]@[k]).state.score
                <= SCORE_CAP,
        options.lm_weight == 0 && options.beam_threshold >= 1 && options.beam_size >= 1
            && options.beam_size_token >= 1 ==> 0 <= bw@ < final(hyps)@[steps as int]@.len()
            && (final(hyps)@[steps as int]@[bw@].state.score as int) >= acoustic_bound(
            data@,
            n_vocab as int,
            steps as int,
        ),
        layers_rule::<T>(
            final(hyps)@,
            steps as int,
            n_vocab as int,
            data@,
            options.lm_weight as int,
            blank_id,
            *final(tree),
        ),
{
    let mut t: usize = 0;
    let ghost mut wcur: int = 0;
    while t < steps
        invariant
            t <= steps,
            tree.wf(),
            tree.vocab() == n_vocab as int,
            old(tree).node_count() <= tree.node_count(),
            data@.len() == steps * n_vocab,
            1 <= n_vocab,
            n_vocab <= i32::MAX,
            0 <= blank_id,
            (blank_id as int) < n_vocab as int,
            hyps@.len() == t as int + 1,
            hyps@[0] == old(hyps)@[0],
            layers_ok(hyps@, n_vocab as int, tree.node_count()),
            forall|u: int|
                1 <= u <= t as int ==> (#[trigger] hyps@[u])@.len() <= options.beam_size as int,
            forall|u: int| 1 <= u <= t as int ==> layer_merged((#[trigger] hyps@[u])@),
            layers_shortlisted(
                hyps@,
                t as int,
                n_vocab as int,
                options.beam_size_token as int,
                data@,
            ),
            options.beam_threshold >= 1 && options.beam_size >= 1 && options.beam_size_token >= 1
                ==> forall|u: int| 0 <= u <= t as int ==> (#[trigger] hyps@[u])@.len() >= 1,
            forall|k: int|
                0 <= k < hyps@[t as int]@.len() ==> -SCORE_CAP <= (#[trigger] hyps@[t
                    as int]@[k]).state.score <= SCORE_CAP,
            options.lm_weight == 0 && options.beam_threshold >= 1 && options.beam_size >= 1
                && options.beam_size_token >= 1 ==> 0 <= wcur < hyps@[t as int]@.len() && (hyps@[t
                as int]@[wcur].state.score as int) >= acoustic_bound(
                data@,
                n_vocab as int,
                t as int,
            ),
            layers_rule::<T>(
                hyps@,
                t as int,
                n_vocab as int,
                data@,
                options.lm_weight as int,
                blank_id,
                *tree,
            ),
        decreases steps - t,
    {
        let ghost tree0 = *tree;
        let dl = data.len();
        proof {
            assert(t * n_vocab + n_vocab <= steps * n_vocab) by (nonlinear_arith)
                requires
                    (t as int) < steps as int,
                    1 <= n_vocab,
            ;
            assert(t * n_vocab >= 0) by (nonlinear_arith)
                requires
                    0 <= t,
                    0 <= n_vocab,
            ;
            assert(t * n_vocab + n_vocab <= dl);
        }
        let base = t * n_vocab;
        let (shortlist, short_wit) = token_shortlist(data, base, n_vocab, options.beam_size_token);
        let mut cands: Vec<Candidate> = Vec::new();
        let mut best: i64 = i64::MIN;
        let ghost mut best_at: int = 0;
        let prev_len = hyps[t].len();
        let sl = shortlist.len();
        // With no language model and nothing pruned to emptiness, track the
        // candidate that extends the best hypothesis so far by the row
        // maximum: its score keeps the acoustic bound alive.
        let ghost conds = options.lm_weight == 0 && options.beam_threshold >= 1
            && options.beam_size >= 1 && options.beam_size_token >= 1;
        let ghost arg = argmax_in(data@, t as int * n_vocab as int, n_vocab as int);
        let ghost si_star: int = if conds {
            short_wit@[arg]
        } else {
            0
        };
        let ghost goal: int = if conds {
            spec_cap_add(
                hyps@[t as int]@[wcur].state.score as int,
                shortlist@[si_star].0 as int,
            )
        } else {
            0
        };
        proof {
            if conds {
                lemma_argmax_in(data@, t as int * n_vocab as int, n_vocab as int);
                assert(shortlist@.len() >= 1);
                assert(base as int == t as int * n_vocab as int);
                assert(0 <= si_star < shortlist@.len());
                assert(shortlist@[si_star].0 >= data@[t as int * n_vocab as int + arg]);
                lemma_cap_add_monotone(
                    acoustic_bound(data@, n_vocab as int, t as int),
                    data@[t as int * n_vocab as int + arg] as int,
                    hyps@[t as int]@[wcur].state.score as int,
                    shortlist@[si_star].0 as int,
                );
                assert(goal >= acoustic_bound(data@, n_vocab as int, t as int + 1));
            }
        }
        let mut pi: usize = 0;
        while pi < prev_len
            invariant
                pi <= prev_len,
                (t as int) < steps as int,
                hyps@.len() == t as int + 1,
                prev_len == hyps@[t as int]@.len(),
                sl == shortlist@.len(),
                tree.wf(),
                tree.vocab() == n_vocab as int,
                1 <= n_vocab,
                n_vocab <= i32::MAX,
                0 <= blank_id,
                (blank_id as int) < n_vocab as int,
                forall|i: int|
                    0 <= i < shortlist@.len() ==> ((#[trigger] shortlist@[i]).1 as int) < n_vocab as int,
                layers_ok(hyps@, n_vocab as int, tree.node_count()),
                old(tree).node_count() <= tree.node_count(),
                tree_extends(tree0, *tree),
                base as int == t as int * n_vocab as int,
                forall|i: int|
                    0 <= i < shortlist@.len() ==> (#[trigger] shortlist@[i]).0 == data@[base as int
                        + shortlist@[i].1 as int],
                conds == (options.lm_weight == 0 && options.beam_threshold >= 1
                    && options.beam_size >= 1 && options.beam_size_token >= 1),
                conds ==> 0 <= wcur < prev_len as int && 0 <= si_star < sl as int && goal
                    == spec_cap_add(
                    hyps@[t as int]@[wcur].state.score as int,
                    shortlist@[si_star].0 as int,
                ),
                conds && pi as int > wcur ==> best as int >= goal,
                forall|i: int|
                    0 <= i < cands@.len() ==> ((#[trigger] cands@[i]).state.parent_index as int)
                        < hyps@[t as int]@.len() && cand_rule::<T>(
                        cands@[i],
                        hyps@[t as int]@[cands@[i].state.parent_index as int],
                        t as int * n_vocab as int,
                        data@,
                        options.lm_weight as int,
                        blank_id,
                        *tree,
                    ),
                shortlist@ == spec_shortlist(
                    data@,
                    t as int * n_vocab as int,
                    n_vocab as int,
                    options.beam_size_token as int,
                ),
                forall|i: int|
                    0 <= i < cands@.len() ==> in_shortlist(
                        (#[trigger] cands@[i]).state.token,
                        data@,
                        t as int * n_vocab as int,
                        n_vocab as int,
                        options.beam_size_token as int,
                    ),
                forall|i: int|
                    0 <= i < cands@.len() ==> state_ok(
                        (#[trigger] cands@[i]).state,
                        prev_len as int,
                        n_vocab as int,
                        tree.node_count(),
                    ),
                forall|i: int| 0 <= i < cands@.len() ==> (#[trigger] cands@[i]).state.score <= best,
                forall|i: int|
                    0 <= i < cands@.len() ==> -SCORE_CAP <= (#[trigger] cands@[i]).state.score
                        <= SCORE_CAP,
                cands@.len() > 0 ==> 0 <= best_at < cands@.len() && cands@[best_at].state.score
                    == best,
                options.beam_threshold <= 0 ==> cands@.len() == 0,
                options.beam_threshold >= 1 && cands@.len() == 0 ==> best == i64::MIN,
                options.beam_threshold >= 1 && pi > 0 && sl > 0 ==> cands@.len() > 0,
            decreases prev_len - pi,
        {
            let parent_state = hyps[t][pi].state;
            proof {
                assert(layer_ok(
                    hyps@[t as int]@,
                    if t as int == 0 {
                        1int
                    } else {
                        hyps@[t as int - 1]@.len() as int
                    },
                    n_vocab as int,
                    tree.node_count(),
                ));
                assert(state_ok(
                    hyps@[t as int]@[pi as int].state,
                    if t as int == 0 {
                        1int
                    } else {
                        hyps@[t as int - 1]@.len() as int
                    },
                    n_vocab as int,
                    tree.node_count(),
                ));
            }
            let mut si: usize = 0;
            while si < sl
                invariant
                    si <= sl,
                    pi < prev_len,
                    (t as int) < steps as int,
                    hyps@.len() == t as int + 1,
                    prev_len == hyps@[t as int]@.len(),
                    sl == shortlist@.len(),
                    tree.wf(),
                    tree.vocab() == n_vocab as int,
                    1 <= n_vocab,
                    n_vocab <= i32::MAX,
                    0 <= blank_id,
                    (blank_id as int) < n_vocab as int,
                    parent_state == hyps@[t as int]@[pi as int].state,
                    (parent_state.seq_state.id as int) < tree.node_count(),
                    forall|i: int|
                        0 <= i < shortlist@.len() ==> ((#[trigger] shortlist@[i]).1 as int)
                            < n_vocab as int,
                    layers_ok(hyps@, n_vocab as int, tree.node_count()),
                    old(tree).node_count() <= tree.node_count(),
                    tree_extends(tree0, *tree),
                    base as int == t as int * n_vocab as int,
                    forall|i: int|
                        0 <= i < shortlist@.len() ==> (#[trigger] shortlist@[i]).0 == data@[base
                            as int + shortlist@[i].1 as int],
                    conds == (options.lm_weight == 0 && options.beam_threshold >= 1
                        && options.beam_size >= 1 && options.beam_size_token >= 1),
                    conds ==> 0 <= wcur < prev_len as int && 0 <= si_star < sl as int && goal
                        == spec_cap_add(
                        hyps@[t as int]@[wcur].state.score as int,
                        shortlist@[si_star].0 as int,
                    ),
                    conds && pi as int > wcur ==> best as int >= goal,
                    conds && pi as int == wcur && si as int > si_star ==> best as int >= goal,
                    forall|i: int|
                        0 <= i < cands@.len() ==> ((#[trigger] cands@[i]).state.parent_index
                            as int) < hyps@[t as int]@.len() && cand_rule::<T>(
                            cands@[i],
                            hyps@[t as int]@[cands@[i].state.parent_index as int],
                            t as int * n_vocab as int,
                            data@,
                            options.lm_weight as int,
                            blank_id,
                            *tree,
                        ),
                    shortlist@ == spec_shortlist(
                        data@,
                        t as int * n_vocab as int,
                        n_vocab as int,
                        options.beam_size_token as int,
                    ),
                    forall|i: int|
                        0 <= i < cands@.len() ==> in_shortlist(
                            (#[trigger] cands@[i]).state.token,
                            data@,
                            t as int * n_vocab as int,
                            n_vocab as int,
                            options.beam_size_token as int,
                        ),
                    forall|i: int|
                        0 <= i < cands@.len() ==> state_ok(
                            (#[trigger] cands@[i]).state,
                            prev_len as int,
                            n_vocab as int,
                            tree.node_count(),
                        ),
                    forall|i: int|
                        0 <= i < cands@.len() ==> (#[trigger] cands@[i]).state.score <= best,
                    forall|i: int|
                        0 <= i < cands@.len() ==> -SCORE_CAP <= (#[trigger] cands@[i]).state.score
                            <= SCORE_CAP,
                    cands@.len() > 0 ==> 0 <= best_at < cands@.len() && cands@[best_at].state.score
                        == best,
                    options.beam_threshold <= 0 ==> cands@.len() == 0,
                    options.beam_threshold >= 1 && cands@.len() == 0 ==> best == i64::MIN,
                    options.beam_threshold >= 1 && (pi > 0 || si > 0) && sl > 0 ==> cands@.len()
                        > 0,
                decreases sl - si,
            {
                let (am, target) = shortlist[si];
                let token = target as i32;
                let ghost n1 = tree.node_count();
                let ghost tp = *tree;
                let cand = propose_candidate(
                    lm,
                    tree,
                    &hyps[t][pi],
                    pi,
                    token,
                    am,
                    options.lm_weight,
                    blank_id,
                );
                proof {
                    lemma_layers_ok_grow(hyps@, n_vocab as int, n1, tree.node_count());
                    lemma_cands_ok_grow(
                        cands@,
                        prev_len as int,
                        n_vocab as int,
                        n1,
                        tree.node_count(),
                    );
                    assert forall|p2: int, tok2: int|
                        #[trigger] tree0.has_child(p2, tok2) implies tree.has_child(p2, tok2)
                        && tree.child_of(p2, tok2) == tree0.child_of(p2, tok2) by {
                        assert(tp.has_child(p2, tok2));
                    }
                    lemma_cand_rules_grow::<T>(
                        cands@,
                        hyps@[t as int]@,
                        t as int * n_vocab as int,
                        data@,
                        options.lm_weight as int,
                        blank_id,
                        tp,
                        *tree,
                    );
                    assert(am == data@[base as int + token as int]);
                    assert(cand.state.token == token);
                    assert(((spec_shortlist(
                        data@,
                        t as int * n_vocab as int,
                        n_vocab as int,
                        options.beam_size_token as int,
                    )[si as int]).1 as int) == token as int);
                    assert(in_shortlist(
                        cand.state.token,
                        data@,
                        t as int * n_vocab as int,
                        n_vocab as int,
                        options.beam_size_token as int,
                    ));
                    assert(cand_rule::<T>(
                        cand,
                        hyps@[t as int]@[pi as int],
                        t as int * n_vocab as int,
                        data@,
                        options.lm_weight as int,
                        blank_id,
                        *tree,
                    ));
                    if conds && pi as int == wcur && si as int == si_star {
                        if token != blank_id && (token != parent_state.token
                            || parent_state.prev_blank) {
                            lemma_zero_weight_cancels(
                                T::score_spec(hyps@[t as int]@[pi as int].lm_state, token) as int,
                            );
                        }
                        assert(cand.state.score as int == spec_cap_add(
                            parent_state.score as int,
                            am as int,
                        ));
                    }
                }
                let ghost pre_cands = cands@;
                let ghost pre_best = best;
                add_candidate(&mut cands, &mut best, options.beam_threshold, cand);
                proof {
                    if cands@.len() > pre_cands.len() {
                        assert(admitted(
                            cand.state.score as int,
                            best as int,
                            options.beam_threshold as int,
                        ));
                        assert(options.beam_threshold >= 1);
                        if cand.state.score == best {
                            best_at = pre_cands.len() as int;
                        } else {
                            assert(pre_cands.len() > 0);
                            assert(cands@[best_at] == pre_cands[best_at]);
                        }
                    } else {
                        if cand.state.score > pre_best {
                            assert(best == cand.state.score);
                            assert(!admitted(
                                cand.state.score as int,
                                best as int,
                                options.beam_threshold as int,
                            ));
                            assert(options.beam_threshold <= 0);
                        }
                    }
                    if conds && pi as int == wcur && si as int == si_star {
                        assert(cand.state.score as int == spec_cap_add(
                            hyps@[t as int]@[wcur].state.score as int,
                            am as int,
                        ));
                        assert(am == shortlist@[si_star].0);
                        assert(best as int >= cand.state.score as int);
                        assert(best as int >= goal);
                    }
                    if conds && pi as int == wcur && si as int > si_star {
                        assert(best as int >= pre_best as int || best == cand.state.score);
                    }
                }
                si = si + 1;
            }
            pi = pi + 1;
        }
        let (layer, wit, best_k, _merged_g, _perm_g, _runs_g) = finalize_candidates(
            lm,
            &cands,
            best,
            Ghost(best_at),
            options.beam_threshold,
            options.beam_size,
            &hyps[t],
        );
        proof {
            lemma_layer_from_cands_ok(
                layer@,
                cands@,
                wit@,
                prev_len as int,
                n_vocab as int,
                tree.node_count(),
            );
        }
        let ghost pre_hyps = hyps@;
        hyps.push(layer);
        proof {
            assert forall|u: int|
                0 <= u < hyps@.len() implies layer_ok(
                (#[trigger] hyps@[u])@,
                if u == 0 {
                    1int
                } else {
                    hyps@[u - 1]@.len() as int
                },
                n_vocab as int,
                tree.node_count(),
            ) by {
                if u < hyps@.len() - 1 {
                    assert(hyps@[u] == pre_hyps[u]);
                    if u > 0 {
                        assert(hyps@[u - 1] == pre_hyps[u - 1]);
                    }
                } else {
                    assert(hyps@[u] == layer);
                    assert(hyps@[u - 1] == pre_hyps[u - 1]);
                }
            }
            assert(layers_ok(hyps@, n_vocab as int, tree.node_count()));
            assert forall|u: int| 1 <= u <= t as int + 1 implies layer_merged(
                (#[trigger] hyps@[u])@,
            ) by {
                if u <= t as int {
                    assert(hyps@[u] == pre_hyps[u]);
                } else {
                    assert(hyps@[u] == layer);
                }
            }
            assert forall|u: int, k: int|
                #![trigger hyps@[u]@[k]]
                1 <= u <= t as int + 1 && u < hyps@.len() && 0 <= k < hyps@[u]@.len() implies in_shortlist(
                hyps@[u]@[k].state.token,
                data@,
                (u - 1) * n_vocab as int,
                n_vocab as int,
                options.beam_size_token as int,
            ) by {
                if u <= t as int {
                    assert(hyps@[u] == pre_hyps[u]);
                    assert(in_shortlist(
                        pre_hyps[u]@[k].state.token,
                        data@,
                        (u - 1) * n_vocab as int,
                        n_vocab as int,
                        options.beam_size_token as int,
                    ));
                } else {
                    assert(hyps@[u] == layer);
                    let w = wit@[k];
                    assert(state_like(layer@[k].state, cands@[w].state));
                    assert(in_shortlist(
                        cands@[w].state.token,
                        data@,
                        t as int * n_vocab as int,
                        n_vocab as int,
                        options.beam_size_token as int,
                    ));
                }
            }
            if conds {
                assert(prev_len >= 1);
                assert(sl >= 1);
                assert(cands@.len() > 0);
                assert(0 <= best_k@ < layer@.len() && layer@[best_k@].state.score >= best);
                assert((layer@[best_k@].state.score as int) >= acoustic_bound(
                    data@,
                    n_vocab as int,
                    t as int + 1,
                ));
                wcur = best_k@;
            }
        }
        t = t + 1;
    }
    Ghost(wcur)
}

/// How a final-layer entry relates to its parent in the last expansion
/// layer: the sentence-end rule. The entry carries the blank, inherits the
/// acoustic increment, prefix (the end-of-sentence marker absorbs) and
/// language state, accumulates the model's finish score, and scores at least
/// the parent's score plus the weighted finish score (merging only adds).
pub open spec fn end_rule<T: LM>(e: Hyp<T::State>, p: Hyp<T::State>, blank_id: i32, w: i64) -> bool {
    &&& e.state.token == blank_id
    &&& e.state.prev_blank == false
    &&& e.state.am_score == p.state.am_score
    &&& e.state.lm_score as int == spec_cap_add(
        p.state.lm_score as int,
        T::finish_spec(p.lm_state) as int,
    )
    &&& e.state.seq_state == p.state.seq_state
    &&& e.state.score as int >= spec_cap_add(
        p.state.score as int,
        spec_mul_weight(w as int, T::finish_spec(p.lm_state) as int),
    )
    &&& e.lm_state == p.lm_state
}

/// Scores the sentence end of every surviving hypothesis: one more candidate
/// layer whose entries carry the weighted finish score, a blank token, and
/// the prefix absorbed through the end-of-sentence sentinel.
fn decode_end<T: LM>(
    lm: &mut T,
    options: BeamSearchDecoderOptions,
    tree: &mut SequenceState,
    hyps: &mut Vec<Vec<Hyp<T::State>>>,
    steps: usize,
    blank_id: i32,
    n_vocab: usize,
    wprev: Ghost<int>,
) -> (bw: Ghost<int>)
    requires
        old(tree).wf(),
        old(tree).vocab() == n_vocab as int,
        1 <= n_vocab,
        n_vocab <= i32::MAX,
        0 <= blank_id,
        (blank_id as int) < n_vocab as int,
        old(hyps)@.len() == steps as int + 1,
        layers_ok(old(hyps)@, n_vocab as int, old(tree).node_count()),
        steps + 2 <= usize::MAX,
        forall|k: int|
            0 <= k < old(hyps)@[steps as int]@.len()
                ==> -SCORE_CAP <= (#[trigger] old(hyps)@[steps as int]@[k]).state.score
                <= SCORE_CAP,
    ensures
        final(tree).wf(),
        *final(tree) == *old(tree),
        final(hyps)@.len() == steps as int + 2,
        layers_ok(final(hyps)@, n_vocab as int, final(tree).node_count()),
        forall|u: int| 0 <= u <= steps as int ==> #[trigger] final(hyps)@[u] == old(hyps)@[u],
        final(hyps)@[steps as int + 1]@.len() <= options.beam_size as int,
        options.beam_threshold >= 1 && options.beam_size >= 1 && old(hyps)@[steps as int]@.len()
            >= 1 ==> final(hyps)@[steps as int + 1]@.len() >= 1,
        forall|k: int|
            0 <= k < final(hyps)@[steps as int + 1]@.len()
                ==> (#[trigger] final(hyps)@[steps as int + 1]@[k]).state.token == blank_id,
        layer_merged(final(hyps)@[steps as int + 1]@),
        forall|k: int|
            0 <= k < final(hyps)@[steps as int + 1]@.len()
                ==> -SCORE_CAP <= (#[trigger] final(hyps)@[steps as int + 1]@[k]).state.score
                <= SCORE_CAP,
        forall|k: int|
            0 <= k < final(hyps)@[steps as int + 1]@.len() ==> {
                let e = #[trigger] final(hyps)@[steps as int + 1]@[k];
                &&& (e.state.parent_index as int) < old(hyps)@[steps as int]@.len()
                &&& end_rule::<T>(
                    e,
                    old(hyps)@[steps as int]@[e.state.parent_index as int],
                    blank_id,
                    options.lm_weight,
                )
            },
        options.lm_weight == 0 && options.beam_threshold >= 1 && options.beam_size >= 1 && 0
            <= wprev@ < old(hyps)@[steps as int]@.len() ==> 0 <= bw@ < final(hyps)@[steps as int
            + 1]@.len() && final(hyps)@[steps as int + 1]@[bw@].state.score >= old(hyps)@[steps
            as int]@[wprev@].state.score,
{
    let mut cands: Vec<Candidate> = Vec::new();
    let mut best: i64 = i64::MIN;
    let ghost mut best_at: int = 0;
    let prev_len = hyps[steps].len();
    let mut pi: usize = 0;
    while pi < prev_len
        invariant
            pi <= prev_len,
            hyps@.len() == steps as int + 1,
            hyps@ == old(hyps)@,
            prev_len == hyps@[steps as int]@.len(),
            tree.wf(),
            *tree == *old(tree),
            tree.vocab() == n_vocab as int,
            1 <= n_vocab,
            0 <= blank_id,
            (blank_id as int) < n_vocab as int,
            layers_ok(hyps@, n_vocab as int, tree.node_count()),
            old(tree).node_count() <= tree.node_count(),
            forall|k: int|
                0 <= k < hyps@[steps as int]@.len()
                    ==> -SCORE_CAP <= (#[trigger] hyps@[steps as int]@[k]).state.score
                    <= SCORE_CAP,
            options.lm_weight == 0 && 0 <= wprev@ < prev_len as int && pi as int > wprev@
                ==> best as int >= hyps@[steps as int]@[wprev@].state.score as int,
            forall|i: int|
                0 <= i < cands@.len() ==> state_ok(
                    (#[trigger] cands@[i]).state,
                    prev_len as int,
                    n_vocab as int,
                    tree.node_count(),
                ),
            forall|i: int| 0 <= i < cands@.len() ==> (#[trigger] cands@[i]).state.token == blank_id,
            forall|i: int|
                0 <= i < cands@.len() ==> {
                    let c = #[trigger] cands@[i];
                    let p = hyps@[steps as int]@[c.state.parent_index as int];
                    &&& c.emitted == false
                    &&& c.state.prev_blank == false
                    &&& c.state.am_score == p.state.am_score
                    &&& c.state.lm_score as int == spec_cap_add(
                        p.state.lm_score as int,
                        T::finish_spec(p.lm_state) as int,
                    )
                    &&& c.state.seq_state == p.state.seq_state
                    &&& c.state.score as int == spec_cap_add(
                        p.state.score as int,
                        spec_mul_weight(
                            options.lm_weight as int,
                            T::finish_spec(p.lm_state) as int,
                        ),
                    )
                },
            forall|i: int| 0 <= i < cands@.len() ==> (#[trigger] cands@[i]).state.score <= best,
            forall|i: int|
                0 <= i < cands@.len() ==> -SCORE_CAP <= (#[trigger] cands@[i]).state.score
                    <= SCORE_CAP,
            cands@.len() > 0 ==> 0 <= best_at < cands@.len() && cands@[best_at].state.score == best,
            options.beam_threshold <= 0 ==> cands@.len() == 0,
            options.beam_threshold >= 1 && cands@.len() == 0 ==> best == i64::MIN,
            options.beam_threshold >= 1 && pi > 0 ==> cands@.len() > 0,
        decreases prev_len - pi,
    {
        let parent_state = hyps[steps][pi].state;
        proof {
            assert(layer_ok(
                hyps@[steps as int]@,
                if steps as int == 0 {
                    1int
                } else {
                    hyps@[steps as int - 1]@.len() as int
                },
                n_vocab as int,
                tree.node_count(),
            ));
            assert(state_ok(
                hyps@[steps as int]@[pi as int].state,
                if steps as int == 0 {
                    1int
                } else {
                    hyps@[steps as int - 1]@.len() as int
                },
                n_vocab as int,
                tree.node_count(),
            ));
        }
        let lmsc = lm.finish(&hyps[steps][pi].lm_state);
        let ws = mul_weight(options.lm_weight, lmsc);
        let eos_state = parent_state.seq_state.child(tree, EOS_TOKEN);
        let cand = Candidate {
            state: DecoderState {
                score: cap_add(parent_state.score, ws),
                token: blank_id,
                prev_blank: false,
                am_score: parent_state.am_score,
                lm_score: cap_add(parent_state.lm_score, lmsc),
                parent_index: pi,
                seq_state: eos_state,
            },
            emitted: false,
        };
        let ghost pre_cands = cands@;
        let ghost pre_best = best;
        add_candidate(&mut cands, &mut best, options.beam_threshold, cand);
        proof {
            if cands@.len() > pre_cands.len() {
                assert(admitted(
                    cand.state.score as int,
                    best as int,
                    options.beam_threshold as int,
                ));
                assert(options.beam_threshold >= 1);
                if cand.state.score == best {
                    best_at = pre_cands.len() as int;
                } else {
                    assert(pre_cands.len() > 0);
                    assert(cands@[best_at] == pre_cands[best_at]);
                }
            } else {
                if cand.state.score > pre_best {
                    assert(!admitted(
                        cand.state.score as int,
                        best as int,
                        options.beam_threshold as int,
                    ));
                    assert(options.beam_threshold <= 0);
                }
            }
            if options.lm_weight == 0 && 0 <= wprev@ < prev_len as int && pi as int == wprev@ {
                lemma_zero_weight_cancels(lmsc as int);
                assert(cand.state.score as int == spec_cap_add(parent_state.score as int, 0));
                assert(cand.state.score == parent_state.score);
                assert(best as int >= cand.state.score as int);
            }
        }
        pi = pi + 1;
    }
    let (layer, wit, best_k, _merged_g, _perm_g, _runs_g) = finalize_candidates(
        lm,
        &cands,
        best,
        Ghost(best_at),
        options.beam_threshold,
        options.beam_size,
        &hyps[steps],
    );
    proof {
        lemma_layer_from_cands_ok(
            layer@,
            cands@,
            wit@,
            prev_len as int,
            n_vocab as int,
            tree.node_count(),
        );
        assert forall|k: int|
            0 <= k < layer@.len() implies (#[trigger] layer@[k]).state.token == blank_id by {
            assert(state_like(layer@[k].state, cands@[wit@[k]].state));
        }
    }
    let ghost pre_hyps = hyps@;
    hyps.push(layer);
    proof {
        assert forall|u: int|
            0 <= u < hyps@.len() implies layer_ok(
            (#[trigger] hyps@[u])@,
            if u == 0 {
                1int
            } else {
                hyps@[u - 1]@.len() as int
            },
            n_vocab as int,
            tree.node_count(),
        ) by {
            if u < hyps@.len() - 1 {
                assert(hyps@[u] == pre_hyps[u]);
                if u > 0 {
                    assert(hyps@[u - 1] == pre_hyps[u - 1]);
                }
            } else {
                assert(hyps@[u] == layer);
                assert(hyps@[u - 1] == pre_hyps[u - 1]);
            }
        }
        assert(layers_ok(hyps@, n_vocab as int, tree.node_count()));
        assert forall|k: int|
            0 <= k < layer@.len() implies {
            let e = #[trigger] layer@[k];
            let p = pre_hyps[steps as int]@[e.state.parent_index as int];
            &&& (e.state.parent_index as int) < pre_hyps[steps as int]@.len()
            &&& e.state.prev_blank == false
            &&& e.state.am_score == p.state.am_score
            &&& e.state.lm_score as int == spec_cap_add(
                p.state.lm_score as int,
                T::finish_spec(p.lm_state) as int,
            )
            &&& e.state.seq_state == p.state.seq_state
            &&& e.state.score as int >= spec_cap_add(
                p.state.score as int,
                spec_mul_weight(options.lm_weight as int, T::finish_spec(p.lm_state) as int),
            )
            &&& e.lm_state == p.lm_state
        } by {
            let w = wit@[k];
            assert(state_like(layer@[k].state, cands@[w].state));
            assert(layer@[k].state.score >= cands@[w].state.score);
            assert(cands@[w].emitted == false);
        }
        if options.lm_weight == 0 && options.beam_threshold >= 1 && options.beam_size >= 1 && 0
            <= wprev@ < prev_len as int {
            assert(cands@.len() > 0);
            assert(0 <= best_k@ < layer@.len() && layer@[best_k@].state.score >= best);
        }
    }
    best_k
}

/// Creates the root hypothesis layer: one entry with score zero, a blank
/// token, the root prefix, and the language model's start state.
fn decode_begin<T: LM>(lm: &mut T, hyps: &mut Vec<Vec<Hyp<T::State>>>, blank_id: i32, n_vocab: usize)
    requires
        0 <= blank_id,
        (blank_id as int) < n_vocab as int,
    ensures
        final(hyps)@.len() == 1,
        final(hyps)@[0]@.len() == 1,
        layers_ok(final(hyps)@, n_vocab as int, 1),
        final(hyps)@[0]@[0].state == (DecoderState {
            score: 0,
            token: blank_id,
            prev_blank: false,
            am_score: 0,
            lm_score: 0,
            parent_index: 0,
            seq_state: SequenceStateRef { id: 0 },
        }),
        final(hyps)@[0]@[0].lm_state == T::start_spec(),
{
    let initial_state = lm.start();
    let root = Hyp {
        lm_state: initial_state,
        state: DecoderState {
            score: 0,
            token: blank_id,
            prev_blank: false,
            am_score: 0,
            lm_score: 0,
            parent_index: 0,
            seq_state: SequenceStateRef::new(),
        },
    };
    hyps.clear();
    let mut layer0: Vec<Hyp<T::State>> = Vec::new();
    layer0.push(root);
    hyps.push(layer0);
    proof {
        assert forall|t: int|
            0 <= t < hyps@.len() implies layer_ok(
            (#[trigger] hyps@[t])@,
            if t == 0 {
                1int
            } else {
                hyps@[t - 1]@.len() as int
            },
            n_vocab as int,
            1,
        ) by {
            assert(state_ok(hyps@[0]@[0].state, 1, n_vocab as int, 1));
        }
    }
}

/// Walks each selected survivor of the final layer back to the root and
/// emits, in the order given, the collapsed tokens with their emission steps
/// and per-step score increments.
/// The raw token path of the survivor at `idx` of layer `t`: the tokens of
/// its ancestor chain from the first layer up to layer `t`, in time order.
pub open spec fn chain_tokens<S>(h: Seq<Vec<Hyp<S>>>, t: int, idx: int) -> Seq<i32>
    decreases t,
{
    if t <= 0 {
        Seq::empty()
    } else {
        chain_tokens(h, t - 1, h[t]@[idx].state.parent_index as int).push(h[t]@[idx].state.token)
    }
}

/// The beam states of the same ancestor chain, in time order.
pub open spec fn chain_states<S>(h: Seq<Vec<Hyp<S>>>, t: int, idx: int) -> Seq<DecoderState>
    decreases t,
{
    if t <= 0 {
        Seq::empty()
    } else {
        chain_states(h, t - 1, h[t]@[idx].state.parent_index as int).push(h[t]@[idx].state)
    }
}

/// Whether an output's timesteps and per-token scores are exactly the
/// emission points of the ancestor chain of hypothesis `idx` in layer `t`:
/// entry `k` is emitted at the `k`-th emitting position of the raw path, and
/// carries that position's token and score increments.
pub open spec fn output_emits<S>(
    o: DecoderOutput,
    h: Seq<Vec<Hyp<S>>>,
    t: int,
    idx: int,
    blank_id: i32,
) -> bool {
    let es = emit_steps(chain_tokens(h, t, idx), blank_id, blank_id, 0);
    let sts = chain_states(h, t, idx);
    &&& o.timesteps@.len() == es.len()
    &&& forall|k: int|
        0 <= k < es.len() ==> (((#[trigger] o.timesteps@[k]) as int) == es[k] && 0 <= es[k]
            < sts.len() && o.tokens@[k] == sts[es[k]].token && o.am_scores@[k]
            == sts[es[k]].am_score && o.lm_scores@[k] == sts[es[k]].lm_score)
}

/// The emitting positions of a raw token path under the CTC collapse rule,
/// counting from `pos`: a position emits when its token differs from its
/// predecessor and is not the blank.
pub open spec fn emit_steps(s: Seq<i32>, blank: i32, last: i32, pos: int) -> Seq<int>
    decreases s.len(),
{
    if s.len() == 0 {
        Seq::empty()
    } else {
        let tail = emit_steps(s.subrange(1, s.len() as int), blank, s[0], pos + 1);
        if s[0] != last && s[0] != blank {
            seq![pos] + tail
        } else {
            tail
        }
    }
}

#[verifier::rlimit(100)]
#[verifier::spinoff_prover]
fn get_all_hypothesis<S>(
    hyps: &Vec<Vec<Hyp<S>>>,
    final_step: usize,
    blank_id: i32,
    n_vocab: usize,
    order: &Vec<(i64, usize)>,
    ncount: Ghost<int>,
) -> (outputs: Vec<DecoderOutput>)
    requires
        hyps@.len() == final_step as int + 2,
        final_step + 2 <= usize::MAX,
        layers_ok(hyps@, n_vocab as int, ncount@),
        forall|r: int|
            0 <= r < order@.len() ==> ((#[trigger] order@[r]).1 as int) < hyps@[final_step as int
                + 1]@.len() && order@[r].0 == hyps@[final_step as int + 1]@[order@[r].1 as int].state.score,
        forall|k: int|
            0 <= k < hyps@[final_step as int + 1]@.len() ==> (#[trigger] hyps@[final_step as int
                + 1]@[k]).state.token == blank_id,
        0 <= blank_id,
    ensures
        outputs@.len() == order@.len(),
        forall|r: int| 0 <= r < outputs@.len() ==> (#[trigger] outputs@[r]).score == order@[r].0,
        outputs_wf(outputs@, final_step as int, n_vocab as int, blank_id),
        forall|r: int|
            0 <= r < outputs@.len() ==> (#[trigger] outputs@[r]).tokens@ == collapse(
                chain_tokens(hyps@, final_step as int + 1, order@[r].1 as int),
                blank_id,
            ),
        forall|r: int|
            0 <= r < outputs@.len() ==> output_emits(
                #[trigger] outputs@[r],
                hyps@,
                final_step as int + 1,
                order@[r].1 as int,
                blank_id,
            ),
{
    let mut outputs: Vec<DecoderOutput> = Vec::new();
    let on = order.len();
    let mut r: usize = 0;
    while r < on
        invariant
            r <= on,
            on == order@.len(),
            hyps@.len() == final_step as int + 2,
            final_step + 2 <= usize::MAX,
            layers_ok(hyps@, n_vocab as int, ncount@),
            forall|r0: int|
                0 <= r0 < order@.len() ==> ((#[trigger] order@[r0]).1 as int)
                    < hyps@[final_step as int + 1]@.len() && order@[r0].0 == hyps@[final_step as int
                    + 1]@[order@[r0].1 as int].state.score,
            forall|k: int|
                0 <= k < hyps@[final_step as int + 1]@.len() ==> (#[trigger] hyps@[final_step as int
                    + 1]@[k]).state.token == blank_id,
            0 <= blank_id,
            outputs@.len() == r as int,
            forall|q: int| 0 <= q < r as int ==> (#[trigger] outputs@[q]).score == order@[q].0,
            forall|q: int|
                0 <= q < r as int ==> output_wf(
                    #[trigger] outputs@[q],
                    final_step as int,
                    n_vocab as int,
                    blank_id,
                ),
            forall|q: int|
                0 <= q < r as int ==> (#[trigger] outputs@[q]).tokens@ == collapse(
                    chain_tokens(hyps@, final_step as int + 1, order@[q].1 as int),
                    blank_id,
                ),
            forall|q: int|
                0 <= q < r as int ==> output_emits(
                    #[trigger] outputs@[q],
                    hyps@,
                    final_step as int + 1,
                    order@[q].1 as int,
                    blank_id,
                ),
        decreases on - r,
    {
        let idx = order[r].1;
        // Collect the survivor's chain of beam states, newest first; `toks`
        // mirrors their tokens in time order.
        let mut chain: Vec<DecoderState> = Vec::new();
        let ghost mut toks: Seq<i32> = Seq::empty();
        let ghost mut sts: Seq<DecoderState> = Seq::empty();
        let mut cur: usize = idx;
        let mut t: usize = final_step + 1;
        while t >= 1
            invariant
                t <= final_step + 1,
                hyps@.len() == final_step as int + 2,
                layers_ok(hyps@, n_vocab as int, ncount@),
                (cur as int) < hyps@[t as int]@.len(),
                chain@.len() == final_step as int + 1 - t as int,
                chain@.len() == 0 ==> cur == idx && t == final_step + 1,
                chain@.len() > 0 ==> chain@[0] == hyps@[final_step as int + 1]@[idx as int].state,
                (idx as int) < hyps@[final_step as int + 1]@.len(),
                forall|m: int|
                    0 <= m < chain@.len() ==> 0 <= (#[trigger] chain@[m]).token && ((
                    chain@[m]).token as int) < n_vocab as int,
                toks.len() == chain@.len(),
                forall|m: int|
                    0 <= m < toks.len() ==> #[trigger] toks[m] == chain@[chain@.len() - 1
                        - m].token,
                chain_tokens(hyps@, final_step as int + 1, idx as int) == chain_tokens(
                    hyps@,
                    t as int,
                    cur as int,
                ) + toks,
                sts.len() == chain@.len(),
                forall|m: int|
                    0 <= m < sts.len() ==> #[trigger] sts[m] == chain@[chain@.len() - 1 - m],
                chain_states(hyps@, final_step as int + 1, idx as int) == chain_states(
                    hyps@,
                    t as int,
                    cur as int,
                ) + sts,
            decreases t,
        {
            let st = hyps[t][cur].state;
            proof {
                assert(layer_ok(
                    hyps@[t as int]@,
                    if t as int == 0 {
                        1int
                    } else {
                        hyps@[t as int - 1]@.len() as int
                    },
                    n_vocab as int,
                    ncount@,
                ));
                assert(state_ok(
                    hyps@[t as int]@[cur as int].state,
                    if t as int == 0 {
                        1int
                    } else {
                        hyps@[t as int - 1]@.len() as int
                    },
                    n_vocab as int,
                    ncount@,
                ));
            }
            proof {
                let ghost pre_toks = toks;
                toks = seq![st.token] + toks;
                assert(chain_tokens(hyps@, t as int, cur as int) == chain_tokens(
                    hyps@,
                    t as int - 1,
                    st.parent_index as int,
                ).push(st.token));
                assert(chain_tokens(hyps@, t as int - 1, st.parent_index as int).push(st.token)
                    + pre_toks =~= chain_tokens(hyps@, t as int - 1, st.parent_index as int)
                    + toks);
                let ghost pre_sts = sts;
                sts = seq![st] + sts;
                assert(chain_states(hyps@, t as int, cur as int) == chain_states(
                    hyps@,
                    t as int - 1,
                    st.parent_index as int,
                ).push(st));
                assert(chain_states(hyps@, t as int - 1, st.parent_index as int).push(st)
                    + pre_sts =~= chain_states(hyps@, t as int - 1, st.parent_index as int)
                    + sts);
            }
            chain.push(st);
            cur = st.parent_index;
            t = t - 1;
        }
        proof {
            assert(chain_tokens(hyps@, 0, cur as int) =~= Seq::<i32>::empty());
            assert(chain_tokens(hyps@, final_step as int + 1, idx as int) =~= toks);
            assert(chain_states(hyps@, 0, cur as int) =~= Seq::<DecoderState>::empty());
            assert(chain_states(hyps@, final_step as int + 1, idx as int) =~= sts);
        }
        // Forward pass: emit a token whenever it differs from its
        // predecessor and is not the blank.
        let mut out = DecoderOutput::new();
        out.score = order[r].0;
        let mut last_token: i32 = blank_id;
        let clen = chain.len();
        let mut s: usize = 0;
        let ghost mut done_es: Seq<int> = Seq::empty();
        proof {
            assert(toks.subrange(0, clen as int) =~= toks);
            assert(out.tokens@ + collapse_from(toks, blank_id, blank_id) =~= collapse(
                toks,
                blank_id,
            ));
            assert(done_es + emit_steps(toks, blank_id, blank_id, 0) =~= emit_steps(
                toks,
                blank_id,
                blank_id,
                0,
            ));
        }
        while s < clen
            invariant
                s <= clen,
                clen == chain@.len(),
                clen == final_step as int + 1,
                toks.len() == chain@.len(),
                forall|m: int|
                    0 <= m < toks.len() ==> #[trigger] toks[m] == chain@[chain@.len() - 1
                        - m].token,
                sts.len() == chain@.len(),
                forall|m: int|
                    0 <= m < sts.len() ==> #[trigger] sts[m] == chain@[chain@.len() - 1 - m],
                collapse(toks, blank_id) == out.tokens@ + collapse_from(
                    toks.subrange(s as int, clen as int),
                    blank_id,
                    last_token,
                ),
                emit_steps(toks, blank_id, blank_id, 0) == done_es + emit_steps(
                    toks.subrange(s as int, clen as int),
                    blank_id,
                    last_token,
                    s as int,
                ),
                done_es.len() == out.timesteps@.len(),
                forall|k: int|
                    0 <= k < done_es.len() ==> #[trigger] done_es[k] == out.timesteps@[k] as int
                        && 0 <= done_es[k] < clen as int && out.tokens@[k] == sts[done_es[k]].token
                        && out.am_scores@[k] == sts[done_es[k]].am_score && out.lm_scores@[k]
                        == sts[done_es[k]].lm_score,
                out.score == order@[r as int].0,
                (r as int) < order@.len(),
                0 <= blank_id,
                chain@[0] == hyps@[final_step as int + 1]@[idx as int].state,
                (idx as int) < hyps@[final_step as int + 1]@.len(),
                hyps@.len() == final_step as int + 2,
                forall|k: int|
                    0 <= k < hyps@[final_step as int + 1]@.len() ==> (#[trigger] hyps@[final_step
                        as int + 1]@[k]).state.token == blank_id,
                forall|m: int|
                    0 <= m < chain@.len() ==> 0 <= (#[trigger] chain@[m]).token && ((
                    chain@[m]).token as int) < n_vocab as int,
                out.tokens@.len() == out.timesteps@.len(),
                out.tokens@.len() == out.am_scores@.len(),
                out.tokens@.len() == out.lm_scores@.len(),
                forall|q: int|
                    0 <= q < out.tokens@.len() ==> #[trigger] out.tokens@[q] != blank_id && 0
                        <= out.tokens@[q] && (out.tokens@[q] as int) < n_vocab as int,
                forall|q: int|
                    0 <= q < out.timesteps@.len() ==> ((#[trigger] out.timesteps@[q]) as int) < s
                        as int && ((out.timesteps@[q]) as int) < final_step as int,
                forall|q: int|
                    0 <= q < out.timesteps@.len() - 1 ==> ((#[trigger] out.timesteps@[q]) as int)
                        < (out.timesteps@[q + 1] as int),
            decreases clen - s,
        {
            let st = chain[clen - 1 - s];
            let token = st.token;
            let ghost pre = toks.subrange(s as int, clen as int);
            proof {
                assert(pre[0] == toks[s as int]);
                assert(toks[s as int] == chain@[clen as int - 1 - s as int].token);
                assert(pre.subrange(1, pre.len() as int) =~= toks.subrange(
                    s as int + 1,
                    clen as int,
                ));
            }
            if last_token != token && token != blank_id {
                proof {
                    if s as int == clen - 1 {
                        assert(chain@[0].token == blank_id);
                        assert(false);
                    }
                }
                out.tokens.push(token);
                out.timesteps.push(s);
                out.am_scores.push(st.am_score);
                out.lm_scores.push(st.lm_score);
                proof {
                    assert(out.tokens@ + collapse_from(
                        toks.subrange(s as int + 1, clen as int),
                        blank_id,
                        token,
                    ) =~= collapse(toks, blank_id));
                    assert(st == sts[s as int]);
                    done_es = done_es.push(s as int);
                    assert(done_es + emit_steps(
                        toks.subrange(s as int + 1, clen as int),
                        blank_id,
                        token,
                        s as int + 1,
                    ) =~= emit_steps(toks, blank_id, blank_id, 0));
                }
            }
            last_token = token;
            s = s + 1;
        }
        proof {
            assert(toks.subrange(clen as int, clen as int) =~= Seq::<i32>::empty());
            assert(out.tokens@ =~= collapse(toks, blank_id));
            assert(out.tokens@ == collapse(
                chain_tokens(hyps@, final_step as int + 1, idx as int),
                blank_id,
            ));
            assert(done_es =~= emit_steps(toks, blank_id, blank_id, 0));
            let ghost sts_r = chain_states(hyps@, final_step as int + 1, idx as int);
            let ghost es_r = emit_steps(
                chain_tokens(hyps@, final_step as int + 1, idx as int),
                blank_id,
                blank_id,
                0,
            );
            assert(sts_r == sts);
            assert(es_r == done_es);
            assert(out.timesteps@.len() == es_r.len());
            assert forall|k: int|
                0 <= k < es_r.len() implies ((#[trigger] out.timesteps@[k]) as int) == es_r[k] && 0
                <= es_r[k] < sts_r.len() && out.tokens@[k] == sts_r[es_r[k]].token
                && out.am_scores@[k] == sts_r[es_r[k]].am_score && out.lm_scores@[k]
                == sts_r[es_r[k]].lm_score by {
                assert(done_es[k] == out.timesteps@[k] as int);
                assert(0 <= done_es[k] < clen as int);
            }
            assert(output_emits(out, hyps@, final_step as int + 1, idx as int, blank_id));
        }
        outputs.push(out);
        proof {
            assert(output_wf(out, final_step as int, n_vocab as int, blank_id));
        }
        r = r + 1;
    }
    outputs
}

/// The root beam entry of every decode: score zero, the blank as last
/// token, zero increments, the root prefix.
pub open spec fn root_state(blank_id: i32) -> DecoderState {
    DecoderState {
        score: 0,
        token: blank_id,
        prev_blank: false,
        am_score: 0,
        lm_score: 0,
        parent_index: 0,
        seq_state: SequenceStateRef { id: 0 },
    }
}

/// A complete model of one decode: a chain of hypothesis layers `h` over a
/// well-formed prefix tree, rooted in the decoder's start entry, in which
/// every expansion layer follows the per-step rules against the emission
/// matrix, the final layer follows the sentence-end rule, and the outputs
/// are exactly the backtrackings of the final layer's hypotheses in the
/// order `ord`: output `r` carries the score of final hypothesis `ord[r].1`
/// and the CTC collapse of that hypothesis's ancestor token chain.
pub open spec fn decode_model<T: LM>(
    data: Seq<i64>,
    steps: usize,
    n_vocab: usize,
    blank_id: i32,
    w: i64,
    bst: usize,
    outputs: Seq<DecoderOutput>,
    h: Seq<Vec<Hyp<T::State>>>,
    tree: SequenceState,
    ord: Seq<(i64, usize)>,
) -> bool {
    &&& h.len() == steps as int + 2
    &&& tree.wf()
    &&& tree.vocab() == n_vocab as int
    &&& layers_ok(h, n_vocab as int, tree.node_count())
    &&& h[0]@.len() == 1
    &&& h[0]@[0].state == root_state(blank_id)
    &&& h[0]@[0].lm_state == T::start_spec()
    &&& layers_rule::<T>(h, steps as int, n_vocab as int, data, w as int, blank_id, tree)
    &&& layers_shortlisted(h, steps as int, n_vocab as int, bst as int, data)
    &&& forall|u: int| 1 <= u <= steps as int + 1 && u < h.len() ==> layer_merged((#[trigger] h[u])@)
    &&& forall|k: int|
        0 <= k < h[steps as int + 1]@.len() ==> {
            let e = #[trigger] h[steps as int + 1]@[k];
            &&& (e.state.parent_index as int) < h[steps as int]@.len()
            &&& end_rule::<T>(e, h[steps as int]@[e.state.parent_index as int], blank_id, w)
        }
    &&& outputs.len() == h[steps as int + 1]@.len()
    &&& ord.len() == outputs.len()
    &&& ord.to_multiset() == Seq::new(
        h[steps as int + 1]@.len(),
        |i: int| (h[steps as int + 1]@[i].state.score, i as usize),
    ).to_multiset()
    &&& forall|r: int|
        0 <= r < outputs.len() ==> {
            &&& ((ord[r].1 as int) < h[steps as int + 1]@.len())
            &&& ord[r].0 == h[steps as int + 1]@[ord[r].1 as int].state.score
            &&& (#[trigger] outputs[r]).score == ord[r].0
            &&& outputs[r].tokens@ == collapse(
                chain_tokens(h, steps as int + 1, ord[r].1 as int),
                blank_id,
            )
            &&& output_emits(outputs[r], h, steps as int + 1, ord[r].1 as int, blank_id)
        }
}

/// The prefix beam-search decoder: per-step candidate expansion over a token
/// shortlist, threshold pruning, log-sum-exp merging of equal prefixes,
/// top-k selection, and backtracking of the survivors.
pub struct BeamSearchDecoder<T: LM> {
    options: BeamSearchDecoderOptions,
    lm: T,
}

impl<T: LM> BeamSearchDecoder<T> {
    /// The configuration this decoder was built with.
    pub closed spec fn spec_options(&self) -> BeamSearchDecoderOptions {
        self.options
    }

    /// The language model this decoder was built around.
    pub closed spec fn spec_lm(&self) -> T {
        self.lm
    }

    /// Builds a decoder from a configuration and a language model.
    pub fn new(options: BeamSearchDecoderOptions, lm: T) -> (r: Self)
        ensures
            r.spec_options() == options,
            r.spec_lm() == lm,
    {
        BeamSearchDecoder { options, lm }
    }
}

impl<T: LM> Decoder for BeamSearchDecoder<T> {
    /// A well-shaped matrix with a blank inside the alphabet, small enough
    /// that each token fits an `i32` and one layer per step can be kept.
    open spec fn decode_req(
        pre: Self,
        data: Seq<i64>,
        steps: usize,
        n_vocab: usize,
        blank_id: i32,
    ) -> bool {
        &&& data.len() == steps * n_vocab
        &&& 1 <= n_vocab
        &&& n_vocab <= i32::MAX
        &&& 0 <= blank_id
        &&& (blank_id as int) < n_vocab as int
        &&& steps + 2 <= usize::MAX
    }

    /// At most `beam_size` well-formed outputs, sorted by descending score;
    /// when the configuration prunes nothing to emptiness — a positive
    /// threshold, a positive beam and a positive token shortlist — at least
    /// one hypothesis is returned. The configuration is left unchanged.
    open spec fn decode_ens(
        pre: Self,
        post: Self,
        data: Seq<i64>,
        steps: usize,
        n_vocab: usize,
        blank_id: i32,
        outputs: Seq<DecoderOutput>,
    ) -> bool {
        &&& outputs.len() <= pre.spec_options().beam_size as int
        &&& outputs_sorted(outputs)
        &&& outputs_wf(outputs, steps as int, n_vocab as int, blank_id)
        &&& post.spec_options() == pre.spec_options()
        &&& pre.spec_options().beam_threshold >= 1 && pre.spec_options().beam_size >= 1
            && pre.spec_options().beam_size_token >= 1 ==> outputs.len() >= 1
        &&& pre.spec_options().lm_weight == 0 && pre.spec_options().beam_threshold >= 1
            && pre.spec_options().beam_size >= 1 && pre.spec_options().beam_size_token >= 1
            ==> outputs.len() >= 1 && (outputs[0].score as int) >= acoustic_bound(
            data,
            n_vocab as int,
            steps as int,
        )
        &&& forall|r: int|
            0 <= r < outputs.len() ==> -SCORE_CAP <= (#[trigger] outputs[r]).score <= SCORE_CAP
        &&& exists|h: Seq<Vec<Hyp<T::State>>>, tree: SequenceState, ord: Seq<(i64, usize)>|
            #[trigger] decode_model::<T>(
                data,
                steps,
                n_vocab,
                blank_id,
                pre.spec_options().lm_weight,
                pre.spec_options().beam_size_token,
                outputs,
                h,
                tree,
                ord,
            )
    }

    #[verifier::rlimit(100)]
    fn decode(&mut self, data: &[i64], steps: usize, n_vocab: usize, blank_id: i32) -> (outputs:
        Vec<DecoderOutput>)
    {
        let options = self.options;
        let mut tree = SequenceState::new(n_vocab);
        let mut hyps: Vec<Vec<Hyp<T::State>>> = Vec::new();
        decode_begin(&mut self.lm, &mut hyps, blank_id, n_vocab);
        let ghost h0 = hyps@;
        proof {
            lemma_layers_ok_grow(hyps@, n_vocab as int, 1, tree.node_count());
        }
        let step_w = decode_step(
            &mut self.lm,
            options,
            &mut tree,
            &mut hyps,
            data,
            steps,
            n_vocab,
            blank_id,
        );
        let ghost h1 = hyps@;
        let end_w = decode_end(
            &mut self.lm,
            options,
            &mut tree,
            &mut hyps,
            steps,
            blank_id,
            n_vocab,
            step_w,
        );
        // Order the survivors of the final layer by descending score.
        let mut pairs: Vec<(i64, usize)> = Vec::new();
        let fl = hyps[steps + 1].len();
        let mut i: usize = 0;
        while i < fl
            invariant
                i <= fl,
                steps + 2 <= usize::MAX,
                steps as int + 1 < hyps@.len(),
                fl == hyps@[steps as int + 1]@.len(),
                pairs@.len() == i as int,
                forall|k: int|
                    0 <= k < pairs@.len() ==> ((#[trigger] pairs@[k]).1 as int) < fl as int
                        && pairs@[k].0 == hyps@[steps as int + 1]@[pairs@[k].1 as int].state.score,
                forall|k: int| 0 <= k < pairs@.len() ==> ((#[trigger] pairs@[k]).1 as int) == k,
            decreases fl - i,
        {
            pairs.push((hyps[steps + 1][i].state.score, i));
            i = i + 1;
        }
        let order = sort_pairs_desc(&pairs);
        proof {
            assert forall|r0: int|
                0 <= r0 < order@.len() implies ((#[trigger] order@[r0]).1 as int) < hyps@[steps
                as int + 1]@.len() && order@[r0].0 == hyps@[steps as int + 1]@[order@[r0].1
                as int].state.score by {
                assert(pairs@.contains(order@[r0]));
                let j = choose|j: int| 0 <= j < pairs@.len() && pairs@[j] == order@[r0];
                assert(((pairs@[j]).1 as int) < fl as int);
            }
        }
        let outputs = get_all_hypothesis(
            &hyps,
            steps,
            blank_id,
            n_vocab,
            &order,
            Ghost(tree.node_count()),
        );
        proof {
            assert(outputs_sorted(outputs@));
            // every output's score is a final hypothesis's score, in range
            assert forall|r: int|
                0 <= r < outputs@.len() implies -SCORE_CAP <= (#[trigger] outputs@[r]).score
                <= SCORE_CAP by {
                assert(outputs@[r].score == order@[r].0);
                assert(pairs@.contains(order@[r]));
                let j = choose|j: int| 0 <= j < pairs@.len() && pairs@[j] == order@[r];
                assert(pairs@[j].0 == hyps@[steps as int + 1]@[pairs@[j].1 as int].state.score);
            }
            // the per-step rules carry over from before the finish layer was
            // added: the layers and the tree are unchanged
            assert forall|u: int, k: int|
                #![trigger hyps@[u]@[k]]
                1 <= u <= steps as int && u < hyps@.len() && 0 <= k < hyps@[u]@.len() implies entry_rule::<
                T,
            >(
                hyps@[u]@[k],
                hyps@[u - 1]@[hyps@[u]@[k].state.parent_index as int],
                (u - 1) * n_vocab as int,
                data@,
                options.lm_weight as int,
                blank_id,
                tree,
            ) by {
                assert(hyps@[u] == h1[u]);
                assert(hyps@[u - 1] == h1[u - 1]);
                assert(entry_rule::<T>(
                    h1[u]@[k],
                    h1[u - 1]@[h1[u]@[k].state.parent_index as int],
                    (u - 1) * n_vocab as int,
                    data@,
                    options.lm_weight as int,
                    blank_id,
                    tree,
                ));
            }
            assert(layers_rule::<T>(
                hyps@,
                steps as int,
                n_vocab as int,
                data@,
                options.lm_weight as int,
                blank_id,
                tree,
            ));
            assert forall|u: int|
                1 <= u <= steps as int + 1 && u < hyps@.len() implies layer_merged(
                (#[trigger] hyps@[u])@,
            ) by {
                if u <= steps as int {
                    assert(hyps@[u] == h1[u]);
                    assert(layer_merged(h1[u]@));
                }
            }
            assert(hyps@[0] == h0[0]);
            assert(pairs@ =~= Seq::new(
                hyps@[steps as int + 1]@.len(),
                |i: int| (hyps@[steps as int + 1]@[i].state.score, i as usize),
            ));
            assert forall|u: int, k: int|
                #![trigger hyps@[u]@[k]]
                1 <= u <= steps as int && u < hyps@.len() && 0 <= k < hyps@[u]@.len() implies in_shortlist(
                hyps@[u]@[k].state.token,
                data@,
                (u - 1) * n_vocab as int,
                n_vocab as int,
                options.beam_size_token as int,
            ) by {
                assert(hyps@[u] == h1[u]);
                assert(in_shortlist(
                    h1[u]@[k].state.token,
                    data@,
                    (u - 1) * n_vocab as int,
                    n_vocab as int,
                    options.beam_size_token as int,
                ));
            }
            assert(decode_model::<T>(
                data@,
                steps,
                n_vocab,
                blank_id,
                options.lm_weight,
                options.beam_size_token,
                outputs@,
                hyps@,
                tree,
                order@,
            ));
            assert(options == old(self).spec_options());
            assert(exists|h: Seq<Vec<Hyp<T::State>>>, tr: SequenceState, ord2: Seq<(i64, usize)>|
                #[trigger] decode_model::<T>(
                    data@,
                    steps,
                    n_vocab,
                    blank_id,
                    old(self).spec_options().lm_weight,
                    old(self).spec_options().beam_size_token,
                    outputs@,
                    h,
                    tr,
                    ord2,
                ));
            if options.lm_weight == 0 && options.beam_threshold >= 1 && options.beam_size >= 1
                && options.beam_size_token >= 1 {
                // the surviving witness of the last layer keeps the acoustic
                // bound; the sorted first output scores at least as high
                assert(0 <= end_w@ < fl as int);
                assert(hyps@[steps as int + 1]@[end_w@].state.score as int >= acoustic_bound(
                    data@,
                    n_vocab as int,
                    steps as int,
                ));
                assert(pairs@[end_w@].0 == hyps@[steps as int + 1]@[end_w@].state.score);
                lemma_perm_element(order@, pairs@, end_w@);
                let pos = choose|j: int| 0 <= j < order@.len() && order@[j] == pairs@[end_w@];
                assert(order@[0].0 >= order@[pos].0);
                assert(outputs@[0].score == order@[0].0);
            }
        }
        outputs
    }
}

} // verus!
