//! Decoder interface and the decoded-output type.

pub mod beamsearch;
pub mod greedy;

pub use beamsearch::BeamSearchDecoder;
pub use beamsearch::BeamSearchDecoderOptions;
pub use greedy::GreedyDecoder;

use vstd::prelude::*;

verus! {

/// One decoded hypothesis: a collapsed token sequence with the step at which
/// each token was emitted, the per-token acoustic and language-model score
/// increments, and the total combined score of the hypothesis.
#[derive(Clone, Debug, PartialEq, Default)]
pub struct DecoderOutput {
    /// Total combined log-score of this hypothesis, in fixed-point units.
    pub score: i64,
    /// Collapsed token sequence: blanks removed, uninterrupted repeats merged.
    pub tokens: Vec<i32>,
    /// Emission step of each token in `tokens`.
    pub timesteps: Vec<usize>,
    /// Acoustic score increment of each token in `tokens`.
    pub am_scores: Vec<i64>,
    /// Language-model score increment of each token in `tokens`.
    pub lm_scores: Vec<i64>,
}

/// CTC collapse of the raw sequence `s`, assuming the symbol emitted just
/// before `s` was `last`: a symbol is kept when it differs from its
/// predecessor and is not the blank.
pub open spec fn collapse_from(s: Seq<i32>, blank: i32, last: i32) -> Seq<i32>
    decreases s.len(),
{
    if s.len() == 0 {
        Seq::empty()
    } else {
        let tail = collapse_from(s.subrange(1, s.len() as int), blank, s[0]);
        if s[0] != last && s[0] != blank {
            seq![s[0]] + tail
        } else {
            tail
        }
    }
}

/// CTC collapse of a raw sequence: blanks removed and uninterrupted repeats
/// merged.
pub open spec fn collapse(s: Seq<i32>, blank: i32) -> Seq<i32> {
    collapse_from(s, blank, blank)
}

/// The blank never survives a collapse, and no element equal to the preceding
/// context survives at the front.
pub proof fn lemma_collapse_no_blank(s: Seq<i32>, blank: i32, last: i32)
    ensures
        forall|k: int|
            0 <= k < collapse_from(s, blank, last).len() ==> #[trigger] collapse_from(
                s,
                blank,
                last,
            )[k] != blank,
    decreases s.len(),
{
    if s.len() > 0 {
        let tail = s.subrange(1, s.len() as int);
        lemma_collapse_no_blank(tail, blank, s[0]);
        let c = collapse_from(s, blank, last);
        let ct = collapse_from(tail, blank, s[0]);
        if s[0] != last && s[0] != blank {
            assert forall|k: int| 0 <= k < c.len() implies #[trigger] c[k] != blank by {
                if k > 0 {
                    assert(c[k] == ct[k - 1]);
                }
            }
        }
    }
}

/// On a sequence that contains no blank, a collapse removes exactly the
/// adjacent repeats: the result has no two equal neighbours, and its first
/// element differs from the preceding context.
pub proof fn lemma_collapse_dedup(s: Seq<i32>, blank: i32, last: i32)
    requires
        forall|k: int| 0 <= k < s.len() ==> #[trigger] s[k] != blank,
    ensures
        collapse_from(s, blank, last).len() > 0 ==> collapse_from(s, blank, last)[0] != last,
        forall|k: int|
            0 <= k < collapse_from(s, blank, last).len() - 1 ==> #[trigger] collapse_from(
                s,
                blank,
                last,
            )[k] != collapse_from(s, blank, last)[k + 1],
    decreases s.len(),
{
    if s.len() > 0 {
        let tail = s.subrange(1, s.len() as int);
        lemma_collapse_dedup(tail, blank, s[0]);
        let c = collapse_from(s, blank, last);
        let ct = collapse_from(tail, blank, s[0]);
        if s[0] != last && s[0] != blank {
            assert(c == seq![s[0]] + ct);
            assert(c[0] == s[0]);
            assert forall|k: int| 0 <= k < c.len() - 1 implies #[trigger] c[k] != c[k + 1] by {
                if k == 0 {
                    if ct.len() > 0 {
                        assert(c[1] == ct[0]);
                    }
                } else {
                    assert(c[k] == ct[k - 1] && c[k + 1] == ct[k]);
                }
            }
        }
    }
}

/// The re-collapsed token sequence of any well-formed decoder output is
/// fully reduced: since such an output never contains the blank, one more
/// collapse leaves no blank and no two equal neighbours.
pub proof fn lemma_reduced_tokens_collapsed(
    o: DecoderOutput,
    steps: int,
    n_vocab: int,
    blank_id: i32,
)
    requires
        output_wf(o, steps, n_vocab, blank_id),
    ensures
        forall|k: int|
            0 <= k < collapse(o.tokens@, blank_id).len() ==> #[trigger] collapse(
                o.tokens@,
                blank_id,
            )[k] != blank_id,
        forall|k: int|
            0 <= k < collapse(o.tokens@, blank_id).len() - 1 ==> #[trigger] collapse(
                o.tokens@,
                blank_id,
            )[k] != collapse(o.tokens@, blank_id)[k + 1],
{
    lemma_collapse_no_blank(o.tokens@, blank_id, blank_id);
    lemma_collapse_dedup(o.tokens@, blank_id, blank_id);
}

impl DecoderOutput {
    /// Empty output with score zero.
    pub fn new() -> (r: DecoderOutput)
        ensures
            r.score == 0,
            r.tokens@ =~= Seq::<i32>::empty(),
            r.timesteps@ =~= Seq::<usize>::empty(),
            r.am_scores@ =~= Seq::<i64>::empty(),
            r.lm_scores@ =~= Seq::<i64>::empty(),
    {
        DecoderOutput {
            score: 0,
            tokens: Vec::new(),
            timesteps: Vec::new(),
            am_scores: Vec::new(),
            lm_scores: Vec::new(),
        }
    }

    /// The token sequence with blanks and uninterrupted repeats collapsed
    /// once more, for callers that hold a pre-collapse representation.
    pub fn reduced_tokens(&self, blank: i32) -> (r: Vec<i32>)
        ensures
            r@ == collapse(self.tokens@, blank),
    {
        let mut out: Vec<i32> = Vec::new();
        let mut last_token = blank;
        let n = self.tokens.len();
        let mut i: usize = 0;
        proof {
            assert(self.tokens@.subrange(0, n as int) =~= self.tokens@);
            assert(out@ + collapse_from(self.tokens@, blank, blank) =~= collapse(
                self.tokens@,
                blank,
            ));
        }
        while i < n
            invariant
                i <= n,
                n == self.tokens@.len(),
                collapse(self.tokens@, blank) == out@ + collapse_from(
                    self.tokens@.subrange(i as int, n as int),
                    blank,
                    last_token,
                ),
            decreases n - i,
        {
            let tok = self.tokens[i];
            let ghost pre = self.tokens@.subrange(i as int, n as int);
            proof {
                assert(pre[0] == self.tokens@[i as int]);
                assert(pre.subrange(1, pre.len() as int) =~= self.tokens@.subrange(
                    i as int + 1,
                    n as int,
                ));
            }
            if last_token != tok && tok != blank {
                out.push(tok);
                proof {
                    assert(out@ + collapse_from(
                        self.tokens@.subrange(i as int + 1, n as int),
                        blank,
                        tok,
                    ) =~= collapse(self.tokens@, blank));
                }
            }
            last_token = tok;
            i = i + 1;
        }
        proof {
            assert(self.tokens@.subrange(n as int, n as int) =~= Seq::<i32>::empty());
            assert(out@ =~= collapse(self.tokens@, blank));
        }
        out
    }
}

/// Well-formedness of one decoded output for a decode over `steps` timesteps
/// and `n_vocab` tokens: the four per-token arrays have one entry per emitted
/// token, no emitted token is the blank or out of the alphabet, and the
/// emission steps are strictly increasing positions of the decoded window.
pub open spec fn output_wf(o: DecoderOutput, steps: int, n_vocab: int, blank_id: i32) -> bool {
    &&& o.tokens@.len() == o.timesteps@.len()
    &&& o.tokens@.len() == o.am_scores@.len()
    &&& o.tokens@.len() == o.lm_scores@.len()
    &&& forall|k: int|
        0 <= k < o.tokens@.len() ==> #[trigger] o.tokens@[k] != blank_id && 0 <= o.tokens@[k]
            && (o.tokens@[k] as int) < n_vocab
    &&& forall|k: int|
        0 <= k < o.timesteps@.len() ==> ((#[trigger] o.timesteps@[k]) as int) < steps
    &&& forall|k: int|
        0 <= k < o.timesteps@.len() - 1 ==> ((#[trigger] o.timesteps@[k]) as int) < (o.timesteps@[k
            + 1] as int)
}

/// Every output is well formed.
pub open spec fn outputs_wf(
    outputs: Seq<DecoderOutput>,
    steps: int,
    n_vocab: int,
    blank_id: i32,
) -> bool {
    forall|i: int|
        0 <= i < outputs.len() ==> output_wf(#[trigger] outputs[i], steps, n_vocab, blank_id)
}

/// Outputs come sorted by descending score.
pub open spec fn outputs_sorted(outputs: Seq<DecoderOutput>) -> bool {
    forall|i: int, j: int|
        0 <= i < j < outputs.len() ==> (#[trigger] outputs[i]).score >= (
        #[trigger] outputs[j]).score
}

/// Failure of a decode call before any decoding happens.
#[derive(Clone, Copy, PartialEq, Eq, Structural, Debug)]
pub enum DecodeError {
    /// The emission buffer does not hold `steps x n_vocab` values, the blank
    /// lies outside the alphabet, or a size exceeds the decoder's machine
    /// limits.
    InvalidShape,
}

/// Checks the shape of a decode call: the emission buffer must hold exactly
/// `steps x n_vocab` values, the alphabet must be nonempty with tokens that
/// fit an `i32`, the blank must lie inside the alphabet, and one hypothesis
/// layer per step and two more must be countable.
pub fn validate_decode_shape(data_len: usize, steps: usize, n_vocab: usize, blank_id: i32) -> (r:
    Result<(), DecodeError>)
    ensures
        r is Ok <==> {
            &&& data_len as int == steps as int * n_vocab as int
            &&& 1 <= n_vocab
            &&& n_vocab <= i32::MAX
            &&& 0 <= blank_id
            &&& (blank_id as int) < n_vocab as int
            &&& steps + 2 <= usize::MAX
        },
        r is Err ==> r->Err_0 == DecodeError::InvalidShape,
{
    if n_vocab < 1 || n_vocab > i32::MAX as usize {
        return Err(DecodeError::InvalidShape);
    }
    if blank_id < 0 || blank_id as usize >= n_vocab {
        return Err(DecodeError::InvalidShape);
    }
    if steps > usize::MAX - 2 {
        return Err(DecodeError::InvalidShape);
    }
    proof {
        assert((steps as u128) * (n_vocab as u128) <= 0xffff_ffff_ffff_ffffu128 * 0x8000_0000u128)
            by (nonlinear_arith)
            requires
                steps as u128 <= 0xffff_ffff_ffff_ffffu128,
                n_vocab as u128 <= 0x8000_0000u128,
        ;
    }
    if (data_len as u128) != (steps as u128) * (n_vocab as u128) {
        return Err(DecodeError::InvalidShape);
    }
    proof {
        assert((steps as u128) * (n_vocab as u128) == steps as int * n_vocab as int)
            by (nonlinear_arith)
            requires
                0 <= steps as int,
                0 <= n_vocab as int,
        ;
    }
    Ok(())
}

/// A decoder of CTC emission matrices. Each implementation fixes what it
/// requires of its inputs and what it promises of its outputs through the two
/// spec functions.
pub trait Decoder: Sized {
    /// Inputs on which this decoder's `decode` is specified.
    spec fn decode_req(pre: Self, data: Seq<i64>, steps: usize, n_vocab: usize, blank_id: i32) -> bool;

    /// What `decode` promises of its outputs and its final state.
    spec fn decode_ens(
        pre: Self,
        post: Self,
        data: Seq<i64>,
        steps: usize,
        n_vocab: usize,
        blank_id: i32,
        outputs: Seq<DecoderOutput>,
    ) -> bool;

    /// Decodes a row-major `steps x n_vocab` emission matrix of fixed-point
    /// log-scores into hypotheses sorted by descending score.
    fn decode(&mut self, data: &[i64], steps: usize, n_vocab: usize, blank_id: i32) -> (outputs:
        Vec<DecoderOutput>)
        requires
            Self::decode_req(*old(self), data@, steps, n_vocab, blank_id),
        ensures
            Self::decode_ens(*old(self), *final(self), data@, steps, n_vocab, blank_id, outputs@),
    ;
}

} // verus!
