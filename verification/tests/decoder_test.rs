use ctclib::{
    validate_decode_shape, BeamSearchDecoder, BeamSearchDecoderOptions, DecodeError, Decoder,
    DecoderOutput, GreedyDecoder, ZeroLM, FIXED_ONE, LM,
};

fn fx(x: f64) -> i64 {
    (x * FIXED_ONE as f64).round() as i64
}

fn default_options() -> BeamSearchDecoderOptions {
    BeamSearchDecoderOptions {
        beam_size: 10,
        beam_size_token: 10,
        beam_threshold: i64::MAX,
        lm_weight: 0,
    }
}

#[test]
fn it_works() {
    let options = BeamSearchDecoderOptions {
        beam_size: 1,
        beam_size_token: 10,
        beam_threshold: i64::MAX,
        lm_weight: 0,
    };
    let mut decoder = BeamSearchDecoder::new(options, ZeroLM);
    let steps = 3;
    let tokens = 4;
    let data: Vec<i64> = [
        1.0, 0.0, 0.0, 0.0, //
        1.0, 0.0, 0.0, 0.0, //
        0.0, 2.0, 0.0, 0.0,
    ]
    .iter()
    .map(|&x| fx(x))
    .collect();
    let outputs = decoder.decode(&data, steps, tokens, 3);
    assert_eq!(outputs.len(), 1);
    assert_eq!(
        outputs[0],
        DecoderOutput {
            score: fx(4.0),
            tokens: vec![0, 1],
            timesteps: vec![0, 2],
            am_scores: vec![fx(1.0), fx(2.0)],
            lm_scores: vec![0, 0],
        }
    )
}

#[test]
fn greedy_decodes_argmax_sequence() {
    let mut decoder = GreedyDecoder;
    // rows: argmax 0, 0, blank, 1 -> collapsed [0, 1] at steps 0 and 3
    let data: Vec<i64> = [
        1.0, 0.2, 0.0, //
        0.9, 0.3, 0.1, //
        0.0, 0.1, 2.0, //
        0.1, 1.5, 0.0,
    ]
    .iter()
    .map(|&x| fx(x))
    .collect();
    let outputs = decoder.decode(&data, 4, 3, 2);
    assert_eq!(outputs.len(), 1);
    assert_eq!(outputs[0].tokens, vec![0, 1]);
    assert_eq!(outputs[0].timesteps, vec![0, 3]);
    assert_eq!(outputs[0].am_scores, vec![fx(1.0), fx(1.5)]);
    assert_eq!(outputs[0].score, fx(2.5));
    assert_eq!(outputs[0].lm_scores, vec![0, 0]);
}

#[test]
fn repeats_across_blank_stay_and_reduce() {
    // path 0, blank, 0 collapses to [0, 0]: the blank separates the repeats
    let mut decoder = GreedyDecoder;
    let data: Vec<i64> = [
        1.0, 0.0, //
        0.0, 1.0, //
        1.0, 0.0,
    ]
    .iter()
    .map(|&x| fx(x))
    .collect();
    let outputs = decoder.decode(&data, 3, 2, 1);
    assert_eq!(outputs[0].tokens, vec![0, 0]);
    // a second collapse merges the now-adjacent repeats
    assert_eq!(outputs[0].reduced_tokens(1), vec![0]);
}

/// Prefix merging sums path probabilities: with two tokens {a, blank} and
/// p(blank) = 0.6, p(a) = 0.4 at both steps, the single path of the empty
/// output has probability 0.36 while the three paths collapsing to "a" sum
/// to 0.64, so a wide beam must rank "a" first even though the greedy
/// (beam 1) answer is the empty output.
#[test]
fn prefix_merge_flips_the_best_hypothesis() {
    let la = 0.4f64.ln();
    let lb = 0.6f64.ln();
    let data: Vec<i64> = [la, lb, la, lb].iter().map(|&x| fx(x)).collect();

    let mut narrow = BeamSearchDecoder::new(
        BeamSearchDecoderOptions {
            beam_size: 1,
            ..default_options()
        },
        ZeroLM,
    );
    let narrow_out = narrow.decode(&data, 2, 2, 1);
    assert_eq!(narrow_out[0].tokens, Vec::<i32>::new());

    let mut wide = BeamSearchDecoder::new(
        BeamSearchDecoderOptions {
            beam_size: 200,
            ..default_options()
        },
        ZeroLM,
    );
    let wide_out = wide.decode(&data, 2, 2, 1);
    assert_eq!(wide_out[0].tokens, vec![0]);
    // exactly one merged hypothesis for "a", not several copies
    assert_eq!(
        wide_out.iter().filter(|o| o.tokens == vec![0]).count(),
        1
    );
    // its score is the log-sum-exp of the three path scores: ln 0.64
    let expected = fx(0.64f64.ln());
    assert!((wide_out[0].score - expected).abs() <= 4);
    // and the empty hypothesis keeps its single-path score: ln 0.36
    let empty = wide_out.iter().find(|o| o.tokens.is_empty()).unwrap();
    let expected_empty = fx(0.36f64.ln());
    assert!((empty.score - expected_empty).abs() <= 4);
}

#[test]
fn threshold_prunes_candidates_far_below_the_best() {
    let data: Vec<i64> = vec![fx(1.0), fx(0.5), fx(0.0)];
    let mut decoder = BeamSearchDecoder::new(
        BeamSearchDecoderOptions {
            beam_threshold: fx(0.1),
            ..default_options()
        },
        ZeroLM,
    );
    let outputs = decoder.decode(&data, 1, 3, 2);
    // the 0.5-scored candidate lies more than 0.1 below the best and is gone
    assert_eq!(outputs.len(), 1);
    assert_eq!(outputs[0].tokens, vec![0]);
}

/// A language model that forbids one token from its start state.
struct GateLM {
    gated: i32,
}

impl LM for GateLM {
    type State = u32;

    // the ghost model functions of the LM trait survive compilation as
    // ordinary required items; this unverified stub gives them placeholder
    // bodies, which nothing ever calls
    fn start_spec() -> u32 {
        0
    }
    fn score_spec(_state: u32, _token: i32) -> i64 {
        0
    }
    fn next_spec(state: u32, _token: i32) -> u32 {
        state
    }
    fn finish_spec(_state: u32) -> i64 {
        0
    }

    fn start(&mut self) -> u32 {
        0
    }

    fn score(&mut self, state: &u32, token: i32) -> i64 {
        if *state == 0 && token == self.gated {
            -fx(1000.0)
        } else {
            0
        }
    }

    fn next_state(&mut self, state: &u32, _token: i32) -> u32 {
        state + 1
    }

    fn finish(&mut self, _state: &u32) -> i64 {
        0
    }
}

#[test]
fn lm_gate_blocks_the_acoustic_argmax() {
    // greedy argmax of the row is token 1, but the LM forbids it first
    let data: Vec<i64> = vec![fx(0.4), fx(1.0), fx(0.0)];
    let mut decoder = BeamSearchDecoder::new(
        BeamSearchDecoderOptions {
            lm_weight: FIXED_ONE,
            ..default_options()
        },
        GateLM { gated: 1 },
    );
    let outputs = decoder.decode(&data, 1, 3, 2);
    assert!(!outputs.is_empty());
    assert_eq!(outputs[0].tokens, vec![0]);
}

/// A language model whose only contribution is a constant sentence-end cost.
struct FinishLM {
    cost: i64,
}

impl LM for FinishLM {
    type State = ();

    // placeholder bodies for the compiled-away ghost model functions
    fn start_spec() {}
    fn score_spec(_state: (), _token: i32) -> i64 {
        0
    }
    fn next_spec(_state: (), _token: i32) {}
    fn finish_spec(_state: ()) -> i64 {
        0
    }

    fn start(&mut self) {}

    fn score(&mut self, _state: &(), _token: i32) -> i64 {
        0
    }

    fn next_state(&mut self, _state: &(), _token: i32) {}

    fn finish(&mut self, _state: &()) -> i64 {
        -self.cost
    }
}

#[test]
fn finish_cost_shifts_every_score_by_the_weighted_amount() {
    let data: Vec<i64> = [
        1.0, 0.2, 0.0, //
        0.1, 0.8, 0.3,
    ]
    .iter()
    .map(|&x| fx(x))
    .collect();
    let k = fx(2.0);

    let mut unweighted = BeamSearchDecoder::new(
        BeamSearchDecoderOptions {
            lm_weight: 0,
            ..default_options()
        },
        FinishLM { cost: k },
    );
    let out0 = unweighted.decode(&data, 2, 3, 2);

    let mut weighted = BeamSearchDecoder::new(
        BeamSearchDecoderOptions {
            lm_weight: FIXED_ONE,
            ..default_options()
        },
        FinishLM { cost: k },
    );
    let out1 = weighted.decode(&data, 2, 3, 2);

    assert_eq!(out0.len(), out1.len());
    for (a, b) in out0.iter().zip(out1.iter()) {
        assert_eq!(a.tokens, b.tokens);
        assert_eq!(a.timesteps, b.timesteps);
        assert_eq!(b.score, a.score - k);
    }
}

/// A deterministic language model with arbitrary nonzero scores.
struct NoisyLM;

impl LM for NoisyLM {
    type State = u32;

    // placeholder bodies for the compiled-away ghost model functions
    fn start_spec() -> u32 {
        0
    }
    fn score_spec(_state: u32, _token: i32) -> i64 {
        0
    }
    fn next_spec(state: u32, _token: i32) -> u32 {
        state
    }
    fn finish_spec(_state: u32) -> i64 {
        0
    }

    fn start(&mut self) -> u32 {
        7
    }

    fn score(&mut self, state: &u32, token: i32) -> i64 {
        (*state as i64 * 31 + token as i64 * 17) % 4096 - 2048
    }

    fn next_state(&mut self, state: &u32, token: i32) -> u32 {
        state.wrapping_mul(31).wrapping_add(token as u32)
    }

    fn finish(&mut self, state: &u32) -> i64 {
        -((*state % 1024) as i64)
    }
}

fn sample_data() -> (Vec<i64>, usize, usize, i32) {
    let rows = [
        [0.9, 0.1, 0.3, 0.0],
        [0.2, 1.1, 0.4, 0.3],
        [0.1, 0.2, 0.3, 1.4],
        [1.3, 0.1, 0.2, 0.5],
        [0.4, 0.3, 1.2, 0.1],
    ];
    let mut data = Vec::new();
    for row in rows.iter() {
        for &x in row.iter() {
            data.push(fx(x));
        }
    }
    (data, 5, 4, 3)
}

#[test]
fn zero_weight_makes_any_lm_equal_to_the_null_lm() {
    let (data, steps, vocab, blank) = sample_data();
    let mut with_noise = BeamSearchDecoder::new(default_options(), NoisyLM);
    let noisy = with_noise.decode(&data, steps, vocab, blank);
    let mut with_null = BeamSearchDecoder::new(default_options(), ZeroLM);
    let null = with_null.decode(&data, steps, vocab, blank);
    assert_eq!(noisy.len(), null.len());
    for (a, b) in noisy.iter().zip(null.iter()) {
        assert_eq!(a.tokens, b.tokens);
        assert_eq!(a.timesteps, b.timesteps);
        assert_eq!(a.score, b.score);
        assert_eq!(a.am_scores, b.am_scores);
    }
}

#[test]
fn greedy_matches_beam_of_one_without_lm() {
    let (data, steps, vocab, blank) = sample_data();
    let mut greedy = GreedyDecoder;
    let g = greedy.decode(&data, steps, vocab, blank);
    let mut beam = BeamSearchDecoder::new(
        BeamSearchDecoderOptions {
            beam_size: 1,
            ..default_options()
        },
        ZeroLM,
    );
    let b = beam.decode(&data, steps, vocab, blank);
    assert_eq!(g[0].tokens, b[0].tokens);
    assert_eq!(g[0].timesteps, b[0].timesteps);
}

#[test]
fn shifting_all_rows_shifts_scores_and_keeps_tokens() {
    let (data, steps, vocab, blank) = sample_data();
    let c = fx(0.25);
    let shifted: Vec<i64> = data.iter().map(|&x| x + c).collect();
    let mut d1 = BeamSearchDecoder::new(default_options(), ZeroLM);
    let out1 = d1.decode(&data, steps, vocab, blank);
    let mut d2 = BeamSearchDecoder::new(default_options(), ZeroLM);
    let out2 = d2.decode(&shifted, steps, vocab, blank);
    assert_eq!(out1.len(), out2.len());
    for (a, b) in out1.iter().zip(out2.iter()) {
        assert_eq!(a.tokens, b.tokens);
        assert_eq!(a.timesteps, b.timesteps);
        assert_eq!(b.score, a.score + steps as i64 * c);
    }
}

#[test]
fn identical_inputs_give_identical_outputs() {
    let (data, steps, vocab, blank) = sample_data();
    let mut decoder = BeamSearchDecoder::new(default_options(), NoisyLM);
    let first = decoder.decode(&data, steps, vocab, blank);
    let second = decoder.decode(&data, steps, vocab, blank);
    assert_eq!(first, second);
}

#[test]
fn outputs_respect_beam_size_and_are_sorted_and_aligned() {
    let (data, steps, vocab, blank) = sample_data();
    let mut decoder = BeamSearchDecoder::new(
        BeamSearchDecoderOptions {
            beam_size: 2,
            ..default_options()
        },
        ZeroLM,
    );
    let outputs = decoder.decode(&data, steps, vocab, blank);
    assert!(outputs.len() <= 2);
    assert!(!outputs.is_empty());
    for w in outputs.windows(2) {
        assert!(w[0].score >= w[1].score);
    }
    for o in outputs.iter() {
        assert_eq!(o.tokens.len(), o.timesteps.len());
        assert_eq!(o.tokens.len(), o.am_scores.len());
        assert_eq!(o.tokens.len(), o.lm_scores.len());
        for &t in o.tokens.iter() {
            assert_ne!(t, blank);
            assert!(0 <= t && (t as usize) < vocab);
        }
        for w in o.timesteps.windows(2) {
            assert!(w[0] < w[1]);
        }
        for &s in o.timesteps.iter() {
            assert!(s < steps);
        }
    }
}

#[test]
fn shortlist_still_finds_a_high_token_with_a_small_token_beam() {
    // five tokens, the best one last; a shortlist of two must still find it
    let data: Vec<i64> = vec![fx(0.1), fx(0.2), fx(0.3), fx(2.0), fx(0.0)];
    let mut decoder = BeamSearchDecoder::new(
        BeamSearchDecoderOptions {
            beam_size_token: 2,
            ..default_options()
        },
        ZeroLM,
    );
    let outputs = decoder.decode(&data, 1, 5, 4);
    assert_eq!(outputs[0].tokens, vec![3]);
}

#[test]
fn malformed_shapes_are_rejected() {
    assert_eq!(validate_decode_shape(12, 3, 4, 3), Ok(()));
    // wrong buffer length
    assert_eq!(
        validate_decode_shape(11, 3, 4, 3),
        Err(DecodeError::InvalidShape)
    );
    // blank outside the alphabet
    assert_eq!(
        validate_decode_shape(12, 3, 4, 4),
        Err(DecodeError::InvalidShape)
    );
    assert_eq!(
        validate_decode_shape(12, 3, 4, -1),
        Err(DecodeError::InvalidShape)
    );
    // empty alphabet
    assert_eq!(
        validate_decode_shape(0, 3, 0, 0),
        Err(DecodeError::InvalidShape)
    );
}

#[test]
fn zero_steps_give_one_empty_hypothesis() {
    let data: Vec<i64> = Vec::new();
    let mut decoder = BeamSearchDecoder::new(default_options(), ZeroLM);
    let outputs = decoder.decode(&data, 0, 3, 2);
    assert_eq!(outputs.len(), 1);
    assert_eq!(outputs[0].tokens, Vec::<i32>::new());
    assert_eq!(outputs[0].score, 0);
}

#[test]
fn a_nonpositive_threshold_prunes_everything() {
    let data: Vec<i64> = vec![fx(1.0), fx(0.5), fx(0.0)];
    let mut decoder = BeamSearchDecoder::new(
        BeamSearchDecoderOptions {
            beam_threshold: 0,
            ..default_options()
        },
        ZeroLM,
    );
    let outputs = decoder.decode(&data, 1, 3, 2);
    assert!(outputs.is_empty());
}

#[test]
fn a_zero_beam_keeps_nothing() {
    let data: Vec<i64> = vec![fx(1.0), fx(0.5), fx(0.0)];
    let mut decoder = BeamSearchDecoder::new(
        BeamSearchDecoderOptions {
            beam_size: 0,
            ..default_options()
        },
        ZeroLM,
    );
    let outputs = decoder.decode(&data, 1, 3, 2);
    assert!(outputs.is_empty());
}

// The two sequence tests below follow the shape of decoding a known
// utterance against a letter vocabulary and comparing the joined reduced
// tokens with an expected string. The emission matrix is inlined: per step
// one strong token (listed in `peaks`) stands out of a quiet background.
// Over the blank and repeat structure below, the greedy path and the wide
// beam agree on the collapsed reading "ab|ba".
fn sequence_fixture() -> (Vec<i64>, usize, usize, i32, Vec<String>) {
    let vocab: Vec<String> = ["a", "b", "|", "_"].iter().map(|s| s.to_string()).collect();
    let n_vocab = vocab.len();
    let blank = (n_vocab - 1) as i32;
    // step-wise dominant tokens: a a _ b b | _ b _ a a
    let peaks: [usize; 11] = [0, 0, 3, 1, 1, 2, 3, 1, 3, 0, 0];
    let steps = peaks.len();
    let mut data: Vec<i64> = Vec::new();
    for (t, &p) in peaks.iter().enumerate() {
        for v in 0..n_vocab {
            // quiet background with a per-cell wobble, one clear peak
            let wobble = ((t * 7 + v * 3) % 5) as f64 * 0.01;
            let x = if v == p { 2.0 + wobble } else { 0.1 + wobble };
            data.push(fx(x));
        }
    }
    (data, steps, n_vocab, blank, vocab)
}

fn join_reduced(output: &DecoderOutput, blank: i32, vocab: &[String]) -> String {
    output
        .reduced_tokens(blank)
        .into_iter()
        .map(|i| vocab[i as usize].as_str())
        .collect::<Vec<&str>>()
        .join("")
}

#[test]
fn greedy_decoder_decodes_sequence_greedy() {
    let (data, steps, n_vocab, blank, vocab) = sequence_fixture();
    let mut decoder = GreedyDecoder;
    let outputs = decoder.decode(&data, steps, n_vocab, blank);
    let text = join_reduced(&outputs[0], blank, &vocab);
    assert_eq!(text, "ab|ba");
}

#[test]
fn beam_search_decoder_decodes_sequence() {
    let (data, steps, n_vocab, blank, vocab) = sequence_fixture();
    let mut decoder = BeamSearchDecoder::new(
        BeamSearchDecoderOptions {
            beam_size: 100,
            beam_size_token: 2000000,
            beam_threshold: i64::MAX,
            lm_weight: 0,
        },
        ZeroLM,
    );
    let outputs = decoder.decode(&data, steps, n_vocab, blank);
    let text = join_reduced(&outputs[0], blank, &vocab);
    assert_eq!(text, "ab|ba");
}
