//! A CTC (Connectionist Temporal Classification) decoder library.
//!
//! Given a per-timestep emission matrix in log-space, the decoders recover the
//! most likely collapsed token sequences: a greedy argmax baseline and a
//! prefix beam search with language-model fusion, pruning and prefix merging.
//!
//! Scores are fixed-point: an `i64` counts units of `2^-20`, so that the
//! decoder's arithmetic is exact and verified; only the transcendental step of
//! log-sum-exp merging is delegated to `libm`.

pub mod decoder;
pub mod dict;
pub mod lm;
pub mod score;

pub use dict::Dict;
pub use dict::DictError;

pub use decoder::BeamSearchDecoder;
pub use decoder::BeamSearchDecoderOptions;
pub use decoder::DecodeError;
pub use decoder::Decoder;
pub use decoder::DecoderOutput;
pub use decoder::GreedyDecoder;
pub use decoder::validate_decode_shape;
pub use lm::LM;
pub use lm::SequenceState;
pub use lm::SequenceStateRef;
pub use lm::ZeroLM;
pub use score::FIXED_ONE;
pub use score::SCORE_CAP;
