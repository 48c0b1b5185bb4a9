//! Pitch estimation for a monophonic signal: note names, the
//! autocorrelation search for the period of a sample window, and the
//! matching of a detected period against a table of tuning targets.

pub mod correlate;
pub mod error;
pub mod matcher;
pub mod note;
pub mod tuner;

pub use correlate::{autocorrelate, error_squared, window_error, Phase, Sample};
pub use error::TunerError;
pub use matcher::{closest, difference, insertion_point, sort, sort_unique, Scalar};
pub use note::{
    parse_alteration, parse_note, parse_octave, parse_pitch, parse_pitches, pprint_pitch, Pitch,
};
pub use tuner::{default_config, Config, Detection, PhaseTable};
