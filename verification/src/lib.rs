//! Descriptive statistics over numeric sequences.
//!
//! The centre of the library is the mode classifier ([`mode`]): it tallies
//! how often each value occurs, keyed by the value's canonical decimal
//! rendering, discards values that occur only once, and reports the rest,
//! in ascending numeric order, as one of five shapes ([`Mode`]) depending
//! on how many there are.  Its contract ([`is_mode_of`]) pins down exactly which
//! values are reported, in which order, and in which shape, and
//! [`lemma_mode_shape`] states the shape–count law.
//!
//! The values worked on are [`Number`]s: they render to a canonical
//! decimal key and parse back from it, and every implementation proves
//! that the round trip is lossless.
//!
//! The positional selection behind the median is verified as well
//! ([`median_pick`]).  The floating-point formulas — mean, variance,
//! standard deviation, and the averaging step of the median — lie outside
//! the verified surface, since the verifier does not model floating-point
//! arithmetic; callers build them on top of the verified selection
//! ([`median_pick`]) and classification ([`repeated_keys_sorted`]).

mod count;
mod decimal;
mod key_order;
mod median;
mod mode;
mod number;

pub use count::count_of;
pub use decimal::{
    canonical_digits, dec_digits, dec_to_i32, dec_to_u32, digits_val, i32_to_dec, int_key, int_val,
    u32_to_dec,
};
pub use key_order::{key_le, key_lt};
pub use median::median_pick;
pub use mode::{
    has_key, is_mode_of, key_views, lemma_mode_shape, lemma_mode_unique, lemma_mode_values, mode,
    mode_len, mode_values, repeated_keys_sorted, repeated_values, values_sorted, Mode,
};
pub use number::{lemma_key_injective, Number};
