//! Decoder for an absolute contact encoder of the ACE-128 kind: eight
//! digital inputs, 128 positions.
pub mod decoder;
pub mod table;

pub use decoder::{convert_pin_states, decode, Ace128, PinSampler, Step};
pub use table::{lookup, ACE128_MAP, NO_POSITION};
