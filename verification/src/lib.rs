mod parse;
mod reservoir;
mod rng;
mod sampler;
mod sorted;

pub use parse::all_digits;
pub use parse::csv_ok;
pub use parse::csv_values;
pub use parse::digits_part;
pub use parse::digits_val;
pub use parse::is_digit_byte;
pub use parse::is_i32_token;
pub use parse::is_negative_token;
pub use parse::is_ws_byte;
pub use parse::parse_csv_string;
pub use parse::parse_int_bytes;
pub use parse::parse_i32;
pub use parse::split_commas;
pub use parse::token_value;
pub use parse::trim_back;
pub use parse::trim_front;
pub use parse::trimmed;
pub use parse::ws_len_at_back;
pub use parse::ws_len_at_front;
pub use parse::ParseError;
pub use reservoir::ReservoirSampler;
pub use sampler::Sampler;
pub use sampler::indices_increasing;
pub use sampler::lemma_selection_is_submultiset;
pub use sampler::selected_from;
pub use sorted::SortedSampler;
