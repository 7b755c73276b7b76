pub mod decimal;
pub mod parse;
pub mod render;
pub mod laws;

pub use decimal::{Decimal, DecimalParseError, MAX_PRECISION, MAX_SCALE, MIN_SCALE};
pub use parse::{
    eat_digits, eat_whitespaces, extract_exponent, extract_nan, extract_sign, from_str,
    parse_decimal, parse_str, Parts, Sign,
};
