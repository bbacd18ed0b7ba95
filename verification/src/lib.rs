//! A circular dial with 100 positions (0 through 99), rotated left or right
//! by a sequence of turn instructions, counting how often the dial passes
//! through or lands on position 0.

pub mod parse;
pub mod sim;
pub mod turn;
