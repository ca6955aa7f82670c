//! The 32-bit Mersenne Twister (MT19937) pseudorandom number generator:
//! seeding from a word or a key, drawing words and bytes, recovering a
//! generator from its outputs, and the mathematical model that these are
//! specified against.

pub mod le_bytes;
pub mod model;
pub mod mt19937;
pub mod ordering;
pub mod seeding;
pub mod tempering;
