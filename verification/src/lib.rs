//! A bit-packed chess position engine: bitboard attack generation with
//! magic-number hashing for sliding pieces, a legal-move generator enforcing
//! the full rules of chess (checks, pins, castling, en passant, promotion),
//! and an adversarial alpha-beta search over cloned positions.

pub mod attacks;
pub mod bits;
pub mod board;
pub mod eval;
pub mod fen;
pub mod magic;
pub mod pieces;
pub mod position;
pub mod rules;
pub mod search;
