//! Rules core of a chess position engine.
//!
//! A `Position` holds a 64-square placement, the side to move, castling
//! rights, an en-passant target and move counters, together with write-once
//! derived fields: the legal move list and the check, checkmate and stalemate
//! flags.  The library enumerates pseudo-legal moves from pure movement
//! geometry, detects attacks on a square by probing with each piece kind from
//! that square (movement here is reversible), filters candidate moves by
//! simulating them and rejecting any that leave the mover's own king
//! attacked, and classifies terminal positions.  Every function carries a
//! contract proved by Verus; the notation layer (board text decoding, move
//! text rendering) and any driver live outside this crate and exchange plain
//! `Position` and `Move` values with it.
//!
//! Castling rights and the en-passant target are carried through every
//! position unchanged but are not yet consumed by move generation, and pawn
//! promotion is not performed by the mutator: a pawn that reaches the last
//! rank stays a pawn (and then has no further moves).  The move counters
//! are likewise copied unchanged by the mutator.  These limits are part of
//! the contracts; nothing here silently assumes the standard behaviour.

pub mod board;
pub mod geometry;
pub mod movegen;
pub mod attack;
pub mod state;
pub mod notation;
pub mod laws;
