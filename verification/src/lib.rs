//! ⊤OPP⊥E: two players adversarially build a valuation, one atom per turn,
//! and the only physics the board obeys are the boolean laws.
//!
//! Everything here is deterministic, so that a seed deals the same gauntlet
//! on every platform: the rules and the rewrite cascade, the perfect-play
//! solver, the seeded generator and puzzle book, the online match record,
//! the save blob, and the software framebuffer the front ends draw into.

pub mod app;
pub mod calendar;
pub mod fb;
pub mod formula;
pub mod game;
pub mod gen;
pub mod input;
pub mod laws;
pub mod online;
pub mod puzzles;
pub mod rng;
pub mod round;
pub mod save;
pub mod solve;
pub mod theme;
pub mod worked;

pub use app::App;
pub use fb::{Frame, HEIGHT, WIDTH};
pub use formula::{atom_name, glyph_count, pretty, span_of, tokens, Atom, Op, Path, Token, F};
pub use game::{apply_move, legal_moves, winner, Move, Side};
pub use gen::{
    deal, gauntlet, gauntlet_seed, parse_share_code, price, share_code, Deal, DealKind, GenParams,
    GAUNTLET_SIZE,
};
pub use input::Button;
pub use laws::{cascade, step, Law, Step};
pub use puzzles::{builtin_puzzles, find_puzzle, is_sound, Puzzle};
pub use rng::{hash_str, Rng};
pub use solve::{solve_both_orders, Eval, Solver};
