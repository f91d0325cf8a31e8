//! A verified rules engine for a Reversi variant: ray scanning, sandwich
//! captures, turn sequencing with forfeits, and winner evaluation on a
//! square board of configurable even side length.

pub mod laws;
mod lemmas;
mod mainstate;
mod piece;
pub mod rules;

pub use piece::GameError;
pub use piece::Piece;
pub use piece::Winner;

pub use laws::lemma_captures_on_rays;
pub use laws::lemma_full_board_no_moves;
pub use laws::lemma_ray_membership_unique;
pub use laws::lemma_reset_idempotent;
pub use mainstate::MainState;
pub use rules::GameView;
