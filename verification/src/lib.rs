//! Modular-information algebra and the belief-synchronization protocol
//! built on top of it.
//!
//! Cooperating agents in a hidden-information card game can treat any
//! deterministic function of the public history as shared knowledge.  Each
//! agent folds a bounded number derived from its private hand into a single
//! combined residue; the move whose index equals that residue is played, and
//! every observer inverts the computation to recover the hidden contribution.
//!
//! * [`residue`] holds the residue algebra: composition, decomposition and
//!   range-expansion of integers known to lie in a bounded range.
//! * [`model`] holds the game-facing data: players, boards, hands and the
//!   publicly derivable per-slot possibility tables.
//! * [`question`] holds the bounded probes of a hand that drive the protocol.
//! * [`protocol`] holds the synchronization protocol itself.
//! * [`basic`] holds a small reference strategy implementing the protocol's
//!   capability interface.

pub mod basic;
pub mod model;
pub mod protocol;
pub mod question;
pub mod residue;
