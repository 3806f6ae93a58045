//! A battle-royale matchmaking core: a lobby collects joiners during a fixed
//! window, the roster is padded with generated filler characters, a
//! last-one-standing simulation assigns a dense ranking, and every joiner is
//! handed exactly one result.

pub mod battle;
pub mod character;
pub mod client;
pub mod lobby;
pub mod rng;

pub use battle::{run_battle, two_mut};
pub use character::{BattleResult, Character};
pub use client::AppState;
pub use lobby::{detach_lobby, finalize_match, join_lobby, JoinDecision, Lobby, Registry};
pub use rng::Lcg;
