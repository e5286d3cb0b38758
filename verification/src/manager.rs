//! The lifecycle hooks every battle manager answers.
use vstd::prelude::*;
use crate::config::BattleConfig;

verus! {

/// Round and battle lifecycle hooks, the round end reading the battle's
/// data tables. Each defaults to doing nothing.
pub trait Manager {
    fn on_round_start(&mut self) {
    }

    fn on_round_end(&mut self, _cfg: &BattleConfig) {
    }

    fn on_battle_end(&mut self) {
    }
}

} // verus!
