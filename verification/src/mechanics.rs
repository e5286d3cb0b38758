//! The per-battle mechanic states that live beside the managers.
use vstd::prelude::*;
use crate::bloodtithe::{BloodtitheState, BloodtitheView};
use crate::channel::{ChannelState, team_triggers};
use crate::config::BattleConfig;
use crate::fight::{Fight, attacker_fielded, opt_or};
use crate::shadowcloak::{
    CAP_PERMILLE, SeededRaspberryMax, ShadowCloakState, ShadowCloakView, mul_fits, per_mille, rubuska_found,
};
use crate::table::{get_or_i32, tdiv};

verus! {

/// Bloodtithe, channel monitoring and Shadow Cloak state of one battle.
#[derive(Debug)]
pub struct Mechanics {
    pub bloodtithe: BloodtitheState,
    pub channel: ChannelState,
    pub shadow_cloak: ShadowCloakState,
}

impl Mechanics {
    /// Every mechanic in its starting state.
    pub fn new() -> (r: Self)
        ensures
            r.bloodtithe@ == (BloodtitheView {
                value: Map::empty(),
                max: Map::empty(),
                accumulator: Map::empty(),
                initialized: false,
                moxie_tracker: Map::empty(),
                gain: 0,
            }),
            r.channel.monitor_triggers@ == Seq::<(i64, i32)>::empty(),
            r.shadow_cloak@ == (ShadowCloakView {
                total_shared: 0,
                last_gain_shared: 0,
                rubuska_entry_max_hp: 0,
                rubuska_uid: 0,
                raspberry_accum: 0,
                raspberry_max: 0,
            }),
    {
        Mechanics { bloodtithe: BloodtitheState::new(), channel: ChannelState::new(), shadow_cloak: ShadowCloakState::new() }
    }

    /// Gathers the channel monitors and finds Rubuska for the battle.
    pub fn init(&mut self, fight: &Fight, cfg: &BattleConfig, seeded: &SeededRaspberryMax)
        requires
            ({
                let s = get_or_i32(seeded@, opt_or(fight.battle_id, 0), 0);
                let h = rubuska_found(
                    attacker_fielded(*fight),
                    old(self).shadow_cloak@.rubuska_uid,
                    old(self).shadow_cloak@.rubuska_entry_max_hp,
                ).1;
                if s > 0 { mul_fits(s, 1000) } else { mul_fits(h, CAP_PERMILLE) }
            }),
        ensures
            final(self).bloodtithe@ == old(self).bloodtithe@,
            final(self).channel.monitor_triggers@ == old(self).channel.monitor_triggers@ + team_triggers(
                *cfg,
                attacker_fielded(*fight),
            ),
            ({
                let s = get_or_i32(seeded@, opt_or(fight.battle_id, 0), 0);
                let (u, h) = rubuska_found(
                    attacker_fielded(*fight),
                    old(self).shadow_cloak@.rubuska_uid,
                    old(self).shadow_cloak@.rubuska_entry_max_hp,
                );
                final(self).shadow_cloak@ == if s > 0 {
                    ShadowCloakView {
                        rubuska_uid: u,
                        raspberry_max: s,
                        rubuska_entry_max_hp: tdiv(s * 1000, CAP_PERMILLE as int) as i32,
                        ..old(self).shadow_cloak@
                    }
                } else {
                    ShadowCloakView {
                        rubuska_uid: u,
                        rubuska_entry_max_hp: h,
                        raspberry_max: per_mille(h, CAP_PERMILLE) as i32,
                        ..old(self).shadow_cloak@
                    }
                }
            }),
    {
        self.channel.init(fight, cfg);
        self.shadow_cloak.init(fight, seeded);
    }
}

} // verus!
