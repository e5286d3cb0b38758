# gameserver battle state

The bookkeeping of a turn-based battle: buffs and their uids, ex points
and hp, passive and battle-rule effects, waves and battle end, and the
per-hero resources (Bloodtithe, Empathy, Shadow Cloak, channelling,
cloth power), and the reshaping of the steps a round emits. The library
is verified with Verus: its functions carry contracts stated over
mathematical views of their data (a few unit-struct constructors have
nothing to state).

## Layout

- `src/config.rs`: the data tables the managers read (`BattleConfig`).
- `src/fight.rs`: the battle snapshot (`Fight`) and its walking order.
- `src/text.rs`: the field grammar of the tables (split, trim, integers).
- `src/table.rs`: lookups and integer helpers shared by the contracts.
- `src/buff_uid.rs`, `src/buff_mgr.rs`: buff uid lanes and buff instances.
- `src/ex_point_mgr.rs`, `src/entity_mgr.rs`: ex points and hp per entity.
- `src/passive_mgr.rs`, `src/rules.rs`: parsed passives and battle rules.
- `src/round_mgr.rs`, `src/wave_mgr.rs`: battle end, waves, entry max hp.
- `src/bloodtithe.rs`, `src/empathy.rs`, `src/shadowcloak.rs`,
  `src/channel.rs`, `src/sentinel.rs`, `src/cloth_mgr.rs`, `src/dot.rs`,
  `src/advanced_cure.rs`, `src/magic_circle.rs`, `src/phase_change.rs`,
  `src/mechanics.rs`: the per-mechanic state.
- `src/step.rs`: the steps and effects a round emits, with their values.
- `src/step_shape.rs`, `src/bundle_fold.rs`, `src/nautika_psychube_bundle.rs`,
  `src/passive_phase.rs`, `src/round_end_bundling.rs`: shaping a passive
  phase's output, folding loose steps into hero bundles, the Nautika
  carrier bundle, the round sweeps of a passive phase, and which heroes a
  step involves.
- `tests/`: tests on concrete battles.

Laws that span several calls are public proof functions named `law_*`.
