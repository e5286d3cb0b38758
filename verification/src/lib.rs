pub mod buff_uid;
pub mod manager;
pub mod table;
pub mod ex_point_mgr;
pub mod fight;
pub mod config;
pub mod entity_mgr;
pub mod text;
pub mod buff_mgr;
pub mod heroes;
pub mod bloodtithe;
pub mod empathy;
pub mod shadowcloak;
pub mod round_mgr;
pub mod active_effect_mgr;
pub mod passive_mgr;
pub mod wave_mgr;
pub mod cloth_mgr;
pub mod fight_data_mgr;
pub mod passive_phase;
pub mod phase_change;
pub mod channel;
pub mod sentinel;
pub mod round_end_bundling;
pub mod dot;
pub mod magic_circle;
pub mod mechanics;
pub mod advanced_cure;
pub mod rules;
pub mod step;
pub mod nautika_psychube_bundle;
pub mod bundle_fold;
pub mod step_shape;
