use sim_core::air::AltitudeRef;
use sim_core::air_defence::{one_channel, yes};
use sim_core::c2::default_elements;
use sim_core::events::FireTarget;
use sim_core::scenario::{
    default_belief_cells, default_max_batteries_per_air_target, default_max_shooters_per_target,
    default_self_cue, default_sensor_tasking,
};
use sim_core::sensing::{default_element_count, modality_key, Modality};
use sim_core::state::Side;
use sim_core::terrain::{default_urban_blocks, TerrainType};

#[test]
fn the_optical_modality_reads_the_optical_key() {
    assert_eq!(modality_key(Modality::Optical), "optical");
}

#[test]
fn only_a_unit_target_has_a_unit_index() {
    assert_eq!(FireTarget::Unit(4).unit(), Some(4));
    assert_eq!(FireTarget::AirDefence(4).unit(), None);
    assert_eq!(FireTarget::C2(0).unit(), None);
}

#[test]
fn fire_targets_sort_by_list_then_index() {
    let mut v = vec![FireTarget::C2(0), FireTarget::Unit(3), FireTarget::AirDefence(1), FireTarget::Unit(1)];
    v.sort();
    assert_eq!(
        v,
        vec![FireTarget::Unit(1), FireTarget::Unit(3), FireTarget::AirDefence(1), FireTarget::C2(0)]
    );
}

#[test]
fn sides_index_blue_first() {
    assert_eq!(Side::Blue.index(), 0);
    assert_eq!(Side::Red.index(), 1);
}

#[test]
fn schema_defaults() {
    assert_eq!(default_max_shooters_per_target(), 3);
    assert_eq!(default_max_batteries_per_air_target(), 2);
    assert!(!default_sensor_tasking());
    assert_eq!(default_belief_cells(), 48);
    assert!(default_self_cue());
    assert!(yes());
    assert_eq!(one_channel(), 1);
    assert_eq!(default_elements(), 1);
    assert_eq!(default_element_count(), 1);
    assert_eq!(default_urban_blocks(), 3);
    assert_eq!(AltitudeRef::default(), AltitudeRef::Agl);
    assert_eq!(TerrainType::default(), TerrainType::Open);
}
