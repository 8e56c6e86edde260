use sim_core::suppression::Suppression;

#[test]
fn the_chain_steps_and_saturates() {
    assert_eq!(Suppression::Free.step_up(), Suppression::Suppressed);
    assert_eq!(Suppression::Suppressed.step_up(), Suppression::Pinned);
    assert_eq!(Suppression::Pinned.step_up(), Suppression::Pinned);
    assert_eq!(Suppression::Pinned.step_down(), Suppression::Suppressed);
    assert_eq!(Suppression::Suppressed.step_down(), Suppression::Free);
    assert_eq!(Suppression::Free.step_down(), Suppression::Free);
    assert_eq!(Suppression::default(), Suppression::Free);
}

#[test]
fn only_a_pinned_unit_cannot_move() {
    assert!(Suppression::Free.can_move());
    assert!(Suppression::Suppressed.can_move());
    assert!(!Suppression::Pinned.can_move());
}

#[test]
fn two_near_misses_pin_and_a_step_down_undoes_a_step_up() {
    for s in [Suppression::Free, Suppression::Suppressed, Suppression::Pinned] {
        assert_eq!(s.step_up().step_up(), Suppression::Pinned);
        assert_eq!(s.step_down().step_down(), Suppression::Free);
        if s != Suppression::Pinned {
            assert_eq!(s.step_up().step_down(), s);
        }
        if s != Suppression::Free {
            assert_eq!(s.step_down().step_up(), s);
        }
    }
}
