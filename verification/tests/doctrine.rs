use sim_core::doctrine::{
    check_doctrine, field_names, target_names, tier_groups, Doctrine, DoctrineError,
    DoctrineMode, Named, Order, OrderRole, TargetNames, Vocabulary, ALL,
};
use sim_core::events::FireTarget;
use sim_core::state::Side;

fn names<'a>(id: &'a str, role: Option<&'a str>, class: &'a str) -> TargetNames<'a> {
    TargetNames { id, role, class }
}

#[test]
fn a_name_may_be_an_id_a_role_or_a_class() {
    let sam = names("sam-1", Some("sam"), "air_defence");
    assert!(sam.matches("sam-1"), "by id");
    assert!(sam.matches("sam"), "by role");
    assert!(sam.matches("air_defence"), "by class");
    assert!(!sam.matches("ciws"));
    // A role must not mask the class.
    let plain = names("ad-2", None, "air_defence");
    assert!(plain.matches("air_defence"));
}

#[test]
fn the_first_matching_entry_decides_the_tier() {
    let doc = Doctrine {
        priority: vec!["sam-1".to_owned(), "air_defence".to_owned()],
        mode: DoctrineMode::Strict,
    };
    assert_eq!(doc.tier_of(&names("sam-1", Some("sam"), "air_defence")), 0);
    assert_eq!(doc.tier_of(&names("sam-2", Some("sam"), "air_defence")), 1);
    // Unlisted falls to the implicit bottom tier, not out of the problem.
    assert_eq!(doc.tier_of(&names("tank-1", None, "unit")), 2);
    assert_eq!(doc.tier_count(), 3);
}

#[test]
fn an_unmatched_priority_entry_is_reported_with_what_would_have_worked() {
    let mut vocab = Vocabulary::default();
    vocab.insert(&names("gun-1", Some("artillery"), "unit"));
    vocab.insert(&names("sam-1", None, "air_defence"));

    assert_eq!(vocab.first_unmatched(&["artillery".to_owned()]), None);
    assert_eq!(vocab.first_unmatched(&["air_defence".to_owned()]), None);
    assert_eq!(
        vocab.first_unmatched(&["artilery".to_owned()]),
        Some("artilery".to_owned()),
        "a typo must be caught, not become an empty tier"
    );
    assert!(vocab.known().contains("artillery"));
}

#[test]
fn all_matches_everything() {
    let t = names("tank-1", None, "unit");
    assert!(t.matches(ALL));
    assert!(t.matches("all"));
    assert!(!t.matches("All"));
}

#[test]
fn the_default_doctrine_is_one_undirected_tier() {
    let doc = Doctrine::default();
    assert_eq!(doc.priority, vec!["all".to_owned()]);
    assert_eq!(doc.mode, DoctrineMode::Strict);
    assert!(doc.is_undirected());
    assert_eq!(doc.tier_count(), 2);
    assert_eq!(doc.tier_of(&names("x", None, "c2")), 0);
    let directed = Doctrine {
        priority: vec!["c2".to_owned(), "all".to_owned()],
        mode: DoctrineMode::Strict,
    };
    assert!(!directed.is_undirected());
    assert_eq!(directed.tier_of(&names("x", None, "c2")), 0);
    assert_eq!(directed.tier_of(&names("y", None, "unit")), 1);
}

#[test]
fn known_lists_every_name_sorted_once() {
    let mut vocab = Vocabulary::default();
    vocab.insert(&names("sam-1", None, "air_defence"));
    vocab.insert(&names("gun-1", Some("artillery"), "unit"));
    vocab.insert(&names("gun-2", Some("artillery"), "unit"));
    assert_eq!(
        vocab.known(),
        "air_defence, all, artillery, gun-1, gun-2, sam-1, unit"
    );
    assert!(vocab.contains("gun-2"));
    assert!(!vocab.contains("gun-3"));
    assert_eq!(Vocabulary::default().known(), "");
}

#[test]
fn the_first_unmatched_entry_is_reported_not_a_later_one() {
    let mut vocab = Vocabulary::default();
    vocab.insert(&names("a", None, "unit"));
    let p = vec!["unit".to_owned(), "x".to_owned(), "y".to_owned()];
    assert_eq!(vocab.first_unmatched(&p), Some("x".to_owned()));
}

#[test]
fn tiers_group_in_priority_order() {
    // Targets in tiers 2, 0, 2, 1, 3 with tier_count 3: tier 3 is beyond the count.
    let g = tier_groups(&[2, 0, 2, 1, 3], 3);
    assert_eq!(g, vec![vec![1], vec![3], vec![0, 2]]);
    // Empty tiers are skipped.
    assert_eq!(tier_groups(&[4, 4, 0], 5), vec![vec![2], vec![0, 1]]);
    assert!(tier_groups(&[], 3).is_empty());
}

fn order(s: &str, t: &str) -> Order {
    Order { shooter: s.to_owned(), target: t.to_owned() }
}

#[test]
fn a_default_plan_needs_no_check() {
    let field = [names("tank-1", None, "unit")];
    let docs = [Doctrine::default(), Doctrine::default()];
    assert!(check_doctrine(&field, &docs, &[vec![], vec![]]).is_ok());
    // Even on an empty map.
    assert!(check_doctrine(&[], &docs, &[vec![], vec![]]).is_ok());
}

#[test]
fn a_doctrine_naming_nothing_is_refused_with_the_vocabulary() {
    let field = [names("gun-1", Some("artillery"), "unit"), names("sam-1", None, "air_defence")];
    let red = Doctrine { priority: vec!["artilery".to_owned()], mode: DoctrineMode::Strict };
    let docs = [Doctrine::default(), red];
    match check_doctrine(&field, &docs, &[vec![], vec![]]) {
        Err(DoctrineError::UnknownPriority { side, name, known }) => {
            assert_eq!(side, Side::Red);
            assert_eq!(name, "artilery");
            assert_eq!(known, "air_defence, all, artillery, gun-1, sam-1, unit");
        }
        other => panic!("expected an unknown priority, got {other:?}"),
    }
}

#[test]
fn an_order_naming_nothing_is_refused() {
    let field = [names("gun-1", None, "unit"), names("sam-1", None, "air_defence")];
    let docs = [Doctrine::default(), Doctrine::default()];
    let bad_target = [vec![order("gun-1", "sam-1"), order("gun-1", "sam-9")], vec![]];
    match check_doctrine(&field, &docs, &bad_target) {
        Err(DoctrineError::UnknownOrder { side, role, id }) => {
            assert_eq!(side, Side::Blue);
            assert_eq!(role, OrderRole::Target);
            assert_eq!(id, "sam-9");
        }
        other => panic!("expected an unknown order target, got {other:?}"),
    }
    let bad_shooter = [vec![], vec![order("gun-7", "sam-9")]];
    match check_doctrine(&field, &docs, &bad_shooter) {
        Err(DoctrineError::UnknownOrder { side, role, id }) => {
            assert_eq!(side, Side::Red);
            assert_eq!(role, OrderRole::Shooter);
            assert_eq!(id, "gun-7");
        }
        other => panic!("expected an unknown order shooter, got {other:?}"),
    }
    let good = [vec![order("gun-1", "sam-1")], vec![]];
    assert!(check_doctrine(&field, &docs, &good).is_ok());
}

#[test]
fn blue_is_checked_before_red() {
    let field = [names("gun-1", None, "unit")];
    let bad = Doctrine { priority: vec!["nope".to_owned()], mode: DoctrineMode::Weighted };
    let worse = Doctrine { priority: vec!["never".to_owned()], mode: DoctrineMode::Strict };
    match check_doctrine(&field, &[bad, worse], &[vec![], vec![]]) {
        Err(DoctrineError::UnknownPriority { side, name, .. }) => {
            assert_eq!(side, Side::Blue);
            assert_eq!(name, "nope");
        }
        other => panic!("expected Blue's doctrine to fail first, got {other:?}"),
    }
}

fn named(id: &str, role: Option<&str>) -> Named {
    Named { id: id.to_string(), role: role.map(|r| r.to_string()) }
}

#[test]
fn a_target_answers_to_its_list_class() {
    let units = vec![named("tank-1", None), named("gun-1", Some("artillery"))];
    let batteries = vec![named("sam-1", Some("sam"))];
    let posts = vec![named("hq", None)];
    let t = target_names(FireTarget::Unit(1), &units, &batteries, &posts);
    assert_eq!((t.id, t.role, t.class), ("gun-1", Some("artillery"), "unit"));
    let t = target_names(FireTarget::AirDefence(0), &units, &batteries, &posts);
    assert_eq!((t.id, t.role, t.class), ("sam-1", Some("sam"), "air_defence"));
    let t = target_names(FireTarget::C2(0), &units, &batteries, &posts);
    assert_eq!((t.id, t.role, t.class), ("hq", None, "c2"));
}

#[test]
fn the_field_lists_units_batteries_posts_then_airframes() {
    let units = vec![named("tank-1", None)];
    let batteries = vec![named("sam-1", Some("sam"))];
    let posts: Vec<Named> = vec![];
    let air = vec![named("uav-1", Some("recce"))];
    let field = field_names(&units, &batteries, &posts, &air);
    let flat: Vec<(&str, Option<&str>, &str)> = field.iter().map(|t| (t.id, t.role, t.class)).collect();
    assert_eq!(
        flat,
        vec![
            ("tank-1", None, "unit"),
            ("sam-1", Some("sam"), "air_defence"),
            ("uav-1", Some("recce"), "air"),
        ]
    );
    // a doctrine naming the airframe's role passes the check against this field
    let doctrine = [
        Doctrine { priority: vec!["recce".to_string()], mode: DoctrineMode::Strict },
        Doctrine::default(),
    ];
    assert!(check_doctrine(&field, &doctrine, &[vec![], vec![]]).is_ok());
}
