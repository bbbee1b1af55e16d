use flappy_core::contact::{any_pair, classify, pair_for, ContactEvent, Transition};
use flappy_core::registry::Registry;
use flappy_core::tag::{Tag, TagSet};

fn ev(first: u64, second: u64, transition: Transition) -> ContactEvent {
    ContactEvent { first, second, transition }
}

fn setup() -> (Registry, u64, u64, u64) {
    let mut reg = Registry::new();
    let player = reg.create(TagSet::single(Tag::Player), None).unwrap();
    let root = reg.create(TagSet::single(Tag::ObstacleRoot), None).unwrap();
    let part = reg.create(TagSet::single(Tag::ObstaclePart), Some(root)).unwrap();
    (reg, player, root, part)
}

#[test]
fn classify_puts_first_tag_first_in_either_order() {
    let (reg, player, _root, part) = setup();
    let events = vec![
        ev(player, part, Transition::Started),
        ev(part, player, Transition::Started),
    ];
    let pairs = classify(&reg, &events, Tag::Player, Tag::ObstaclePart, Transition::Started);
    assert_eq!(pairs, vec![(player, part), (player, part)]);
    let swapped = classify(&reg, &events, Tag::ObstaclePart, Tag::Player, Transition::Started);
    assert_eq!(swapped, vec![(part, player), (part, player)]);
}

#[test]
fn classify_filters_by_transition() {
    let (reg, player, _root, part) = setup();
    let events = vec![
        ev(player, part, Transition::Stopped),
        ev(part, player, Transition::Started),
    ];
    let started = classify(&reg, &events, Tag::Player, Tag::ObstaclePart, Transition::Started);
    assert_eq!(started, vec![(player, part)]);
    let stopped = classify(&reg, &events, Tag::Player, Tag::ObstaclePart, Transition::Stopped);
    assert_eq!(stopped, vec![(player, part)]);
    assert!(!any_pair(&reg, &events, Tag::Player, Tag::Bounds, Transition::Started));
}

#[test]
fn classify_ignores_unrelated_and_unknown_entities() {
    let (reg, player, root, part) = setup();
    let events = vec![
        ev(root, part, Transition::Started),
        ev(player, 99, Transition::Started),
        ev(99, player, Transition::Started),
    ];
    let pairs = classify(&reg, &events, Tag::Player, Tag::ObstaclePart, Transition::Started);
    assert!(pairs.is_empty());
    assert!(!any_pair(&reg, &events, Tag::Player, Tag::ObstaclePart, Transition::Started));
}

#[test]
fn classify_of_empty_batch_is_empty() {
    let (reg, _player, _root, _part) = setup();
    let events: Vec<ContactEvent> = Vec::new();
    assert!(classify(&reg, &events, Tag::Player, Tag::Bounds, Transition::Stopped).is_empty());
    assert!(!any_pair(&reg, &events, Tag::Player, Tag::Bounds, Transition::Stopped));
}

#[test]
fn classify_ignores_destroyed_entities() {
    let (mut reg, player, root, part) = setup();
    reg.destroy(root).unwrap();
    let events = vec![ev(player, part, Transition::Started)];
    assert!(!any_pair(&reg, &events, Tag::Player, Tag::ObstaclePart, Transition::Started));
}

#[test]
fn any_pair_finds_a_later_pair() {
    let (reg, player, root, part) = setup();
    let events = vec![
        ev(root, part, Transition::Started),
        ev(part, player, Transition::Started),
    ];
    assert!(any_pair(&reg, &events, Tag::Player, Tag::ObstaclePart, Transition::Started));
}

#[test]
fn same_tag_query_does_not_pair_an_entity_with_itself() {
    let (reg, player, _root, _part) = setup();
    let e = ev(player, player, Transition::Started);
    assert_eq!(pair_for(&reg, &e, Tag::Player, Tag::Player, Transition::Started), None);
}

#[test]
fn entity_with_both_tags_matches_distinct_tag_query() {
    let mut reg = Registry::new();
    let both = reg
        .create(TagSet::single(Tag::Player).with(Tag::Bounds), None)
        .unwrap();
    let e = ev(both, both, Transition::Stopped);
    assert_eq!(
        pair_for(&reg, &e, Tag::Player, Tag::Bounds, Transition::Stopped),
        Some((both, both))
    );
}
