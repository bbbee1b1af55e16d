use flappy_core::contact::{ContactEvent, Transition};
use flappy_core::game::{Game, Obstacle, STEP};
use flappy_core::scoreboard::GameState;
use flappy_core::spawner::{Spawner, MAX_OFFSET, MIN_OFFSET, ORIGIN_X, ORIGIN_Y};
use flappy_core::tag::Tag;

fn ev(first: u64, second: u64, transition: Transition) -> ContactEvent {
    ContactEvent { first, second, transition }
}

fn fresh() -> (Game, Obstacle) {
    Game::new(Spawner::standard(), 40)
}

#[test]
fn new_game_holds_player_bounds_and_first_obstacle() {
    let (g, first) = fresh();
    assert_eq!(g.player, 0);
    assert_eq!(g.bounds, 1);
    assert_eq!(first.root, 2);
    assert_eq!((first.upper, first.sensor, first.lower), (3, 4, 5));
    assert_eq!(first.offset, 40);
    assert_eq!(first.x, ORIGIN_X);
    assert_eq!(first.y, ORIGIN_Y as i64 + 40);
    assert!(g.registry.tags_of(first.root).unwrap().has(Tag::ObstacleRoot));
    assert!(g.registry.tags_of(first.upper).unwrap().has(Tag::ObstaclePart));
    assert!(g.registry.tags_of(first.sensor).unwrap().has(Tag::ScoreSensor));
    assert!(g.registry.tags_of(first.lower).unwrap().has(Tag::ObstaclePart));
    assert_eq!(g.scoreboard.score, 0);
    assert_eq!(g.scoreboard.state, GameState::Running);
}

#[test]
fn player_hitting_obstacle_part_ends_game_without_score() {
    let (mut g, first) = fresh();
    let events = vec![ev(g.player, first.upper, Transition::Started)];
    let r = g.tick_with_offset(&events, 0);
    assert!(r.game_over);
    assert!(!r.score_changed);
    assert_eq!(g.scoreboard.state, GameState::Over);
    assert_eq!(g.scoreboard.score, 0);
}

#[test]
fn two_sensors_in_one_tick_score_two() {
    let (mut g, first) = fresh();
    let second = g.spawn_obstacle_at(-10).unwrap();
    let events = vec![
        ev(first.sensor, g.player, Transition::Started),
        ev(g.player, second.sensor, Transition::Started),
    ];
    let r = g.tick_with_offset(&events, 0);
    assert!(r.score_changed);
    assert!(!r.game_over);
    assert_eq!(g.scoreboard.score, 2);
    assert_eq!(g.scoreboard.state, GameState::Running);
}

#[test]
fn leaving_bounds_ends_game() {
    let (mut g, _first) = fresh();
    let events = vec![ev(g.bounds, g.player, Transition::Stopped)];
    let r = g.tick_with_offset(&events, 0);
    assert!(r.game_over);
    let more = vec![ev(g.player, 4, Transition::Started)];
    let r2 = g.tick_with_offset(&more, 0);
    assert!(r2.game_over);
    assert!(!r2.score_changed);
    assert_eq!(g.scoreboard.score, 0);
}

#[test]
fn stopping_contact_with_a_sensor_does_not_score() {
    let (mut g, first) = fresh();
    let events = vec![ev(g.player, first.sensor, Transition::Stopped)];
    let r = g.tick_with_offset(&events, 0);
    assert!(!r.score_changed);
    assert_eq!(g.scoreboard.score, 0);
}

#[test]
fn obstacle_leaving_bounds_is_destroyed_with_its_parts() {
    let (mut g, first) = fresh();
    let events = vec![ev(first.root, g.bounds, Transition::Stopped)];
    let r = g.tick_with_offset(&events, 0);
    assert_eq!(r.left_bounds, vec![(first.root, g.bounds)]);
    for e in [first.root, first.upper, first.sensor, first.lower] {
        assert!(!g.registry.is_live(e));
    }
    assert!(g.registry.is_live(g.player));
    assert!(g.registry.is_live(g.bounds));
    assert_eq!(g.scoreboard.state, GameState::Running);
}

#[test]
fn recycling_goes_on_after_game_over() {
    let (mut g, first) = fresh();
    let events = vec![
        ev(g.player, first.lower, Transition::Started),
        ev(g.bounds, first.root, Transition::Stopped),
    ];
    let r = g.tick_with_offset(&events, 0);
    assert!(r.game_over);
    assert!(!g.registry.is_live(first.root));
    assert!(!g.registry.is_live(first.lower));
}

#[test]
fn obstacle_entering_bounds_is_kept() {
    let (mut g, first) = fresh();
    let events = vec![ev(first.root, g.bounds, Transition::Started)];
    let r = g.tick_with_offset(&events, 0);
    assert!(r.left_bounds.is_empty());
    assert!(g.registry.is_live(first.root));
    assert!(g.registry.is_live(first.sensor));
}

#[test]
fn obstacles_spawn_every_period_of_simulated_time() {
    let (mut g, _first) = fresh();
    let none: Vec<ContactEvent> = Vec::new();
    let mut spawned_at = Vec::new();
    for step in 1..=360u64 {
        let r = g.tick_with_offset(&none, 17);
        if let Some(o) = r.spawned {
            assert_eq!(o.offset, 17);
            assert!(g.registry.is_live(o.root));
            spawned_at.push(step);
        }
    }
    assert_eq!(spawned_at, vec![180, 360]);
    assert_eq!(g.registry.next_id, 14);
}

#[test]
fn random_ticks_spawn_in_range() {
    let (mut g, first) = Game::start(Spawner::standard());
    assert!(MIN_OFFSET <= first.offset && first.offset <= MAX_OFFSET);
    let none: Vec<ContactEvent> = Vec::new();
    let mut count = 0;
    for _ in 0..(180 * 3) {
        let r = g.tick(&none);
        if let Some(o) = r.spawned {
            assert!(MIN_OFFSET <= o.offset && o.offset <= MAX_OFFSET);
            assert_eq!(o.y, ORIGIN_Y as i64 + o.offset as i64);
            count += 1;
        }
    }
    assert_eq!(count, 3);
}

#[test]
fn spawn_is_skipped_when_ids_run_out() {
    let (mut g, _first) = fresh();
    g.registry.next_id = u64::MAX - 3;
    assert_eq!(g.spawn_obstacle_at(0), None);
    g.registry.next_id = u64::MAX - 4;
    let o = g.spawn_obstacle_at(0).unwrap();
    assert_eq!(o.lower, u64::MAX - 1);
}

#[test]
fn new_obstacle_survives_its_spawn_tick() {
    let mut s = Spawner::standard();
    s.timer.elapsed = s.timer.period - STEP;
    let (mut g, first) = Game::new(s, 0);
    let events = vec![ev(first.root, g.bounds, Transition::Stopped)];
    let r = g.tick_with_offset(&events, 5);
    let o = r.spawned.unwrap();
    assert_eq!(o.root, 6);
    assert!(g.registry.is_live(o.root));
    assert!(g.registry.is_live(o.sensor));
    assert!(!g.registry.is_live(first.root));
}
