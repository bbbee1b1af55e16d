use flappy_core::game::STEP;
use flappy_core::scoreboard::{GameState, Scoreboard};
use flappy_core::spawner::{RepeatingTimer, Spawner, SpawnerError, MAX_OFFSET, MIN_OFFSET, SPAWN_PERIOD};

#[test]
fn timer_fires_once_per_period_and_carries_the_rest() {
    let mut t = RepeatingTimer::new(10);
    assert_eq!(t.advance(4), 0);
    assert_eq!(t.elapsed, 4);
    assert_eq!(t.advance(6), 1);
    assert_eq!(t.elapsed, 0);
    assert_eq!(t.advance(13), 1);
    assert_eq!(t.elapsed, 3);
    assert_eq!(t.advance(27), 3);
    assert_eq!(t.elapsed, 0);
}

#[test]
fn timer_counts_over_a_huge_advance() {
    let mut t = RepeatingTimer::new(1);
    assert_eq!(t.advance(u64::MAX), u64::MAX);
    assert_eq!(t.elapsed, 0);
    let mut u = RepeatingTimer::new(u64::MAX);
    assert_eq!(u.advance(u64::MAX - 1), 0);
    assert_eq!(u.advance(u64::MAX), 1);
    assert_eq!(u.elapsed, u64::MAX - 1);
}

#[test]
fn standard_spawner_fires_after_180_steps() {
    let mut s = Spawner::standard();
    let mut fired_at = Vec::new();
    for step in 1..=540u64 {
        if s.timer.advance(STEP) > 0 {
            fired_at.push(step);
        }
    }
    assert_eq!(fired_at, vec![180, 360, 540]);
    assert_eq!(s.timer.period, SPAWN_PERIOD);
}

#[test]
fn spawner_rejects_bad_configuration() {
    assert_eq!(Spawner::new(0, -1, 1, 0, 0, 1), Err(SpawnerError::ZeroPeriod));
    assert_eq!(Spawner::new(5, 2, 1, 0, 0, 1), Err(SpawnerError::EmptyRange));
    let s = Spawner::new(5, 1, 1, 7, 8, 9).unwrap();
    assert_eq!(s.timer, RepeatingTimer { period: 5, elapsed: 0 });
    assert_eq!(s.draw_offset(), 1);
}

#[test]
fn drawn_offsets_stay_in_range_and_vary() {
    let s = Spawner::standard();
    let mut seen_other = false;
    for _ in 0..200 {
        let o = s.draw_offset();
        assert!(MIN_OFFSET <= o && o <= MAX_OFFSET);
        if o != MIN_OFFSET && o != MAX_OFFSET {
            seen_other = true;
        }
    }
    assert!(seen_other);
}

#[test]
fn score_saturates_at_255() {
    let mut sb = Scoreboard { score: 254, state: GameState::Running };
    assert!(sb.on_scoring_event());
    assert_eq!(sb.score, 255);
    assert!(!sb.on_scoring_event());
    assert_eq!(sb.score, 255);
    assert_eq!(sb.state, GameState::Running);
}

#[test]
fn record_tick_adds_all_pairs_and_saturates() {
    let mut sb = Scoreboard::new();
    assert!(sb.record_tick(3, false));
    assert_eq!(sb.score, 3);
    assert!(sb.record_tick(1000, false));
    assert_eq!(sb.score, 255);
    assert!(!sb.record_tick(0, false));
}

#[test]
fn game_over_is_final() {
    let mut sb = Scoreboard::new();
    sb.record_tick(2, false);
    sb.on_lethal_event();
    assert!(sb.is_over());
    assert!(!sb.record_tick(5, false));
    assert!(!sb.on_scoring_event());
    sb.on_lethal_event();
    assert_eq!(sb, Scoreboard { score: 2, state: GameState::Over });
}

#[test]
fn score_and_lethal_in_one_tick_counts_the_score() {
    let mut sb = Scoreboard::new();
    assert!(sb.record_tick(1, true));
    assert_eq!(sb, Scoreboard { score: 1, state: GameState::Over });
}
