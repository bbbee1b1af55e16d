use vstd::prelude::*;
use vstd::pervasive::unreached;
use crate::contact::{any_pair, classify, qualifying, ContactEvent, Transition};
use crate::registry::{after_create, family, Entity, EntityInfo, Registry};
use crate::scoreboard::{after_tick, GameState, Scoreboard};
use crate::spawner::{lemma_fires_once_per_period, run_over, total_time, RepeatingTimer, Spawner};
use crate::tag::{only, Tag, TagSet};

verus! {

/// Simulated nanoseconds in one tick: a sixtieth of a second, rounded.
pub const STEP: u64 = 16_666_667;

/// An obstacle: a moving root that owns two solid parts and a score sensor
/// between them.
#[derive(Clone, Copy, Debug, PartialEq, Eq, Structural)]
pub struct Obstacle {
    pub root: Entity,
    pub upper: Entity,
    pub sensor: Entity,
    pub lower: Entity,
    /// Vertical offset drawn for this obstacle.
    pub offset: i32,
    /// Where the root starts: the spawn origin moved up by `offset`.
    pub x: i32,
    pub y: i64,
}

/// The model after an obstacle with root `root` and parts numbered after it
/// is created.
pub open spec fn after_spawn(m: Map<Entity, EntityInfo>, root: Entity) -> Map<
    Entity,
    EntityInfo,
> {
    let with_root = after_create(m, root, only(Tag::ObstacleRoot), None);
    let with_upper = after_create(
        with_root,
        (root + 1) as Entity,
        only(Tag::ObstaclePart),
        Some(root),
    );
    let with_sensor = after_create(
        with_upper,
        (root + 2) as Entity,
        only(Tag::ScoreSensor),
        Some(root),
    );
    after_create(with_sensor, (root + 3) as Entity, only(Tag::ObstaclePart), Some(root))
}

/// Every entity destroyed when the roots of `pairs` are destroyed with what
/// they own.
pub open spec fn doomed(m: Map<Entity, EntityInfo>, pairs: Seq<(Entity, Entity)>) -> Set<Entity> {
    Set::new(
        |k: Entity|
            exists|i: int| 0 <= i < pairs.len() && #[trigger] family(m, pairs[i].0).contains(k),
    )
}

/// The obstacle whose root is `root` and whose parts are numbered after it,
/// placed by `spawner` at `offset`.
pub open spec fn obstacle_at(spawner: Spawner, root: Entity, offset: i32) -> Obstacle {
    Obstacle {
        root,
        upper: (root + 1) as Entity,
        sensor: (root + 2) as Entity,
        lower: (root + 3) as Entity,
        offset,
        x: spawner.origin_x,
        y: (spawner.origin_y + offset) as i64,
    }
}

/// Whether `after` and `r` are what one tick over `events` makes of `before`.
/// All queries are answered against the entities live when the tick starts.
/// The timer advances by one step; the obstacles that left the bounds are
/// destroyed with their parts; an obstacle is created if the timer ran out
/// and identifiers remain; the scoring pairs and lethal pairs go to the
/// scoreboard.
pub open spec fn tick_outcome(
    before: Game,
    events: Seq<ContactEvent>,
    after: Game,
    r: TickReport,
) -> bool {
    let reg = before.registry;
    let timer = before.spawner.timer;
    let leaving = qualifying(reg, events, Tag::ObstacleRoot, Tag::Bounds, Transition::Stopped);
    let scored = qualifying(reg, events, Tag::Player, Tag::ScoreSensor, Transition::Started).len();
    let lethal = qualifying(reg, events, Tag::Player, Tag::ObstaclePart, Transition::Started).len()
        > 0 || qualifying(reg, events, Tag::Player, Tag::Bounds, Transition::Stopped).len() > 0;
    let recycled = reg@.remove_keys(doomed(reg@, leaving));
    let due = timer.fires_after(STEP as nat) > 0;
    let room = reg.next_id <= u64::MAX - 4;
    &&& after.wf()
    &&& after.player == before.player
    &&& after.bounds == before.bounds
    &&& after.spawner == Spawner {
        timer: RepeatingTimer {
            elapsed: ((timer.elapsed + STEP) % (timer.period as int)) as u64,
            ..timer
        },
        ..before.spawner
    }
    &&& r.left_bounds@ == leaving
    &&& after.scoreboard == after_tick(before.scoreboard, scored, lethal)
    &&& r.score_changed == (after.scoreboard.score != before.scoreboard.score)
    &&& r.game_over == (after.scoreboard.state == GameState::Over)
    &&& match r.spawned {
        Some(o) => {
            &&& due && room
            &&& o == obstacle_at(before.spawner, reg.next_id, o.offset)
            &&& after.registry@ == after_spawn(recycled, reg.next_id)
            &&& after.registry.next_id == reg.next_id + 4
        },
        None => {
            &&& !(due && room)
            &&& after.registry@ == recycled
            &&& after.registry.next_id == reg.next_id
        },
    }
}

/// The model of a new game: the player, the bounds, and the first obstacle.
pub open spec fn opening_entities() -> Map<Entity, EntityInfo> {
    let with_player = after_create(Map::empty(), 0, only(Tag::Player), None);
    let with_bounds = after_create(with_player, 1, only(Tag::Bounds), None);
    after_spawn(with_bounds, 2)
}

/// What one tick reports to the outside.
pub struct TickReport {
    /// The obstacle created this tick, if any.
    pub spawned: Option<Obstacle>,
    /// The (root, bounds) pairs whose roots were destroyed with their parts.
    pub left_bounds: Vec<(Entity, Entity)>,
    /// Whether the score changed.
    pub score_changed: bool,
    /// Whether the game is over after this tick.
    pub game_over: bool,
}

/// The whole simulation state, advanced one tick at a time.
pub struct Game {
    pub registry: Registry,
    pub spawner: Spawner,
    pub scoreboard: Scoreboard,
    pub player: Entity,
    pub bounds: Entity,
}

impl Game {
    pub open spec fn wf(&self) -> bool {
        &&& self.registry.wf()
        &&& self.spawner.wf()
        &&& self.spawner.timer.period >= STEP
    }

    /// A running game with no score: the player, the bounds, and a first
    /// obstacle at `first_offset`, placed before the timer first runs out.
    pub fn new(spawner: Spawner, first_offset: i32) -> (r: (Game, Obstacle))
        requires
            spawner.wf(),
            spawner.timer.period >= STEP,
        ensures
            r.0.wf(),
            r.0.spawner == spawner,
            r.0.scoreboard == (Scoreboard { score: 0, state: GameState::Running }),
            r.0.player == 0,
            r.0.bounds == 1,
            r.0.registry@ == opening_entities(),
            r.0.registry.next_id == 6,
            r.1 == obstacle_at(spawner, 2, first_offset),
    {
        let mut registry = Registry::new();
        let player = match registry.create(TagSet::single(Tag::Player), None) {
            Ok(e) => e,
            Err(_) => unreached(),
        };
        let bounds = match registry.create(TagSet::single(Tag::Bounds), None) {
            Ok(e) => e,
            Err(_) => unreached(),
        };
        let mut game = Game { registry, spawner, scoreboard: Scoreboard::new(), player, bounds };
        let first = match game.spawn_obstacle_at(first_offset) {
            Some(o) => o,
            None => unreached(),
        };
        (game, first)
    }

    /// As `new`, with the first offset drawn at random from the spawner's
    /// range.
    pub fn start(spawner: Spawner) -> (r: (Game, Obstacle))
        requires
            spawner.wf(),
            spawner.timer.period >= STEP,
        ensures
            r.0.wf(),
            r.0.spawner == spawner,
            r.0.scoreboard == (Scoreboard { score: 0, state: GameState::Running }),
            r.0.player == 0,
            r.0.bounds == 1,
            r.0.registry@ == opening_entities(),
            r.0.registry.next_id == 6,
            r.1 == obstacle_at(spawner, 2, r.1.offset),
            spawner.admits(r.1.offset),
    {
        let offset = spawner.draw_offset();
        Game::new(spawner, offset)
    }

    /// Creates an obstacle at `offset` from the spawn origin, or reports
    /// `None` and changes nothing when identifiers would run out.
    pub fn spawn_obstacle_at(&mut self, offset: i32) -> (r: Option<Obstacle>)
        requires
            old(self).wf(),
        ensures
            final(self).wf(),
            final(self).spawner == old(self).spawner,
            final(self).scoreboard == old(self).scoreboard,
            final(self).player == old(self).player,
            final(self).bounds == old(self).bounds,
            match r {
                Some(o) => {
                    let root = old(self).registry.next_id;
                    &&& root <= u64::MAX - 4
                    &&& o == obstacle_at(old(self).spawner, root, offset)
                    &&& final(self).registry@ == after_spawn(old(self).registry@, root)
                    &&& final(self).registry.next_id == root + 4
                },
                None => {
                    &&& old(self).registry.next_id > u64::MAX - 4
                    &&& final(self).registry == old(self).registry
                },
            },
    {
        if self.registry.next_id > u64::MAX - 4 {
            return None;
        }
        let root = match self.registry.create(TagSet::single(Tag::ObstacleRoot), None) {
            Ok(e) => e,
            Err(_) => {
                return None;
            },
        };
        let upper = match self.registry.create(TagSet::single(Tag::ObstaclePart), Some(root)) {
            Ok(e) => e,
            Err(_) => {
                return None;
            },
        };
        let sensor = match self.registry.create(TagSet::single(Tag::ScoreSensor), Some(root)) {
            Ok(e) => e,
            Err(_) => {
                return None;
            },
        };
        let lower = match self.registry.create(TagSet::single(Tag::ObstaclePart), Some(root)) {
            Ok(e) => e,
            Err(_) => {
                return None;
            },
        };
        Some(
            Obstacle {
                root,
                upper,
                sensor,
                lower,
                offset,
                x: self.spawner.origin_x,
                y: self.spawner.origin_y as i64 + offset as i64,
            },
        )
    }

    /// Destroys the root of each pair of `pairs` together with everything it
    /// owns. Roots already gone are passed over.
    pub fn recycle(&mut self, pairs: &Vec<(Entity, Entity)>)
        requires
            old(self).wf(),
        ensures
            final(self).wf(),
            final(self).spawner == old(self).spawner,
            final(self).scoreboard == old(self).scoreboard,
            final(self).player == old(self).player,
            final(self).bounds == old(self).bounds,
            final(self).registry.next_id == old(self).registry.next_id,
            final(self).registry@ == old(self).registry@.remove_keys(
                doomed(old(self).registry@, pairs@),
            ),
    {
        let ghost r0 = self.registry;
        let ghost m0 = self.registry@;
        let ghost spawner0 = self.spawner;
        let ghost scoreboard0 = self.scoreboard;
        let ghost player0 = self.player;
        let ghost bounds0 = self.bounds;
        assert(m0.remove_keys(doomed(m0, pairs@.subrange(0, 0))) =~= m0);
        let mut i: usize = 0;
        while i < pairs.len()
            invariant
                i <= pairs.len(),
                r0.wf(),
                m0 == r0@,
                self.wf(),
                self.spawner == spawner0,
                self.scoreboard == scoreboard0,
                self.player == player0,
                self.bounds == bounds0,
                self.registry.next_id == r0.next_id,
                self.registry@ == m0.remove_keys(doomed(m0, pairs@.subrange(0, i as int))),
            decreases pairs.len() - i,
        {
            let root = pairs[i].0;
            let ghost cur = self.registry@;
            let ghost d = doomed(m0, pairs@.subrange(0, i as int));
            let ghost d1 = doomed(m0, pairs@.subrange(0, i + 1));
            let ghost fam = family(m0, root);
            proof {
                assert forall|k: Entity| d1.contains(k) <==> (d.contains(k) || fam.contains(k)) by {
                    if d1.contains(k) {
                        let j = choose|j: int|
                            0 <= j < i + 1 && #[trigger] family(
                                m0,
                                pairs@.subrange(0, i + 1)[j].0,
                            ).contains(k);
                        if j < i {
                            assert(pairs@.subrange(0, i as int)[j] == pairs@.subrange(0, i + 1)[j]);
                        }
                    }
                    if d.contains(k) {
                        let j = choose|j: int|
                            0 <= j < i && #[trigger] family(
                                m0,
                                pairs@.subrange(0, i as int)[j].0,
                            ).contains(k);
                        assert(pairs@.subrange(0, i as int)[j] == pairs@.subrange(0, i + 1)[j]);
                    }
                    if fam.contains(k) {
                        assert(pairs@.subrange(0, i + 1)[i as int].0 == root);
                    }
                }
            }
            let outcome = self.registry.destroy(root);
            proof {
                match outcome {
                    Ok(()) => {
                        assert(self.registry@ =~= m0.remove_keys(d1));
                    },
                    Err(_) => {
                        assert forall|k: Entity| m0.contains_key(k) && fam.contains(k) implies d.contains(
                            k,
                        ) by {
                            if k != root {
                                assert(m0[k].owner is Some);
                                if !m0.contains_key(root) {
                                    assert(false);
                                }
                                let j = choose|j: int|
                                    0 <= j < i && #[trigger] family(
                                        m0,
                                        pairs@.subrange(0, i as int)[j].0,
                                    ).contains(root);
                                let other = pairs@.subrange(0, i as int)[j].0;
                                if root != other {
                                    assert(m0[root].owner == Some(other));
                                    assert(m0[root].owner is None);
                                }
                            } else {
                                assert(!cur.contains_key(root));
                            }
                        }
                        assert(self.registry@ =~= m0.remove_keys(d1));
                    },
                }
            }
            i = i + 1;
        }
        assert(pairs@.subrange(0, pairs.len() as int) =~= pairs@);
    }

    /// Runs one tick over the contact events of that tick. A new obstacle,
    /// if one is due, is placed at `offset`.
    pub fn tick_with_offset(&mut self, events: &Vec<ContactEvent>, offset: i32) -> (r: TickReport)
        requires
            old(self).wf(),
        ensures
            tick_outcome(*old(self), events@, *final(self), r),
            r.spawned matches Some(o) ==> o.offset == offset,
    {
        let leaving = classify(
            &self.registry,
            events,
            Tag::ObstacleRoot,
            Tag::Bounds,
            Transition::Stopped,
        );
        let scoring = classify(
            &self.registry,
            events,
            Tag::Player,
            Tag::ScoreSensor,
            Transition::Started,
        );
        let hit = any_pair(&self.registry, events, Tag::Player, Tag::ObstaclePart, Transition::Started);
        let fell_out = any_pair(&self.registry, events, Tag::Player, Tag::Bounds, Transition::Stopped);
        let fired = self.spawner.timer.advance(STEP);
        self.recycle(&leaving);
        let spawned = if fired > 0 {
            self.spawn_obstacle_at(offset)
        } else {
            None
        };
        let score_changed = self.scoreboard.record_tick(scoring.len() as u64, hit || fell_out);
        let game_over = self.scoreboard.is_over();
        TickReport { spawned, left_bounds: leaving, score_changed, game_over }
    }

    /// Runs one tick over the contact events of that tick. A new obstacle,
    /// if one is due, is placed at an offset drawn at random from the
    /// spawner's range.
    pub fn tick(&mut self, events: &Vec<ContactEvent>) -> (r: TickReport)
        requires
            old(self).wf(),
        ensures
            tick_outcome(*old(self), events@, *final(self), r),
            r.spawned matches Some(o) ==> old(self).spawner.admits(o.offset),
    {
        let due = STEP >= self.spawner.timer.period - self.spawner.timer.elapsed;
        let offset = if due {
            self.spawner.draw_offset()
        } else {
            self.spawner.min_offset
        };
        self.tick_with_offset(events, offset)
    }
}

/// In a well-formed registry, destroying the roots of `pairs` with what they
/// own leaves none of those roots and none of the entities they owned, and
/// every entity still owned by another has a live owner.
pub proof fn lemma_recycling_leaves_no_orphans(reg: Registry, pairs: Seq<(Entity, Entity)>)
    requires
        reg.wf(),
    ensures
        ({
            let m = reg@;
            let after = m.remove_keys(doomed(m, pairs));
            &&& forall|i: int| 0 <= i < pairs.len() ==> !after.contains_key(#[trigger] pairs[i].0)
            &&& forall|i: int, c: Entity|
                #![trigger pairs[i], m[c]]
                0 <= i < pairs.len() && m.contains_key(c) && m[c].owner == Some(pairs[i].0)
                    ==> !after.contains_key(c)
            &&& forall|c: Entity|
                #[trigger] after.contains_key(c) && after[c].owner is Some ==> after.contains_key(
                    after[c].owner->0,
                )
        }),
{
    let m = reg@;
    let d = doomed(m, pairs);
    let after = m.remove_keys(d);
    assert forall|i: int| 0 <= i < pairs.len() implies !after.contains_key(#[trigger] pairs[i].0) by {
        assert(family(m, pairs[i].0).contains(pairs[i].0));
    }
    assert forall|i: int, c: Entity|
        #![trigger pairs[i], m[c]]
        0 <= i < pairs.len() && m.contains_key(c) && m[c].owner == Some(
            pairs[i].0,
        ) implies !after.contains_key(c) by {
        assert(family(m, pairs[i].0).contains(c));
    }
    assert forall|c: Entity| #[trigger]
        after.contains_key(c) && after[c].owner is Some implies after.contains_key(
        after[c].owner->0,
    ) by {
        let o = after[c].owner->0;
        assert(m[c].owner is Some);
        if d.contains(o) {
            let j = choose|j: int| 0 <= j < pairs.len() && #[trigger] family(m, pairs[j].0).contains(o);
            if o == pairs[j].0 {
                assert(family(m, pairs[j].0).contains(c));
            } else {
                assert(m[o].owner is None);
            }
        }
    }
}

/// `n` ticks' worth of timer advances.
pub open spec fn steps(n: nat) -> Seq<nat> {
    Seq::new(n, |i: int| STEP as nat)
}

/// Over any `n` ticks, a spawner timer with `period` that has run `elapsed`
/// runs out once per whole period of simulated time: as many times as
/// `elapsed + n * STEP` holds the period, whatever the wall clock did.
pub proof fn lemma_spawns_follow_simulated_time(elapsed: nat, period: nat, n: nat)
    requires
        elapsed < period,
    ensures
        run_over(elapsed, period, steps(n)).0 == ((elapsed + n * STEP) as int) / (period as int),
{
    lemma_steps_total(n);
    lemma_fires_once_per_period(elapsed, period, steps(n));
}

proof fn lemma_steps_total(n: nat)
    ensures
        total_time(steps(n)) == n * STEP,
    decreases n,
{
    if n > 0 {
        lemma_steps_total((n - 1) as nat);
        assert(steps(n).drop_last() =~= steps((n - 1) as nat));
        assert(n * STEP == (n - 1) * STEP + STEP) by (nonlinear_arith);
    }
}

} // verus!
