use vstd::prelude::*;

verus! {

#[derive(Clone, Copy, Debug, PartialEq, Eq, Structural)]
pub enum GameState {
    Running,
    Over,
}

/// The score of the run and whether it is over.
#[derive(Clone, Copy, Debug, PartialEq, Eq, Structural)]
pub struct Scoreboard {
    pub score: u8,
    pub state: GameState,
}

/// `score` raised by `n`, held at the largest `u8` rather than wrapping.
pub open spec fn saturating_score(score: u8, n: nat) -> u8 {
    if score + n >= u8::MAX {
        u8::MAX
    } else {
        (score + n) as u8
    }
}

/// The scoreboard after a tick with `scored` scoring pairs, in which a lethal
/// pair occurred if `lethal`. Once the run is over nothing changes.
pub open spec fn after_tick(sb: Scoreboard, scored: nat, lethal: bool) -> Scoreboard {
    if sb.state == GameState::Over {
        sb
    } else {
        Scoreboard {
            score: saturating_score(sb.score, scored),
            state: if lethal {
                GameState::Over
            } else {
                GameState::Running
            },
        }
    }
}

/// The scoreboard after the ticks of `ticks`, each given as its number of
/// scoring pairs and whether a lethal pair occurred.
pub open spec fn after_ticks(sb: Scoreboard, ticks: Seq<(nat, bool)>) -> Scoreboard
    decreases ticks.len(),
{
    if ticks.len() == 0 {
        sb
    } else {
        let prev = after_ticks(sb, ticks.drop_last());
        after_tick(prev, ticks.last().0, ticks.last().1)
    }
}

impl Scoreboard {
    /// A running game with no score.
    pub fn new() -> (r: Scoreboard)
        ensures
            r.score == 0,
            r.state == GameState::Running,
    {
        Scoreboard { score: 0, state: GameState::Running }
    }

    pub fn is_over(&self) -> (r: bool)
        ensures
            r == (self.state == GameState::Over),
    {
        self.state == GameState::Over
    }

    /// Records one tick: `scored` scoring pairs, then game over if `lethal`.
    /// Returns whether the score changed.
    pub fn record_tick(&mut self, scored: u64, lethal: bool) -> (changed: bool)
        ensures
            *final(self) == after_tick(*old(self), scored as nat, lethal),
            changed == (final(self).score != old(self).score),
    {
        if self.state == GameState::Over {
            return false;
        }
        let before = self.score;
        if scored >= (u8::MAX - self.score) as u64 {
            self.score = u8::MAX;
        } else {
            self.score = self.score + scored as u8;
        }
        if lethal {
            self.state = GameState::Over;
        }
        self.score != before
    }

    /// One scoring pair: the score goes up by one while the game runs, and
    /// stays at the largest `u8` once it is there.
    pub fn on_scoring_event(&mut self) -> (changed: bool)
        ensures
            *final(self) == after_tick(*old(self), 1, false),
            old(self).score == u8::MAX ==> final(self).score == u8::MAX,
            changed == (final(self).score != old(self).score),
    {
        self.record_tick(1, false)
    }

    /// A lethal pair: the game is over from now on.
    pub fn on_lethal_event(&mut self)
        ensures
            *final(self) == after_tick(*old(self), 0, true),
            final(self).state == GameState::Over,
            final(self).score == old(self).score,
    {
        self.record_tick(0, true);
    }
}

/// In a tick of a running game with `n` scoring pairs and no lethal pair, the
/// score rises by exactly `n` as long as that stays within `u8`, and the game
/// keeps running.
pub proof fn lemma_score_rises_by_pairs(sb: Scoreboard, n: nat)
    requires
        sb.state == GameState::Running,
        sb.score + n <= u8::MAX,
    ensures
        after_tick(sb, n, false).score == sb.score + n,
        after_tick(sb, n, false).state == GameState::Running,
{
}

/// Once a tick holds a lethal pair, the game is over after that tick and after
/// every later one, and the score stays what it was at that tick, whatever
/// the later ticks hold.
pub proof fn lemma_over_is_final(sb: Scoreboard, ticks: Seq<(nat, bool)>, k: int)
    requires
        0 <= k < ticks.len(),
        ticks[k].1,
    ensures
        forall|j: int|
            k < j <= ticks.len() ==> {
                let later = #[trigger] after_ticks(sb, ticks.subrange(0, j));
                &&& later.state == GameState::Over
                &&& later.score == after_ticks(sb, ticks.subrange(0, k + 1)).score
            },
{
    assert forall|j: int| k < j <= ticks.len() implies {
        let later = #[trigger] after_ticks(sb, ticks.subrange(0, j));
        &&& later.state == GameState::Over
        &&& later.score == after_ticks(sb, ticks.subrange(0, k + 1)).score
    } by {
        lemma_stays_over(sb, ticks, k + 1, j);
    }
}

proof fn lemma_stays_over(sb: Scoreboard, ticks: Seq<(nat, bool)>, m: int, j: int)
    requires
        1 <= m <= j <= ticks.len(),
        ticks[m - 1].1,
    ensures
        after_ticks(sb, ticks.subrange(0, j)).state == GameState::Over,
        after_ticks(sb, ticks.subrange(0, j)) == after_ticks(sb, ticks.subrange(0, m)),
    decreases j - m,
{
    if j > m {
        lemma_stays_over(sb, ticks, m, j - 1);
        assert(ticks.subrange(0, j).drop_last() =~= ticks.subrange(0, j - 1));
    } else {
        assert(ticks.subrange(0, m).drop_last() =~= ticks.subrange(0, m - 1));
        assert(ticks.subrange(0, m).last() == ticks[m - 1]);
    }
}

} // verus!
