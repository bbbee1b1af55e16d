use vstd::prelude::*;

verus! {

/// A capability label attached to an entity.
#[derive(Clone, Copy, Debug, PartialEq, Eq, Structural)]
pub enum Tag {
    Player,
    ObstaclePart,
    ObstacleRoot,
    ScoreSensor,
    Bounds,
}

/// The tags an entity holds, one flag per tag.
#[derive(Clone, Copy, Debug, PartialEq, Eq, Structural)]
pub struct TagSet {
    pub player: bool,
    pub obstacle_part: bool,
    pub obstacle_root: bool,
    pub score_sensor: bool,
    pub bounds: bool,
}

/// The set that holds `tag` alone.
pub open spec fn only(tag: Tag) -> TagSet {
    TagSet {
        player: tag == Tag::Player,
        obstacle_part: tag == Tag::ObstaclePart,
        obstacle_root: tag == Tag::ObstacleRoot,
        score_sensor: tag == Tag::ScoreSensor,
        bounds: tag == Tag::Bounds,
    }
}

impl TagSet {
    /// Whether `tag` is among the flags that are set.
    pub open spec fn contains(self, tag: Tag) -> bool {
        match tag {
            Tag::Player => self.player,
            Tag::ObstaclePart => self.obstacle_part,
            Tag::ObstacleRoot => self.obstacle_root,
            Tag::ScoreSensor => self.score_sensor,
            Tag::Bounds => self.bounds,
        }
    }

    /// The set that holds no tag.
    pub fn empty() -> (r: TagSet)
        ensures
            forall|t: Tag| !r.contains(t),
    {
        TagSet {
            player: false,
            obstacle_part: false,
            obstacle_root: false,
            score_sensor: false,
            bounds: false,
        }
    }

    /// The set that holds `tag` alone.
    pub fn single(tag: Tag) -> (r: TagSet)
        ensures
            r == only(tag),
            forall|t: Tag| r.contains(t) <==> t == tag,
    {
        TagSet {
            player: tag == Tag::Player,
            obstacle_part: tag == Tag::ObstaclePart,
            obstacle_root: tag == Tag::ObstacleRoot,
            score_sensor: tag == Tag::ScoreSensor,
            bounds: tag == Tag::Bounds,
        }
    }

    /// This set with `tag` added.
    pub fn with(self, tag: Tag) -> (r: TagSet)
        ensures
            forall|t: Tag| r.contains(t) <==> (self.contains(t) || t == tag),
    {
        let mut r = self;
        match tag {
            Tag::Player => r.player = true,
            Tag::ObstaclePart => r.obstacle_part = true,
            Tag::ObstacleRoot => r.obstacle_root = true,
            Tag::ScoreSensor => r.score_sensor = true,
            Tag::Bounds => r.bounds = true,
        }
        r
    }

    /// Whether `tag` is held.
    pub fn has(&self, tag: Tag) -> (r: bool)
        ensures
            r == self.contains(tag),
    {
        match tag {
            Tag::Player => self.player,
            Tag::ObstaclePart => self.obstacle_part,
            Tag::ObstacleRoot => self.obstacle_root,
            Tag::ScoreSensor => self.score_sensor,
            Tag::Bounds => self.bounds,
        }
    }
}

} // verus!
