//! A bounded history of positions visited by the robot.
//!
//! The trail keeps at most `limit` points, drops a new point that
//! repeats the most recent one, and forgets the oldest point when the
//! bound is exceeded. A renderer may consume it; the simulation only
//! records into it.

use vstd::prelude::*;

verus! {

/// What one recording step does to the stored points.
pub open spec fn trail_add_s(q: Seq<(i64, i64)>, limit: int, p: (i64, i64)) -> Seq<(i64, i64)> {
    let pushed = if q.len() > 0 && q.last() == p {
        q
    } else {
        q.push(p)
    };
    if pushed.len() > limit {
        pushed.remove(0)
    } else {
        pushed
    }
}

/// Bounded trace of recently visited points.
pub struct Trail {
    pub queue: Vec<(i64, i64)>,
    pub limit: usize,
}

impl Trail {
    /// An empty trail that will hold at most `limit` points.
    pub fn new(limit: usize) -> (t: Trail)
        ensures
            t.queue@ == Seq::<(i64, i64)>::empty(),
            t.limit == limit,
    {
        Trail { queue: Vec::new(), limit: limit }
    }

    /// Records a point: appended unless it repeats the latest point,
    /// with the oldest point dropped once the bound is exceeded.
    pub fn add(&mut self, x: i64, y: i64)
        ensures
            final(self).queue@ == trail_add_s(old(self).queue@, old(self).limit as int, (x, y)),
            final(self).limit == old(self).limit,
            final(self).queue@.len() <= old(self).queue@.len() + 1,
    {
        if self.queue.len() > 0 {
            let last = self.queue[self.queue.len() - 1];
            if !(last.0 == x && last.1 == y) {
                self.queue.push((x, y));
            } else {
                proof {
                    assert(old(self).queue@.last() == (x, y));
                }
            }
        } else {
            self.queue.push((x, y));
        }
        if self.queue.len() > self.limit {
            self.queue.remove(0);
        }
    }

    /// The recorded points, oldest first.
    pub fn points(&self) -> (r: &Vec<(i64, i64)>)
        ensures
            r@ == self.queue@,
    {
        &self.queue
    }
}

} // verus!
