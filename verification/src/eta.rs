//! How long deleting still takes, by the objects that are done. Waiting for a decision is
//! not counted.
use crate::text;
use crate::text::{decimal, glue};
use vstd::prelude::*;
use vstd::string::*;

verus! {

/// Nanoseconds in a second.
pub const SECOND: u64 = 1000000000;

/// Samples closer together than this tell nothing.
pub const SHORTEST_SAMPLE: u64 = 400000000;

/// What is known of the pace, in nanoseconds of some clock.
#[derive(Clone, Copy, Debug, PartialEq, Eq, Structural)]
pub struct Sample {
    pub at: u64,
    pub done: u64,
}

/// So many objects in so much time.
#[derive(Clone, Copy, Debug, PartialEq, Eq, Structural)]
pub struct Stretch {
    pub objects: u64,
    pub nanoseconds: u64,
}

/// What an observation gives: the pace since the last one, and, if something can be said,
/// the pace so far and what is left.
#[derive(Clone, Copy, Debug, PartialEq, Eq, Structural)]
pub struct Observation {
    pub recent: Option<Stretch>,
    pub overall: Option<Stretch>,
    pub left: u64,
}

/// The clock of a deletion.
#[derive(Clone, Copy, Debug, PartialEq, Eq, Structural)]
pub struct DeleteEta {
    pub started: u64,
    pub last_sample: Option<Sample>,
    pub last_progress: Option<u64>,
    pub paused_at: Option<u64>,
    pub paused_total: u64,
}

/// The time from one moment to another, none if the other is not later.
pub open spec fn since(now: u64, then: u64) -> u64 {
    if now > then {
        (now - then) as u64
    } else {
        0
    }
}

impl DeleteEta {
    /// The time spent on deleting.
    pub open spec fn active(self, now: u64) -> u64 {
        let until = match self.paused_at {
            Some(t) => t,
            None => now,
        };
        since(since(until, self.started), self.paused_total)
    }

    pub fn new(now: u64) -> (r: Self)
        ensures
            r == (DeleteEta {
                started: now,
                last_sample: None,
                last_progress: None,
                paused_at: None,
                paused_total: 0,
            }),
    {
        DeleteEta {
            started: now,
            last_sample: None,
            last_progress: None,
            paused_at: None,
            paused_total: 0,
        }
    }

    pub fn active_elapsed(&self, now: u64) -> (r: u64)
        ensures
            r == self.active(now),
    {
        let until: u64 = match self.paused_at {
            Some(t) => t,
            None => now,
        };
        until.saturating_sub(self.started).saturating_sub(self.paused_total)
    }

    /// A decision is waited for.
    pub fn pause(&mut self, now: u64)
        ensures
            *final(self) == (DeleteEta {
                paused_at: (match old(self).paused_at {
                    Some(t) => Some(t),
                    None => Some(now),
                }),
                ..*old(self)
            }),
    {
        if self.paused_at.is_none() {
            self.paused_at = Some(now);
        }
    }

    /// The decision came. The wait counts as nothing, and as no sample.
    pub fn resume(&mut self, now: u64)
        ensures
            *final(self) == (match old(self).paused_at {
                None => *old(self),
                Some(t) => DeleteEta {
                    paused_at: None,
                    paused_total: (if old(self).paused_total + since(now, t) <= u64::MAX {
                        (old(self).paused_total + since(now, t)) as u64
                    } else {
                        u64::MAX
                    }),
                    last_sample: None,
                    last_progress: Some(now),
                    ..*old(self)
                },
            }),
    {
        if let Some(t) = self.paused_at {
            self.paused_at = None;
            self.paused_total = self.paused_total.saturating_add(now.saturating_sub(t));
            self.last_sample = None;
            self.last_progress = Some(now);
        }
    }

    /// Whether nothing has happened for more than five seconds without a reason.
    pub fn is_stalled(&self, now: u64) -> (r: bool)
        ensures
            r == (self.paused_at is None && match self.last_progress {
                Some(t) => since(now, t) > 5 * SECOND,
                None => false,
            }),
    {
        if self.paused_at.is_some() {
            return false;
        }
        match self.last_progress {
            Some(t) => now.saturating_sub(t) > 5 * SECOND,
            None => false,
        }
    }

    /// The pace since the last sample, if something was done in a time that tells.
    pub open spec fn pace(self, now: u64, done: u64) -> Option<Stretch> {
        match self.last_sample {
            Some(s) => if done > s.done && since(now, s.at) >= SHORTEST_SAMPLE {
                Some(Stretch { objects: (done - s.done) as u64, nanoseconds: since(now, s.at) })
            } else {
                None
            },
            None => None,
        }
    }

    /// Whether an observation counts: nothing is waited for, and something is left.
    pub open spec fn counts(self, done: u64, total: u64) -> bool {
        self.paused_at is None && done < total
    }

    /// Takes note of how much is done.
    pub fn observe(&mut self, now: u64, done: u64, total: u64) -> (r: Observation)
        ensures
            !old(self).counts(done, total) ==> *final(self) == *old(self) && r == (Observation {
                recent: None,
                overall: None,
                left: 0,
            }),
            old(self).counts(done, total) ==> {
                &&& *final(self) == (DeleteEta {
                    last_sample: (match old(self).last_sample {
                        Some(s) if done <= s.done => Some(s),
                        _ => Some(Sample { at: now, done }),
                    }),
                    last_progress: Some(now),
                    ..*old(self)
                })
                &&& r == (Observation {
                    recent: old(self).pace(now, done),
                    overall: (if done == 0 || old(self).active(now) < SECOND {
                        None
                    } else {
                        Some(Stretch { objects: done, nanoseconds: old(self).active(now) })
                    }),
                    left: (total - done) as u64,
                })
            },
    {
        if self.paused_at.is_some() || done >= total {
            return Observation { recent: None, overall: None, left: 0 };
        }
        let active: u64 = self.active_elapsed(now);
        let mut recent: Option<Stretch> = None;
        let mut fresh: bool = true;
        if let Some(s) = self.last_sample {
            if done > s.done {
                let passed: u64 = now.saturating_sub(s.at);
                if passed >= SHORTEST_SAMPLE {
                    recent = Some(Stretch { objects: done - s.done, nanoseconds: passed });
                }
            } else {
                fresh = false;
            }
        }
        if fresh {
            self.last_sample = Some(Sample { at: now, done });
        }
        self.last_progress = Some(now);
        let overall: Option<Stretch> = if done == 0 || active < SECOND {
            None
        } else {
            Some(Stretch { objects: done, nanoseconds: active })
        };
        Observation { recent, overall, left: total - done }
    }
}

/// A wait for a decision, however long, does not count as time spent on deleting.
pub proof fn law_waiting_is_not_counted(eta: DeleteEta, a: u64, b: u64, later: u64)
    requires
        eta.paused_at is None,
        eta.started <= a <= b,
        a - eta.started >= eta.paused_total,
        b + (later - a) <= u64::MAX,
        a <= later,
    ensures
        ({
            let paused = DeleteEta { paused_at: Some(a), ..eta };
            let resumed = DeleteEta {
                paused_at: None,
                paused_total: (eta.paused_total + (b - a)) as u64,
                last_sample: None,
                last_progress: Some(b),
                ..eta
            };
            &&& paused.active(b) == eta.active(a)
            &&& resumed.active((b + (later - a)) as u64) == eta.active(later)
        }),
{
}

/// A time in words: less than ten seconds, or so many times five.
pub open spec fn duration_text(fives: nat) -> Seq<char> {
    let s = fives * 5;
    if s < 10 {
        "<10s"@
    } else if s >= 86400 {
        ">"@ + text::decimal_of(s / 86400) + "d"@
    } else if s >= 3600 {
        text::decimal_of(s / 3600) + "h "@ + text::decimal_of(s % 3600 / 60) + "m"@
    } else if s >= 60 {
        text::decimal_of(s / 60) + "m "@ + text::decimal_of(s % 60) + "s"@
    } else {
        text::decimal_of(s) + "s"@
    }
}

pub fn duration_label(fives: u64) -> (r: String)
    requires
        fives <= u64::MAX / 5,
    ensures
        r@ == duration_text(fives as nat),
{
    let s: u64 = fives * 5;
    if s < 10 {
        "<10s".to_owned()
    } else if s >= 86400 {
        glue(&glue(">", &decimal(s / 86400)), "d")
    } else if s >= 3600 {
        let head: String = glue(&decimal(s / 3600), "h ");
        glue(&glue(&head, &decimal(s % 3600 / 60)), "m")
    } else if s >= 60 {
        let head: String = glue(&decimal(s / 60), "m ");
        glue(&glue(&head, &decimal(s % 60)), "s")
    } else {
        glue(&decimal(s), "s")
    }
}

/// The time that a run was at work: what has passed since it started, but for the waits. It
/// stands still during a wait.
pub proof fn law_work_is_time_without_waits(eta: DeleteEta, now: u64)
    requires
        eta.started <= now,
    ensures
        eta.paused_at is None && now - eta.started >= eta.paused_total ==> eta.active(now) == now
            - eta.started - eta.paused_total,
        eta.paused_at is Some ==> forall|later: u64| #[trigger] eta.active(later) == eta.active(now),
        eta.paused_at is None ==> eta.active(now) <= now - eta.started,
{
}

/// The recent pace is what was done since the last sample and the time that took, once that
/// is four tenths of a second and anything was done.
pub proof fn law_pace_is_measured_since_the_last_sample(eta: DeleteEta, now: u64, done: u64)
    ensures
        eta.pace(now, done) is Some <==> eta.last_sample is Some && done > eta.last_sample->0.done
            && now >= eta.last_sample->0.at && now - eta.last_sample->0.at >= 400_000_000,
        eta.pace(now, done) is Some ==> eta.pace(now, done)->0.objects == done
            - eta.last_sample->0.done && eta.pace(now, done)->0.nanoseconds == now
            - eta.last_sample->0.at,
{
}

/// A remaining time is told in the two largest units it fills.
pub proof fn law_durations_are_told_in_large_units(fives: nat)
    ensures
        ({
            let s = fives * 5;
            &&& s < 10 ==> duration_text(fives) == "<10s"@
            &&& 10 <= s < 60 ==> duration_text(fives) == text::decimal_of(s) + "s"@
            &&& 60 <= s < 3600 ==> exists|m: nat, r: nat|
                m * 60 + r == s && r < 60 && duration_text(fives) == #[trigger] text::decimal_of(m)
                    + "m "@ + #[trigger] text::decimal_of(r) + "s"@
            &&& 3600 <= s < 86400 ==> exists|h: nat, m: nat|
                h * 3600 + m * 60 <= s < h * 3600 + m * 60 + 60 && m < 60 && duration_text(fives)
                    == #[trigger] text::decimal_of(h) + "h "@ + #[trigger] text::decimal_of(m)
                    + "m"@
            &&& 86400 <= s ==> exists|d: nat|
                d * 86400 <= s < (d + 1) * 86400 && duration_text(fives) == ">"@
                    + #[trigger] text::decimal_of(d) + "d"@
        }),
{
    let s = fives * 5;
    if 60 <= s < 3600 {
        let m = s / 60;
        let r = s % 60;
        assert(m * 60 + r == s && duration_text(fives) == text::decimal_of(m) + "m "@
            + text::decimal_of(r) + "s"@);
    } else if 3600 <= s < 86400 {
        let h = s / 3600;
        let m = s % 3600 / 60;
        assert(h * 3600 + m * 60 <= s && duration_text(fives) == text::decimal_of(h) + "h "@
            + text::decimal_of(m) + "m"@);
    } else if 86400 <= s {
        let d = s / 86400;
        assert(duration_text(fives) == ">"@ + text::decimal_of(d) + "d"@);
    }
}

/// A remaining time is told only while a run is at work and something is left.
pub proof fn law_time_is_told_only_at_work(eta: DeleteEta, done: u64, total: u64)
    ensures
        eta.counts(done, total) <==> eta.paused_at is None && done < total,
{
}

} // verus!
