use disk_cleaner::eta::{duration_label, DeleteEta, Observation, Stretch, SECOND};

/// The estimate as the window shows it, from what an observation tells.
struct Estimate {
    eta: DeleteEta,
    recent_rate: Option<f64>,
}

fn rate(s: Stretch) -> f64 {
    s.objects as f64 / (s.nanoseconds as f64 / SECOND as f64)
}

impl Estimate {
    fn new(now: u64) -> Self {
        Estimate {
            eta: DeleteEta::new(now),
            recent_rate: None,
        }
    }

    fn observe(&mut self, now: u64, done: u64, total: u64) -> String {
        let seen = self.eta.observe(now, done, total);
        if let Some(sample) = seen.recent.map(rate) {
            self.recent_rate = Some(match self.recent_rate {
                Some(old) => 0.7 * old + 0.3 * sample,
                None => sample,
            });
        }
        let Some(overall) = seen.overall else {
            return String::new();
        };
        let average = rate(overall);
        let expected = match self.recent_rate {
            Some(recent) => 0.7 * average + 0.3 * recent.clamp(average / 3.0, average * 3.0),
            None => average,
        };
        let seconds = seen.left as f64 / expected;
        if !seconds.is_finite() || seconds <= 0.0 {
            return String::new();
        }
        if seconds < 10.0 {
            return duration_label(0);
        }
        duration_label((seconds / 5.0).ceil() as u64)
    }
}

#[test]
fn estimate_after_progress() {
    let start = 0;
    let mut eta = Estimate::new(start);
    assert_eq!(eta.observe(start, 0, 100), "");
    assert_eq!(eta.observe(start + 2 * SECOND, 10, 100), "20s");
    assert_eq!(eta.observe(start + 4 * SECOND, 20, 100), "20s");
}

#[test]
fn lock_wait_does_not_extend_eta() {
    let start = 0;
    let mut eta = Estimate::new(start);
    eta.observe(start + 2 * SECOND, 10, 100);
    eta.eta.pause(start + 2 * SECOND);
    assert_eq!(eta.observe(start + 62 * SECOND, 10, 100), "");
    eta.eta.resume(start + 62 * SECOND);
    let label = eta.observe(start + 64 * SECOND, 20, 100);
    assert_eq!(label, "20s");
}

#[test]
fn stalled_and_short_jobs_do_not_promise_a_countdown() {
    let start = 0;
    let mut eta = Estimate::new(start);
    assert!(!eta.eta.is_stalled(start + 10 * SECOND));
    eta.observe(start + SECOND, 1, 2);
    assert!(eta.eta.is_stalled(start + 7 * SECOND));
    eta.eta.pause(start + 7 * SECOND);
    assert!(!eta.eta.is_stalled(start + 8 * SECOND));
}

#[test]
fn observations_tell_both_paces() {
    let mut eta = DeleteEta::new(10 * SECOND);
    let nothing = Observation {
        recent: None,
        overall: None,
        left: 0,
    };
    assert_eq!(eta.observe(11 * SECOND, 5, 5), nothing);
    assert_eq!(eta.observe(11 * SECOND, 0, 0), nothing);
    assert_eq!(eta.last_sample, None);
    assert_eq!(
        eta.observe(12 * SECOND, 4, 10),
        Observation {
            recent: None,
            overall: Some(Stretch {
                objects: 4,
                nanoseconds: 2 * SECOND,
            }),
            left: 6,
        }
    );
    let early = eta.observe(12 * SECOND + 300_000_000, 5, 10);
    assert_eq!(early.recent, None);
    let told = eta.observe(13 * SECOND, 7, 10);
    assert_eq!(
        told.recent,
        Some(Stretch {
            objects: 2,
            nanoseconds: 700_000_000,
        })
    );
    assert_eq!(eta.active_elapsed(20 * SECOND), 10 * SECOND);
}

#[test]
fn durations_are_rough() {
    assert_eq!(duration_label(1), "<10s");
    assert_eq!(duration_label(2), "10s");
    assert_eq!(duration_label(13), "1m 5s");
    assert_eq!(duration_label(726), "1h 0m");
    assert_eq!(duration_label(40000), ">2d");
}
