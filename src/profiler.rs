use vstd::prelude::*;

verus! {

/// Relies on time::precise_time_ns: a reading, in nanoseconds, of a
/// high-resolution counter since an unspecified epoch. Nothing is promised of
/// the value, not even that it grows.
#[verifier::external_body]
fn precise_now() -> (r: u64) {
    time::precise_time_ns()
}

/// Measures how long a stretch of work takes: time counts while the profiler
/// runs, and adds up over several runs.
pub struct Profiler {
    /// Nanoseconds counted in finished runs.
    duration: u64,
    /// The counter reading when the current run began, if one is going on.
    timer: Option<u64>,
}

impl Profiler {
    /// Nanoseconds counted so far in finished runs.
    pub closed spec fn spec_duration(&self) -> u64 {
        self.duration
    }

    pub closed spec fn spec_running(&self) -> bool {
        self.timer.is_some()
    }

    /// A profiler that has counted nothing, running when `start` holds.
    pub fn new(start: bool) -> (p: Profiler)
        ensures
            p.spec_duration() == 0,
            p.spec_running() == start,
    {
        let mut profiler = Profiler { duration: 0, timer: None };
        if start {
            profiler.start();
        }
        profiler
    }

    /// Whether the profiler is running.
    pub fn running(&self) -> (r: bool)
        ensures
            r == self.spec_running(),
    {
        self.timer.is_some()
    }

    /// Start a run; a profiler that runs already goes on as it was.
    pub fn start(&mut self)
        ensures
            final(self).spec_running(),
            final(self).spec_duration() == old(self).spec_duration(),
            old(self).spec_running() ==> *final(self) == *old(self),
    {
        if self.timer.is_none() {
            self.timer = Some(precise_now());
        }
    }

    /// End the current run, adding its time to the total; the total stops at
    /// `u64::MAX`, and a counter that went back adds nothing. A profiler that
    /// does not run is left as it is.
    pub fn stop(&mut self)
        ensures
            !final(self).spec_running(),
            final(self).spec_duration() >= old(self).spec_duration(),
            !old(self).spec_running() ==> *final(self) == *old(self),
    {
        match self.timer.take() {
            Some(begin) => {
                let now = precise_now();
                let elapsed: u64 = if now >= begin { now - begin } else { 0 };
                self.duration = if elapsed <= u64::MAX - self.duration {
                    self.duration + elapsed
                } else {
                    u64::MAX
                };
            },
            None => {},
        }
    }

    /// The total counted, in nanoseconds, including the current run so far; a
    /// running profiler goes on running.
    pub fn duration(&mut self) -> (d: u64)
        ensures
            d == final(self).spec_duration(),
            d >= old(self).spec_duration(),
            final(self).spec_running() == old(self).spec_running(),
            !old(self).spec_running() ==> *final(self) == *old(self),
    {
        if self.running() {
            self.stop();
            self.start();
        }
        self.duration
    }
}

} // verus!
