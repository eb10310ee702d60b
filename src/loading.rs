//! The data behind the progress display: spinner frames and status labels.
use vstd::prelude::*;

verus! {

/// Animation frames shown in turn, and the pause between two of them in milliseconds.
pub struct Spinner {
    pub index: usize,
    pub frames: Vec<&'static str>,
    pub interval_ms: u64,
}

impl Spinner {
    /// A spinner over `frames`, starting at the first, 80 ms apart.
    pub fn new(frames: Vec<&'static str>) -> (r: Spinner)
        ensures
            r.index == 0,
            r.frames@ == frames@,
            r.interval_ms == 80,
    {
        Spinner { index: 0, frames, interval_ms: 80 }
    }

    /// Changes the pause between two frames.
    pub fn interval(&mut self, interval_ms: u64)
        ensures
            final(self).interval_ms == interval_ms,
            final(self).index == old(self).index,
            final(self).frames@ == old(self).frames@,
    {
        self.interval_ms = interval_ms;
    }

    /// The current frame, moving on to the next; after the last frame the first comes again.
    pub fn next(&mut self) -> (r: &'static str)
        requires
            old(self).frames@.len() > 0,
        ensures
            old(self).index < old(self).frames@.len() ==> r == old(self).frames@[old(self).index as int]
                && final(self).index == old(self).index + 1,
            old(self).index >= old(self).frames@.len() ==> r == old(self).frames@[0] && final(self).index
                == 1,
            final(self).frames@ == old(self).frames@,
            final(self).interval_ms == old(self).interval_ms,
    {
        if self.index < self.frames.len() {
            let s = self.frames[self.index];
            self.index = self.index + 1;
            s
        } else {
            self.index = 1;
            self.frames[0]
        }
    }
}

/// How a finished line of the progress display ended.
pub enum Status {
    Success,
    Fail,
    Warn,
    Info,
    Debug,
}

impl Status {
    /// The coloured marker printed before a finished line.
    pub fn as_str(&self) -> (r: &'static str)
        ensures
            r@ == match self {
                Status::Success => "\x1B[92m+\x1B[0m"@,
                Status::Fail => "\x1B[91mFAIL\x1B[0m"@,
                Status::Warn => "\x1B[93m!\x1B[0m"@,
                Status::Info => "\x1B[94m*\x1B[0m"@,
                Status::Debug => "\x1B[90m \x1B[0m"@,
            },
    {
        match self {
            Status::Success => "\x1B[92m+\x1B[0m",
            Status::Fail => "\x1B[91mFAIL\x1B[0m",
            Status::Warn => "\x1B[93m!\x1B[0m",
            Status::Info => "\x1B[94m*\x1B[0m",
            Status::Debug => "\x1B[90m \x1B[0m",
        }
    }
}

} // verus!
