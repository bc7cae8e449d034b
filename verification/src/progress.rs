//! Progress of a long operation: the stage it is in and how many blocks and
//! bytes are done.

use crate::text::{decimal, decimal_filled, push_decimal, push_decimal_filled};
use vstd::prelude::*;

verus! {

/// Counters of a long operation. A disabled progress keeps counting but
/// neither takes a stage name nor runs.
#[derive(Debug)]
pub struct Progress {
    pub enabled: bool,
    pub stage: String,
    pub blocks_done: usize,
    pub blocks_total: usize,
    pub bytes_done: usize,
    pub bytes_total: usize,
    pub running: bool,
}

/// The sum of two counters, wrapping around at the end of the machine word.
pub open spec fn wrapped_sum(a: usize, b: usize) -> usize {
    if a + b > usize::MAX {
        (a + b - usize::MAX - 1) as usize
    } else {
        (a + b) as usize
    }
}

/// The share of `done` in `total` in whole percent, rounded down: 0 where the
/// total is 0, and no more than the largest 32-bit signed number.
pub open spec fn percent_of(done: int, total: int) -> int {
    if total > 0 {
        if done * 100 / total > 0x7fff_ffff {
            0x7fff_ffff
        } else {
            done * 100 / total
        }
    } else {
        0
    }
}

impl Progress {
    /// A progress with an empty stage name and all counters at zero, not
    /// running.
    pub fn new(enabled: bool) -> (p: Progress)
        ensures
            p.enabled == enabled,
            !p.running,
            p.stage@.len() == 0,
            p.blocks_done == 0,
            p.blocks_total == 0,
            p.bytes_done == 0,
            p.bytes_total == 0,
    {
        Progress {
            enabled,
            stage: String::new(),
            blocks_done: 0,
            blocks_total: 0,
            bytes_done: 0,
            bytes_total: 0,
            running: false,
        }
    }

    /// Names the stage, if the progress is enabled.
    pub fn set_stage(&mut self, s: &str)
        ensures
            final(self).stage@ == (if old(self).enabled {
                s@
            } else {
                old(self).stage@
            }),
            final(self).enabled == old(self).enabled,
            final(self).running == old(self).running,
            final(self).blocks_done == old(self).blocks_done,
            final(self).blocks_total == old(self).blocks_total,
            final(self).bytes_done == old(self).bytes_done,
            final(self).bytes_total == old(self).bytes_total,
    {
        if self.enabled {
            self.stage = s.to_owned();
        }
    }

    /// Sets the number of blocks to do.
    pub fn set_blocks_total(&mut self, n: usize)
        ensures
            final(self).blocks_total == n,
            final(self).enabled == old(self).enabled,
            final(self).running == old(self).running,
            final(self).stage@ == old(self).stage@,
            final(self).blocks_done == old(self).blocks_done,
            final(self).bytes_done == old(self).bytes_done,
            final(self).bytes_total == old(self).bytes_total,
    {
        self.blocks_total = n;
    }

    /// Counts one more block as done.
    pub fn inc_block(&mut self)
        ensures
            final(self).blocks_done == wrapped_sum(old(self).blocks_done, 1),
            final(self).enabled == old(self).enabled,
            final(self).running == old(self).running,
            final(self).stage@ == old(self).stage@,
            final(self).blocks_total == old(self).blocks_total,
            final(self).bytes_done == old(self).bytes_done,
            final(self).bytes_total == old(self).bytes_total,
    {
        self.blocks_done = if self.blocks_done == usize::MAX {
            0
        } else {
            self.blocks_done + 1
        };
    }

    /// Sets the number of bytes to do and starts counting them from zero.
    pub fn reset_bytes(&mut self, total: usize)
        ensures
            final(self).bytes_total == total,
            final(self).bytes_done == 0,
            final(self).enabled == old(self).enabled,
            final(self).running == old(self).running,
            final(self).stage@ == old(self).stage@,
            final(self).blocks_done == old(self).blocks_done,
            final(self).blocks_total == old(self).blocks_total,
    {
        self.bytes_total = total;
        self.bytes_done = 0;
    }

    /// Counts `n` more bytes as done.
    pub fn add_bytes(&mut self, n: usize)
        ensures
            final(self).bytes_done == wrapped_sum(old(self).bytes_done, n),
            final(self).enabled == old(self).enabled,
            final(self).running == old(self).running,
            final(self).stage@ == old(self).stage@,
            final(self).blocks_done == old(self).blocks_done,
            final(self).blocks_total == old(self).blocks_total,
            final(self).bytes_total == old(self).bytes_total,
    {
        let room: usize = usize::MAX - self.bytes_done;
        self.bytes_done = if n > room {
            n - room - 1
        } else {
            self.bytes_done + n
        };
    }

    /// Marks the progress as running, if it is enabled. Tells whether it now
    /// runs, that is, whether the caller should report it from time to time.
    pub fn start(&mut self) -> (run: bool)
        ensures
            run == old(self).enabled,
            final(self).running == (old(self).enabled || old(self).running),
            final(self).enabled == old(self).enabled,
            final(self).stage@ == old(self).stage@,
            final(self).blocks_done == old(self).blocks_done,
            final(self).blocks_total == old(self).blocks_total,
            final(self).bytes_done == old(self).bytes_done,
            final(self).bytes_total == old(self).bytes_total,
    {
        if self.enabled {
            self.running = true;
        }
        self.enabled
    }

    /// Marks the progress as stopped, if it is enabled.
    pub fn stop(&mut self)
        ensures
            final(self).running == (old(self).running && !old(self).enabled),
            final(self).enabled == old(self).enabled,
            final(self).stage@ == old(self).stage@,
            final(self).blocks_done == old(self).blocks_done,
            final(self).blocks_total == old(self).blocks_total,
            final(self).bytes_done == old(self).bytes_done,
            final(self).bytes_total == old(self).bytes_total,
    {
        if self.enabled {
            self.running = false;
        }
    }

    /// The share of the bytes that are done, in whole percent.
    pub fn bytes_percent(&self) -> (p: u32)
        ensures
            p == percent_of(self.bytes_done as int, self.bytes_total as int),
    {
        if self.bytes_total > 0 {
            let done: u128 = self.bytes_done as u128;
            assert(done * 100 <= 0xffff_ffff_ffff_ffff * 100) by (nonlinear_arith)
                requires
                    0 <= done <= 0xffff_ffff_ffff_ffff,
            ;
            let pct: u128 = done * 100 / (self.bytes_total as u128);
            if pct > 0x7fff_ffff {
                0x7fff_ffff
            } else {
                pct as u32
            }
        } else {
            0
        }
    }

    /// The line that reports the progress after `elapsed_secs` seconds: the
    /// seconds right-aligned in four places, the stage, the blocks done and
    /// to do, and the share of the bytes done.
    pub open spec fn line_of(&self, elapsed_secs: nat) -> Seq<char> {
        "["@ + decimal_filled(elapsed_secs, 4, ' ') + "s] "@ + self.stage@ + " | stripes "@
            + decimal(self.blocks_done as nat) + "/"@ + decimal(self.blocks_total as nat)
            + " | bytes "@ + decimal(
            percent_of(self.bytes_done as int, self.bytes_total as int) as nat,
        ) + "%"@
    }

    /// The line that reports the progress after `elapsed_secs` seconds.
    pub fn report_line(&self, elapsed_secs: usize) -> (line: String)
        ensures
            line@ == self.line_of(elapsed_secs as nat),
    {
        let mut line = String::from_str("[");
        push_decimal_filled(&mut line, elapsed_secs, 4, ' ');
        line.append("s] ");
        line.append(self.stage.as_str());
        line.append(" | stripes ");
        push_decimal(&mut line, self.blocks_done);
        line.append("/");
        push_decimal(&mut line, self.blocks_total);
        line.append(" | bytes ");
        let pct: u32 = self.bytes_percent();
        push_decimal(&mut line, pct as usize);
        line.append("%");
        line
    }
}

} // verus!
