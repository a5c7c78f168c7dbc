//! When and how the log file gives way to a new one.

use crate::text::{decimal, to_decimal};
use vstd::prelude::*;

verus! {

/// A log file has at most this many bytes, unless one line has more: 10 MiB.
pub const MAX_LOG_SIZE: u64 = 10485760;

/// As many log files are kept: the current one and those before it.
pub const MAX_LOG_FILES: usize = 3;

/// The size of the current log file.
#[derive(Debug, Clone, Copy, Eq, PartialEq, Structural)]
pub struct LogSize {
    pub current: u64,
}

impl LogSize {
    /// The size of a file that was opened.
    pub fn opened(size: u64) -> (r: LogSize)
        ensures
            r.current == size,
    {
        LogSize { current: size }
    }

    /// Whether a new file is opened before `len` bytes are written.
    pub fn needs_rotation(&self, len: usize) -> (r: bool)
        ensures
            r == (self.current + len > MAX_LOG_SIZE),
    {
        self.current > MAX_LOG_SIZE || len as u64 > MAX_LOG_SIZE - self.current
    }

    /// Notes that bytes were written.
    pub fn wrote(&mut self, n: usize)
        requires
            old(self).current + n <= u64::MAX,
        ensures
            final(self).current == old(self).current + n,
    {
        self.current = self.current + n as u64;
    }
}

/// What is done to the log files. The current one has number zero, the one before it number
/// one, and so on. What concerns a file that is not there is left out.
#[derive(Debug, Clone, Copy, Eq, PartialEq, Structural)]
pub enum RotateStep {
    /// Remove a file.
    Remove(usize),
    /// Give a file another number.
    Rename(usize, usize),
}

/// The log files by their number, and what they hold.
pub type LogFiles = Map<int, Seq<u8>>;

/// The log files after a step.
pub open spec fn after_step(files: LogFiles, step: RotateStep) -> LogFiles {
    match step {
        RotateStep::Remove(i) => files.remove(i as int),
        RotateStep::Rename(i, j) => if files.contains_key(i as int) {
            files.insert(j as int, files[i as int]).remove(i as int)
        } else {
            files
        },
    }
}

/// The log files after some steps.
pub open spec fn after_steps(files: LogFiles, steps: Seq<RotateStep>) -> LogFiles
    decreases steps.len(),
{
    if steps.len() == 0 {
        files
    } else {
        after_step(after_steps(files, steps.drop_last()), steps.last())
    }
}

/// Every file moves up by one: the oldest goes, and there is no current one.
pub open spec fn moved_up(files: LogFiles) -> LogFiles {
    Map::new(
        |i: int| 0 < i && i < MAX_LOG_FILES && files.contains_key(i - 1),
        |i: int| files[i - 1],
    )
}

/// The steps by which the log files move up: the oldest is removed, and the others are renamed
/// from the back.
pub open spec fn spec_rotation_steps() -> Seq<RotateStep> {
    seq![RotateStep::Remove(2), RotateStep::Rename(1, 2), RotateStep::Rename(0, 1)]
}

/// Returns the steps by which the log files move up.
pub fn rotation_steps() -> (r: Vec<RotateStep>)
    ensures
        r@ == spec_rotation_steps(),
{
    let mut steps: Vec<RotateStep> = Vec::new();
    steps.push(RotateStep::Remove(MAX_LOG_FILES - 1));
    let mut i: usize = MAX_LOG_FILES - 2;
    while i > 0
        invariant
            i <= 1,
            steps@ == if i == 1 {
                seq![RotateStep::Remove(2)]
            } else {
                seq![RotateStep::Remove(2), RotateStep::Rename(1, 2)]
            },
        decreases i,
    {
        steps.push(RotateStep::Rename(i, i + 1));
        i = i - 1;
    }
    steps.push(RotateStep::Rename(0, 1));
    assert(steps@ =~= spec_rotation_steps());
    steps
}

/// A rotation keeps the newest files, one number higher, loses only the oldest, and leaves no
/// current file; so there are never more than three.
pub proof fn law_rotation_moves_files_up(files: LogFiles)
    requires
        forall|i: int| #[trigger] files.contains_key(i) ==> 0 <= i < MAX_LOG_FILES,
    ensures
        after_steps(files, spec_rotation_steps()) == moved_up(files),
{
    let steps = spec_rotation_steps();
    reveal_with_fuel(after_steps, 4);
    assert(steps.drop_last() =~= seq![RotateStep::Remove(2), RotateStep::Rename(1, 2)]);
    assert(steps.drop_last().drop_last() =~= seq![RotateStep::Remove(2)]);
    assert(steps.drop_last().drop_last().drop_last() =~= Seq::<RotateStep>::empty());
    let a = after_step(files, RotateStep::Remove(2));
    let b = after_step(a, RotateStep::Rename(1, 2));
    let c = after_step(b, RotateStep::Rename(0, 1));
    assert(after_steps(files, steps) == c);
    assert forall|i: int| c.contains_key(i) <==> moved_up(files).contains_key(i) by {
        if files.contains_key(i) {
        }
        if files.contains_key(i - 1) {
        }
    }
    assert(c =~= moved_up(files));
}

/// A log file stays within the limit, as long as no single write exceeds it: a write goes to
/// the current file where it fits, and else to a new one.
pub proof fn law_log_stays_within_limit(current: u64, len: usize)
    requires
        len <= MAX_LOG_SIZE,
    ensures
        ({
            let start = if current + len > MAX_LOG_SIZE {
                0
            } else {
                current
            };
            start + len <= MAX_LOG_SIZE
        }),
{
}

/// The name of a log file with a number.
pub fn rotated_name(file_name: &str, index: usize) -> (r: String)
    ensures
        r@ == file_name@ + "."@ + decimal(index as nat),
{
    let mut name: String = file_name.to_owned();
    name.append(".");
    let n: String = to_decimal(index as u64);
    name.append(n.as_str());
    name
}

/// A rotation gives each file the next number and drops the oldest, so that the new log starts
/// empty and nothing of the newer ones is lost or changed.
pub proof fn law_rotation_keeps_the_newer_files(
    files: LogFiles,
    steps: Vec<RotateStep>,
    i: int,
)
    requires
        forall|k: int| #[trigger] files.contains_key(k) ==> 0 <= k < 3,
        call_ensures(rotation_steps, (), steps),
    ensures
        ({
            let after = after_steps(files, steps@);
            &&& !after.contains_key(0)
            &&& after.contains_key(i + 1) <==> 0 <= i < 2 && files.contains_key(i)
            &&& after.contains_key(i + 1) ==> after[i + 1] == files[i]
        }),
{
    law_rotation_moves_files_up(files);
}

/// A log never grows beyond its limit by writes that are smaller than it: before a write that would
/// not fit, a new file is opened, and only then.
pub proof fn law_log_rotates_before_it_is_too_large(
    at: &LogSize,
    len: usize,
    rotate: bool,
    empty: LogSize,
    size: &mut LogSize,
)
    requires
        len <= 10485760,
        call_ensures(LogSize::needs_rotation, (at, len), rotate),
        call_ensures(LogSize::opened, (0u64,), empty),
        *old(size) == if rotate {
            empty
        } else {
            *at
        },
        call_ensures(LogSize::wrote, (size, len), ()),
    ensures
        final(size).current <= 10485760,
        rotate <==> at.current + len > 10485760,
        rotate ==> final(size).current == len,
        !rotate ==> final(size).current == at.current + len,
{
    assert(call_requires(LogSize::wrote, (size, len)));
}

} // verus!
