//! What is known of one child of the directory that is listed.

use vstd::prelude::*;

verus! {

/// The two kinds of rows.
#[derive(Clone, Copy, Debug, PartialEq, Eq, Structural)]
pub enum FileType {
    Directory,
    File,
}

/// A point in time as whole seconds since the Unix epoch, negative before
/// it, and the nanoseconds that follow that second.
#[derive(Clone, Copy, Debug, PartialEq, Eq, Structural)]
pub struct Timestamp {
    pub secs: i64,
    pub nanos: u32,
}

/// The number of nanoseconds in a second.
pub const NANOS_PER_SEC: u32 = 1_000_000_000;

impl Timestamp {
    /// The nanoseconds stay within one second.
    pub open spec fn well_formed(self) -> bool {
        self.nanos < NANOS_PER_SEC
    }

    /// The point in time in nanoseconds since the epoch.
    pub open spec fn instant(self) -> int {
        self.secs * NANOS_PER_SEC + self.nanos
    }

    /// The point in time, in nanoseconds since the epoch, that lies `secs`
    /// seconds and `nanos` nanoseconds before or after the epoch.
    pub open spec fn signed_distance(before_epoch: bool, secs: u64, nanos: u32) -> int {
        if before_epoch {
            -(secs * NANOS_PER_SEC + nanos)
        } else {
            secs * NANOS_PER_SEC + nanos
        }
    }

    /// Whether a timestamp can hold the point in time.
    pub open spec fn representable(instant: int) -> bool {
        i64::MIN * NANOS_PER_SEC <= instant < (i64::MAX + 1) * NANOS_PER_SEC
    }

    /// The point in time at a distance from the epoch, as a file system
    /// reports it: a number of seconds and nanoseconds, and the side of the
    /// epoch on which it lies. Before the epoch the seconds are rounded
    /// down and the nanoseconds count up from there, so that half a second
    /// before the epoch is the second `-1` and five hundred million
    /// nanoseconds. `None` where the seconds do not fit.
    pub fn from_epoch_distance(before_epoch: bool, secs: u64, nanos: u32) -> (r: Option<Timestamp>)
        ensures
            r is Some <==> Self::representable(Self::signed_distance(before_epoch, secs, nanos)),
            r is Some ==> r->0.well_formed() && r->0.instant() == Self::signed_distance(
                before_epoch,
                secs,
                nanos,
            ),
    {
        let total: u128 = (secs as u128) * 1_000_000_000 + (nanos as u128);
        let whole: u128 = total / 1_000_000_000;
        let rest: u128 = total % 1_000_000_000;
        let limit: u128 = 0x8000_0000_0000_0000;
        if !before_epoch {
            if whole >= limit {
                None
            } else {
                Some(Timestamp { secs: whole as i64, nanos: rest as u32 })
            }
        } else if rest == 0 {
            if whole > limit {
                None
            } else if whole == limit {
                Some(Timestamp { secs: i64::MIN, nanos: 0 })
            } else {
                Some(Timestamp { secs: -(whole as i64), nanos: 0 })
            }
        } else {
            if whole >= limit {
                None
            } else {
                Some(Timestamp { secs: -(whole as i64) - 1, nanos: (1_000_000_000 - rest) as u32 })
            }
        }
    }
}

/// One child of a directory: its name and the metadata that a listing
/// shows. `size_text` is `size_bytes` in the form in which people read
/// sizes; whoever lists the directory supplies it.
#[derive(Debug)]
pub struct Entry {
    pub filename: String,
    pub is_directory: bool,
    pub size_bytes: u64,
    pub size_text: String,
    pub modified_at: Timestamp,
}

/// An entry as contracts see it.
pub struct EntryView {
    pub filename: Seq<char>,
    pub is_directory: bool,
    pub size_bytes: u64,
    pub size_text: Seq<char>,
    pub modified_at: Timestamp,
}

impl View for Entry {
    type V = EntryView;

    open spec fn view(&self) -> EntryView {
        EntryView {
            filename: self.filename@,
            is_directory: self.is_directory,
            size_bytes: self.size_bytes,
            size_text: self.size_text@,
            modified_at: self.modified_at,
        }
    }
}

impl DeepView for Entry {
    type V = EntryView;

    open spec fn deep_view(&self) -> EntryView {
        self@
    }
}

} // verus!
