//! The earlier form of a report: its parts as plain values.

use vstd::prelude::*;

verus! {

/// A part of a report that is kept once, however often it is put in: what is
/// put in again is merged into what is kept.
pub trait SetEntry {
    fn merge(&mut self, other: Self) where Self: Sized;
}

/// A severity level for a notification
#[derive(Clone, Copy, Debug, PartialEq, PartialOrd, Eq, Ord, Hash, Structural)]
pub enum Level {
    Fatal,
    Error,
    Warning,
    Info,
    Debug,
}

impl Default for Level {
    fn default() -> (level: Self)
        ensures
            level == Level::Info,
    {
        Self::Info
    }
}

/// A non-exlusive single region of bytes
#[derive(Clone, Copy, Debug, PartialEq, PartialOrd, Eq, Ord, Hash, Structural)]
pub struct Byterange {
    /// Start offset
    pub start: usize,
    /// End offset
    pub end: usize,
}

impl Default for Byterange {
    fn default() -> (range: Self)
        ensures
            range.start == 0,
            range.end == 0,
    {
        Self { start: 0, end: 0 }
    }
}

/// A notification that is displayed when dependencies are not met
#[derive(Clone, Debug, PartialEq, PartialOrd, Eq, Ord, Hash)]
pub struct Notification {
    /// The title of the notification
    pub title: Option<String>,
    /// The description of the notification
    pub message: Option<String>,
    /// The severity level of the notification
    pub level: Level,
}

impl SetEntry for Notification {
    /// Two notifications under one key are the same notification: what is
    /// kept stays as it is.
    fn merge(&mut self, other: Self)
        ensures
            *final(self) == *old(self),
    {
    }
}

} // verus!
