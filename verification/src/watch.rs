//! The events that a watch reports.

use inotify::EventMask;
use vstd::prelude::*;

verus! {

/// The attributes of the directory have changed.
pub const ATTRIB: u32 = 0x0000_0004;

/// The directory has been deleted.
pub const DELETE_SELF: u32 = 0x0000_0400;

/// The queue of events has overflowed, and events were lost.
pub const Q_OVERFLOW: u32 = 0x0000_4000;

/// The watch has been removed.
pub const IGNORED: u32 = 0x0000_8000;

/// The directory has been deleted, or the watch has been removed.
pub const REMOVED: u32 = DELETE_SELF | IGNORED;

/// An event: which watch reports it, and the bits that say what has happened.
#[derive(Clone, Copy, Debug, Eq, PartialEq, Structural)]
pub struct WatchEvent {
    pub watch: i32,
    pub mask: u32,
}

/// Whether all of the bits are in a mask.
pub open spec fn has(mask: u32, bits: u32) -> bool {
    mask & bits == bits
}

/// Whether any of the bits is in a mask.
pub open spec fn meets(mask: u32, bits: u32) -> bool {
    mask & bits != 0
}

/// Calls `inotify::EventMask::contains`: all the bits of the second mask are in the
/// first one. `EventMask::from_bits_retain` turns both into masks, with bits that have
/// no name kept.
#[verifier::external_body]
pub(crate) fn mask_contains(mask: u32, bits: u32) -> (contained: bool)
    ensures
        contained == has(mask, bits),
{
    EventMask::from_bits_retain(mask).contains(EventMask::from_bits_retain(bits))
}

/// Calls `inotify::EventMask::intersects`: the two masks have a bit in common.
/// `EventMask::from_bits_retain` turns both into masks, with bits that have no name
/// kept.
#[verifier::external_body]
pub(crate) fn mask_intersects(mask: u32, bits: u32) -> (common: bool)
    ensures
        common == meets(mask, bits),
{
    EventMask::from_bits_retain(mask).intersects(EventMask::from_bits_retain(bits))
}

}
