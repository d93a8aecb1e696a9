//! Is that server actually up? A TCP connect to the database's own port, in
//! the background, so the Connections list can say "up" or "down" before you
//! press Enter. A green dot means something is listening on that port, not
//! that your password is right. The sockets and threads live outside; here are
//! the values they report and the limits they keep.

use vstd::prelude::*;

verus! {

/// How many servers are probed at once, so a long list does not open a
/// hundred sockets at the same time.
pub const BATCH: usize = 8;

/// What is known about one server's port right now.
#[derive(Clone, Copy, PartialEq, Eq, Debug, Structural)]
pub enum Reach {
    /// A probe is in flight.
    Probing,
    /// The port accepted a connection, in this many milliseconds.
    Up(u64),
    /// Refused, unroutable, unresolvable or slower than the deadline.
    Down,
}

/// One probe's answer, tagged with the round that asked for it, so answers
/// from a superseded round are discarded rather than repainting a stale list.
pub struct Msg {
    pub key: String,
    pub generation: u64,
    pub reach: Reach,
}

/// A server to probe: the connection key reported under, and its address.
pub struct Target {
    pub key: String,
    pub host: String,
    pub port: u16,
}

/// The deadline for one connect, in seconds: the setting, kept between one
/// second and a minute.
pub fn timeout_secs(setting: u64) -> (r: u64)
    ensures
        r == if setting < 1 {
            1
        } else if setting > 60 {
            60
        } else {
            setting
        },
{
    if setting < 1 {
        1
    } else if setting > 60 {
        60
    } else {
        setting
    }
}

/// Whether an answer still belongs to the round on screen.
pub fn is_current(m: &Msg, generation: u64) -> (r: bool)
    ensures
        r == (m.generation == generation),
{
    m.generation == generation
}

} // verus!
