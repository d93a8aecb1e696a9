//! The ssh forwards easysql opens, as values: what one is and how a row on
//! the Tunnels tab describes it. Finding, starting and stopping the `ssh`
//! processes happen outside.

use crate::text::{chars_of, find, slice_to_vec, string_of};
use crate::engines::rfind_char;
use crate::text::find_char;
use vstd::prelude::*;

verus! {

/// One running forward.
#[derive(Clone, Debug)]
pub struct Tunnel {
    pub pid: u32,
    /// `L` for a local forward, `R` for a remote one.
    pub kind: char,
    /// `open:target:port`, as handed to `ssh -L`.
    pub spec: String,
    /// The ssh host it hops through.
    pub host: String,
    /// Where its ssh writes its own words.
    pub log: String,
}

/// The three parts of a forward's spec: the port opened here, the address
/// the far side connects to, and the port there. The address may hold colons
/// of its own, so the spec is cut at its first and its last colon.
pub open spec fn ports_spec(spec: Seq<char>) -> Option<(Seq<char>, Seq<char>, Seq<char>)> {
    match (find_char(spec, ':'), rfind_char(spec, ':')) {
        (Some(a), Some(b)) => if a < b {
            Some((spec.take(a), spec.subrange(a + 1, b), spec.skip(b + 1)))
        } else {
            None
        },
        _ => None,
    }
}

pub open spec fn ports_view(p: Option<(String, String, String)>) -> Option<(Seq<char>, Seq<char>, Seq<char>)> {
    match p {
        Some((a, b, c)) => Some((a@, b@, c@)),
        None => None,
    }
}

/// A spec's three parts, when it has them.
pub fn ports_of(spec: &str) -> (r: Option<(String, String, String)>)
    ensures
        ports_view(r) == ports_spec(spec@),
{
    let s = chars_of(spec);
    match (find(s.as_slice(), ':'), crate::engines::rfind(s.as_slice(), ':')) {
        (Some(a), Some(b)) => if a < b {
            assert(b < s.len());
            let open = slice_to_vec(s.as_slice(), 0, a);
            let target = slice_to_vec(s.as_slice(), a + 1, b);
            let port = slice_to_vec(s.as_slice(), b + 1, s.len());
            assert(open@ =~= s@.take(a as int));
            assert(port@ =~= s@.skip(b + 1));
            Some((string_of(open.as_slice()), string_of(target.as_slice()), string_of(port.as_slice())))
        } else {
            None
        },
        _ => None,
    }
}

impl Tunnel {
    /// The spec's three parts, when it has them.
    pub fn ports(&self) -> (r: Option<(String, String, String)>)
        ensures
            ports_view(r) == ports_spec(self.spec@),
    {
        ports_of(self.spec.as_str())
    }
}

/// One row of the Tunnels tab: a forward that is running, or one a
/// connection remembers and nobody has opened.
#[derive(Clone, Debug)]
pub struct Entry {
    /// The connection key the forward belongs to, when one does.
    pub owner: Option<String>,
    pub kind: char,
    pub spec: String,
    pub host: String,
    /// The process, when it is running.
    pub live: Option<Tunnel>,
}

impl Entry {
    /// The spec's three parts, when it has them.
    pub fn ports(&self) -> (r: Option<(String, String, String)>)
        ensures
            ports_view(r) == ports_spec(self.spec@),
    {
        ports_of(self.spec.as_str())
    }

    /// Whether the forward is running.
    pub fn on(&self) -> (r: bool)
        ensures
            r == self.live is Some,
    {
        self.live.is_some()
    }
}

} // verus!
