//! Reading what the client said when a connection failed, so the fix can be
//! offered instead of a screen redrawn over the reason.
//!
//! After a failed open the server is asked the same question once more,
//! non-interactively, and its own words are matched. Running that question
//! happens outside; here is what its answer means.

use crate::engines::pg::{first_line, has_sub, find_sub};
use crate::text::{
    chars_of, cviews, ends_with, has_prefix, has_suffix, lines, lines_of, slice_to_vec, starts_with,
    string_of, trim, trimmed, seq_eq,
};
use vstd::prelude::*;

verus! {

/// What would actually get you in. Each one is a different next step, which
/// is the whole reason to classify at all.
#[derive(Clone, Copy, PartialEq, Eq, Debug, Structural)]
pub enum Fix {
    /// No password on file, or the wrong one.
    Password,
    /// Nothing answered, or the server will not take a connection from this
    /// address: both are solved by coming in through a bastion.
    Tunnel,
    /// It got in; the database or the role named does not exist.
    Name,
}

/// What a failed connect said, and what would fix it.
pub struct Failure {
    /// The server's own first line, shown verbatim.
    pub said: String,
    pub fix: Fix,
}

/// The client's phrasing for a missing or wrong password.
pub open spec fn password_phrases() -> Seq<Seq<char>> {
    seq![
        "no password supplied"@,
        "password authentication failed"@,
        "Access denied for user"@,
        "authentication method 10 not supported"@,
        "Login failed for user"@,
    ]
}

/// The client's phrasing for a server it cannot reach.
pub open spec fn tunnel_phrases() -> Seq<Seq<char>> {
    seq![
        "Connection refused"@,
        "Connection timed out"@,
        "No route to host"@,
        "could not translate host name"@,
        "Name or service not known"@,
        "no pg_hba.conf entry"@,
        "Can't connect to MySQL server"@,
        "Can't connect to server"@,
        "Unknown MySQL server host"@,
        "TCP Provider"@,
        "Login timeout expired"@,
    ]
}

/// The client's phrasing for a database or role that is not there.
pub open spec fn name_phrases() -> Seq<Seq<char>> {
    seq!["does not exist"@, "Unknown database"@, "Cannot open database"@]
}

fn password_list() -> (r: Vec<&'static str>)
    ensures
        r@.map_values(|p: &'static str| p@) == password_phrases(),
{
    let r = vec![
        "no password supplied",
        "password authentication failed",
        "Access denied for user",
        "authentication method 10 not supported",
        "Login failed for user",
    ];
    assert(r@.map_values(|p: &'static str| p@) =~= password_phrases());
    r
}

fn tunnel_list() -> (r: Vec<&'static str>)
    ensures
        r@.map_values(|p: &'static str| p@) == tunnel_phrases(),
{
    let r = vec![
        "Connection refused",
        "Connection timed out",
        "No route to host",
        "could not translate host name",
        "Name or service not known",
        "no pg_hba.conf entry",
        "Can't connect to MySQL server",
        "Can't connect to server",
        "Unknown MySQL server host",
        "TCP Provider",
        "Login timeout expired",
    ];
    assert(r@.map_values(|p: &'static str| p@) =~= tunnel_phrases());
    r
}

fn name_list() -> (r: Vec<&'static str>)
    ensures
        r@.map_values(|p: &'static str| p@) == name_phrases(),
{
    let r = vec!["does not exist", "Unknown database", "Cannot open database"];
    assert(r@.map_values(|p: &'static str| p@) =~= name_phrases());
    r
}

/// Whether the text holds any of the phrases.
pub open spec fn says_any(text: Seq<char>, ps: Seq<Seq<char>>) -> bool {
    exists|j: int| 0 <= j < ps.len() && has_sub(text, #[trigger] ps[j])
}

fn says_any_of(text: &[char], ps: &Vec<&'static str>) -> (r: bool)
    ensures
        r == says_any(text@, ps@.map_values(|p: &'static str| p@)),
{
    let ghost pv = ps@.map_values(|p: &'static str| p@);
    let mut j: usize = 0;
    while j < ps.len()
        invariant
            j <= ps@.len(),
            pv == ps@.map_values(|p: &'static str| p@),
            forall|k: int| 0 <= k < j ==> !has_sub(text@, #[trigger] pv[k]),
        decreases ps@.len() - j,
    {
        let p = chars_of(ps[j]);
        assert(pv[j as int] == p@);
        if find_sub(text, p.as_slice()) {
            return true;
        }
        j = j + 1;
    }
    false
}

/// Match the client's own phrasing: the exact strings libpq, the MySQL
/// client and sqlcmd emit. A password problem outranks an unreachable
/// server, which outranks a missing name.
pub open spec fn classify_spec(text: Seq<char>) -> Option<Fix> {
    if says_any(text, password_phrases()) {
        Some(Fix::Password)
    } else if says_any(text, tunnel_phrases()) {
        Some(Fix::Tunnel)
    } else if says_any(text, name_phrases()) {
        Some(Fix::Name)
    } else {
        None
    }
}

pub fn classify(text: &str) -> (r: Option<Fix>)
    ensures
        r == classify_spec(text@),
{
    let t = chars_of(text);
    if says_any_of(t.as_slice(), &password_list()) {
        Some(Fix::Password)
    } else if says_any_of(t.as_slice(), &tunnel_list()) {
        Some(Fix::Tunnel)
    } else if says_any_of(t.as_slice(), &name_list()) {
        Some(Fix::Name)
    } else {
        None
    }
}

/// Whether a trimmed line is worth showing: not empty, and not the usage
/// line some clients print after their message.
pub open spec fn worth_showing(l: Seq<char>) -> bool {
    l.len() > 0 && !starts_with(l, "Try '"@) && !ends_with(l, "--help' for more information."@)
}

/// The first trimmed line worth showing, from line `i` on.
pub open spec fn first_shown(ls: Seq<Seq<char>>, i: int) -> Option<Seq<char>>
    decreases ls.len() - i,
{
    if i < 0 || i >= ls.len() {
        None
    } else if worth_showing(trim(ls[i])) {
        Some(trim(ls[i]))
    } else {
        first_shown(ls, i + 1)
    }
}

/// Where `p` last occurs in `s`.
pub open spec fn rfind_sub(s: Seq<char>, p: Seq<char>) -> Option<int>
    decreases s.len(),
{
    if s.len() < p.len() {
        None
    } else if s.skip(s.len() - p.len()) == p {
        Some(s.len() - p.len())
    } else if s.len() == 0 {
        None
    } else {
        rfind_sub(s.drop_last(), p)
    }
}

fn rfind_sub_of(s: &[char], p: &[char]) -> (r: Option<usize>)
    ensures
        match r {
            Some(i) => rfind_sub(s@, p@) == Some(i as int) && i + p@.len() <= s@.len(),
            None => rfind_sub(s@, p@) is None,
        },
{
    let mut n: usize = s.len();
    assert(s@.take(n as int) =~= s@);
    loop
        invariant
            n <= s@.len(),
            rfind_sub(s@, p@) == rfind_sub(s@.take(n as int), p@),
        decreases n,
    {
        let ghost t = s@.take(n as int);
        if n < p.len() {
            return None;
        }
        let tail = slice_to_vec(s, n - p.len(), n);
        assert(tail@ =~= t.skip(t.len() - p@.len()));
        if seq_eq(tail.as_slice(), p) {
            return Some(n - p.len());
        }
        if n == 0 {
            return None;
        }
        assert(t.drop_last() =~= s@.take(n - 1));
        n = n - 1;
    }
}

/// The line to show from what the client wrote: the first one worth
/// showing, cut to what follows the last `FATAL:` when the server's part is
/// in it, which reads better than libpq's preamble.
pub open spec fn said_spec(text: Seq<char>) -> Option<Seq<char>> {
    match first_shown(lines(text), 0) {
        Some(l) => match rfind_sub(l, "FATAL:"@) {
            Some(k) => Some(trim(l.skip(k + "FATAL:"@.len()))),
            None => Some(l),
        },
        None => None,
    }
}

pub fn said(text: &str) -> (r: Option<String>)
    ensures
        crate::ini::opt_sview(r) == said_spec(text@),
{
    let ls = lines_of(chars_of(text).as_slice());
    let ghost lv = cviews(ls@);
    let try_ = chars_of("Try '");
    let help = chars_of("--help' for more information.");
    let fatal = chars_of("FATAL:");
    let mut i: usize = 0;
    while i < ls.len()
        invariant
            i <= ls@.len(),
            lv == cviews(ls@),
            lv == lines(text@),
            try_@ == "Try '"@,
            help@ == "--help' for more information."@,
            fatal@ == "FATAL:"@,
            first_shown(lv, i as int) == first_shown(lv, 0),
        decreases ls@.len() - i,
    {
        assert(lv[i as int] == ls@[i as int]@);
        let l = trimmed(ls[i].as_slice());
        if l.len() > 0 && !has_prefix(l.as_slice(), try_.as_slice()) && !has_suffix(
            l.as_slice(),
            help.as_slice(),
        ) {
            match rfind_sub_of(l.as_slice(), fatal.as_slice()) {
                Some(k) => {
                    let rest = slice_to_vec(l.as_slice(), k + fatal.len(), l.len());
                    assert(rest@ =~= l@.skip(k + "FATAL:"@.len()));
                    return Some(string_of(trimmed(rest.as_slice()).as_slice()));
                },
                None => return Some(string_of(l.as_slice())),
            }
        }
        i = i + 1;
    }
    None
}

/// What a failed connect's stderr means: its line and its fix, or nothing
/// when there is no line to show or no fix the words point to.
pub fn failure_of(stderr: &str) -> (r: Option<Failure>)
    ensures
        match r {
            Some(f) => said_spec(stderr@) == Some(f.said@) && classify_spec(stderr@) == Some(f.fix),
            None => said_spec(stderr@) is None || classify_spec(stderr@) is None,
        },
{
    match said(stderr) {
        Some(s) => match classify(stderr) {
            Some(fix) => Some(Failure { said: s, fix }),
            None => None,
        },
        None => None,
    }
}

} // verus!
