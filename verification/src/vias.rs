//! Which tunnel a connection needs, remembered across reboots.
//!
//! A forward is a process, so it dies with the machine, and a connection that
//! was repointed at `127.0.0.1` is then pointing at nothing. This remembers
//! what it was, in easysql's own file rather than the connection's: libpq
//! refuses a whole service file over one keyword it does not know, so a `via=`
//! key there would break the connection for every client on the machine.
//!
//! Sections are keyed by a connection's key (`pg:raspi`), because two engines
//! may have a connection of the same name. Here the file is its text.

use crate::engines::{port_or_default_spec, Conn, ConnV};
use crate::ini::{
    config_dir, join_path, join_path_of, kviews, lookup, opt_sview, parse, parse_text, remove,
    remove_lines, section_index, sviews, upsert, upsert_lines, Section, SectionV,
    key_index, lemma_key_index, lemma_new_section_reads_back,
    names_keys, plain, plain_key, plain_keys, lemma_lower_word,
};
use crate::text::{
    chars_of, dec, dec_of, extend, file_body, same_as, seq_eq, string_of, eq_ic,
};
use crate::tunnels::{ports_spec, Entry, Tunnel};
use vstd::prelude::*;

verus! {

/// The forward a connection depends on, in the four parts `ssh -L` needs.
#[derive(Clone, Debug, PartialEq, Eq)]
pub struct Via {
    /// The ssh host to hop through, as named in `~/.ssh/config`.
    pub host: String,
    /// The database address as the ssh host sees it, usually `127.0.0.1`.
    pub target: String,
    /// The port on that far side.
    pub port: String,
    /// The port opened here, which is what the connection points at.
    pub local: String,
}

pub struct ViaV {
    pub host: Seq<char>,
    pub target: Seq<char>,
    pub port: Seq<char>,
    pub local: Seq<char>,
}

impl View for Via {
    type V = ViaV;

    open spec fn view(&self) -> ViaV {
        ViaV { host: self.host@, target: self.target@, port: self.port@, local: self.local@ }
    }
}

pub open spec fn spec_of(v: ViaV) -> Seq<char> {
    v.local + seq![':'] + v.target + seq![':'] + v.port
}

pub open spec fn command_of(v: ViaV) -> Seq<char> {
    "ssh -N -L "@ + spec_of(v) + seq![' '] + v.host
}

impl Via {
    /// `local:target:port`, as `ssh -L` takes it.
    pub fn spec(&self) -> (r: String)
        ensures
            r@ == spec_of(self@),
    {
        let mut v = chars_of(self.local.as_str());
        v.push(':');
        extend(&mut v, chars_of(self.target.as_str()).as_slice());
        v.push(':');
        extend(&mut v, chars_of(self.port.as_str()).as_slice());
        string_of(v.as_slice())
    }

    /// The command that rebuilds it, for a preview or a status line.
    pub fn command(&self) -> (r: String)
        ensures
            r@ == command_of(self@),
    {
        let mut v = chars_of("ssh -N -L ");
        extend(&mut v, chars_of(self.spec().as_str()).as_slice());
        v.push(' ');
        extend(&mut v, chars_of(self.host.as_str()).as_slice());
        string_of(v.as_slice())
    }
}

/// `easysql/vias` under the config directory.
pub open spec fn store_path_spec(config: Seq<char>) -> Seq<char> {
    join_path(join_path(config, "easysql"@), "vias"@)
}

pub fn store_path() -> (r: String)
    ensures
        exists|c: Seq<char>| r@ == store_path_spec(c),
{
    let c = config_dir();
    let d = join_path_of(c.as_str(), "easysql");
    let r = join_path_of(d.as_str(), "vias");
    assert(r@ == store_path_spec(c@));
    r
}

/// The via a section describes: all four keys present, and a host and a
/// target that are not empty. A half-written section is not a tunnel that can
/// be rebuilt, and guessing the missing half would open a forward to the
/// wrong place.
pub open spec fn via_of(s: SectionV) -> Option<ViaV> {
    match (
        lookup(s.keys, "host"@),
        lookup(s.keys, "target"@),
        lookup(s.keys, "port"@),
        lookup(s.keys, "local"@),
    ) {
        (Some(h), Some(t), Some(p), Some(l)) => if h.len() > 0 && t.len() > 0 {
            Some(ViaV { host: h, target: t, port: p, local: l })
        } else {
            None
        },
        _ => None,
    }
}

/// Every recorded via in the file, in file order.
pub open spec fn vias_of(secs: Seq<SectionV>) -> Seq<(Seq<char>, ViaV)>
    decreases secs.len(),
{
    if secs.len() == 0 {
        seq![]
    } else {
        let rest = vias_of(secs.drop_last());
        match via_of(secs.last()) {
            Some(v) => rest.push((secs.last().name, v)),
            None => rest,
        }
    }
}

pub open spec fn load_spec(text: Seq<char>) -> Seq<(Seq<char>, ViaV)> {
    vias_of(parse_text(text))
}

pub open spec fn pair_views(v: Seq<(String, Via)>) -> Seq<(Seq<char>, ViaV)> {
    v.map_values(|p: (String, Via)| (p.0@, p.1@))
}

fn via_in(s: &Section) -> (r: Option<Via>)
    ensures
        match r {
            Some(v) => via_of(s@) == Some(v@),
            None => via_of(s@) is None,
        },
{
    match (s.get("host"), s.get("target"), s.get("port"), s.get("local")) {
        (Some(h), Some(t), Some(p), Some(l)) => if !h.is_empty() && !t.is_empty() {
            Some(
                Via {
                    host: h.to_string(),
                    target: t.to_string(),
                    port: p.to_string(),
                    local: l.to_string(),
                },
            )
        } else {
            None
        },
        _ => None,
    }
}

/// Every recorded via, for the checks that have to look at all of them.
pub fn all(text: &str) -> (r: Vec<(String, Via)>)
    ensures
        pair_views(r@) == load_spec(text@),
{
    let secs = parse(text);
    let ghost sv = sviews(secs@);
    let mut out: Vec<(String, Via)> = Vec::new();
    let mut i: usize = 0;
    while i < secs.len()
        invariant
            i <= secs@.len(),
            sv == sviews(secs@),
            sv == parse_text(text@),
            pair_views(out@) == vias_of(sv.take(i as int)),
        decreases secs@.len() - i,
    {
        assert(sv.take(i + 1).drop_last() =~= sv.take(i as int));
        assert(sv.take(i + 1).last() == secs@[i as int]@);
        match via_in(&secs[i]) {
            Some(v) => {
                let ghost before = pair_views(out@);
                out.push((secs[i].name.clone(), v));
                assert(pair_views(out@) =~= before.push((secs@[i as int].name@, v@)));
            },
            None => {},
        }
        i = i + 1;
    }
    assert(sv.take(secs@.len() as int) =~= sv);
    out
}

/// The via recorded for `key`: the first one under that name.
pub open spec fn get_spec(all: Seq<(Seq<char>, ViaV)>, key: Seq<char>) -> Option<ViaV>
    decreases all.len(),
{
    if all.len() == 0 {
        None
    } else if all[0].0 == key {
        Some(all[0].1)
    } else {
        get_spec(all.drop_first(), key)
    }
}

fn get_among(all: &Vec<(String, Via)>, key: &str) -> (r: Option<Via>)
    ensures
        match r {
            Some(v) => get_spec(pair_views(all@), key@) == Some(v@),
            None => get_spec(pair_views(all@), key@) is None,
        },
{
    let ghost av = pair_views(all@);
    let k = chars_of(key);
    let mut i: usize = 0;
    assert(av.skip(0) =~= av);
    while i < all.len()
        invariant
            i <= all@.len(),
            av == pair_views(all@),
            k@ == key@,
            get_spec(av, key@) == get_spec(av.skip(i as int), key@),
        decreases all@.len() - i,
    {
        assert(av.skip(i as int)[0] == av[i as int]);
        assert(av[i as int] == (all@[i as int].0@, all@[i as int].1@));
        let n = chars_of(all[i].0.as_str());
        if seq_eq(n.as_slice(), k.as_slice()) {
            return Some(all[i].1.clone_via());
        }
        assert(av.skip(i as int).drop_first() =~= av.skip(i + 1));
        i = i + 1;
    }
    None
}

impl Via {
    /// A copy, field for field.
    pub fn clone_via(&self) -> (r: Via)
        ensures
            r@ == self@,
    {
        Via {
            host: self.host.clone(),
            target: self.target.clone(),
            port: self.port.clone(),
            local: self.local.clone(),
        }
    }
}

/// The tunnel this connection needs, if it was told about one.
pub fn get_in(text: &str, key: &str) -> (r: Option<Via>)
    ensures
        match r {
            Some(v) => get_spec(load_spec(text@), key@) == Some(v@),
            None => get_spec(load_spec(text@), key@) is None,
        },
{
    let a = all(text);
    get_among(&a, key)
}

pub open spec fn via_keys(v: ViaV) -> Seq<(Seq<char>, Seq<char>)> {
    seq![("host"@, v.host), ("target"@, v.target), ("port"@, v.port), ("local"@, v.local)]
}

/// The file's new text remembering `via` for `key`.
pub open spec fn set_spec(text: Seq<char>, key: Seq<char>, via: ViaV) -> Seq<char> {
    file_body(upsert_lines(text, key, key, via_keys(via)))
}

pub fn set_in(text: &str, key: &str, via: &Via) -> (r: String)
    ensures
        r@ == set_spec(text@, key@, via@),
{
    let keys = vec![
        ("host".to_string(), via.host.clone()),
        ("target".to_string(), via.target.clone()),
        ("port".to_string(), via.port.clone()),
        ("local".to_string(), via.local.clone()),
    ];
    assert(kviews(keys@) =~= via_keys(via@));
    upsert(text, Some(key), key, &keys)
}

/// The file's new text without the via for `key`; `None` when there is none
/// to forget.
pub open spec fn remove_spec(text: Seq<char>, key: Seq<char>) -> Option<Seq<char>> {
    if get_spec(load_spec(text), key) is None {
        None
    } else {
        match remove_lines(text, key) {
            Some(ls) => Some(file_body(ls)),
            None => None,
        }
    }
}

/// Forget it, which deleting the connection has to do too, or the file
/// slowly fills with tunnels for things that no longer exist.
pub fn remove_in(text: &str, key: &str) -> (r: Option<String>)
    ensures
        opt_sview(r) == remove_spec(text@, key@),
{
    if get_in(text, key).is_none() {
        return None;
    }
    remove(text, key)
}

/// The file's new text after a rename carried the via from `old_key` to
/// `new_key`; `None` when there is nothing to carry. A connection is
/// identified by its key, so without this the via would be stranded under the
/// old one and the connection would silently forget the tunnel it needs.
pub open spec fn rename_spec(text: Seq<char>, old_key: Seq<char>, new_key: Seq<char>) -> Option<
    Seq<char>,
> {
    if old_key == new_key {
        None
    } else {
        match get_spec(load_spec(text), old_key) {
            None => None,
            Some(v) => {
                let moved = set_spec(text, new_key, v);
                match remove_spec(moved, old_key) {
                    Some(t) => Some(t),
                    None => Some(moved),
                }
            },
        }
    }
}

pub fn rename(text: &str, old_key: &str, new_key: &str) -> (r: Option<String>)
    ensures
        opt_sview(r) == rename_spec(text@, old_key@, new_key@),
{
    let a = chars_of(old_key);
    let b = chars_of(new_key);
    if seq_eq(a.as_slice(), b.as_slice()) {
        return None;
    }
    match get_in(text, old_key) {
        None => None,
        Some(v) => {
            let moved = set_in(text, new_key, &v);
            match remove_in(moved.as_str(), old_key) {
                Some(t) => Some(t),
                None => Some(moved),
            }
        },
    }
}

/// Whether a connection points at the near end of its own forward: a
/// loopback host and the forward's local port.
pub open spec fn points_at_spec(c: ConnV, v: ViaV) -> bool {
    (c.host == "127.0.0.1"@ || c.host == "localhost"@ || c.host == "::1"@) && port_or_default_spec(
        c,
    ) == v.local
}

/// Does this connection actually point at the near end of its own forward?
/// Declining the repoint leaves the two disagreeing, and that is worth saying
/// rather than leaving a tunnel that opens and is never used.
pub fn points_at_it(c: &Conn, via: &Via) -> (r: bool)
    ensures
        r == points_at_spec(c@, via@),
{
    let h = chars_of(c.host.as_str());
    let loopback = same_as(h.as_slice(), "127.0.0.1") || same_as(h.as_slice(), "localhost")
        || same_as(h.as_slice(), "::1");
    let p = chars_of(c.port_or_default().as_str());
    let l = chars_of(via.local.as_str());
    loopback && seq_eq(p.as_slice(), l.as_slice())
}

/// What a connect says after bringing its forward back.
pub fn reopened(via: &Via, pid: u32) -> (r: String)
    ensures
        r@ == "reopened the tunnel through "@ + via.host@ + " (pid "@ + dec(pid as nat) + ")"@,
{
    let mut v = chars_of("reopened the tunnel through ");
    extend(&mut v, chars_of(via.host.as_str()).as_slice());
    extend(&mut v, chars_of(" (pid ").as_slice());
    extend(&mut v, dec_of(pid as u64).as_slice());
    extend(&mut v, chars_of(")").as_slice());
    string_of(v.as_slice())
}

/// The key of the recorded via whose forward opens `local`.
pub open spec fn owner_spec(recorded: Seq<(Seq<char>, ViaV)>, local: Seq<char>) -> Option<Seq<char>>
    decreases recorded.len(),
{
    if recorded.len() == 0 {
        None
    } else if recorded[0].1.local == local {
        Some(recorded[0].0)
    } else {
        owner_spec(recorded.drop_first(), local)
    }
}

pub fn owner_in(recorded: &[(String, Via)], local: &str) -> (r: Option<String>)
    ensures
        opt_sview(r) == owner_spec(pair_views(recorded@), local@),
{
    let ghost av = pair_views(recorded@);
    let l = chars_of(local);
    let mut i: usize = 0;
    assert(av.skip(0) =~= av);
    while i < recorded.len()
        invariant
            i <= recorded@.len(),
            av == pair_views(recorded@),
            l@ == local@,
            owner_spec(av, local@) == owner_spec(av.skip(i as int), local@),
        decreases recorded@.len() - i,
    {
        assert(av.skip(i as int)[0] == av[i as int]);
        assert(av[i as int] == (recorded@[i as int].0@, recorded@[i as int].1@));
        let n = chars_of(recorded[i].1.local.as_str());
        if seq_eq(n.as_slice(), l.as_slice()) {
            return Some(recorded[i].0.clone());
        }
        assert(av.skip(i as int).drop_first() =~= av.skip(i + 1));
        i = i + 1;
    }
    None
}

/// A Tunnels-tab row as values.
pub struct EntryV {
    pub owner: Option<Seq<char>>,
    pub kind: char,
    pub spec: Seq<char>,
    pub host: Seq<char>,
    pub live: Option<Seq<char>>,
}

/// A row: its owner, kind, spec and host, and the live forward's spec.
pub open spec fn entry_view(e: Entry) -> EntryV {
    EntryV {
        owner: opt_sview(e.owner),
        kind: e.kind,
        spec: e.spec@,
        host: e.host@,
        live: match e.live {
            Some(t) => Some(t.spec@),
            None => None,
        },
    }
}

/// Whether a running forward is a local one that opens `local`.
pub open spec fn opens(t: Tunnel, local: Seq<char>) -> bool {
    t.kind == 'L' && match ports_spec(t.spec@) {
        Some(p) => p.0 == local,
        None => false,
    }
}

/// Whether some running local forward holds `local`.
pub open spec fn carried(live: Seq<Tunnel>, local: Seq<char>) -> bool {
    exists|i: int| 0 <= i < live.len() && opens(#[trigger] live[i], local)
}

/// The rows for the running forwards, each with the recorded owner of the
/// port it opens.
pub open spec fn live_rows(live: Seq<Tunnel>, recorded: Seq<(Seq<char>, ViaV)>) -> Seq<EntryV> {
    live.map_values(
        |t: Tunnel|
            EntryV {
                owner: match ports_spec(t.spec@) {
                    Some(p) => owner_spec(recorded, p.0),
                    None => None,
                },
                kind: t.kind,
                spec: t.spec@,
                host: t.host@,
                live: Some(t.spec@),
            },
    )
}

/// The rows for the recorded forwards no running one carries.
pub open spec fn sleeping_rows(live: Seq<Tunnel>, recorded: Seq<(Seq<char>, ViaV)>) -> Seq<EntryV>
    decreases recorded.len(),
{
    if recorded.len() == 0 {
        seq![]
    } else {
        let rest = sleeping_rows(live, recorded.drop_last());
        let (key, v) = recorded.last();
        if carried(live, v.local) {
            rest
        } else {
            rest.push(
                EntryV { owner: Some(key), kind: 'L', spec: spec_of(v), host: v.host, live: None },
            )
        }
    }
}

/// The rows of the Tunnels tab: what is running, then what a connection
/// remembers and nobody has opened. Holding the local port is what counts as
/// carrying a via, exactly as reopening one decides it, so a forward already
/// on screen never gets a second row.
pub open spec fn rows_spec(live: Seq<Tunnel>, recorded: Seq<(Seq<char>, ViaV)>) -> Seq<EntryV> {
    live_rows(live, recorded) + sleeping_rows(live, recorded)
}

fn carried_of(live: &[Tunnel], local: &[char]) -> (r: bool)
    ensures
        r == carried(live@, local@),
{
    let mut i: usize = 0;
    while i < live.len()
        invariant
            i <= live@.len(),
            forall|j: int| 0 <= j < i ==> !opens(#[trigger] live@[j], local@),
        decreases live@.len() - i,
    {
        if live[i].kind == 'L' {
            match live[i].ports() {
                Some((open, _, _)) => {
                    let o = chars_of(open.as_str());
                    if seq_eq(o.as_slice(), local) {
                        return true;
                    }
                },
                None => {},
            }
        }
        i = i + 1;
    }
    false
}

pub open spec fn entry_views(v: Seq<Entry>) -> Seq<EntryV> {
    v.map_values(|e: Entry| entry_view(e))
}

pub fn rows_from(live: &[Tunnel], recorded: Vec<(String, Via)>) -> (r: Vec<Entry>)
    ensures
        entry_views(r@) == rows_spec(live@, pair_views(recorded@)),
{
    let ghost rv = pair_views(recorded@);
    let mut rows: Vec<Entry> = Vec::new();
    let mut i: usize = 0;
    while i < live.len()
        invariant
            i <= live@.len(),
            rv == pair_views(recorded@),
            entry_views(rows@) == live_rows(live@, rv).take(i as int),
        decreases live@.len() - i,
    {
        let t = &live[i];
        let owner = match t.ports() {
            Some((open, _, _)) => owner_in(recorded.as_slice(), open.as_str()),
            None => None,
        };
        let e = Entry {
            owner,
            kind: t.kind,
            spec: t.spec.clone(),
            host: t.host.clone(),
            live: Some(t.clone_tunnel()),
        };
        let ghost before = entry_views(rows@);
        rows.push(e);
        assert(entry_views(rows@) =~= before.push(live_rows(live@, rv)[i as int]));
        i = i + 1;
        assert(live_rows(live@, rv).take(i as int) =~= live_rows(live@, rv).take(i - 1).push(
            live_rows(live@, rv)[i - 1],
        ));
    }
    assert(live_rows(live@, rv).take(live@.len() as int) =~= live_rows(live@, rv));
    let ghost head = entry_views(rows@);
    let mut j: usize = 0;
    while j < recorded.len()
        invariant
            j <= recorded@.len(),
            rv == pair_views(recorded@),
            head == live_rows(live@, rv),
            entry_views(rows@) == head + sleeping_rows(live@, rv.take(j as int)),
        decreases recorded@.len() - j,
    {
        assert(rv.take(j + 1).drop_last() =~= rv.take(j as int));
        assert(rv.take(j + 1).last() == (recorded@[j as int].0@, recorded@[j as int].1@));
        let (key, v) = (&recorded[j].0, &recorded[j].1);
        let l = chars_of(v.local.as_str());
        if !carried_of(live, l.as_slice()) {
            let e = Entry {
                owner: Some(key.clone()),
                kind: 'L',
                spec: v.spec(),
                host: v.host.clone(),
                live: None,
            };
            let ghost before = entry_views(rows@);
            rows.push(e);
            assert(entry_views(rows@) =~= before.push(
                EntryV {
                    owner: Some(key@),
                    kind: 'L',
                    spec: spec_of(v@),
                    host: v.host@,
                    live: None,
                },
            ));
        }
        j = j + 1;
    }
    assert(rv.take(recorded@.len() as int) =~= rv);
    rows
}

impl Tunnel {
    /// A copy, field for field.
    pub fn clone_tunnel(&self) -> (r: Tunnel)
        ensures
            r.pid == self.pid,
            r.kind == self.kind,
            r.spec@ == self.spec@,
            r.host@ == self.host@,
            r.log@ == self.log@,
    {
        Tunnel {
            pid: self.pid,
            kind: self.kind,
            spec: self.spec.clone(),
            host: self.host.clone(),
            log: self.log.clone(),
        }
    }
}

/// The ssh host to start the tunnel wizard on when the setting names none:
/// the host this very connection was last tunnelled through, else the one
/// host every via uses, else nothing - guessing between two bastions is worse
/// than an empty field.
pub open spec fn default_host_spec(all: Seq<(Seq<char>, ViaV)>, key: Seq<char>) -> Option<Seq<char>> {
    match get_spec(all, key) {
        Some(v) => Some(v.host),
        None => if all.len() > 0 && forall|i: int|
            0 <= i < all.len() ==> (#[trigger] all[i]).1.host == all[0].1.host {
            Some(all[0].1.host)
        } else {
            None
        },
    }
}

pub fn default_host(all: &Vec<(String, Via)>, key: &str) -> (r: Option<String>)
    ensures
        opt_sview(r) == default_host_spec(pair_views(all@), key@),
{
    let ghost av = pair_views(all@);
    match get_among(all, key) {
        Some(v) => return Some(v.host),
        None => {},
    }
    if all.len() == 0 {
        return None;
    }
    let first = chars_of(all[0].1.host.as_str());
    assert(av[0] == (all@[0].0@, all@[0].1@));
    let mut i: usize = 0;
    while i < all.len()
        invariant
            i <= all@.len(),
            av == pair_views(all@),
            all@.len() > 0,
            first@ == av[0].1.host,
            get_spec(av, key@) is None,
            forall|j: int| 0 <= j < i ==> (#[trigger] av[j]).1.host == av[0].1.host,
        decreases all@.len() - i,
    {
        assert(av[i as int] == (all@[i as int].0@, all@[i as int].1@));
        let h = chars_of(all[i].1.host.as_str());
        if !seq_eq(h.as_slice(), first.as_slice()) {
            assert(av[i as int].1.host != av[0].1.host);
            return None;
        }
        i = i + 1;
    }
    Some(all[0].1.host.clone())
}

// ---------------------------------------------------------------------------
// what a remembered via reads back as
// ---------------------------------------------------------------------------

/// Which vias a file holds goes only by its sections' names and keys.
proof fn lemma_vias_by_names(a: Seq<SectionV>, b: Seq<SectionV>)
    requires
        names_keys(a) == names_keys(b),
    ensures
        vias_of(a) == vias_of(b),
    decreases a.len(),
{
    assert(names_keys(a).len() == a.len());
    assert(names_keys(b).len() == b.len());
    if a.len() > 0 {
        assert(names_keys(a.drop_last()) =~= names_keys(a).drop_last());
        assert(names_keys(b.drop_last()) =~= names_keys(b).drop_last());
        lemma_vias_by_names(a.drop_last(), b.drop_last());
        assert(names_keys(a)[a.len() - 1] == (a.last().name, a.last().keys));
        assert(names_keys(b)[b.len() - 1] == (b.last().name, b.last().keys));
    }
}

proof fn lemma_vias_named(secs: Seq<SectionV>, key: Seq<char>)
    requires
        forall|j: int| 0 <= j < secs.len() ==> (#[trigger] secs[j]).name != key,
    ensures
        forall|i: int| 0 <= i < vias_of(secs).len() ==> (#[trigger] vias_of(secs)[i]).0 != key,
    decreases secs.len(),
{
    if secs.len() > 0 {
        let init = secs.drop_last();
        assert forall|j: int| 0 <= j < init.len() implies (#[trigger] init[j]).name != key by {
            assert(init[j] == secs[j]);
        }
        lemma_vias_named(init, key);
        assert(secs.last() == secs[secs.len() - 1]);
        let rest = vias_of(init);
        match via_of(secs.last()) {
            Some(v) => {
                assert forall|i: int| 0 <= i < rest.push((secs.last().name, v)).len() implies (
                #[trigger] rest.push((secs.last().name, v))[i]).0 != key by {
                    if i < rest.len() {
                        assert(rest.push((secs.last().name, v))[i] == rest[i]);
                    }
                }
            },
            None => {},
        }
    }
}

proof fn lemma_via_literals()
    ensures
        "host"@ == seq!['h', 'o', 's', 't'],
        "target"@ == seq!['t', 'a', 'r', 'g', 'e', 't'],
        "port"@ == seq!['p', 'o', 'r', 't'],
        "local"@ == seq!['l', 'o', 'c', 'a', 'l'],
{
    reveal_strlit("host");
    reveal_strlit("target");
    reveal_strlit("port");
    reveal_strlit("local");
    assert("host"@ =~= seq!['h', 'o', 's', 't']);
    assert("target"@ =~= seq!['t', 'a', 'r', 'g', 'e', 't']);
    assert("port"@ =~= seq!['p', 'o', 'r', 't']);
    assert("local"@ =~= seq!['l', 'o', 'c', 'a', 'l']);
}

/// The four keys a via is written as read back as themselves.
proof fn lemma_via_keys_plain(v: ViaV)
    requires
        plain(v.host),
        plain(v.target),
        plain(v.port),
        plain(v.local),
    ensures
        plain_keys(via_keys(v)),
{
    lemma_via_literals();
    let ks = via_keys(v);
    let h = "host"@;
    let t = "target"@;
    let p = "port"@;
    let l = "local"@;
    assert forall|i: int| 0 <= i < h.len() implies 'a' <= #[trigger] h[i] <= 'z' by {
        if i == 0 {} else if i == 1 {} else if i == 2 {} else {}
    }
    assert forall|i: int| 0 <= i < t.len() implies 'a' <= #[trigger] t[i] <= 'z' by {
        if i == 0 {} else if i == 1 {} else if i == 2 {} else if i == 3 {} else if i == 4 {} else {}
    }
    assert forall|i: int| 0 <= i < p.len() implies 'a' <= #[trigger] p[i] <= 'z' by {
        if i == 0 {} else if i == 1 {} else if i == 2 {} else {}
    }
    assert forall|i: int| 0 <= i < l.len() implies 'a' <= #[trigger] l[i] <= 'z' by {
        if i == 0 {} else if i == 1 {} else if i == 2 {} else if i == 3 {} else {}
    }
    lemma_lower_word(h);
    lemma_lower_word(t);
    lemma_lower_word(p);
    lemma_lower_word(l);
    assert(!eq_ic(h, t));
    assert(!eq_ic(h, l));
    assert(!eq_ic(t, p));
    assert(!eq_ic(t, l));
    assert(!eq_ic(p, l));
    assert(!eq_ic(h, p)) by {
        assert(h[0] == 'h' && p[0] == 'p');
    }
    assert forall|i: int| 0 <= i < ks.len() implies plain_key(#[trigger] ks[i].0) && plain(
        ks[i].1,
    ) by {
        if i == 0 {} else if i == 1 {} else if i == 2 {} else {}
    }
    assert forall|i: int, j: int| 0 <= i < j < ks.len() implies !eq_ic(
        #[trigger] ks[i].0,
        #[trigger] ks[j].0,
    ) by {
        if i == 0 && j == 1 {} else if i == 0 && j == 2 {} else if i == 0 && j == 3 {
        } else if i == 1 && j == 2 {} else if i == 1 && j == 3 {} else {}
    }
}

/// A section holding the four keys of a via with a host and a target reads
/// as that via.
proof fn lemma_via_keys_read(v: ViaV, s: SectionV)
    requires
        v.host.len() > 0,
        v.target.len() > 0,
        s.keys == via_keys(v),
    ensures
        via_of(s) == Some(v),
{
    lemma_via_literals();
    let ks = via_keys(v);
    let h = "host"@;
    let t = "target"@;
    let p = "port"@;
    let l = "local"@;
    assert(eq_ic(h, h));
    assert(eq_ic(t, t));
    assert(eq_ic(p, p));
    assert(eq_ic(l, l));
    assert(!eq_ic(h, t));
    assert(!eq_ic(h, l));
    assert(!eq_ic(t, p));
    assert(!eq_ic(t, l));
    assert(!eq_ic(p, l));
    assert(!eq_ic(h, p)) by {
        assert(h[0] == 'h' && p[0] == 'p');
    }
    lemma_key_index(ks, h, 0);
    lemma_key_index(ks, t, 1);
    lemma_key_index(ks, p, 2);
    lemma_key_index(ks, l, 3);
}

proof fn lemma_vias_add(a: Seq<SectionV>, b: Seq<SectionV>)
    ensures
        vias_of(a + b) == vias_of(a) + vias_of(b),
    decreases b.len(),
{
    if b.len() == 0 {
        assert(a + b =~= a);
        assert(vias_of(a) + Seq::<(Seq<char>, ViaV)>::empty() =~= vias_of(a));
    } else {
        lemma_vias_add(a, b.drop_last());
        assert((a + b).drop_last() =~= a + b.drop_last());
        assert((a + b).last() == b.last());
        let va = vias_of(a);
        let vb = vias_of(b.drop_last());
        match via_of(b.last()) {
            Some(x) => {
                assert((va + vb).push((b.last().name, x)) =~= va + vb.push((b.last().name, x)));
            },
            None => {},
        }
    }
}

proof fn lemma_get_skip(a: Seq<(Seq<char>, ViaV)>, c: Seq<(Seq<char>, ViaV)>, key: Seq<char>)
    requires
        forall|i: int| 0 <= i < a.len() ==> (#[trigger] a[i]).0 != key,
    ensures
        get_spec(a + c, key) == get_spec(c, key),
    decreases a.len(),
{
    if a.len() > 0 {
        assert((a + c)[0] == a[0]);
        assert((a + c).drop_first() =~= a.drop_first() + c);
        assert forall|i: int| 0 <= i < a.drop_first().len() implies (
        #[trigger] a.drop_first()[i]).0 != key by {
            assert(a.drop_first()[i] == a[i + 1]);
        }
        lemma_get_skip(a.drop_first(), c, key);
    } else {
        assert(a + c =~= c);
    }
}

/// A via remembered for a key is what the file then gives back for that key,
/// whether one was recorded under it before or not. Its parts are plain text
/// and its host and target are not empty, as the tunnel wizard makes them.
pub proof fn lemma_set_then_get(text: Seq<char>, key: Seq<char>, v: ViaV)
    requires
        plain(key),
        plain(v.host),
        plain(v.target),
        plain(v.port),
        plain(v.local),
        v.host.len() > 0,
        v.target.len() > 0,
    ensures
        get_spec(load_spec(set_spec(text, key, v)), key) == Some(v),
{
    lemma_via_keys_plain(v);
    crate::ini::lemma_written_section_found(text, key, via_keys(v));
    let new = parse_text(set_spec(text, key, v));
    let i = section_index(new, key)->0;
    crate::ini::lemma_section_index_some(new, key);
    lemma_via_keys_read(v, new[i]);
    let one = seq![new[i]];
    assert(new =~= (new.take(i) + one) + new.skip(i + 1));
    lemma_vias_add(new.take(i) + one, new.skip(i + 1));
    lemma_vias_add(new.take(i), one);
    assert(one.drop_last() =~= Seq::<SectionV>::empty());
    assert(one.last() == new[i]);
    assert(vias_of(one.drop_last()) == Seq::<(Seq<char>, ViaV)>::empty());
    assert(vias_of(one) =~= seq![(key, v)]);
    assert forall|j: int| 0 <= j < new.take(i).len() implies (#[trigger] new.take(i)[j]).name
        != key by {
        assert(new.take(i)[j] == new[j]);
    }
    lemma_vias_named(new.take(i), key);
    let before = vias_of(new.take(i));
    let after = vias_of(new.skip(i + 1));
    assert((before + seq![(key, v)]) + after =~= before + (seq![(key, v)] + after));
    lemma_get_skip(before, seq![(key, v)] + after, key);
    assert((seq![(key, v)] + after)[0] == (key, v));
}

proof fn lemma_get_app(a: Seq<(Seq<char>, ViaV)>, b: Seq<(Seq<char>, ViaV)>, key: Seq<char>)
    ensures
        get_spec(a + b, key) == match get_spec(a, key) {
            Some(v) => Some(v),
            None => get_spec(b, key),
        },
    decreases a.len(),
{
    if a.len() == 0 {
        assert(a + b =~= b);
    } else {
        assert((a + b)[0] == a[0]);
        assert((a + b).drop_first() =~= a.drop_first() + b);
        lemma_get_app(a.drop_first(), b, key);
    }
}

/// The vias of one section, read under some other key, give nothing.
proof fn lemma_get_one_other(s: SectionV, key: Seq<char>)
    requires
        s.name != key,
    ensures
        get_spec(vias_of(seq![s]), key) is None,
{
    let one = seq![s];
    assert(one.drop_last() =~= Seq::<SectionV>::empty());
    assert(one.last() == s);
    assert(vias_of(one.drop_last()) == Seq::<(Seq<char>, ViaV)>::empty());
    match via_of(s) {
        Some(v) => {
            assert(vias_of(one) =~= seq![(s.name, v)]);
            let e = Seq::<(Seq<char>, ViaV)>::empty();
            assert(vias_of(one).drop_first() =~= e);
            assert(get_spec(e, key) is None);
            assert(vias_of(one)[0].0 != key);
            assert(get_spec(vias_of(one), key) == get_spec(vias_of(one).drop_first(), key));
        },
        None => {
            assert(vias_of(one) =~= Seq::<(Seq<char>, ViaV)>::empty());
        },
    }
}

/// Remembering a via for one key leaves what every other key reads back as
/// it was, whether the key was new to the file or its section was
/// rewritten in place.
pub proof fn lemma_set_keeps_other_keys(text: Seq<char>, key: Seq<char>, v: ViaV, other: Seq<char>)
    requires
        plain(key),
        plain(v.host),
        plain(v.target),
        plain(v.port),
        plain(v.local),
        v.host.len() > 0,
        v.target.len() > 0,
        other != key,
    ensures
        get_spec(load_spec(set_spec(text, key, v)), other) == get_spec(load_spec(text), other),
{
    lemma_via_keys_plain(v);
    let old = parse_text(text);
    let new = parse_text(set_spec(text, key, v));
    match section_index(old, key) {
        None => {
            lemma_set_new_key_appends(text, key, v);
            let added = SectionV { name: key, keys: via_keys(v), at: 0, end: 0 };
            lemma_via_keys_read(v, added);
            assert(vias_of(seq![added]) =~= seq![(key, v)]) by {
                let one = seq![added];
                assert(one.drop_last() =~= Seq::<SectionV>::empty());
                assert(one.last() == added);
                assert(vias_of(one.drop_last()) == Seq::<(Seq<char>, ViaV)>::empty());
            }
            lemma_get_one_other(added, other);
            assert(load_spec(text).push((key, v)) =~= load_spec(text) + seq![(key, v)]);
            lemma_get_app(load_spec(text), seq![(key, v)], other);
        },
        Some(i) => {
            crate::ini::lemma_section_index_some(old, key);
            crate::ini::lemma_replaced_section_reads_back(text, key, key, via_keys(v));
            let added = SectionV { name: key, keys: via_keys(v), at: old[i].at, end: old[i].end };
            let b = old.update(i, added);
            assert(names_keys(b) =~= names_keys(old).update(i, (key, via_keys(v))));
            lemma_vias_by_names(new, b);
            let pre = old.take(i);
            let post = old.skip(i + 1);
            assert(old =~= (pre + seq![old[i]]) + post);
            assert(b =~= (pre + seq![added]) + post);
            lemma_vias_add(pre + seq![old[i]], post);
            lemma_vias_add(pre, seq![old[i]]);
            lemma_vias_add(pre + seq![added], post);
            lemma_vias_add(pre, seq![added]);
            lemma_get_one_other(old[i], other);
            lemma_get_one_other(added, other);
            let vp = vias_of(pre);
            let vq = vias_of(post);
            lemma_get_app(vp + vias_of(seq![old[i]]), vq, other);
            lemma_get_app(vp, vias_of(seq![old[i]]), other);
            lemma_get_app(vp + vias_of(seq![added]), vq, other);
            lemma_get_app(vp, vias_of(seq![added]), other);
        },
    }
}

/// A via remembered for a key the file holds no section for is added after
/// every via recorded before, each of which reads as it did.
pub proof fn lemma_set_new_key_appends(text: Seq<char>, key: Seq<char>, v: ViaV)
    requires
        section_index(parse_text(text), key) is None,
        plain(key),
        plain(v.host),
        plain(v.target),
        plain(v.port),
        plain(v.local),
        v.host.len() > 0,
        v.target.len() > 0,
    ensures
        load_spec(set_spec(text, key, v)) == load_spec(text).push((key, v)),
{
    lemma_via_keys_plain(v);
    lemma_new_section_reads_back(text, key, key, via_keys(v));
    let old = parse_text(text);
    let new = parse_text(set_spec(text, key, v));
    let added = SectionV { name: key, keys: via_keys(v), at: 0, end: 0 };
    let b = old.push(added);
    assert(names_keys(b) =~= names_keys(old).push((key, via_keys(v))));
    lemma_vias_by_names(new, b);
    lemma_via_keys_read(v, added);
    assert(b.drop_last() =~= old);
    assert(b.last() == added);
    assert(vias_of(b) == vias_of(old).push((key, v)));
}

/// Every via a file records has parts that read back as themselves.
proof fn lemma_vias_plain(secs: Seq<SectionV>)
    requires
        forall|j: int, k: int|
            0 <= j < secs.len() && 0 <= k < secs[j].keys.len() ==> plain(#[trigger] secs[j].keys[k].1),
    ensures
        forall|i: int|
            0 <= i < vias_of(secs).len() ==> plain((#[trigger] vias_of(secs)[i]).1.host) && plain(
                vias_of(secs)[i].1.target,
            ) && plain(vias_of(secs)[i].1.port) && plain(vias_of(secs)[i].1.local)
                && vias_of(secs)[i].1.host.len() > 0 && vias_of(secs)[i].1.target.len() > 0,
    decreases secs.len(),
{
    if secs.len() > 0 {
        let init = secs.drop_last();
        assert forall|j: int, k: int|
            0 <= j < init.len() && 0 <= k < init[j].keys.len() implies plain(
            #[trigger] init[j].keys[k].1,
        ) by {
            assert(init[j] == secs[j]);
            assert(plain(secs[j].keys[k].1));
        }
        lemma_vias_plain(init);
        let last = secs.last();
        let rest = vias_of(init);
        match via_of(last) {
            Some(v) => {
                let ks = last.keys;
                assert(last == secs[secs.len() - 1]);
                crate::ini::lemma_key_index_props(ks, "host"@);
                crate::ini::lemma_key_index_props(ks, "target"@);
                crate::ini::lemma_key_index_props(ks, "port"@);
                crate::ini::lemma_key_index_props(ks, "local"@);
                let kh = key_index(ks, "host"@)->0;
                let kt = key_index(ks, "target"@)->0;
                let kp = key_index(ks, "port"@)->0;
                let kl = key_index(ks, "local"@)->0;
                assert(plain(secs[secs.len() - 1].keys[kh].1));
                assert(plain(secs[secs.len() - 1].keys[kt].1));
                assert(plain(secs[secs.len() - 1].keys[kp].1));
                assert(plain(secs[secs.len() - 1].keys[kl].1));
                let out = rest.push((last.name, v));
                assert forall|i: int| 0 <= i < out.len() implies plain((#[trigger] out[i]).1.host)
                    && plain(out[i].1.target) && plain(out[i].1.port) && plain(out[i].1.local)
                    && out[i].1.host.len() > 0 && out[i].1.target.len() > 0 by {
                    if i < rest.len() {
                        assert(out[i] == rest[i]);
                    }
                }
            },
            None => {},
        }
    }
}

/// What `get_spec` gives is one of the list's entries.
proof fn lemma_get_in(all: Seq<(Seq<char>, ViaV)>, key: Seq<char>)
    requires
        get_spec(all, key) is Some,
    ensures
        exists|i: int| 0 <= i < all.len() && (#[trigger] all[i]) == (key, get_spec(all, key)->0),
    decreases all.len(),
{
    if all[0].0 != key {
        lemma_get_in(all.drop_first(), key);
        let i = choose|i: int|
            0 <= i < all.drop_first().len() && (#[trigger] all.drop_first()[i]) == (
                key,
                get_spec(all.drop_first(), key)->0,
            );
        assert(all[i + 1] == all.drop_first()[i]);
    } else {
        assert(all[0] == (key, get_spec(all, key)->0));
    }
}

/// Entries under other names in the middle do not change what a key finds.
proof fn lemma_get_drop(
    a: Seq<(Seq<char>, ViaV)>,
    x: Seq<(Seq<char>, ViaV)>,
    b: Seq<(Seq<char>, ViaV)>,
    key: Seq<char>,
)
    requires
        forall|i: int| 0 <= i < x.len() ==> (#[trigger] x[i]).0 != key,
    ensures
        get_spec((a + x) + b, key) == get_spec(a + b, key),
    decreases a.len(),
{
    if a.len() > 0 {
        assert(((a + x) + b)[0] == a[0]);
        assert((a + b)[0] == a[0]);
        assert(((a + x) + b).drop_first() =~= (a.drop_first() + x) + b);
        assert((a + b).drop_first() =~= a.drop_first() + b);
        lemma_get_drop(a.drop_first(), x, b, key);
    } else {
        assert((a + x) + b =~= x + b);
        assert(a + b =~= b);
        lemma_get_skip(x, b, key);
    }
}

/// A rename carries a connection's via to its new key: the file then gives,
/// for the new key, the via it gave for the old one. The new key reads back
/// as itself.
pub proof fn lemma_rename_carries(text: Seq<char>, old_key: Seq<char>, new_key: Seq<char>)
    requires
        old_key != new_key,
        get_spec(load_spec(text), old_key) is Some,
        plain(new_key),
    ensures
        rename_spec(text, old_key, new_key) matches Some(t) && get_spec(load_spec(t), new_key)
            == get_spec(load_spec(text), old_key),
{
    let v = get_spec(load_spec(text), old_key)->0;
    crate::ini::lemma_values_plain(text);
    lemma_vias_plain(parse_text(text));
    lemma_get_in(load_spec(text), old_key);
    let moved = set_spec(text, new_key, v);
    lemma_set_then_get(text, new_key, v);
    if get_spec(load_spec(moved), old_key) is Some {
        let ms = parse_text(moved);
        assert(section_index(ms, old_key) is Some) by {
            lemma_get_in(load_spec(moved), old_key);
            let k = choose|k: int|
                0 <= k < load_spec(moved).len() && (#[trigger] load_spec(moved)[k]) == (
                    old_key,
                    get_spec(load_spec(moved), old_key)->0,
                );
            lemma_vias_named_back(ms, old_key, k);
        }
        crate::ini::lemma_removed_section_blocks(moved, old_key);
        let i = section_index(ms, old_key)->0;
        crate::ini::lemma_section_index_some(ms, old_key);
        let ls2 = remove_lines(moved, old_key)->0;
        let t = file_body(ls2);
        let ns = parse_text(t);
        let kept = ms.take(i) + ms.skip(i + 1);
        assert(names_keys(ns) =~= names_keys(kept)) by {
            assert forall|j: int| 0 <= j < ns.len() implies #[trigger] names_keys(ns)[j]
                == names_keys(kept)[j] by {
                if j < i {
                    assert(crate::ini::same_block(ns[j], ms[j]));
                    assert(kept[j] == ms[j]);
                } else {
                    assert(crate::ini::same_block(ns[j], ms[j + 1]));
                    assert(kept[j] == ms[j + 1]);
                }
            }
        }
        lemma_vias_by_names(ns, kept);
        let one = seq![ms[i]];
        assert(ms =~= (ms.take(i) + one) + ms.skip(i + 1));
        lemma_vias_add(ms.take(i) + one, ms.skip(i + 1));
        lemma_vias_add(ms.take(i), one);
        lemma_vias_add(ms.take(i), ms.skip(i + 1));
        assert(one.drop_last() =~= Seq::<SectionV>::empty());
        assert(one.last() == ms[i]);
        assert(vias_of(one.drop_last()) == Seq::<(Seq<char>, ViaV)>::empty());
        assert forall|j: int| 0 <= j < vias_of(one).len() implies (#[trigger] vias_of(one)[j]).0
            != new_key by {
            assert(vias_of(one)[j].0 == ms[i].name);
        }
        lemma_get_drop(vias_of(ms.take(i)), vias_of(one), vias_of(ms.skip(i + 1)), new_key);
        assert(remove_spec(moved, old_key) == Some(t));
    }
}

/// A via the list holds comes from a section of that name.
proof fn lemma_vias_named_back(secs: Seq<SectionV>, key: Seq<char>, k: int)
    requires
        0 <= k < vias_of(secs).len(),
        vias_of(secs)[k].0 == key,
    ensures
        section_index(secs, key) is Some,
{
    if section_index(secs, key) is None {
        crate::ini::lemma_section_index_none(secs, key);
        lemma_vias_named(secs, key);
    }
}

} // verus!
