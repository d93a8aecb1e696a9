//! Which connections you actually open. Every connect is stamped here so the
//! Connections tab can lead with the database you were in ten minutes ago
//! instead of whatever the alphabet put first.
//!
//! The store is one small text file, `<state dir>/easysql/history`, with one
//! line per connection: `<epoch> <count> <engine>:<name>`, sorted by key so the
//! file is diffable. A corrupt or missing line just drops that entry back to
//! "never connected". Reading and writing the file happen outside; here the
//! file is its text.

use crate::ini::join_path_of;
use crate::text::{
    is_word, is_ws, join, lemma_words_are_words, lines_text, strip_all, strip_cr, lemma_lines_text, lemma_parse_dec, lemma_words_join,
    lemma_lex_antisym, lemma_lex_total, lemma_lex_trans, chars_of, cviews, dec, dec_of, extend, lex_le, lex_le_of, lines, lines_of, parse_u64,
    parse_u64_of, seq_eq, string_of, words, words_of,
};
use vstd::prelude::*;

verus! {

/// What is remembered about one connection.
#[derive(Clone, Copy, PartialEq, Eq, Debug, Structural)]
pub struct Entry {
    /// Epoch seconds of the most recent connect.
    pub last: u64,
    /// How many connects have been seen in total.
    pub count: u32,
}

impl Default for Entry {
    fn default() -> (e: Self)
        ensures
            e.last == 0 && e.count == 0,
    {
        Entry { last: 0, count: 0 }
    }
}

/// The whole file: one row per key, kept in ascending key order, which is
/// also the order the file is written in.
pub struct History {
    rows: Vec<(String, Entry)>,
}

pub open spec fn row_views(v: Seq<(String, Entry)>) -> Seq<(Seq<char>, Entry)> {
    v.map_values(|r: (String, Entry)| (r.0@, r.1))
}

impl View for History {
    type V = Seq<(Seq<char>, Entry)>;

    closed spec fn view(&self) -> Seq<(Seq<char>, Entry)> {
        row_views(self.rows@)
    }
}

/// `a` sorts strictly before `b`.
pub open spec fn lex_lt(a: Seq<char>, b: Seq<char>) -> bool {
    lex_le(a, b) && a != b
}

/// The rows with `(k, e)` written in: in place of the row for `k` when there
/// is one, else where `k` sorts.
pub open spec fn ins(rows: Seq<(Seq<char>, Entry)>, k: Seq<char>, e: Entry) -> Seq<
    (Seq<char>, Entry),
>
    decreases rows.len(),
{
    if rows.len() == 0 {
        seq![(k, e)]
    } else if rows.last().0 == k {
        rows.drop_last().push((k, e))
    } else if lex_lt(rows.last().0, k) {
        rows.push((k, e))
    } else {
        ins(rows.drop_last(), k, e).push(rows.last())
    }
}

/// Where the row for `k` is.
pub open spec fn find_key(rows: Seq<(Seq<char>, Entry)>, k: Seq<char>) -> Option<int>
    decreases rows.len(),
{
    if rows.len() == 0 {
        None
    } else if rows[0].0 == k {
        Some(0)
    } else {
        match find_key(rows.drop_first(), k) {
            Some(i) => Some(i + 1),
            None => None,
        }
    }
}

/// The entry for `k`.
pub open spec fn entry_of(rows: Seq<(Seq<char>, Entry)>, k: Seq<char>) -> Option<Entry> {
    match find_key(rows, k) {
        Some(i) => Some(rows[i].1),
        None => None,
    }
}

/// The rows without the one for `k`.
pub open spec fn without(rows: Seq<(Seq<char>, Entry)>, k: Seq<char>) -> Seq<(Seq<char>, Entry)> {
    match find_key(rows, k) {
        Some(i) => rows.remove(i),
        None => rows,
    }
}

proof fn lemma_find_key(rows: Seq<(Seq<char>, Entry)>, k: Seq<char>, i: int)
    requires
        0 <= i <= rows.len(),
        forall|j: int| 0 <= j < i ==> (#[trigger] rows[j]).0 != k,
    ensures
        i < rows.len() && rows[i].0 == k ==> find_key(rows, k) == Some(i),
        i == rows.len() ==> find_key(rows, k) is None,
    decreases i,
{
    if i > 0 {
        assert forall|j: int| 0 <= j < i - 1 implies (#[trigger] rows.drop_first()[j]).0 != k by {
            assert(rows.drop_first()[j] == rows[j + 1]);
        }
        lemma_find_key(rows.drop_first(), k, i - 1);
    }
}

/// The empty history.
pub fn empty() -> (h: History)
    ensures
        h@ == Seq::<(Seq<char>, Entry)>::empty(),
{
    let h = History { rows: Vec::new() };
    assert(h@ =~= Seq::<(Seq<char>, Entry)>::empty());
    h
}

impl History {
    fn index_of(&self, key: &[char]) -> (r: Option<usize>)
        ensures
            r matches Some(i) ==> find_key(self@, key@) == Some(i as int) && i < self@.len(),
            r is None ==> find_key(self@, key@) is None,
    {
        let ghost rv = self@;
        let mut i: usize = 0;
        while i < self.rows.len()
            invariant
                rv == self@,
                rv == row_views(self.rows@),
                i <= self.rows@.len(),
                forall|j: int| 0 <= j < i ==> (#[trigger] rv[j]).0 != key@,
            decreases self.rows@.len() - i,
        {
            assert(rv[i as int] == (self.rows@[i as int].0@, self.rows@[i as int].1));
            let k = chars_of(self.rows[i].0.as_str());
            if seq_eq(k.as_slice(), key) {
                proof {
                    lemma_find_key(rv, key@, i as int);
                }
                return Some(i);
            }
            i = i + 1;
        }
        proof {
            lemma_find_key(rv, key@, i as int);
        }
        None
    }

    pub fn get(&self, key: &str) -> (r: Option<Entry>)
        ensures
            r == entry_of(self@, key@),
    {
        let k = chars_of(key);
        match self.index_of(k.as_slice()) {
            Some(i) => {
                assert(self@[i as int] == (self.rows@[i as int].0@, self.rows@[i as int].1));
                Some(self.rows[i].1)
            },
            None => None,
        }
    }

    /// Sort key for the Connections list: most recently opened first, then
    /// every connection never used, alphabetically. The negated stamp keeps it
    /// a plain ascending sort at the call site. A stamp of exactly 2^63 has no
    /// negation once read as an `i64`, so it is left out.
    pub fn rank(&self, key: &str) -> (r: (i64, String))
        requires
            entry_of(self@, key@) matches Some(e) ==> e.last != 0x8000_0000_0000_0000u64,
        ensures
            r.0 == -(match entry_of(self@, key@) {
                Some(e) => e.last as i64,
                None => 0i64,
            }),
            r.1@ == key@,
    {
        let last: u64 = match self.get(key) {
            Some(e) => e.last,
            None => 0,
        };
        let l = last as i64;
        assert(last != 0x8000_0000_0000_0000u64 ==> (last as i64) != i64::MIN) by (bit_vector);
        (-l, key.to_string())
    }

    /// Write `(key, e)` in: in place of the row for `key`, else where it sorts.
    fn put(&mut self, key: String, e: Entry)
        ensures
            final(self)@ == ins(old(self)@, key@, e),
    {
        let kc = chars_of(key.as_str());
        let mut tail: Vec<(String, Entry)> = Vec::new();
        loop
            invariant_except_break
                ins(old(self)@, key@, e) == ins(self@, key@, e) + row_views(tail@).reverse(),
            invariant
                kc@ == key@,
            ensures
                ins(old(self)@, key@, e) == self@ + row_views(tail@).reverse(),
            decreases self@.len(),
        {
            let ghost before = self@;
            if self.rows.len() == 0 {
                self.rows.push((key, e));
                assert(self@ =~= seq![(key@, e)]);
                break;
            }
            let n = self.rows.len();
            assert(before.last() == (self.rows@[n - 1].0@, self.rows@[n - 1].1));
            let lk = chars_of(self.rows[n - 1].0.as_str());
            if seq_eq(lk.as_slice(), kc.as_slice()) {
                self.rows.pop();
                self.rows.push((key, e));
                assert(self@ =~= before.drop_last().push((key@, e)));
                break;
            }
            if lex_le_of(lk.as_slice(), kc.as_slice()) {
                self.rows.push((key, e));
                assert(self@ =~= before.push((key@, e)));
                break;
            }
            let last = self.rows.pop().unwrap();
            assert(self@ =~= before.drop_last());
            let ghost t = row_views(tail@);
            tail.push(last);
            assert(row_views(tail@).reverse() =~= seq![before.last()] + t.reverse());
        }
        while tail.len() > 0
            invariant
                ins(old(self)@, key@, e) == self@ + row_views(tail@).reverse(),
            decreases tail@.len(),
        {
            let ghost t0 = row_views(tail@);
            let ghost v0 = self@;
            let y = tail.pop().unwrap();
            let ghost t = row_views(tail@);
            assert(t0 =~= t.push((y.0@, y.1)));
            self.rows.push(y);
            assert(self@ =~= v0.push((y.0@, y.1)));
            assert(t.push((y.0@, y.1)).reverse() =~= seq![(y.0@, y.1)] + t.reverse());
            assert(self@ + t.reverse() =~= v0 + (seq![(y.0@, y.1)] + t.reverse()));
        }
        assert(self@ =~= self@ + row_views(tail@).reverse());
    }

    /// Stamp a connect at `at`: the stamp replaced, the count one more. A
    /// count already at its largest cannot grow, so it is left out.
    pub fn record(&mut self, key: &str, at: u64)
        requires
            entry_of(old(self)@, key@) matches Some(e) ==> e.count < u32::MAX,
        ensures
            final(self)@ == ins(
                old(self)@,
                key@,
                Entry {
                    last: at,
                    count: match entry_of(old(self)@, key@) {
                        Some(e) => (e.count + 1) as u32,
                        None => 1,
                    },
                },
            ),
    {
        let count: u32 = match self.get(key) {
            Some(e) => e.count + 1,
            None => 1,
        };
        self.put(key.to_string(), Entry { last: at, count });
    }

    /// Move a connection's record to its new key, so a rename does not read
    /// as a connection never opened. When the new key already has a record,
    /// the livelier of the two is kept: the later stamp and both counts.
    /// Nothing changes when the keys are the same or the old one has no
    /// record; the result says whether anything did.
    pub fn rename(&mut self, old_key: &str, new_key: &str) -> (changed: bool)
        requires
            entry_of(old(self)@, old_key@) matches Some(e) ==> (match entry_of(
                without(old(self)@, old_key@),
                new_key@,
            ) {
                Some(s) => s.count + e.count <= u32::MAX,
                None => true,
            }),
        ensures
            changed == (old_key@ != new_key@ && entry_of(old(self)@, old_key@) is Some),
            !changed ==> final(self)@ == old(self)@,
            changed ==> ({
                let e = entry_of(old(self)@, old_key@)->0;
                let rest = without(old(self)@, old_key@);
                let s = match entry_of(rest, new_key@) {
                    Some(s) => s,
                    None => Entry { last: 0, count: 0 },
                };
                final(self)@ == ins(
                    rest,
                    new_key@,
                    Entry {
                        last: if s.last >= e.last {
                            s.last
                        } else {
                            e.last
                        },
                        count: (s.count + e.count) as u32,
                    },
                )
            }),
    {
        let a = chars_of(old_key);
        let b = chars_of(new_key);
        if seq_eq(a.as_slice(), b.as_slice()) {
            return false;
        }
        match self.index_of(a.as_slice()) {
            None => false,
            Some(i) => {
                assert(self@[i as int] == (self.rows@[i as int].0@, self.rows@[i as int].1));
                let ghost before = self@;
                let (_, e) = self.rows.remove(i);
                assert(self@ =~= before.remove(i as int));
                let s = match self.get(new_key) {
                    Some(s) => s,
                    None => Entry { last: 0, count: 0 },
                };
                let last = if s.last >= e.last {
                    s.last
                } else {
                    e.last
                };
                self.put(new_key.to_string(), Entry { last, count: s.count + e.count });
                true
            },
        }
    }

    /// The file's text: one `<epoch> <count> <key>` line per row, in key
    /// order.
    pub fn render(&self) -> (r: String)
        ensures
            r@ == render_rows(self@),
    {
        let mut v: Vec<char> = Vec::new();
        let mut i: usize = 0;
        while i < self.rows.len()
            invariant
                i <= self.rows@.len(),
                v@ == render_rows(self@.take(i as int)),
            decreases self.rows@.len() - i,
        {
            let ghost before = v@;
            extend(&mut v, dec_of(self.rows[i].1.last).as_slice());
            v.push(' ');
            extend(&mut v, dec_of(self.rows[i].1.count as u64).as_slice());
            v.push(' ');
            extend(&mut v, chars_of(self.rows[i].0.as_str()).as_slice());
            v.push('\n');
            assert(self@[i as int] == (self.rows@[i as int].0@, self.rows@[i as int].1));
            assert(self@.take(i + 1).drop_last() =~= self@.take(i as int));
            assert(v@ =~= before + row_line(self@[i as int].0, self@[i as int].1));
            i = i + 1;
        }
        assert(self@.take(self@.len() as int) =~= self@);
        string_of(v.as_slice())
    }
}

/// One line of the file.
pub open spec fn row_line(k: Seq<char>, e: Entry) -> Seq<char> {
    dec(e.last as nat) + seq![' '] + dec(e.count as nat) + seq![' '] + k + seq!['\n']
}

pub open spec fn render_rows(rows: Seq<(Seq<char>, Entry)>) -> Seq<char>
    decreases rows.len(),
{
    if rows.len() == 0 {
        seq![]
    } else {
        render_rows(rows.drop_last()) + row_line(rows.last().0, rows.last().1)
    }
}

/// `str::parse::<u32>`.
pub open spec fn parse_u32(s: Seq<char>) -> Option<u32> {
    match parse_u64(s) {
        Some(n) => if n <= u32::MAX {
            Some(n as u32)
        } else {
            None
        },
        None => None,
    }
}

/// A line's entry: `<epoch> <count> <key>`, the key last because a service
/// name and an option group cannot contain whitespace. Anything else is no
/// entry.
pub open spec fn parse_line(l: Seq<char>) -> Option<(Seq<char>, Entry)> {
    let w = words(l);
    if w.len() < 3 {
        None
    } else {
        match (parse_u64(w[0]), parse_u32(w[1])) {
            (Some(a), Some(b)) => Some((w[2], Entry { last: a, count: b })),
            _ => None,
        }
    }
}

/// The history the lines hold; a later line for a key wins.
pub open spec fn load_rows(ls: Seq<Seq<char>>) -> Seq<(Seq<char>, Entry)>
    decreases ls.len(),
{
    if ls.len() == 0 {
        seq![]
    } else {
        let rows = load_rows(ls.drop_last());
        match parse_line(ls.last()) {
            Some((k, e)) => ins(rows, k, e),
            None => rows,
        }
    }
}

pub open spec fn load_spec(text: Seq<char>) -> Seq<(Seq<char>, Entry)> {
    load_rows(lines(text))
}

fn parse_line_of(l: &[char]) -> (r: Option<(String, Entry)>)
    ensures
        match r {
            Some((k, e)) => parse_line(l@) == Some((k@, e)),
            None => parse_line(l@) is None,
        },
{
    let w = words_of(l);
    if w.len() < 3 {
        return None;
    }
    assert(cviews(w@)[0] == w@[0]@ && cviews(w@)[1] == w@[1]@ && cviews(w@)[2] == w@[2]@);
    let a = parse_u64_of(w[0].as_slice());
    let b = match parse_u64_of(w[1].as_slice()) {
        Some(n) => if n <= 0xffff_ffffu64 {
            Some(n as u32)
        } else {
            None
        },
        None => None,
    };
    match (a, b) {
        (Some(a), Some(b)) => Some((string_of(w[2].as_slice()), Entry { last: a, count: b })),
        _ => None,
    }
}

/// Parse the store. An unparseable line means no entry, never an error.
pub fn load(text: &str) -> (h: History)
    ensures
        h@ == load_spec(text@),
{
    let ls = lines_of(chars_of(text).as_slice());
    let ghost lv = cviews(ls@);
    let mut h = empty();
    let mut i: usize = 0;
    while i < ls.len()
        invariant
            i <= ls@.len(),
            lv == cviews(ls@),
            lv == lines(text@),
            h@ == load_rows(lv.take(i as int)),
        decreases ls@.len() - i,
    {
        assert(lv.take(i + 1).drop_last() =~= lv.take(i as int));
        assert(lv.take(i + 1).last() == ls@[i as int]@);
        match parse_line_of(ls[i].as_slice()) {
            Some((k, e)) => h.put(k, e),
            None => {},
        }
        i = i + 1;
    }
    assert(lv.take(ls@.len() as int) =~= lv);
    h
}

/// The file's new text after stamping a connect to `key` at `at`.
pub fn record_in(text: &str, key: &str, at: u64) -> (r: String)
    requires
        entry_of(load_spec(text@), key@) matches Some(e) ==> e.count < u32::MAX,
    ensures
        r@ == render_rows(
            ins(
                load_spec(text@),
                key@,
                Entry {
                    last: at,
                    count: match entry_of(load_spec(text@), key@) {
                        Some(e) => (e.count + 1) as u32,
                        None => 1,
                    },
                },
            ),
        ),
{
    let mut h = load(text);
    h.record(key, at);
    h.render()
}

/// `~/.local/state/easysql/history`, falling back to the data dir on
/// platforms with no state dir, and to `~/.local/state` without either.
pub open spec fn path_spec(base: Seq<char>) -> Seq<char> {
    crate::ini::join_path(crate::ini::join_path(base, "easysql"@), "history"@)
}

#[verifier::external_body]
fn state_dir_of() -> Option<String> {
    dirs::state_dir().map(|p| p.to_string_lossy().into_owned())
}

#[verifier::external_body]
fn data_dir_of() -> Option<String> {
    dirs::data_dir().map(|p| p.to_string_lossy().into_owned())
}

/// The history file's base directory: the state dir when the platform
/// names one, else the data dir, else `.local/state` under `home`.
pub open spec fn history_base(state: Option<Seq<char>>, data: Option<Seq<char>>, home: Seq<char>) -> Seq<char> {
    match state {
        Some(s) => s,
        None => match data {
            Some(d) => d,
            None => crate::ini::join_path(home, ".local/state"@),
        },
    }
}

/// The history file, given what the platform names as its state and data
/// directories and the home directory.
pub fn path_from(state: Option<String>, data: Option<String>, home: String) -> (r: String)
    ensures
        r@ == path_spec(history_base(crate::ini::opt_sview(state), crate::ini::opt_sview(data), home@)),
{
    let base = match state {
        Some(s) => s,
        None => match data {
            Some(d) => d,
            None => join_path_of(home.as_str(), ".local/state"),
        },
    };
    let d = join_path_of(base.as_str(), "easysql");
    join_path_of(d.as_str(), "history")
}

/// The history file on this machine; see `path_from`.
pub fn path() -> (r: String)
    ensures
        exists|b: Seq<char>| r@ == path_spec(b),
{
    path_from(state_dir_of(), data_dir_of(), crate::ini::home())
}

/// The system clock's time, carried through as it comes.
#[verifier::external_type_specification]
#[verifier::external_body]
pub struct ExSystemTime(std::time::SystemTime);

/// `SystemTime::now`. Nothing is promised of the time it reads.
#[verifier::external_body]
fn clock() -> std::time::SystemTime {
    std::time::SystemTime::now()
}

/// `SystemTime::duration_since` the Unix epoch, the error for a time before
/// it turned into nothing. Which span comes back is not promised here.
#[verifier::external_body]
fn since_epoch(t: std::time::SystemTime) -> Option<std::time::Duration> {
    match t.duration_since(std::time::UNIX_EPOCH) {
        Ok(d) => Some(d),
        Err(_) => None,
    }
}

/// `Duration::as_secs`: the whole seconds of a span. Nothing more is
/// claimed of it here.
#[verifier::external_body]
fn whole_secs(d: std::time::Duration) -> u64 {
    d.as_secs()
}

/// Epoch seconds now, or 0 if the clock is before the epoch.
pub fn now() -> u64 {
    match since_epoch(clock()) {
        Some(d) => whole_secs(d),
        None => 0,
    }
}

/// "2d ago" - a coarse, glanceable age. Precision past the largest unit is
/// noise: you want to know whether you were on a box today or last month.
pub open spec fn ago_spec(then: u64, now: u64) -> Seq<char> {
    let secs: nat = if now >= then {
        (now - then) as nat
    } else {
        0
    };
    if secs <= 59 {
        "just now"@
    } else if secs <= 3599 {
        dec(secs / 60) + "m ago"@
    } else if secs <= 86399 {
        dec(secs / 3600) + "h ago"@
    } else if secs <= 2591999 {
        dec(secs / 86400) + "d ago"@
    } else if secs <= 31535999 {
        dec(secs / 2592000) + "mo ago"@
    } else {
        dec(secs / 31536000) + "y ago"@
    }
}

pub fn ago(then: u64, now: u64) -> (r: String)
    ensures
        r@ == ago_spec(then, now),
{
    let secs = now.saturating_sub(then);
    let (n, unit) = if secs <= 59 {
        return "just now".to_string();
    } else if secs <= 3599 {
        (secs / 60, "m ago")
    } else if secs <= 86399 {
        (secs / 3600, "h ago")
    } else if secs <= 2591999 {
        (secs / 86400, "d ago")
    } else if secs <= 31535999 {
        (secs / 2592000, "mo ago")
    } else {
        (secs / 31536000, "y ago")
    };
    let mut v = dec_of(n);
    extend(&mut v, chars_of(unit).as_slice());
    string_of(v.as_slice())
}

// ---------------------------------------------------------------------------
// what the store promises
// ---------------------------------------------------------------------------

/// One row per key, in ascending key order: how the file is kept.
pub open spec fn ascending(rows: Seq<(Seq<char>, Entry)>) -> bool {
    forall|i: int, j: int| 0 <= i < j < rows.len() ==> lex_lt(#[trigger] rows[i].0, #[trigger] rows[j].0)
}

proof fn lemma_lex_lt_trans(a: Seq<char>, b: Seq<char>, c: Seq<char>)
    requires
        lex_lt(a, b),
        lex_lt(b, c),
    ensures
        lex_lt(a, c),
{
    lemma_lex_trans(a, b, c);
    if a == c {
        lemma_lex_antisym(b, c);
    }
}

proof fn lemma_find_key_push_at(rows: Seq<(Seq<char>, Entry)>, x: (Seq<char>, Entry), k: Seq<char>)
    ensures
        find_key(rows.push(x), k) == match find_key(rows, k) {
            Some(i) => Some(i),
            None => if x.0 == k {
                Some(rows.len() as int)
            } else {
                None
            },
        },
    decreases rows.len(),
{
    let px = rows.push(x);
    if rows.len() > 0 {
        lemma_find_key_push_at(rows.drop_first(), x, k);
        assert(px.drop_first() =~= rows.drop_first().push(x));
        assert(px[0] == rows[0]);
        if rows[0].0 != k {
            assert(find_key(px, k) == match find_key(px.drop_first(), k) {
                Some(i) => Some(i + 1),
                None => None,
            });
            assert(find_key(rows, k) == match find_key(rows.drop_first(), k) {
                Some(i) => Some(i + 1),
                None => None,
            });
        }
    } else {
        assert(px =~= seq![x]);
        assert(px.drop_first() =~= Seq::<(Seq<char>, Entry)>::empty());
        assert(find_key(Seq::<(Seq<char>, Entry)>::empty(), k) is None);
        assert(find_key(rows, k) is None);
    }
}

proof fn lemma_find_key_push(rows: Seq<(Seq<char>, Entry)>, x: (Seq<char>, Entry), k: Seq<char>)
    ensures
        entry_of(rows.push(x), k) == match entry_of(rows, k) {
            Some(v) => Some(v),
            None => if x.0 == k {
                Some(x.1)
            } else {
                None
            },
        },
        find_key(rows.push(x), k) is Some == (find_key(rows, k) is Some || x.0 == k),
{
    lemma_find_key_push_at(rows, x, k);
    lemma_find_key_props(rows, k);
    match find_key(rows, k) {
        Some(i) => {
            assert(rows.push(x)[i] == rows[i]);
        },
        None => {
            assert(rows.push(x)[rows.len() as int] == x);
        },
    }
}

proof fn lemma_find_key_props(rows: Seq<(Seq<char>, Entry)>, k: Seq<char>)
    ensures
        find_key(rows, k) matches Some(i) ==> 0 <= i < rows.len() && rows[i].0 == k,
    decreases rows.len(),
{
    if rows.len() > 0 {
        lemma_find_key_props(rows.drop_first(), k);
    }
}

proof fn lemma_absent(rows: Seq<(Seq<char>, Entry)>, k: Seq<char>)
    requires
        forall|i: int| 0 <= i < rows.len() ==> (#[trigger] rows[i]).0 != k,
    ensures
        entry_of(rows, k) is None,
{
    lemma_find_key(rows, k, rows.len() as int);
}

/// What a record writes, a read gives back: writing `(k, e)` into rows kept
/// one per key in ascending order leaves them so, makes `e` the entry for
/// `k`, and leaves every other key's entry as it was.
pub proof fn lemma_written_entry_reads_back(rows: Seq<(Seq<char>, Entry)>, k: Seq<char>, e: Entry)
    requires
        ascending(rows),
    ensures
        ascending(ins(rows, k, e)),
        entry_of(ins(rows, k, e), k) == Some(e),
        forall|k2: Seq<char>| k2 != k ==> entry_of(ins(rows, k, e), k2) == entry_of(rows, k2),
        forall|i: int|
            0 <= i < ins(rows, k, e).len() ==> (#[trigger] ins(rows, k, e)[i]).0 == k || exists|j: int|
                0 <= j < rows.len() && rows[j].0 == ins(rows, k, e)[i].0,
    decreases rows.len(),
{
    let res = ins(rows, k, e);
    if rows.len() == 0 {
        assert(res == seq![(k, e)]);
        lemma_find_key_push(Seq::<(Seq<char>, Entry)>::empty(), (k, e), k);
        assert(Seq::<(Seq<char>, Entry)>::empty().push((k, e)) =~= seq![(k, e)]);
        assert forall|k2: Seq<char>| k2 != k implies entry_of(res, k2) == entry_of(rows, k2) by {
            lemma_find_key_push(Seq::<(Seq<char>, Entry)>::empty(), (k, e), k2);
        }
        return;
    }
    let last = rows.last();
    let init = rows.drop_last();
    assert(rows =~= init.push(last));
    assert forall|i: int, j: int| 0 <= i < j < init.len() implies lex_lt(#[trigger] init[i].0, #[trigger] init[j].0) by {
        assert(init[i] == rows[i] && init[j] == rows[j]);
    }
    assert forall|i: int| 0 <= i < init.len() implies lex_lt(#[trigger] init[i].0, last.0) by {
        assert(init[i] == rows[i]);
        assert(rows[rows.len() - 1] == last);
    }
    assert forall|i: int| 0 <= i < init.len() implies (#[trigger] init[i]).0 != last.0 by {
        assert(lex_lt(init[i].0, last.0));
    }
    if last.0 == k {
        assert(res == init.push((k, e)));
        lemma_absent(init, k);
        lemma_find_key_push(init, (k, e), k);
        assert forall|k2: Seq<char>| k2 != k implies entry_of(res, k2) == entry_of(rows, k2) by {
            lemma_find_key_push(init, (k, e), k2);
            lemma_find_key_push(init, last, k2);
        }
        assert forall|i: int, j: int| 0 <= i < j < res.len() implies lex_lt(#[trigger] res[i].0, #[trigger] res[j].0) by {
            if j < init.len() {
                assert(res[i] == init[i] && res[j] == init[j]);
            } else {
                assert(res[i] == init[i]);
            }
        }
        assert forall|i: int| 0 <= i < res.len() implies (#[trigger] res[i]).0 == k || exists|j: int|
            0 <= j < rows.len() && rows[j].0 == res[i].0 by {
            if i < init.len() {
                assert(res[i] == rows[i]);
            }
        }
    } else if lex_lt(last.0, k) {
        assert(res == rows.push((k, e)));
        assert forall|i: int| 0 <= i < rows.len() implies (#[trigger] rows[i]).0 != k by {
            if i < init.len() {
                assert(rows[i] == init[i]);
                lemma_lex_lt_trans(init[i].0, last.0, k);
            }
        }
        lemma_absent(rows, k);
        lemma_find_key_push(rows, (k, e), k);
        assert forall|k2: Seq<char>| k2 != k implies entry_of(res, k2) == entry_of(rows, k2) by {
            lemma_find_key_push(rows, (k, e), k2);
        }
        assert forall|i: int, j: int| 0 <= i < j < res.len() implies lex_lt(#[trigger] res[i].0, #[trigger] res[j].0) by {
            if j < rows.len() {
                assert(res[i] == rows[i] && res[j] == rows[j]);
            } else {
                assert(res[i] == rows[i]);
                if i < init.len() {
                    assert(rows[i] == init[i]);
                    lemma_lex_lt_trans(init[i].0, last.0, k);
                }
            }
        }
        assert forall|i: int| 0 <= i < res.len() implies (#[trigger] res[i]).0 == k || exists|j: int|
            0 <= j < rows.len() && rows[j].0 == res[i].0 by {
            if i < rows.len() {
                assert(res[i] == rows[i]);
            }
        }
    } else {
        lemma_lex_total(last.0, k);
        assert(lex_lt(k, last.0));
        lemma_written_entry_reads_back(init, k, e);
        let mid = ins(init, k, e);
        assert(res == mid.push(last));
        assert forall|i: int| 0 <= i < mid.len() implies lex_lt(#[trigger] mid[i].0, last.0) by {
            if mid[i].0 != k {
                let j = choose|j: int| 0 <= j < init.len() && init[j].0 == mid[i].0;
                assert(lex_lt(init[j].0, last.0));
            }
        }
        assert forall|i: int, j: int| 0 <= i < j < res.len() implies lex_lt(#[trigger] res[i].0, #[trigger] res[j].0) by {
            if j < mid.len() {
                assert(res[i] == mid[i] && res[j] == mid[j]);
            } else {
                assert(res[i] == mid[i]);
            }
        }
        assert forall|i: int| 0 <= i < mid.len() implies (#[trigger] mid[i]).0 != last.0 by {
            assert(lex_lt(mid[i].0, last.0));
        }
        lemma_find_key_push(mid, last, k);
        assert forall|k2: Seq<char>| k2 != k implies entry_of(res, k2) == entry_of(rows, k2) by {
            lemma_find_key_push(mid, last, k2);
            lemma_find_key_push(init, last, k2);
            if k2 == last.0 {
                lemma_absent(mid, k2);
                lemma_absent(init, k2);
            }
        }
        assert forall|i: int| 0 <= i < res.len() implies (#[trigger] res[i]).0 == k || exists|j: int|
            0 <= j < rows.len() && rows[j].0 == res[i].0 by {
            if i < mid.len() {
                assert(res[i] == mid[i]);
                if mid[i].0 != k {
                    let j = choose|j: int| 0 <= j < init.len() && init[j].0 == mid[i].0;
                    assert(rows[j] == init[j]);
                }
            } else {
                assert(res[i] == last);
                assert(rows[rows.len() - 1] == last);
            }
        }
    }
}

/// A row's line without its line break.
pub open spec fn body_line(r: (Seq<char>, Entry)) -> Seq<char> {
    dec(r.1.last as nat) + seq![' '] + dec(r.1.count as nat) + seq![' '] + r.0
}

proof fn lemma_dec_word(n: nat)
    ensures
        is_word(dec(n)),
    decreases n,
{
    if n >= 10 {
        lemma_dec_word(n / 10);
    }
    let d = dec(n);
    assert forall|i: int| 0 <= i < d.len() implies !is_ws(#[trigger] d[i]) by {
        if n >= 10 {
            assert(d == dec(n / 10).push(crate::text::digit_char((n % 10) as int)));
            if i < d.len() - 1 {
                assert(d[i] == dec(n / 10)[i]);
            }
        }
    }
}

proof fn lemma_body_line_reads(r: (Seq<char>, Entry))
    requires
        is_word(r.0),
    ensures
        parse_line(body_line(r)) == Some(r),
        !crate::text::contains(body_line(r), '\n'),
        strip_cr(body_line(r)) == body_line(r),
{
    let a = dec(r.1.last as nat);
    let b = dec(r.1.count as nat);
    lemma_dec_word(r.1.last as nat);
    lemma_dec_word(r.1.count as nat);
    let ws = seq![a, b, r.0];
    assert(ws.drop_last().drop_last() =~= seq![a]);
    assert(ws.drop_last() =~= seq![a, b]);
    assert(join(seq![a], seq![' ']) == a);
    assert(join(seq![a, b], seq![' ']) == a + seq![' '] + b);
    assert(join(ws, seq![' ']) == (a + seq![' '] + b) + seq![' '] + r.0);
    assert(body_line(r) =~= join(ws, seq![' ']));
    assert forall|i: int| 0 <= i < ws.len() implies is_word(#[trigger] ws[i]) by {}
    lemma_words_join(ws);
    assert(words(body_line(r)) == ws);
    lemma_parse_dec(r.1.last);
    lemma_parse_dec(r.1.count as u64);
    let l = body_line(r);
    assert forall|i: int| 0 <= i < l.len() implies l[i] != '\n' by {
        if i < a.len() {
            assert(l[i] == a[i]);
        } else if i == a.len() {
        } else if i < a.len() + 1 + b.len() {
            assert(l[i] == b[i - a.len() - 1]);
        } else if i == a.len() + 1 + b.len() {
        } else {
            assert(l[i] == r.0[i - a.len() - 2 - b.len()]);
        }
    }
    assert(l.last() == r.0.last());
    assert(!is_ws(r.0[r.0.len() - 1]));
}

proof fn lemma_render_lines(rows: Seq<(Seq<char>, Entry)>)
    ensures
        render_rows(rows) == lines_text(rows.map_values(|r: (Seq<char>, Entry)| body_line(r))),
    decreases rows.len(),
{
    if rows.len() > 0 {
        let ls = rows.map_values(|r: (Seq<char>, Entry)| body_line(r));
        lemma_render_lines(rows.drop_last());
        assert(ls.drop_last() =~= rows.drop_last().map_values(|r: (Seq<char>, Entry)| body_line(r)));
        assert(ls.last() == body_line(rows.last()));
        assert(row_line(rows.last().0, rows.last().1) =~= body_line(rows.last()) + seq!['\n']);
        assert(render_rows(rows) =~= lines_text(ls.drop_last()) + ls.last() + seq!['\n']);
    }
}

proof fn lemma_load_bodies(rows: Seq<(Seq<char>, Entry)>)
    requires
        ascending(rows),
        forall|i: int| 0 <= i < rows.len() ==> is_word(#[trigger] rows[i].0),
    ensures
        load_rows(rows.map_values(|r: (Seq<char>, Entry)| body_line(r))) == rows,
    decreases rows.len(),
{
    if rows.len() > 0 {
        let ls = rows.map_values(|r: (Seq<char>, Entry)| body_line(r));
        let init = rows.drop_last();
        assert forall|i: int, j: int| 0 <= i < j < init.len() implies lex_lt(#[trigger] init[i].0, #[trigger] init[j].0) by {
            assert(init[i] == rows[i] && init[j] == rows[j]);
        }
        assert forall|i: int| 0 <= i < init.len() implies is_word(#[trigger] init[i].0) by {
            assert(init[i] == rows[i]);
        }
        lemma_load_bodies(init);
        assert(ls.drop_last() =~= init.map_values(|r: (Seq<char>, Entry)| body_line(r)));
        let last = rows.last();
        assert(is_word(rows[rows.len() - 1].0));
        lemma_body_line_reads(last);
        assert(ls.last() == body_line(last));
        if init.len() == 0 {
            assert(rows =~= seq![last]);
        } else {
            assert(lex_lt(rows[init.len() - 1].0, rows[rows.len() - 1].0));
            assert(init.last() == rows[init.len() - 1]);
            assert(init.last().0 != last.0);
            assert(rows =~= init.push(last));
        }
    }
}

/// What the file is written as reads back as the same history: rows kept
/// one per key in ascending order, whose keys are single words (as every
/// connection key is), load from their rendered text exactly as they were.
pub proof fn lemma_rendered_rows_read_back(rows: Seq<(Seq<char>, Entry)>)
    requires
        ascending(rows),
        forall|i: int| 0 <= i < rows.len() ==> is_word(#[trigger] rows[i].0),
    ensures
        load_spec(render_rows(rows)) == rows,
{
    let ls = rows.map_values(|r: (Seq<char>, Entry)| body_line(r));
    lemma_render_lines(rows);
    assert forall|i: int| 0 <= i < ls.len() implies !crate::text::contains(#[trigger] ls[i], '\n') by {
        lemma_body_line_reads(rows[i]);
    }
    lemma_lines_text(ls);
    assert forall|i: int| 0 <= i < ls.len() implies strip_all(ls)[i] == ls[i] by {
        lemma_body_line_reads(rows[i]);
    }
    assert(strip_all(ls) =~= ls);
    lemma_load_bodies(rows);
}

/// Every history read from a file is kept one row per key, in order.
pub proof fn lemma_loaded_rows_ascend(ls: Seq<Seq<char>>)
    ensures
        ascending(load_rows(ls)),
    decreases ls.len(),
{
    if ls.len() > 0 {
        lemma_loaded_rows_ascend(ls.drop_last());
        match parse_line(ls.last()) {
            Some((k, e)) => {
                lemma_written_entry_reads_back(load_rows(ls.drop_last()), k, e);
            },
            None => {},
        }
    }
}

/// Every key a file's history holds is a single word.
proof fn lemma_loaded_keys_words(ls: Seq<Seq<char>>)
    ensures
        forall|i: int| 0 <= i < load_rows(ls).len() ==> is_word(#[trigger] load_rows(ls)[i].0),
    decreases ls.len(),
{
    if ls.len() > 0 {
        lemma_loaded_keys_words(ls.drop_last());
        let rows = load_rows(ls.drop_last());
        match parse_line(ls.last()) {
            Some((k, e)) => {
                lemma_words_are_words(ls.last());
                assert(is_word(words(ls.last())[2]));
                lemma_loaded_rows_ascend(ls.drop_last());
                lemma_written_entry_reads_back(rows, k, e);
                let out = ins(rows, k, e);
                assert forall|i: int| 0 <= i < out.len() implies is_word(#[trigger] out[i].0) by {
                    if out[i].0 != k {
                        let j = choose|j: int| 0 <= j < rows.len() && rows[j].0 == out[i].0;
                        assert(is_word(rows[j].0));
                    }
                }
            },
            None => {},
        }
    }
}

/// A stamp written into the file is read back from it: the history loaded
/// from the new text holds `e` for `key` and every other key's entry as the
/// old text had it.
pub proof fn lemma_stamp_reads_back(text: Seq<char>, key: Seq<char>, e: Entry)
    requires
        is_word(key),
    ensures
        load_spec(render_rows(ins(load_spec(text), key, e))) == ins(load_spec(text), key, e),
        entry_of(load_spec(render_rows(ins(load_spec(text), key, e))), key) == Some(e),
        forall|k2: Seq<char>|
            k2 != key ==> entry_of(load_spec(render_rows(ins(load_spec(text), key, e))), k2) == entry_of(
                load_spec(text),
                k2,
            ),
{
    let rows = load_spec(text);
    lemma_loaded_rows_ascend(lines(text));
    lemma_loaded_keys_words(lines(text));
    lemma_written_entry_reads_back(rows, key, e);
    let out = ins(rows, key, e);
    assert forall|i: int| 0 <= i < out.len() implies is_word(#[trigger] out[i].0) by {
        if out[i].0 != key {
            let j = choose|j: int| 0 <= j < rows.len() && rows[j].0 == out[i].0;
            assert(is_word(rows[j].0));
        }
    }
    lemma_rendered_rows_read_back(out);
}

/// A record moved to a new key is read back under it, and no longer under
/// the old one: the history loaded from the new text holds `e` for
/// `new_key`, nothing for `old_key`, and every other key's entry as before.
pub proof fn lemma_moved_record_reads_back(text: Seq<char>, old_key: Seq<char>, new_key: Seq<char>, e: Entry)
    requires
        is_word(new_key),
        old_key != new_key,
    ensures
        ({
            let rows = load_spec(text);
            let out = ins(without(rows, old_key), new_key, e);
            &&& load_spec(render_rows(out)) == out
            &&& entry_of(out, new_key) == Some(e)
            &&& entry_of(out, old_key) is None
            &&& forall|k2: Seq<char>| k2 != old_key && k2 != new_key ==> entry_of(out, k2) == entry_of(rows, k2)
        }),
{
    let rows = load_spec(text);
    lemma_loaded_rows_ascend(lines(text));
    lemma_loaded_keys_words(lines(text));
    lemma_find_key_props(rows, old_key);
    let rest = without(rows, old_key);
    match find_key(rows, old_key) {
        Some(i) => {
            assert forall|a: int, b: int| 0 <= a < b < rest.len() implies lex_lt(#[trigger] rest[a].0, #[trigger] rest[b].0) by {
                if b < i {
                    assert(rest[a] == rows[a] && rest[b] == rows[b]);
                } else if a < i {
                    assert(rest[a] == rows[a] && rest[b] == rows[b + 1]);
                } else {
                    assert(rest[a] == rows[a + 1] && rest[b] == rows[b + 1]);
                }
            }
            assert forall|j: int| 0 <= j < rest.len() implies (#[trigger] rest[j]).0 != old_key by {
                if j < i {
                    assert(rest[j] == rows[j]);
                    assert(lex_lt(rows[j].0, rows[i].0));
                } else {
                    assert(rest[j] == rows[j + 1]);
                    assert(lex_lt(rows[i].0, rows[j + 1].0));
                }
            }
            lemma_absent(rest, old_key);
            assert forall|j: int| 0 <= j < rest.len() implies is_word(#[trigger] rest[j].0) by {
                if j < i {
                    assert(rest[j] == rows[j]);
                } else {
                    assert(rest[j] == rows[j + 1]);
                }
            }
            assert forall|k2: Seq<char>| k2 != old_key implies entry_of(rest, k2) == entry_of(rows, k2) by {
                lemma_find_key_props(rows, k2);
                lemma_find_key_props(rest, k2);
                match find_key(rows, k2) {
                    Some(m) => {
                        assert forall|j: int| 0 <= j < m implies (#[trigger] rows[j]).0 != k2 by {
                            lemma_find_key_first(rows, k2, j);
                        }
                        if m < i {
                            assert forall|j: int| 0 <= j < m implies (#[trigger] rest[j]).0 != k2 by {
                                assert(rest[j] == rows[j]);
                            }
                            assert(rest[m] == rows[m]);
                            lemma_find_key(rest, k2, m);
                        } else {
                            assert(m != i);
                            assert forall|j: int| 0 <= j < m - 1 implies (#[trigger] rest[j]).0 != k2 by {
                                if j < i {
                                    assert(rest[j] == rows[j]);
                                } else {
                                    assert(rest[j] == rows[j + 1]);
                                }
                            }
                            assert(rest[m - 1] == rows[m]);
                            lemma_find_key(rest, k2, m - 1);
                        }
                    },
                    None => {
                        lemma_find_key_none(rows, k2);
                        assert forall|j: int| 0 <= j < rest.len() implies (#[trigger] rest[j]).0 != k2 by {
                            if j < i {
                                assert(rest[j] == rows[j]);
                            } else {
                                assert(rest[j] == rows[j + 1]);
                            }
                        }
                        lemma_absent(rest, k2);
                    },
                }
            }
        },
        None => {
            lemma_find_key_none(rows, old_key);
            lemma_absent(rows, old_key);
        },
    }
    lemma_written_entry_reads_back(rest, new_key, e);
    let out = ins(rest, new_key, e);
    assert forall|j: int| 0 <= j < out.len() implies is_word(#[trigger] out[j].0) by {
        if out[j].0 != new_key {
            let m = choose|m: int| 0 <= m < rest.len() && rest[m].0 == out[j].0;
            assert(is_word(rest[m].0));
        }
    }
    lemma_rendered_rows_read_back(out);
}

proof fn lemma_find_key_first(rows: Seq<(Seq<char>, Entry)>, k: Seq<char>, j: int)
    requires
        find_key(rows, k) matches Some(m) && 0 <= j < m,
    ensures
        rows[j].0 != k,
    decreases rows.len(),
{
    lemma_find_key_props(rows, k);
    if rows[0].0 != k && j > 0 {
        let m = find_key(rows, k)->0;
        assert(find_key(rows.drop_first(), k) == Some(m - 1));
        lemma_find_key_first(rows.drop_first(), k, j - 1);
        assert(rows[j] == rows.drop_first()[j - 1]);
    }
}

proof fn lemma_find_key_none(rows: Seq<(Seq<char>, Entry)>, k: Seq<char>)
    requires
        find_key(rows, k) is None,
    ensures
        forall|j: int| 0 <= j < rows.len() ==> (#[trigger] rows[j]).0 != k,
    decreases rows.len(),
{
    if rows.len() > 0 {
        lemma_find_key_none(rows.drop_first(), k);
        assert forall|j: int| 0 <= j < rows.len() implies (#[trigger] rows[j]).0 != k by {
            if j > 0 {
                assert(rows[j] == rows.drop_first()[j - 1]);
            }
        }
    }
}

} // verus!
