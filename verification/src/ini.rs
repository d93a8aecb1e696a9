//! The `[section]` + `key=value` files two of the engines already use:
//! Postgres' `~/.pg_service.conf` and MySQL's `~/.my.cnf`, and the lists
//! easysql keeps itself in the same shape.
//!
//! We parse just enough to list and to rewrite the one section being touched.
//! Every other line, comments and ordering included, is copied through
//! untouched. Reading and writing the file, and the backup taken before a
//! write, happen outside; here a file is its text.

use crate::text::{
    ends_with, has_prefix, starts_with,
    chars_of, copy, cviews, eq_ic, eq_ignore_case, extend, file_body, file_body_of, find,
    find_char, is_blank, lines, lines_of, seq_eq, slice_to_vec, string_of, trim, trimmed,
    contains, is_ws, lemma_file_body_lines, lemma_find_char, lemma_find_char_props,
    lemma_lines_no_newline, lemma_trim_fixed, lemma_file_body_lines_any, lemma_trim_idem,
    lemma_trim_within, lemma_trim_strip_cr, lemma_trimmed_ends, strip_all,
    strip_cr,
};
use vstd::prelude::*;

verus! {

/// One `[name]` block and the keys under it, plus where it sits in the file so
/// an edit can replace exactly those lines and nothing else.
pub struct Section {
    pub name: String,
    pub keys: Vec<(String, String)>,
    /// Line index of the `[name]` header.
    pub at: usize,
    /// One past the block's last line, trailing blanks excluded.
    pub end: usize,
}

/// What a section is, as values.
pub struct SectionV {
    pub name: Seq<char>,
    pub keys: Seq<(Seq<char>, Seq<char>)>,
    pub at: int,
    pub end: int,
}

pub open spec fn kviews(k: Seq<(String, String)>) -> Seq<(Seq<char>, Seq<char>)> {
    k.map_values(|p: (String, String)| (p.0@, p.1@))
}

impl View for Section {
    type V = SectionV;

    open spec fn view(&self) -> SectionV {
        SectionV { name: self.name@, keys: kviews(self.keys@), at: self.at as int, end: self.end as int }
    }
}

pub open spec fn sviews(s: Seq<Section>) -> Seq<SectionV> {
    s.map_values(|x: Section| x@)
}

/// Where the first key equal to `k`, ignoring ASCII case, sits.
pub open spec fn key_index(keys: Seq<(Seq<char>, Seq<char>)>, k: Seq<char>) -> Option<int>
    decreases keys.len(),
{
    if keys.len() == 0 {
        None
    } else if eq_ic(keys[0].0, k) {
        Some(0)
    } else {
        match key_index(keys.drop_first(), k) {
            Some(i) => Some(i + 1),
            None => None,
        }
    }
}

pub proof fn lemma_key_index(keys: Seq<(Seq<char>, Seq<char>)>, k: Seq<char>, i: int)
    requires
        0 <= i <= keys.len(),
        forall|j: int| 0 <= j < i ==> !eq_ic(#[trigger] keys[j].0, k),
    ensures
        i < keys.len() && eq_ic(keys[i].0, k) ==> key_index(keys, k) == Some(i),
        i == keys.len() ==> key_index(keys, k) is None,
    decreases i,
{
    if i > 0 {
        assert forall|j: int| 0 <= j < i - 1 implies !eq_ic(#[trigger] keys.drop_first()[j].0, k) by {
            assert(keys.drop_first()[j] == keys[j + 1]);
        }
        lemma_key_index(keys.drop_first(), k, i - 1);
    }
}

/// What `Section::get` answers: the value of the first key matching `k`.
/// Where `key_index` lands, and that nothing before it matches.
pub proof fn lemma_key_index_props(keys: Seq<(Seq<char>, Seq<char>)>, k: Seq<char>)
    ensures
        key_index(keys, k) matches Some(i) ==> 0 <= i < keys.len() && eq_ic(keys[i].0, k)
            && forall|j: int| 0 <= j < i ==> !eq_ic(#[trigger] keys[j].0, k),
        key_index(keys, k) is None ==> forall|j: int| 0 <= j < keys.len() ==> !eq_ic(
            #[trigger] keys[j].0,
            k,
        ),
    decreases keys.len(),
{
    if keys.len() > 0 {
        lemma_key_index_props(keys.drop_first(), k);
        assert forall|j: int| 1 <= j < keys.len() implies keys[j] == keys.drop_first()[j - 1] by {}
    }
}

pub open spec fn lookup(keys: Seq<(Seq<char>, Seq<char>)>, k: Seq<char>) -> Option<Seq<char>> {
    match key_index(keys, k) {
        Some(i) => Some(keys[i].1),
        None => None,
    }
}

/// Whether some key matches `k`, ignoring ASCII case.
pub open spec fn has_key(keys: Seq<(Seq<char>, Seq<char>)>, k: Seq<char>) -> bool {
    exists|j: int| 0 <= j < keys.len() && eq_ic(#[trigger] keys[j].0, k)
}

/// Whether `k` is one of `known`, ignoring ASCII case.
#[verifier::opaque]
pub open spec fn is_known(known: Seq<&str>, k: Seq<char>) -> bool {
    exists|j: int| 0 <= j < known.len() && eq_ic(#[trigger] known[j]@, k)
}

/// Whether no name in `known` owns a key.
pub open spec fn unowned(known: Seq<&str>) -> spec_fn((Seq<char>, Seq<char>)) -> bool {
    |p: (Seq<char>, Seq<char>)| !is_known(known, p.0)
}

/// The keys no name in `known` owns, in file order.
pub open spec fn rest_of(keys: Seq<(Seq<char>, Seq<char>)>, known: Seq<&str>) -> Seq<
    (Seq<char>, Seq<char>),
> {
    keys.filter(unowned(known))
}

fn known_has(known: &[&str], k: &[char]) -> (r: bool)
    ensures
        r == is_known(known@, k@),
{
    let mut j: usize = 0;
    while j < known.len()
        invariant
            j <= known@.len(),
            forall|i: int| 0 <= i < j ==> !eq_ic(#[trigger] known@[i]@, k@),
        decreases known@.len() - j,
    {
        let name = chars_of(known[j]);
        if eq_ignore_case(name.as_slice(), k) {
            proof {
                reveal(is_known);
            }
            return true;
        }
        j = j + 1;
    }
    proof {
        reveal(is_known);
    }
    false
}

impl Section {
    pub fn get(&self, key: &str) -> (r: Option<&str>)
        ensures
            r matches Some(v) ==> lookup(self@.keys, key@) == Some(v@),
            r is None ==> lookup(self@.keys, key@) is None,
    {
        let k = chars_of(key);
        let mut i: usize = 0;
        while i < self.keys.len()
            invariant
                i <= self.keys@.len(),
                k@ == key@,
                forall|j: int| 0 <= j < i ==> !eq_ic(#[trigger] kviews(self.keys@)[j].0, key@),
            decreases self.keys@.len() - i,
        {
            let name = chars_of(self.keys[i].0.as_str());
            if eq_ignore_case(name.as_slice(), k.as_slice()) {
                proof {
                    lemma_key_index(kviews(self.keys@), key@, i as int);
                }
                return Some(self.keys[i].1.as_str());
            }
            i = i + 1;
        }
        proof {
            lemma_key_index(kviews(self.keys@), key@, i as int);
        }
        None
    }

    /// Everything except the keys named in `known`, in file order. This is what
    /// keeps a `sslmode` or a `connect_timeout` we have no field for from being
    /// silently dropped the first time the wizard rewrites the section.
    pub fn rest(&self, known: &[&str]) -> (r: Vec<(String, String)>)
        ensures
            kviews(r@) == rest_of(self@.keys, known@),
    {
        let mut r: Vec<(String, String)> = Vec::new();
        let mut i: usize = 0;
        while i < self.keys.len()
            invariant
                i <= self.keys@.len(),
                kviews(r@) == rest_of(kviews(self.keys@).take(i as int), known@),
            decreases self.keys@.len() - i,
        {
            let name = chars_of(self.keys[i].0.as_str());
            let ghost prev = r@;
            proof {
                reveal_with_fuel(Seq::filter, 1);
                assert(kviews(self.keys@).take(i + 1).drop_last() =~= kviews(self.keys@).take(
                    i as int,
                ));
            }
            if !known_has(known, name.as_slice()) {
                r.push((self.keys[i].0.clone(), self.keys[i].1.clone()));
                assert(kviews(r@) =~= kviews(prev).push(kviews(self.keys@)[i as int]));
            }
            i = i + 1;
        }
        assert(kviews(self.keys@).take(self.keys@.len() as int) =~= kviews(self.keys@));
        r
    }
}

// ---------------------------------------------------------------------------
// parsing
// ---------------------------------------------------------------------------

/// `[name]` -> `name`, for a header that is actually closed.
pub open spec fn header_name(line: Seq<char>) -> Option<Seq<char>> {
    if line.len() >= 2 && line[0] == '[' && line.last() == ']' {
        Some(trim(line.subrange(1, line.len() - 1)))
    } else {
        None
    }
}

/// A blank, `#` or `;` line, after trimming: nothing to read.
pub open spec fn is_skipped(line: Seq<char>) -> bool {
    line.len() == 0 || line[0] == '#' || line[0] == ';'
}

/// A `key=value` line as key and value, both trimmed. A bare flag
/// (`no-auto-rehash`) is a key with an empty value.
pub open spec fn key_value(line: Seq<char>) -> (Seq<char>, Seq<char>) {
    match find_char(line, '=') {
        Some(i) => (trim(line.take(i)), trim(line.skip(i + 1))),
        None => (line, seq![]),
    }
}

/// Walk `end` back past blank lines, but not below `floor`.
pub open spec fn trim_back(lines: Seq<Seq<char>>, floor: int, end: int) -> int
    decreases end - floor,
{
    if end > floor && trim(lines[end - 1]).len() == 0 {
        trim_back(lines, floor, end - 1)
    } else {
        end
    }
}

pub open spec fn with_end(s: SectionV, end: int) -> SectionV {
    SectionV { name: s.name, keys: s.keys, at: s.at, end }
}

pub open spec fn with_key(s: SectionV, kv: (Seq<char>, Seq<char>)) -> SectionV {
    SectionV { name: s.name, keys: s.keys.push(kv), at: s.at, end: s.end }
}

/// Close the last section, if any, at `trim_back(.., upto)`.
pub open spec fn close_last(secs: Seq<SectionV>, ls: Seq<Seq<char>>, upto: int) -> Seq<SectionV> {
    if secs.len() > 0 {
        secs.update(
            secs.len() - 1,
            with_end(secs.last(), trim_back(ls, secs.last().at + 1, upto)),
        )
    } else {
        secs
    }
}

/// What line `i` does to the sections read so far. A key before any header
/// belongs to no section and is dropped; a duplicate key keeps the first value,
/// which is what both clients do.
pub open spec fn parse_step(secs: Seq<SectionV>, ls: Seq<Seq<char>>, i: int) -> Seq<SectionV> {
    let line = trim(ls[i]);
    if is_skipped(line) {
        secs
    } else if header_name(line) is Some {
        close_last(secs, ls, i).push(
            SectionV { name: header_name(line)->0, keys: seq![], at: i, end: ls.len() as int },
        )
    } else if secs.len() == 0 {
        secs
    } else if has_key(secs.last().keys, key_value(line).0) {
        secs
    } else {
        secs.update(secs.len() - 1, with_key(secs.last(), key_value(line)))
    }
}

/// The sections read from the first `n` lines.
pub open spec fn parse_prefix(ls: Seq<Seq<char>>, n: int) -> Seq<SectionV>
    decreases n,
{
    if n <= 0 {
        seq![]
    } else {
        parse_step(parse_prefix(ls, n - 1), ls, n - 1)
    }
}

/// The sections of a whole file.
pub open spec fn parse_text(text: Seq<char>) -> Seq<SectionV> {
    let ls = lines(text);
    close_last(parse_prefix(ls, ls.len() as int), ls, ls.len() as int)
}

/// Headers sit before their ends, which sit within the file.
pub open spec fn well_placed(secs: Seq<SectionV>, n: int) -> bool {
    forall|j: int| 0 <= j < secs.len() ==> 0 <= #[trigger] secs[j].at < secs[j].end <= n
}

fn trim_back_of(ls: &Vec<Vec<char>>, floor: usize, end: usize) -> (r: usize)
    requires
        floor <= end <= ls@.len(),
    ensures
        r as int == trim_back(cviews(ls@), floor as int, end as int),
        floor <= r <= end,
{
    let mut e = end;
    while e > floor && is_blank(ls[e - 1].as_slice())
        invariant
            floor <= e <= end,
            end <= ls@.len(),
            trim_back(cviews(ls@), floor as int, e as int) == trim_back(
                cviews(ls@),
                floor as int,
                end as int,
            ),
        decreases e,
    {
        assert(cviews(ls@)[e - 1] == ls@[e - 1]@);
        e = e - 1;
    }
    proof {
        if e > floor {
            assert(cviews(ls@)[e - 1] == ls@[e - 1]@);
        }
    }
    e
}

fn key_present(keys: &Vec<(String, String)>, k: &[char]) -> (r: bool)
    ensures
        r == has_key(kviews(keys@), k@),
{
    let mut j: usize = 0;
    while j < keys.len()
        invariant
            j <= keys@.len(),
            forall|i: int| 0 <= i < j ==> !eq_ic(#[trigger] kviews(keys@)[i].0, k@),
        decreases keys@.len() - j,
    {
        let name = chars_of(keys[j].0.as_str());
        if eq_ignore_case(name.as_slice(), k) {
            assert(eq_ic(kviews(keys@)[j as int].0, k@));
            return true;
        }
        j = j + 1;
    }
    false
}

/// `[name]` -> `name`, for a header that is actually closed.
fn header_of(line: &[char]) -> (r: Option<Vec<char>>)
    ensures
        r matches Some(n) ==> header_name(line@) == Some(n@),
        r is None ==> header_name(line@) is None,
{
    let n = line.len();
    if n >= 2 && line[0] == '[' && line[n - 1] == ']' {
        let inner = slice_to_vec(line, 1, n - 1);
        Some(trimmed(inner.as_slice()))
    } else {
        None
    }
}

fn key_value_of(line: &[char]) -> (r: (Vec<char>, Vec<char>))
    ensures
        (r.0@, r.1@) == key_value(line@),
{
    match find(line, '=') {
        Some(i) => {
            assert(i < line@.len());
            assert(line@.len() == line.len());
            let k = slice_to_vec(line, 0, i);
            let v = slice_to_vec(line, i + 1, line.len());
            assert(k@ =~= line@.take(i as int));
            assert(v@ =~= line@.skip(i + 1));
            (trimmed(k.as_slice()), trimmed(v.as_slice()))
        },
        None => (copy(line), Vec::new()),
    }
}

/// Every section starts before it ends, and ends within `n` lines.
pub open spec fn placed(v: Seq<Section>, n: int) -> bool {
    forall|j: int| #![trigger v[j]] 0 <= j < v.len() ==> v[j].at < v[j].end <= n
}

proof fn lemma_placed_push(v: Seq<Section>, x: Section, n: int)
    requires
        placed(v, n),
        x.at < x.end <= n,
    ensures
        placed(v.push(x), n),
{
    assert forall|j: int| #![trigger v.push(x)[j]] 0 <= j < v.push(x).len() implies v.push(x)[j].at
        < v.push(x)[j].end <= n by {
        if j < v.len() {
            assert(v.push(x)[j] == v[j]);
        }
    }
}

proof fn lemma_placed_drop_last(v: Seq<Section>, n: int)
    requires
        placed(v, n),
        v.len() > 0,
    ensures
        placed(v.drop_last(), n),
{
    assert forall|j: int| #![trigger v.drop_last()[j]] 0 <= j < v.drop_last().len() implies v.drop_last()[j].at
        < v.drop_last()[j].end <= n by {
        assert(v.drop_last()[j] == v[j]);
    }
}

/// Close the last section of `out` at `trim_back(.., upto)`.
#[verifier::spinoff_prover]
fn close_last_of(out: &mut Vec<Section>, ls: &Vec<Vec<char>>, upto: usize)
    requires
        upto <= ls@.len(),
        forall|j: int| 0 <= j < old(out)@.len() ==> #[trigger] old(out)@[j].at < upto,
        placed(old(out)@, ls@.len() as int),
    ensures
        sviews(final(out)@) == close_last(sviews(old(out)@), cviews(ls@), upto as int),
        final(out)@.len() == old(out)@.len(),
        forall|j: int| 0 <= j < final(out)@.len() ==> #[trigger] final(out)@[j].at == old(
            out,
        )@[j].at,
        placed(final(out)@, ls@.len() as int),
{
    if out.len() > 0 {
        let ghost n = out@.len();
        let mut last = out.pop().unwrap();
        assert(last.at < upto);
        let e = trim_back_of(ls, last.at + 1, upto);
        last.end = e;
        proof {
            lemma_placed_drop_last(old(out)@, ls@.len() as int);
            assert(out@ == old(out)@.drop_last());
            lemma_placed_push(out@, last, ls@.len() as int);
        }
        out.push(last);
        assert(sviews(out@) =~= close_last(sviews(old(out)@), cviews(ls@), upto as int));
    }
}

/// Parse INI text. A key before any header belongs to no section and is
/// dropped; a duplicate key keeps the first value, which is what both clients do.
#[verifier::spinoff_prover]
pub fn parse(text: &str) -> (r: Vec<Section>)
    ensures
        sviews(r@) == parse_text(text@),
        well_placed(sviews(r@), lines(text@).len() as int),
{
    let chars = chars_of(text);
    let ls = lines_of(chars.as_slice());
    let ghost lv = cviews(ls@);
    let mut out: Vec<Section> = Vec::new();
    let mut i: usize = 0;
    while i < ls.len()
        invariant
            i <= ls@.len(),
            lv == cviews(ls@),
            lv == lines(text@),
            sviews(out@) == parse_prefix(lv, i as int),
            forall|j: int| 0 <= j < out@.len() ==> #[trigger] out@[j].at < i,
            placed(out@, ls@.len() as int),
        decreases ls@.len() - i,
    {
        let line = trimmed(ls[i].as_slice());
        assert(line@ == trim(lv[i as int]));
        let ghost before = sviews(out@);
        let skipped = line.len() == 0 || line[0] == '#' || line[0] == ';';
        if skipped {
        } else {
            match header_of(line.as_slice()) {
                Some(name) => {
                    close_last_of(&mut out, &ls, i);
                    let sec = Section {
                        name: string_of(name.as_slice()),
                        keys: Vec::new(),
                        at: i,
                        end: ls.len(),
                    };
                    out.push(sec);
                    assert(kviews(Seq::<(String, String)>::empty()) =~= seq![]);
                    assert(sviews(out@) =~= parse_step(before, lv, i as int));
                },
                None => {
                    if out.len() > 0 {
                        let (k, v) = key_value_of(line.as_slice());
                        let last_i = out.len() - 1;
                        if !key_present(&out[last_i].keys, k.as_slice()) {
                            let ghost la = out@[last_i as int].at;
                            let ghost le = out@[last_i as int].end;
                            let mut last = out.pop().unwrap();
                            let ghost old_keys = last.keys@;
                            last.keys.push((string_of(k.as_slice()), string_of(v.as_slice())));
                            assert(kviews(last.keys@) =~= kviews(old_keys).push((k@, v@)));
                            out.push(last);
                            assert(out@[last_i as int].at == la && out@[last_i as int].end == le);
                            assert(sviews(out@) =~= parse_step(before, lv, i as int));
                        }
                    }
                },
            }
        }
        i = i + 1;
    }
    close_last_of(&mut out, &ls, ls.len());
    assert(ls@.len() == lines(text@).len());
    assert forall|j: int| 0 <= j < sviews(out@).len() implies 0 <= #[trigger] sviews(out@)[j].at
        < sviews(out@)[j].end <= lines(text@).len() by {
        assert(sviews(out@)[j] == out@[j]@);
    }
    out
}

// ---------------------------------------------------------------------------
// rewriting
// ---------------------------------------------------------------------------

/// The lines a section is written as. A key with an empty value stays a bare
/// flag.
pub open spec fn render_keys(keys: Seq<(Seq<char>, Seq<char>)>) -> Seq<Seq<char>>
    decreases keys.len(),
{
    if keys.len() == 0 {
        seq![]
    } else {
        render_keys(keys.drop_last()).push(key_line(keys.last()))
    }
}

/// One key's line: `key=value`, or the bare key when the value is empty.
pub open spec fn key_line(kv: (Seq<char>, Seq<char>)) -> Seq<char> {
    if kv.1.len() == 0 {
        kv.0
    } else {
        kv.0 + seq!['='] + kv.1
    }
}

pub open spec fn render_section(name: Seq<char>, keys: Seq<(Seq<char>, Seq<char>)>) -> Seq<
    Seq<char>,
> {
    seq![seq!['['] + name + seq![']']] + render_keys(keys)
}

fn render_of(name: &[char], keys: &Vec<(String, String)>) -> (r: Vec<Vec<char>>)
    ensures
        cviews(r@) == render_section(name@, kviews(keys@)),
{
    let mut head: Vec<char> = Vec::new();
    head.push('[');
    extend(&mut head, name);
    head.push(']');
    assert(head@ =~= seq!['['] + name@ + seq![']']);
    let mut r: Vec<Vec<char>> = Vec::new();
    r.push(head);
    let mut i: usize = 0;
    while i < keys.len()
        invariant
            i <= keys@.len(),
            cviews(r@) == render_section(name@, kviews(keys@).take(i as int)),
        decreases keys@.len() - i,
    {
        let k = chars_of(keys[i].0.as_str());
        let v = chars_of(keys[i].1.as_str());
        let mut l = copy(k.as_slice());
        if v.len() > 0 {
            l.push('=');
            extend(&mut l, v.as_slice());
            assert(l@ =~= k@ + seq!['='] + v@);
        }
        let ghost lv = l@;
        let ghost prev = r@;
        r.push(l);
        proof {
            let t = kviews(keys@).take(i + 1);
            assert(t.drop_last() =~= kviews(keys@).take(i as int));
            assert(t.last() == kviews(keys@)[i as int]);
            assert(t.last() == (k@, v@));
            assert(cviews(r@) =~= cviews(prev).push(lv));
            assert(render_keys(t) == render_keys(t.drop_last()).push(lv));
            assert(render_section(name@, t) =~= render_section(name@, t.drop_last()).push(lv));
        }
        i = i + 1;
    }
    assert(kviews(keys@).take(keys@.len() as int) =~= kviews(keys@));
    r
}

/// The first section named exactly `name`.
pub open spec fn section_index(secs: Seq<SectionV>, name: Seq<char>) -> Option<int>
    decreases secs.len(),
{
    if secs.len() == 0 {
        None
    } else if secs[0].name == name {
        Some(0)
    } else {
        match section_index(secs.drop_first(), name) {
            Some(i) => Some(i + 1),
            None => None,
        }
    }
}

pub proof fn lemma_section_index(secs: Seq<SectionV>, name: Seq<char>, i: int)
    requires
        0 <= i <= secs.len(),
        forall|j: int| 0 <= j < i ==> (#[trigger] secs[j]).name != name,
    ensures
        i < secs.len() && secs[i].name == name ==> section_index(secs, name) == Some(i),
        i == secs.len() ==> section_index(secs, name) is None,
    decreases i,
{
    if i > 0 {
        assert forall|j: int| 0 <= j < i - 1 implies (#[trigger] secs.drop_first()[j]).name
            != name by {
            assert(secs.drop_first()[j] == secs[j + 1]);
        }
        lemma_section_index(secs.drop_first(), name, i - 1);
    }
}

pub fn section_at(secs: &Vec<Section>, name: &[char]) -> (r: Option<usize>)
    ensures
        r matches Some(i) ==> section_index(sviews(secs@), name@) == Some(i as int) && i
            < secs@.len(),
        r is None ==> section_index(sviews(secs@), name@) is None,
{
    let mut i: usize = 0;
    while i < secs.len()
        invariant
            i <= secs@.len(),
            forall|j: int| 0 <= j < i ==> (#[trigger] sviews(secs@)[j]).name != name@,
        decreases secs@.len() - i,
    {
        let n = chars_of(secs[i].name.as_str());
        if seq_eq(n.as_slice(), name) {
            proof {
                lemma_section_index(sviews(secs@), name@, i as int);
            }
            return Some(i);
        }
        i = i + 1;
    }
    proof {
        lemma_section_index(sviews(secs@), name@, i as int);
    }
    None
}

/// The lines of a file after writing `keys` as section `name`: in place of
/// the section named `target` when there is one, else appended after a blank
/// line.
pub open spec fn upsert_lines(
    text: Seq<char>,
    target: Seq<char>,
    name: Seq<char>,
    keys: Seq<(Seq<char>, Seq<char>)>,
) -> Seq<Seq<char>> {
    let ls = lines(text);
    let secs = parse_text(text);
    match section_index(secs, target) {
        Some(i) => ls.take(secs[i].at) + render_section(name, keys) + ls.skip(secs[i].end),
        None => if ls.len() == 0 {
            render_section(name, keys)
        } else {
            ls.push(seq![]) + render_section(name, keys)
        },
    }
}

pub open spec fn target_of(original: Option<&str>, name: Seq<char>) -> Seq<char> {
    match original {
        Some(o) => o@,
        None => name,
    }
}

fn push_copy(out: &mut Vec<Vec<char>>, l: &[char])
    ensures
        cviews(final(out)@) == cviews(old(out)@).push(l@),
{
    let c = copy(l);
    out.push(c);
    assert(cviews(out@) =~= cviews(old(out)@).push(l@));
}

fn append_lines(out: &mut Vec<Vec<char>>, ls: &Vec<Vec<char>>, a: usize, b: usize)
    requires
        a <= b <= ls@.len(),
    ensures
        cviews(final(out)@) == cviews(old(out)@) + cviews(ls@).subrange(a as int, b as int),
{
    let mut i = a;
    while i < b
        invariant
            a <= i <= b,
            b <= ls@.len(),
            cviews(out@) == cviews(old(out)@) + cviews(ls@).subrange(a as int, i as int),
        decreases b - i,
    {
        push_copy(out, ls[i].as_slice());
        i = i + 1;
        assert(cviews(out@) =~= cviews(old(out)@) + cviews(ls@).subrange(a as int, i as int));
    }
}

/// Write `keys` as section `name`: replacing that section in place if it is
/// there, appending it if it is not. `original` is the name to replace, which
/// differs from `name` when the wizard renamed the section. Every line outside
/// the replaced section is kept as it was.
pub fn upsert(text: &str, original: Option<&str>, name: &str, keys: &Vec<(String, String)>) -> (r:
    String)
    ensures
        r@ == file_body(upsert_lines(text@, target_of(original, name@), name@, kviews(keys@))),
{
    let chars = chars_of(text);
    let ls = lines_of(chars.as_slice());
    let secs = parse(text);
    let name_c = chars_of(name);
    let target = match original {
        Some(o) => chars_of(o),
        None => copy(name_c.as_slice()),
    };
    let ghost expected = upsert_lines(text@, target_of(original, name@), name@, kviews(keys@));
    assert(target@ == target_of(original, name@));
    assert(cviews(ls@) == lines(text@));
    let rendered = render_of(name_c.as_slice(), keys);
    let mut out: Vec<Vec<char>> = Vec::new();
    assert(ls@.len() == lines(text@).len());
    match section_at(&secs, target.as_slice()) {
        Some(i) => {
            assert(sviews(secs@)[i as int] == secs@[i as int]@);
            assert(0 <= sviews(secs@)[i as int].at < sviews(secs@)[i as int].end <= lines(
                text@,
            ).len());
            append_lines(&mut out, &ls, 0, secs[i].at);
            let mut j: usize = 0;
            while j < rendered.len()
                invariant
                    j <= rendered@.len(),
                    cviews(out@) == cviews(ls@).take(secs@[i as int].at as int) + cviews(
                        rendered@,
                    ).take(j as int),
                decreases rendered@.len() - j,
            {
                push_copy(&mut out, rendered[j].as_slice());
                j = j + 1;
                assert(cviews(out@) =~= cviews(ls@).take(secs@[i as int].at as int) + cviews(
                    rendered@,
                ).take(j as int));
            }
            assert(cviews(rendered@).take(rendered@.len() as int) =~= cviews(rendered@));
            append_lines(&mut out, &ls, secs[i].end, ls.len());
            assert(cviews(ls@).subrange(0, secs@[i as int].at as int) =~= cviews(ls@).take(
                secs@[i as int].at as int,
            ));
            assert(cviews(ls@).subrange(secs@[i as int].end as int, ls@.len() as int)
                =~= cviews(ls@).skip(secs@[i as int].end as int));
            assert(cviews(out@) == expected);
        },
        None => {
            append_lines(&mut out, &ls, 0, ls.len());
            assert(cviews(ls@).subrange(0, ls@.len() as int) =~= cviews(ls@));
            if out.len() > 0 {
                out.push(Vec::new());
            }
            let mut j: usize = 0;
            let ghost base = cviews(out@);
            while j < rendered.len()
                invariant
                    j <= rendered@.len(),
                    cviews(out@) == base + cviews(rendered@).take(j as int),
                decreases rendered@.len() - j,
            {
                push_copy(&mut out, rendered[j].as_slice());
                j = j + 1;
                assert(cviews(out@) =~= base + cviews(rendered@).take(j as int));
            }
            assert(cviews(rendered@).take(rendered@.len() as int) =~= cviews(rendered@));
            assert(base.len() == 0 ==> base + cviews(rendered@) =~= cviews(rendered@));
            assert(cviews(out@) == expected);
        },
    }
    let body = file_body_of(&out);
    string_of(body.as_slice())
}

/// The lines of a file after dropping section `name`, and the blank line
/// above it too, so repeated add/delete cycles do not pad the file out.
pub open spec fn remove_lines(text: Seq<char>, name: Seq<char>) -> Option<Seq<Seq<char>>> {
    let ls = lines(text);
    let secs = parse_text(text);
    match section_index(secs, name) {
        Some(i) => {
            let at = secs[i].at;
            let start = if at > 0 && trim(ls[at - 1]).len() == 0 {
                at - 1
            } else {
                at
            };
            Some(ls.take(start) + ls.skip(secs[i].end))
        },
        None => None,
    }
}

/// Drop a whole section; `None` when there is no such section.
pub fn remove(text: &str, name: &str) -> (r: Option<String>)
    ensures
        r matches Some(s) ==> remove_lines(text@, name@) matches Some(ls) && s@ == file_body(ls),
        r is None ==> remove_lines(text@, name@) is None,
{
    let chars = chars_of(text);
    let ls = lines_of(chars.as_slice());
    let secs = parse(text);
    let name_c = chars_of(name);
    assert(ls@.len() == lines(text@).len());
    match section_at(&secs, name_c.as_slice()) {
        Some(i) => {
            assert(sviews(secs@)[i as int] == secs@[i as int]@);
            assert(0 <= sviews(secs@)[i as int].at < sviews(secs@)[i as int].end <= lines(
                text@,
            ).len());
            let at = secs[i].at;
            let start = if at > 0 && is_blank(ls[at - 1].as_slice()) {
                at - 1
            } else {
                at
            };
            assert(at > 0 ==> cviews(ls@)[at - 1] == ls@[at - 1]@);
            let mut out: Vec<Vec<char>> = Vec::new();
            append_lines(&mut out, &ls, 0, start);
            append_lines(&mut out, &ls, secs[i].end, ls.len());
            assert(cviews(ls@).subrange(0, start as int) =~= cviews(ls@).take(start as int));
            assert(cviews(ls@).subrange(secs@[i as int].end as int, ls@.len() as int)
                =~= cviews(ls@).skip(secs@[i as int].end as int));
            let body = file_body_of(&out);
            Some(string_of(body.as_slice()))
        },
        None => None,
    }
}

/// The keys of section `name` with `key` set to `value`, or taken out for
/// `None`; the other keys keep their order.
pub open spec fn set_keys(
    keys: Seq<(Seq<char>, Seq<char>)>,
    key: Seq<char>,
    value: Option<Seq<char>>,
) -> Seq<(Seq<char>, Seq<char>)> {
    let kept = keys.filter(|p: (Seq<char>, Seq<char>)| !eq_ic(p.0, key));
    match value {
        Some(v) => kept.push((key, v)),
        None => kept,
    }
}

pub open spec fn opt_sview(o: Option<String>) -> Option<Seq<char>> {
    match o {
        Some(s) => Some(s@),
        None => None,
    }
}

pub open spec fn opt_view(o: Option<&str>) -> Option<Seq<char>> {
    match o {
        Some(s) => Some(s@),
        None => None,
    }
}

/// Set (or clear, with `None`) one key inside a section that already exists;
/// `None` when there is no such section. Used for a MySQL group's password,
/// where the rest of the group is not ours to rewrite.
pub fn set_key(text: &str, name: &str, key: &str, value: Option<&str>) -> (r: Option<String>)
    ensures
        r is None <==> section_index(parse_text(text@), name@) is None,
        r matches Some(s) ==> ({
            let secs = parse_text(text@);
            let i = section_index(secs, name@)->0;
            s@ == file_body(
                upsert_lines(text@, name@, name@, set_keys(secs[i].keys, key@, opt_view(value))),
            )
        }),
{
    let secs = parse(text);
    let name_c = chars_of(name);
    let key_c = chars_of(key);
    match section_at(&secs, name_c.as_slice()) {
        Some(i) => {
            let ghost ks = sviews(secs@)[i as int].keys;
            let mut keys: Vec<(String, String)> = Vec::new();
            let mut j: usize = 0;
            while j < secs[i].keys.len()
                invariant
                    i < secs@.len(),
                    ks == kviews(secs@[i as int].keys@),
                    j <= secs@[i as int].keys@.len(),
                    kviews(keys@) == ks.take(j as int).filter(
                        |p: (Seq<char>, Seq<char>)| !eq_ic(p.0, key_c@),
                    ),
                decreases secs@[i as int].keys@.len() - j,
            {
                let k = chars_of(secs[i].keys[j].0.as_str());
                let ghost prev = keys@;
                proof {
                    reveal_with_fuel(Seq::filter, 1);
                    assert(ks.take(j + 1).drop_last() =~= ks.take(j as int));
                }
                if !eq_ignore_case(k.as_slice(), key_c.as_slice()) {
                    keys.push((secs[i].keys[j].0.clone(), secs[i].keys[j].1.clone()));
                    assert(kviews(keys@) =~= kviews(prev).push(ks[j as int]));
                }
                j = j + 1;
            }
            assert(ks.take(ks.len() as int) =~= ks);
            match value {
                Some(v) => {
                    let ghost prev = keys@;
                    keys.push((key.to_string(), v.to_string()));
                    assert(kviews(keys@) =~= kviews(prev).push((key@, v@)));
                },
                None => {},
            }
            Some(upsert(text, None, name, &keys))
        },
        None => None,
    }
}

// ---------------------------------------------------------------------------
// the home directory
// ---------------------------------------------------------------------------

/// `dirs::home_dir`, as text. It reads `$HOME` (and the password database
/// when that is unset or empty), so which directory comes back is not
/// promised; its source hands back a directory only when it is not empty,
/// and turning bytes into text never empties them.
#[verifier::external_body]
fn home_dir() -> (r: Option<String>)
    ensures
        r matches Some(h) ==> h@.len() > 0,
{
    dirs::home_dir().map(|p| p.to_string_lossy().into_owned())
}

/// The home directory, or nothing when there is none, as `unwrap_or_default`
/// on the `PathBuf` gives it.
pub fn home() -> String {
    match home_dir() {
        Some(h) => h,
        None => String::new(),
    }
}

/// What a config directory can be: an absolute path (`$XDG_CONFIG_HOME`,
/// which is taken only when absolute), or `.config` joined onto a home
/// directory. Either way it is never empty.
pub open spec fn config_dir_shape(c: Seq<char>) -> bool {
    &&& c.len() > 0
    &&& (c[0] == '/' || exists|h: Seq<char>| c == join_path(h, ".config"@))
}

/// `dirs::config_dir`, as text. It reads `$XDG_CONFIG_HOME` and the home
/// directory, so which directory comes back is not promised; its source
/// takes `$XDG_CONFIG_HOME` only when it is an absolute path and otherwise
/// joins `.config` onto the home directory, which is the shape claimed here.
/// Turning the path into text changes only bytes that are not UTF-8, never a
/// `/` or the `.config` joined on.
#[verifier::external_body]
fn config_dir_of() -> (r: Option<String>)
    ensures
        r matches Some(c) ==> config_dir_shape(c@),
{
    dirs::config_dir().map(|p| p.to_string_lossy().into_owned())
}

/// The config directory: what the platform names, else `.config` under
/// `home`.
pub fn config_dir_from(found: Option<String>, home: String) -> (r: String)
    ensures
        r@ == match opt_sview(found) {
            Some(c) => c,
            None => join_path(home@, ".config"@),
        },
{
    match found {
        Some(c) => c,
        None => join_path_of(home.as_str(), ".config"),
    }
}

/// The config directory on this machine, or `~/.config` when the platform
/// names none; see `config_dir_from`.
pub fn config_dir() -> (r: String)
    ensures
        config_dir_shape(r@),
{
    let found = config_dir_of();
    let r = config_dir_from(found, home());
    proof {
        reveal_strlit(".config");
    }
    r
}

/// `PathBuf::join` on Unix: an absolute `rest` replaces the base, and a
/// separator is put between them unless the base is empty or ends in one.
pub open spec fn join_path(base: Seq<char>, rest: Seq<char>) -> Seq<char> {
    if rest.len() > 0 && rest[0] == '/' {
        rest
    } else if base.len() == 0 {
        rest
    } else if base.last() == '/' {
        base + rest
    } else {
        base + seq!['/'] + rest
    }
}

/// `join_path` on text.
pub fn join_path_of(base: &str, rest: &str) -> (r: String)
    ensures
        r@ == join_path(base@, rest@),
{
    let b = chars_of(base);
    let r = chars_of(rest);
    if r.len() > 0 && r[0] == '/' {
        rest.to_string()
    } else if b.len() == 0 {
        rest.to_string()
    } else if b[b.len() - 1] == '/' {
        let mut v = b;
        extend(&mut v, r.as_slice());
        string_of(v.as_slice())
    } else {
        let mut v = b;
        v.push('/');
        extend(&mut v, r.as_slice());
        assert(v@ =~= base@ + seq!['/'] + rest@);
        string_of(v.as_slice())
    }
}

/// A leading `~` expanded against `home`: `~` itself, or `~/...`; anything
/// else, `~user/...` included, is left as it is.
pub open spec fn expand_in(home: Seq<char>, path: Seq<char>) -> Seq<char> {
    if path == seq!['~'] {
        home
    } else if starts_with(path, seq!['~', '/']) {
        join_path(home, path.skip(2))
    } else {
        path
    }
}

/// For display only: a path starting with `home` is shown with `~` in its
/// place. The match is on the text, as `str::strip_prefix` makes it.
pub open spec fn collapse_in(home: Seq<char>, path: Seq<char>) -> Seq<char> {
    if home.len() > 0 && starts_with(path, home) {
        seq!['~'] + path.skip(home.len() as int)
    } else {
        path
    }
}

/// `expand_in` with the given home.
pub fn expand_tilde_in(home: &str, path: &str) -> (r: String)
    ensures
        r@ == expand_in(home@, path@),
{
    let p = chars_of(path);
    let h = chars_of(home);
    if p.len() == 1 && p[0] == '~' {
        assert(p@ =~= seq!['~']);
        return home.to_string();
    }
    let pre = vec!['~', '/'];
    if has_prefix(p.as_slice(), pre.as_slice()) {
        assert(pre@ =~= seq!['~', '/']);
        let rest = slice_to_vec(p.as_slice(), 2, p.len());
        assert(rest@ =~= p@.skip(2));
        let joined = if rest.len() > 0 && rest[0] == '/' {
            rest
        } else if h.len() == 0 {
            rest
        } else if h[h.len() - 1] == '/' {
            let mut v = copy(h.as_slice());
            extend(&mut v, rest.as_slice());
            v
        } else {
            let mut v = copy(h.as_slice());
            v.push('/');
            extend(&mut v, rest.as_slice());
            assert(v@ =~= h@ + seq!['/'] + rest@);
            v
        };
        return string_of(joined.as_slice());
    }
    assert(!(p@ == seq!['~']));
    path.to_string()
}

/// `collapse_in` with the given home.
pub fn collapse_tilde_in(home: &str, path: &str) -> (r: String)
    ensures
        r@ == collapse_in(home@, path@),
{
    let p = chars_of(path);
    let h = chars_of(home);
    if h.len() > 0 && has_prefix(p.as_slice(), h.as_slice()) {
        let mut v: Vec<char> = Vec::new();
        v.push('~');
        let rest = slice_to_vec(p.as_slice(), h.len(), p.len());
        extend(&mut v, rest.as_slice());
        assert(v@ =~= seq!['~'] + p@.skip(h@.len() as int));
        string_of(v.as_slice())
    } else {
        path.to_string()
    }
}

/// Expand a leading `~` against this machine's home. Children are spawned
/// without a shell, so a typed `~/db.sqlite` would otherwise reach sqlite3 as
/// a directory named `~`.
pub fn expand_tilde(path: &str) -> (r: String)
    ensures
        exists|h: Seq<char>| r@ == expand_in(h, path@),
{
    let h = home();
    expand_tilde_in(h.as_str(), path)
}

/// The inverse, for display only: a path under this machine's home is shown
/// the way you would have written it. Never feed the result back to a command.
pub fn collapse_tilde(path: &str) -> (r: String)
    ensures
        exists|h: Seq<char>| r@ == collapse_in(h, path@),
{
    let h = home();
    collapse_tilde_in(h.as_str(), path)
}

// ---------------------------------------------------------------------------
// what a write reads back as
// ---------------------------------------------------------------------------

/// The sections as a reader sees them: each one's name and keys.
pub open spec fn names_keys(secs: Seq<SectionV>) -> Seq<(Seq<char>, Seq<(Seq<char>, Seq<char>)>)> {
    secs.map_values(|s: SectionV| (s.name, s.keys))
}

/// What one line does to the sections read so far, seen as names and keys.
pub open spec fn read_step(
    st: Seq<(Seq<char>, Seq<(Seq<char>, Seq<char>)>)>,
    line: Seq<char>,
) -> Seq<(Seq<char>, Seq<(Seq<char>, Seq<char>)>)> {
    let l = trim(line);
    if is_skipped(l) {
        st
    } else if header_name(l) is Some {
        st.push((header_name(l)->0, seq![]))
    } else if st.len() == 0 {
        st
    } else if has_key(st.last().1, key_value(l).0) {
        st
    } else {
        st.update(st.len() - 1, (st.last().0, st.last().1.push(key_value(l))))
    }
}

pub open spec fn read_lines(
    st: Seq<(Seq<char>, Seq<(Seq<char>, Seq<char>)>)>,
    ls: Seq<Seq<char>>,
) -> Seq<(Seq<char>, Seq<(Seq<char>, Seq<char>)>)>
    decreases ls.len(),
{
    if ls.len() == 0 {
        st
    } else {
        read_step(read_lines(st, ls.drop_last()), ls.last())
    }
}

proof fn lemma_close_last_names(secs: Seq<SectionV>, ls: Seq<Seq<char>>, upto: int)
    ensures
        names_keys(close_last(secs, ls, upto)) == names_keys(secs),
{
    assert(names_keys(close_last(secs, ls, upto)) =~= names_keys(secs));
}

proof fn lemma_parse_prefix_names(ls: Seq<Seq<char>>, n: int)
    requires
        0 <= n <= ls.len(),
    ensures
        names_keys(parse_prefix(ls, n)) == read_lines(seq![], ls.take(n)),
    decreases n,
{
    if n == 0 {
        assert(ls.take(0) =~= Seq::<Seq<char>>::empty());
        assert(names_keys(Seq::<SectionV>::empty()) =~= Seq::<(Seq<char>, Seq<(Seq<char>, Seq<char>)>)>::empty());
    } else {
        lemma_parse_prefix_names(ls, n - 1);
        assert(ls.take(n).drop_last() =~= ls.take(n - 1));
        assert(ls.take(n).last() == ls[n - 1]);
        let secs = parse_prefix(ls, n - 1);
        let st = names_keys(secs);
        let l = trim(ls[n - 1]);
        if is_skipped(l) {
        } else if header_name(l) is Some {
            let c = close_last(secs, ls, n - 1);
            lemma_close_last_names(secs, ls, n - 1);
            let x = SectionV { name: header_name(l)->0, keys: seq![], at: n - 1, end: ls.len() as int };
            assert(names_keys(c.push(x)) =~= names_keys(c).push((x.name, x.keys)));
        } else if secs.len() == 0 {
        } else if has_key(secs.last().keys, key_value(l).0) {
            assert(st.last() == (secs.last().name, secs.last().keys));
        } else {
            assert(st.last() == (secs.last().name, secs.last().keys));
            let u = secs.update(secs.len() - 1, with_key(secs.last(), key_value(l)));
            assert(names_keys(u) =~= st.update(st.len() - 1, (st.last().0, st.last().1.push(key_value(l)))));
        }
    }
}

/// The sections of a file, seen as names and keys, are its lines read in
/// order.
pub proof fn lemma_parse_names(t: Seq<char>)
    ensures
        names_keys(parse_text(t)) == read_lines(seq![], lines(t)),
{
    let ls = lines(t);
    lemma_parse_prefix_names(ls, ls.len() as int);
    assert(ls.take(ls.len() as int) =~= ls);
    lemma_close_last_names(parse_prefix(ls, ls.len() as int), ls, ls.len() as int);
}

proof fn lemma_read_append(
    st: Seq<(Seq<char>, Seq<(Seq<char>, Seq<char>)>)>,
    a: Seq<Seq<char>>,
    b: Seq<Seq<char>>,
)
    ensures
        read_lines(st, a + b) == read_lines(read_lines(st, a), b),
    decreases b.len(),
{
    if b.len() == 0 {
        assert(a + b =~= a);
    } else {
        lemma_read_append(st, a, b.drop_last());
        assert((a + b).drop_last() =~= a + b.drop_last());
        assert((a + b).last() == b.last());
    }
}

/// Lines that open with a header read the same after any sections: theirs
/// are added after, and nothing before is touched.
proof fn lemma_read_after(
    st: Seq<(Seq<char>, Seq<(Seq<char>, Seq<char>)>)>,
    b: Seq<Seq<char>>,
)
    requires
        b.len() > 0,
        header_name(trim(b[0])) is Some,
        !is_skipped(trim(b[0])),
    ensures
        read_lines(st, b) == st + read_lines(seq![], b),
        read_lines(seq![], b).len() > 0,
    decreases b.len(),
{
    let e = Seq::<(Seq<char>, Seq<(Seq<char>, Seq<char>)>)>::empty();
    if b.len() == 1 {
        assert(b.drop_last() =~= Seq::<Seq<char>>::empty());
        assert(b.last() == b[0]);
        assert(read_lines(st, b.drop_last()) == st);
        assert(read_lines(e, b.drop_last()) == e);
        assert(read_lines(st, b) == read_step(st, b[0]));
        assert(read_lines(e, b) == read_step(e, b[0]));
        assert(st.push((header_name(trim(b[0]))->0, seq![])) =~= st + e.push(
            (header_name(trim(b[0]))->0, seq![]),
        ));
    } else {
        let init = b.drop_last();
        assert(init[0] == b[0]);
        lemma_read_after(st, init);
        let t = read_lines(e, init);
        let l = trim(b.last());
        let both = st + t;
        assert(read_lines(st, b) == read_step(both, b.last()));
        assert(read_lines(e, b) == read_step(t, b.last()));
        assert(both.len() > 0 && both.last() == t.last());
        if is_skipped(l) {
        } else if header_name(l) is Some {
            assert(both.push((header_name(l)->0, seq![])) =~= st + t.push((header_name(l)->0, seq![])));
        } else if has_key(t.last().1, key_value(l).0) {
        } else {
            assert(both.update(both.len() - 1, (both.last().0, both.last().1.push(key_value(l))))
                =~= st + t.update(t.len() - 1, (t.last().0, t.last().1.push(key_value(l)))));
        }
    }
}

/// Text that reads back as itself: trimmed, and on one line.
pub open spec fn plain(s: Seq<char>) -> bool {
    trim(s) == s && !contains(s, '\n')
}

/// A key that reads back as itself from its own line: not blank, not a
/// comment or a header, and holding no `=`.
pub open spec fn plain_key(k: Seq<char>) -> bool {
    &&& k.len() > 0
    &&& plain(k)
    &&& !contains(k, '=')
    &&& k[0] != '#' && k[0] != ';' && k[0] != '['
}

/// Keys that read back as written: each plain, and no two the same to a
/// reader, which ignores ASCII case.
pub open spec fn plain_keys(keys: Seq<(Seq<char>, Seq<char>)>) -> bool {
    &&& forall|i: int| 0 <= i < keys.len() ==> plain_key(#[trigger] keys[i].0) && plain(keys[i].1)
    &&& forall|i: int, j: int|
        0 <= i < j < keys.len() ==> !eq_ic(#[trigger] keys[i].0, #[trigger] keys[j].0)
}

proof fn lemma_key_line(kv: (Seq<char>, Seq<char>))
    requires
        plain_key(kv.0),
        plain(kv.1),
    ensures
        trim(key_line(kv)) == key_line(kv),
        !is_skipped(key_line(kv)),
        header_name(key_line(kv)) is None,
        key_value(key_line(kv)) == kv,
        !contains(key_line(kv), '\n'),
        key_line(kv).len() > 0,
{
    let k = kv.0;
    let v = kv.1;
    let l = key_line(kv);
    lemma_trimmed_ends(k);
    lemma_find_char_props(k, '=');
    if v.len() == 0 {
        assert(find_char(k, '=') is None);
        assert(v =~= Seq::<char>::empty());
    } else {
        lemma_trimmed_ends(v);
        assert(l[0] == k[0]);
        assert(l.last() == v.last());
        lemma_trim_fixed(l);
        assert forall|j: int| 0 <= j < k.len() implies l[j] != '=' by {
            assert(l[j] == k[j]);
        }
        lemma_find_char(l, '=', k.len() as int);
        assert(l.take(k.len() as int) =~= k);
        assert(l.skip(k.len() as int + 1) =~= v);
        if contains(l, '\n') {
            let j = choose|j: int| 0 <= j < l.len() && l[j] == '\n';
            if j < k.len() {
                assert(l[j] == k[j]);
            } else if j > k.len() {
                assert(l[j] == v[j - k.len() - 1]);
            }
        }
    }
}

proof fn lemma_render_reads(name: Seq<char>, keys: Seq<(Seq<char>, Seq<char>)>)
    requires
        plain(name),
        plain_keys(keys),
    ensures
        read_lines(seq![], render_section(name, keys)) == seq![(name, keys)],
        forall|i: int|
            0 <= i < render_section(name, keys).len() ==> !contains(
                #[trigger] render_section(name, keys)[i],
                '\n',
            ),
        render_section(name, keys).last().len() > 0,
        header_name(trim(render_section(name, keys)[0])) is Some,
        !is_skipped(trim(render_section(name, keys)[0])),
    decreases keys.len(),
{
    let head = seq!['['] + name + seq![']'];
    let r = render_section(name, keys);
    assert(r[0] == head);
    assert(head[0] == '[');
    assert(head.last() == ']');
    lemma_trim_fixed(head);
    assert(head.subrange(1, head.len() - 1) =~= name);
    assert(header_name(head) == Some(name));
    assert(!contains(head, '\n')) by {
        if contains(head, '\n') {
            let j = choose|j: int| 0 <= j < head.len() && head[j] == '\n';
            assert(head[j] == name[j - 1]);
        }
    }
    let e = Seq::<(Seq<char>, Seq<(Seq<char>, Seq<char>)>)>::empty();
    if keys.len() == 0 {
        assert(r =~= seq![head]);
        assert(r.drop_last() =~= Seq::<Seq<char>>::empty());
        assert(read_lines(e, r) == read_step(read_lines(e, r.drop_last()), head));
        assert(keys =~= Seq::<(Seq<char>, Seq<char>)>::empty());
        assert(e.push((name, seq![])) =~= seq![(name, keys)]);
    } else {
        let init = keys.drop_last();
        let kv = keys.last();
        assert forall|i: int| 0 <= i < init.len() implies plain_key(#[trigger] init[i].0) && plain(
            init[i].1,
        ) by {
            assert(init[i] == keys[i]);
        }
        assert forall|i: int, j: int| 0 <= i < j < init.len() implies !eq_ic(
            #[trigger] init[i].0,
            #[trigger] init[j].0,
        ) by {
            assert(init[i] == keys[i]);
            assert(init[j] == keys[j]);
        }
        lemma_render_reads(name, init);
        assert(plain_key(keys[keys.len() - 1].0));
        lemma_key_line(kv);
        let ri = render_section(name, init);
        assert(r =~= ri.push(key_line(kv)));
        assert(r.drop_last() =~= ri);
        let st = seq![(name, init)];
        assert(read_lines(e, r) == read_step(st, key_line(kv)));
        assert(!has_key(init, kv.0)) by {
            if has_key(init, kv.0) {
                let j = choose|j: int| 0 <= j < init.len() && eq_ic(#[trigger] init[j].0, kv.0);
                assert(init[j] == keys[j]);
                assert(!eq_ic(keys[j].0, keys[keys.len() - 1].0));
            }
        }
        assert(st.last() == (name, init));
        assert(init.push(kv) =~= keys);
        assert(st.update(0, (name, init.push(kv))) =~= seq![(name, keys)]);
        assert forall|i: int| 0 <= i < r.len() implies !contains(#[trigger] r[i], '\n') by {
            if i < ri.len() {
                assert(r[i] == ri[i]);
            }
        }
    }
}

/// Reading goes by each line's trimmed text, which a `\r` before its newline
/// does not change.
proof fn lemma_read_strip(
    st: Seq<(Seq<char>, Seq<(Seq<char>, Seq<char>)>)>,
    ls: Seq<Seq<char>>,
)
    ensures
        read_lines(st, strip_all(ls)) == read_lines(st, ls),
    decreases ls.len(),
{
    if ls.len() == 0 {
        assert(strip_all(ls) =~= ls);
    } else {
        lemma_read_strip(st, ls.drop_last());
        assert(strip_all(ls).drop_last() =~= strip_all(ls.drop_last()));
        assert(strip_all(ls).last() == strip_cr(ls.last()));
        lemma_trim_strip_cr(ls.last());
    }
}

/// A section written where the file has none to replace reads back after
/// every section that was there, with exactly the keys written, and the
/// sections before it read as they did. The name and keys are plain: each
/// reads back as itself from its own line.
pub proof fn lemma_new_section_reads_back(
    text: Seq<char>,
    target: Seq<char>,
    name: Seq<char>,
    keys: Seq<(Seq<char>, Seq<char>)>,
)
    requires
        section_index(parse_text(text), target) is None,
        plain(name),
        plain_keys(keys),
    ensures
        names_keys(parse_text(file_body(upsert_lines(text, target, name, keys)))) == names_keys(
            parse_text(text),
        ).push((name, keys)),
{
    let ls = lines(text);
    let r = render_section(name, keys);
    let big = upsert_lines(text, target, name, keys);
    let e = Seq::<(Seq<char>, Seq<(Seq<char>, Seq<char>)>)>::empty();
    lemma_render_reads(name, keys);
    lemma_lines_no_newline(text);
    lemma_parse_names(text);
    let before = read_lines(e, ls);
    lemma_read_after(before, r);
    if ls.len() == 0 {
        assert(big == r);
        assert(before == e);
        assert(e + seq![(name, keys)] =~= e.push((name, keys)));
    } else {
        let pre = ls.push(seq![]);
        assert(big == pre + r);
        lemma_read_append(e, pre, r);
        assert(pre.drop_last() =~= ls);
        assert(trim(Seq::<char>::empty()) == Seq::<char>::empty());
        assert(read_lines(e, pre) == before);
        assert(before + seq![(name, keys)] =~= before.push((name, keys)));
        assert forall|i: int| 0 <= i < big.len() implies !contains(#[trigger] big[i], '\n') by {
            if i < ls.len() {
                assert(big[i] == ls[i]);
            } else if i > ls.len() {
                assert(big[i] == r[i - ls.len() - 1]);
            }
        }
        assert(big.last() == r.last());
    }
    lemma_file_body_lines(big);
    lemma_read_strip(e, big);
    lemma_parse_names(file_body(big));
}

/// Where `section_index` lands: the section there has the name, and none
/// before it does.
pub proof fn lemma_section_index_some(secs: Seq<SectionV>, name: Seq<char>)
    requires
        section_index(secs, name) is Some,
    ensures
        0 <= section_index(secs, name)->0 < secs.len(),
        secs[section_index(secs, name)->0].name == name,
        forall|j: int| 0 <= j < section_index(secs, name)->0 ==> (#[trigger] secs[j]).name != name,
    decreases secs.len(),
{
    if secs.len() > 0 && secs[0].name != name {
        let t = secs.drop_first();
        lemma_section_index_some(t, name);
        let k = section_index(t, name)->0;
        assert(secs[k + 1] == t[k]);
        assert forall|j: int| 0 <= j < k + 1 implies (#[trigger] secs[j]).name != name by {
            if j > 0 {
                assert(secs[j] == t[j - 1]);
            }
        }
    }
}

/// No section carries a name that `section_index` does not find.
pub proof fn lemma_section_index_none(secs: Seq<SectionV>, name: Seq<char>)
    requires
        section_index(secs, name) is None,
    ensures
        forall|j: int| 0 <= j < secs.len() ==> (#[trigger] secs[j]).name != name,
    decreases secs.len(),
{
    if secs.len() > 0 {
        lemma_section_index_none(secs.drop_first(), name);
        assert forall|j: int| 0 <= j < secs.len() implies (#[trigger] secs[j]).name != name by {
            if j > 0 {
                assert(secs[j] == secs.drop_first()[j - 1]);
            }
        }
    }
}

proof fn lemma_render_keys_at(keys: Seq<(Seq<char>, Seq<char>)>)
    ensures
        render_keys(keys).len() == keys.len(),
        forall|j: int| 0 <= j < keys.len() ==> #[trigger] render_keys(keys)[j] == key_line(keys[j]),
    decreases keys.len(),
{
    if keys.len() > 0 {
        lemma_render_keys_at(keys.drop_last());
        assert forall|j: int| 0 <= j < keys.len() implies #[trigger] render_keys(keys)[j]
            == key_line(keys[j]) by {
            if j < keys.len() - 1 {
                assert(render_keys(keys)[j] == render_keys(keys.drop_last())[j]);
                assert(keys.drop_last()[j] == keys[j]);
            }
        }
    }
}

/// Past a header and up to the next one, the sections read so far are one
/// more than before it, the last opening at that header.
proof fn lemma_prefix_after_header(ls: Seq<Seq<char>>, p: int, n: int)
    requires
        0 <= p < n <= ls.len(),
        header_name(trim(ls[p])) is Some,
        !is_skipped(trim(ls[p])),
        forall|q: int| p < q < n ==> header_name(trim(#[trigger] ls[q])) is None,
    ensures
        parse_prefix(ls, n).len() == parse_prefix(ls, p).len() + 1,
        parse_prefix(ls, n).last().at == p,
        parse_prefix(ls, n).last().name == header_name(trim(ls[p]))->0,
    decreases n,
{
    if n == p + 1 {
        let secs = parse_prefix(ls, p);
        assert(parse_prefix(ls, n) == parse_step(secs, ls, p));
        assert(close_last(secs, ls, p).len() == secs.len());
    } else {
        lemma_prefix_after_header(ls, p, n - 1);
        let secs = parse_prefix(ls, n - 1);
        assert(parse_prefix(ls, n) == parse_step(secs, ls, n - 1));
        let l = trim(ls[n - 1]);
        assert(header_name(l) is None);
        if is_skipped(l) {
        } else if has_key(secs.last().keys, key_value(l).0) {
        } else {
            let u = secs.update(secs.len() - 1, with_key(secs.last(), key_value(l)));
            assert(u.last() == with_key(secs.last(), key_value(l)));
        }
    }
}

/// Deleting a section just added under a new name gives the file's lines
/// back as they were, the blank line the add put above it included: repeated
/// add and delete cycles do not pad the file out. (A `\r` ending the file's
/// last line is the one thing not kept: the add ended that line.)
pub proof fn lemma_add_then_remove(
    text: Seq<char>,
    name: Seq<char>,
    keys: Seq<(Seq<char>, Seq<char>)>,
)
    requires
        section_index(parse_text(text), name) is None,
        plain(name),
        plain_keys(keys),
    ensures
        remove_lines(file_body(upsert_lines(text, name, name, keys)), name) == Some(
            strip_all(lines(text)),
        ),
{
    let ls = lines(text);
    let r = render_section(name, keys);
    let big = upsert_lines(text, name, name, keys);
    let e = Seq::<(Seq<char>, Seq<(Seq<char>, Seq<char>)>)>::empty();
    lemma_render_reads(name, keys);
    lemma_lines_no_newline(text);
    lemma_new_section_reads_back(text, name, name, keys);
    let pre = if ls.len() == 0 {
        Seq::<Seq<char>>::empty()
    } else {
        ls.push(seq![])
    };
    assert(big =~= pre + r);
    assert forall|i: int| 0 <= i < big.len() implies !contains(#[trigger] big[i], '\n') by {
        if i < ls.len() {
            assert(big[i] == ls[i]);
        } else if i >= pre.len() {
            assert(big[i] == r[i - pre.len()]);
        }
    }
    assert(big.last() == r.last());
    lemma_file_body_lines(big);
    let body = file_body(big);
    let m = strip_all(big);
    assert(lines(body) == m);
    let p = pre.len() as int;
    // the header the add wrote, and only key lines after it
    lemma_render_keys_at(keys);
    assert(r[0] == seq!['['] + name + seq![']']);
    assert(m[p] == strip_cr(big[p]));
    assert(big[p] == r[0]);
    lemma_trim_strip_cr(big[p]);
    assert forall|q: int| p < q < m.len() implies header_name(trim(#[trigger] m[q])) is None by {
        let kv = keys[q - p - 1];
        assert(big[q] == r[q - p]);
        assert(r[q - p] == render_keys(keys)[q - p - 1]);
        assert(plain_key(keys[q - p - 1].0));
        lemma_key_line(kv);
        lemma_trim_strip_cr(big[q]);
    }
    lemma_prefix_after_header(m, p, m.len() as int);
    // the sections before it are the old ones
    let secs = parse_text(body);
    let old = parse_text(text);
    let n = old.len() as int;
    lemma_parse_prefix_names(m, p);
    assert(m.take(p) =~= strip_all(pre));
    lemma_read_strip(e, pre);
    lemma_parse_names(text);
    if ls.len() > 0 {
        assert(pre.drop_last() =~= ls);
        assert(trim(Seq::<char>::empty()) == Seq::<char>::empty());
        assert(read_lines(e, pre) == read_lines(e, ls));
    } else {
        assert(pre.len() == 0);
    }
    assert(names_keys(parse_prefix(m, p)).len() == parse_prefix(m, p).len());
    assert(names_keys(old).len() == n);
    assert(parse_prefix(m, p).len() == n);
    let pp = parse_prefix(m, m.len() as int);
    assert(secs == close_last(pp, m, m.len() as int));
    assert(pp.len() == n + 1);
    assert(secs.len() == n + 1);
    assert(secs[n].at == p);
    // where it ends: the last line the add wrote is never blank
    let last_kl = m[m.len() - 1];
    if keys.len() > 0 {
        let kv = keys[keys.len() - 1];
        assert(plain_key(keys[keys.len() - 1].0));
        lemma_key_line(kv);
        assert(big[big.len() - 1] == r[r.len() - 1]);
        assert(r[r.len() - 1] == render_keys(keys)[keys.len() - 1]);
        lemma_trim_strip_cr(big[big.len() - 1]);
        assert(trim(last_kl).len() > 0);
    }
    assert(secs[n].end == trim_back(m, p + 1, m.len() as int));
    assert(secs[n].end == m.len());
    // it is the first section under its name
    lemma_section_index_none(old, name);
    assert(names_keys(secs) == names_keys(old).push((name, keys)));
    assert forall|j: int| 0 <= j < n implies (#[trigger] secs[j]).name != name by {
        assert(names_keys(secs)[j] == names_keys(old)[j]);
        assert(names_keys(old)[j] == (old[j].name, old[j].keys));
        assert(names_keys(secs)[j] == (secs[j].name, secs[j].keys));
    }
    assert(names_keys(secs)[n] == (secs[n].name, secs[n].keys));
    assert(secs[n].name == name);
    lemma_section_index(secs, name, n);
    // what the delete keeps
    if p > 0 {
        assert(m[p - 1] == strip_cr(big[p - 1]));
        assert(big[p - 1] == pre[p - 1]);
        assert(trim(Seq::<char>::empty()) == Seq::<char>::empty());
        assert(m.take(p - 1) =~= strip_all(ls));
    } else {
        assert(m.take(0) =~= strip_all(ls));
    }
    assert(m.skip(m.len() as int) =~= Seq::<Seq<char>>::empty());
    assert(m.take(ls.len() as int) + m.skip(m.len() as int) =~= strip_all(ls));
}

// ---------------------------------------------------------------------------
// reading keys back out of what was written
// ---------------------------------------------------------------------------

/// Keys that come after the one looked for do not change what a lookup finds.
pub proof fn lemma_lookup_skip_back(
    a: Seq<(Seq<char>, Seq<char>)>,
    b: Seq<(Seq<char>, Seq<char>)>,
    k: Seq<char>,
)
    requires
        forall|j: int| 0 <= j < b.len() ==> !eq_ic(#[trigger] b[j].0, k),
    ensures
        lookup(a + b, k) == lookup(a, k),
{
    let ab = a + b;
    lemma_key_index_props(a, k);
    match key_index(a, k) {
        Some(i) => {
            assert forall|j: int| 0 <= j < i implies !eq_ic(#[trigger] ab[j].0, k) by {
                assert(ab[j] == a[j]);
            }
            assert(ab[i] == a[i]);
            lemma_key_index(ab, k, i);
        },
        None => {
            assert forall|j: int| 0 <= j < ab.len() implies !eq_ic(#[trigger] ab[j].0, k) by {
                if j < a.len() {
                    assert(ab[j] == a[j]);
                } else {
                    assert(ab[j] == b[j - a.len()]);
                }
            }
            lemma_key_index(ab, k, ab.len() as int);
        },
    }
}

/// Keys before the one looked for that do not match do not change what a
/// lookup finds.
pub proof fn lemma_lookup_skip_front(
    a: Seq<(Seq<char>, Seq<char>)>,
    b: Seq<(Seq<char>, Seq<char>)>,
    k: Seq<char>,
)
    requires
        forall|j: int| 0 <= j < a.len() ==> !eq_ic(#[trigger] a[j].0, k),
    ensures
        lookup(a + b, k) == lookup(b, k),
{
    let ab = a + b;
    lemma_key_index_props(b, k);
    match key_index(b, k) {
        Some(i) => {
            assert forall|j: int| 0 <= j < a.len() + i implies !eq_ic(#[trigger] ab[j].0, k) by {
                if j < a.len() {
                    assert(ab[j] == a[j]);
                } else {
                    assert(ab[j] == b[j - a.len()]);
                }
            }
            assert(ab[a.len() + i] == b[i]);
            lemma_key_index(ab, k, a.len() + i);
        },
        None => {
            assert forall|j: int| 0 <= j < ab.len() implies !eq_ic(#[trigger] ab[j].0, k) by {
                if j < a.len() {
                    assert(ab[j] == a[j]);
                } else {
                    assert(ab[j] == b[j - a.len()]);
                }
            }
            lemma_key_index(ab, k, ab.len() as int);
        },
    }
}

proof fn lemma_rest_of_push(s: Seq<(Seq<char>, Seq<char>)>, p: (Seq<char>, Seq<char>), known: Seq<&str>)
    ensures
        rest_of(s.push(p), known) == if is_known(known, p.0) {
            rest_of(s, known)
        } else {
            rest_of(s, known).push(p)
        },
{
    reveal_with_fuel(Seq::filter, 1);
    assert(s.push(p).drop_last() =~= s);
    assert(s.push(p).last() == p);
}

proof fn lemma_rest_of_known(f: Seq<(Seq<char>, Seq<char>)>, known: Seq<&str>)
    requires
        forall|i: int| 0 <= i < f.len() ==> is_known(known, #[trigger] f[i].0),
    ensures
        rest_of(f, known) == Seq::<(Seq<char>, Seq<char>)>::empty(),
    decreases f.len(),
{
    if f.len() == 0 {
        reveal_with_fuel(Seq::filter, 1);
    } else {
        let init = f.drop_last();
        assert forall|i: int| 0 <= i < init.len() implies is_known(known, #[trigger] init[i].0) by {
            assert(init[i] == f[i]);
        }
        lemma_rest_of_known(init, known);
        assert(is_known(known, f[f.len() - 1].0));
        lemma_rest_of_push(init, f.last(), known);
        assert(init.push(f.last()) =~= f);
    }
}

proof fn lemma_rest_of_unknown(x: Seq<(Seq<char>, Seq<char>)>, known: Seq<&str>)
    requires
        forall|i: int| 0 <= i < x.len() ==> !is_known(known, #[trigger] x[i].0),
    ensures
        rest_of(x, known) == x,
    decreases x.len(),
{
    if x.len() == 0 {
        reveal_with_fuel(Seq::filter, 1);
    } else {
        let init = x.drop_last();
        assert forall|i: int| 0 <= i < init.len() implies !is_known(known, #[trigger] init[i].0) by {
            assert(init[i] == x[i]);
        }
        lemma_rest_of_unknown(init, known);
        assert(!is_known(known, x[x.len() - 1].0));
        lemma_rest_of_push(init, x.last(), known);
        assert(init.push(x.last()) =~= x);
    }
}

/// Keys the reader owns, then keys it does not: the latter are what is left.
pub proof fn lemma_rest_of_split(
    f: Seq<(Seq<char>, Seq<char>)>,
    x: Seq<(Seq<char>, Seq<char>)>,
    known: Seq<&str>,
)
    requires
        forall|i: int| 0 <= i < f.len() ==> is_known(known, #[trigger] f[i].0),
        forall|i: int| 0 <= i < x.len() ==> !is_known(known, #[trigger] x[i].0),
    ensures
        rest_of(f + x, known) == x,
{
    Seq::filter_distributes_over_add(f, x, unowned(known));
    lemma_rest_of_known(f, known);
    lemma_rest_of_unknown(x, known);
    assert(Seq::<(Seq<char>, Seq<char>)>::empty() + x =~= x);
}

/// Two runs of plain keys, no key of one the same as any of the other, make
/// one run of plain keys.
pub proof fn lemma_plain_keys_add(a: Seq<(Seq<char>, Seq<char>)>, b: Seq<(Seq<char>, Seq<char>)>)
    requires
        plain_keys(a),
        plain_keys(b),
        forall|i: int, j: int|
            0 <= i < a.len() && 0 <= j < b.len() ==> !eq_ic(#[trigger] a[i].0, #[trigger] b[j].0),
    ensures
        plain_keys(a + b),
{
    let ab = a + b;
    assert forall|i: int| 0 <= i < ab.len() implies plain_key(#[trigger] ab[i].0) && plain(
        ab[i].1,
    ) by {
        if i < a.len() {
            assert(ab[i] == a[i]);
            assert(plain_key(a[i].0) && plain(a[i].1));
        } else {
            assert(ab[i] == b[i - a.len()]);
            assert(plain_key(b[i - a.len()].0) && plain(b[i - a.len()].1));
        }
    }
    assert forall|i: int, j: int| 0 <= i < j < ab.len() implies !eq_ic(
        #[trigger] ab[i].0,
        #[trigger] ab[j].0,
    ) by {
        if j < a.len() {
            assert(ab[i] == a[i] && ab[j] == a[j]);
        } else if i >= a.len() {
            assert(ab[i] == b[i - a.len()] && ab[j] == b[j - a.len()]);
        } else {
            assert(ab[i] == a[i] && ab[j] == b[j - a.len()]);
        }
    }
}

/// A key of lower-case letters reads back as itself.
pub proof fn lemma_lower_word(k: Seq<char>)
    requires
        k.len() > 0,
        forall|i: int| 0 <= i < k.len() ==> 'a' <= #[trigger] k[i] <= 'z',
    ensures
        plain_key(k),
{
    assert('a' <= k[0] <= 'z');
    assert('a' <= k[k.len() - 1] <= 'z');
    lemma_trim_fixed(k);
    if contains(k, '\n') {
        let j = choose|j: int| 0 <= j < k.len() && k[j] == '\n';
        assert('a' <= k[j] <= 'z');
    }
    if contains(k, '=') {
        let j = choose|j: int| 0 <= j < k.len() && k[j] == '=';
        assert('a' <= k[j] <= 'z');
    }
}

/// A section's name and keys read the same wherever it sits.
pub open spec fn same_block(a: SectionV, b: SectionV) -> bool {
    a.name == b.name && a.keys == b.keys
}

/// A new section's name and keys, placed after the sections a file already
/// had, as the file reads after the write.
pub proof fn lemma_new_section_blocks(
    text: Seq<char>,
    target: Seq<char>,
    name: Seq<char>,
    keys: Seq<(Seq<char>, Seq<char>)>,
)
    requires
        section_index(parse_text(text), target) is None,
        plain(name),
        plain_keys(keys),
    ensures
        ({
            let old = parse_text(text);
            let new = parse_text(file_body(upsert_lines(text, target, name, keys)));
            &&& new.len() == old.len() + 1
            &&& forall|j: int| 0 <= j < old.len() ==> same_block(#[trigger] new[j], old[j])
            &&& new[old.len() as int].name == name
            &&& new[old.len() as int].keys == keys
        }),
{
    let old = parse_text(text);
    let new = parse_text(file_body(upsert_lines(text, target, name, keys)));
    lemma_new_section_reads_back(text, target, name, keys);
    let nk = names_keys(new);
    let ok = names_keys(old);
    assert(nk.len() == new.len());
    assert(ok.len() == old.len());
    assert forall|j: int| 0 <= j < old.len() implies same_block(#[trigger] new[j], old[j]) by {
        assert(nk[j] == ok.push((name, keys))[j]);
        assert(ok.push((name, keys))[j] == ok[j]);
    }
    assert(nk[old.len() as int] == (new[old.len() as int].name, new[old.len() as int].keys));
}

// ---------------------------------------------------------------------------
// where the sections sit
// ---------------------------------------------------------------------------

/// A line that opens a section.
pub open spec fn header_line(l: Seq<char>) -> bool {
    header_name(trim(l)) is Some
}

/// How sections read from the first `n` lines sit among them: each opens at
/// a header line of its name, in order; every header line opens one; and
/// each but the last ends where the blank lines before the next one start.
pub open spec fn sited(ls: Seq<Seq<char>>, secs: Seq<SectionV>, n: int) -> bool {
    &&& forall|j: int|
        0 <= j < secs.len() ==> 0 <= #[trigger] secs[j].at < n && secs[j].at < ls.len()
            && header_name(trim(ls[secs[j].at])) == Some(secs[j].name)
    &&& forall|j: int, k: int| 0 <= j < k < secs.len() ==> #[trigger] secs[j].at < #[trigger] secs[k].at
    &&& forall|q: int|
        0 <= q < n && header_line(#[trigger] ls[q]) ==> exists|j: int|
            0 <= j < secs.len() && #[trigger] secs[j].at == q
    &&& forall|j: int|
        0 <= j < secs.len() - 1 ==> #[trigger] secs[j].end == trim_back(
            ls,
            secs[j].at + 1,
            secs[j + 1].at,
        )
}

proof fn lemma_close_last_keeps(secs: Seq<SectionV>, ls: Seq<Seq<char>>, upto: int)
    ensures
        close_last(secs, ls, upto).len() == secs.len(),
        forall|j: int|
            0 <= j < secs.len() ==> (#[trigger] close_last(secs, ls, upto)[j]).at == secs[j].at
                && close_last(secs, ls, upto)[j].name == secs[j].name && close_last(
                secs,
                ls,
                upto,
            )[j].keys == secs[j].keys,
        forall|j: int|
            0 <= j < secs.len() - 1 ==> (#[trigger] close_last(secs, ls, upto)[j]).end
                == secs[j].end,
        secs.len() > 0 ==> close_last(secs, ls, upto).last().end == trim_back(
            ls,
            secs.last().at + 1,
            upto,
        ),
{
}

proof fn lemma_pp_sited(ls: Seq<Seq<char>>, n: int)
    requires
        0 <= n <= ls.len(),
    ensures
        sited(ls, parse_prefix(ls, n), n),
    decreases n,
{
    if n > 0 {
        lemma_pp_sited(ls, n - 1);
        let secs = parse_prefix(ls, n - 1);
        let q = n - 1;
        let l = trim(ls[q]);
        let out = parse_prefix(ls, n);
        assert(out == parse_step(secs, ls, q));
        if is_skipped(l) {
            assert(!header_line(ls[q]));
        } else if header_name(l) is Some {
            let c = close_last(secs, ls, q);
            lemma_close_last_keeps(secs, ls, q);
            let x = SectionV { name: header_name(l)->0, keys: seq![], at: q, end: ls.len() as int };
            assert(out == c.push(x));
            assert forall|j: int| 0 <= j < out.len() implies 0 <= #[trigger] out[j].at < n
                && out[j].at < ls.len() && header_name(trim(ls[out[j].at])) == Some(out[j].name) by {
                if j < secs.len() {
                    assert(out[j] == c[j]);
                    assert(secs[j].at < n - 1);
                }
            }
            assert forall|j: int, k: int| 0 <= j < k < out.len() implies #[trigger] out[j].at
                < #[trigger] out[k].at by {
                assert(out[j] == c[j]);
                if k < secs.len() {
                    assert(out[k] == c[k]);
                    assert(secs[j].at < secs[k].at);
                } else {
                    assert(secs[j].at < n - 1);
                }
            }
            assert forall|p: int| 0 <= p < n && header_line(#[trigger] ls[p]) implies exists|j: int|
                0 <= j < out.len() && #[trigger] out[j].at == p by {
                if p < q {
                    let j = choose|j: int| 0 <= j < secs.len() && #[trigger] secs[j].at == p;
                    assert(out[j] == c[j]);
                    assert(out[j].at == p);
                } else {
                    assert(out[secs.len() as int].at == p);
                }
            }
            assert forall|j: int| 0 <= j < out.len() - 1 implies #[trigger] out[j].end
                == trim_back(ls, out[j].at + 1, out[j + 1].at) by {
                assert(out[j] == c[j]);
                if j < secs.len() - 1 {
                    assert(out[j + 1] == c[j + 1]);
                } else {
                    assert(j == secs.len() - 1);
                    assert(c[j] == c.last());
                    assert(secs[j] == secs.last());
                    assert(out[j + 1] == x);
                }
            }
        } else if secs.len() == 0 {
            assert(!header_line(ls[q]));
        } else if has_key(secs.last().keys, key_value(l).0) {
            assert(!header_line(ls[q]));
        } else {
            assert(!header_line(ls[q]));
            let u = secs.update(secs.len() - 1, with_key(secs.last(), key_value(l)));
            assert(out == u);
            assert forall|j: int| 0 <= j < out.len() implies 0 <= #[trigger] out[j].at < n
                && out[j].at < ls.len() && header_name(trim(ls[out[j].at])) == Some(out[j].name) by {
                assert(out[j].at == secs[j].at && out[j].name == secs[j].name);
            }
            assert forall|j: int, k: int| 0 <= j < k < out.len() implies #[trigger] out[j].at
                < #[trigger] out[k].at by {
                assert(out[j].at == secs[j].at && out[k].at == secs[k].at);
            }
            assert forall|p: int| 0 <= p < n && header_line(#[trigger] ls[p]) implies exists|j: int|
                0 <= j < out.len() && #[trigger] out[j].at == p by {
                let j = choose|j: int| 0 <= j < secs.len() && #[trigger] secs[j].at == p;
                assert(out[j].at == secs[j].at);
            }
            assert forall|j: int| 0 <= j < out.len() - 1 implies #[trigger] out[j].end
                == trim_back(ls, out[j].at + 1, out[j + 1].at) by {
                assert(out[j] == secs[j]);
                assert(out[j + 1].at == secs[j + 1].at);
            }
        }
    }
}

/// Reading on never moves or renames a section already read, and what it
/// adds opens later.
proof fn lemma_pp_grow(ls: Seq<Seq<char>>, m: int, n: int)
    requires
        0 <= m <= n <= ls.len(),
    ensures
        parse_prefix(ls, m).len() <= parse_prefix(ls, n).len(),
        forall|j: int|
            0 <= j < parse_prefix(ls, m).len() ==> (#[trigger] parse_prefix(ls, n)[j]).at
                == parse_prefix(ls, m)[j].at,
        forall|j: int|
            parse_prefix(ls, m).len() <= j < parse_prefix(ls, n).len() ==> (
            #[trigger] parse_prefix(ls, n)[j]).at >= m,
    decreases n - m,
{
    if n > m {
        lemma_pp_grow(ls, m, n - 1);
        let secs = parse_prefix(ls, n - 1);
        let q = n - 1;
        let l = trim(ls[q]);
        let out = parse_prefix(ls, n);
        assert(out == parse_step(secs, ls, q));
        if is_skipped(l) {
        } else if header_name(l) is Some {
            let c = close_last(secs, ls, q);
            lemma_close_last_keeps(secs, ls, q);
            assert forall|j: int| 0 <= j < secs.len() implies (#[trigger] out[j]).at == secs[j].at by {
                assert(out[j] == c[j]);
            }
        } else if secs.len() == 0 {
        } else if has_key(secs.last().keys, key_value(l).0) {
        } else {
            assert forall|j: int| 0 <= j < secs.len() implies (#[trigger] out[j]).at == secs[j].at by {
            }
        }
    }
}

/// Walking back from `end` stops past blank lines only.
proof fn lemma_trim_back_blank(ls: Seq<Seq<char>>, floor: int, end: int)
    requires
        floor <= end <= ls.len(),
        0 <= floor,
    ensures
        floor <= trim_back(ls, floor, end) <= end,
        forall|q: int| trim_back(ls, floor, end) <= q < end ==> trim(#[trigger] ls[q]).len() == 0,
    decreases end - floor,
{
    if end > floor && trim(ls[end - 1]).len() == 0 {
        lemma_trim_back_blank(ls, floor, end - 1);
    }
}

/// Where section `i` of a file sits: it opens at a header of its name; the
/// next header, if any, opens section `i + 1`; no header lies between; its
/// end is where the blank lines before the next header start; and exactly
/// `i` sections are read before its header.
proof fn lemma_section_site(text: Seq<char>, i: int)
    requires
        0 <= i < parse_text(text).len(),
    ensures
        ({
            let ls = lines(text);
            let secs = parse_text(text);
            let at = secs[i].at;
            let upto = if i + 1 < secs.len() {
                secs[i + 1].at
            } else {
                ls.len() as int
            };
            &&& 0 <= at < secs[i].end <= upto <= ls.len()
            &&& header_name(trim(ls[at])) == Some(secs[i].name)
            &&& forall|q: int| at < q < upto ==> !header_line(#[trigger] ls[q])
            &&& forall|q: int| secs[i].end <= q < upto ==> trim(#[trigger] ls[q]).len() == 0
            &&& upto < ls.len() ==> header_line(ls[upto])
            &&& parse_prefix(ls, at).len() == i
            &&& secs[i].end == trim_back(ls, at + 1, upto)
        }),
{
    let ls = lines(text);
    let len = ls.len() as int;
    let pp = parse_prefix(ls, len);
    let secs = parse_text(text);
    lemma_pp_sited(ls, len);
    lemma_close_last_keeps(pp, ls, len);
    assert(secs == close_last(pp, ls, len));
    assert(secs.len() == pp.len());
    let at = secs[i].at;
    assert(at == pp[i].at);
    let upto = if i + 1 < secs.len() {
        secs[i + 1].at
    } else {
        len
    };
    assert(0 <= at < len);
    assert(header_name(trim(ls[at])) == Some(secs[i].name));
    if i + 1 < secs.len() {
        assert(pp[i].at < pp[i + 1].at);
        assert(secs[i + 1].at == pp[i + 1].at);
        assert(secs[i].end == pp[i].end);
        assert(secs[i].end == trim_back(ls, at + 1, upto));
        assert(header_name(trim(ls[upto])) == Some(pp[i + 1].name));
    } else {
        assert(secs[i] == secs.last());
        assert(pp[i] == pp.last());
        assert(secs[i].end == trim_back(ls, at + 1, upto));
    }
    lemma_trim_back_blank(ls, at + 1, upto);
    assert forall|q: int| at < q < upto implies !header_line(#[trigger] ls[q]) by {
        if header_line(ls[q]) {
            let k = choose|k: int| 0 <= k < pp.len() && #[trigger] pp[k].at == q;
            if k <= i {
                if k < i {
                    assert(pp[k].at < pp[i].at);
                }
            } else {
                assert(i + 1 < pp.len());
                if k > i + 1 {
                    assert(pp[i + 1].at < pp[k].at);
                }
            }
        }
    }
    // how many sections precede its header
    lemma_pp_grow(ls, at, len);
    let before = parse_prefix(ls, at);
    lemma_pp_sited(ls, at);
    if i < before.len() {
        assert(pp[i].at == before[i].at);
        assert(before[i].at < at);
    }
    if i > before.len() {
        let j = before.len() as int;
        assert(pp[j].at >= at);
        assert(pp[j].at < pp[i].at);
    }
}

/// Walking back from `end` stops at `floor` or just after a line that is
/// not blank.
proof fn lemma_trim_back_stops(ls: Seq<Seq<char>>, floor: int, end: int)
    requires
        0 <= floor <= end <= ls.len(),
    ensures
        trim_back(ls, floor, end) == floor || trim(ls[trim_back(ls, floor, end) - 1]).len() > 0,
    decreases end - floor,
{
    if end > floor && trim(ls[end - 1]).len() == 0 {
        lemma_trim_back_stops(ls, floor, end - 1);
    }
}

/// No two keys of a section are the same ignoring ASCII case.
pub open spec fn keys_distinct(keys: Seq<(Seq<char>, Seq<char>)>) -> bool {
    forall|a: int, b: int| 0 <= a < b < keys.len() ==> !eq_ic(#[trigger] keys[a].0, #[trigger] keys[b].0)
}

proof fn lemma_pp_distinct(ls: Seq<Seq<char>>, n: int)
    requires
        0 <= n <= ls.len(),
    ensures
        forall|j: int| 0 <= j < parse_prefix(ls, n).len() ==> keys_distinct(#[trigger] parse_prefix(ls, n)[j].keys),
    decreases n,
{
    if n > 0 {
        lemma_pp_distinct(ls, n - 1);
        let secs = parse_prefix(ls, n - 1);
        let q = n - 1;
        let l = trim(ls[q]);
        let out = parse_prefix(ls, n);
        assert(out == parse_step(secs, ls, q));
        if is_skipped(l) {
        } else if header_name(l) is Some {
            let c = close_last(secs, ls, q);
            lemma_close_last_keeps(secs, ls, q);
            assert forall|j: int| 0 <= j < out.len() implies keys_distinct(#[trigger] out[j].keys) by {
                if j < secs.len() {
                    assert(out[j] == c[j]);
                    assert(keys_distinct(secs[j].keys));
                }
            }
        } else if secs.len() == 0 {
        } else if has_key(secs.last().keys, key_value(l).0) {
        } else {
            let last = secs.len() - 1;
            let ks = secs.last().keys;
            let kv = key_value(l);
            assert(keys_distinct(secs[last].keys));
            assert forall|j: int| 0 <= j < out.len() implies keys_distinct(#[trigger] out[j].keys) by {
                if j == last {
                    let nk = ks.push(kv);
                    assert(out[j].keys == nk);
                    assert forall|a: int, b: int| 0 <= a < b < nk.len() implies !eq_ic(
                        #[trigger] nk[a].0,
                        #[trigger] nk[b].0,
                    ) by {
                        if b == ks.len() {
                            assert(nk[a] == ks[a]);
                            assert(nk[b] == kv);
                        } else {
                            assert(nk[a] == ks[a] && nk[b] == ks[b]);
                        }
                    }
                } else {
                    assert(out[j] == secs[j]);
                }
            }
        }
    }
}

/// How `parse` lays a file out: sections come in file order; each opens at
/// a line that trims to `[name]`, its name trimmed; it ends after that line
/// and no later than the next header (or the end of the file); it does not
/// end on a blank line; and its keys are distinct ignoring ASCII case.
pub proof fn lemma_parse_places(text: Seq<char>)
    ensures
        ({
            let ls = lines(text);
            let secs = parse_text(text);
            &&& forall|i: int|
                0 <= i < secs.len() - 1 ==> #[trigger] secs[i].at < secs[i + 1].at && secs[i].end
                    <= secs[i + 1].at
            &&& forall|i: int|
                0 <= i < secs.len() ==> {
                    &&& 0 <= #[trigger] secs[i].at < secs[i].end <= ls.len()
                    &&& header_name(trim(ls[secs[i].at])) == Some(secs[i].name)
                    &&& secs[i].end == secs[i].at + 1 || trim(ls[secs[i].end - 1]).len() > 0
                    &&& keys_distinct(secs[i].keys)
                }
        }),
{
    let ls = lines(text);
    let len = ls.len() as int;
    let secs = parse_text(text);
    let pp = parse_prefix(ls, len);
    lemma_pp_distinct(ls, len);
    lemma_close_last_keeps(pp, ls, len);
    assert forall|i: int| 0 <= i < secs.len() implies {
        &&& 0 <= #[trigger] secs[i].at < secs[i].end <= ls.len()
        &&& header_name(trim(ls[secs[i].at])) == Some(secs[i].name)
        &&& secs[i].end == secs[i].at + 1 || trim(ls[secs[i].end - 1]).len() > 0
        &&& keys_distinct(secs[i].keys)
    } by {
        lemma_section_site(text, i);
        let upto = if i + 1 < secs.len() {
            secs[i + 1].at
        } else {
            len
        };
        lemma_trim_back_stops(ls, secs[i].at + 1, upto);
        assert(secs[i].keys == pp[i].keys);
    }
    assert forall|i: int| 0 <= i < secs.len() - 1 implies #[trigger] secs[i].at < secs[i + 1].at
        && secs[i].end <= secs[i + 1].at by {
        lemma_section_site(text, i);
    }
}

proof fn lemma_read_blank(
    st: Seq<(Seq<char>, Seq<(Seq<char>, Seq<char>)>)>,
    ls: Seq<Seq<char>>,
)
    requires
        forall|q: int| 0 <= q < ls.len() ==> trim(#[trigger] ls[q]).len() == 0,
    ensures
        read_lines(st, ls) == st,
    decreases ls.len(),
{
    if ls.len() > 0 {
        assert forall|q: int| 0 <= q < ls.drop_last().len() implies trim(
            #[trigger] ls.drop_last()[q],
        ).len() == 0 by {
            assert(ls.drop_last()[q] == ls[q]);
        }
        lemma_read_blank(st, ls.drop_last());
        assert(trim(ls[ls.len() - 1]).len() == 0);
    }
}

proof fn lemma_read_no_header(
    st: Seq<(Seq<char>, Seq<(Seq<char>, Seq<char>)>)>,
    ls: Seq<Seq<char>>,
)
    requires
        forall|q: int| 0 <= q < ls.len() ==> !header_line(#[trigger] ls[q]),
    ensures
        read_lines(st, ls).len() == st.len(),
    decreases ls.len(),
{
    if ls.len() > 0 {
        assert forall|q: int| 0 <= q < ls.drop_last().len() implies !header_line(
            #[trigger] ls.drop_last()[q],
        ) by {
            assert(ls.drop_last()[q] == ls[q]);
        }
        lemma_read_no_header(st, ls.drop_last());
        assert(!header_line(ls[ls.len() - 1]));
    }
}

/// A join is at least as long as any of its parts.
proof fn lemma_join_len(ls: Seq<Seq<char>>, k: int)
    requires
        0 <= k < ls.len(),
    ensures
        crate::text::join(ls, seq!['\n']).len() >= ls[k].len(),
    decreases ls.len(),
{
    if ls.len() > 1 && k < ls.len() - 1 {
        lemma_join_len(ls.drop_last(), k);
        assert(ls.drop_last()[k] == ls[k]);
    }
}

proof fn lemma_one_section(b: Seq<Seq<char>>)
    requires
        b.len() > 0,
        header_line(b[0]),
        forall|q: int| 0 < q < b.len() ==> !header_line(#[trigger] b[q]),
    ensures
        read_lines(Seq::<(Seq<char>, Seq<(Seq<char>, Seq<char>)>)>::empty(), b).len() == 1,
{
    let e = Seq::<(Seq<char>, Seq<(Seq<char>, Seq<char>)>)>::empty();
    let b0 = seq![b[0]];
    let b1 = b.skip(1);
    assert(b =~= b0 + b1);
    lemma_read_append(e, b0, b1);
    assert(b0.drop_last() =~= Seq::<Seq<char>>::empty());
    assert(b0.last() == b[0]);
    assert(read_lines(e, b0) == read_step(read_lines(e, b0.drop_last()), b0.last()));
    assert(read_lines(e, b0.drop_last()) == e);
    let l = trim(b[0]);
    assert(l[0] == '[');
    assert(!is_skipped(l));
    assert(read_lines(e, b0).len() == 1);
    assert forall|q: int| 0 <= q < b1.len() implies !header_line(#[trigger] b1[q]) by {
        assert(b1[q] == b[q + 1]);
    }
    lemma_read_no_header(read_lines(e, b0), b1);
}

/// A run read after what came before it, blank lines after it, and then a
/// run that opens with a header: each adds its own sections after the others.
proof fn lemma_read_runs(
    a: Seq<Seq<char>>,
    m: Seq<Seq<char>>,
    d: Seq<Seq<char>>,
    x: Seq<Seq<char>>,
)
    requires
        m.len() > 0,
        header_line(m[0]),
        forall|q: int| 0 <= q < d.len() ==> trim(#[trigger] d[q]).len() == 0,
        x.len() > 0 ==> header_line(x[0]),
    ensures
        ({
            let e = Seq::<(Seq<char>, Seq<(Seq<char>, Seq<char>)>)>::empty();
            read_lines(e, ((a + m) + d) + x) == (read_lines(e, a) + read_lines(e, m))
                + read_lines(e, x)
        }),
{
    let e = Seq::<(Seq<char>, Seq<(Seq<char>, Seq<char>)>)>::empty();
    let ra = read_lines(e, a);
    let s1 = ra + read_lines(e, m);
    assert(trim(m[0])[0] == '[');
    lemma_read_append(e, a, m);
    lemma_read_after(ra, m);
    lemma_read_append(e, a + m, d);
    lemma_read_blank(s1, d);
    lemma_read_append(e, (a + m) + d, x);
    if x.len() > 0 {
        assert(trim(x[0])[0] == '[');
        lemma_read_after(s1, x);
    } else {
        assert(read_lines(s1, x) == s1);
        assert(read_lines(e, x) == e);
        assert(s1 + e =~= s1);
    }
}

/// The sections a section written over section `i` leaves: the others read
/// as they did, in their places, and section `i` reads as the name and keys
/// written. The name and keys are plain: each reads back as itself from its
/// own line.
pub proof fn lemma_replaced_section_reads_back(
    text: Seq<char>,
    target: Seq<char>,
    name: Seq<char>,
    keys: Seq<(Seq<char>, Seq<char>)>,
)
    requires
        section_index(parse_text(text), target) is Some,
        plain(name),
        plain_keys(keys),
    ensures
        names_keys(parse_text(file_body(upsert_lines(text, target, name, keys)))) == names_keys(
            parse_text(text),
        ).update(section_index(parse_text(text), target)->0, (name, keys)),
{
    let ls = lines(text);
    let secs = parse_text(text);
    let i = section_index(secs, target)->0;
    lemma_section_index_some(secs, target);
    lemma_section_site(text, i);
    let at = secs[i].at;
    let end = secs[i].end;
    let upto = if i + 1 < secs.len() {
        secs[i + 1].at
    } else {
        ls.len() as int
    };
    let e = Seq::<(Seq<char>, Seq<(Seq<char>, Seq<char>)>)>::empty();
    let r = render_section(name, keys);
    lemma_render_reads(name, keys);
    let a = ls.take(at);
    let b = ls.subrange(at, end);
    let d = ls.subrange(end, upto);
    let x = ls.skip(upto);
    assert(ls =~= ((a + b) + d) + x);
    assert(ls.skip(end) =~= d + x);
    let big = upsert_lines(text, target, name, keys);
    assert(big == a + r + ls.skip(end));
    assert(big =~= ((a + r) + d) + x);
    assert forall|q: int| 0 <= q < d.len() implies trim(#[trigger] d[q]).len() == 0 by {
        assert(d[q] == ls[end + q]);
    }
    assert(x.len() > 0 ==> x[0] == ls[upto]);
    assert(b[0] == ls[at]);
    assert forall|q: int| 0 < q < b.len() implies !header_line(#[trigger] b[q]) by {
        assert(b[q] == ls[at + q]);
    }
    lemma_one_section(b);
    lemma_read_runs(a, b, d, x);
    lemma_read_runs(a, r, d, x);
    lemma_parse_prefix_names(ls, at);
    lemma_parse_names(text);
    let ra = read_lines(e, a);
    assert(ra == names_keys(parse_prefix(ls, at)));
    assert(ra.len() == i);
    let z = read_lines(e, x);
    let rb = read_lines(e, b);
    assert(names_keys(secs) == (ra + rb) + z);
    assert(read_lines(e, big) == (ra + seq![(name, keys)]) + z);
    assert((ra + seq![(name, keys)]) + z =~= ((ra + rb) + z).update(i, (name, keys)));
    lemma_replaced_text_reads(text, big, a, r, end);
}

/// The lines written over a section, as a file body, read back as those lines.
proof fn lemma_replaced_text_reads(
    text: Seq<char>,
    big: Seq<Seq<char>>,
    a: Seq<Seq<char>>,
    r: Seq<Seq<char>>,
    end: int,
)
    requires
        0 <= end <= lines(text).len(),
        a.len() <= lines(text).len(),
        a == lines(text).take(a.len() as int),
        big == a + r + lines(text).skip(end),
        r.len() > 0,
        r[0].len() > 0,
        forall|q: int| 0 <= q < r.len() ==> !contains(#[trigger] r[q], '\n'),
    ensures
        names_keys(parse_text(file_body(big))) == read_lines(
            Seq::<(Seq<char>, Seq<(Seq<char>, Seq<char>)>)>::empty(),
            big,
        ),
{
    let ls = lines(text);
    let e = Seq::<(Seq<char>, Seq<(Seq<char>, Seq<char>)>)>::empty();
    lemma_lines_no_newline(text);
    assert forall|q: int| 0 <= q < big.len() implies !contains(#[trigger] big[q], '\n') by {
        if q < a.len() {
            assert(big[q] == ls[q]);
        } else if q < a.len() + r.len() {
            assert(big[q] == r[q - a.len()]);
        } else {
            assert(big[q] == ls[end + (q - a.len() - r.len())]);
        }
    }
    assert(big[a.len() as int] == r[0]);
    lemma_join_len(big, a.len() as int);
    lemma_file_body_lines_any(big);
    lemma_read_strip(e, big);
    lemma_parse_names(file_body(big));
}

/// A value read from a key line reads back as itself.
proof fn lemma_value_plain(line: Seq<char>)
    requires
        !contains(line, '\n'),
    ensures
        plain(key_value(trim(line)).1),
{
    let l = trim(line);
    lemma_trim_within(line, '\n');
    lemma_find_char_props(l, '=');
    match find_char(l, '=') {
        Some(i) => {
            let v = l.skip(i + 1);
            lemma_trim_idem(v);
            lemma_trim_within(v, '\n');
            if contains(v, '\n') {
                let j = choose|j: int| 0 <= j < v.len() && v[j] == '\n';
                assert(v[j] == l[i + 1 + j]);
            }
        },
        None => {
            assert(trim(Seq::<char>::empty()) =~= Seq::<char>::empty());
        },
    }
}

proof fn lemma_pp_values(ls: Seq<Seq<char>>, n: int)
    requires
        0 <= n <= ls.len(),
        forall|q: int| 0 <= q < ls.len() ==> !contains(#[trigger] ls[q], '\n'),
    ensures
        forall|j: int, k: int|
            0 <= j < parse_prefix(ls, n).len() && 0 <= k < parse_prefix(ls, n)[j].keys.len()
                ==> plain(#[trigger] parse_prefix(ls, n)[j].keys[k].1),
    decreases n,
{
    if n > 0 {
        lemma_pp_values(ls, n - 1);
        let secs = parse_prefix(ls, n - 1);
        let q = n - 1;
        let l = trim(ls[q]);
        let out = parse_prefix(ls, n);
        assert(out == parse_step(secs, ls, q));
        if is_skipped(l) {
        } else if header_name(l) is Some {
            let c = close_last(secs, ls, q);
            lemma_close_last_keeps(secs, ls, q);
            assert forall|j: int, k: int|
                0 <= j < out.len() && 0 <= k < out[j].keys.len() implies plain(
                #[trigger] out[j].keys[k].1,
            ) by {
                if j < secs.len() {
                    assert(out[j] == c[j]);
                    assert(plain(secs[j].keys[k].1));
                }
            }
        } else if secs.len() == 0 {
        } else if has_key(secs.last().keys, key_value(l).0) {
        } else {
            lemma_value_plain(ls[q]);
            let last = secs.len() - 1;
            assert forall|j: int, k: int|
                0 <= j < out.len() && 0 <= k < out[j].keys.len() implies plain(
                #[trigger] out[j].keys[k].1,
            ) by {
                if j < last {
                    assert(out[j] == secs[j]);
                    assert(plain(secs[j].keys[k].1));
                } else if k < secs[last].keys.len() {
                    assert(out[j].keys[k] == secs[last].keys[k]);
                    assert(plain(secs[last].keys[k].1));
                }
            }
        }
    }
}

/// Every value a file's sections hold reads back as itself.
pub proof fn lemma_values_plain(text: Seq<char>)
    ensures
        forall|j: int, k: int|
            0 <= j < parse_text(text).len() && 0 <= k < parse_text(text)[j].keys.len() ==> plain(
                #[trigger] parse_text(text)[j].keys[k].1,
            ),
{
    let ls = lines(text);
    lemma_lines_no_newline(text);
    lemma_pp_values(ls, ls.len() as int);
    let pp = parse_prefix(ls, ls.len() as int);
    lemma_close_last_keeps(pp, ls, ls.len() as int);
    assert forall|j: int, k: int|
        0 <= j < parse_text(text).len() && 0 <= k < parse_text(text)[j].keys.len() implies plain(
        #[trigger] parse_text(text)[j].keys[k].1,
    ) by {
        assert(parse_text(text)[j].keys == pp[j].keys);
        assert(plain(pp[j].keys[k].1));
    }
}

/// A section written over section `i`, as blocks: every other block reads as
/// it did, and block `i` as the name and keys written.
pub proof fn lemma_replaced_section_blocks(
    text: Seq<char>,
    target: Seq<char>,
    name: Seq<char>,
    keys: Seq<(Seq<char>, Seq<char>)>,
)
    requires
        section_index(parse_text(text), target) is Some,
        plain(name),
        plain_keys(keys),
    ensures
        ({
            let old = parse_text(text);
            let new = parse_text(file_body(upsert_lines(text, target, name, keys)));
            let i = section_index(old, target)->0;
            &&& 0 <= i < old.len()
            &&& new.len() == old.len()
            &&& forall|j: int| 0 <= j < old.len() && j != i ==> same_block(#[trigger] new[j], old[j])
            &&& new[i].name == name
            &&& new[i].keys == keys
        }),
{
    let old = parse_text(text);
    let new = parse_text(file_body(upsert_lines(text, target, name, keys)));
    let i = section_index(old, target)->0;
    lemma_section_index_some(old, target);
    lemma_replaced_section_reads_back(text, target, name, keys);
    let nk = names_keys(new);
    let ok = names_keys(old);
    assert(nk.len() == new.len() && ok.len() == old.len());
    assert forall|j: int| 0 <= j < old.len() && j != i implies same_block(#[trigger] new[j], old[j]) by {
        assert(nk[j] == ok[j]);
        assert(nk[j] == (new[j].name, new[j].keys));
        assert(ok[j] == (old[j].name, old[j].keys));
    }
    assert(nk[i] == (new[i].name, new[i].keys));
}

/// After writing section `name`, the first section of that name holds
/// exactly the keys written, whether it was there before or not.
pub proof fn lemma_written_section_found(
    text: Seq<char>,
    name: Seq<char>,
    keys: Seq<(Seq<char>, Seq<char>)>,
)
    requires
        plain(name),
        plain_keys(keys),
    ensures
        ({
            let new = parse_text(file_body(upsert_lines(text, name, name, keys)));
            &&& section_index(new, name) is Some
            &&& new[section_index(new, name)->0].keys == keys
        }),
{
    let old = parse_text(text);
    let new = parse_text(file_body(upsert_lines(text, name, name, keys)));
    match section_index(old, name) {
        Some(i) => {
            lemma_section_index_some(old, name);
            lemma_replaced_section_blocks(text, name, name, keys);
            assert forall|j: int| 0 <= j < i implies (#[trigger] new[j]).name != name by {
                assert(same_block(new[j], old[j]));
            }
            lemma_section_index(new, name, i);
        },
        None => {
            lemma_section_index_none(old, name);
            lemma_new_section_blocks(text, name, name, keys);
            let n = old.len() as int;
            assert forall|j: int| 0 <= j < n implies (#[trigger] new[j]).name != name by {
                assert(same_block(new[j], old[j]));
            }
            lemma_section_index(new, name, n);
        },
    }
}

/// Lines written out as a file body read as the lines themselves, whatever
/// they are, so long as none holds a newline.
proof fn lemma_body_reads(big: Seq<Seq<char>>)
    requires
        forall|q: int| 0 <= q < big.len() ==> !contains(#[trigger] big[q], '\n'),
    ensures
        names_keys(parse_text(file_body(big))) == read_lines(
            Seq::<(Seq<char>, Seq<(Seq<char>, Seq<char>)>)>::empty(),
            big,
        ),
{
    let e = Seq::<(Seq<char>, Seq<(Seq<char>, Seq<char>)>)>::empty();
    lemma_parse_names(file_body(big));
    let j = crate::text::join(big, seq!['\n']);
    if big.len() > 0 && j.len() > 0 {
        lemma_file_body_lines_any(big);
        lemma_read_strip(e, big);
    } else {
        assert(file_body(big) == j);
        assert(j.len() == 0);
        lemma_lines_empty();
        if big.len() > 0 {
            // a lone empty line is all a join of nothing can come from
            if big.len() > 1 {
                lemma_join_len_sep(big);
            }
            assert(big.len() == 1);
            assert(big[0].len() == 0);
            assert(big.drop_last() =~= Seq::<Seq<char>>::empty());
            assert(trim(big[0]) =~= Seq::<char>::empty()) by {
                assert(big[0] =~= Seq::<char>::empty());
            }
        }
    }
}

proof fn lemma_lines_empty()
    ensures
        lines(Seq::<char>::empty()) == Seq::<Seq<char>>::empty(),
{
}

/// A join of two or more parts holds a separator.
proof fn lemma_join_len_sep(ls: Seq<Seq<char>>)
    requires
        ls.len() > 1,
    ensures
        crate::text::join(ls, seq!['\n']).len() > 0,
{
}

/// The sections left after section `i` is dropped: the others, in their
/// order, each reading as it did.
pub proof fn lemma_removed_section_reads_back(text: Seq<char>, name: Seq<char>)
    requires
        section_index(parse_text(text), name) is Some,
    ensures
        remove_lines(text, name) matches Some(ls2) && names_keys(parse_text(file_body(ls2)))
            == names_keys(parse_text(text)).remove(section_index(parse_text(text), name)->0),
{
    let ls = lines(text);
    let secs = parse_text(text);
    let i = section_index(secs, name)->0;
    lemma_section_index_some(secs, name);
    lemma_section_site(text, i);
    let at = secs[i].at;
    let end = secs[i].end;
    let upto = if i + 1 < secs.len() {
        secs[i + 1].at
    } else {
        ls.len() as int
    };
    let start = if at > 0 && trim(ls[at - 1]).len() == 0 {
        at - 1
    } else {
        at
    };
    let e = Seq::<(Seq<char>, Seq<(Seq<char>, Seq<char>)>)>::empty();
    let a = ls.take(at);
    let b = ls.subrange(at, end);
    let d = ls.subrange(end, upto);
    let x = ls.skip(upto);
    assert(ls =~= ((a + b) + d) + x);
    let ls2 = ls.take(start) + ls.skip(end);
    assert(remove_lines(text, name) == Some(ls2));
    assert forall|q: int| 0 <= q < d.len() implies trim(#[trigger] d[q]).len() == 0 by {
        assert(d[q] == ls[end + q]);
    }
    assert(x.len() > 0 ==> x[0] == ls[upto]);
    assert(b[0] == ls[at]);
    assert forall|q: int| 0 < q < b.len() implies !header_line(#[trigger] b[q]) by {
        assert(b[q] == ls[at + q]);
    }
    lemma_one_section(b);
    lemma_read_runs(a, b, d, x);
    lemma_parse_prefix_names(ls, at);
    lemma_parse_names(text);
    let ra = read_lines(e, a);
    assert(ra == names_keys(parse_prefix(ls, at)));
    assert(ra.len() == i);
    let z = read_lines(e, x);
    let rb = read_lines(e, b);
    assert(names_keys(secs) == (ra + rb) + z);
    // what is kept reads as the sections before it, then those after
    let a2 = ls.take(start);
    assert(ls.skip(end) =~= d + x);
    assert(ls2 =~= (a2 + d) + x);
    assert(read_lines(e, a2) == ra) by {
        if start < at {
            assert(a =~= a2.push(ls[at - 1]));
            assert(a.drop_last() =~= a2);
            assert(a.last() == ls[at - 1]);
        } else {
            assert(a2 == a);
        }
    }
    lemma_read_append(e, a2, d);
    lemma_read_blank(ra, d);
    lemma_read_append(e, a2 + d, x);
    if x.len() > 0 {
        assert(trim(x[0])[0] == '[');
        lemma_read_after(ra, x);
    } else {
        assert(read_lines(ra, x) == ra);
        assert(z == e);
    }
    assert(read_lines(e, ls2) == ra + z);
    assert(ra + z =~= ((ra + rb) + z).remove(i));
    lemma_lines_no_newline(text);
    assert forall|q: int| 0 <= q < ls2.len() implies !contains(#[trigger] ls2[q], '\n') by {
        if q < a2.len() {
            assert(ls2[q] == ls[q]);
        } else {
            assert(ls2[q] == ls[end + (q - a2.len())]);
        }
    }
    lemma_body_reads(ls2);
}

/// Dropping section `i`, as blocks: the ones before it read as they did, and
/// the ones after it too, one place earlier.
pub proof fn lemma_removed_section_blocks(text: Seq<char>, name: Seq<char>)
    requires
        section_index(parse_text(text), name) is Some,
    ensures
        remove_lines(text, name) matches Some(ls2) && ({
            let old = parse_text(text);
            let new = parse_text(file_body(ls2));
            let i = section_index(old, name)->0;
            &&& 0 <= i < old.len()
            &&& new.len() == old.len() - 1
            &&& forall|j: int| 0 <= j < i ==> same_block(#[trigger] new[j], old[j])
            &&& forall|j: int| i <= j < new.len() ==> same_block(#[trigger] new[j], old[j + 1])
        }),
{
    let old = parse_text(text);
    let i = section_index(old, name)->0;
    lemma_section_index_some(old, name);
    lemma_removed_section_reads_back(text, name);
    let ls2 = remove_lines(text, name)->0;
    let new = parse_text(file_body(ls2));
    let nk = names_keys(new);
    let ok = names_keys(old);
    assert(nk.len() == new.len() && ok.len() == old.len());
    assert(nk == ok.remove(i));
    assert forall|j: int| 0 <= j < i implies same_block(#[trigger] new[j], old[j]) by {
        assert(nk[j] == ok[j]);
        assert(nk[j] == (new[j].name, new[j].keys));
        assert(ok[j] == (old[j].name, old[j].keys));
    }
    assert forall|j: int| i <= j < new.len() implies same_block(#[trigger] new[j], old[j + 1]) by {
        assert(nk[j] == ok[j + 1]);
        assert(nk[j] == (new[j].name, new[j].keys));
        assert(ok[j + 1] == (old[j + 1].name, old[j + 1].keys));
    }
}

} // verus!
