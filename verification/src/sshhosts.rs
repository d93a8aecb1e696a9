//! The aliases in `~/.ssh/config`, read and never written.
//!
//! A tunnel needs a machine to hop through, and that machine is already named
//! in your ssh config, so the tunnel wizard picks from here instead of giving
//! you a text field. Deliberately a reader only: the file belongs to ssh.
//! Reading it happens outside; here it is its text.

use crate::text::{
    chars_of, contains, copy, cviews, eq_ic, eq_ignore_case, has_char, is_whitespace, is_ws, lines,
    lines_of, seq_eq, slice_to_vec, starts_with, string_of, trim, trimmed, words, words_of,
};
use vstd::prelude::*;

verus! {

/// Where a line's keyword ends: the first whitespace or `=`.
pub open spec fn sep_at(l: Seq<char>) -> Option<int>
    decreases l.len(),
{
    if l.len() == 0 {
        None
    } else if is_ws(l[0]) || l[0] == '=' {
        Some(0)
    } else {
        match sep_at(l.drop_first()) {
            Some(i) => Some(i + 1),
            None => None,
        }
    }
}

/// `s` without the `=`, spaces and tabs at its start.
pub open spec fn strip_start(s: Seq<char>) -> Seq<char>
    decreases s.len(),
{
    if s.len() > 0 && (s[0] == '=' || s[0] == ' ' || s[0] == '\t') {
        strip_start(s.drop_first())
    } else {
        s
    }
}

/// A line's keyword and value, per ssh_config(5): split on whitespace or
/// `=`, comments and blank lines being nothing.
pub open spec fn line_kv(raw: Seq<char>) -> Option<(Seq<char>, Seq<char>)> {
    let l = trim(raw);
    if l.len() == 0 || l[0] == '#' {
        None
    } else {
        match sep_at(l) {
            Some(i) => Some((l.take(i), strip_start(l.skip(i + 1)))),
            None => None,
        }
    }
}

/// A line whose keyword ends at a space wider than one byte, which the text
/// cannot be cut after in the middle of.
pub open spec fn wide_sep(raw: Seq<char>) -> bool {
    let l = trim(raw);
    l.len() > 0 && l[0] != '#' && match sep_at(l) {
        Some(i) => (l[i] as u32) >= 128,
        None => false,
    }
}

/// Whether every line's keyword ends at a one-byte separator.
pub open spec fn plain(text: Seq<char>) -> bool {
    forall|i: int| 0 <= i < lines(text).len() ==> !wide_sep(#[trigger] lines(text)[i])
}

fn sep_of(l: &[char]) -> (r: Option<usize>)
    ensures
        r matches Some(i) ==> sep_at(l@) == Some(i as int) && i < l@.len(),
        r is None ==> sep_at(l@) is None,
{
    let mut i: usize = 0;
    assert(l@.skip(0) =~= l@);
    while i < l.len()
        invariant
            i <= l@.len(),
            sep_at(l@) == match sep_at(l@.skip(i as int)) {
                Some(j) => Some(j + i),
                None => None,
            },
        decreases l@.len() - i,
    {
        if is_whitespace(l[i]) || l[i] == '=' {
            assert(l@.skip(i as int)[0] == l@[i as int]);
            return Some(i);
        }
        assert(l@.skip(i as int).drop_first() =~= l@.skip(i + 1));
        i = i + 1;
    }
    assert(l@.skip(i as int) =~= Seq::<char>::empty());
    None
}

fn strip_start_of(s: &[char]) -> (r: Vec<char>)
    ensures
        r@ == strip_start(s@),
{
    let mut i: usize = 0;
    assert(s@.skip(0) =~= s@);
    while i < s.len() && (s[i] == '=' || s[i] == ' ' || s[i] == '\t')
        invariant
            i <= s@.len(),
            strip_start(s@) == strip_start(s@.skip(i as int)),
        decreases s@.len() - i,
    {
        assert(s@.skip(i as int).drop_first() =~= s@.skip(i + 1));
        i = i + 1;
    }
    let r = slice_to_vec(s, i, s.len());
    assert(r@ =~= s@.skip(i as int));
    r
}

fn line_kv_of(raw: &[char]) -> (r: Option<(Vec<char>, Vec<char>)>)
    ensures
        match r {
            Some((k, v)) => line_kv(raw@) == Some((k@, v@)),
            None => line_kv(raw@) is None,
        },
{
    let l = trimmed(raw);
    if l.len() == 0 || l[0] == '#' {
        return None;
    }
    match sep_of(l.as_slice()) {
        Some(i) => {
            let k = slice_to_vec(l.as_slice(), 0, i);
            let rest = slice_to_vec(l.as_slice(), i + 1, l.len());
            assert(k@ =~= l@.take(i as int));
            assert(rest@ =~= l@.skip(i + 1));
            Some((k, strip_start_of(rest.as_slice())))
        },
        None => None,
    }
}

/// Whether the config's text can be read line by line as the client reads
/// it.
pub fn is_plain(text: &str) -> (r: bool)
    ensures
        r == plain(text@),
{
    let ls = lines_of(chars_of(text).as_slice());
    let ghost lv = cviews(ls@);
    let mut i: usize = 0;
    while i < ls.len()
        invariant
            i <= ls@.len(),
            lv == cviews(ls@),
            lv == lines(text@),
            forall|j: int| 0 <= j < i ==> !wide_sep(#[trigger] lv[j]),
        decreases ls@.len() - i,
    {
        assert(lv[i as int] == ls@[i as int]@);
        let l = trimmed(ls[i].as_slice());
        if l.len() > 0 && l[0] != '#' {
            match sep_of(l.as_slice()) {
                Some(k) => {
                    if (l[k] as u32) >= 128 {
                        assert(wide_sep(lv[i as int]));
                        return false;
                    }
                },
                None => {},
            }
        }
        i = i + 1;
    }
    true
}

/// Whether `alias` is one of the words of a `Host` line's value.
pub open spec fn names(value: Seq<char>, alias: Seq<char>) -> bool {
    exists|j: int| 0 <= j < words(value).len() && #[trigger] words(value)[j] == alias
}

fn names_of(value: &[char], alias: &[char]) -> (r: bool)
    ensures
        r == names(value@, alias@),
{
    let ws = words_of(value);
    let mut j: usize = 0;
    while j < ws.len()
        invariant
            j <= ws@.len(),
            cviews(ws@) == words(value@),
            forall|k: int| 0 <= k < j ==> #[trigger] words(value@)[k] != alias@,
        decreases ws@.len() - j,
    {
        assert(cviews(ws@)[j as int] == ws@[j as int]@);
        if seq_eq(ws[j].as_slice(), alias) {
            return true;
        }
        j = j + 1;
    }
    false
}

/// The `HostName` an alias resolves to, reading from line `i` on, given
/// whether the lines above left it inside that alias's block; the alias itself
/// when no block sets one, which is ssh's own rule.
pub open spec fn host_from(ls: Seq<Seq<char>>, i: int, alias: Seq<char>, here: bool) -> Seq<char>
    decreases ls.len() - i,
{
    if i < 0 || i >= ls.len() {
        alias
    } else {
        match line_kv(ls[i]) {
            None => host_from(ls, i + 1, alias, here),
            Some((k, v)) => if eq_ic(k, "host"@) {
                host_from(ls, i + 1, alias, names(v, alias))
            } else if here && eq_ic(k, "hostname"@) {
                trim(v)
            } else {
                host_from(ls, i + 1, alias, here)
            },
        }
    }
}

pub open spec fn hostname_spec(text: Seq<char>, alias: Seq<char>) -> Seq<char> {
    host_from(lines(text), 0, alias, false)
}

/// The `HostName` `alias` resolves to in the config's text. Used to tell
/// whether the machine tunnelled through is the machine the database is on.
pub fn hostname_in(text: &str, alias: &str) -> (r: String)
    requires
        plain(text@),
    ensures
        r@ == hostname_spec(text@, alias@),
{
    let ls = lines_of(chars_of(text).as_slice());
    let ghost lv = cviews(ls@);
    let a = chars_of(alias);
    let h = chars_of("host");
    let hn = chars_of("hostname");
    let mut here = false;
    let mut i: usize = 0;
    while i < ls.len()
        invariant
            i <= ls@.len(),
            lv == cviews(ls@),
            lv == lines(text@),
            a@ == alias@,
            h@ == "host"@,
            hn@ == "hostname"@,
            host_from(lv, i as int, alias@, here) == hostname_spec(text@, alias@),
        decreases ls@.len() - i,
    {
        assert(lv[i as int] == ls@[i as int]@);
        match line_kv_of(ls[i].as_slice()) {
            None => {},
            Some((k, v)) => {
                if eq_ignore_case(k.as_slice(), h.as_slice()) {
                    here = names_of(v.as_slice(), a.as_slice());
                } else if here && eq_ignore_case(k.as_slice(), hn.as_slice()) {
                    return string_of(trimmed(v.as_slice()).as_slice());
                }
            },
        }
        i = i + 1;
    }
    alias.to_string()
}

/// Whether `host` is the very machine `alias` connects to, by name or by
/// address, so `raspi`, its `HostName` and the literal IP all count as one.
pub open spec fn same_machine_spec(text: Seq<char>, alias: Seq<char>, host: Seq<char>) -> bool {
    if alias.len() == 0 || host.len() == 0 {
        false
    } else {
        eq_ic(alias, host) || eq_ic(hostname_spec(text, alias), host)
    }
}

pub fn is_same_machine(text: &str, alias: &str, host: &str) -> (r: bool)
    requires
        plain(text@),
    ensures
        r == same_machine_spec(text@, alias@, host@),
{
    let a = chars_of(alias);
    let h = chars_of(host);
    if a.len() == 0 || h.len() == 0 {
        return false;
    }
    let t = chars_of(hostname_in(text, alias).as_str());
    eq_ignore_case(a.as_slice(), h.as_slice()) || eq_ignore_case(t.as_slice(), h.as_slice())
}

/// Whether a word is a pattern (`*`, `?`, `!`), which is a setting rather
/// than a destination.
pub open spec fn is_pattern(w: Seq<char>) -> bool {
    contains(w, '*') || contains(w, '?') || contains(w, '!')
}

/// `out` with each concrete word not already in it appended, in order.
pub open spec fn add_words(out: Seq<Seq<char>>, ws: Seq<Seq<char>>) -> Seq<Seq<char>>
    decreases ws.len(),
{
    if ws.len() == 0 {
        out
    } else {
        let before = add_words(out, ws.drop_last());
        let w = ws.last();
        if is_pattern(w) || before.contains(w) {
            before
        } else {
            before.push(w)
        }
    }
}

/// The aliases of the `Host` lines among the first lines.
pub open spec fn aliases_from(ls: Seq<Seq<char>>) -> Seq<Seq<char>>
    decreases ls.len(),
{
    if ls.len() == 0 {
        seq![]
    } else {
        let out = aliases_from(ls.drop_last());
        match line_kv(ls.last()) {
            Some((k, v)) => if eq_ic(k, "host"@) {
                add_words(out, words(v))
            } else {
                out
            },
            None => out,
        }
    }
}

pub open spec fn aliases_spec(text: Seq<char>) -> Seq<Seq<char>> {
    aliases_from(lines(text))
}

fn seen(out: &Vec<Vec<char>>, w: &[char]) -> (r: bool)
    ensures
        r == cviews(out@).contains(w@),
{
    let mut i: usize = 0;
    while i < out.len()
        invariant
            i <= out@.len(),
            forall|j: int| 0 <= j < i ==> #[trigger] cviews(out@)[j] != w@,
        decreases out@.len() - i,
    {
        assert(cviews(out@)[i as int] == out@[i as int]@);
        if seq_eq(out[i].as_slice(), w) {
            assert(cviews(out@)[i as int] == w@);
            return true;
        }
        i = i + 1;
    }
    false
}

/// Every concrete alias in the config's text, in file order, without the
/// pattern blocks (`Host *`) that are settings rather than destinations.
pub fn aliases_in(text: &str) -> (r: Vec<String>)
    requires
        plain(text@),
    ensures
        crate::text::views(r@) == aliases_spec(text@),
{
    let ls = lines_of(chars_of(text).as_slice());
    let ghost lv = cviews(ls@);
    let h = chars_of("host");
    let mut out: Vec<Vec<char>> = Vec::new();
    let mut i: usize = 0;
    while i < ls.len()
        invariant
            i <= ls@.len(),
            lv == cviews(ls@),
            lv == lines(text@),
            h@ == "host"@,
            cviews(out@) == aliases_from(lv.take(i as int)),
        decreases ls@.len() - i,
    {
        assert(lv.take(i + 1).drop_last() =~= lv.take(i as int));
        assert(lv.take(i + 1).last() == ls@[i as int]@);
        match line_kv_of(ls[i].as_slice()) {
            Some((k, v)) => {
                if eq_ignore_case(k.as_slice(), h.as_slice()) {
                    let ws = words_of(v.as_slice());
                    let ghost base = cviews(out@);
                    let mut j: usize = 0;
                    while j < ws.len()
                        invariant
                            j <= ws@.len(),
                            cviews(ws@) == words(v@),
                            cviews(out@) == add_words(base, words(v@).take(j as int)),
                        decreases ws@.len() - j,
                    {
                        assert(words(v@).take(j + 1).drop_last() =~= words(v@).take(j as int));
                        assert(words(v@).take(j + 1).last() == ws@[j as int]@);
                        let w = ws[j].as_slice();
                        let pattern = has_char(w, '*') || has_char(w, '?') || has_char(w, '!');
                        if !pattern && !seen(&out, w) {
                            let ghost before = cviews(out@);
                            out.push(copy(w));
                            assert(cviews(out@) =~= before.push(w@));
                        }
                        j = j + 1;
                    }
                    assert(words(v@).take(ws@.len() as int) =~= words(v@));
                }
            },
            None => {},
        }
        i = i + 1;
    }
    assert(lv.take(ls@.len() as int) =~= lv);
    crate::text::strings_of(&out)
}

} // verus!
