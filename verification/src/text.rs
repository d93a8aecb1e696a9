//! Characters and lines: the small vocabulary every file format here is
//! written in, each word with its specification.
//!
//! Text is worked on as `Vec<char>` and specified as `Seq<char>`; a `String`
//! is only built at the edge, by `string_of`.

use vstd::prelude::*;

verus! {

// ---------------------------------------------------------------------------
// single characters
// ---------------------------------------------------------------------------

/// `char::is_whitespace`: the Unicode `White_Space` property.
pub open spec fn is_ws(c: char) -> bool {
    ||| c == ' '
    ||| ('\t' <= c && c <= '\r')
    ||| c == '\u{85}'
    ||| c == '\u{A0}'
    ||| c == '\u{1680}'
    ||| ('\u{2000}' <= c && c <= '\u{200A}')
    ||| c == '\u{2028}'
    ||| c == '\u{2029}'
    ||| c == '\u{202F}'
    ||| c == '\u{205F}'
    ||| c == '\u{3000}'
}

pub fn is_whitespace(c: char) -> (b: bool)
    ensures
        b == is_ws(c),
{
    c == ' ' || ('\t' <= c && c <= '\r') || c == '\u{85}' || c == '\u{A0}' || c == '\u{1680}'
        || ('\u{2000}' <= c && c <= '\u{200A}') || c == '\u{2028}' || c == '\u{2029}'
        || c == '\u{202F}' || c == '\u{205F}' || c == '\u{3000}'
}

/// The code a character compares by under `eq_ignore_ascii_case`: ASCII
/// capitals fold onto their small letters, everything else is itself.
pub open spec fn fold_code(c: char) -> u32 {
    if 'A' <= c && c <= 'Z' {
        (c as u32 + 32) as u32
    } else {
        c as u32
    }
}

pub fn char_eq_ic(a: char, b: char) -> (r: bool)
    ensures
        r == (fold_code(a) == fold_code(b)),
{
    let x: u32 = if 'A' <= a && a <= 'Z' { a as u32 + 32 } else { a as u32 };
    let y: u32 = if 'A' <= b && b <= 'Z' { b as u32 + 32 } else { b as u32 };
    x == y
}

/// `str::eq_ignore_ascii_case`.
pub open spec fn eq_ic(a: Seq<char>, b: Seq<char>) -> bool {
    &&& a.len() == b.len()
    &&& forall|i: int| 0 <= i < a.len() ==> fold_code(#[trigger] a[i]) == fold_code(b[i])
}

pub fn eq_ignore_case(a: &[char], b: &[char]) -> (r: bool)
    ensures
        r == eq_ic(a@, b@),
{
    if a.len() != b.len() {
        return false;
    }
    let mut i: usize = 0;
    while i < a.len()
        invariant
            a@.len() == b@.len(),
            i <= a@.len(),
            forall|j: int| 0 <= j < i ==> fold_code(#[trigger] a@[j]) == fold_code(b@[j]),
        decreases a@.len() - i,
    {
        if !char_eq_ic(a[i], b[i]) {
            return false;
        }
        i = i + 1;
    }
    true
}

pub fn seq_eq(a: &[char], b: &[char]) -> (r: bool)
    ensures
        r == (a@ == b@),
{
    if a.len() != b.len() {
        return false;
    }
    let mut i: usize = 0;
    while i < a.len()
        invariant
            a@.len() == b@.len(),
            i <= a@.len(),
            forall|j: int| 0 <= j < i ==> #[trigger] a@[j] == b@[j],
        decreases a@.len() - i,
    {
        if a[i] != b[i] {
            return false;
        }
        i = i + 1;
    }
    assert(a@ =~= b@);
    true
}

pub open spec fn starts_with(s: Seq<char>, p: Seq<char>) -> bool {
    p.len() <= s.len() && s.take(p.len() as int) == p
}

pub open spec fn ends_with(s: Seq<char>, p: Seq<char>) -> bool {
    p.len() <= s.len() && s.skip(s.len() - p.len()) == p
}

pub fn has_prefix(s: &[char], p: &[char]) -> (r: bool)
    ensures
        r == starts_with(s@, p@),
{
    if p.len() > s.len() {
        return false;
    }
    let mut i: usize = 0;
    while i < p.len()
        invariant
            p@.len() <= s@.len(),
            i <= p@.len(),
            forall|j: int| 0 <= j < i ==> #[trigger] s@[j] == p@[j],
        decreases p@.len() - i,
    {
        if s[i] != p[i] {
            assert(s@.take(p@.len() as int)[i as int] != p@[i as int]);
            return false;
        }
        i = i + 1;
    }
    assert(s@.take(p@.len() as int) =~= p@);
    true
}

pub fn has_suffix(s: &[char], p: &[char]) -> (r: bool)
    ensures
        r == ends_with(s@, p@),
{
    if p.len() > s.len() {
        return false;
    }
    let off = s.len() - p.len();
    let mut i: usize = 0;
    while i < p.len()
        invariant
            p@.len() <= s@.len(),
            off == s@.len() - p@.len(),
            off + p@.len() == s@.len(),
            s@.len() == s.len(),
            p@.len() == p.len(),
            i <= p@.len(),
            forall|j: int| 0 <= j < i ==> #[trigger] s@[off + j] == p@[j],
        decreases p@.len() - i,
    {
        if s[off + i] != p[i] {
            assert(s@.skip(off as int)[i as int] != p@[i as int]);
            return false;
        }
        i = i + 1;
    }
    assert forall|j: int| 0 <= j < p@.len() implies s@.skip(off as int)[j] == p@[j] by {
        assert(s@.skip(off as int)[j] == s@[off + j]);
    }
    assert(s@.skip(off as int) =~= p@);
    true
}

// ---------------------------------------------------------------------------
// finding
// ---------------------------------------------------------------------------

/// Where `c` first occurs in `s`.
pub open spec fn find_char(s: Seq<char>, c: char) -> Option<int>
    decreases s.len(),
{
    if s.len() == 0 {
        None
    } else if s[0] == c {
        Some(0)
    } else {
        match find_char(s.drop_first(), c) {
            Some(i) => Some(i + 1),
            None => None,
        }
    }
}

pub proof fn lemma_find_char(s: Seq<char>, c: char, i: int)
    requires
        0 <= i <= s.len(),
        forall|j: int| 0 <= j < i ==> s[j] != c,
    ensures
        i < s.len() && s[i] == c ==> find_char(s, c) == Some(i),
        i == s.len() ==> find_char(s, c) is None,
    decreases i,
{
    if i > 0 {
        lemma_find_char(s.drop_first(), c, i - 1);
    }
}

pub proof fn lemma_find_char_props(s: Seq<char>, c: char)
    ensures
        find_char(s, c) matches Some(i) ==> 0 <= i < s.len() && s[i] == c && forall|j: int|
            0 <= j < i ==> s[j] != c,
        find_char(s, c) is None ==> forall|j: int| 0 <= j < s.len() ==> s[j] != c,
    decreases s.len(),
{
    if s.len() > 0 {
        lemma_find_char_props(s.drop_first(), c);
        if s[0] != c {
            assert forall|j: int| 1 <= j < s.len() implies s[j] == s.drop_first()[j - 1] by {}
        }
    }
}

pub fn find(s: &[char], c: char) -> (r: Option<usize>)
    ensures
        r matches Some(i) ==> find_char(s@, c) == Some(i as int),
        r is None ==> find_char(s@, c) is None,
        r matches Some(i) ==> i < s@.len(),
{
    let mut i: usize = 0;
    while i < s.len()
        invariant
            i <= s@.len(),
            forall|j: int| 0 <= j < i ==> s@[j] != c,
        decreases s@.len() - i,
    {
        if s[i] == c {
            proof {
                lemma_find_char(s@, c, i as int);
            }
            return Some(i);
        }
        i = i + 1;
    }
    proof {
        lemma_find_char(s@, c, i as int);
    }
    None
}

pub open spec fn contains(s: Seq<char>, c: char) -> bool {
    exists|i: int| 0 <= i < s.len() && s[i] == c
}

pub fn has_char(s: &[char], c: char) -> (r: bool)
    ensures
        r == contains(s@, c),
{
    let mut i: usize = 0;
    while i < s.len()
        invariant
            i <= s@.len(),
            forall|j: int| 0 <= j < i ==> s@[j] != c,
        decreases s@.len() - i,
    {
        if s[i] == c {
            return true;
        }
        i = i + 1;
    }
    false
}

// ---------------------------------------------------------------------------
// trimming
// ---------------------------------------------------------------------------

pub open spec fn trim_start(s: Seq<char>) -> Seq<char>
    decreases s.len(),
{
    if s.len() > 0 && is_ws(s[0]) {
        trim_start(s.drop_first())
    } else {
        s
    }
}

pub open spec fn trim_end(s: Seq<char>) -> Seq<char>
    decreases s.len(),
{
    if s.len() > 0 && is_ws(s.last()) {
        trim_end(s.drop_last())
    } else {
        s
    }
}

/// `str::trim`.
pub open spec fn trim(s: Seq<char>) -> Seq<char> {
    trim_end(trim_start(s))
}

/// Where `trim_start` cuts: the index of the first character that stays.
pub fn trim_start_at(s: &[char]) -> (a: usize)
    ensures
        a <= s@.len(),
        trim_start(s@) == s@.subrange(a as int, s@.len() as int),
{
    let mut i: usize = 0;
    assert(s@.subrange(0, s@.len() as int) =~= s@);
    while i < s.len() && is_whitespace(s[i])
        invariant
            i <= s@.len(),
            trim_start(s@.subrange(i as int, s@.len() as int)) == trim_start(s@),
        decreases s@.len() - i,
    {
        assert(s@.subrange(i as int, s@.len() as int).drop_first() =~= s@.subrange(
            i + 1,
            s@.len() as int,
        ));
        i = i + 1;
    }
    i
}

/// Where `trim_end` cuts within `s[a..]`: one past the last character that stays.
pub fn trim_end_at(s: &[char], a: usize) -> (b: usize)
    requires
        a <= s@.len(),
    ensures
        a <= b <= s@.len(),
        trim_end(s@.subrange(a as int, s@.len() as int)) == s@.subrange(a as int, b as int),
{
    let mut j: usize = s.len();
    while j > a && is_whitespace(s[j - 1])
        invariant
            a <= j <= s@.len(),
            trim_end(s@.subrange(a as int, j as int)) == trim_end(
                s@.subrange(a as int, s@.len() as int),
            ),
        decreases j,
    {
        assert(s@.subrange(a as int, j as int).drop_last() =~= s@.subrange(a as int, j - 1));
        j = j - 1;
    }
    j
}

/// The bounds of `str::trim` in `s`.
pub fn trim_bounds(s: &[char]) -> (r: (usize, usize))
    ensures
        r.0 <= r.1 <= s@.len(),
        trim(s@) == s@.subrange(r.0 as int, r.1 as int),
        trim_start(s@) == s@.subrange(r.0 as int, s@.len() as int),
{
    let a = trim_start_at(s);
    let b = trim_end_at(s, a);
    (a, b)
}

/// Whether a line is empty once trimmed.
pub fn is_blank(s: &[char]) -> (r: bool)
    ensures
        r == (trim(s@).len() == 0),
{
    let (a, b) = trim_bounds(s);
    a == b
}

pub fn slice_to_vec(s: &[char], a: usize, b: usize) -> (v: Vec<char>)
    requires
        a <= b <= s@.len(),
    ensures
        v@ == s@.subrange(a as int, b as int),
{
    let mut v: Vec<char> = Vec::new();
    let mut i = a;
    while i < b
        invariant
            a <= i <= b,
            b <= s@.len(),
            v@ == s@.subrange(a as int, i as int),
        decreases b - i,
    {
        v.push(s[i]);
        i = i + 1;
        assert(v@ =~= s@.subrange(a as int, i as int));
    }
    v
}

/// `str::trim`, owned.
pub fn trimmed(s: &[char]) -> (v: Vec<char>)
    ensures
        v@ == trim(s@),
{
    let (a, b) = trim_bounds(s);
    slice_to_vec(s, a, b)
}

/// `str::trim_end`, owned.
pub fn trimmed_end(s: &[char]) -> (v: Vec<char>)
    ensures
        v@ == trim_end(s@),
{
    let b = trim_end_at(s, 0);
    assert(s@.subrange(0, s@.len() as int) =~= s@);
    slice_to_vec(s, 0, b)
}

/// `str::trim_start`, owned.
pub fn trimmed_start(s: &[char]) -> (v: Vec<char>)
    ensures
        v@ == trim_start(s@),
{
    let a = trim_start_at(s);
    slice_to_vec(s, a, s.len())
}

proof fn lemma_trim_start_len(s: Seq<char>)
    ensures
        trim_start(s).len() <= s.len(),
        trim_start(s).len() == s.len() ==> trim_start(s) == s,
    decreases s.len(),
{
    if s.len() > 0 && is_ws(s[0]) {
        lemma_trim_start_len(s.drop_first());
    }
}

proof fn lemma_trim_end_len(s: Seq<char>)
    ensures
        trim_end(s).len() <= s.len(),
        trim_end(s).len() == s.len() ==> trim_end(s) == s,
    decreases s.len(),
{
    if s.len() > 0 && is_ws(s.last()) {
        lemma_trim_end_len(s.drop_last());
    }
}

/// A trimmed text starts and ends with something that is not whitespace.
pub proof fn lemma_trimmed_ends(v: Seq<char>)
    requires
        trim(v) == v,
        v.len() > 0,
    ensures
        !is_ws(v[0]),
        !is_ws(v.last()),
{
    lemma_trim_start_len(v);
    lemma_trim_end_len(trim_start(v));
    if is_ws(v[0]) {
        lemma_trim_start_len(v.drop_first());
        assert(trim_start(v) == trim_start(v.drop_first()));
    }
    assert(trim_start(v) == v);
    if is_ws(v.last()) {
        lemma_trim_end_len(v.drop_last());
        assert(trim_end(v) == trim_end(v.drop_last()));
    }
}

/// A text that starts and ends with something other than whitespace is its
/// own trim.
pub proof fn lemma_trim_fixed(s: Seq<char>)
    requires
        s.len() > 0,
        !is_ws(s[0]),
        !is_ws(s.last()),
    ensures
        trim(s) == s,
{
    assert(trim_start(s) == s);
    assert(trim_end(s) == s);
}

proof fn lemma_trim_start_first(s: Seq<char>)
    ensures
        trim_start(s).len() <= s.len(),
        trim_start(s) == s.skip(s.len() - trim_start(s).len()),
        trim_start(s).len() > 0 ==> !is_ws(trim_start(s)[0]),
    decreases s.len(),
{
    if s.len() > 0 && is_ws(s[0]) {
        lemma_trim_start_first(s.drop_first());
        assert(s.drop_first().skip(s.len() - 1 - trim_start(s).len()) =~= s.skip(
            s.len() - trim_start(s).len(),
        ));
    } else {
        assert(s.skip(0) =~= s);
    }
}

proof fn lemma_trim_end_last(s: Seq<char>)
    ensures
        trim_end(s).len() <= s.len(),
        trim_end(s) == s.take(trim_end(s).len() as int),
        trim_end(s).len() > 0 ==> !is_ws(trim_end(s).last()),
    decreases s.len(),
{
    if s.len() > 0 && is_ws(s.last()) {
        lemma_trim_end_last(s.drop_last());
        assert(s.drop_last().take(trim_end(s).len() as int) =~= s.take(trim_end(s).len() as int));
    } else {
        assert(s.take(s.len() as int) =~= s);
    }
}

/// Trimming twice is trimming once.
pub proof fn lemma_trim_idem(s: Seq<char>)
    ensures
        trim(trim(s)) == trim(s),
{
    let y = trim_start(s);
    lemma_trim_start_first(s);
    lemma_trim_end_last(y);
    let t = trim_end(y);
    if t.len() > 0 {
        assert(t[0] == y[0]);
        lemma_trim_fixed(t);
    } else {
        assert(t =~= Seq::<char>::empty());
        assert(trim_start(t) == t);
        assert(trim_end(t) == t);
    }
}

/// A trim holds no character the text did not.
pub proof fn lemma_trim_within(s: Seq<char>, c: char)
    ensures
        contains(trim(s), c) ==> contains(s, c),
{
    let y = trim_start(s);
    lemma_trim_start_first(s);
    lemma_trim_end_last(y);
    let t = trim_end(y);
    if contains(t, c) {
        let j = choose|j: int| 0 <= j < t.len() && t[j] == c;
        assert(t[j] == y[j]);
        assert(y[j] == s[s.len() - y.len() + j]);
    }
}

/// `eq_ignore_ascii_case` is symmetric.
pub proof fn lemma_eq_ic_sym(a: Seq<char>, b: Seq<char>)
    ensures
        eq_ic(a, b) == eq_ic(b, a),
{
    if eq_ic(a, b) {
        assert forall|i: int| 0 <= i < b.len() implies fold_code(#[trigger] b[i]) == fold_code(
            a[i],
        ) by {
            assert(fold_code(a[i]) == fold_code(b[i]));
        }
    }
    if eq_ic(b, a) {
        assert forall|i: int| 0 <= i < a.len() implies fold_code(#[trigger] a[i]) == fold_code(
            b[i],
        ) by {
            assert(fold_code(b[i]) == fold_code(a[i]));
        }
    }
}

/// Whitespace at the end of a text does not survive a trim.
pub proof fn lemma_trim_push_ws(y: Seq<char>, c: char)
    requires
        is_ws(c),
    ensures
        trim(y.push(c)) == trim(y),
    decreases y.len(),
{
    let x = y.push(c);
    if y.len() == 0 {
        assert(x.drop_first() =~= Seq::<char>::empty());
        assert(trim_start(x) == trim_start(Seq::<char>::empty()));
    } else if is_ws(y[0]) {
        lemma_trim_push_ws(y.drop_first(), c);
        assert(x.drop_first() =~= y.drop_first().push(c));
        assert(trim_start(x) == trim_start(y.drop_first().push(c)));
        assert(trim_start(y) == trim_start(y.drop_first()));
    } else {
        assert(trim_start(x) == x);
        assert(trim_start(y) == y);
        assert(x.drop_last() =~= y);
        assert(trim_end(x) == trim_end(y));
    }
}

/// Reading a line goes only by its trimmed text, and a `\r` before its
/// newline is whitespace to a trim.
pub proof fn lemma_trim_strip_cr(l: Seq<char>)
    ensures
        trim(strip_cr(l)) == trim(l),
{
    if l.len() > 0 && l.last() == '\r' {
        lemma_trim_push_ws(l.drop_last(), '\r');
        assert(l.drop_last().push('\r') =~= l);
    }
}

/// Trimming a key, an ` = ` and a trimmed value, the way a `key = value`
/// line is read back.
pub proof fn lemma_trim_assignment(k: Seq<char>, v: Seq<char>)
    requires
        k.len() > 0,
        !is_ws(k[0]),
        !is_ws(k.last()),
        trim(v) == v,
    ensures
        trim(k + " = "@ + v) == if v.len() == 0 {
            k + " ="@
        } else {
            k + " = "@ + v
        },
        trim(k + " "@) == k,
        trim(" "@ + v) == v,
{
    reveal_strlit(" = ");
    reveal_strlit(" =");
    reveal_strlit(" ");
    let l = k + " = "@ + v;
    assert(l[0] == k[0]);
    assert(trim_start(l) == l);
    if v.len() == 0 {
        assert(l.drop_last() =~= k + " ="@);
        assert(trim_end(l) == trim_end(k + " ="@));
        let e = k + " ="@;
        assert(e.last() == '=');
        assert(trim_end(e) == e);
    } else {
        lemma_trimmed_ends(v);
        assert(l.last() == v.last());
    }
    let ks = k + " "@;
    assert(ks[0] == k[0]);
    assert(trim_start(ks) == ks);
    assert(ks.drop_last() =~= k);
    assert(trim_end(ks) == trim_end(k));
    assert(trim_end(k) == k);
    let sv = " "@ + v;
    assert(sv.drop_first() =~= v);
    assert(trim_start(sv) == trim_start(v));
    if v.len() > 0 {
        lemma_trimmed_ends(v);
        assert(trim_start(v) == v);
        assert(trim_end(v) == v);
    }
}

// ---------------------------------------------------------------------------
// building
// ---------------------------------------------------------------------------

/// `String::push`, which vstd gives no specification.
#[verifier::external_body]
pub fn push_char(s: &mut String, c: char)
    ensures
        final(s)@ == old(s)@.push(c),
{
    s.push(c);
}

/// The characters of a string, in order.
pub fn chars_of(s: &str) -> (v: Vec<char>)
    ensures
        v@ == s@,
{
    let mut v: Vec<char> = Vec::new();
    for c in it: s.chars()
        invariant
            v@ == it.seq().take(it.index() as int),
    {
        v.push(c);
    }
    v
}

/// A `String` holding exactly these characters.
pub fn string_of(v: &[char]) -> (s: String)
    ensures
        s@ == v@,
{
    let mut s = String::new();
    let mut i: usize = 0;
    while i < v.len()
        invariant
            i <= v@.len(),
            s@ == v@.take(i as int),
        decreases v@.len() - i,
    {
        push_char(&mut s, v[i]);
        i = i + 1;
        assert(v@.take(i as int) =~= v@.take(i - 1).push(v@[i - 1]));
    }
    assert(v@.take(v@.len() as int) =~= v@);
    s
}

/// `v` followed by `s`.
pub fn extend(v: &mut Vec<char>, s: &[char])
    ensures
        final(v)@ == old(v)@ + s@,
{
    let ghost start = v@;
    let mut i: usize = 0;
    while i < s.len()
        invariant
            i <= s@.len(),
            v@ == start + s@.take(i as int),
        decreases s@.len() - i,
    {
        v.push(s[i]);
        i = i + 1;
        assert(start + s@.take(i as int) =~= (start + s@.take(i - 1)).push(s@[i - 1]));
    }
    assert(s@.take(s@.len() as int) =~= s@);
}

/// A copy of the characters.
pub fn copy(s: &[char]) -> (v: Vec<char>)
    ensures
        v@ == s@,
{
    let mut v: Vec<char> = Vec::new();
    extend(&mut v, s);
    assert(v@ =~= s@);
    v
}

/// The views of a list of strings.
pub open spec fn views(v: Seq<String>) -> Seq<Seq<char>> {
    v.map_values(|s: String| s@)
}

/// The views of a list of character vectors.
pub open spec fn cviews(v: Seq<Vec<char>>) -> Seq<Seq<char>> {
    v.map_values(|s: Vec<char>| s@)
}

pub fn strings_of(v: &Vec<Vec<char>>) -> (r: Vec<String>)
    ensures
        views(r@) == cviews(v@),
{
    let mut r: Vec<String> = Vec::new();
    let mut i: usize = 0;
    while i < v.len()
        invariant
            i <= v@.len(),
            views(r@) == cviews(v@).take(i as int),
        decreases v@.len() - i,
    {
        let s = string_of(v[i].as_slice());
        let ghost prev = r@;
        r.push(s);
        assert(views(r@) =~= views(prev).push(v@[i as int]@));
        i = i + 1;
        assert(cviews(v@).take(i as int) =~= cviews(v@).take(i - 1).push(v@[i - 1]@));
    }
    assert(cviews(v@).take(v@.len() as int) =~= cviews(v@));
    r
}

// ---------------------------------------------------------------------------
// lines
// ---------------------------------------------------------------------------

pub open spec fn strip_cr(l: Seq<char>) -> Seq<char> {
    if l.len() > 0 && l.last() == '\r' {
        l.drop_last()
    } else {
        l
    }
}

/// The lines finished so far, and the one still being read, after `s`.
pub open spec fn lines_state(s: Seq<char>) -> (Seq<Seq<char>>, Seq<char>)
    decreases s.len(),
{
    if s.len() == 0 {
        (seq![], seq![])
    } else {
        let (done, cur) = lines_state(s.drop_last());
        if s.last() == '\n' {
            (done.push(strip_cr(cur)), seq![])
        } else {
            (done, cur.push(s.last()))
        }
    }
}

/// `str::lines`: split at `\n`, a `\r` before it dropped, and no empty line
/// after a final newline.
pub open spec fn lines(s: Seq<char>) -> Seq<Seq<char>> {
    let (done, cur) = lines_state(s);
    if cur.len() == 0 {
        done
    } else {
        done.push(cur)
    }
}

/// Reading on after a text that ended a line starts afresh.
pub proof fn lemma_lines_state_append(a: Seq<char>, b: Seq<char>)
    requires
        lines_state(a).1.len() == 0,
    ensures
        lines_state(a + b) == (lines_state(a).0 + lines_state(b).0, lines_state(b).1),
    decreases b.len(),
{
    if b.len() == 0 {
        assert(a + b =~= a);
        assert(lines_state(a).0 + Seq::<Seq<char>>::empty() =~= lines_state(a).0);
    } else {
        lemma_lines_state_append(a, b.drop_last());
        assert((a + b).drop_last() =~= a + b.drop_last());
        assert((a + b).last() == b.last());
        let (d1, c1) = lines_state(b.drop_last());
        if b.last() == '\n' {
            assert(lines_state(a).0 + d1.push(strip_cr(c1)) =~= (lines_state(a).0 + d1).push(strip_cr(c1)));
        }
    }
}

/// A text with no newline is one unfinished line.
pub proof fn lemma_lines_state_one(l: Seq<char>)
    requires
        !contains(l, '\n'),
    ensures
        lines_state(l) == (Seq::<Seq<char>>::empty(), l),
    decreases l.len(),
{
    if l.len() > 0 {
        assert(!contains(l.drop_last(), '\n')) by {
            lemma_find_char_props(l, '\n');
            lemma_find_char_props(l.drop_last(), '\n');
            if contains(l.drop_last(), '\n') {
                let i = find_char(l.drop_last(), '\n').unwrap();
                assert(l[i] == '\n');
            }
        }
        lemma_lines_state_one(l.drop_last());
        lemma_find_char_props(l, '\n');
        assert(l.last() != '\n');
        assert(l.drop_last().push(l.last()) =~= l);
    }
}

proof fn lemma_lines_state_no_newline(t: Seq<char>)
    ensures
        !contains(lines_state(t).1, '\n'),
        forall|i: int|
            0 <= i < lines_state(t).0.len() ==> !contains(#[trigger] lines_state(t).0[i], '\n'),
    decreases t.len(),
{
    if t.len() > 0 {
        lemma_lines_state_no_newline(t.drop_last());
        let (done, cur) = lines_state(t.drop_last());
        if t.last() == '\n' {
            let l = strip_cr(cur);
            if contains(l, '\n') {
                let j = choose|j: int| 0 <= j < l.len() && l[j] == '\n';
                assert(cur[j] == '\n');
            }
            assert forall|i: int| 0 <= i < done.push(l).len() implies !contains(
                #[trigger] done.push(l)[i],
                '\n',
            ) by {
                if i < done.len() {
                    assert(done.push(l)[i] == done[i]);
                }
            }
        } else {
            let c2 = cur.push(t.last());
            if contains(c2, '\n') {
                let j = choose|j: int| 0 <= j < c2.len() && c2[j] == '\n';
                if j < cur.len() {
                    assert(cur[j] == '\n');
                }
            }
        }
    }
}

/// No line `lines` gives holds a newline.
pub proof fn lemma_lines_no_newline(t: Seq<char>)
    ensures
        forall|i: int| 0 <= i < lines(t).len() ==> !contains(#[trigger] lines(t)[i], '\n'),
{
    lemma_lines_state_no_newline(t);
    let (done, cur) = lines_state(t);
    if cur.len() > 0 {
        assert forall|i: int| 0 <= i < done.push(cur).len() implies !contains(
            #[trigger] done.push(cur)[i],
            '\n',
        ) by {
            if i < done.len() {
                assert(done.push(cur)[i] == done[i]);
            }
        }
    }
}

/// Lines written out, each with its newline.
pub open spec fn lines_text(ls: Seq<Seq<char>>) -> Seq<char>
    decreases ls.len(),
{
    if ls.len() == 0 {
        seq![]
    } else {
        lines_text(ls.drop_last()) + ls.last() + seq!['\n']
    }
}

/// Each line as `lines` gives it back: a `\r` before the newline dropped.
pub open spec fn strip_all(ls: Seq<Seq<char>>) -> Seq<Seq<char>> {
    ls.map_values(|l: Seq<char>| strip_cr(l))
}

pub proof fn lemma_lines_text_append(a: Seq<Seq<char>>, b: Seq<Seq<char>>)
    ensures
        lines_text(a + b) == lines_text(a) + lines_text(b),
    decreases b.len(),
{
    if b.len() == 0 {
        assert(a + b =~= a);
        assert(lines_text(a) + Seq::<char>::empty() =~= lines_text(a));
    } else {
        lemma_lines_text_append(a, b.drop_last());
        assert((a + b).drop_last() =~= a + b.drop_last());
        assert((a + b).last() == b.last());
        assert(lines_text(a + b) =~= lines_text(a) + lines_text(b));
    }
}

/// Lines written out read back as themselves, when none holds a newline.
pub proof fn lemma_lines_text(ls: Seq<Seq<char>>)
    requires
        forall|i: int| 0 <= i < ls.len() ==> !contains(#[trigger] ls[i], '\n'),
    ensures
        lines_state(lines_text(ls)) == (strip_all(ls), Seq::<char>::empty()),
        lines(lines_text(ls)) == strip_all(ls),
    decreases ls.len(),
{
    if ls.len() == 0 {
        assert(strip_all(ls) =~= Seq::<Seq<char>>::empty());
    } else {
        let init = ls.drop_last();
        let l = ls.last();
        assert forall|i: int| 0 <= i < init.len() implies !contains(#[trigger] init[i], '\n') by {
            assert(init[i] == ls[i]);
        }
        lemma_lines_text(init);
        assert(!contains(ls[ls.len() - 1], '\n'));
        lemma_lines_state_one(l);
        let b = l + seq!['\n'];
        assert(b.drop_last() =~= l);
        assert(lines_state(b) == (seq![strip_cr(l)], Seq::<char>::empty()));
        assert(lines_text(ls) == lines_text(init) + b);
        lemma_lines_state_append(lines_text(init), b);
        assert(strip_all(init) + seq![strip_cr(l)] =~= strip_all(ls));
    }
}

pub fn lines_of(s: &[char]) -> (r: Vec<Vec<char>>)
    ensures
        cviews(r@) == lines(s@),
{
    let mut done: Vec<Vec<char>> = Vec::new();
    let mut cur: Vec<char> = Vec::new();
    let mut i: usize = 0;
    while i < s.len()
        invariant
            i <= s@.len(),
            (cviews(done@), cur@) == lines_state(s@.take(i as int)),
        decreases s@.len() - i,
    {
        let c = s[i];
        assert(s@.take(i + 1).drop_last() =~= s@.take(i as int));
        if c == '\n' {
            if cur.len() > 0 && cur[cur.len() - 1] == '\r' {
                cur.pop();
            }
            let line = cur;
            done.push(line);
            cur = Vec::new();
            assert(cviews(done@) =~= lines_state(s@.take(i + 1)).0);
        } else {
            cur.push(c);
            assert(cviews(done@) =~= lines_state(s@.take(i + 1)).0);
        }
        i = i + 1;
    }
    assert(s@.take(s@.len() as int) =~= s@);
    if cur.len() > 0 {
        done.push(cur);
    }
    assert(cviews(done@) =~= lines(s@));
    done
}

// ---------------------------------------------------------------------------
// splitting
// ---------------------------------------------------------------------------

/// Words finished so far, and the one being read, splitting at whitespace.
pub open spec fn words_state(s: Seq<char>) -> (Seq<Seq<char>>, Seq<char>)
    decreases s.len(),
{
    if s.len() == 0 {
        (seq![], seq![])
    } else {
        let (done, cur) = words_state(s.drop_last());
        if is_ws(s.last()) {
            if cur.len() > 0 {
                (done.push(cur), seq![])
            } else {
                (done, cur)
            }
        } else {
            (done, cur.push(s.last()))
        }
    }
}

/// `str::split_whitespace`.
pub open spec fn words(s: Seq<char>) -> Seq<Seq<char>> {
    let (done, cur) = words_state(s);
    if cur.len() == 0 {
        done
    } else {
        done.push(cur)
    }
}

pub fn words_of(s: &[char]) -> (r: Vec<Vec<char>>)
    ensures
        cviews(r@) == words(s@),
{
    let mut done: Vec<Vec<char>> = Vec::new();
    let mut cur: Vec<char> = Vec::new();
    let mut i: usize = 0;
    while i < s.len()
        invariant
            i <= s@.len(),
            (cviews(done@), cur@) == words_state(s@.take(i as int)),
        decreases s@.len() - i,
    {
        let c = s[i];
        assert(s@.take(i + 1).drop_last() =~= s@.take(i as int));
        if is_whitespace(c) {
            if cur.len() > 0 {
                let w = cur;
                done.push(w);
                cur = Vec::new();
            }
            assert(cviews(done@) =~= words_state(s@.take(i + 1)).0);
        } else {
            cur.push(c);
            assert(cviews(done@) =~= words_state(s@.take(i + 1)).0);
        }
        i = i + 1;
    }
    assert(s@.take(s@.len() as int) =~= s@);
    if cur.len() > 0 {
        done.push(cur);
    }
    assert(cviews(done@) =~= words(s@));
    done
}

/// Pieces finished so far, and the one being read, splitting at `sep`.
pub open spec fn split_state(s: Seq<char>, sep: char) -> (Seq<Seq<char>>, Seq<char>)
    decreases s.len(),
{
    if s.len() == 0 {
        (seq![], seq![])
    } else {
        let (done, cur) = split_state(s.drop_last(), sep);
        if s.last() == sep {
            (done.push(cur), seq![])
        } else {
            (done, cur.push(s.last()))
        }
    }
}

/// `str::split(sep)`: every piece, empty ones included.
pub open spec fn split(s: Seq<char>, sep: char) -> Seq<Seq<char>> {
    let (done, cur) = split_state(s, sep);
    done.push(cur)
}

pub fn split_of(s: &[char], sep: char) -> (r: Vec<Vec<char>>)
    ensures
        cviews(r@) == split(s@, sep),
{
    let mut done: Vec<Vec<char>> = Vec::new();
    let mut cur: Vec<char> = Vec::new();
    let mut i: usize = 0;
    while i < s.len()
        invariant
            i <= s@.len(),
            (cviews(done@), cur@) == split_state(s@.take(i as int), sep),
        decreases s@.len() - i,
    {
        let c = s[i];
        assert(s@.take(i + 1).drop_last() =~= s@.take(i as int));
        if c == sep {
            let w = cur;
            done.push(w);
            cur = Vec::new();
            assert(cviews(done@) =~= split_state(s@.take(i + 1), sep).0);
        } else {
            cur.push(c);
            assert(cviews(done@) =~= split_state(s@.take(i + 1), sep).0);
        }
        i = i + 1;
    }
    assert(s@.take(s@.len() as int) =~= s@);
    done.push(cur);
    assert(cviews(done@) =~= split(s@, sep));
    done
}

// ---------------------------------------------------------------------------
// joining
// ---------------------------------------------------------------------------

/// `[T]::join(sep)`.
pub open spec fn join(parts: Seq<Seq<char>>, sep: Seq<char>) -> Seq<char>
    decreases parts.len(),
{
    if parts.len() == 0 {
        seq![]
    } else if parts.len() == 1 {
        parts[0]
    } else {
        join(parts.drop_last(), sep) + sep + parts.last()
    }
}

/// A join holding a non-empty part is non-empty.
pub proof fn lemma_join_nonempty(parts: Seq<Seq<char>>, sep: Seq<char>)
    requires
        parts.len() > 0,
        parts[0].len() > 0,
    ensures
        join(parts, sep).len() > 0,
    decreases parts.len(),
{
    if parts.len() > 1 {
        lemma_join_nonempty(parts.drop_last(), sep);
    }
}

pub fn join_of(parts: &Vec<Vec<char>>, sep: &[char]) -> (r: Vec<char>)
    ensures
        r@ == join(cviews(parts@), sep@),
{
    let mut r: Vec<char> = Vec::new();
    let mut i: usize = 0;
    while i < parts.len()
        invariant
            i <= parts@.len(),
            r@ == join(cviews(parts@).take(i as int), sep@),
        decreases parts@.len() - i,
    {
        if i > 0 {
            extend(&mut r, sep);
        }
        extend(&mut r, parts[i].as_slice());
        i = i + 1;
        assert(cviews(parts@).take(i as int).drop_last() =~= cviews(parts@).take(i - 1));
        assert(seq![] + parts@[i - 1]@ =~= parts@[i - 1]@);
    }
    assert(cviews(parts@).take(parts@.len() as int) =~= cviews(parts@));
    r
}

/// A file body written from lines: joined by newlines, with one at the end
/// unless there is nothing at all.
pub open spec fn file_body(ls: Seq<Seq<char>>) -> Seq<char> {
    let j = join(ls, seq!['\n']);
    if j.len() == 0 {
        j
    } else {
        j.push('\n')
    }
}

proof fn lemma_join_lines_text(ls: Seq<Seq<char>>)
    requires
        ls.len() > 0,
    ensures
        join(ls, seq!['\n']).push('\n') == lines_text(ls),
        join(ls, seq!['\n']).len() >= ls.last().len(),
    decreases ls.len(),
{
    if ls.len() == 1 {
        assert(ls.drop_last() =~= Seq::<Seq<char>>::empty());
        assert(lines_text(ls) == lines_text(ls.drop_last()) + ls.last() + seq!['\n']);
        assert(lines_text(ls.drop_last()) == Seq::<char>::empty());
        assert(ls.last() == ls[0]);
        assert(join(ls, seq!['\n']).push('\n') =~= lines_text(ls));
    } else {
        lemma_join_lines_text(ls.drop_last());
        assert(join(ls, seq!['\n']).push('\n') =~= join(ls.drop_last(), seq!['\n']).push('\n')
            + ls.last() + seq!['\n']);
    }
}

/// Lines written out as a file body read back as themselves, when none holds
/// a newline and the last one is not empty.
pub proof fn lemma_file_body_lines(ls: Seq<Seq<char>>)
    requires
        ls.len() > 0,
        ls.last().len() > 0,
        forall|i: int| 0 <= i < ls.len() ==> !contains(#[trigger] ls[i], '\n'),
    ensures
        lines(file_body(ls)) == strip_all(ls),
{
    lemma_join_lines_text(ls);
    lemma_lines_text(ls);
}

/// Lines written out as a file body read back as themselves, when none holds
/// a newline and they are not all empty.
pub proof fn lemma_file_body_lines_any(ls: Seq<Seq<char>>)
    requires
        ls.len() > 0,
        join(ls, seq!['\n']).len() > 0,
        forall|i: int| 0 <= i < ls.len() ==> !contains(#[trigger] ls[i], '\n'),
    ensures
        lines(file_body(ls)) == strip_all(ls),
{
    lemma_join_lines_text(ls);
    lemma_lines_text(ls);
}

pub fn file_body_of(ls: &Vec<Vec<char>>) -> (r: Vec<char>)
    ensures
        r@ == file_body(cviews(ls@)),
{
    let nl = vec!['\n'];
    let mut r = join_of(ls, nl.as_slice());
    assert(nl@ =~= seq!['\n']);
    if r.len() > 0 {
        r.push('\n');
    }
    r
}

/// `a` sorts no later than `b`: the order `str` compares in, which is the
/// order of the characters' code points, a prefix first.
pub open spec fn lex_le(a: Seq<char>, b: Seq<char>) -> bool
    decreases a.len(),
{
    if a.len() == 0 {
        true
    } else if b.len() == 0 {
        false
    } else if a[0] != b[0] {
        (a[0] as u32) < (b[0] as u32)
    } else {
        lex_le(a.drop_first(), b.drop_first())
    }
}

/// Either order holds between two texts.
pub proof fn lemma_lex_total(a: Seq<char>, b: Seq<char>)
    ensures
        lex_le(a, b) || lex_le(b, a),
    decreases a.len(),
{
    if a.len() > 0 && b.len() > 0 {
        if a[0] == b[0] {
            lemma_lex_total(a.drop_first(), b.drop_first());
        } else {
            let x = a[0];
            let y = b[0];
            vstd::utf8::char_u32_cast(x, x as u32);
            vstd::utf8::char_u32_cast(y, y as u32);
            assert((x as u32) != (y as u32));
        }
    }
}

/// Texts in both orders are the same text.
pub proof fn lemma_lex_antisym(a: Seq<char>, b: Seq<char>)
    requires
        lex_le(a, b),
        lex_le(b, a),
    ensures
        a == b,
    decreases a.len(),
{
    if a.len() > 0 && b.len() > 0 {
        lemma_lex_antisym(a.drop_first(), b.drop_first());
        assert(a =~= seq![a[0]] + a.drop_first());
        assert(b =~= seq![b[0]] + b.drop_first());
    } else if a.len() == 0 && b.len() > 0 {
        assert(!lex_le(b, a));
    } else if a.len() > 0 {
        assert(!lex_le(a, b));
    } else {
        assert(a =~= b);
    }
}

pub proof fn lemma_lex_trans(a: Seq<char>, b: Seq<char>, c: Seq<char>)
    requires
        lex_le(a, b),
        lex_le(b, c),
    ensures
        lex_le(a, c),
    decreases a.len(),
{
    if a.len() > 0 && b.len() > 0 && c.len() > 0 && a[0] == b[0] && b[0] == c[0] {
        lemma_lex_trans(a.drop_first(), b.drop_first(), c.drop_first());
    }
}

pub fn lex_le_of(a: &[char], b: &[char]) -> (r: bool)
    ensures
        r == lex_le(a@, b@),
{
    let mut i: usize = 0;
    assert(a@.skip(0) =~= a@);
    assert(b@.skip(0) =~= b@);
    while i < a.len() && i < b.len() && a[i] == b[i]
        invariant
            i <= a@.len(),
            i <= b@.len(),
            lex_le(a@, b@) == lex_le(a@.skip(i as int), b@.skip(i as int)),
        decreases a@.len() - i,
    {
        assert(a@.skip(i as int).drop_first() =~= a@.skip(i + 1));
        assert(b@.skip(i as int).drop_first() =~= b@.skip(i + 1));
        i = i + 1;
    }
    if i == a.len() {
        true
    } else if i == b.len() {
        false
    } else {
        (a[i] as u32) < (b[i] as u32)
    }
}

/// Whether the characters are exactly this literal.
pub fn same_as(a: &[char], lit: &str) -> (r: bool)
    ensures
        r == (a@ == lit@),
{
    let b = chars_of(lit);
    seq_eq(a, b.as_slice())
}

/// `char::to_ascii_lowercase`.
pub open spec fn lower_char(c: char) -> char {
    if 'A' <= c && c <= 'Z' {
        ((c as u32) + 32) as char
    } else {
        c
    }
}

/// `str::to_ascii_lowercase`.
pub open spec fn lower(s: Seq<char>) -> Seq<char> {
    s.map_values(|c: char| lower_char(c))
}

pub fn lower_of(s: &[char]) -> (r: Vec<char>)
    ensures
        r@ == lower(s@),
{
    let mut r: Vec<char> = Vec::new();
    let mut i: usize = 0;
    while i < s.len()
        invariant
            i <= s@.len(),
            r@ == lower(s@.take(i as int)),
        decreases s@.len() - i,
    {
        let c = s[i];
        let d = if 'A' <= c && c <= 'Z' {
            let code: u8 = ((c as u32) + 32) as u8;
            code as char
        } else {
            c
        };
        r.push(d);
        i = i + 1;
        assert(r@ =~= lower(s@.take(i as int)));
    }
    assert(s@.take(s@.len() as int) =~= s@);
    r
}

/// `words(join(ws, " "))` gives `ws` back when every word is non-empty and
/// holds no whitespace.
pub open spec fn is_word(w: Seq<char>) -> bool {
    w.len() > 0 && forall|i: int| 0 <= i < w.len() ==> !is_ws(#[trigger] w[i])
}

proof fn lemma_words_append(a: Seq<char>, w: Seq<char>)
    requires
        forall|i: int| 0 <= i < w.len() ==> !is_ws(#[trigger] w[i]),
    ensures
        words_state(a + w) == (words_state(a).0, words_state(a).1 + w),
    decreases w.len(),
{
    if w.len() == 0 {
        assert(a + w =~= a);
        assert(words_state(a).1 + w =~= words_state(a).1);
    } else {
        lemma_words_append(a, w.drop_last());
        assert((a + w).drop_last() =~= a + w.drop_last());
        assert(!is_ws(w[w.len() - 1]));
        assert(words_state(a).1 + w.drop_last() + seq![w.last()] =~= words_state(a).1 + w);
    }
}

proof fn lemma_words_state_words(s: Seq<char>)
    ensures
        forall|i: int| 0 <= i < words_state(s).0.len() ==> is_word(#[trigger] words_state(s).0[i]),
        forall|i: int| 0 <= i < words_state(s).1.len() ==> !is_ws(#[trigger] words_state(s).1[i]),
    decreases s.len(),
{
    if s.len() > 0 {
        lemma_words_state_words(s.drop_last());
        let (done, cur) = words_state(s.drop_last());
        let c = s.last();
        if is_ws(c) {
            if cur.len() > 0 {
                assert(is_word(cur));
                assert forall|i: int| 0 <= i < done.push(cur).len() implies is_word(
                    #[trigger] done.push(cur)[i],
                ) by {
                    if i < done.len() {
                        assert(done.push(cur)[i] == done[i]);
                    }
                }
            }
        } else {
            assert forall|i: int| 0 <= i < cur.push(c).len() implies !is_ws(
                #[trigger] cur.push(c)[i],
            ) by {
                if i < cur.len() {
                    assert(cur.push(c)[i] == cur[i]);
                }
            }
        }
    }
}

/// Every word `words` gives is non-empty and free of whitespace.
pub proof fn lemma_words_are_words(s: Seq<char>)
    ensures
        forall|i: int| 0 <= i < words(s).len() ==> is_word(#[trigger] words(s)[i]),
{
    lemma_words_state_words(s);
}

pub proof fn lemma_words_join(ws: Seq<Seq<char>>)
    requires
        forall|i: int| 0 <= i < ws.len() ==> is_word(#[trigger] ws[i]),
    ensures
        ws.len() > 0 ==> words_state(join(ws, seq![' '])) == (ws.drop_last(), ws.last()),
        words(join(ws, seq![' '])) == ws,
    decreases ws.len(),
{
    if ws.len() == 0 {
        assert(words(join(ws, seq![' '])) =~= ws);
    } else if ws.len() == 1 {
        assert(is_word(ws[0]));
        lemma_words_append(seq![], ws[0]);
        assert(seq![] + ws[0] =~= ws[0]);
        assert(words_state(Seq::<char>::empty()) == (Seq::<Seq<char>>::empty(), Seq::<char>::empty()));
        assert(Seq::<char>::empty() + ws[0] =~= ws[0]);
        assert(ws.drop_last() =~= Seq::<Seq<char>>::empty());
        assert(ws.drop_last().push(ws.last()) =~= ws);
    } else {
        let front = ws.drop_last();
        assert forall|i: int| 0 <= i < front.len() implies is_word(#[trigger] front[i]) by {
            assert(front[i] == ws[i]);
        }
        lemma_words_join(front);
        let j = join(front, seq![' ']);
        let js = j + seq![' '];
        assert(js.drop_last() =~= j);
        assert(front.drop_last().push(front.last()) =~= front);
        assert(words_state(js) == (front, Seq::<char>::empty()));
        assert(is_word(ws[ws.len() - 1]));
        lemma_words_append(js, ws.last());
        assert(join(ws, seq![' ']) =~= js + ws.last());
        assert(Seq::<char>::empty() + ws.last() =~= ws.last());
        assert(front.push(ws.last()) =~= ws);
    }
}

// ---------------------------------------------------------------------------
// numbers
// ---------------------------------------------------------------------------

pub open spec fn digit_char(d: int) -> char {
    if d == 0 {
        '0'
    } else if d == 1 {
        '1'
    } else if d == 2 {
        '2'
    } else if d == 3 {
        '3'
    } else if d == 4 {
        '4'
    } else if d == 5 {
        '5'
    } else if d == 6 {
        '6'
    } else if d == 7 {
        '7'
    } else if d == 8 {
        '8'
    } else {
        '9'
    }
}

pub fn digit(d: u64) -> (c: char)
    requires
        d < 10,
    ensures
        c == digit_char(d as int),
{
    if d == 0 {
        '0'
    } else if d == 1 {
        '1'
    } else if d == 2 {
        '2'
    } else if d == 3 {
        '3'
    } else if d == 4 {
        '4'
    } else if d == 5 {
        '5'
    } else if d == 6 {
        '6'
    } else if d == 7 {
        '7'
    } else if d == 8 {
        '8'
    } else {
        '9'
    }
}

/// A number in decimal, as `Display` writes it.
pub open spec fn dec(n: nat) -> Seq<char>
    decreases n,
{
    if n < 10 {
        seq![digit_char(n as int)]
    } else {
        dec(n / 10).push(digit_char((n % 10) as int))
    }
}

pub fn dec_of(n: u64) -> (r: Vec<char>)
    ensures
        r@ == dec(n as nat),
    decreases n,
{
    if n < 10 {
        let mut v: Vec<char> = Vec::new();
        v.push(digit(n));
        assert(v@ =~= dec(n as nat));
        v
    } else {
        let mut v = dec_of(n / 10);
        v.push(digit(n % 10));
        v
    }
}

pub open spec fn is_digit(c: char) -> bool {
    '0' <= c && c <= '9'
}

pub open spec fn digit_value(c: char) -> int {
    c as int - '0' as int
}

/// The value of a run of decimal digits.
pub open spec fn dec_value(s: Seq<char>) -> int
    decreases s.len(),
{
    if s.len() == 0 {
        0
    } else {
        dec_value(s.drop_last()) * 10 + digit_value(s.last())
    }
}

pub open spec fn all_digits(s: Seq<char>) -> bool {
    forall|i: int| 0 <= i < s.len() ==> is_digit(#[trigger] s[i])
}

/// `str::parse::<u64>`: an optional `+`, then at least one digit and nothing
/// else, with a value that fits.
pub open spec fn parse_u64(s: Seq<char>) -> Option<u64> {
    let ds = if s.len() > 0 && s[0] == '+' {
        s.drop_first()
    } else {
        s
    };
    if ds.len() > 0 && all_digits(ds) && dec_value(ds) <= u64::MAX {
        Some(dec_value(ds) as u64)
    } else {
        None
    }
}

proof fn lemma_dec_value_nonneg(s: Seq<char>)
    requires
        all_digits(s),
    ensures
        dec_value(s) >= 0,
    decreases s.len(),
{
    if s.len() > 0 {
        lemma_dec_value_nonneg(s.drop_last());
    }
}

proof fn lemma_dec_value_grows(s: Seq<char>, i: int)
    requires
        all_digits(s),
        0 <= i <= s.len(),
    ensures
        dec_value(s.take(i)) <= dec_value(s),
    decreases s.len() - i,
{
    if i < s.len() {
        lemma_dec_value_grows(s, i + 1);
        assert(s.take(i + 1).drop_last() =~= s.take(i));
        lemma_dec_value_nonneg(s.take(i));
    } else {
        assert(s.take(i) =~= s);
    }
}

/// A number written by `dec` parses back as itself.
pub proof fn lemma_parse_dec(n: u64)
    ensures
        parse_u64(dec(n as nat)) == Some(n),
{
    lemma_dec_digits(n as nat);
}

proof fn lemma_dec_digits(n: nat)
    ensures
        dec(n).len() > 0,
        all_digits(dec(n)),
        dec_value(dec(n)) == n,
    decreases n,
{
    let r = n % 10;
    assert(digit_value(digit_char(r as int)) == r && is_digit(digit_char(r as int)));
    if n < 10 {
        assert(dec(n).drop_last() =~= Seq::<char>::empty());
        assert(dec_value(Seq::<char>::empty()) == 0);
        assert(dec_value(dec(n)) == dec_value(dec(n).drop_last()) * 10 + digit_value(dec(n).last()));
        assert(dec(n).last() == digit_char(n as int));
        assert(r == n);
    }
    if n >= 10 {
        lemma_dec_digits(n / 10);
        let d = dec(n);
        assert(d.drop_last() == dec(n / 10));
        vstd::arithmetic::div_mod::lemma_fundamental_div_mod(n as int, 10);
        assert(dec_value(d) == dec_value(dec(n / 10)) * 10 + digit_value(digit_char(r as int)));
        assert(dec_value(d) == n);
        assert forall|i: int| 0 <= i < d.len() implies is_digit(#[trigger] d[i]) by {
            if i < d.len() - 1 {
                assert(d[i] == dec(n / 10)[i]);
            }
        }
    }
}

pub fn parse_u64_of(s: &[char]) -> (r: Option<u64>)
    ensures
        r == parse_u64(s@),
{
    let start: usize = if s.len() > 0 && s[0] == '+' { 1 } else { 0 };
    let ghost ds = if s@.len() > 0 && s@[0] == '+' {
        s@.drop_first()
    } else {
        s@
    };
    assert(ds =~= s@.subrange(start as int, s@.len() as int));
    if start >= s.len() {
        assert(ds.len() == 0);
        return None;
    }
    let mut v: u64 = 0;
    let mut i = start;
    while i < s.len()
        invariant
            start <= i <= s@.len(),
            ds == s@.subrange(start as int, s@.len() as int),
            ds.len() > 0,
            parse_u64(s@) == (if all_digits(ds) && dec_value(ds) <= u64::MAX {
                Some(dec_value(ds) as u64)
            } else {
                None
            }),
            all_digits(ds.take(i - start)),
            v as int == dec_value(ds.take(i - start)),
        decreases s@.len() - i,
    {
        let c = s[i];
        assert(ds[i - start] == c);
        if !('0' <= c && c <= '9') {
            assert(!is_digit(ds[(i - start) as int]));
            assert(!all_digits(ds));
            assert(parse_u64(s@) is None);
            return None;
        }
        let d = (c as u32 - '0' as u32) as u64;
        assert(ds.take(i + 1 - start).drop_last() =~= ds.take(i - start));
        assert(all_digits(ds.take(i + 1 - start)));
        assert(dec_value(ds.take(i + 1 - start)) == dec_value(ds.take(i - start)) * 10
            + digit_value(c));
        assert(digit_value(c) == d as int);
        if v > (u64::MAX - d) / 10 {
            assert(dec_value(ds.take(i + 1 - start)) > u64::MAX) by (nonlinear_arith)
                requires
                    v > (u64::MAX - d) / 10,
                    dec_value(ds.take(i + 1 - start)) == v * 10 + d,
                    d < 10,
            ;
            proof {
                if all_digits(ds) {
                    lemma_dec_value_grows(ds, i + 1 - start);
                }
            }
            return None;
        }
        assert(v * 10 + d <= u64::MAX) by (nonlinear_arith)
            requires
                v <= (u64::MAX - d) / 10,
                d < 10,
        ;
        v = v * 10 + d;
        i = i + 1;
    }
    assert(ds.take(s@.len() - start) =~= ds);
    Some(v)
}

} // verus!
