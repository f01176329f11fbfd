//! Per-character syntax classification.
//!
//! One row is classified by a single left-to-right scan over its characters.
//! The scanner keeps a small explicit state (base, inside a number, inside a
//! quoted literal, inside a multi-line comment) and consumes the row against
//! a data-driven rule set: a line-comment marker, multi-line comment open and
//! close markers, quote characters, a numeric-literal switch, and two keyword
//! lists. Only the multi-line-comment state carries from one row to the
//! next; it enters and leaves the scan as an explicit continuation flag.
//!
//! When a search query is active, a second pass overrides the classification
//! of every character inside an occurrence of the query.

use vstd::prelude::*;

verus! {

/// Classification tag for one character of a row.
#[derive(Clone, Copy, PartialEq, Eq, Structural, Debug)]
pub enum HighlightKind {
    Plain,
    Number,
    Quoted,
    Comment,
    MultiComment,
    PrimaryKeyword,
    SecondaryKeyword,
    SearchMatch,
}

/// State of the scanner between two characters of a row. While the state is
/// `InQuote`, the character that opened the literal travels beside it as a
/// separate scanner argument.
#[derive(Clone, Copy, PartialEq, Eq, Structural, Debug)]
pub enum ScanState {
    Base,
    InNumber,
    InQuote,
    InMulti,
}

/// The rule set one language profile supplies to the scanner. An empty
/// marker or an empty quote list switches the matching feature off.
pub struct HighlightOptions {
    pub numbers: bool,
    pub line_marker: Vec<char>,
    pub multi_open: Vec<char>,
    pub multi_close: Vec<char>,
    pub quotes: Vec<char>,
    pub primary_keywords: Vec<Vec<char>>,
    pub secondary_keywords: Vec<Vec<char>>,
}

/// Mathematical image of a rule set.
pub struct OptionsView {
    pub numbers: bool,
    pub line_marker: Seq<char>,
    pub multi_open: Seq<char>,
    pub multi_close: Seq<char>,
    pub quotes: Seq<char>,
    pub primary_keywords: Seq<Seq<char>>,
    pub secondary_keywords: Seq<Seq<char>>,
}

/// The views of a list of keyword vectors.
pub open spec fn kw_views(kws: Seq<Vec<char>>) -> Seq<Seq<char>> {
    kws.map_values(|v: Vec<char>| v@)
}

impl View for HighlightOptions {
    type V = OptionsView;

    open spec fn view(&self) -> OptionsView {
        OptionsView {
            numbers: self.numbers,
            line_marker: self.line_marker@,
            multi_open: self.multi_open@,
            multi_close: self.multi_close@,
            quotes: self.quotes@,
            primary_keywords: kw_views(self.primary_keywords@),
            secondary_keywords: kw_views(self.secondary_keywords@),
        }
    }
}

/// Characters that end an identifier or a number, and after which a new
/// word may start.
pub open spec fn is_separator(c: char) -> bool {
    c == ' ' || c == '\t' || c == '(' || c == ')' || c == '{' || c == '}' || c == '[' || c == ']'
        || c == '+' || c == '-' || c == '*' || c == '/' || c == '=' || c == '"' || c == '\''
        || c == '<' || c == '>' || c == '!' || c == '&' || c == '|' || c == ',' || c == '.'
        || c == ';' || c == ':' || c == '#'
}

pub open spec fn is_digit(c: char) -> bool {
    48 <= c as u32 <= 57
}

/// Quantifier-free membership test, written recursively so that it can
/// stand in a branch of the scanner's definition.
pub open spec fn has_char(s: Seq<char>, ch: char) -> bool
    decreases s.len(),
{
    if s.len() == 0 {
        false
    } else {
        s[0] == ch || has_char(s.drop_first(), ch)
    }
}

/// The query or a marker `pat` occurs in `c` starting at offset `s`.
pub open spec fn occurs_at(c: Seq<char>, pat: Seq<char>, s: int) -> bool {
    0 <= s && s + pat.len() <= c.len() && c.subrange(s, s + pat.len() as int) == pat
}

/// A non-empty marker `pat` stands in `c` at offset `s`. An empty marker
/// never matches, so an empty marker disables its feature.
pub open spec fn marker_at(c: Seq<char>, pat: Seq<char>, s: int) -> bool {
    pat.len() > 0 && occurs_at(c, pat, s)
}

/// A keyword matches at `i` only when the character after it (if any) is a
/// separator; the caller checks the boundary before `i`.
pub open spec fn kw_hit(c: Seq<char>, i: int, kw: Seq<char>) -> bool {
    marker_at(c, kw, i) && (i + kw.len() == c.len() || is_separator(c[i + kw.len()]))
}

/// Index of the first keyword of `kws[j..]` that matches in `c` at `i`.
pub open spec fn first_kw(kws: Seq<Seq<char>>, c: Seq<char>, i: int, j: int) -> Option<int>
    decreases kws.len() - j,
{
    if j < 0 || j >= kws.len() {
        None
    } else if kw_hit(c, i, kws[j]) {
        Some(j)
    } else {
        first_kw(kws, c, i, j + 1)
    }
}

pub proof fn lemma_first_kw_hit(kws: Seq<Seq<char>>, c: Seq<char>, i: int, j: int)
    ensures
        first_kw(kws, c, i, j) matches Some(m) ==> j <= m < kws.len() && kw_hit(c, i, kws[m]),
    decreases kws.len() - j,
{
    if 0 <= j && j < kws.len() && !kw_hit(c, i, kws[j]) {
        lemma_first_kw_hit(kws, c, i, j + 1);
    }
}

/// A new word (keyword or number) may start at `i`.
pub open spec fn word_start(c: Seq<char>, i: int) -> bool {
    i == 0 || is_separator(c[i - 1])
}

/// The scan itself: classification of `c[i..]` entered in state `st` (with
/// `qc` the quote character that opened the literal when `st` is `InQuote`),
/// paired with the outgoing continuation flag, true iff the row ends still
/// inside an unterminated multi-line comment.
pub open spec fn scan(o: OptionsView, c: Seq<char>, i: int, st: ScanState, qc: char) -> (Seq<
    HighlightKind,
>, bool)
    decreases c.len() - i,
    via scan_decreases
{
    if i < 0 || i >= c.len() {
        (Seq::empty(), st is InMulti)
    } else {
        match st {
            ScanState::InMulti => {
                if marker_at(c, o.multi_close, i) {
                    let rest = scan(o, c, i + o.multi_close.len(), ScanState::Base, qc);
                    (Seq::new(o.multi_close.len(), |k: int| HighlightKind::MultiComment) + rest.0, rest.1)
                } else {
                    let rest = scan(o, c, i + 1, ScanState::InMulti, qc);
                    (seq![HighlightKind::MultiComment] + rest.0, rest.1)
                }
            },
            ScanState::InQuote => {
                let next = if c[i] == qc {
                    ScanState::Base
                } else {
                    ScanState::InQuote
                };
                let rest = scan(o, c, i + 1, next, qc);
                (seq![HighlightKind::Quoted] + rest.0, rest.1)
            },
            _ => {
                if st is InNumber && (is_digit(c[i]) || c[i] == '.') {
                    let rest = scan(o, c, i + 1, ScanState::InNumber, qc);
                    (seq![HighlightKind::Number] + rest.0, rest.1)
                } else if marker_at(c, o.multi_open, i) {
                    let rest = scan(o, c, i + o.multi_open.len(), ScanState::InMulti, qc);
                    (Seq::new(o.multi_open.len(), |k: int| HighlightKind::MultiComment) + rest.0, rest.1)
                } else if marker_at(c, o.line_marker, i) {
                    (Seq::new((c.len() - i) as nat, |k: int| HighlightKind::Comment), false)
                } else if has_char(o.quotes, c[i]) {
                    let rest = scan(o, c, i + 1, ScanState::InQuote, c[i]);
                    (seq![HighlightKind::Quoted] + rest.0, rest.1)
                } else {
                    let pk = if word_start(c, i) {
                        first_kw(o.primary_keywords, c, i, 0)
                    } else {
                        None
                    };
                    match pk {
                        Some(j) => {
                            let kw = o.primary_keywords[j];
                            let rest = scan(o, c, i + kw.len(), ScanState::Base, qc);
                            (Seq::new(kw.len(), |k: int| HighlightKind::PrimaryKeyword) + rest.0, rest.1)
                        },
                        None => {
                            let sk = if word_start(c, i) {
                                first_kw(o.secondary_keywords, c, i, 0)
                            } else {
                                None
                            };
                            match sk {
                                Some(j) => {
                                    let kw = o.secondary_keywords[j];
                                    let rest = scan(o, c, i + kw.len(), ScanState::Base, qc);
                                    (Seq::new(kw.len(), |k: int| HighlightKind::SecondaryKeyword) + rest.0, rest.1)
                                },
                                None => {
                                    if o.numbers && word_start(c, i) && is_digit(c[i]) {
                                        let rest = scan(o, c, i + 1, ScanState::InNumber, qc);
                                        (seq![HighlightKind::Number] + rest.0, rest.1)
                                    } else {
                                        let rest = scan(o, c, i + 1, ScanState::Base, qc);
                                        (seq![HighlightKind::Plain] + rest.0, rest.1)
                                    }
                                },
                            }
                        },
                    }
                }
            },
        }
    }
}

#[via_fn]
proof fn scan_decreases(o: OptionsView, c: Seq<char>, i: int, st: ScanState, qc: char) {
    lemma_first_kw_hit(o.primary_keywords, c, i, 0);
    lemma_first_kw_hit(o.secondary_keywords, c, i, 0);
}

/// The scan classifies every character: one tag per character.
pub proof fn lemma_scan_len(o: OptionsView, c: Seq<char>, i: int, st: ScanState, qc: char)
    requires
        0 <= i <= c.len(),
    ensures
        scan(o, c, i, st, qc).0.len() == c.len() - i,
    decreases c.len() - i,
{
    lemma_first_kw_hit(o.primary_keywords, c, i, 0);
    lemma_first_kw_hit(o.secondary_keywords, c, i, 0);
    if i < c.len() {
        match st {
            ScanState::InMulti => {
                if marker_at(c, o.multi_close, i) {
                    lemma_scan_len(o, c, i + o.multi_close.len() as int, ScanState::Base, qc);
                } else {
                    lemma_scan_len(o, c, i + 1, ScanState::InMulti, qc);
                }
            },
            ScanState::InQuote => {
                let next = if c[i] == qc {
                    ScanState::Base
                } else {
                    ScanState::InQuote
                };
                lemma_scan_len(o, c, i + 1, next, qc);
            },
            _ => {
                if st is InNumber && (is_digit(c[i]) || c[i] == '.') {
                    lemma_scan_len(o, c, i + 1, ScanState::InNumber, qc);
                } else if marker_at(c, o.multi_open, i) {
                    lemma_scan_len(o, c, i + o.multi_open.len() as int, ScanState::InMulti, qc);
                } else if marker_at(c, o.line_marker, i) {
                } else if has_char(o.quotes, c[i]) {
                    lemma_scan_len(o, c, i + 1, ScanState::InQuote, c[i]);
                } else {
                    let pk = if word_start(c, i) {
                        first_kw(o.primary_keywords, c, i, 0)
                    } else {
                        None
                    };
                    match pk {
                        Some(j) => {
                            lemma_scan_len(o, c, i + o.primary_keywords[j].len() as int, ScanState::Base, qc);
                        },
                        None => {
                            let sk = if word_start(c, i) {
                                first_kw(o.secondary_keywords, c, i, 0)
                            } else {
                                None
                            };
                            match sk {
                                Some(j) => {
                                    lemma_scan_len(o, c, i + o.secondary_keywords[j].len() as int, ScanState::Base, qc);
                                },
                                None => {
                                    if o.numbers && word_start(c, i) && is_digit(c[i]) {
                                        lemma_scan_len(o, c, i + 1, ScanState::InNumber, qc);
                                    } else {
                                        lemma_scan_len(o, c, i + 1, ScanState::Base, qc);
                                    }
                                },
                            }
                        },
                    }
                }
            },
        }
    }
}

/// Character `i` of `c` lies inside some occurrence of the query that
/// starts before `lim`.
pub open spec fn covered_before(c: Seq<char>, q: Seq<char>, i: int, lim: int) -> bool {
    exists|s: int| #[trigger] occurs_at(c, q, s) && s < lim && s <= i < s + q.len()
}

/// Character `i` of `c` lies inside some occurrence of the query.
pub open spec fn covered(c: Seq<char>, q: Seq<char>, i: int) -> bool {
    exists|s: int| #[trigger] occurs_at(c, q, s) && s <= i < s + q.len()
}

/// Classification after the search overlay: every character inside an
/// occurrence of the (non-empty) query is re-tagged as a match.
pub open spec fn overlay(base: Seq<HighlightKind>, c: Seq<char>, q: Seq<char>) -> Seq<HighlightKind> {
    Seq::new(base.len(), |i: int| if covered(c, q, i) {
        HighlightKind::SearchMatch
    } else {
        base[i]
    })
}

pub open spec fn init_state(cont_in: bool) -> ScanState {
    if cont_in {
        ScanState::InMulti
    } else {
        ScanState::Base
    }
}

/// The full classification of one row: the scan, then the search overlay
/// when a non-empty query is given.
pub open spec fn row_highlight(o: OptionsView, c: Seq<char>, query: Option<Seq<char>>, cont_in: bool) -> Seq<HighlightKind> {
    let base = scan(o, c, 0, init_state(cont_in), ' ').0;
    match query {
        Some(q) => if q.len() > 0 {
            overlay(base, c, q)
        } else {
            base
        },
        None => base,
    }
}

/// The continuation flag the row hands to its successor. The overlay does
/// not touch it, and only the multi-line-comment state carries over.
pub open spec fn row_cont_out(o: OptionsView, c: Seq<char>, cont_in: bool) -> bool {
    scan(o, c, 0, init_state(cont_in), ' ').1
}

pub proof fn lemma_row_highlight_len(o: OptionsView, c: Seq<char>, query: Option<Seq<char>>, cont_in: bool)
    ensures
        row_highlight(o, c, query, cont_in).len() == c.len(),
{
    lemma_scan_len(o, c, 0, init_state(cont_in), ' ');
}

fn exec_is_separator(c: char) -> (r: bool)
    ensures
        r == is_separator(c),
{
    c == ' ' || c == '\t' || c == '(' || c == ')' || c == '{' || c == '}' || c == '[' || c == ']'
        || c == '+' || c == '-' || c == '*' || c == '/' || c == '=' || c == '"' || c == '\''
        || c == '<' || c == '>' || c == '!' || c == '&' || c == '|' || c == ',' || c == '.'
        || c == ';' || c == ':' || c == '#'
}

fn exec_is_digit(c: char) -> (r: bool)
    ensures
        r == is_digit(c),
{
    let u = c as u32;
    48 <= u && u <= 57
}

/// Does the (non-empty) pattern stand in `c` at offset `s`?
fn exec_marker_at(c: &Vec<char>, pat: &Vec<char>, s: usize) -> (r: bool)
    ensures
        r == marker_at(c@, pat@, s as int),
{
    let n = c.len();
    if pat.len() == 0 || s >= n || pat.len() > n - s {
        assert(!marker_at(c@, pat@, s as int));
        return false;
    }
    let mut j: usize = 0;
    while j < pat.len()
        invariant
            0 <= j <= pat@.len(),
            s + pat@.len() <= c@.len(),
            pat@.len() > 0,
            n == c@.len(),
            forall|k: int| 0 <= k < j ==> c@[s + k] == pat@[k],
        decreases pat@.len() - j,
    {
        if c[s + j] != pat[j] {
            assert(c@.subrange(s as int, s + pat@.len()) != pat@) by {
                assert(c@.subrange(s as int, s + pat@.len())[j as int] != pat@[j as int]);
            }
            return false;
        }
        j = j + 1;
    }
    assert(c@.subrange(s as int, s + pat@.len()) =~= pat@);
    true
}

fn exec_has_char(v: &Vec<char>, c: char) -> (r: bool)
    ensures
        r == has_char(v@, c),
{
    let mut j: usize = 0;
    assert(v@.skip(0) =~= v@);
    while j < v.len()
        invariant
            0 <= j <= v@.len(),
            has_char(v@, c) == has_char(v@.skip(j as int), c),
        decreases v@.len() - j,
    {
        assert(v@.skip(j as int).drop_first() =~= v@.skip(j + 1));
        assert(v@.skip(j as int)[0] == v@[j as int]);
        if v[j] == c {
            return true;
        }
        j = j + 1;
    }
    assert(v@.skip(j as int).len() == 0);
    false
}

fn exec_kw_hit(c: &Vec<char>, i: usize, kw: &Vec<char>) -> (r: bool)
    ensures
        r == kw_hit(c@, i as int, kw@),
{
    if !exec_marker_at(c, kw, i) {
        return false;
    }
    let n = c.len();
    assert(i + kw@.len() <= n);
    let after = i + kw.len();
    after == n || exec_is_separator(c[after])
}

/// Index of the first keyword of the list that matches in `c` at `i`.
fn exec_first_kw(kws: &Vec<Vec<char>>, c: &Vec<char>, i: usize) -> (r: Option<usize>)
    ensures
        match r {
            Some(j) => first_kw(kw_views(kws@), c@, i as int, 0) == Some(j as int) && j < kws@.len(),
            None => first_kw(kw_views(kws@), c@, i as int, 0) is None,
        },
{
    let ghost kv = kw_views(kws@);
    let mut j: usize = 0;
    while j < kws.len()
        invariant
            0 <= j <= kws@.len(),
            kv == kw_views(kws@),
            kv.len() == kws@.len(),
            first_kw(kv, c@, i as int, 0) == first_kw(kv, c@, i as int, j as int),
        decreases kws@.len() - j,
    {
        assert(kv[j as int] == kws@[j as int]@);
        if exec_kw_hit(c, i, &kws[j]) {
            assert(first_kw(kv, c@, i as int, j as int) == Some(j as int));
            return Some(j);
        }
        assert(first_kw(kv, c@, i as int, j as int) == first_kw(kv, c@, i as int, j + 1));
        j = j + 1;
    }
    assert(first_kw(kv, c@, i as int, j as int) is None);
    None
}

/// Append `n` copies of one tag.
fn push_n(v: &mut Vec<HighlightKind>, kind: HighlightKind, n: usize)
    ensures
        final(v)@ =~= old(v)@ + Seq::new(n as nat, |k: int| kind),
{
    let mut j: usize = 0;
    while j < n
        invariant
            0 <= j <= n,
            v@ =~= old(v)@ + Seq::new(j as nat, |k: int| kind),
        decreases n - j,
    {
        v.push(kind);
        assert(v@ =~= old(v)@ + Seq::new((j + 1) as nat, |k: int| kind));
        j = j + 1;
    }
}

/// One full scan of a row: the classification before any search overlay,
/// and the outgoing continuation flag.
pub fn scan_row(o: &HighlightOptions, c: &Vec<char>, cont_in: bool) -> (r: (Vec<HighlightKind>, bool))
    ensures
        r.0@ == scan(o@, c@, 0, init_state(cont_in), ' ').0,
        r.1 == scan(o@, c@, 0, init_state(cont_in), ' ').1,
        r.0@.len() == c@.len(),
{
    let ghost full = scan(o@, c@, 0, init_state(cont_in), ' ');
    let mut out: Vec<HighlightKind> = Vec::new();
    let mut st: ScanState = if cont_in {
        ScanState::InMulti
    } else {
        ScanState::Base
    };
    let mut qc: char = ' ';
    let mut i: usize = 0;
    proof {
        lemma_scan_len(o@, c@, 0, init_state(cont_in), ' ');
        assert(out@ + full.0 =~= full.0);
    }
    while i < c.len()
        invariant
            0 <= i <= c@.len(),
            out@.len() == i,
            full == scan(o@, c@, 0, init_state(cont_in), ' '),
            full.0 == out@ + scan(o@, c@, i as int, st, qc).0,
            full.1 == scan(o@, c@, i as int, st, qc).1,
        decreases c@.len() - i,
    {
        let ghost st0 = st;
        let ghost qc0 = qc;
        let ghost i0 = i as int;
        let ch = c[i];
        match st {
            ScanState::InMulti => {
                if exec_marker_at(c, &o.multi_close, i) {
                    let n = o.multi_close.len();
                    push_n(&mut out, HighlightKind::MultiComment, n);
                    i = i + n;
                    st = ScanState::Base;
                } else {
                    out.push(HighlightKind::MultiComment);
                    i = i + 1;
                }
            },
            ScanState::InQuote => {
                out.push(HighlightKind::Quoted);
                if ch == qc {
                    st = ScanState::Base;
                }
                i = i + 1;
            },
            _ => {
                let in_number = matches!(st, ScanState::InNumber);
                if in_number && (exec_is_digit(ch) || ch == '.') {
                    out.push(HighlightKind::Number);
                    st = ScanState::InNumber;
                    i = i + 1;
                } else if exec_marker_at(c, &o.multi_open, i) {
                    let n = o.multi_open.len();
                    push_n(&mut out, HighlightKind::MultiComment, n);
                    i = i + n;
                    st = ScanState::InMulti;
                } else if exec_marker_at(c, &o.line_marker, i) {
                    let n = c.len() - i;
                    push_n(&mut out, HighlightKind::Comment, n);
                    i = c.len();
                    st = ScanState::Base;
                } else if exec_has_char(&o.quotes, ch) {
                    out.push(HighlightKind::Quoted);
                    st = ScanState::InQuote;
                    qc = ch;
                    i = i + 1;
                } else {
                    let ws = i == 0 || exec_is_separator(c[i - 1]);
                    assert(ws == word_start(c@, i as int));
                    let pk = if ws {
                        exec_first_kw(&o.primary_keywords, c, i)
                    } else {
                        None
                    };
                    match pk {
                        Some(j) => {
                            proof {
                                lemma_first_kw_hit(o@.primary_keywords, c@, i as int, 0);
                            }
                            let n = o.primary_keywords[j].len();
                            push_n(&mut out, HighlightKind::PrimaryKeyword, n);
                            i = i + n;
                            st = ScanState::Base;
                        },
                        None => {
                            let sk = if ws {
                                exec_first_kw(&o.secondary_keywords, c, i)
                            } else {
                                None
                            };
                            match sk {
                                Some(j) => {
                                    proof {
                                        lemma_first_kw_hit(o@.secondary_keywords, c@, i as int, 0);
                                    }
                                    let n = o.secondary_keywords[j].len();
                                    push_n(&mut out, HighlightKind::SecondaryKeyword, n);
                                    i = i + n;
                                    st = ScanState::Base;
                                },
                                None => {
                                    if o.numbers && ws && exec_is_digit(ch) {
                                        out.push(HighlightKind::Number);
                                        st = ScanState::InNumber;
                                        i = i + 1;
                                    } else {
                                        out.push(HighlightKind::Plain);
                                        st = ScanState::Base;
                                        i = i + 1;
                                    }
                                },
                            }
                        },
                    }
                }
            },
        }
        proof {
            lemma_scan_len(o@, c@, i0, st0, qc0);
            lemma_scan_len(o@, c@, i as int, st, qc);
            assert(full.0 =~= out@ + scan(o@, c@, i as int, st, qc).0);
        }
    }
    assert(full.0 =~= out@);
    let done = matches!(st, ScanState::InMulti);
    (out, done)
}

/// Re-tag `hl[a..b]` as search matches.
fn set_range(hl: &mut Vec<HighlightKind>, a: usize, b: usize)
    requires
        a <= b,
        b <= old(hl)@.len(),
    ensures
        final(hl)@.len() == old(hl)@.len(),
        forall|k: int| 0 <= k < old(hl)@.len() ==> final(hl)@[k] == if a <= k < b {
            HighlightKind::SearchMatch
        } else {
            old(hl)@[k]
        },
{
    let mut j: usize = a;
    while j < b
        invariant
            a <= j <= b,
            b <= hl@.len(),
            hl@.len() == old(hl)@.len(),
            forall|k: int| 0 <= k < old(hl)@.len() ==> hl@[k] == if a <= k < j {
                HighlightKind::SearchMatch
            } else {
                old(hl)@[k]
            },
        decreases b - j,
    {
        let e = &mut hl[j];
        *e = HighlightKind::SearchMatch;
        j = j + 1;
    }
}

/// Second pass: override the classification of every occurrence of the
/// non-empty query.
fn apply_overlay(hl: &mut Vec<HighlightKind>, c: &Vec<char>, q: &Vec<char>)
    requires
        old(hl)@.len() == c@.len(),
        q@.len() > 0,
    ensures
        final(hl)@ == overlay(old(hl)@, c@, q@),
{
    let n = c.len();
    let mut s: usize = 0;
    while s < n
        invariant
            0 <= s <= n,
            n == c@.len(),
            q@.len() > 0,
            hl@.len() == n,
            old(hl)@.len() == n,
            forall|k: int| 0 <= k < n ==> hl@[k] == if covered_before(c@, q@, k, s as int) {
                HighlightKind::SearchMatch
            } else {
                old(hl)@[k]
            },
        decreases n - s,
    {
        let ghost pre = hl@;
        if exec_marker_at(c, q, s) {
            assert(occurs_at(c@, q@, s as int));
            set_range(hl, s, s + q.len());
            assert forall|k: int| 0 <= k < n implies hl@[k] == if covered_before(c@, q@, k, s + 1) {
                HighlightKind::SearchMatch
            } else {
                old(hl)@[k]
            } by {
                if s <= k < s + q@.len() {
                    assert(occurs_at(c@, q@, s as int) && (s as int) < s + 1 && s <= k < s
                        + q@.len());
                    assert(covered_before(c@, q@, k, s + 1));
                } else {
                    assert(hl@[k] == pre[k]);
                    if covered_before(c@, q@, k, s + 1) {
                        let w = choose|w: int| #[trigger] occurs_at(c@, q@, w) && w < s + 1 && w <= k < w + q@.len();
                        assert(w != s);
                        assert(covered_before(c@, q@, k, s as int));
                    }
                    if covered_before(c@, q@, k, s as int) {
                        let w = choose|w: int| #[trigger] occurs_at(c@, q@, w) && w < s && w <= k < w + q@.len();
                        assert(covered_before(c@, q@, k, s + 1));
                    }
                }
            }
        } else {
            assert(!occurs_at(c@, q@, s as int));
            assert forall|k: int| 0 <= k < n implies covered_before(c@, q@, k, s + 1)
                == covered_before(c@, q@, k, s as int) by {
                if covered_before(c@, q@, k, s + 1) {
                    let w = choose|w: int| #[trigger] occurs_at(c@, q@, w) && w < s + 1 && w <= k < w + q@.len();
                    assert(w != s);
                    assert(covered_before(c@, q@, k, s as int));
                }
                if covered_before(c@, q@, k, s as int) {
                    let w = choose|w: int| #[trigger] occurs_at(c@, q@, w) && w < s && w <= k < w + q@.len();
                    assert(covered_before(c@, q@, k, s + 1));
                }
            }
        }
        s = s + 1;
    }
    assert forall|k: int| 0 <= k < n implies covered_before(c@, q@, k, n as int) == covered(c@, q@, k) by {
        if covered(c@, q@, k) {
            let w = choose|w: int| #[trigger] occurs_at(c@, q@, w) && w <= k < w + q@.len();
            assert(w + q@.len() <= n && q@.len() > 0);
            assert(w < n);
            assert(covered_before(c@, q@, k, n as int));
        }
        if covered_before(c@, q@, k, n as int) {
            assert(covered(c@, q@, k));
        }
    }
    assert(hl@ =~= overlay(old(hl)@, c@, q@));
}

/// Classify one row from its characters, the rule set, the optional search
/// query and the incoming continuation flag; the returned flag seeds the
/// next row.
pub fn highlight_chars(o: &HighlightOptions, c: &Vec<char>, query: Option<&Vec<char>>, cont_in: bool) -> (r: (Vec<HighlightKind>, bool))
    ensures
        r.0@ == row_highlight(o@, c@, match query {
            Some(q) => Some(q@),
            None => None,
        }, cont_in),
        r.1 == row_cont_out(o@, c@, cont_in),
        r.0@.len() == c@.len(),
{
    proof {
        lemma_row_highlight_len(o@, c@, match query {
            Some(q) => Some(q@),
            None => None,
        }, cont_in);
    }
    let (mut hl, out) = scan_row(o, c, cont_in);
    match query {
        Some(q) => {
            if q.len() > 0 {
                apply_overlay(&mut hl, c, q);
            }
        },
        None => {},
    }
    (hl, out)
}

} // verus!
