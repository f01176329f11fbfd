//! One line of text: its characters and their derived classification tags,
//! with positional edits, splitting and merging, rendering, and substring
//! search within the line.
//!
//! Every position is a character offset, never a byte offset. Edits leave
//! the classification stale; the document re-runs the highlighter on every
//! row it touches.

use vstd::prelude::*;

use crate::hl::HighlightKind;
use crate::hl::HighlightOptions;
use crate::hl::OptionsView;
use crate::hl::highlight_chars;
use crate::hl::occurs_at;
use crate::hl::row_cont_out;
use crate::hl::row_highlight;
use crate::position::SearchDirection;
use crate::strutil::chars_of;
use crate::strutil::string_from_chars;

verus! {

/// One row of the document.
pub struct Row {
    content: Vec<char>,
    highlight: Vec<HighlightKind>,
}

/// Mathematical image of a row: its characters and their tags.
#[verifier::ext_equal]
pub struct RowView {
    pub content: Seq<char>,
    pub highlight: Seq<HighlightKind>,
}

impl View for Row {
    type V = RowView;

    closed spec fn view(&self) -> RowView {
        RowView { content: self.content@, highlight: self.highlight@ }
    }
}

/// A row is well formed when it carries one tag per character.
pub open spec fn row_wf(r: RowView) -> bool {
    r.highlight.len() == r.content.len()
}

/// Insertion before offset `at`; any offset past the end appends.
pub open spec fn spec_insert_char(c: Seq<char>, at: int, ch: char) -> Seq<char> {
    if at > c.len() {
        c.push(ch)
    } else {
        c.insert(at, ch)
    }
}

/// Deletion of the character at `at`; a no-op past the end.
pub open spec fn spec_delete_char(c: Seq<char>, at: int) -> Seq<char> {
    if 0 <= at < c.len() {
        c.remove(at)
    } else {
        c
    }
}

/// The start offset of the leftmost occurrence of `q` at or after `s`.
pub open spec fn find_fwd(c: Seq<char>, q: Seq<char>, s: int) -> Option<int>
    decreases c.len() + 1 - s,
{
    if s < 0 || s + q.len() > c.len() {
        None
    } else if occurs_at(c, q, s) {
        Some(s)
    } else {
        find_fwd(c, q, s + 1)
    }
}

/// The start offset of the rightmost occurrence of `q` at or before `s`.
pub open spec fn find_bwd(c: Seq<char>, q: Seq<char>, s: int) -> Option<int>
    decreases s + 1,
{
    if s < 0 {
        None
    } else if occurs_at(c, q, s) {
        Some(s)
    } else {
        find_bwd(c, q, s - 1)
    }
}

/// A found offset really carries an occurrence, and lies in the scanned span.
pub proof fn lemma_find_fwd_some(c: Seq<char>, q: Seq<char>, s: int)
    ensures
        find_fwd(c, q, s) matches Some(m) ==> s <= m && occurs_at(c, q, m),
    decreases c.len() + 1 - s,
{
    if !(s < 0 || s + q.len() > c.len()) && !occurs_at(c, q, s) {
        lemma_find_fwd_some(c, q, s + 1);
    }
}

pub proof fn lemma_find_bwd_some(c: Seq<char>, q: Seq<char>, s: int)
    ensures
        find_bwd(c, q, s) matches Some(m) ==> m <= s && occurs_at(c, q, m),
    decreases s + 1,
{
    if s >= 0 && !occurs_at(c, q, s) {
        lemma_find_bwd_some(c, q, s - 1);
    }
}

/// A forward search misses exactly when no occurrence starts at or after `s`.
pub proof fn lemma_find_fwd_none(c: Seq<char>, q: Seq<char>, s: int)
    requires
        find_fwd(c, q, s) is None,
        s >= 0,
    ensures
        forall|m: int| s <= m ==> !occurs_at(c, q, m),
    decreases c.len() + 1 - s,
{
    if s + q.len() > c.len() {
        assert forall|m: int| s <= m implies !occurs_at(c, q, m) by {}
    } else {
        lemma_find_fwd_none(c, q, s + 1);
        assert forall|m: int| s <= m implies !occurs_at(c, q, m) by {
            if m > s {
                assert(!occurs_at(c, q, m));
            }
        }
    }
}

/// A backward search misses exactly when no occurrence starts at or before `s`.
pub proof fn lemma_find_bwd_none(c: Seq<char>, q: Seq<char>, s: int)
    requires
        find_bwd(c, q, s) is None,
    ensures
        forall|m: int| m <= s ==> !occurs_at(c, q, m),
    decreases s + 1,
{
    if s >= 0 {
        lemma_find_bwd_none(c, q, s - 1);
        assert forall|m: int| m <= s implies !occurs_at(c, q, m) by {
            if m < s {
                assert(!occurs_at(c, q, m));
            }
        }
    }
}

/// The display form of a window: each tab becomes one space.
pub open spec fn render_chars(c: Seq<char>) -> Seq<char> {
    Seq::new(c.len(), |i: int| if c[i] == '\t' {
        ' '
    } else {
        c[i]
    })
}

/// The window `[start, end)` clamped to the row, then rendered.
pub open spec fn render_window(c: Seq<char>, start: int, end: int) -> Seq<char> {
    let e = if end > c.len() {
        c.len() as int
    } else {
        end
    };
    let s = if start > e {
        e
    } else {
        start
    };
    render_chars(c.subrange(s, e))
}

pub open spec fn opt_str_view(w: Option<&str>) -> Option<Seq<char>> {
    match w {
        Some(s) => Some(s@),
        None => None,
    }
}

/// Do the characters of `q` stand in `c` at offset `s`?
fn exec_occurs_at(c: &Vec<char>, q: &Vec<char>, s: usize) -> (r: bool)
    requires
        s + q@.len() <= c@.len(),
    ensures
        r == occurs_at(c@, q@, s as int),
{
    let n = c.len();
    let mut j: usize = 0;
    while j < q.len()
        invariant
            0 <= j <= q@.len(),
            s + q@.len() <= c@.len(),
            n == c@.len(),
            forall|k: int| 0 <= k < j ==> c@[s + k] == q@[k],
        decreases q@.len() - j,
    {
        if c[s + j] != q[j] {
            assert(c@.subrange(s as int, s + q@.len()) != q@) by {
                assert(c@.subrange(s as int, s + q@.len())[j as int] != q@[j as int]);
            }
            return false;
        }
        j = j + 1;
    }
    assert(c@.subrange(s as int, s + q@.len()) =~= q@);
    true
}

impl Row {
    /// A row holding the characters of one source line; not yet classified.
    pub fn from(line: &str) -> (r: Row)
        ensures
            r@.content == line@,
            r@.highlight == Seq::<HighlightKind>::empty(),
    {
        Row { content: chars_of(line), highlight: Vec::new() }
    }

    /// A row holding the given characters; not yet classified.
    pub fn from_chars(content: Vec<char>) -> (r: Row)
        ensures
            r@.content == content@,
            r@.highlight == Seq::<HighlightKind>::empty(),
    {
        Row { content, highlight: Vec::new() }
    }

    pub fn len(&self) -> (n: usize)
        ensures
            n == self@.content.len(),
    {
        self.content.len()
    }

    pub fn is_empty(&self) -> (r: bool)
        ensures
            r == (self@.content.len() == 0),
    {
        self.content.is_empty()
    }

    /// The characters of the row.
    pub fn chars(&self) -> (r: &Vec<char>)
        ensures
            r@ == self@.content,
    {
        &self.content
    }

    /// The row's text as a string.
    pub fn text(&self) -> (r: String)
        ensures
            r@ == self@.content,
    {
        string_from_chars(&self.content)
    }

    /// The classification tags, one per character after a highlight pass.
    pub fn highlights(&self) -> (r: &Vec<HighlightKind>)
        ensures
            r@ == self@.highlight,
    {
        &self.highlight
    }

    /// Insert `ch` before offset `at`; an offset at or past the end
    /// appends. The tags go stale until the next highlight pass.
    pub fn insert(&mut self, at: usize, ch: char)
        ensures
            final(self)@.content == spec_insert_char(old(self)@.content, at as int, ch),
            final(self)@.highlight == old(self)@.highlight,
    {
        let n = self.content.len();
        if at >= n {
            self.content.push(ch);
            assert(self@.content =~= spec_insert_char(old(self)@.content, at as int, ch));
        } else {
            self.content.insert(at, ch);
        }
    }

    /// Remove the character at offset `at`; a no-op past the end.
    pub fn delete(&mut self, at: usize)
        ensures
            final(self)@.content == spec_delete_char(old(self)@.content, at as int),
            final(self)@.highlight == old(self)@.highlight,
    {
        let n = self.content.len();
        if at < n {
            self.content.remove(at);
        }
    }

    /// Concatenate another row's characters onto this one, as when two
    /// lines merge.
    pub fn append(&mut self, other: &Row)
        ensures
            final(self)@.content == old(self)@.content + other@.content,
            final(self)@.highlight == old(self)@.highlight,
    {
        let mut j: usize = 0;
        let m = other.content.len();
        assert(self@.content =~= old(self)@.content + other@.content.subrange(0, 0));
        while j < m
            invariant
                0 <= j <= other@.content.len(),
                m == other@.content.len(),
                self@.content == old(self)@.content + other@.content.subrange(0, j as int),
                self@.highlight == old(self)@.highlight,
            decreases m - j,
        {
            self.content.push(other.content[j]);
            assert(self@.content =~= old(self)@.content + other@.content.subrange(0, j + 1));
            j = j + 1;
        }
        assert(other@.content.subrange(0, m as int) =~= other@.content);
    }

    /// Truncate this row to `[0, at)` and hand back a new row owning
    /// `[at, len)`; an offset past the end splits off an empty row.
    pub fn split(&mut self, at: usize) -> (tail: Row)
        ensures
            final(self)@.content == old(self)@.content.subrange(
                0,
                if at as int > old(self)@.content.len() {
                    old(self)@.content.len() as int
                } else {
                    at as int
                },
            ),
            final(self)@.highlight == old(self)@.highlight,
            tail@.content == old(self)@.content.subrange(
                if at as int > old(self)@.content.len() {
                    old(self)@.content.len() as int
                } else {
                    at as int
                },
                old(self)@.content.len() as int,
            ),
            tail@.highlight == Seq::<HighlightKind>::empty(),
    {
        let n = self.content.len();
        let a = if at > n {
            n
        } else {
            at
        };
        let mut tail_content: Vec<char> = Vec::new();
        let mut j: usize = a;
        assert(tail_content@ =~= self@.content.subrange(a as int, a as int));
        while j < n
            invariant
                a <= j <= n,
                n == self@.content.len(),
                tail_content@ == self@.content.subrange(a as int, j as int),
            decreases n - j,
        {
            tail_content.push(self.content[j]);
            assert(tail_content@ =~= self@.content.subrange(a as int, j + 1));
            j = j + 1;
        }
        self.content.truncate(a);
        Row { content: tail_content, highlight: Vec::new() }
    }

    /// The leftmost occurrence at or after `at` (forward), or the rightmost
    /// occurrence at or before `at` (backward), as a character offset.
    pub fn find(&self, query: &str, at: usize, direction: SearchDirection) -> (r: Option<usize>)
        ensures
            match direction {
                SearchDirection::Forward => match r {
                    Some(x) => find_fwd(self@.content, query@, at as int) == Some(x as int),
                    None => find_fwd(self@.content, query@, at as int) is None,
                },
                SearchDirection::Backward => match r {
                    Some(x) => find_bwd(self@.content, query@, at as int) == Some(x as int),
                    None => find_bwd(self@.content, query@, at as int) is None,
                },
            },
    {
        let q = chars_of(query);
        let c = &self.content;
        let n = c.len();
        let ql = q.len();
        if matches!(direction, SearchDirection::Forward) {
            if ql > n || at > n - ql {
                assert(find_fwd(c@, q@, at as int) is None);
                return None;
            }
            let last = n - ql;
            let mut cur = at;
            while cur <= last
                invariant
                    ql <= n,
                    n == c@.len(),
                    ql == q@.len(),
                    c@ == self@.content,
                    q@ == query@,
                    direction is Forward,
                    last == n - ql,
                    at <= cur <= last + 1,
                    find_fwd(c@, q@, at as int) == find_fwd(c@, q@, cur as int),
                decreases last + 1 - cur,
            {
                if exec_occurs_at(c, &q, cur) {
                    assert(find_fwd(c@, q@, cur as int) == Some(cur as int));
                    return Some(cur);
                }
                assert(find_fwd(c@, q@, cur as int) == find_fwd(c@, q@, cur + 1));
                if cur == last {
                    assert(find_fwd(c@, q@, cur + 1) is None);
                    return None;
                }
                cur = cur + 1;
            }
            assert(find_fwd(c@, q@, cur as int) is None);
            None
        } else {
            let mut cur = at;
            loop
                invariant
                    n == c@.len(),
                    ql == q@.len(),
                    c@ == self@.content,
                    q@ == query@,
                    direction is Backward,
                    cur <= at,
                    find_bwd(c@, q@, at as int) == find_bwd(c@, q@, cur as int),
                decreases cur,
            {
                if ql <= n && cur <= n - ql {
                    if exec_occurs_at(c, &q, cur) {
                        assert(find_bwd(c@, q@, cur as int) == Some(cur as int));
                        return Some(cur);
                    }
                }
                assert(!occurs_at(c@, q@, cur as int));
                assert(find_bwd(c@, q@, cur as int) == find_bwd(c@, q@, cur - 1));
                if cur == 0 {
                    assert(find_bwd(c@, q@, at as int) is None);
                    return None;
                }
                cur = cur - 1;
            }
        }
    }

    /// The display string for the window `[start, end)`: the window is
    /// clamped to the row and each tab becomes one space.
    pub fn render(&self, start: usize, end: usize) -> (r: String)
        ensures
            r@ == render_window(self@.content, start as int, end as int),
    {
        let n = self.content.len();
        let e = if end > n {
            n
        } else {
            end
        };
        let s = if start > e {
            e
        } else {
            start
        };
        let mut out: Vec<char> = Vec::new();
        let mut j: usize = s;
        while j < e
            invariant
                s <= j <= e,
                e <= n,
                n == self@.content.len(),
                out@.len() == j - s,
                forall|k: int| 0 <= k < j - s ==> out@[k] == (if self@.content[s + k] == '\t' {
                    ' '
                } else {
                    self@.content[s + k]
                }),
            decreases e - j,
        {
            let ch = self.content[j];
            if ch == '\t' {
                out.push(' ');
            } else {
                out.push(ch);
            }
            j = j + 1;
        }
        assert(out@ =~= render_window(self@.content, start as int, end as int));
        string_from_chars(&out)
    }

    /// Run the highlighter over this row: `start_with_comment` seeds the
    /// scan inside a multi-line comment, and the returned flag reports
    /// whether the row ends inside one, to seed the next row.
    pub fn highlight(&mut self, opts: &HighlightOptions, word: Option<&str>, start_with_comment: bool) -> (cont_out: bool)
        ensures
            final(self)@.content == old(self)@.content,
            final(self)@.highlight == row_highlight(
                opts@,
                old(self)@.content,
                opt_str_view(word),
                start_with_comment,
            ),
            cont_out == row_cont_out(opts@, old(self)@.content, start_with_comment),
            row_wf(final(self)@),
    {
        let qv: Option<Vec<char>> = match word {
            Some(w) => Some(chars_of(w)),
            None => None,
        };
        let qr: Option<&Vec<char>> = match &qv {
            Some(v) => Some(v),
            None => None,
        };
        let (tags, cont_out) = highlight_chars(opts, &self.content, qr, start_with_comment);
        self.highlight = tags;
        cont_out
    }
}

impl Default for Row {
    /// An empty row, as created by splitting at the end of a line.
    fn default() -> (r: Row)
        ensures
            r@.content == Seq::<char>::empty(),
            r@.highlight == Seq::<HighlightKind>::empty(),
    {
        Row { content: Vec::new(), highlight: Vec::new() }
    }
}

} // verus!
