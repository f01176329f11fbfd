//! The open file: an ordered sequence of rows with position-addressed
//! mutation, dirty tracking, whole-document highlighting, and substring
//! search in either direction.
//!
//! An out-of-range row index makes any mutation a silent no-op: callers may
//! hand in stale positions and nothing panics. Every mutation re-runs the
//! highlighter on exactly the rows it touched; a whole-document pass
//! (`highlight`) propagates the multi-line-comment continuation flag from
//! row to row.

use vstd::prelude::*;

use crate::filetype::FileType;
use crate::filetype::FileTypeView;
use crate::filetype::spec_file_type;
use crate::hl::HighlightKind;
use crate::hl::OptionsView;
use crate::hl::occurs_at;
use crate::hl::row_cont_out;
use crate::hl::row_highlight;
use crate::position::Position;
use crate::position::SearchDirection;
use crate::row::Row;
use crate::row::RowView;
use crate::row::find_bwd;
use crate::row::find_fwd;
use crate::row::opt_str_view;
use crate::row::row_wf;
use crate::row::spec_delete_char;
use crate::row::spec_insert_char;

verus! {

/// The whole open file.
pub struct Document {
    rows: Vec<Row>,
    pub file_name: Option<String>,
    dirty: bool,
    file_type: FileType,
}

/// Mathematical image of a document.
pub struct DocView {
    pub rows: Seq<RowView>,
    pub file_name: Option<Seq<char>>,
    pub dirty: bool,
    pub file_type: FileTypeView,
}

/// The views of a vector of rows.
pub open spec fn row_views(rs: Seq<Row>) -> Seq<RowView> {
    rs.map_values(|r: Row| r@)
}

impl View for Document {
    type V = DocView;

    closed spec fn view(&self) -> DocView {
        DocView {
            rows: row_views(self.rows@),
            file_name: match self.file_name {
                Some(ref s) => Some(s@),
                None => None,
            },
            dirty: self.dirty,
            file_type: self.file_type@,
        }
    }
}

/// The text of each row, without tags.
pub open spec fn contents_of(rows: Seq<RowView>) -> Seq<Seq<char>> {
    rows.map_values(|r: RowView| r.content)
}

/// Every row carries one tag per character.
pub open spec fn doc_wf(d: DocView) -> bool {
    forall|i: int| 0 <= i < d.rows.len() ==> row_wf(#[trigger] d.rows[i])
}

/// A row freshly re-highlighted in isolation, as after an edit that
/// touches only it: no query overlay, no inherited continuation.
pub open spec fn row_after_edit(content: Seq<char>, o: OptionsView) -> RowView {
    RowView { content, highlight: row_highlight(o, content, None, false) }
}

/// What `insert` leaves behind: out-of-range rows are ignored; a newline
/// splits the addressed row; an edit at the end appends a fresh row; any
/// other edit grows the addressed row by one character. Every touched row
/// is re-highlighted in isolation and the document becomes dirty.
pub open spec fn model_insert(d: DocView, at: Position, ch: char) -> DocView {
    let o = d.file_type.opts;
    if at.y > d.rows.len() {
        d
    } else if ch == '\n' {
        model_insert_newline(d, at)
    } else if at.y == d.rows.len() {
        DocView { rows: d.rows.push(row_after_edit(seq![ch], o)), dirty: true, ..d }
    } else {
        let grown = spec_insert_char(d.rows[at.y as int].content, at.x as int, ch);
        DocView { rows: d.rows.update(at.y as int, row_after_edit(grown, o)), dirty: true, ..d }
    }
}

/// What inserting a newline leaves behind: at the end of the document a
/// fresh empty row appears; inside it, the addressed row splits at the
/// column (clamped to the row's end) and both halves are re-highlighted.
pub open spec fn model_insert_newline(d: DocView, at: Position) -> DocView {
    let o = d.file_type.opts;
    if at.y > d.rows.len() {
        d
    } else if at.y == d.rows.len() {
        DocView {
            rows: d.rows.push(RowView { content: Seq::empty(), highlight: Seq::empty() }),
            dirty: true,
            ..d
        }
    } else {
        let cur = d.rows[at.y as int].content;
        let x = if at.x as int > cur.len() {
            cur.len() as int
        } else {
            at.x as int
        };
        let head = row_after_edit(cur.subrange(0, x), o);
        let tail = row_after_edit(cur.subrange(x, cur.len() as int), o);
        DocView {
            rows: d.rows.update(at.y as int, head).insert(at.y + 1, tail),
            dirty: true,
            ..d
        }
    }
}

/// What `delete` leaves behind: out-of-range rows are ignored; at the end
/// of a row with a successor, the successor merges into it; otherwise the
/// addressed character goes (a no-op offset past the end still re-runs the
/// highlighter). The touched row is re-highlighted and the document
/// becomes dirty.
pub open spec fn model_delete(d: DocView, at: Position) -> DocView {
    let o = d.file_type.opts;
    if at.y >= d.rows.len() {
        d
    } else if at.x == d.rows[at.y as int].content.len() && at.y + 1 < d.rows.len() {
        let merged = d.rows[at.y as int].content + d.rows[at.y + 1].content;
        DocView {
            rows: d.rows.update(at.y as int, row_after_edit(merged, o)).remove(at.y + 1),
            dirty: true,
            ..d
        }
    } else {
        let shrunk = spec_delete_char(d.rows[at.y as int].content, at.x as int);
        DocView { rows: d.rows.update(at.y as int, row_after_edit(shrunk, o)), dirty: true, ..d }
    }
}

impl Document {
    /// Number of rows.
    pub fn len(&self) -> (n: usize)
        ensures
            n == self@.rows.len(),
    {
        self.rows.len()
    }

    pub fn is_empty(&self) -> (r: bool)
        ensures
            r == (self@.rows.len() == 0),
    {
        self.rows.is_empty()
    }

    /// True iff some mutation happened since the last successful save.
    pub fn is_dirty(&self) -> (r: bool)
        ensures
            r == self@.dirty,
    {
        self.dirty
    }

    /// The display name of the active language profile.
    pub fn file_type(&self) -> (r: String)
        ensures
            r@ == self@.file_type.name,
    {
        self.file_type.name()
    }

    /// The row at `index`, if it exists.
    pub fn row(&self, index: usize) -> (r: Option<&Row>)
        ensures
            match r {
                Some(row) => index < self@.rows.len() && row@ == self@.rows[index as int],
                None => index >= self@.rows.len(),
            },
    {
        if index < self.rows.len() {
            Some(&self.rows[index])
        } else {
            None
        }
    }

    /// Insert `c` before position `at`; a newline splits the row there.
    /// Out-of-range rows are ignored; everything touched is re-highlighted.
    pub fn insert(&mut self, at: &Position, c: char)
        ensures
            final(self)@ == model_insert(old(self)@, *at, c),
            doc_wf(old(self)@) ==> doc_wf(final(self)@),
    {
        if at.y > self.rows.len() {
            return ;
        }
        self.dirty = true;
        if c == '\n' {
            self.insert_newline(at);
            return ;
        }
        if at.y == self.rows.len() {
            let mut row = Row::default();
            row.insert(0, c);
            row.highlight(self.file_type.highlighting_options(), None, false);
            self.rows.push(row);
            assert(Seq::<char>::empty().insert(0, c) =~= seq![c]);
            assert(self@.rows =~~= model_insert(old(self)@, *at, c).rows);
        } else {
            let opts = self.file_type.highlighting_options();
            let ghost pre_rows = self.rows@;
            let row = &mut self.rows[at.y];
            row.insert(at.x, c);
            row.highlight(opts, None, false);
            assert(self.rows@ == pre_rows.update(at.y as int, self.rows@[at.y as int]));
            assert(self.rows@[at.y as int]@.content == spec_insert_char(
                old(self)@.rows[at.y as int].content,
                at.x as int,
                c,
            ));
            assert(self@.rows =~~= model_insert(old(self)@, *at, c).rows);
        }
        assert(doc_wf(old(self)@) ==> doc_wf(self@)) by {
            crate::hl::lemma_row_highlight_len(
                old(self)@.file_type.opts,
                model_insert(old(self)@, *at, c).rows[at.y as int].content,
                None,
                false,
            );
        }
    }

    /// Split the addressed row at the column; at the end of the document a
    /// fresh empty row appears instead.
    fn insert_newline(&mut self, at: &Position)
        requires
            at.y <= old(self)@.rows.len(),
            old(self)@.dirty,
        ensures
            final(self)@ == model_insert_newline(old(self)@, *at),
            doc_wf(old(self)@) ==> doc_wf(final(self)@),
    {
        if at.y == self.rows.len() {
            self.rows.push(Row::default());
            assert(self@.rows =~~= model_insert_newline(old(self)@, *at).rows);
            return ;
        }
        let opts = self.file_type.highlighting_options();
        let current_row = &mut self.rows[at.y];
        let mut new_row = current_row.split(at.x);
        current_row.highlight(opts, None, false);
        new_row.highlight(opts, None, false);
        self.rows.insert(at.y + 1, new_row);
        assert(self@.rows =~~= model_insert_newline(old(self)@, *at).rows);
        assert(doc_wf(old(self)@) ==> doc_wf(self@)) by {
            let m = model_insert_newline(old(self)@, *at);
            crate::hl::lemma_row_highlight_len(
                old(self)@.file_type.opts,
                m.rows[at.y as int].content,
                None,
                false,
            );
            crate::hl::lemma_row_highlight_len(
                old(self)@.file_type.opts,
                m.rows[at.y + 1].content,
                None,
                false,
            );
        }
    }

    /// Remove the character at `at`; at the end of a row the next row
    /// merges into it. Out-of-range rows are ignored.
    pub fn delete(&mut self, at: &Position)
        ensures
            final(self)@ == model_delete(old(self)@, *at),
            doc_wf(old(self)@) ==> doc_wf(final(self)@),
    {
        let len = self.rows.len();
        if at.y >= len {
            return ;
        }
        self.dirty = true;
        let opts = self.file_type.highlighting_options();
        let row_len = self.rows[at.y].len();
        if at.x == row_len && at.y + 1 < len {
            let next_row = self.rows.remove(at.y + 1);
            let row = &mut self.rows[at.y];
            row.append(&next_row);
            row.highlight(opts, None, false);
            assert(self@.rows =~~= model_delete(old(self)@, *at).rows);
        } else {
            let row = &mut self.rows[at.y];
            row.delete(at.x);
            row.highlight(opts, None, false);
            assert(self@.rows =~~= model_delete(old(self)@, *at).rows);
        }
        assert(doc_wf(old(self)@) ==> doc_wf(self@)) by {
            crate::hl::lemma_row_highlight_len(
                old(self)@.file_type.opts,
                model_delete(old(self)@, *at).rows[at.y as int].content,
                None,
                false,
            );
        }
    }
}

/// Index of the first newline at or after `i`, or the length if none.
pub open spec fn first_nl(s: Seq<char>, i: int) -> int
    decreases s.len() - i,
{
    if i < 0 || i >= s.len() {
        s.len() as int
    } else if s[i] == '\n' {
        i
    } else {
        first_nl(s, i + 1)
    }
}

pub proof fn lemma_first_nl_range(s: Seq<char>, i: int)
    requires
        0 <= i <= s.len(),
    ensures
        i <= first_nl(s, i) <= s.len(),
        first_nl(s, i) < s.len() ==> s[first_nl(s, i)] == '\n',
    decreases s.len() - i,
{
    if i < s.len() && s[i] != '\n' {
        lemma_first_nl_range(s, i + 1);
    }
}

/// The first newline at or after `i` is the first position `j >= i` whose
/// character is a newline (or the end, if there is none).
pub proof fn lemma_first_nl_char(s: Seq<char>, i: int, j: int)
    requires
        0 <= i <= j <= s.len(),
        forall|k: int| i <= k < j ==> s[k] != '\n',
        j < s.len() ==> s[j] == '\n',
    ensures
        first_nl(s, i) == j,
    decreases j - i,
{
    if i < j {
        lemma_first_nl_char(s, i + 1, j);
    }
}

/// The rows a text splits into: newlines separate rows, and a final
/// segment without a trailing newline still forms a row, so a trailing
/// newline yields no extra empty row.
pub open spec fn lines_of(s: Seq<char>) -> Seq<Seq<char>>
    decreases s.len(),
    via lines_of_decreases
{
    if s.len() == 0 {
        Seq::empty()
    } else {
        let j = first_nl(s, 0);
        if j >= s.len() {
            seq![s]
        } else {
            seq![s.subrange(0, j)] + lines_of(s.subrange(j + 1, s.len() as int))
        }
    }
}

#[via_fn]
proof fn lines_of_decreases(s: Seq<char>) {
    if s.len() > 0 {
        lemma_first_nl_range(s, 0);
    }
}

/// One parsing step: the suffix beginning at a row start `pos` splits into
/// the segment up to the next newline `j`, and the rows of what follows it.
proof fn lemma_lines_step(s: Seq<char>, pos: int, j: int)
    requires
        0 <= pos <= j <= s.len(),
        pos < s.len(),
        forall|k: int| pos <= k < j ==> s[k] != '\n',
        j < s.len() ==> s[j] == '\n',
    ensures
        lines_of(s.subrange(pos, s.len() as int)) == seq![s.subrange(pos, j)] + if j < s.len() {
            lines_of(s.subrange(j + 1, s.len() as int))
        } else {
            Seq::<Seq<char>>::empty()
        },
{
    let suf = s.subrange(pos, s.len() as int);
    assert(suf.len() == s.len() - pos);
    assert forall|k: int| 0 <= k < j - pos implies suf[k] != '\n' by {
        assert(suf[k] == s[pos + k]);
    }
    if j - pos < suf.len() {
        assert(suf[j - pos] == s[j as int]);
    }
    lemma_first_nl_char(suf, 0, j - pos);
    if j == s.len() {
        assert(suf =~= s.subrange(pos, j));
        assert(lines_of(suf) == seq![s.subrange(pos, j)]);
        assert(seq![s.subrange(pos, j)] =~= seq![s.subrange(pos, j)] + Seq::<Seq<char>>::empty());
    } else {
        assert(suf.subrange(0, j - pos) =~= s.subrange(pos, j));
        assert(suf.subrange(j - pos + 1, suf.len() as int) =~= s.subrange(j + 1, s.len() as int));
    }
}

/// The serialized form of the rows from `i` on: each row's text followed
/// by one newline.
pub open spec fn serialize_from(cs: Seq<Seq<char>>, i: int) -> Seq<char>
    decreases cs.len() - i,
{
    if i < 0 || i >= cs.len() {
        Seq::empty()
    } else {
        cs[i] + seq!['\n'] + serialize_from(cs, i + 1)
    }
}

/// The persisted form of a document: every row followed by a newline.
pub open spec fn serialize_rows(cs: Seq<Seq<char>>) -> Seq<char> {
    serialize_from(cs, 0)
}

/// The classification of every row from `i` on, walking forward and
/// handing each row's outgoing continuation flag to the next.
pub open spec fn doc_scan_from(
    o: OptionsView,
    cs: Seq<Seq<char>>,
    q: Option<Seq<char>>,
    i: int,
    flag: bool,
) -> Seq<Seq<HighlightKind>>
    decreases cs.len() - i,
{
    if i < 0 || i >= cs.len() {
        Seq::empty()
    } else {
        seq![row_highlight(o, cs[i], q, flag)] + doc_scan_from(
            o,
            cs,
            q,
            i + 1,
            row_cont_out(o, cs[i], flag),
        )
    }
}

pub proof fn lemma_doc_scan_len(o: OptionsView, cs: Seq<Seq<char>>, q: Option<Seq<char>>, i: int, flag: bool)
    requires
        0 <= i <= cs.len(),
    ensures
        doc_scan_from(o, cs, q, i, flag).len() == cs.len() - i,
    decreases cs.len() - i,
{
    if i < cs.len() {
        lemma_doc_scan_len(o, cs, q, i + 1, row_cont_out(o, cs[i], flag));
    }
}

/// The rows of a document whose texts are `cs`, after one whole-document
/// highlight pass with query `q`.
pub open spec fn rows_from_contents(cs: Seq<Seq<char>>, o: OptionsView, q: Option<Seq<char>>) -> Seq<RowView> {
    Seq::new(
        cs.len(),
        |k: int| RowView { content: cs[k], highlight: doc_scan_from(o, cs, q, 0, false)[k] },
    )
}

/// What `highlight` leaves behind: the texts, name, profile and dirty flag
/// stay; every row's tags are re-derived in document order, with the
/// continuation flag propagated and the query overlaid.
pub open spec fn model_highlight(d: DocView, q: Option<Seq<char>>) -> DocView {
    DocView { rows: rows_from_contents(contents_of(d.rows), d.file_type.opts, q), ..d }
}

/// What a successful save leaves behind: with no target name, nothing;
/// otherwise the profile is re-derived from the name, every row is
/// re-highlighted in document order, and the buffer is clean.
pub open spec fn model_saved(d: DocView) -> DocView {
    match d.file_name {
        None => d,
        Some(n) => {
            let ft = spec_file_type(n);
            DocView {
                file_type: ft,
                rows: rows_from_contents(contents_of(d.rows), ft.opts, None),
                dirty: false,
                file_name: d.file_name,
            }
        },
    }
}

/// Forward search: scan row `y` from column `x`, then every later row
/// from column 0.
pub open spec fn doc_find_fwd(cs: Seq<Seq<char>>, q: Seq<char>, x: int, y: int) -> Option<(int, int)>
    decreases cs.len() - y,
{
    if y < 0 || y >= cs.len() {
        None
    } else {
        match find_fwd(cs[y], q, x) {
            Some(s) => Some((s, y)),
            None => doc_find_fwd(cs, q, 0, y + 1),
        }
    }
}

/// Backward search: scan row `y` up to column `x`, then every earlier row
/// from its last column.
pub open spec fn doc_find_bwd(cs: Seq<Seq<char>>, q: Seq<char>, x: int, y: int) -> Option<(int, int)>
    decreases y + 1,
{
    if y < 0 || y >= cs.len() {
        None
    } else {
        match find_bwd(cs[y], q, x) {
            Some(s) => Some((s, y)),
            None => if y == 0 {
                None
            } else {
                doc_find_bwd(cs, q, cs[y - 1].len() as int, y - 1)
            },
        }
    }
}

impl Default for Document {
    /// An empty, unnamed, clean buffer with the profile that highlights
    /// nothing.
    fn default() -> (d: Document)
        ensures
            d@.rows == Seq::<RowView>::empty(),
            d@.file_name is None,
            !d@.dirty,
            d@.file_type.name == "No filetype"@,
            d@.file_type.opts == crate::filetype::plain_options(),
            doc_wf(d@),
    {
        let d = Document {
            rows: Vec::new(),
            file_name: None,
            dirty: false,
            file_type: FileType::default(),
        };
        assert(row_views(d.rows@) =~= Seq::<RowView>::empty());
        d
    }
}

impl Document {
    /// Re-run the highlighter over every row in document order,
    /// propagating the continuation flag, with `word` overlaid as the
    /// transient search query.
    pub fn highlight(&mut self, word: Option<&str>)
        ensures
            final(self)@ == model_highlight(old(self)@, opt_str_view(word)),
            doc_wf(final(self)@),
    {
        let ghost o = self@.file_type.opts;
        let ghost cs = contents_of(self@.rows);
        let ghost q = opt_str_view(word);
        let ghost full = doc_scan_from(o, cs, q, 0, false);
        proof {
            lemma_doc_scan_len(o, cs, q, 0, false);
            assert(full.skip(0) =~= full);
        }
        let n = self.rows.len();
        let mut flag = false;
        let mut i: usize = 0;
        while i < n
            invariant
                0 <= i <= n,
                n == self.rows@.len(),
                self@.file_type == old(self)@.file_type,
                self@.file_name == old(self)@.file_name,
                self@.dirty == old(self)@.dirty,
                o == old(self)@.file_type.opts,
                cs == contents_of(old(self)@.rows),
                q == opt_str_view(word),
                contents_of(self@.rows) == cs,
                full == doc_scan_from(o, cs, q, 0, false),
                full.len() == n,
                cs.len() == n,
                forall|k: int| 0 <= k < i ==> #[trigger] self@.rows[k].highlight == full[k],
                forall|k: int| i <= k < n ==> #[trigger] self@.rows[k] == old(self)@.rows[k],
                doc_scan_from(o, cs, q, i as int, flag) == full.skip(i as int),
            decreases n - i,
        {
            let ghost pre = self@.rows;
            let ghost flag0 = flag;
            let opts = self.file_type.highlighting_options();
            let row = &mut self.rows[i];
            flag = row.highlight(opts, word, flag);
            proof {
                assert(pre[i as int].content == cs[i as int]);
                assert(self@.rows =~~= pre.update(
                    i as int,
                    RowView {
                        content: cs[i as int],
                        highlight: row_highlight(o, cs[i as int], q, flag0),
                    },
                ));
                assert(contents_of(self@.rows) =~= cs);
                assert(full.skip(i as int).drop_first() =~= full.skip(i + 1));
                assert(doc_scan_from(o, cs, q, i as int, flag0)[0] == row_highlight(
                    o,
                    cs[i as int],
                    q,
                    flag0,
                ));
                assert(self@.rows[i as int].highlight == full[i as int]);
            }
            i = i + 1;
        }
        proof {
            assert forall|k: int| 0 <= k < n implies self@.rows[k] == rows_from_contents(
                cs,
                o,
                q,
            )[k] by {
                assert(contents_of(self@.rows)[k] == self@.rows[k].content);
                assert(self@.rows[k] =~~= rows_from_contents(cs, o, q)[k]);
            }
            assert(self@.rows =~= rows_from_contents(cs, o, q));
            assert(doc_wf(self@)) by {
                assert forall|k: int| 0 <= k < self@.rows.len() implies row_wf(
                    #[trigger] self@.rows[k],
                ) by {
                    crate::hl::lemma_row_highlight_len(o, cs[k], q, doc_flag_at(o, cs, k));
                    lemma_doc_scan_index(o, cs, q, k);
                }
            }
        }
    }

    /// Build a document from a file's text and its name: one row per line,
    /// the profile derived from the name, every row highlighted in order,
    /// and the buffer clean.
    pub fn open(contents: &str, file_name: &str) -> (d: Document)
        ensures
            d@.file_name == Some(file_name@),
            !d@.dirty,
            d@.file_type == spec_file_type(file_name@),
            contents_of(d@.rows) == lines_of(contents@),
            d@.rows == rows_from_contents(lines_of(contents@), spec_file_type(file_name@).opts, None),
            doc_wf(d@),
    {
        let rows = split_rows(contents);
        let mut d = Document {
            rows,
            file_name: Some(file_name.to_owned()),
            dirty: false,
            file_type: FileType::from(file_name),
        };
        proof {
            assert(contents_of(d@.rows) =~= lines_of(contents@));
        }
        d.highlight(None);
        proof {
            assert(contents_of(d@.rows) =~= lines_of(contents@));
            assert(d@.rows == rows_from_contents(
                lines_of(contents@),
                spec_file_type(file_name@).opts,
                None,
            ));
        }
        d
    }

    /// The exact text a save writes: every row followed by one newline.
    pub fn save_text(&self) -> (r: String)
        ensures
            r@ == serialize_rows(contents_of(self@.rows)),
    {
        let ghost cs = contents_of(self@.rows);
        let mut acc: Vec<char> = Vec::new();
        let n = self.rows.len();
        let mut i: usize = 0;
        proof {
            assert(acc@ + serialize_from(cs, 0) =~= serialize_from(cs, 0));
        }
        while i < n
            invariant
                0 <= i <= n,
                n == self.rows@.len(),
                cs == contents_of(self@.rows),
                cs.len() == n,
                serialize_from(cs, 0) == acc@ + serialize_from(cs, i as int),
            decreases n - i,
        {
            let ghost acc0 = acc@;
            let row = &self.rows[i];
            let rc = row.chars();
            let m = rc.len();
            let mut j: usize = 0;
            proof {
                assert(rc@ == cs[i as int]);
                assert(acc@ =~= acc0 + cs[i as int].subrange(0, 0));
            }
            while j < m
                invariant
                    0 <= j <= m,
                    m == rc@.len(),
                    rc@ == cs[i as int],
                    0 <= i < cs.len(),
                    acc@ == acc0 + cs[i as int].subrange(0, j as int),
                decreases m - j,
            {
                acc.push(rc[j]);
                assert(acc@ =~= acc0 + cs[i as int].subrange(0, j + 1));
                j = j + 1;
            }
            acc.push('\n');
            proof {
                assert(cs[i as int].subrange(0, m as int) =~= cs[i as int]);
                assert(acc@ =~= acc0 + (cs[i as int] + seq!['\n']));
                assert(serialize_from(cs, i as int) == cs[i as int] + seq!['\n'] + serialize_from(
                    cs,
                    i + 1,
                ));
                assert(serialize_from(cs, 0) =~= acc@ + serialize_from(cs, i + 1));
            }
            i = i + 1;
        }
        crate::strutil::string_from_chars(&acc)
    }

    /// Record a successful save: the profile is re-derived from the file
    /// name (it may have changed), every row is re-highlighted in order,
    /// and the buffer becomes clean. Without a target name, a no-op.
    pub fn mark_saved(&mut self)
        ensures
            final(self)@ == model_saved(old(self)@),
            doc_wf(old(self)@) ==> doc_wf(final(self)@),
    {
        if self.file_name.is_some() {
            let ft = match &self.file_name {
                Some(n) => FileType::from(n.as_str()),
                None => FileType::default(),
            };
            self.file_type = ft;
            self.highlight(None);
            let ghost mid = self@;
            self.dirty = false;
            proof {
                assert(self@.rows == mid.rows);
                assert(doc_wf(self@));
            }
        }
    }

    /// The position of the nearest occurrence of `query` from `at` in the
    /// given scan direction, or nothing when the scanned span holds none.
    pub fn find(&self, query: &str, at: &Position, direction: SearchDirection) -> (r: Option<Position>)
        ensures
            match r {
                Some(p) => (at.y as int) < self@.rows.len() && (match direction {
                    SearchDirection::Forward => doc_find_fwd(
                        contents_of(self@.rows),
                        query@,
                        at.x as int,
                        at.y as int,
                    ) == Some((p.x as int, p.y as int)),
                    SearchDirection::Backward => doc_find_bwd(
                        contents_of(self@.rows),
                        query@,
                        at.x as int,
                        at.y as int,
                    ) == Some((p.x as int, p.y as int)),
                }),
                None => (at.y as int) >= self@.rows.len() || (match direction {
                    SearchDirection::Forward => doc_find_fwd(
                        contents_of(self@.rows),
                        query@,
                        at.x as int,
                        at.y as int,
                    ) is None,
                    SearchDirection::Backward => doc_find_bwd(
                        contents_of(self@.rows),
                        query@,
                        at.x as int,
                        at.y as int,
                    ) is None,
                }),
            },
    {
        let ghost cs = contents_of(self@.rows);
        let n = self.rows.len();
        if at.y >= n {
            return None;
        }
        let mut x = at.x;
        let mut y = at.y;
        if matches!(direction, SearchDirection::Forward) {
            while y < n
                invariant
                    at.y <= y <= n,
                    n == self.rows@.len(),
                    cs == contents_of(self@.rows),
                    cs.len() == n,
                    direction is Forward,
                    doc_find_fwd(cs, query@, at.x as int, at.y as int) == doc_find_fwd(
                        cs,
                        query@,
                        x as int,
                        y as int,
                    ),
                decreases n - y,
            {
                let row = &self.rows[y];
                assert(row@.content == cs[y as int]);
                match row.find(query, x, direction) {
                    Some(fx) => {
                        assert(doc_find_fwd(cs, query@, x as int, y as int) == Some((fx as int, y as int)));
                        return Some(Position { x: fx, y });
                    },
                    None => {
                        assert(doc_find_fwd(cs, query@, x as int, y as int) == doc_find_fwd(
                            cs,
                            query@,
                            0,
                            y + 1,
                        ));
                        x = 0;
                        y = y + 1;
                    },
                }
            }
            assert(doc_find_fwd(cs, query@, x as int, y as int) is None);
            None
        } else {
            loop
                invariant
                    y <= at.y,
                    (at.y as int) < cs.len(),
                    n == self.rows@.len(),
                    cs == contents_of(self@.rows),
                    cs.len() == n,
                    direction is Backward,
                    doc_find_bwd(cs, query@, at.x as int, at.y as int) == doc_find_bwd(
                        cs,
                        query@,
                        x as int,
                        y as int,
                    ),
                decreases y,
            {
                let row = &self.rows[y];
                assert(row@.content == cs[y as int]);
                match row.find(query, x, direction) {
                    Some(fx) => {
                        assert(doc_find_bwd(cs, query@, x as int, y as int) == Some((fx as int, y as int)));
                        return Some(Position { x: fx, y });
                    },
                    None => {
                        if y == 0 {
                            assert(doc_find_bwd(cs, query@, x as int, 0) is None);
                            return None;
                        }
                        let prev = &self.rows[y - 1];
                        assert(prev@.content == cs[y - 1]);
                        x = prev.len();
                        y = y - 1;
                    },
                }
            }
        }
    }
}

/// The continuation flag with which row `k` is entered during a
/// whole-document pass.
pub open spec fn doc_flag_at(o: OptionsView, cs: Seq<Seq<char>>, k: int) -> bool
    decreases k + 1,
{
    if k <= 0 {
        false
    } else {
        row_cont_out(o, cs[k - 1], doc_flag_at(o, cs, k - 1))
    }
}

/// Row `k` of a whole-document pass is its own row highlighted with the
/// propagated flag.
pub proof fn lemma_doc_scan_index(o: OptionsView, cs: Seq<Seq<char>>, q: Option<Seq<char>>, k: int)
    requires
        0 <= k < cs.len(),
    ensures
        doc_scan_from(o, cs, q, 0, false)[k] == row_highlight(o, cs[k], q, doc_flag_at(o, cs, k)),
{
    lemma_doc_scan_index_from(o, cs, q, 0, k);
}

proof fn lemma_doc_scan_index_from(o: OptionsView, cs: Seq<Seq<char>>, q: Option<Seq<char>>, i: int, k: int)
    requires
        0 <= i <= k < cs.len(),
    ensures
        doc_scan_from(o, cs, q, i, doc_flag_at(o, cs, i))[k - i] == row_highlight(
            o,
            cs[k],
            q,
            doc_flag_at(o, cs, k),
        ),
    decreases k - i,
{
    let h = row_highlight(o, cs[i], q, doc_flag_at(o, cs, i));
    let f1 = row_cont_out(o, cs[i], doc_flag_at(o, cs, i));
    let tail = doc_scan_from(o, cs, q, i + 1, f1);
    assert(doc_scan_from(o, cs, q, i, doc_flag_at(o, cs, i)) == seq![h] + tail);
    if i < k {
        assert(doc_flag_at(o, cs, i + 1) == f1);
        lemma_doc_scan_len(o, cs, q, i + 1, f1);
        lemma_doc_scan_index_from(o, cs, q, i + 1, k);
        assert((seq![h] + tail)[k - i] == tail[k - i - 1]);
    } else {
        assert((seq![h] + tail)[0] == h);
    }
}

/// Build one unclassified row per line of the text.
fn split_rows(contents: &str) -> (rows: Vec<Row>)
    ensures
        row_views(rows@).len() == lines_of(contents@).len(),
        contents_of(row_views(rows@)) == lines_of(contents@),
        forall|k: int| 0 <= k < rows@.len() ==> #[trigger] row_views(rows@)[k].highlight
            == Seq::<HighlightKind>::empty(),
{
    let v = crate::strutil::chars_of(contents);
    let ghost s = v@;
    let n = v.len();
    let mut rows: Vec<Row> = Vec::new();
    let mut pos: usize = 0;
    proof {
        assert(contents_of(row_views(rows@)) =~= Seq::<Seq<char>>::empty());
        assert(s.subrange(0, n as int) =~= s);
        assert(contents_of(row_views(rows@)) + lines_of(s.subrange(0, n as int)) =~= lines_of(s));
    }
    while pos < n
        invariant
            0 <= pos <= n,
            n == v@.len(),
            s == v@,
            s == contents@,
            contents_of(row_views(rows@)) + lines_of(s.subrange(pos as int, n as int)) == lines_of(s),
            forall|k: int| 0 <= k < rows@.len() ==> #[trigger] row_views(rows@)[k].highlight
                == Seq::<HighlightKind>::empty(),
        decreases n - pos,
    {
        let ghost rows0 = rows@;
        let mut j: usize = pos;
        while j < n && v[j] != '\n'
            invariant
                pos <= j <= n,
                n == v@.len(),
                s == v@,
                forall|k: int| pos <= k < j ==> s[k] != '\n',
            decreases n - j,
        {
            j = j + 1;
        }
        let mut rc: Vec<char> = Vec::new();
        let mut t: usize = pos;
        proof {
            assert(rc@ =~= s.subrange(pos as int, pos as int));
        }
        while t < j
            invariant
                pos <= t <= j,
                j <= n,
                n == v@.len(),
                s == v@,
                rc@ == s.subrange(pos as int, t as int),
            decreases j - t,
        {
            rc.push(v[t]);
            assert(rc@ =~= s.subrange(pos as int, t + 1));
            t = t + 1;
        }
        rows.push(Row::from_chars(rc));
        proof {
            lemma_lines_step(s, pos as int, j as int);
            assert(row_views(rows@) =~~= row_views(rows0).push(
                RowView { content: s.subrange(pos as int, j as int), highlight: Seq::empty() },
            ));
            assert(contents_of(row_views(rows@)) =~= contents_of(row_views(rows0)) + seq![
                s.subrange(pos as int, j as int),
            ]);
        }
        if j < n {
            proof {
                assert(contents_of(row_views(rows@)) + lines_of(
                    s.subrange(j + 1, n as int),
                ) =~= lines_of(s));
            }
            pos = j + 1;
        } else {
            proof {
                assert(s.subrange(n as int, n as int) =~= Seq::<char>::empty());
                assert(lines_of(Seq::<char>::empty()) == Seq::<Seq<char>>::empty());
                assert(contents_of(row_views(rows@)) + lines_of(
                    s.subrange(n as int, n as int),
                ) =~= lines_of(s));
            }
            pos = n;
        }
    }
    proof {
        assert(s.subrange(n as int, n as int) =~= Seq::<char>::empty());
        assert(contents_of(row_views(rows@)) =~= lines_of(s));
    }
    rows
}

/// A forward hit is real: the query occurs at the returned position, which
/// lies in the scanned span.
pub proof fn lemma_doc_find_fwd_sound(cs: Seq<Seq<char>>, q: Seq<char>, x: int, y: int)
    ensures
        doc_find_fwd(cs, q, x, y) matches Some(p) ==> {
            &&& y <= p.1 < cs.len()
            &&& p.1 == y ==> x <= p.0
            &&& occurs_at(cs[p.1], q, p.0)
        },
    decreases cs.len() - y,
{
    if 0 <= y < cs.len() {
        crate::row::lemma_find_fwd_some(cs[y], q, x);
        if find_fwd(cs[y], q, x) is None {
            lemma_doc_find_fwd_sound(cs, q, 0, y + 1);
        }
    }
}

/// A forward miss is complete: no occurrence stands anywhere in the
/// scanned span, from column `x` of row `y` to the end of the document.
pub proof fn lemma_doc_find_fwd_complete(cs: Seq<Seq<char>>, q: Seq<char>, x: int, y: int)
    requires
        0 <= x,
        0 <= y,
        doc_find_fwd(cs, q, x, y) is None,
    ensures
        forall|yy: int, m: int| y <= yy < cs.len() && (yy == y ==> x <= m) ==> !#[trigger] occurs_at(cs[yy], q, m),
    decreases cs.len() - y,
{
    if y < cs.len() {
        crate::row::lemma_find_fwd_none(cs[y], q, x);
        lemma_doc_find_fwd_complete(cs, q, 0, y + 1);
        assert forall|yy: int, m: int| y <= yy < cs.len() && (yy == y ==> x <= m) implies !#[trigger] occurs_at(cs[yy], q, m) by {
            if yy == y {
                assert(!occurs_at(cs[y], q, m));
            } else {
                if occurs_at(cs[yy], q, m) {
                    assert(0 <= m);
                }
            }
        }
    }
}

/// A backward hit is real: the query occurs at the returned position,
/// which lies in the scanned span.
pub proof fn lemma_doc_find_bwd_sound(cs: Seq<Seq<char>>, q: Seq<char>, x: int, y: int)
    ensures
        doc_find_bwd(cs, q, x, y) matches Some(p) ==> {
            &&& 0 <= p.1 <= y
            &&& p.1 == y ==> p.0 <= x
            &&& occurs_at(cs[p.1], q, p.0)
        },
    decreases y + 1,
{
    if 0 <= y < cs.len() {
        crate::row::lemma_find_bwd_some(cs[y], q, x);
        if find_bwd(cs[y], q, x) is None && y > 0 {
            lemma_doc_find_bwd_sound(cs, q, cs[y - 1].len() as int, y - 1);
        }
    }
}

/// A backward miss is complete: no occurrence stands anywhere in the
/// scanned span, from column `x` of row `y` back to the start of the
/// document.
pub proof fn lemma_doc_find_bwd_complete(cs: Seq<Seq<char>>, q: Seq<char>, x: int, y: int)
    requires
        0 <= y < cs.len(),
        doc_find_bwd(cs, q, x, y) is None,
    ensures
        forall|yy: int, m: int| 0 <= yy <= y && (yy == y ==> m <= x) && (yy < y ==> m
            <= cs[yy].len()) ==> !#[trigger] occurs_at(cs[yy], q, m),
    decreases y + 1,
{
    crate::row::lemma_find_bwd_none(cs[y], q, x);
    if y > 0 {
        lemma_doc_find_bwd_complete(cs, q, cs[y - 1].len() as int, y - 1);
    }
}

/// Saving and re-opening restores the rows exactly: the rows of the
/// serialized text are the rows that were serialized, for any rows free of
/// embedded newlines.
pub proof fn lemma_save_open_round_trip(cs: Seq<Seq<char>>)
    requires
        forall|i: int| 0 <= i < cs.len() ==> !(#[trigger] cs[i]).contains('\n'),
    ensures
        lines_of(serialize_rows(cs)) == cs,
{
    lemma_round_trip_from(cs, 0);
    assert(cs.skip(0) =~= cs);
}

proof fn lemma_round_trip_from(cs: Seq<Seq<char>>, i: int)
    requires
        0 <= i <= cs.len(),
        forall|k: int| 0 <= k < cs.len() ==> !(#[trigger] cs[k]).contains('\n'),
    ensures
        lines_of(serialize_from(cs, i)) == cs.skip(i),
    decreases cs.len() - i,
{
    if i >= cs.len() {
        assert(cs.skip(i) =~= Seq::<Seq<char>>::empty());
    } else {
        lemma_round_trip_from(cs, i + 1);
        let row = cs[i];
        let rest = serialize_from(cs, i + 1);
        let s = row + seq!['\n'] + rest;
        assert(serialize_from(cs, i) == s);
        assert forall|k: int| 0 <= k < row.len() implies s[k] != '\n' by {
            assert(s[k] == row[k]);
            if row[k] == '\n' {
                assert(row.contains('\n'));
            }
        }
        assert(s[row.len() as int] == '\n');
        lemma_first_nl_char(s, 0, row.len() as int);
        assert(s.len() > 0);
        assert(s.subrange(0, row.len() as int) =~= row);
        assert(s.subrange(row.len() + 1 as int, s.len() as int) =~= rest);
        assert(lines_of(s) == seq![row] + lines_of(rest));
        assert(seq![row] + cs.skip(i + 1) =~= cs.skip(i));
    }
}

/// Re-highlighting is idempotent: a second whole-document pass with no
/// query, and no mutation in between, changes nothing.
pub proof fn lemma_highlight_idempotent(d: DocView)
    ensures
        model_highlight(model_highlight(d, None), None) == model_highlight(d, None),
{
    let d1 = model_highlight(d, None);
    assert(contents_of(d1.rows) =~= contents_of(d.rows));
    assert(d1.rows == rows_from_contents(contents_of(d1.rows), d1.file_type.opts, None));
    assert(model_highlight(d1, None).rows == d1.rows);
}

/// Inserting a character and deleting it at the same position restores
/// every row's text and the row count.
pub proof fn lemma_insert_delete_inverse(d: DocView, at: Position, c: char)
    requires
        c != '\n',
        (at.y as int) < d.rows.len(),
        at.x as int <= d.rows[at.y as int].content.len(),
    ensures
        contents_of(model_delete(model_insert(d, at, c), at).rows) == contents_of(d.rows),
        model_delete(model_insert(d, at, c), at).rows.len() == d.rows.len(),
{
    let c0 = d.rows[at.y as int].content;
    let grown = spec_insert_char(c0, at.x as int, c);
    let d1 = model_insert(d, at, c);
    assert(grown == c0.insert(at.x as int, c));
    assert(grown.len() == c0.len() + 1);
    assert(d1.rows[at.y as int].content == grown);
    let d2 = model_delete(d1, at);
    assert(at.x as int != grown.len());
    let shrunk = spec_delete_char(grown, at.x as int);
    assert(shrunk =~= c0);
    assert(contents_of(d2.rows) =~= contents_of(d.rows));
}

/// Splitting a row with a newline and deleting at the split point merges
/// the halves back: every row's text and the row count are restored.
pub proof fn lemma_newline_split_merge_inverse(d: DocView, at: Position)
    requires
        (at.y as int) < d.rows.len(),
        at.x as int <= d.rows[at.y as int].content.len(),
    ensures
        contents_of(model_delete(model_insert(d, at, '\n'), at).rows) == contents_of(d.rows),
        model_delete(model_insert(d, at, '\n'), at).rows.len() == d.rows.len(),
{
    let c0 = d.rows[at.y as int].content;
    let x = at.x as int;
    let d1 = model_insert(d, at, '\n');
    assert(d1 == model_insert_newline(d, at));
    let head = c0.subrange(0, x);
    let tail = c0.subrange(x, c0.len() as int);
    assert(d1.rows[at.y as int].content == head);
    assert(d1.rows[at.y + 1].content == tail);
    assert(d1.rows.len() == d.rows.len() + 1);
    let d2 = model_delete(d1, at);
    assert(at.x as int == head.len());
    assert(at.y + 1 < d1.rows.len());
    let merged = head + tail;
    assert(merged =~= c0);
    assert(contents_of(d2.rows) =~= contents_of(d.rows));
}

} // verus!
