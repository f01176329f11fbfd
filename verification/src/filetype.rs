//! Language profiles: the mapping from a file name to the rule set the
//! highlighter scans with. A profile is data, not behaviour: one scanner
//! consumes whichever profile is active. An unknown extension yields a
//! profile with every feature switched off.

use vstd::prelude::*;

use crate::hl::HighlightOptions;
use crate::hl::OptionsView;
use crate::hl::kw_views;
use crate::strutil::chars_of;
use crate::strutil::string_from_chars;

verus! {

/// The active language profile of a document: a display name and the rule
/// set handed to the highlighter.
pub struct FileType {
    name: Vec<char>,
    opts: HighlightOptions,
}

/// Mathematical image of a profile.
pub struct FileTypeView {
    pub name: Seq<char>,
    pub opts: OptionsView,
}

impl View for FileType {
    type V = FileTypeView;

    closed spec fn view(&self) -> FileTypeView {
        FileTypeView { name: self.name@, opts: self.opts@ }
    }
}

/// The rule set that disables all classification.
pub open spec fn plain_options() -> OptionsView {
    OptionsView {
        numbers: false,
        line_marker: Seq::empty(),
        multi_open: Seq::empty(),
        multi_close: Seq::empty(),
        quotes: Seq::empty(),
        primary_keywords: Seq::empty(),
        secondary_keywords: Seq::empty(),
    }
}

pub open spec fn rust_primary_keywords() -> Seq<Seq<char>> {
    seq![
        "as"@,
        "break"@,
        "continue"@,
        "crate"@,
        "else"@,
        "enum"@,
        "false"@,
        "fn"@,
        "for"@,
        "if"@,
        "impl"@,
        "in"@,
        "let"@,
        "loop"@,
        "match"@,
        "mod"@,
        "move"@,
        "mut"@,
        "pub"@,
        "ref"@,
        "return"@,
        "self"@,
        "struct"@,
        "super"@,
        "trait"@,
        "true"@,
        "type"@,
        "use"@,
        "where"@,
        "while"@,
    ]
}

pub open spec fn rust_secondary_keywords() -> Seq<Seq<char>> {
    seq![
        "bool"@,
        "char"@,
        "i8"@,
        "i16"@,
        "i32"@,
        "i64"@,
        "isize"@,
        "str"@,
        "u8"@,
        "u16"@,
        "u32"@,
        "u64"@,
        "usize"@,
        "String"@,
    ]
}

/// The Rust profile: slash-slash line comments, slash-star block comments,
/// double and single quotes, numbers, and the two keyword classes.
pub open spec fn rust_options() -> OptionsView {
    OptionsView {
        numbers: true,
        line_marker: "//"@,
        multi_open: "/*"@,
        multi_close: "*/"@,
        quotes: "\"'"@,
        primary_keywords: rust_primary_keywords(),
        secondary_keywords: rust_secondary_keywords(),
    }
}

/// A file name selects the Rust profile exactly when it ends in ".rs".
pub open spec fn selects_rust(fname: Seq<char>) -> bool {
    fname.len() >= 3 && fname.subrange(fname.len() - 3, fname.len() as int) == ".rs"@
}

/// The profile a file name selects.
pub open spec fn spec_file_type(fname: Seq<char>) -> FileTypeView {
    if selects_rust(fname) {
        FileTypeView { name: "Rust"@, opts: rust_options() }
    } else {
        FileTypeView { name: "No filetype"@, opts: plain_options() }
    }
}

fn plain_exec_options() -> (o: HighlightOptions)
    ensures
        o@ == plain_options(),
{
    let o = HighlightOptions {
        numbers: false,
        line_marker: Vec::new(),
        multi_open: Vec::new(),
        multi_close: Vec::new(),
        quotes: Vec::new(),
        primary_keywords: Vec::new(),
        secondary_keywords: Vec::new(),
    };
    assert(kw_views(o.primary_keywords@) =~= Seq::<Seq<char>>::empty());
    assert(kw_views(o.secondary_keywords@) =~= Seq::<Seq<char>>::empty());
    o
}

fn rust_exec_options() -> (o: HighlightOptions)
    ensures
        o@ == rust_options(),
{
    let mut primary: Vec<Vec<char>> = Vec::new();
    primary.push(chars_of("as"));
    primary.push(chars_of("break"));
    primary.push(chars_of("continue"));
    primary.push(chars_of("crate"));
    primary.push(chars_of("else"));
    primary.push(chars_of("enum"));
    primary.push(chars_of("false"));
    primary.push(chars_of("fn"));
    primary.push(chars_of("for"));
    primary.push(chars_of("if"));
    primary.push(chars_of("impl"));
    primary.push(chars_of("in"));
    primary.push(chars_of("let"));
    primary.push(chars_of("loop"));
    primary.push(chars_of("match"));
    primary.push(chars_of("mod"));
    primary.push(chars_of("move"));
    primary.push(chars_of("mut"));
    primary.push(chars_of("pub"));
    primary.push(chars_of("ref"));
    primary.push(chars_of("return"));
    primary.push(chars_of("self"));
    primary.push(chars_of("struct"));
    primary.push(chars_of("super"));
    primary.push(chars_of("trait"));
    primary.push(chars_of("true"));
    primary.push(chars_of("type"));
    primary.push(chars_of("use"));
    primary.push(chars_of("where"));
    primary.push(chars_of("while"));
    assert(kw_views(primary@) =~= rust_primary_keywords());
    let mut secondary: Vec<Vec<char>> = Vec::new();
    secondary.push(chars_of("bool"));
    secondary.push(chars_of("char"));
    secondary.push(chars_of("i8"));
    secondary.push(chars_of("i16"));
    secondary.push(chars_of("i32"));
    secondary.push(chars_of("i64"));
    secondary.push(chars_of("isize"));
    secondary.push(chars_of("str"));
    secondary.push(chars_of("u8"));
    secondary.push(chars_of("u16"));
    secondary.push(chars_of("u32"));
    secondary.push(chars_of("u64"));
    secondary.push(chars_of("usize"));
    secondary.push(chars_of("String"));
    assert(kw_views(secondary@) =~= rust_secondary_keywords());
    HighlightOptions {
        numbers: true,
        line_marker: chars_of("//"),
        multi_open: chars_of("/*"),
        multi_close: chars_of("*/"),
        quotes: chars_of("\"'"),
        primary_keywords: primary,
        secondary_keywords: secondary,
    }
}

impl FileType {
    /// The profile a file name selects: Rust for a ".rs" name, otherwise
    /// the profile that highlights nothing.
    pub fn from(file_name: &str) -> (ft: FileType)
        ensures
            ft@ == spec_file_type(file_name@),
    {
        let v = chars_of(file_name);
        let n = v.len();
        let is_rust = n >= 3 && v[n - 3] == '.' && v[n - 2] == 'r' && v[n - 1] == 's';
        proof {
            reveal_strlit(".rs");
            if is_rust {
                assert(v@.subrange(v@.len() - 3, v@.len() as int) =~= ".rs"@);
            } else if v@.len() >= 3 {
                if v@.subrange(v@.len() - 3, v@.len() as int) == ".rs"@ {
                    assert(v@[v@.len() - 3] == ".rs"@[0]);
                    assert(v@[v@.len() - 2] == ".rs"@[1]);
                    assert(v@[v@.len() - 1] == ".rs"@[2]);
                }
            }
            assert(is_rust == selects_rust(file_name@));
        }
        if is_rust {
            FileType { name: chars_of("Rust"), opts: rust_exec_options() }
        } else {
            FileType { name: chars_of("No filetype"), opts: plain_exec_options() }
        }
    }

    /// The display name of the profile.
    pub fn name(&self) -> (r: String)
        ensures
            r@ == self@.name,
    {
        string_from_chars(&self.name)
    }

    /// The rule set the highlighter scans with.
    pub fn highlighting_options(&self) -> (r: &HighlightOptions)
        ensures
            r@ == self@.opts,
    {
        &self.opts
    }
}

impl Default for FileType {
    /// An unnamed buffer starts with the profile that highlights nothing.
    fn default() -> (ft: FileType)
        ensures
            ft@.name == "No filetype"@,
            ft@.opts == plain_options(),
    {
        FileType { name: chars_of("No filetype"), opts: plain_exec_options() }
    }
}

} // verus!
