//! Text-buffer core of a terminal line editor: an ordered sequence of
//! editable rows with per-character syntax classification, position-addressed
//! insert/delete/split/merge mutations, dirty tracking, and substring search
//! in either scan direction.

pub mod document;
pub mod filetype;
pub mod hl;
pub mod position;
pub mod row;
pub mod strutil;

pub use document::Document;
pub use filetype::FileType;
pub use hl::HighlightKind;
pub use hl::HighlightOptions;
pub use position::Position;
pub use position::SearchDirection;
pub use row::Row;
