//! The content tree: paragraphs, runs, tables, revision wrappers and legacy
//! drawing containers.
pub mod body;
pub mod paragraph;
pub mod pict;
pub mod run;
pub mod table;
pub mod table_cell;
pub mod track_changes;

pub use self::body::{Body, BodyContent, BodyContentView, BodyView, Document, DocumentView};
pub use self::paragraph::{Paragraph, ParagraphContent, ParagraphContentView, ParagraphView};
pub use self::pict::{ImageData, ImageDataView, Pict, PictView, Rect, RectView, Shape, ShapeView};
pub use self::run::{DelText, Run, RunContent, RunContentView, RunView, Text};
pub use self::table::{Table, TableRow, TableRowView, TableView};
pub use self::table_cell::{TableCell, TableCellContent, TableCellContentView, TableCellView};
pub use self::track_changes::{Deletion, DeletionView, Insertion, InsertionView};
