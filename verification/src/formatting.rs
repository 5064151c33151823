//! Formatting properties of the content tree.
pub mod grid_span;
pub mod page_cols;
pub mod page_margin;
pub mod paragraph_property;
pub mod section_property;
pub mod table_cell_property;
pub mod table_grid;
pub mod table_property;
pub mod v_align;
pub mod v_merge;

pub use self::grid_span::GridSpan;
pub use self::page_cols::PageCols;
pub use self::page_margin::PageMargin;
pub use self::paragraph_property::ParagraphProperty;
pub use self::section_property::SectionProperty;
pub use self::table_cell_property::TableCellProperty;
pub use self::table_grid::{GridColumn, TableGrid, TableGridView};
pub use self::table_property::TableProperty;
pub use self::v_align::{VAlign, VAlignType};
pub use self::v_merge::{VMerge, VMergeType};
