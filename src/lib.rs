//! Bill-of-materials assembly for a resolved dependency set: which packages to report,
//! how their license declarations read, which files hold their license texts, and how
//! the report is laid out.
pub mod order;
pub mod text;
pub mod license;
pub mod locate;
pub mod collect;
pub mod bom;
pub mod report;
