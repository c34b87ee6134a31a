//! Recognition of purchased-card records in the text of a fixed-layout
//! invoice, and their rendering as table rows.
pub mod card;
pub mod laws;
pub mod number;
pub mod parser;
pub mod rows;
pub mod text;
