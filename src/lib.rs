//! Detects content changes in the runtime tables of a documentation page.
//!
//! A page is read into its table elements (`html`), the configured tables are taken
//! out of it as rows of cells (`extract`), written in one canonical text form
//! (`codec`), and compared line by line with stored baselines (`snapshot`, `diff`).
//! `run` ties these together into one verdict.
pub mod codec;
pub mod diff;
pub mod extract;
pub mod html;
pub mod run;
pub mod snapshot;
pub mod table;
pub mod text;
