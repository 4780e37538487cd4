//! Read-only disk usage scanning: size parsing and formatting, ignore rules,
//! top-N selection of the largest files and directories, and report rendering.

pub mod bignum;
pub mod cli;
pub mod decimal;
pub mod ignore;
pub mod output;
pub mod plan;
pub mod report;
pub mod scanner;
pub mod size;
pub mod size_laws;
pub mod text;
pub mod topn;
