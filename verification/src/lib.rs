//! An in-memory, append-only fact store with a staged query engine.
//!
//! Facts are immutable `(entity, attribute, value, time)` tuples held in a
//! [`data::Db`], together with entity-to-entity references.  Query text is
//! parsed into an [`ast::AstNode`], compiled by [`plan::Plan`] into staged
//! tasks, and evaluated over the datum table by [`exec::exec`], whose result
//! is proved equal to the recursive evaluator in [`filter`].  Tabular rows
//! are ingested by [`csv_parser`], which discovers references by running a
//! query per declared join.

pub mod ast;
pub mod cli;
pub mod csv_parser;
pub mod data;
pub mod exec;
pub mod filter;
pub mod parser;
pub mod plan;
pub mod strutil;
