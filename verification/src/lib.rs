//! A knowledge-graph index for Postgres, where each user sees only the part of
//! the graph derived from rows they are allowed to read.
//!
//! This crate holds what the extension decides and computes; the extension
//! itself, around it, talks to Postgres. A document's text becomes surfaces
//! (`extraction`), which index storage keeps per heap row (`storage`,
//! `maintenance`, `access`). Names are normalized (`names`) and, under human
//! decisions (`decisions`), resolved to entities (`resolution`, over `sets` and
//! `maps`). Each row then contributes mentions and edges (`graph`), which a
//! caller sees by the source rows that the caller can read (`visibility`).
//! `sql` writes the statements.
pub mod access;
pub mod decisions;
pub mod extraction;
pub mod graph;
pub mod maintenance;
pub mod maps;
pub mod names;
pub mod resolution;
pub mod sets;
pub mod sql;
pub mod storage;
pub mod text;
pub mod visibility;
