//! Label reconciliation engine for a weekly open-source digest.
//!
//! A generated digest is reviewed through a free-form comment; this crate
//! extracts structured directives from such a comment (`comment`), merges
//! them into a persisted label configuration (`config`), and renders the
//! digest lines themselves (`digest`).  All surrounding plumbing (argument
//! handling, network calls, file I/O) lives outside this crate and hands
//! plain values in and out.

pub mod chars;
pub mod cli;
pub mod comment;
pub mod config;
pub mod digest;
