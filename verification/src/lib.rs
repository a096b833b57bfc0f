//! A code map, search and shared memory for a repository.
//!
//! The functions here decide and compute; they read no files and open no connections. What a tool
//! needs of the outside (file contents, stored rows, syntax trees, the answers of a service) comes in
//! as plain values, and what it answers goes out the same way. Every contract is stated over the
//! sequences, maps and records that the values stand for.

pub mod text;
pub mod seek;
pub mod model;
pub mod sort;
pub mod cursor;
pub mod savings;
pub mod budget;
pub mod tables;
pub mod keys;
pub mod seqs;
pub mod calls;
pub mod stored_calls;
pub mod resolution;
pub mod callers;
pub mod graph;
pub mod walk;
pub mod tags;
pub mod tag_sections;
pub mod lang;
pub mod digest;
pub mod history;
pub mod normal;
pub mod syntax;
pub mod sensitivity;
pub mod navigate;
pub mod pattern;
pub mod grep;
pub mod cochange;
pub mod proposals;
pub mod keyspace;
pub mod memory;
pub mod audit;
pub mod governance;
pub mod proposal_ops;
pub mod memory_tools;
pub mod remining;
pub mod documents;
pub mod web;
pub mod js;
pub mod resolve;
pub mod stitch;
pub mod restitch;
pub mod stackgraph;
pub mod impls;
pub mod cache;
pub mod outlines;
pub mod server;
pub mod tools;
pub mod answers;
pub mod places;
pub mod lenient;
pub mod find;
pub mod call_answers;
pub mod memory_answers;
pub mod wording;
pub mod tag_answers;
pub mod binding_answers;
pub mod source_answers;
pub mod document_answers;
pub mod mining_answers;
pub mod code;
pub mod shells;
pub mod comms;
pub mod notify;
pub mod identity;
pub mod lean;
pub mod git;
pub mod numbers;
pub mod proposal_answers;
pub mod service_answers;
pub mod fact_answers;
pub mod finer_answers;
pub mod upkeep_answers;
pub mod promises;
pub mod layouts;
pub mod audit_answers;
pub mod order_answers;
pub mod sequels;
pub mod bound_answers;
pub mod tool_promises;
pub mod cli;
