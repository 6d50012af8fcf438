//! Automatic requires-discovery for RPM packaging.
//!
//! Given a set of built artifacts, this library determines the run-time
//! dependency tokens ("requires") those artifacts induce: it classifies
//! dynamically linked binaries from their ELF headers, parses the report of a
//! dynamic-linker introspection tool into canonical soname requirements,
//! resolves interpreter scripts from their shebang line, and speaks the
//! stdin/stdout protocol of an external `find-requires` program.  The
//! surrounding binary performs the file and process I/O and hands this library
//! plain values; every decision and every transformation here is verified.

pub mod auto_req;
pub mod build_target;
pub mod builtin;
pub mod cli;
pub mod config;
pub mod error;
pub mod file_info;
pub mod script;
pub mod strutil;
