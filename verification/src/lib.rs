//! Inline allocation viewer support: the report format shared by the
//! analyzers, attribution of profiled allocations to source lines, the dhat
//! frame grammar, static allocation-site classification and report merging.
//!
//! Two honesty rules shape the data: static entries are sites, never
//! amounts; runtime entries exist only for lines that some allocation was
//! attributed to.

pub mod aggregate;
pub mod attribution;
pub mod cli;
pub mod collector;
pub mod dhat_parser;
pub mod hashing;
pub mod sample;
pub mod schema;
pub mod static_sites;
pub mod strmap;
pub mod text;
pub mod timestamp;

pub use aggregate::{check_version, merge, refresh_hashes};
pub use attribution::{attribute, extract_workspace_relative_path, find_attribution_frame, AttrKey, Attribution};
pub use collector::{build_report, CollectorBackend, CollectorError, RawAllocation, ResolvedFrame};
pub use dhat_parser::{allocations_from_dhat, parse_frame, DhatBackend, DhatJson, ProgramPoint};
pub use sample::duplicate_data;
pub use schema::{AllocationReport, Entry, FileData, Kind, LineData, Source, StackTrace, SCHEMA_VERSION};
pub use static_sites::{file_data_from_sites, AllocSite, AllocVisitor, Construct};
pub use strmap::StrMap;
pub use timestamp::rfc3339_from_unix_secs;
