//! Age-based rotation of the files in a directory tree.
//!
//! Files are classified by modification time into three bands: expired
//! (deleted), archivable (bundled per calendar day into one zip archive) and
//! fresh (left alone). This crate holds the decisions and proves what they
//! guarantee; reading directories, writing bundles and removing files is left
//! to the caller.
//!
//! A run goes through these modules:
//!
//! - [`cutoffs`] turns the configured ages into the two boundaries of the run,
//!   with [`instant`] for points in time and [`calendar`] for local days and
//!   midnights;
//! - [`walker`] says which directory is next;
//! - [`catalog`] and [`sorting`] put the listing of a directory in order;
//! - [`partition`] cuts the catalog into its three bands;
//! - [`grouping`] cuts the archivable band into runs of one day;
//! - [`plan`] puts the pass over a directory together, and [`guarantees`]
//!   states what a plan means for each file;
//! - [`schedule`] lays out the steps of a plan in a safe order;
//! - [`bundle`] names a bundle and packs its members.

pub mod bundle;
pub mod calendar;
pub mod catalog;
pub mod cutoffs;
pub mod grouping;
pub mod guarantees;
pub mod instant;
pub mod partition;
pub mod plan;
pub mod schedule;
pub mod sorting;
pub mod walker;
