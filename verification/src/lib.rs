//! One-way directory mirroring: the decisions of a backup run, verified.
//!
//! A run makes a destination tree hold what a source tree holds. It walks
//! the source breadth first, creates the destination directories that are
//! missing, deletes from those that exist the files that the source no
//! longer has, and copies each file that the destination lacks or holds in
//! an older version.
//!
//! The library decides and never touches a file. `executer::BackUpExecuter`
//! hands out one `protocol::Request` at a time; the caller carries it out
//! and reports the `protocol::Response`.
//!
//! The executable part:
//! - `path`: the frame that two roots share, logical paths, joining.
//! - `timestamp`: modification times and their order.
//! - `entries`: the listing of one directory.
//! - `protocol`: requests, responses and errors.
//! - `executer`: the engine.
//!
//! What it is proved against:
//! - `model`: the engine as a function from state and response to state and
//!   request.
//! - `frame`: the correspondence between source paths and destination paths.
//! - `world`: a model of the file system and of a run on it.
//! - `safety`, `turns`, `effects`, `steps`: what holds at every moment of a
//!   run, and why.
//! - `laws`, `repeat`, `once`: what a run that ends well has done, what a
//!   second run does, and that every directory has its turn once.
//! - `witness`: a run that ends well, so that the laws speak of something.

pub mod effects;
pub mod entries;
pub mod executer;
pub mod frame;
pub mod laws;
pub mod model;
pub mod once;
pub mod path;
pub mod protocol;
pub mod repeat;
pub mod safety;
pub mod steps;
pub mod timestamp;
pub mod turns;
pub mod witness;
pub mod world;
