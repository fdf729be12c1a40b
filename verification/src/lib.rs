//! Finds the build-output directories of Cargo projects below a directory and
//! schedules them for deletion.
//!
//! The crate holds the decisions of a sweep: how one directory listing is
//! classified ([`scanner`]), what travels over the job queue ([`queue`], with the
//! calls on the queue in [`handle`]), what a worker does with the outcome of a
//! job ([`worker`]), and what an observer is told ([`observer`]). Reading
//! directories, deleting them and running threads is left to the caller, who
//! hands in what the file system gave.
//!
//! What holds of every scan of a listing is proved in [`laws`], what holds of the
//! sweep of a whole tree in [`sweep`], how far a sweep reaches into a tree in
//! [`reach`], and that a worker which handles the jobs of a sweep brings that
//! sweep about in [`run`].
pub mod handle;
pub mod laws;
pub mod observer;
pub mod queue;
pub mod reach;
pub mod run;
pub mod scanner;
pub mod sweep;
pub mod worker;
