//! Verified core of a frame-driven, single-threaded task scheduler, and of
//! the data handling around it.
//!
//! The scheduler holds the decisions of a cooperative executor: which task
//! is resumed next ([`executor`], over the bounded [`ready_queue`]), and how
//! a frame sequencer hands one snapshot per tick to every gate that waits
//! for it ([`frame_sequencer`]). Task bodies stay with the caller, who
//! resumes the task that the executor names and reports back. What the two
//! guarantee together is proved in [`rendezvous`] and [`frame_tasks`].
//!
//! The other modules hold the integer side of the visualisation: grids of
//! values and their range, the byte layout of images, the triangles of a
//! mesh patch, mipmap levels, texture units and the cache of uniform values.
pub mod data_2d_statistics;
pub mod equality;
pub mod executor;
pub mod extremes;
pub mod frame_sequencer;
pub mod frame_tasks;
pub mod mipmap;
pub mod raster;
pub mod ready_queue;
pub mod rendezvous;
pub mod subface;
pub mod texture_provider;
pub mod uniform;
