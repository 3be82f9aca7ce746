//! Economic worker-orchestration engine: binds harvesting workers to
//! resource nodes under a per-node concurrency cap, keeps the binding
//! table consistent as units and structures appear or vanish, and derives
//! at most one movement/ability command per bound worker each tick.
//!
//! The engine is pure bookkeeping and decision logic over plain values;
//! the host connection layer observes the world, feeds snapshots in, and
//! carries the chosen commands out.

pub mod abilities;
pub mod allocator;
pub mod geometry;
pub mod micro;
pub mod table;
