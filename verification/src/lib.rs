//! The decisions of a small kernel for ARM64 boards, proved: typed
//! addresses, a buddy allocator for physically contiguous frames and the
//! way it is seeded from a range of memory, the bump allocator of the
//! heap, the messages of the video core's mailbox, and the number of the
//! core that runs. Registers, statics and locks are the caller's.

pub mod allocate;
pub mod cores;
pub mod mailbox;
pub mod memory;
pub mod sync;
