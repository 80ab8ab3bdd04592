//! Files as the kernel sees them: the `File` interface, user buffers, pipes,
//! open flags and the console.

pub mod buffer;
pub mod inode;
pub mod pipe;
pub mod stdio;

pub use buffer::{File, UserBuffer, UserBufferIterator};
pub use inode::OpenFlags;
pub use pipe::{PipeRingBuffer, RING_BUFFER_SIZE};
pub use stdio::{Stdin, StdinBuffer, StdinStep, Stdout};
