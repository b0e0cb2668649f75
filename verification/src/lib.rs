//! Verified core of a test runner that scores sorting programs by the
//! number of swaps they need, records the results in checkpoint files and
//! distributes the work over child processes.
pub mod endian;
pub mod frame;
pub mod checkpoint_file;
pub mod counts;
pub mod stats;
pub mod digest;
pub mod checkpoint;
pub mod structs;
pub mod planning;
pub mod supervisor;
pub mod worker;
pub mod client;
