//! Host-side implementations of iOS frameworks for an emulator: strings,
//! XML, guest memory, object bookkeeping and assorted system stubs.
pub mod environment;
pub mod external;
pub mod mem;
pub mod objc;
pub mod unicode;
pub mod frameworks;
pub mod laws;
