//! A loopback HTTP self-benchmark, split into its verifiable core:
//! a hit counter served at `/`, the decimal codec its responses travel
//! through, and the benchmark driver's bookkeeping and report.

pub mod codec;
pub mod counter;
pub mod driver;
pub mod report;

pub use counter::index;
pub use counter::HitCount;
pub use driver::RequestError;
