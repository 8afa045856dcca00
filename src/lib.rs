pub mod aggregate;
pub mod step;
pub mod throughput;
pub mod trial;

pub use aggregate::{accuarcy, summarize, ErrorRow};
pub use step::{should_record, Step};
pub use throughput::ops_per_worker;
pub use trial::{single_trial_accuarcy, Container};
