//! Discovery of running compute instances across credential profiles and
//! regions: the credential-file parser, the region and instance projections,
//! the fan-out planning and the grouped report.

pub mod text;
pub mod credentials;
pub mod fetch;
pub mod regions;
pub mod plan;
pub mod report;
