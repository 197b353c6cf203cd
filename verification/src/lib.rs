pub mod backups;
pub mod clock;
pub mod errors;
pub mod laws;
pub mod model;
pub mod order;
pub mod paths;
pub mod store;
