//! The forms in which a project can say it.

pub mod v1;
