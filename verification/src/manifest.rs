//! What a project says of itself: its sources and the texts that it cites.

pub mod schema;
