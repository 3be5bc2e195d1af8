pub mod messages;
pub mod peer;
