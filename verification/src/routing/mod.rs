pub mod assoc;
pub mod inv_table;
pub mod tracker;
pub mod router;
