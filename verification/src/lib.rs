pub mod btree;
pub mod error;
pub mod node;
pub mod node_type;
pub mod page;
pub mod page_layout;
pub mod pager;
pub mod wal;
