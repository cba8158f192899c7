pub mod level;
pub mod ordered;
pub mod skip_list;

pub use level::{random_level, MAX_LEVEL};
pub use skip_list::SkipList;
