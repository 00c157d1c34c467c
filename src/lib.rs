//! An ordered map kept as a skip list over an arena of nodes.

pub mod arena;
pub mod node;
pub mod promotion;
pub mod skip_list;

pub use crate::node::{Bound, KeyVal, KeyValuePair, SkipListNode};
pub use crate::promotion::{deterministic_level, level_from_flips, probabilistic_level, PromotionType, MAX_LEVEL};
pub use crate::skip_list::{SkipList, SkipListError};
