//! Types that accompany the searches.
pub mod error_chain;
