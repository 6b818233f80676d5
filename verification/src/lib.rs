//! Navigation blocks for stacked pull requests: rebuilding the stacks from
//! an unordered set of requests, rendering the block that lists a stack, and
//! putting that block into a request's description or taking it out again.

pub mod anomalies;
pub mod bookmarks;
pub mod determinacy;
pub mod nav;
pub mod payload;
pub mod plan;
pub mod request;
pub mod stability;
pub mod stacks;
pub mod text;

pub use bookmarks::{bookmarked_requests, parse_bookmarks};
pub use nav::{generate_nav_block, insert_nav_block, remove_nav_block, updated_body};
pub use nav::{STACK_FOOTER, STACK_HEADER};
pub use payload::body_patch;
pub use plan::{plan_updates, Update};
pub use request::PullRequest;
pub use stacks::build_pr_stacks;
