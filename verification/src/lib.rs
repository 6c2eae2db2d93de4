//! Pure core of a semantic documentation search tool: markdown sectioning,
//! heading hierarchy, slugs, freshness decisions and terminal formatting.

pub mod format;
pub mod freshness;
pub mod install;
pub mod locate;
pub mod markdown;
pub mod outline;
pub mod render;
pub mod slug;
pub mod store;
pub mod text;
pub mod toc;
pub mod version;
