//! The verified core of the n8m.us site: content lookup, frontmatter framing,
//! post dates, feeds, Markdown code-block highlighting and routing decisions.

pub mod text;
pub mod escape;
pub mod error;
pub mod frontmatter;
pub mod embedded;
pub mod dates;
pub mod site;
pub mod feed;
pub mod markdown;
pub mod render;
pub mod order;
pub mod router;
pub mod assets;
