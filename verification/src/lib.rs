//! Committed memory files for agent sessions: parsing, validation and
//! formatting of markdown files that carry a small YAML-like frontmatter.

pub mod bindings;
pub mod compose;
pub mod frontmatter;
pub mod laws;
pub mod listing;
pub mod memory_type;
pub mod text;
pub mod validate;

pub use compose::{file_name_from_slug, format_memory, generate_filename};
pub use listing::{list_entry, listing_order};
pub use frontmatter::{body_start_line, parse_frontmatter, MemoryFrontmatter};
pub use memory_type::MemoryType;
pub use validate::{validate_memory, validate_memory_with_hits, Issue, LOCAL_PATH_PATTERN};
