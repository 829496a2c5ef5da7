//! Routing logic for a two-page site: a home page and a blog page addressed
//! by a signed 32-bit id. Paths are written and dispatched by verified
//! functions over one spec-level grammar, and a proved round trip guarantees
//! that every link the site builds lands on the page it names.

pub mod decimal;
pub mod routes;

pub use routes::Route;
pub use routes::blog_heading;
pub use routes::blog_next;
pub use routes::blog_prev;
pub use routes::navbar_targets;
pub use routes::parse_route;
pub use routes::route_to_path;
