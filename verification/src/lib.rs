//! Shortest-link-path search over a directed graph of titled articles.
//!
//! The graph is a set of vertices (stable numeric id, unique title) and
//! directed edges between them.  The search engine finds a path with the
//! fewest hops from one article to another, or reports that none exists.

pub mod error;
pub mod frontier;
pub mod graph;
pub mod search;

pub use error::SearchError;
pub use frontier::FrontierSet;
pub use graph::Direction;
pub use graph::Edge;
pub use graph::Graph;
pub use graph::Vertex;
pub use search::path_titles;
pub use search::reconstruct_path;
pub use search::search;
pub use search::search_ids;
