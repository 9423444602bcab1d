//! An identity-addressed scene graph: a store of nodes referenced by opaque
//! 128-bit identifiers, linked into a rooted tree with ordered children.

pub mod model;
pub mod scenegraph;

pub use model::GraphView;
pub use model::NodeView;
pub use model::graph_wf;
pub use scenegraph::Node;
pub use scenegraph::SceneGraph;
