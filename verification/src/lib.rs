//! Headless directed dataflow graphs: nodes with typed input/output pins,
//! links from outputs to inputs, topological evaluation, and editor-side
//! bookkeeping that keeps a node-graph view in step with the graph.

pub mod ids;
pub mod id_map;
pub mod pin_type;
pub mod layout;
pub mod text;
pub mod error;
pub mod model;
pub mod semantic;
pub mod eval;
pub mod order_laws;
pub mod view_state;
pub mod shell_state;
pub mod canvas_state;
pub mod style;
pub mod snarl;
pub mod bridge;
pub mod editor;
pub mod default_node;
pub mod workspace;
pub mod shell_viewer;
