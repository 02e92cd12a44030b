//! A flexbox-style layout engine over a tree of styled boxes.
//!
//! Given a tree of nodes carrying style attributes (direction, wrap, flex
//! factors, dimensions, min/max bounds, margins, paddings, alignment) and an
//! available width and height, a layout pass resolves every node's concrete
//! geometry: width, height, left, top, and the resolved margins and paddings.
//!
//! All geometry is in integer points. The executable engine is proved to
//! compute exactly the recursive specification `engine::spec_layout`, so a
//! layout pass is a pure, deterministic function of the style tree and the
//! available space.

pub mod dist;
pub mod engine;
pub mod geom;
pub mod laws;
pub mod node;
pub mod style;

pub use dist::LineItem;
pub use engine::spec_layout;
pub use engine::spec_layout_root;
pub use geom::Geom;
pub use geom::GeomView;
pub use node::Node;
pub use node::NodeView;
pub use node::NodeWithLayout;
pub use style::Dimension;
pub use style::FlexAlign;
pub use style::FlexDirection;
pub use style::FlexProperty;
pub use style::FlexWrap;
pub use style::Style;
pub use style::MAX_FACTOR;
pub use style::MAX_POINT;
