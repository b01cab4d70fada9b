//! The logic of a database diagram editor: its data model, the selection
//! and how clicks change it, the routing of relation lines, and the text
//! report of a diagram.
pub mod diagram;
pub mod export;
pub mod highlight;
pub mod layout;
pub mod movement;
pub mod navigation;
pub mod notation;
pub mod routing;
pub mod selection;
