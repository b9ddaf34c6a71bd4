//! The per-node record: the part of a node's semantic payload that tree
//! navigation reads.

use vstd::prelude::*;

verus! {

/// Identifier of a node. Within one tree no two nodes share an identifier.
#[derive(Clone, Copy, Debug, PartialEq, Eq, Hash, Structural)]
pub struct NodeId(pub u64);

/// What kind of user-interface element a node is.
///
/// Navigation gives meaning to one role only: a node whose role is
/// [`Role::Presentation`] exists for layout alone and is always ignored.
#[derive(Clone, Copy, Debug, PartialEq, Eq, Hash, Structural)]
pub enum Role {
    Unknown,
    Presentation,
    Window,
    Pane,
    Group,
    Document,
    Heading,
    StaticText,
    Image,
    Link,
    Button,
    CheckBox,
    RadioButton,
    ComboBox,
    TextField,
    List,
    ListItem,
    Menu,
    MenuItem,
    Table,
    Row,
    Cell,
}

/// The record of one node. It never changes once its tree exists.
#[derive(Clone, Copy, Debug, PartialEq, Eq, Structural)]
pub struct NodeData {
    pub id: NodeId,
    pub role: Role,
    /// The node is to be left out of what assistive technology sees.
    pub ignored: bool,
    /// The node is not shown on screen.
    pub invisible: bool,
}

impl NodeData {
    /// A node is ignored when it is flagged so or when its role is
    /// [`Role::Presentation`], whatever the flag says.
    pub open spec fn spec_is_ignored(self) -> bool {
        self.ignored || self.role == Role::Presentation
    }
}

} // verus!
