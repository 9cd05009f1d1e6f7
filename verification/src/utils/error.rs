use vstd::prelude::*;

verus! {

/// Why a tree could not be made.
#[derive(Copy, Clone, Debug, PartialEq, Eq, Structural)]
pub enum BtreeError {
    /// The minimum degree is below 2.
    LowerBoundTooLow,
    /// The minimum degree is above 2048.
    LowerBoundTooLarge,
}

impl BtreeError {
    /// The text that explains this error.
    pub fn message(&self) -> (r: &'static str)
        ensures
            r@ == (match self {
                BtreeError::LowerBoundTooLow => "Lower Bound (lowest number of keys in a node) needs to be at least 2"@,
                BtreeError::LowerBoundTooLarge => "Lower Bound (lowest number of keys in a node) too large"@,
            }),
    {
        match self {
            BtreeError::LowerBoundTooLow => {
                "Lower Bound (lowest number of keys in a node) needs to be at least 2"
            },
            BtreeError::LowerBoundTooLarge => {
                "Lower Bound (lowest number of keys in a node) too large"
            },
        }
    }
}

/// An operation that a node could not carry out.
#[derive(Copy, Clone, Debug, PartialEq, Eq, Structural)]
pub enum NodeOperationError {
    /// The node holds all the keys it may.
    Full,
    /// The node holds no key.
    Empty,
}

impl NodeOperationError {
    /// The text that explains this error.
    pub fn message(&self) -> (r: &'static str)
        ensures
            r@ == (match self {
                NodeOperationError::Full => "The Node is full"@,
                NodeOperationError::Empty => "The Node is empty"@,
            }),
    {
        match self {
            NodeOperationError::Full => "The Node is full",
            NodeOperationError::Empty => "The Node is empty",
        }
    }
}

/// What went wrong in a node.
#[derive(Copy, Clone, Debug, PartialEq, Eq, Structural)]
pub enum NodeError {
    /// An operation failed.
    Operation(NodeOperationError),
}

impl NodeError {
    /// The text that explains this error.
    pub fn message(&self) -> (r: &'static str)
        ensures
            r@ == (match self {
                NodeError::Operation(NodeOperationError::Full) => "Operation failed: The Node is full"@,
                NodeError::Operation(NodeOperationError::Empty) => "Operation failed: The Node is empty"@,
            }),
    {
        match self {
            NodeError::Operation(NodeOperationError::Full) => "Operation failed: The Node is full",
            NodeError::Operation(NodeOperationError::Empty) => "Operation failed: The Node is empty",
        }
    }
}

impl vstd::std_specs::convert::FromSpecImpl<NodeOperationError> for NodeError {
    open spec fn obeys_from_spec() -> bool {
        true
    }

    open spec fn from_spec(error: NodeOperationError) -> Self {
        NodeError::Operation(error)
    }
}

impl From<NodeOperationError> for NodeError {
    fn from(error: NodeOperationError) -> (r: Self) {
        NodeError::Operation(error)
    }
}

} // verus!
