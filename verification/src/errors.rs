//! Errors that parsing can end with.
use vstd::prelude::*;

verus! {

/// An error that ends a parse.
#[derive(Debug, Clone, Copy, PartialEq, Eq, Structural)]
pub enum ParseError {
    /// The input is longer than `u32::MAX` bytes.
    InvalidLength,
    /// The node buffer of a bounded scan is full.
    NodeCapacityExceeded,
    /// The attribute buffer of a bounded scan is full.
    AttributeCapacityExceeded,
    /// The root buffer of a bounded scan is full.
    RootCapacityExceeded,
    /// The stack of open tags of a bounded scan is full.
    StackCapacityExceeded,
    /// A bounded child list is full.
    ChildCapacityExceeded,
    /// A bounded class table is full.
    ClassCapacityExceeded,
    /// A bounded id table is full.
    IdCapacityExceeded,
    /// A bounded selector is full.
    SelectorCapacityExceeded,
    /// A `<!` declaration that is neither a comment nor a doctype.
    UnsupportedAssemblySyntax,
}

} // verus!
