//! The closed set of element tags that a virtual element can carry.

use vstd::prelude::*;

verus! {

/// An element tag. `Empty` names the synthetic root element that a mounted
/// application hangs from; it never corresponds to a host element created by
/// the engine itself.
#[derive(Clone, Copy, Debug, PartialEq, Eq, Structural, Hash)]
pub enum Tag {
    Empty,
    A,
    B,
    Body,
    Br,
    Button,
    Canvas,
    Code,
    Div,
    Em,
    Footer,
    Form,
    H1,
    H2,
    H3,
    H4,
    H5,
    H6,
    Header,
    Hr,
    I,
    Img,
    Input,
    Label,
    Li,
    Main,
    Nav,
    Ol,
    P,
    Pre,
    Section,
    Span,
    Strong,
    Table,
    Td,
    Th,
    Tr,
    Ul,
}

} // verus!
