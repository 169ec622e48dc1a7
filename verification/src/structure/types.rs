//! The structure tree of a tagged PDF (ISO 32000-1, section 14.7).
use vstd::prelude::*;

verus! {

/// Standard structure types (ISO 32000-1, section 14.8.4).
#[derive(Debug, Clone, Copy, PartialEq, Eq, Structural)]
pub enum StructType {
    Document,
    Part,
    Art,
    Sect,
    Div,
    BlockQuote,
    Caption,
    TOC,
    TOCI,
    Index,
    P,
    H,
    H1,
    H2,
    H3,
    H4,
    H5,
    H6,
    L,
    LI,
    Lbl,
    LBody,
    Table,
    TR,
    TH,
    TD,
    THead,
    TBody,
    TFoot,
    Span,
    Quote,
    Note,
    Reference,
    Code,
    Link,
    Annot,
    Figure,
    Formula,
    Form,
    NonStruct,
}

/// A child of a structure element.
#[derive(Debug)]
pub enum StructChild {
    /// A nested structure element.
    StructElem(Box<StructElem>),
    /// Marked content with identifier `mcid` on page `page` (0-based).
    MarkedContentRef { mcid: u32, page: u32 },
    /// A reference to a whole PDF object (object number, generation).
    ObjectRef(u32, u16),
}

/// A node of the structure tree.
#[derive(Debug)]
pub struct StructElem {
    /// The element's structure type.
    pub struct_type: StructType,
    /// The element's children, in document order.
    pub children: Vec<StructChild>,
    /// The page the element belongs to, when the element names one (0-based).
    pub page: Option<u32>,
}

/// The root of a structure tree.
#[derive(Debug)]
pub struct StructTreeRoot {
    /// Top-level elements, in document order.
    pub root_elements: Vec<StructElem>,
}

impl StructElem {
    /// An element of the given type with no children and no page.
    pub fn new(struct_type: StructType) -> (e: StructElem)
        ensures
            e.struct_type == struct_type,
            e.children@ == Seq::<StructChild>::empty(),
            e.page == None::<u32>,
    {
        StructElem { struct_type, children: Vec::new(), page: None }
    }

    /// Append a child after the existing ones.
    pub fn add_child(&mut self, child: StructChild)
        ensures
            final(self).struct_type == old(self).struct_type,
            final(self).page == old(self).page,
            final(self).children@ == old(self).children@.push(child),
    {
        self.children.push(child);
    }
}

impl StructTreeRoot {
    /// A tree with no elements.
    pub fn new() -> (t: StructTreeRoot)
        ensures
            t.root_elements@ == Seq::<StructElem>::empty(),
    {
        StructTreeRoot { root_elements: Vec::new() }
    }

    /// Append a top-level element after the existing ones.
    pub fn add_root_element(&mut self, elem: StructElem)
        ensures
            final(self).root_elements@ == old(self).root_elements@.push(elem),
    {
        self.root_elements.push(elem);
    }
}

} // verus!
