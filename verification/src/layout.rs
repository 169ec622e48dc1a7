//! Text produced by page layout analysis.
use crate::geometry::Rect;
use vstd::prelude::*;

verus! {

/// Font weight classes of the OpenType `usWeightClass` scale.
#[derive(Debug, Clone, Copy, PartialEq, Eq, Structural)]
pub enum FontWeight {
    Thin,
    ExtraLight,
    Light,
    Normal,
    Medium,
    SemiBold,
    Bold,
    ExtraBold,
    Black,
}

impl FontWeight {
    /// Semi-bold (600) and heavier weights count as bold.
    pub open spec fn spec_is_bold(self) -> bool {
        match self {
            FontWeight::SemiBold | FontWeight::Bold | FontWeight::ExtraBold | FontWeight::Black => true,
            _ => false,
        }
    }

    /// Whether this weight is semi-bold or heavier.
    pub fn is_bold(&self) -> (b: bool)
        ensures
            b == self.spec_is_bold(),
    {
        match self {
            FontWeight::SemiBold | FontWeight::Bold | FontWeight::ExtraBold | FontWeight::Black => true,
            _ => false,
        }
    }
}

/// A run of text in one font, placed on the page.
#[derive(Debug, Clone)]
pub struct TextSpan {
    /// The characters of the run.
    pub text: String,
    /// Where the run sits on the page.
    pub bbox: Rect,
    /// Name of the font.
    pub font_name: String,
    /// Font size in thousandths of a point.
    pub font_size: i64,
    /// Weight of the font.
    pub font_weight: FontWeight,
    /// Whether the font is italic.
    pub is_italic: bool,
    /// Marked-content identifier that tags the run, if any.
    pub mcid: Option<u32>,
}

/// A block of text matched to marked content.
#[derive(Debug, Clone)]
pub struct TextBlock {
    /// Bounding box of the block.
    pub bbox: Rect,
    /// Text of the block.
    pub text: String,
    /// Average font size in thousandths of a point.
    pub avg_font_size: i64,
    /// Name of the dominant font.
    pub dominant_font: String,
    /// Whether the block is set in a bold font.
    pub is_bold: bool,
    /// Whether the block is set in an italic font.
    pub is_italic: bool,
    /// Marked-content identifier of the block, if any.
    pub mcid: Option<u32>,
}

} // verus!
