use vstd::prelude::*;
use crate::geometry::{BBox, BoxModel};

verus! {

/// A position, relative to an enclosing frame or absolute on the page.
#[derive(Clone, Copy, Debug, PartialEq, Eq)]
pub struct Point {
    pub x: i64,
    pub y: i64,
}

/// One shaped glyph: the byte range of the run's text that it renders, its
/// horizontal advance and its horizontal offset, both already scaled to the
/// run's font size.
#[derive(Clone, Copy, Debug, PartialEq, Eq)]
pub struct Glyph {
    pub start: usize,
    pub end: usize,
    pub advance: i64,
    pub offset: i64,
}

/// A run of shaped text in one font. The baseline sits at the run's origin;
/// `ascender` and `descender` are the font's metrics scaled to its size.
#[derive(Clone, Debug)]
pub struct TextRun {
    pub text: String,
    pub glyphs: Vec<Glyph>,
    pub ascender: i64,
    pub descender: i64,
}

/// What a frame holds at one position.
#[derive(Debug)]
pub enum Item {
    Text(TextRun),
    /// A nested frame placed at the item's position.
    Group(Frame),
    /// The start of a named region, closed by the next unmatched `TagEnd`.
    TagStart(String),
    TagEnd,
    /// Shapes, images and anything else without text.
    Other,
}

/// A positioned collection of items, in stacking order.
#[derive(Debug)]
pub struct Frame {
    pub items: Vec<(Point, Item)>,
}

/// One page: its root frame and its height.
#[derive(Debug)]
pub struct Page {
    pub frame: Frame,
    pub height: i64,
}

/// A laid-out document.
#[derive(Debug)]
pub struct Document {
    pub pages: Vec<Page>,
}

/// An extracted word, delimiter or group: its text and its box.
#[derive(Clone, Debug)]
pub struct Token {
    pub label: String,
    pub bbox: BBox,
}

/// A token over mathematical values.
pub struct TokenModel {
    pub label: Seq<char>,
    pub bbox: BoxModel,
}

impl View for Token {
    type V = TokenModel;

    open spec fn view(&self) -> TokenModel {
        TokenModel { label: self.label@, bbox: self.bbox@ }
    }
}

/// The models of a sequence of tokens.
pub open spec fn view_tokens(ts: Seq<Token>) -> Seq<TokenModel> {
    ts.map_values(|t: Token| t@)
}

} // verus!
