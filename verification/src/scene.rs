//! Semantic attributes of the text a layout emits for a backend to render.

use vstd::prelude::*;

verus! {

/// Semantic attribute of a text primitive, used by the backend to choose font,
/// color, and weight from preferences without knowing genealogical context.
#[derive(Debug, Clone, Copy, PartialEq, Eq, Structural)]
pub enum TextAttr {
    /// The name of the chart's root / descendant individual.
    IndividualName,
    /// The name of a spouse.
    SpouseName,
    /// A birth event line.
    BirthData,
    /// A death event line.
    DeathData,
    /// A marriage event line.
    MarriageData,
    /// An ID string (individual or family).
    IndividualId,
    /// A generation-number prefix.
    GenerationNum,
    /// Highlighted individual or family
    Highlighted,
    /// A GEDCOM NOTE line.
    NoteText,
}

/// Build a `Vec<TextAttr>` with `base` plus `Highlighted` when `highlighted` is true.
pub fn label_attrs(base: TextAttr, highlighted: bool) -> (r: Vec<TextAttr>)
    ensures
        r@ == (if highlighted {
            seq![base, TextAttr::Highlighted]
        } else {
            seq![base]
        }),
{
    let mut v: Vec<TextAttr> = Vec::new();
    v.push(base);
    if highlighted {
        v.push(TextAttr::Highlighted);
    }
    assert(v@ =~= (if highlighted {
        seq![base, TextAttr::Highlighted]
    } else {
        seq![base]
    }));
    v
}

/// Horizontal alignment of text within its bounding box.
#[derive(Debug, Clone, Copy, PartialEq, Eq, Structural)]
pub enum TextAlign {
    /// Text is left-aligned; the baseline starts at the box's left edge.
    Left,
    /// Text is centered in the box.
    Center,
    /// Text is right-aligned; the baseline ends at the box's right edge.
    Right,
}

/// Connector kind for the fancy layout (used for SVG grouping).
#[derive(Debug, Clone, Copy, PartialEq, Eq, Structural)]
pub enum FancyConnKind {
    IndivToSpouse,
    SpouseToChildren,
}

} // verus!
