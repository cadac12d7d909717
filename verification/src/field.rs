//! The four geometry fields and the labels under which `xwininfo` prints them.

use crate::text::is_space;
use vstd::prelude::*;

verus! {

/// One of the four numbers that make up a window's rectangle.
#[derive(Clone, Copy, Debug, PartialEq, Eq, Structural)]
pub enum Field {
    /// The absolute horizontal position of the upper-left corner.
    X,
    /// The absolute vertical position of the upper-left corner.
    Y,
    /// The width of the window.
    Width,
    /// The height of the window.
    Height,
}

/// The text that a line starts with when it gives `field`.
pub open spec fn label_of(field: Field) -> Seq<char> {
    match field {
        Field::X => "Absolute upper-left X:"@,
        Field::Y => "Absolute upper-left Y:"@,
        Field::Width => "Width:"@,
        Field::Height => "Height:"@,
    }
}

/// The place of `field` in the order in which the fields are looked for:
/// X, Y, width, height.
pub open spec fn rank_of(field: Field) -> int {
    match field {
        Field::X => 0,
        Field::Y => 1,
        Field::Width => 2,
        Field::Height => 3,
    }
}

/// No label is empty, and no text starts with two different labels, so a line
/// gives at most one field, in whatever order the labels are tried.
pub proof fn lemma_labels_exclusive(s: Seq<char>, f: Field, g: Field)
    requires
        label_of(f).is_prefix_of(s),
        label_of(g).is_prefix_of(s),
    ensures
        label_of(f).len() > 0,
        f == g,
{
    reveal_strlit("Absolute upper-left X:");
    reveal_strlit("Absolute upper-left Y:");
    reveal_strlit("Width:");
    reveal_strlit("Height:");
    let a = label_of(f);
    let b = label_of(g);
    assert(a[0] == s.subrange(0, a.len() as int)[0]);
    assert(b[0] == s.subrange(0, b.len() as int)[0]);
    if a.len() > 20 && b.len() > 20 {
        assert(a[20] == s.subrange(0, a.len() as int)[20]);
        assert(b[20] == s.subrange(0, b.len() as int)[20]);
    }
}

/// A label neither starts nor ends with whitespace.
pub proof fn lemma_label_ends(field: Field)
    ensures
        label_of(field).len() > 0,
        !is_space(label_of(field)[0]),
        !is_space(label_of(field).last()),
{
    reveal_strlit("Absolute upper-left X:");
    reveal_strlit("Absolute upper-left Y:");
    reveal_strlit("Width:");
    reveal_strlit("Height:");
}

impl Field {
    /// The label of this field.
    pub fn label(self) -> (s: &'static str)
        ensures
            s@ == label_of(self),
    {
        match self {
            Field::X => "Absolute upper-left X:",
            Field::Y => "Absolute upper-left Y:",
            Field::Width => "Width:",
            Field::Height => "Height:",
        }
    }
}

} // verus!
