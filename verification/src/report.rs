//! The lines of the listing and their text.

use vstd::prelude::*;
use vstd::string::*;

verus! {

/// What a line of the listing says.
#[derive(Clone, Copy, Debug, PartialEq, Eq)]
pub enum LineKind {
    /// A binary that was loaded; its references follow.
    Header,
    /// A reference that was met before on the way here.
    Duplicate,
    /// A reference for which no file was found.
    NotFound,
}

/// One line of the listing: a binary at `depth`, or a reference of the binary
/// at `depth`.
#[derive(Clone, Debug, PartialEq, Eq)]
pub struct Line {
    pub depth: usize,
    pub kind: LineKind,
    pub name: String,
}

/// A line as a mathematical value.
pub struct LineView {
    pub depth: nat,
    pub kind: LineKind,
    pub name: Seq<char>,
}

impl View for Line {
    type V = LineView;

    open spec fn view(&self) -> LineView {
        LineView { depth: self.depth as nat, kind: self.kind, name: self.name@ }
    }
}

/// `n` spaces.
pub open spec fn spaces(n: nat) -> Seq<char> {
    Seq::new(n, |i: int| ' ')
}

/// The number of spaces that open a line: two for each level of its binary,
/// and two more for a reference.
pub open spec fn indent_of(line: LineView) -> nat {
    match line.kind {
        LineKind::Header => 2 * line.depth,
        LineKind::Duplicate => 2 * line.depth + 2,
        LineKind::NotFound => 2 * line.depth + 2,
    }
}

/// What follows the name on a line.
pub open spec fn suffix_of(kind: LineKind) -> Seq<char> {
    match kind {
        LineKind::Header => ":"@,
        LineKind::Duplicate => Seq::empty(),
        LineKind::NotFound => ": warning: not found"@,
    }
}

/// The text of a line.
pub open spec fn rendered(line: LineView) -> Seq<char> {
    spaces(indent_of(line)) + line.name + suffix_of(line.kind)
}

impl Line {
    /// The text of the line, without a line break.
    pub fn render(&self) -> (r: String)
        ensures
            r@ == rendered(self@),
    {
        let mut out = String::new();
        let mut i: usize = 0;
        assert(out@ =~= spaces(0));
        while i < self.depth
            invariant
                i <= self.depth,
                out@ == spaces(2 * (i as nat)),
            decreases self.depth - i,
        {
            proof {
                reveal_strlit("  ");
                assert(spaces(2 * (i as nat)) + "  "@ =~= spaces(2 * ((i + 1) as nat)));
            }
            out.append("  ");
            i += 1;
        }
        match self.kind {
            LineKind::Header => {
                out.append(self.name.as_str());
                out.append(":");
            },
            LineKind::Duplicate => {
                proof {
                    reveal_strlit("  ");
                    assert(spaces(2 * (i as nat)) + "  "@ =~= spaces(2 * (i as nat) + 2));
                }
                out.append("  ");
                out.append(self.name.as_str());
                assert(out@ =~= rendered(self@));
            },
            LineKind::NotFound => {
                proof {
                    reveal_strlit("  ");
                    assert(spaces(2 * (i as nat)) + "  "@ =~= spaces(2 * (i as nat) + 2));
                }
                out.append("  ");
                out.append(self.name.as_str());
                out.append(": warning: not found");
            },
        }
        out
    }
}

} // verus!
