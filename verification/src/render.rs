//! Human-readable renderings of rectangles and of the partition tree, for
//! diagnostics: one line per node, two spaces of indentation per level.

use vstd::prelude::*;
use vstd::string::StringExecFns;

use crate::node::RectNode;
use crate::rect::Rectangle;

verus! {

/// The character for one decimal digit.
pub open spec fn spec_digit(d: int) -> char {
    if d == 0 {
        '0'
    } else if d == 1 {
        '1'
    } else if d == 2 {
        '2'
    } else if d == 3 {
        '3'
    } else if d == 4 {
        '4'
    } else if d == 5 {
        '5'
    } else if d == 6 {
        '6'
    } else if d == 7 {
        '7'
    } else if d == 8 {
        '8'
    } else {
        '9'
    }
}

/// The decimal digits of `n`, most significant first.
pub open spec fn spec_u32_dec(n: int) -> Seq<char>
    decreases n,
{
    if n < 10 {
        seq![spec_digit(n)]
    } else {
        spec_u32_dec(n / 10).push(spec_digit(n % 10))
    }
}

/// `(x, y, width, height)`.
pub open spec fn spec_rect_repr(r: Rectangle) -> Seq<char> {
    "("@ + spec_u32_dec(r.x as int) + ", "@ + spec_u32_dec(r.y as int) + ", "@ + spec_u32_dec(
        r.width as int,
    ) + ", "@ + spec_u32_dec(r.height as int) + ")"@
}

fn digit_str(d: u8) -> (r: &'static str)
    requires
        d < 10,
    ensures
        r@ == seq![spec_digit(d as int)],
{
    proof {
        reveal_strlit("0");
        reveal_strlit("1");
        reveal_strlit("2");
        reveal_strlit("3");
        reveal_strlit("4");
        reveal_strlit("5");
        reveal_strlit("6");
        reveal_strlit("7");
        reveal_strlit("8");
        reveal_strlit("9");
    }
    match d {
        0 => "0",
        1 => "1",
        2 => "2",
        3 => "3",
        4 => "4",
        5 => "5",
        6 => "6",
        7 => "7",
        8 => "8",
        _ => "9",
    }
}

/// Appends the decimal rendering of `n` to `out`.
fn push_u32_dec(out: &mut String, n: u32)
    ensures
        final(out)@ == old(out)@ + spec_u32_dec(n as int),
    decreases n,
{
    if n >= 10 {
        push_u32_dec(out, n / 10);
    }
    let d = digit_str((n % 10) as u8);
    out.append(d);
    proof {
        assert(final(out)@ =~= old(out)@ + spec_u32_dec(n as int));
    }
}

impl Rectangle {
    /// A human-readable rendering, `(x, y, width, height)`; for diagnostics
    /// only.
    pub fn repr(&self) -> (s: String)
        ensures
            s@ == spec_rect_repr(*self),
    {
        let mut out = String::new();
        Self::push_repr(&mut out, self);
        out
    }

    /// Appends the rendering of `r` to `out`.
    fn push_repr(out: &mut String, r: &Rectangle)
        ensures
            final(out)@ == old(out)@ + spec_rect_repr(*r),
    {
        out.append("(");
        push_u32_dec(out, r.x);
        out.append(", ");
        push_u32_dec(out, r.y);
        out.append(", ");
        push_u32_dec(out, r.width);
        out.append(", ");
        push_u32_dec(out, r.height);
        out.append(")");
        proof {
            assert(final(out)@ =~= old(out)@ + spec_rect_repr(*r));
        }
    }
}

impl RectNode {
    /// The rendering of the subtree at this node: its own line under the
    /// given padding — `-` for a branch, `*` for a leaf or a closed node —
    /// then, for a branch, the right subtree before the left, one indentation
    /// level deeper.
    pub open spec fn spec_repr(self, pad: Seq<char>) -> Seq<char>
        decreases self,
    {
        match self {
            RectNode::Closed => pad + " * Closed\n"@,
            RectNode::Branch { rect, left, right } => pad + " - "@ + spec_rect_repr(rect) + "\n"@
                + right.spec_repr(pad + "  "@) + left.spec_repr(pad + "  "@),
            RectNode::Leaf(r) => pad + " * "@ + spec_rect_repr(r) + "\n"@,
        }
    }

    /// Renders the string representation of the node tree, recursively; for
    /// diagnostics only.
    pub fn repr(&self) -> (s: String)
        ensures
            s@ == self.spec_repr(Seq::empty()),
    {
        let mut out = String::new();
        let pad = String::new();
        self.push_repr(&mut out, &pad);
        proof {
            assert(Seq::<char>::empty() + self.spec_repr(Seq::empty()) =~= self.spec_repr(
                Seq::empty(),
            ));
        }
        out
    }

    /// Appends the rendering of the subtree at this node to `out`, indented
    /// by `pad`.
    fn push_repr(&self, out: &mut String, pad: &String)
        ensures
            final(out)@ == old(out)@ + self.spec_repr(pad@),
        decreases *self,
    {
        match self {
            RectNode::Closed => {
                out.append(pad.as_str());
                out.append(" * Closed\n");
                proof {
                    assert(final(out)@ =~= old(out)@ + self.spec_repr(pad@));
                }
            },
            RectNode::Branch { rect, left, right } => {
                out.append(pad.as_str());
                out.append(" - ");
                Rectangle::push_repr(out, rect);
                out.append("\n");
                let mut child_pad = pad.clone();
                child_pad.append("  ");
                right.push_repr(out, &child_pad);
                left.push_repr(out, &child_pad);
                proof {
                    assert(final(out)@ =~= old(out)@ + self.spec_repr(pad@));
                }
            },
            RectNode::Leaf(r) => {
                out.append(pad.as_str());
                out.append(" * ");
                Rectangle::push_repr(out, r);
                out.append("\n");
                proof {
                    assert(final(out)@ =~= old(out)@ + self.spec_repr(pad@));
                }
            },
        }
    }
}

} // verus!
