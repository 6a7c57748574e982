use vstd::prelude::*;
use vstd::string::StringExecFns;
use crate::digit::{Cell, Digit, NB_DIGIT, BLOCK_SIDE, digit_char};
use crate::grid::Grid;

verus! {

/// The pieces in order, with `sep` between two neighbours.
pub open spec fn join_spec(parts: Seq<Seq<char>>, sep: Seq<char>) -> Seq<char>
    decreases parts.len(),
{
    if parts.len() == 0 {
        Seq::empty()
    } else if parts.len() == 1 {
        parts[0]
    } else {
        join_spec(parts.drop_last(), sep) + sep + parts.last()
    }
}

pub open spec fn strings_view(v: Seq<String>) -> Seq<Seq<char>> {
    v.map_values(|s: String| s@)
}

/// Relies on itertools::Itertools::join: the items written one after the
/// other, with `sep` between two neighbours, and the empty string for none.
#[verifier::external_body]
fn join_strings(parts: &Vec<String>, sep: &str) -> (r: String)
    ensures
        r@ == join_spec(strings_view(parts@), sep@),
{
    itertools::Itertools::join(&mut parts.iter(), sep)
}

/// The glyph of a cell: its digit, or a dot when empty.
pub open spec fn cell_char(c: Cell) -> char {
    match c {
        None => '.',
        Some(d) => digit_char(d),
    }
}

/// The horizontal run of a border across one block.
pub open spec fn dashes() -> Seq<char> {
    Seq::new(BLOCK_SIDE as nat, |i: int| '─')
}

/// A border line: a left end, a run per block with `mid` between two runs,
/// a right end.
pub open spec fn border_line(left: char, mid: char, right: char) -> Seq<char> {
    seq![left] + join_spec(Seq::new(BLOCK_SIDE as nat, |b: int| dashes()), seq![mid]) + seq![right, '\n']
}

/// The glyphs of row `line` that fall in the `bx`-th block.
pub open spec fn segment(g: Seq<Cell>, line: int, bx: int) -> Seq<char> {
    Seq::new(BLOCK_SIDE as nat, |cx: int| cell_char(g[line * NB_DIGIT + bx * BLOCK_SIDE + cx]))
}

/// Row `line` of the diagram: the glyphs of each block between bars.
pub open spec fn number_line(g: Seq<Cell>, line: int) -> Seq<char> {
    seq!['│'] + join_spec(Seq::new(BLOCK_SIDE as nat, |bx: int| segment(g, line, bx)), seq!['│'])
        + seq!['│', '\n']
}

/// The rows of the `by`-th band of blocks.
pub open spec fn band(g: Seq<Cell>, by: int) -> Seq<char> {
    join_spec(Seq::new(BLOCK_SIDE as nat, |l: int| number_line(g, by * BLOCK_SIDE + l)), Seq::empty())
}

/// The bordered diagram of a grid, with a separator line between two bands.
pub open spec fn render(g: Seq<Cell>) -> Seq<char> {
    border_line('┌', '┬', '┐') + join_spec(
        Seq::new(BLOCK_SIDE as nat, |by: int| band(g, by)),
        border_line('├', '┼', '┤'),
    ) + border_line('└', '┴', '┘')
}

proof fn lemma_strings_push(v: Seq<String>, s: String)
    ensures
        strings_view(v.push(s)) == strings_view(v).push(s@),
{
    assert(strings_view(v.push(s)) =~= strings_view(v).push(s@));
}

fn cell_str(c: Cell) -> (r: &'static str)
    ensures
        r@ == seq![cell_char(c)],
{
    match c {
        None => {
            proof { reveal_strlit("."); }
            "."
        },
        Some(Digit::One) => {
            proof { reveal_strlit("1"); }
            "1"
        },
        Some(Digit::Two) => {
            proof { reveal_strlit("2"); }
            "2"
        },
        Some(Digit::Three) => {
            proof { reveal_strlit("3"); }
            "3"
        },
        Some(Digit::Four) => {
            proof { reveal_strlit("4"); }
            "4"
        },
    }
}

fn border(left: &str, mid: &str, right: &str) -> (r: String)
    requires
        left@.len() == 1,
        mid@.len() == 1,
        right@.len() == 1,
    ensures
        r@ == border_line(left@[0], mid@[0], right@[0]),
{
    let mut parts: Vec<String> = Vec::new();
    let mut b: usize = 0;
    while b < BLOCK_SIDE
        invariant
            b <= BLOCK_SIDE,
            strings_view(parts@) =~= Seq::new(b as nat, |i: int| dashes()),
        decreases BLOCK_SIDE - b,
    {
        let mut run = String::new();
        let mut x: usize = 0;
        while x < BLOCK_SIDE
            invariant
                x <= BLOCK_SIDE,
                run@ =~= Seq::new(x as nat, |i: int| '─'),
            decreases BLOCK_SIDE - x,
        {
            proof { reveal_strlit("─"); }
            run.append("─");
            x = x + 1;
        }
        proof {
            lemma_strings_push(parts@, run);
        }
        parts.push(run);
        b = b + 1;
    }
    let mut r = String::from_str(left);
    let body = join_strings(&parts, mid);
    r.append(body.as_str());
    r.append(right);
    proof { reveal_strlit("\n"); }
    r.append("\n");
    assert(left@ =~= seq![left@[0]]);
    assert(mid@ =~= seq![mid@[0]]);
    assert(right@ =~= seq![right@[0]]);
    assert(r@ =~= border_line(left@[0], mid@[0], right@[0]));
    r
}

impl Grid {
    fn number_line(&self, line: usize) -> (r: String)
        requires
            line < NB_DIGIT,
        ensures
            r@ == number_line(self@, line as int),
    {
        let mut parts: Vec<String> = Vec::new();
        let mut bx: usize = 0;
        while bx < BLOCK_SIDE
            invariant
                line < NB_DIGIT,
                bx <= BLOCK_SIDE,
                strings_view(parts@) =~= Seq::new(bx as nat, |b: int| segment(self@, line as int, b)),
            decreases BLOCK_SIDE - bx,
        {
            let mut seg = String::new();
            let mut cx: usize = 0;
            while cx < BLOCK_SIDE
                invariant
                    line < NB_DIGIT,
                    bx < BLOCK_SIDE,
                    cx <= BLOCK_SIDE,
                    seg@ =~= segment(self@, line as int, bx as int).subrange(0, cx as int),
                decreases BLOCK_SIDE - cx,
            {
                let c = self.data[line * NB_DIGIT + bx * BLOCK_SIDE + cx];
                seg.append(cell_str(c));
                cx = cx + 1;
            }
            assert(seg@ =~= segment(self@, line as int, bx as int));
            proof {
                lemma_strings_push(parts@, seg);
            }
            parts.push(seg);
            bx = bx + 1;
        }
        proof { reveal_strlit("│"); }
        let mut r = String::from_str("│");
        let body = join_strings(&parts, "│");
        r.append(body.as_str());
        r.append("│");
        proof { reveal_strlit("\n"); }
        r.append("\n");
        assert(strings_view(parts@) =~= Seq::new(BLOCK_SIDE as nat, |b: int| segment(self@, line as int, b)));
        assert("│"@ =~= seq!['│']);
        assert("\n"@ =~= seq!['\n']);
        assert(r@ =~= number_line(self@, line as int));
        r
    }

    /// The bordered diagram of the grid, one text line per row of cells.
    pub fn to_string(&self) -> (r: String)
        ensures
            r@ == render(self@),
    {
        proof {
            reveal_strlit("┌");
            reveal_strlit("┬");
            reveal_strlit("┐");
            reveal_strlit("├");
            reveal_strlit("┼");
            reveal_strlit("┤");
            reveal_strlit("└");
            reveal_strlit("┴");
            reveal_strlit("┘");
            reveal_strlit("");
        }
        let mut r = border("┌", "┬", "┐");
        let separator = border("├", "┼", "┤");
        let mut bands: Vec<String> = Vec::new();
        let mut by: usize = 0;
        while by < BLOCK_SIDE
            invariant
                by <= BLOCK_SIDE,
                strings_view(bands@) =~= Seq::new(by as nat, |b: int| band(self@, b)),
            decreases BLOCK_SIDE - by,
        {
            let mut lines: Vec<String> = Vec::new();
            let mut l: usize = 0;
            while l < BLOCK_SIDE
                invariant
                    by < BLOCK_SIDE,
                    l <= BLOCK_SIDE,
                    strings_view(lines@) =~= Seq::new(l as nat, |i: int| number_line(self@, by * BLOCK_SIDE + i)),
                decreases BLOCK_SIDE - l,
            {
                let one = self.number_line(by * BLOCK_SIDE + l);
                proof {
                    lemma_strings_push(lines@, one);
                }
                lines.push(one);
                l = l + 1;
            }
            proof { reveal_strlit(""); }
            let one = join_strings(&lines, "");
            proof {
                lemma_strings_push(bands@, one);
                assert(""@ =~= Seq::<char>::empty());
                assert(strings_view(lines@) =~= Seq::new(BLOCK_SIDE as nat, |i: int| number_line(self@, by * BLOCK_SIDE + i)));
            }
            bands.push(one);
            by = by + 1;
        }
        let body = join_strings(&bands, separator.as_str());
        r.append(body.as_str());
        let bottom = border("└", "┴", "┘");
        r.append(bottom.as_str());
        assert(strings_view(bands@) =~= Seq::new(BLOCK_SIDE as nat, |b: int| band(self@, b)));
        assert(r@ =~= render(self@));
        r
    }
}

} // verus!
