//! The raster image buffer and its plain-text rendering.
//!
//! `PPM` is a flat row-major grid of `RGBTriplet` pixels.  `to_string`
//! renders the classic textual format — a `P3` header, the dimensions, the
//! channel ceiling, then one pixel per line — and its contract gives the
//! rendered character sequence exactly, down to each decimal digit.

use crate::num::{div_floor_i64, SCALE};
use crate::vector3::Vector3;
use vstd::arithmetic::div_mod::lemma_div_decreases;
use vstd::pervasive::VecAdditionalExecFns;
use vstd::prelude::*;
use vstd::string::StringExecFns;

verus! {

#[derive(Clone, Copy, PartialEq, Eq, Structural, Debug)]
pub struct RGBTriplet {
    pub r: u8,
    pub g: u8,
    pub b: u8,
}

/// A channel value clamped into a byte.
pub open spec fn spec_channel_byte(v: int) -> int {
    if v < 0 {
        0
    } else if v > 255 {
        255
    } else {
        v
    }
}

/// What `from_vector3` makes of one raw component: world value, clamped.
pub open spec fn spec_from_channel(v: int) -> int {
    spec_channel_byte(v / SCALE as int)
}

/// The decimal digit `d` as a character.
pub open spec fn dec_digit(d: int) -> char {
    if d == 0 {
        '0'
    } else if d == 1 {
        '1'
    } else if d == 2 {
        '2'
    } else if d == 3 {
        '3'
    } else if d == 4 {
        '4'
    } else if d == 5 {
        '5'
    } else if d == 6 {
        '6'
    } else if d == 7 {
        '7'
    } else if d == 8 {
        '8'
    } else {
        '9'
    }
}

/// The usual decimal rendering of `n`, most significant digit first.
pub open spec fn dec_str(n: nat) -> Seq<char>
    decreases n,
{
    if n < 10 {
        seq![dec_digit(n as int)]
    } else {
        dec_str(n / 10).push(dec_digit((n % 10) as int))
    }
}

/// One pixel's line body: the three channels, space-separated.
pub open spec fn triplet_str(p: RGBTriplet) -> Seq<char> {
    dec_str(p.r as nat) + seq![' '] + dec_str(p.g as nat) + seq![' '] + dec_str(p.b as nat)
}

/// The pixel block: each pixel's line, newline-terminated, in order.
pub open spec fn pixels_str(ps: Seq<RGBTriplet>) -> Seq<char>
    decreases ps.len(),
{
    if ps.len() == 0 {
        Seq::empty()
    } else {
        pixels_str(ps.drop_last()) + triplet_str(ps.last()) + seq!['\n']
    }
}

/// The whole file: `P3`, dimensions, the 255 ceiling, the pixel block.
pub open spec fn ppm_str(columns: nat, rows: nat, ps: Seq<RGBTriplet>) -> Seq<char> {
    seq!['P', '3', '\n'] + dec_str(columns) + seq![' '] + dec_str(rows) + seq!['\n', '2', '5', '5', '\n']
        + pixels_str(ps)
}

impl RGBTriplet {
    pub fn new(r: u8, g: u8, b: u8) -> (c: Self)
        ensures
            c == (RGBTriplet { r, g, b }),
    {
        Self { r, g, b }
    }

    /// Read a raw color vector down to bytes: each component becomes its
    /// whole-unit part, clamped into 0–255.
    pub fn from_vector3(vector: Vector3) -> (c: Self)
        ensures
            c.r == spec_from_channel(vector.x as int),
            c.g == spec_from_channel(vector.y as int),
            c.b == spec_from_channel(vector.z as int),
    {
        Self {
            r: Self::channel_byte(vector.x),
            g: Self::channel_byte(vector.y),
            b: Self::channel_byte(vector.z),
        }
    }

    fn channel_byte(v: i64) -> (c: u8)
        ensures
            c == spec_from_channel(v as int),
    {
        let w = div_floor_i64(v, SCALE);
        if w < 0 {
            0
        } else if w > 255 {
            255
        } else {
            w as u8
        }
    }

    /// The pixel's textual form: `r g b`.
    pub fn to_string(&self) -> (s: String)
        ensures
            s@ == triplet_str(*self),
    {
        let mut s = String::new();
        push_u64(&mut s, self.r as u64);
        push_space(&mut s);
        push_u64(&mut s, self.g as u64);
        push_space(&mut s);
        push_u64(&mut s, self.b as u64);
        s
    }
}

impl Default for RGBTriplet {
    /// The blank pixel: white.
    fn default() -> (c: Self)
        ensures
            c == (RGBTriplet { r: 255, g: 255, b: 255 }),
    {
        Self { r: 255, g: 255, b: 255 }
    }
}

/// Append one decimal digit.
fn push_digit(s: &mut String, d: u64)
    requires
        d < 10,
    ensures
        final(s)@ == old(s)@ + seq![dec_digit(d as int)],
{
    proof {
        reveal_strlit("0");
        reveal_strlit("1");
        reveal_strlit("2");
        reveal_strlit("3");
        reveal_strlit("4");
        reveal_strlit("5");
        reveal_strlit("6");
        reveal_strlit("7");
        reveal_strlit("8");
        reveal_strlit("9");
    }
    if d == 0 {
        s.append("0");
    } else if d == 1 {
        s.append("1");
    } else if d == 2 {
        s.append("2");
    } else if d == 3 {
        s.append("3");
    } else if d == 4 {
        s.append("4");
    } else if d == 5 {
        s.append("5");
    } else if d == 6 {
        s.append("6");
    } else if d == 7 {
        s.append("7");
    } else if d == 8 {
        s.append("8");
    } else {
        s.append("9");
    }
    proof {
        assert(final(s)@ =~= old(s)@ + seq![dec_digit(d as int)]);
    }
}

/// Append one space.
fn push_space(s: &mut String)
    ensures
        final(s)@ == old(s)@ + seq![' '],
{
    proof {
        reveal_strlit(" ");
    }
    s.append(" ");
    proof {
        assert(final(s)@ =~= old(s)@ + seq![' ']);
    }
}

/// Append one newline.
fn push_newline(s: &mut String)
    ensures
        final(s)@ == old(s)@ + seq!['\n'],
{
    proof {
        reveal_strlit("\n");
    }
    s.append("\n");
    proof {
        assert(final(s)@ =~= old(s)@ + seq!['\n']);
    }
}

/// Append the decimal rendering of `n`.
fn push_u64(s: &mut String, n: u64)
    ensures
        final(s)@ == old(s)@ + dec_str(n as nat),
    decreases n,
{
    if n < 10 {
        push_digit(s, n);
    } else {
        proof {
            lemma_div_decreases(n as int, 10);
        }
        push_u64(s, n / 10);
        push_digit(s, n % 10);
        proof {
            assert(final(s)@ =~= old(s)@ + dec_str(n as nat));
        }
    }
}

pub struct PPM {
    pub columns: usize,
    pub rows: usize,
    pub pixels: Vec<RGBTriplet>,
}

impl PPM {
    pub open spec fn spec_columns(self) -> int {
        self.columns as int
    }

    pub open spec fn spec_rows(self) -> int {
        self.rows as int
    }

    /// The pixel store covers the full grid.
    pub open spec fn wf(self) -> bool {
        self.pixels@.len() == self.spec_columns() * self.spec_rows()
    }

    /// A blank (white) image of the given dimensions.
    pub fn new(columns: u64, rows: u64) -> (p: Self)
        requires
            columns * rows <= usize::MAX,
            columns <= usize::MAX,
            rows <= usize::MAX,
        ensures
            p.spec_columns() == columns,
            p.spec_rows() == rows,
            p.wf(),
            p.pixels@.len() == columns * rows,
            forall|k: int|
                0 <= k < p.pixels@.len() ==> p.pixels@[k] == (RGBTriplet {
                    r: 255,
                    g: 255,
                    b: 255,
                }),
    {
        let c = columns as usize;
        let rw = rows as usize;
        let total = c * rw;
        let mut pixels: Vec<RGBTriplet> = Vec::new();
        let mut i: usize = 0;
        while i < total
            invariant
                i <= total,
                pixels@.len() == i,
                forall|k: int|
                    0 <= k < i ==> pixels@[k] == (RGBTriplet { r: 255, g: 255, b: 255 }),
            decreases total - i,
        {
            pixels.push(RGBTriplet::default());
            i += 1;
        }
        Self { columns: c, rows: rw, pixels }
    }

    /// Write one pixel; the grid's shape is untouched and the new value is
    /// handed back.
    pub fn set(&mut self, column: u64, row: u64, new: RGBTriplet) -> (c: RGBTriplet)
        requires
            old(self).wf(),
            column < old(self).spec_columns(),
            row < old(self).spec_rows(),
        ensures
            c == new,
            final(self).spec_columns() == old(self).spec_columns(),
            final(self).spec_rows() == old(self).spec_rows(),
            final(self).wf(),
            final(self).pixels@ == old(self).pixels@.update(
                old(self).spec_columns() * row + column,
                new,
            ),
    {
        let n = self.pixels.len();
        proof {
            lemma_grid_index_in_range(
                self.columns as int,
                self.rows as int,
                column as int,
                row as int,
            );
            assert(self.columns * (row as int) + column < n);
        }
        let idx = self.columns * (row as usize) + (column as usize);
        self.pixels.set(idx, new);
        new
    }

    /// Read the pixel the flat index `columns * row + column` names, if it
    /// is on the grid; as in the flat store itself, a column past the row's
    /// end wraps into the following rows.
    pub fn get(&self, column: usize, row: usize) -> (r: Option<&RGBTriplet>)
        ensures
            match r {
                Some(p) => self.spec_columns() * row + column < self.pixels@.len() && *p
                    == self.pixels@[self.spec_columns() * row + column],
                None => self.spec_columns() * row + column >= self.pixels@.len(),
            },
    {
        proof {
            crate::vector3::lemma_prod_bound(
                self.columns as int,
                row as int,
                u64::MAX as int,
                u64::MAX as int,
            );
        }
        let idx128 = (self.columns as u128) * (row as u128) + (column as u128);
        if idx128 < self.pixels.len() as u128 {
            let idx = self.columns * row + column;
            Some(&self.pixels[idx])
        } else {
            None
        }
    }

    /// Render the whole image in its textual form.
    pub fn to_string(&self) -> (s: String)
        ensures
            s@ == ppm_str(self.spec_columns() as nat, self.spec_rows() as nat, self.pixels@),
    {
        let ghost pixels = self.pixels@;
        let mut s = String::new();
        proof {
            reveal_strlit("P3\n");
            reveal_strlit("\n255\n");
        }
        s.append("P3\n");
        proof {
            assert(s@ =~= seq!['P', '3', '\n']);
        }
        push_u64(&mut s, self.columns as u64);
        push_space(&mut s);
        push_u64(&mut s, self.rows as u64);
        s.append("\n255\n");
        let ghost header = s@;
        proof {
            assert(header =~= seq!['P', '3', '\n'] + dec_str(self.spec_columns() as nat)
                + seq![' '] + dec_str(self.spec_rows() as nat) + seq!['\n', '2', '5', '5', '\n']);
            assert(pixels.take(0) =~= Seq::<RGBTriplet>::empty());
            assert(s@ =~= header + pixels_str(pixels.take(0)));
        }
        let n = self.pixels.len();
        let mut i: usize = 0;
        while i < n
            invariant
                i <= n,
                n == pixels.len(),
                pixels == self.pixels@,
                s@ == header + pixels_str(pixels.take(i as int)),
            decreases n - i,
        {
            let line = self.pixels[i].to_string();
            s.append(line.as_str());
            push_newline(&mut s);
            proof {
                assert(pixels.take(i + 1 as int).drop_last() =~= pixels.take(i as int));
                assert(pixels.take(i + 1 as int).last() == pixels[i as int]);
                assert(s@ =~= header + pixels_str(pixels.take(i + 1 as int)));
            }
            i += 1;
        }
        proof {
            assert(pixels.take(n as int) =~= pixels);
        }
        s
    }
}

/// A coordinate pair inside the grid names a store slot inside the flat
/// pixel vector.
proof fn lemma_grid_index_in_range(columns: int, rows: int, column: int, row: int)
    requires
        0 <= column < columns,
        0 <= row < rows,
    ensures
        0 <= columns * row,
        columns * row + column < columns * rows,
{
    assert(columns * row + column < columns * rows) by (nonlinear_arith)
        requires
            0 <= column < columns,
            0 <= row < rows,
    ;
    assert(columns * row >= 0) by (nonlinear_arith)
        requires
            columns >= 0,
            row >= 0,
    ;
}

} // verus!
