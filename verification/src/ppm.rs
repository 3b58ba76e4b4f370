//! The plain-text pixel image format: an 8-bit RGB pixel, a row-major
//! pixel buffer, and their serialization to the textual document
//! (magic token, dimensions, maximum channel value, one line per pixel).
use vstd::prelude::*;
use vstd::string::StringExecFns;

verus! {

/// One pixel of the image: three 8-bit channels, red, green, blue.
#[derive(Debug, Clone, Copy, PartialEq, Eq, Structural)]
pub struct P3 {
    pub r: u8,
    pub g: u8,
    pub b: u8,
}

/// The character standing for the decimal digit `d`.
pub open spec fn digit_char(d: nat) -> char {
    if d == 0 {
        '0'
    } else if d == 1 {
        '1'
    } else if d == 2 {
        '2'
    } else if d == 3 {
        '3'
    } else if d == 4 {
        '4'
    } else if d == 5 {
        '5'
    } else if d == 6 {
        '6'
    } else if d == 7 {
        '7'
    } else if d == 8 {
        '8'
    } else {
        '9'
    }
}

/// The decimal numeral of `n`: most significant digit first, no sign,
/// no leading zeros (`0` itself is the single character `'0'`).
pub open spec fn dec_rep(n: nat) -> Seq<char>
    decreases n,
{
    if n < 10 {
        seq![digit_char(n)]
    } else {
        dec_rep(n / 10) + seq![digit_char(n % 10)]
    }
}

/// The text of one pixel: the three channels as decimal numerals,
/// separated by single spaces, with no newline.
pub open spec fn pixel_text(p: P3) -> Seq<char> {
    dec_rep(p.r as nat) + " "@ + dec_rep(p.g as nat) + " "@ + dec_rep(p.b as nat)
}

impl P3 {
    pub fn new(r: u8, g: u8, b: u8) -> (p: Self)
        ensures
            p.r == r,
            p.g == g,
            p.b == b,
    {
        Self { r, g, b }
    }

    /// Serializes this pixel as its line of the document body,
    /// without the terminating newline.
    pub fn output(&self) -> (s: String)
        ensures
            s@ == pixel_text(*self),
    {
        let mut s = String::new();
        push_decimal(&mut s, self.r as u64);
        s.append(" ");
        push_decimal(&mut s, self.g as u64);
        s.append(" ");
        push_decimal(&mut s, self.b as u64);
        proof {
            assert(s@ =~= pixel_text(*self));
        }
        s
    }
}

impl Default for P3 {
    /// The default pixel is black: all three channels zero.
    fn default() -> (p: Self)
        ensures
            p.r == 0,
            p.g == 0,
            p.b == 0,
    {
        Self { r: 0, g: 0, b: 0 }
    }
}

/// Appends the single decimal digit `d` to `out`.
fn push_digit(out: &mut String, d: u64)
    requires
        d < 10,
    ensures
        final(out)@ == old(out)@ + seq![digit_char(d as nat)],
{
    if d == 0 {
        proof {
            reveal_strlit("0");
            assert("0"@ =~= seq![digit_char(0)]);
        }
        out.append("0");
    } else if d == 1 {
        proof {
            reveal_strlit("1");
            assert("1"@ =~= seq![digit_char(1)]);
        }
        out.append("1");
    } else if d == 2 {
        proof {
            reveal_strlit("2");
            assert("2"@ =~= seq![digit_char(2)]);
        }
        out.append("2");
    } else if d == 3 {
        proof {
            reveal_strlit("3");
            assert("3"@ =~= seq![digit_char(3)]);
        }
        out.append("3");
    } else if d == 4 {
        proof {
            reveal_strlit("4");
            assert("4"@ =~= seq![digit_char(4)]);
        }
        out.append("4");
    } else if d == 5 {
        proof {
            reveal_strlit("5");
            assert("5"@ =~= seq![digit_char(5)]);
        }
        out.append("5");
    } else if d == 6 {
        proof {
            reveal_strlit("6");
            assert("6"@ =~= seq![digit_char(6)]);
        }
        out.append("6");
    } else if d == 7 {
        proof {
            reveal_strlit("7");
            assert("7"@ =~= seq![digit_char(7)]);
        }
        out.append("7");
    } else if d == 8 {
        proof {
            reveal_strlit("8");
            assert("8"@ =~= seq![digit_char(8)]);
        }
        out.append("8");
    } else {
        proof {
            reveal_strlit("9");
            assert("9"@ =~= seq![digit_char(9)]);
        }
        out.append("9");
    }
}

/// Appends the decimal numeral of `n` to `out`.
fn push_decimal(out: &mut String, n: u64)
    ensures
        final(out)@ == old(out)@ + dec_rep(n as nat),
    decreases n,
{
    if n >= 10 {
        push_decimal(out, n / 10);
    }
    push_digit(out, n % 10);
    proof {
        if n >= 10 {
            assert(out@ =~= old(out)@ + dec_rep(n as nat));
        }
    }
}

/// The body of the document: one line per pixel, in storage order,
/// each line newline-terminated.
pub open spec fn pixel_lines(ps: Seq<P3>) -> Seq<char>
    decreases ps.len(),
{
    if ps.len() == 0 {
        Seq::empty()
    } else {
        pixel_text(ps[0]) + "\n"@ + pixel_lines(ps.drop_first())
    }
}

/// The whole document: the magic token, the dimensions, the maximum
/// channel value, then the pixels, one line each, in row-major order.
pub open spec fn document(width: nat, height: nat, ps: Seq<P3>) -> Seq<char> {
    "P3\n"@ + dec_rep(width) + " "@ + dec_rep(height) + "\n255\n"@ + pixel_lines(ps)
}

/// Serializing one more pixel appends its line to the body.
proof fn lemma_pixel_lines_push(ps: Seq<P3>, p: P3)
    ensures
        pixel_lines(ps.push(p)) == pixel_lines(ps) + pixel_text(p) + "\n"@,
    decreases ps.len(),
{
    if ps.len() == 0 {
        assert(ps.push(p).drop_first() =~= Seq::<P3>::empty());
        assert(ps =~= Seq::<P3>::empty());
        assert(pixel_lines(Seq::<P3>::empty()) == Seq::<char>::empty());
        assert(ps.push(p)[0] == p);
        assert(pixel_lines(ps.push(p)) == pixel_text(p) + "\n"@ + Seq::<char>::empty());
        assert(pixel_lines(ps.push(p)) =~= pixel_lines(ps) + pixel_text(p) + "\n"@);
    } else {
        assert(ps.push(p).drop_first() =~= ps.drop_first().push(p));
        assert(ps.push(p)[0] == ps[0]);
        lemma_pixel_lines_push(ps.drop_first(), p);
        assert(pixel_lines(ps.push(p)) == pixel_text(ps[0]) + "\n"@ + (pixel_lines(ps.drop_first())
            + pixel_text(p) + "\n"@));
        assert(pixel_text(ps[0]) + "\n"@ + (pixel_lines(ps.drop_first()) + pixel_text(p) + "\n"@)
            =~= pixel_lines(ps) + pixel_text(p) + "\n"@);
    }
}

/// A row-major grid of pixels with fixed dimensions. The backing
/// storage always holds exactly `width * height` pixels: row 0 first,
/// each row left to right.
#[derive(Debug)]
pub struct Ppm {
    data: Vec<P3>,
    width: usize,
    height: usize,
}

impl View for Ppm {
    type V = Seq<P3>;

    /// The pixels in storage (row-major) order.
    closed spec fn view(&self) -> Seq<P3> {
        self.data@
    }
}

impl Ppm {
    #[verifier::type_invariant]
    spec fn wf(&self) -> bool {
        self.data@.len() == self.width as nat * self.height as nat
    }

    /// The number of pixel columns.
    pub closed spec fn spec_width(&self) -> usize {
        self.width
    }

    /// The number of pixel rows.
    pub closed spec fn spec_height(&self) -> usize {
        self.height
    }

    /// Allocates a `width * height` buffer with every pixel black.
    pub fn new(width: usize, height: usize) -> (buf: Self)
        requires
            width * height <= usize::MAX,
        ensures
            buf.spec_width() == width,
            buf.spec_height() == height,
            buf@.len() == width * height,
            forall|i: int| 0 <= i < buf@.len() ==> buf@[i] == (P3 { r: 0, g: 0, b: 0 }),
    {
        let n = width * height;
        let mut data: Vec<P3> = Vec::new();
        let mut i: usize = 0;
        while i < n
            invariant
                i <= n,
                data@.len() == i,
                forall|j: int| 0 <= j < i ==> data@[j] == (P3 { r: 0, g: 0, b: 0 }),
            decreases n - i,
        {
            data.push(P3::new(0, 0, 0));
            i = i + 1;
        }
        Self { data, width, height }
    }

    /// The number of pixel columns.
    pub fn width(&self) -> (w: usize)
        ensures
            w == self.spec_width(),
    {
        self.width
    }

    /// The number of pixel rows.
    pub fn height(&self) -> (h: usize)
        ensures
            h == self.spec_height(),
    {
        self.height
    }

    /// The number of pixels held, always the product of the dimensions.
    pub fn len(&self) -> (n: usize)
        ensures
            n == self@.len(),
            n == self.spec_width() * self.spec_height(),
    {
        proof {
            use_type_invariant(&*self);
        }
        self.data.len()
    }

    /// Whether the buffer holds no pixel at all.
    pub fn is_empty(&self) -> (e: bool)
        ensures
            e == (self@.len() == 0),
    {
        self.data.len() == 0
    }

    /// Copies the buffer out as its rows, in storage order: `height`
    /// rows of `width` pixels each, row `i` being the `i`-th contiguous
    /// chunk of the backing storage.
    pub fn rows(&self) -> (rows: Vec<Vec<P3>>)
        ensures
            rows@.len() == self.spec_height(),
            forall|i: int|
                0 <= i < rows@.len() ==> #[trigger] rows@[i]@ == self@.subrange(
                    i * self.spec_width(),
                    (i + 1) * self.spec_width(),
                ),
            forall|i: int| 0 <= i < rows@.len() ==> #[trigger] rows@[i]@.len() == self.spec_width(),
    {
        proof {
            use_type_invariant(&*self);
        }
        let ghost w = self.width as int;
        let n = self.data.len();
        let mut rows: Vec<Vec<P3>> = Vec::new();
        let mut i: usize = 0;
        while i < self.height
            invariant
                self.wf(),
                n == self.data@.len(),
                w == self.width as int,
                i <= self.height,
                rows@.len() == i,
                forall|k: int|
                    0 <= k < i ==> #[trigger] rows@[k]@ == self.data@.subrange(k * w, (k + 1) * w),
            decreases self.height - i,
        {
            let mut row: Vec<P3> = Vec::new();
            let mut j: usize = 0;
            proof {
                assert((i + 1) * w <= self.width as int * self.height as int) by (nonlinear_arith)
                    requires
                        i < self.height,
                        w == self.width as int,
                        w >= 0,
                ;
                assert(i * w + w == (i + 1) * w) by (nonlinear_arith);
            }
            while j < self.width
                invariant
                    self.wf(),
                    n == self.data@.len(),
                    i < self.height,
                    j <= self.width,
                    w == self.width as int,
                    (i + 1) * w <= self.data@.len(),
                    i * w + w == (i + 1) * w,
                    row@.len() == j,
                    forall|m: int| 0 <= m < j ==> #[trigger] row@[m] == self.data@[i * w + m],
                decreases self.width - j,
            {
                proof {
                    assert(i * w + j < (i + 1) * w);
                }
                let idx = i * self.width + j;
                row.push(self.data[idx]);
                j = j + 1;
            }
            proof {
                assert(row@ =~= self.data@.subrange(i * w, (i + 1) * w));
            }
            rows.push(row);
            i = i + 1;
        }
        proof {
            assert forall|i: int| 0 <= i < rows@.len() implies #[trigger] rows@[i]@.len()
                == self.spec_width() by {
                assert(rows@[i]@ == self.data@.subrange(i * w, (i + 1) * w));
                assert((i + 1) * w <= self.width as int * self.height as int) by (nonlinear_arith)
                    requires
                        i < self.spec_height(),
                        w == self.spec_width() as int,
                        w >= 0,
                ;
                assert((i + 1) * w - i * w == w) by (nonlinear_arith);
                assert(i * w >= 0) by (nonlinear_arith)
                    requires
                        i >= 0,
                        w >= 0,
                ;
            }
        }
        rows
    }

    /// Writes rows back into the buffer: the mutating counterpart of
    /// `rows`. A caller copies the rows out with `rows`, edits them, and
    /// hands them back here; row `i` replaces the `i`-th contiguous
    /// chunk of the backing storage. Taking the rows as a whole keeps at
    /// most one mutable traversal live at a time.
    pub fn rows_mut(&mut self, rows: Vec<Vec<P3>>)
        requires
            rows@.len() == old(self).spec_height(),
            forall|i: int| 0 <= i < rows@.len() ==> #[trigger] rows@[i]@.len() == old(
                self,
            ).spec_width(),
        ensures
            final(self).spec_width() == old(self).spec_width(),
            final(self).spec_height() == old(self).spec_height(),
            final(self)@.len() == old(self)@.len(),
            forall|i: int|
                0 <= i < rows@.len() ==> #[trigger] rows@[i]@ == final(self)@.subrange(
                    i * old(self).spec_width(),
                    (i + 1) * old(self).spec_width(),
                ),
    {
        proof {
            use_type_invariant(&*self);
        }
        let ghost w = self.width as int;
        let mut data: Vec<P3> = Vec::new();
        let mut i: usize = 0;
        while i < rows.len()
            invariant
                w == self.width as int,
                rows@.len() == self.height,
                forall|k: int| 0 <= k < rows@.len() ==> #[trigger] rows@[k]@.len() == w,
                i <= rows@.len(),
                data@.len() == i * w,
                forall|k: int|
                    0 <= k < i ==> #[trigger] rows@[k]@ == data@.subrange(k * w, (k + 1) * w),
            decreases rows@.len() - i,
        {
            let ghost data0 = data@;
            let row = &rows[i];
            let mut j: usize = 0;
            proof {
                assert(i * w + w == (i + 1) * w) by (nonlinear_arith);
                assert(i * w >= 0) by (nonlinear_arith)
                    requires
                        i >= 0,
                        w >= 0,
                ;
            }
            while j < row.len()
                invariant
                    w == self.width as int,
                    row@.len() == w,
                    j <= row@.len(),
                    0 <= i * w,
                    i * w + w == (i + 1) * w,
                    data@.len() == i * w + j,
                    data@.subrange(0, i * w) == data0.subrange(0, i * w),
                    data0.len() == i * w,
                    data@.subrange(i * w, i * w + j) == row@.take(j as int),
                decreases row@.len() - j,
            {
                data.push(row[j]);
                proof {
                    assert(data@.subrange(0, i * w) =~= data0.subrange(0, i * w));
                    assert(data@.subrange(i * w, i * w + j + 1) =~= row@.take(j as int).push(
                        row@[j as int],
                    ));
                    assert(row@.take(j + 1) =~= row@.take(j as int).push(row@[j as int]));
                }
                j = j + 1;
            }
            proof {
                assert(data@.subrange(i * w, (i + 1) * w) =~= row@);
                assert(data0 =~= data0.subrange(0, i * w));
                assert forall|k: int| 0 <= k < i implies #[trigger] rows@[k]@ == data@.subrange(
                    k * w,
                    (k + 1) * w,
                ) by {
                    assert(0 <= k * w && (k + 1) * w <= i * w && k * w + w == (k + 1) * w)
                        by (nonlinear_arith)
                        requires
                            0 <= k < i,
                            w >= 0,
                    ;
                    assert(data@.subrange(k * w, (k + 1) * w) =~= data0.subrange(
                        k * w,
                        (k + 1) * w,
                    ));
                }
            }
            i = i + 1;
        }
        proof {
            assert(rows@.len() * w == self.width as int * self.height as int)
                by (nonlinear_arith)
                requires
                    rows@.len() == self.spec_height(),
                    w == self.spec_width() as int,
            ;
        }
        let width = self.width;
        let height = self.height;
        *self = Self { data, width, height };
    }

    /// Serializes the buffer as the textual document: `P3`, the
    /// dimensions, the maximum channel value `255`, then one line per
    /// pixel in storage (row-major) order, every line newline-terminated.
    pub fn output(&self) -> (s: String)
        ensures
            s@ == document(self.spec_width() as nat, self.spec_height() as nat, self@),
    {
        let mut s = String::from_str("P3\n");
        push_decimal(&mut s, self.width as u64);
        s.append(" ");
        push_decimal(&mut s, self.height as u64);
        s.append("\n255\n");
        let ghost header = s@;
        let mut i: usize = 0;
        proof {
            assert(self.data@.take(0) =~= Seq::<P3>::empty());
        }
        while i < self.data.len()
            invariant
                i <= self.data@.len(),
                s@ == header + pixel_lines(self.data@.take(i as int)),
            decreases self.data@.len() - i,
        {
            let p = self.data[i];
            let line = p.output();
            s.append(line.as_str());
            s.append("\n");
            proof {
                lemma_pixel_lines_push(self.data@.take(i as int), p);
                assert(self.data@.take(i + 1) =~= self.data@.take(i as int).push(p));
                assert(s@ =~= header + pixel_lines(self.data@.take(i + 1)));
            }
            i = i + 1;
        }
        proof {
            assert(self.data@.take(self.data@.len() as int) =~= self.data@);
            assert(s@ =~= document(self.spec_width() as nat, self.spec_height() as nat, self@));
        }
        s
    }
}

} // verus!
