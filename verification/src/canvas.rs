//! A fixed-size grid of colors. A coordinate pair (x, y) addresses column x
//! of row y; row 0 is the top row.

pub use crate::level::to_rgb;

use array2d::Array2D;
use crate::color::Color;
use crate::level::channel_level;
use crate::ppm::header_text;
use crate::ppm::image_text;
use crate::ppm::NEWLINE;
use crate::ppm::pixels_text;
use crate::ppm::push_header;
use crate::ppm::push_triple;
use crate::ppm::rows_text;
use crate::ppm::SPACE;
use vstd::prelude::*;

verus! {

/// `array2d::Array2D`, the grid that a canvas keeps its pixels in, carried
/// as a value that nothing here looks into.
#[verifier::external_type_specification]
#[verifier::external_body]
#[verifier::reject_recursive_types(T)]
pub struct ExArray2D<T>(Array2D<T>);

/// `array2d::Error`, what a write outside an array comes back with.
#[verifier::external_type_specification]
#[verifier::external_body]
pub struct ExArrayError(array2d::Error);

/// Size of one stored pixel in bytes.
pub const PIXEL_BYTES: usize = 24;

/// The rows of an array, top to bottom, each row left to right.
pub uninterp spec fn array_rows(a: Array2D<Color>) -> Seq<Seq<Color>>;

/// The number of columns an array was made with.
pub uninterp spec fn array_columns(a: Array2D<Color>) -> nat;

/// `Array2D::filled_with`: an array of the given shape with a copy of
/// `element` in every place. The product of the dimensions is computed in
/// `usize` and that many elements are allocated at once, so the whole must
/// stay within what one allocation may hold.
#[verifier::external_body]
fn array_filled_with(element: Color, num_rows: usize, num_columns: usize) -> (a: Array2D<Color>)
    requires
        num_rows * num_columns * PIXEL_BYTES <= isize::MAX,
    ensures
        array_columns(a) == num_columns,
        array_rows(a) == Seq::new(
            num_rows as nat,
            |r: int| Seq::new(num_columns as nat, |c: int| element),
        ),
{
    Array2D::filled_with(element, num_rows, num_columns)
}

/// `Array2D::num_rows`: the number of rows.
#[verifier::external_body]
fn array_num_rows(a: &Array2D<Color>) -> (n: usize)
    ensures
        n == array_rows(*a).len(),
{
    a.num_rows()
}

/// `Array2D::num_columns`: the number of columns.
#[verifier::external_body]
fn array_num_columns(a: &Array2D<Color>) -> (n: usize)
    ensures
        n == array_columns(*a),
{
    a.num_columns()
}

/// `Array2D::get`: the element at (row, column) when both indices are in
/// bounds, nothing otherwise.
#[verifier::external_body]
fn array_get(a: &Array2D<Color>, row: usize, column: usize) -> (r: Option<&Color>)
    ensures
        row < array_rows(*a).len() && column < array_columns(*a) ==> r == Some(
            &array_rows(*a)[row as int][column as int],
        ),
        !(row < array_rows(*a).len() && column < array_columns(*a)) ==> r is None,
{
    a.get(row, column)
}

/// `Array2D::set`: with both indices in bounds the element at (row, column)
/// is replaced and the call succeeds; otherwise the array is left as it was
/// and the call fails. The shape never changes.
#[verifier::external_body]
fn array_set(a: &mut Array2D<Color>, row: usize, column: usize, element: Color) -> (r: Result<
    (),
    array2d::Error,
>)
    ensures
        array_columns(*final(a)) == array_columns(*old(a)),
        r is Ok <==> row < array_rows(*old(a)).len() && column < array_columns(*old(a)),
        r is Ok ==> array_rows(*final(a)) == array_rows(*old(a)).update(
            row as int,
            array_rows(*old(a))[row as int].update(column as int, element),
        ),
        r is Err ==> array_rows(*final(a)) == array_rows(*old(a)),
    no_unwind
{
    a.set(row, column, element)
}

/// A read outside the canvas.
#[derive(Debug, Clone, Copy, PartialEq, Eq, Structural)]
pub enum CanvasError {
    /// The coordinate pair (x, y) names no pixel.
    OutOfBounds { x: usize, y: usize },
}

/// `Array2D::clone`: an array of the same shape holding the same elements.
#[verifier::external_body]
fn array_clone(a: &Array2D<Color>) -> (r: Array2D<Color>)
    ensures
        array_columns(r) == array_columns(*a),
        array_rows(r) == array_rows(*a),
{
    a.clone()
}

/// A grid of pixels of a width and a height fixed when it is made. The
/// view is the sequence of its rows, top to bottom, each row left to right.
#[derive(Debug)]
pub struct Canvas {
    pixels: Array2D<Color>,
}

impl Clone for Canvas {
    fn clone(&self) -> (r: Canvas)
        ensures
            r@ == self@,
            r.spec_width() == self.spec_width(),
    {
        let pixels = array_clone(&self.pixels);
        proof {
            use_type_invariant(self);
            assert(array_rows(pixels) == self@);
        }
        Canvas { pixels }
    }
}

impl View for Canvas {
    type V = Seq<Seq<Color>>;

    /// The rows of the canvas, top to bottom, each row left to right.
    closed spec fn view(&self) -> Seq<Seq<Color>> {
        array_rows(self.pixels)
    }
}

impl Canvas {
    /// Number of pixels in every row.
    pub closed spec fn spec_width(&self) -> nat {
        array_columns(self.pixels)
    }

    /// Number of rows.
    pub open spec fn spec_height(&self) -> nat {
        self@.len()
    }

    /// Every row is as long as the canvas is wide.
    #[verifier::type_invariant]
    pub open spec fn wf(&self) -> bool {
        forall|y: int| 0 <= y < self@.len() ==> (#[trigger] self@[y]).len() == self.spec_width()
    }

    /// A canvas of `width` by `height` pixels, all black.
    pub fn new(width: usize, height: usize) -> (canvas: Canvas)
        requires
            width * height * PIXEL_BYTES <= isize::MAX,
        ensures
            canvas.wf(),
            canvas.spec_width() == width,
            canvas.spec_height() == height,
            forall|x: int, y: int|
                0 <= x < width && 0 <= y < height ==> #[trigger] canvas@[y][x] == Color::black(),
    {
        assert(height * width * PIXEL_BYTES == width * height * PIXEL_BYTES) by (nonlinear_arith);
        Canvas { pixels: array_filled_with(Color::black(), height, width) }
    }

    /// Number of pixels in every row.
    pub fn width(&self) -> (w: usize)
        ensures
            w == self.spec_width(),
    {
        array_num_columns(&self.pixels)
    }

    /// Number of rows.
    pub fn height(&self) -> (h: usize)
        ensures
            h == self.spec_height(),
    {
        array_num_rows(&self.pixels)
    }

    /// The rows after the pixel at column `x` of row `y` has been set to `c`;
    /// the rows unchanged when (x, y) lies outside the canvas.
    pub open spec fn written(&self, x: int, y: int, c: Color) -> Seq<Seq<Color>> {
        if 0 <= x < self.spec_width() && 0 <= y < self.spec_height() {
            self@.update(y, self@[y].update(x, c))
        } else {
            self@
        }
    }

    /// What a write changes: inside the canvas the pixel written reads back
    /// as written and every other pixel as before; outside the canvas
    /// nothing changes. The shape stays as it was either way.
    pub proof fn lemma_written(&self, x: int, y: int, c: Color)
        requires
            self.wf(),
        ensures
            self.written(x, y, c).len() == self.spec_height(),
            forall|j: int|
                0 <= j < self.spec_height() ==> (#[trigger] self.written(x, y, c)[j]).len()
                    == self.spec_width(),
            0 <= x < self.spec_width() && 0 <= y < self.spec_height() ==> self.written(
                x,
                y,
                c,
            )[y][x] == c,
            forall|i: int, j: int|
                0 <= i < self.spec_width() && 0 <= j < self.spec_height() && (i != x || j != y)
                    ==> (#[trigger] self.written(x, y, c)[j][i]) == self@[j][i],
            !(0 <= x < self.spec_width() && 0 <= y < self.spec_height()) ==> self.written(x, y, c)
                == self@,
    {
    }

    /// Sets the pixel at column `x` of row `y` to `c`. A coordinate pair
    /// outside the canvas is ignored. Returns the canvas, so that writes can
    /// be chained.
    pub fn write_pixel(&mut self, x: usize, y: usize, c: Color) -> (r: &mut Canvas)
        ensures
            r@ == old(self).written(x as int, y as int, c),
            !(x < old(self).spec_width() && y < old(self).spec_height()) ==> r@ == old(self)@,
            r.spec_width() == old(self).spec_width(),
            r.spec_height() == old(self).spec_height(),
            r.wf(),
            *final(self) == *final(r),
    {
        proof {
            use_type_invariant(&*self);
            assert(y < self@.len() ==> self@[y as int].len() == self.spec_width());
        }
        match array_set(&mut self.pixels, y, x, c) {
            Ok(_) => self,
            Err(_) => self,
        }
    }

    /// The color at column `x` of row `y`, or an error naming the pair when
    /// it lies outside the canvas.
    pub fn at(&self, x: usize, y: usize) -> (r: Result<&Color, CanvasError>)
        ensures
            x < self.spec_width() && y < self.spec_height() ==> r == Ok::<&Color, CanvasError>(
                &self@[y as int][x as int],
            ),
            !(x < self.spec_width() && y < self.spec_height()) ==> r == Err::<&Color, CanvasError>(
                (CanvasError::OutOfBounds { x, y }),
            ),
    {
        match array_get(&self.pixels, y, x) {
            Some(c) => Ok(c),
            None => Err(CanvasError::OutOfBounds { x, y }),
        }
    }

    /// The levels of the red, green and blue channels of the pixel at column
    /// `x` of row `y`, or an error naming the pair when it lies outside the
    /// canvas.
    pub fn to_rgb(&self, x: usize, y: usize) -> (r: Result<(i32, i32, i32), CanvasError>)
        ensures
            x < self.spec_width() && y < self.spec_height() ==> r == Ok::<
                (i32, i32, i32),
                CanvasError,
            >(
                (
                    channel_level(self@[y as int][x as int].red) as i32,
                    channel_level(self@[y as int][x as int].green) as i32,
                    channel_level(self@[y as int][x as int].blue) as i32,
                ),
            ),
            !(x < self.spec_width() && y < self.spec_height()) ==> r == Err::<
                (i32, i32, i32),
                CanvasError,
            >((CanvasError::OutOfBounds { x, y })),
    {
        match array_get(&self.pixels, y, x) {
            Some(c) => Ok((self::to_rgb(c.red), self::to_rgb(c.green), self::to_rgb(c.blue))),
            None => Err(CanvasError::OutOfBounds { x, y }),
        }
    }

    /// Appends the canvas to `output` as a plain-text PPM image: the magic
    /// line, the dimensions, the highest level, then one line for every row
    /// from the top, the levels of its pixels from the left. The canvas is
    /// left as it is.
    pub fn write_to_ppm(&self, output: &mut Vec<u8>)
        ensures
            final(output)@ == old(output)@ + image_text(self.spec_width(), self@),
    {
        proof {
            use_type_invariant(self);
        }
        let ghost before = output@;
        let width = self.width();
        let height = self.height();
        push_header(output, width, height);
        let mut y: usize = 0;
        while y < height
            invariant
                self.wf(),
                width == self.spec_width(),
                height == self.spec_height(),
                y <= height,
                output@ == before + header_text(width as nat, height as nat) + rows_text(
                    self@,
                    y as nat,
                ),
            decreases height - y,
        {
            let ghost above = output@;
            let mut x: usize = 0;
            while x < width
                invariant
                    self.wf(),
                    width == self.spec_width(),
                    height == self.spec_height(),
                    y < height,
                    x <= width,
                    output@ == above + pixels_text(self@[y as int], x as nat),
                decreases width - x,
            {
                if x > 0 {
                    output.push(SPACE);
                }
                let c = array_get(&self.pixels, y, x).unwrap();
                push_triple(output, c);
                x = x + 1;
                assert(output@ =~= above + pixels_text(self@[y as int], x as nat));
            }
            output.push(NEWLINE);
            y = y + 1;
            assert(output@ =~= before + header_text(width as nat, height as nat) + rows_text(
                self@,
                y as nat,
            ));
        }
        assert(output@ =~= before + image_text(self.spec_width(), self@));
    }
}

} // verus!
