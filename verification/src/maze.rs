//! The maze surface: an RGB bitmap read as a grid of passable and blocked
//! cells, with the conversions between coordinates and vertex ids.

use image::RgbImage;
use vstd::prelude::*;

pub mod paint;
pub mod scan;
pub mod trail;
pub mod walk;

verus! {

/// The three channels of one pixel: red, green, blue.
pub type Color = (u8, u8, u8);

/// An RGB bitmap of the `image` crate (`image::RgbImage`), three bytes to
/// the pixel. Nothing is proved of what it holds: its width and its pixels
/// are named by `bitmap_width` and `bitmap_rows`, and the functions below
/// say of each call into the crate what it does to them.
#[verifier::external_body]
pub struct Bitmap {
    image: RgbImage,
}

/// The number of columns of a bitmap: the width it was made with.
pub uninterp spec fn bitmap_width(bitmap: Bitmap) -> nat;

/// The pixels of a bitmap, row by row from the top, each row from the left.
pub uninterp spec fn bitmap_rows(bitmap: Bitmap) -> Seq<Seq<Color>>;

/// The pixel that `bytes` holds for column `x` of row `y` when rows of
/// `width` pixels follow one another, three bytes to the pixel.
pub open spec fn packed_pixel(bytes: Seq<u8>, width: int, x: int, y: int) -> Color {
    let at = 3 * (y * width + x);
    (bytes[at], bytes[at + 1], bytes[at + 2])
}

/// `ImageBuffer::from_raw`: a bitmap over `bytes`, or nothing when `bytes`
/// holds fewer than three bytes for each of the `width * height` pixels.
/// The outside function counts the bytes with checked products in `usize`,
/// three times the width first, so there is no bitmap either where that
/// product does not fit. The pixels are read from `bytes` row after row.
#[verifier::external_body]
fn bitmap_from_raw(width: u32, height: u32, bytes: Vec<u8>) -> (bitmap: Option<Bitmap>)
    ensures
        bitmap.is_some() == (3 * width <= usize::MAX && 3 * width * height <= bytes@.len()),
        bitmap.is_some() ==> {
            &&& bitmap_width(bitmap.unwrap()) == width
            &&& bitmap_rows(bitmap.unwrap()).len() == height
            &&& forall|y: int|
                0 <= y < height ==> (#[trigger] bitmap_rows(bitmap.unwrap())[y]).len() == width
            &&& forall|x: int, y: int|
                0 <= x < width && 0 <= y < height ==> (#[trigger] bitmap_rows(
                    bitmap.unwrap(),
                )[y][x]) == packed_pixel(bytes@, width as int, x, y)
        },
{
    match RgbImage::from_raw(width, height, bytes) {
        Some(image) => Some(Bitmap { image }),
        None => None,
    }
}

/// `ImageBuffer::into_raw`: the bytes behind the bitmap, which hold its
/// pixels row after row, three bytes to the pixel.
#[verifier::external_body]
fn bitmap_into_raw(bitmap: Bitmap) -> (bytes: Vec<u8>)
    ensures
        3 * bitmap_width(bitmap) * bitmap_rows(bitmap).len() <= bytes@.len(),
        forall|x: int, y: int|
            0 <= x < bitmap_width(bitmap) && 0 <= y < bitmap_rows(bitmap).len() ==> packed_pixel(
                bytes@,
                bitmap_width(bitmap) as int,
                x,
                y,
            ) == #[trigger] bitmap_rows(bitmap)[y][x],
{
    bitmap.image.into_raw()
}

/// `ImageBuffer::dimensions`: the width and the height the bitmap was made
/// with. Every row holds `width` pixels, and since each way of making a
/// bitmap checks that three bytes per pixel fit its container, that product
/// fits in `usize`.
#[verifier::external_body]
fn bitmap_dimensions(bitmap: &Bitmap) -> (dims: (u32, u32))
    ensures
        dims.0 == bitmap_width(*bitmap),
        dims.1 == bitmap_rows(*bitmap).len(),
        forall|y: int| 0 <= y < dims.1 ==> (#[trigger] bitmap_rows(*bitmap)[y]).len() == dims.0,
        3 * dims.0 * dims.1 <= usize::MAX,
{
    bitmap.image.dimensions()
}

/// `ImageBuffer::get_pixel`: the channels of the pixel in column `x` of row
/// `y`. The outside function panics outside the bitmap, so the coordinates
/// must lie inside.
#[verifier::external_body]
fn bitmap_get_pixel(bitmap: &Bitmap, x: u32, y: u32) -> (color: Color)
    requires
        x < bitmap_width(*bitmap),
        y < bitmap_rows(*bitmap).len(),
    ensures
        color == bitmap_rows(*bitmap)[y as int][x as int],
{
    let pixel = bitmap.image.get_pixel(x, y);
    (pixel.0[0], pixel.0[1], pixel.0[2])
}

/// `ImageBuffer::put_pixel`: overwrites the pixel in column `x` of row `y`
/// and leaves every other pixel and the dimensions as they were. The outside
/// function panics outside the bitmap and nowhere else, so the coordinates
/// must lie inside, and the call then returns.
#[verifier::external_body]
fn bitmap_put_pixel(bitmap: &mut Bitmap, x: u32, y: u32, color: Color)
    requires
        x < bitmap_width(*old(bitmap)),
        y < bitmap_rows(*old(bitmap)).len(),
    ensures
        bitmap_width(*final(bitmap)) == bitmap_width(*old(bitmap)),
        bitmap_rows(*final(bitmap)) == bitmap_rows(*old(bitmap)).update(
            y as int,
            bitmap_rows(*old(bitmap))[y as int].update(x as int, color),
        ),
    no_unwind
{
    bitmap.image.put_pixel(x, y, image::Rgb([color.0, color.1, color.2]));
}

/// A cell is passable when none of its channels is zero.
pub open spec fn color_is_open(color: Color) -> bool {
    color.0 != 0 && color.1 != 0 && color.2 != 0
}

/// A maze drawn as an image: bright cells are passable, black cells are
/// walls.
pub struct Maze {
    width: usize,
    height: usize,
    image: Bitmap,
}

impl Maze {
    /// What holds of every maze: the recorded dimensions are those of the
    /// image, and every cell has an id.
    #[verifier::type_invariant]
    pub closed spec fn wf(&self) -> bool {
        &&& self.width == bitmap_width(self.image)
        &&& self.height == bitmap_rows(self.image).len()
        &&& forall|y: int|
            0 <= y < self.height ==> (#[trigger] bitmap_rows(self.image)[y]).len() == self.width
        &&& self.width * self.height <= usize::MAX
        &&& self.width <= u32::MAX
        &&& self.height <= u32::MAX
    }

    /// The number of columns.
    pub closed spec fn spec_width(&self) -> nat {
        self.width as nat
    }

    /// The number of rows.
    pub closed spec fn spec_height(&self) -> nat {
        self.height as nat
    }

    /// The pixels, row by row.
    pub closed spec fn rows(&self) -> Seq<Seq<Color>> {
        bitmap_rows(self.image)
    }

    /// How many cells the grid has; ids run below this number.
    pub open spec fn area(&self) -> nat {
        self.spec_width() * self.spec_height()
    }

    /// Whether `(x, y)` names a cell of the grid.
    pub open spec fn in_grid(&self, x: int, y: int) -> bool {
        0 <= x < self.spec_width() && 0 <= y < self.spec_height()
    }

    /// Whether the cell in column `x` of row `y` can be walked on. No cell
    /// outside the grid can.
    pub open spec fn passable(&self, x: int, y: int) -> bool {
        self.in_grid(x, y) && color_is_open(self.rows()[y][x])
    }

    /// The id of the cell in column `x` of row `y`.
    pub open spec fn id_of(&self, x: int, y: int) -> int {
        y * self.spec_width() + x
    }

    /// The column of the cell with id `index`.
    pub open spec fn column_of(&self, index: int) -> int {
        index % (self.spec_width() as int)
    }

    /// The row of the cell with id `index`.
    pub open spec fn row_of(&self, index: int) -> int {
        index / (self.spec_width() as int)
    }

    /// A maze over the pixels in `bytes`, which hold rows of `width` pixels
    /// one after the other, three bytes to the pixel. There is no maze when
    /// `bytes` is too short for `width * height` pixels, nor when three
    /// times the width is more than a `usize` holds.
    pub fn new(width: u32, height: u32, bytes: Vec<u8>) -> (maze: Option<Maze>)
        ensures
            maze.is_some() == (3 * width <= usize::MAX && 3 * width * height <= bytes@.len()),
            maze.is_some() ==> {
                &&& maze.unwrap().wf()
                &&& maze.unwrap().spec_width() == width
                &&& maze.unwrap().spec_height() == height
                &&& forall|x: int, y: int|
                    0 <= x < width && 0 <= y < height ==> (#[trigger] maze.unwrap().rows()[y][x])
                        == packed_pixel(bytes@, width as int, x, y)
            },
    {
        match bitmap_from_raw(width, height, bytes) {
            Some(image) => {
                let (w, h) = bitmap_dimensions(&image);
                assert(w * h <= usize::MAX) by (nonlinear_arith)
                    requires
                        3 * w * h <= usize::MAX,
                        w >= 0,
                        h >= 0,
                ;
                Some(Maze { width: w as usize, height: h as usize, image })
            },
            None => None,
        }
    }

    /// Gives up the maze for its pixels, row after row, three bytes to the
    /// pixel.
    pub fn into_raw(self) -> (bytes: Vec<u8>)
        ensures
            3 * self.area() <= bytes@.len(),
            forall|x: int, y: int|
                self.in_grid(x, y) ==> packed_pixel(bytes@, self.spec_width() as int, x, y)
                    == #[trigger] self.rows()[y][x],
    {
        proof {
            use_type_invariant(&self);
            assert(3 * (self.width * self.height) == 3 * self.width * self.height)
                by (nonlinear_arith);
        }
        bitmap_into_raw(self.image)
    }

    /// The grid has as many cells as fit an id, and every row is as long as
    /// the grid is wide.
    pub proof fn grid_is_bounded(&self)
        requires
            self.wf(),
        ensures
            self.area() <= usize::MAX,
            self.rows().len() == self.spec_height(),
            forall|y: int|
                0 <= y < self.spec_height() ==> (#[trigger] self.rows()[y]).len()
                    == self.spec_width(),
    {
    }

    pub fn width(&self) -> (width: usize)
        ensures
            width == self.spec_width(),
    {
        self.width
    }

    pub fn height(&self) -> (height: usize)
        ensures
            height == self.spec_height(),
    {
        self.height
    }

    /// Whether the cell in column `x` of row `y` is passable.
    pub fn is_path(&self, x: usize, y: usize) -> (open: bool)
        requires
            self.in_grid(x as int, y as int),
        ensures
            open == self.passable(x as int, y as int),
    {
        proof {
            use_type_invariant(self);
        }
        let color = bitmap_get_pixel(&self.image, x as u32, y as u32);
        color.0 != 0 && color.1 != 0 && color.2 != 0
    }

    /// The id of the cell in column `x` of row `y`: rows are numbered one
    /// after the other.
    pub fn to_index(&self, x: usize, y: usize) -> (index: usize)
        requires
            self.in_grid(x as int, y as int),
        ensures
            index == self.id_of(x as int, y as int),
            index < self.area(),
    {
        proof {
            use_type_invariant(self);
            self.id_in_area(x as int, y as int);
        }
        y * self.width + x
    }

    /// The column and the row of the cell with id `index`.
    pub fn to_coord(&self, index: usize) -> (coord: (usize, usize))
        requires
            self.spec_width() > 0,
        ensures
            coord.0 == self.column_of(index as int),
            coord.1 == self.row_of(index as int),
    {
        (index % self.width, index / self.width)
    }

    /// Colours the cell with id `idx`.
    pub fn draw(&mut self, idx: usize, color: Color)
        requires
            idx < old(self).area(),
        ensures
            final(self).wf(),
            final(self).spec_width() == old(self).spec_width(),
            final(self).spec_height() == old(self).spec_height(),
            final(self).rows() == old(self).rows().update(
                old(self).row_of(idx as int),
                old(self).rows()[old(self).row_of(idx as int)].update(
                    old(self).column_of(idx as int),
                    color,
                ),
            ),
            forall|x: int, y: int|
                old(self).in_grid(x, y) ==> (#[trigger] final(self).rows()[y][x]) == if old(
                    self,
                ).id_of(x, y) == idx {
                    color
                } else {
                    old(self).rows()[y][x]
                },
    {
        proof {
            use_type_invariant(&*self);
            self.id_of_coord(idx as int);
        }
        let (x, y) = self.to_coord(idx);
        let ghost before = *self;
        bitmap_put_pixel(&mut self.image, x as u32, y as u32, color);
        proof {
            assert forall|cx: int, cy: int| before.in_grid(cx, cy) implies (
            #[trigger] self.rows()[cy][cx]) == if before.id_of(cx, cy) == idx {
                color
            } else {
                before.rows()[cy][cx]
            } by {
                before.coord_of_id(cx, cy);
            }
        }
    }

    /// Colours every cell whose id occurs in `path`, and no other.
    pub fn draw_path(&mut self, path: &[usize], color: Color)
        requires
            forall|i: int| 0 <= i < path@.len() ==> path@[i] < old(self).area(),
        ensures
            final(self).wf(),
            final(self).spec_width() == old(self).spec_width(),
            final(self).spec_height() == old(self).spec_height(),
            final(self).rows().len() == old(self).rows().len(),
            forall|x: int, y: int|
                old(self).in_grid(x, y) ==> (#[trigger] final(self).rows()[y][x]) == if path@.contains(
                    old(self).id_of(x, y) as usize,
                ) {
                    color
                } else {
                    old(self).rows()[y][x]
                },
    {
        proof {
            use_type_invariant(&*self);
        }
        let mut i: usize = 0;
        while i < path.len()
            invariant
                i <= path@.len(),
                self.wf(),
                self.spec_width() == old(self).spec_width(),
                self.spec_height() == old(self).spec_height(),
                self.rows().len() == old(self).rows().len(),
                forall|j: int| 0 <= j < path@.len() ==> path@[j] < old(self).area(),
                forall|x: int, y: int|
                    old(self).in_grid(x, y) ==> (#[trigger] self.rows()[y][x]) == if path@.subrange(
                        0,
                        i as int,
                    ).contains(old(self).id_of(x, y) as usize) {
                        color
                    } else {
                        old(self).rows()[y][x]
                    },
            decreases path@.len() - i,
        {
            let ghost before = *self;
            let idx = path[i];
            self.draw(idx, color);
            proof {
                let done = path@.subrange(0, i as int);
                let next = path@.subrange(0, i + 1);
                assert(next =~= done.push(idx));
                before.id_of_coord(idx as int);
                assert forall|x: int, y: int| old(self).in_grid(x, y) implies (
                #[trigger] self.rows()[y][x]) == if next.contains(old(self).id_of(x, y) as usize) {
                    color
                } else {
                    old(self).rows()[y][x]
                } by {
                    before.id_in_area(x, y);
                    before.coord_of_id(x, y);
                    let id = old(self).id_of(x, y) as usize;
                    if id == idx {
                        assert(next[i as int] == id);
                    } else {
                        if next.contains(id) {
                            let k = choose|k: int| 0 <= k < next.len() && next[k] == id;
                            assert(done[k] == id);
                        }
                        if done.contains(id) {
                            let k = choose|k: int| 0 <= k < done.len() && done[k] == id;
                            assert(next[k] == id);
                        }
                    }
                }
            }
            i += 1;
        }
        assert(path@.subrange(0, i as int) =~= path@);
    }

    /// Ids of cells of the grid lie below its area.
    pub proof fn id_in_area(&self, x: int, y: int)
        requires
            self.in_grid(x, y),
        ensures
            0 <= self.id_of(x, y) < self.area(),
            0 <= y * self.spec_width(),
    {
        let w = self.spec_width() as int;
        let h = self.spec_height() as int;
        assert(y * w + x < w * h && 0 <= y * w) by (nonlinear_arith)
            requires
                0 <= x < w,
                0 <= y < h,
        ;
    }

    /// Neither side of a grid with cells is longer than the grid has cells.
    pub proof fn sides_fit(&self)
        requires
            self.spec_width() > 0,
            self.spec_height() > 0,
        ensures
            self.spec_width() <= self.area(),
            self.spec_height() <= self.area(),
    {
        let w = self.spec_width() as int;
        let h = self.spec_height() as int;
        assert(w <= w * h && h <= w * h) by (nonlinear_arith)
            requires
                w > 0,
                h > 0,
        ;
    }

    /// Coordinates and ids name the same cells: turning a cell of the grid
    /// into its id and back gives the cell.
    pub proof fn coord_of_id(&self, x: int, y: int)
        requires
            self.in_grid(x, y),
        ensures
            self.column_of(self.id_of(x, y)) == x,
            self.row_of(self.id_of(x, y)) == y,
    {
        let w = self.spec_width() as int;
        vstd::arithmetic::div_mod::lemma_fundamental_div_mod_converse(y * w + x, w, y, x);
    }

    /// Turning an id below the area into its cell and back gives the id, and
    /// the cell lies in the grid.
    pub proof fn id_of_coord(&self, index: int)
        requires
            0 <= index < self.area(),
        ensures
            self.in_grid(self.column_of(index), self.row_of(index)),
            self.id_of(self.column_of(index), self.row_of(index)) == index,
    {
        let w = self.spec_width() as int;
        let h = self.spec_height() as int;
        assert(w > 0) by (nonlinear_arith)
            requires
                0 <= index < w * h,
                0 <= w,
        ;
        vstd::arithmetic::div_mod::lemma_fundamental_div_mod(index, w);
        vstd::arithmetic::div_mod::lemma_mod_bound(index, w);
        let q = index / w;
        let r = index % w;
        assert(0 <= q < h) by (nonlinear_arith)
            requires
                index == w * q + r,
                0 <= r < w,
                0 <= index < w * h,
        ;
        assert(q * w + r == index) by (nonlinear_arith)
            requires
                index == w * q + r,
        ;
    }
}

} // verus!
