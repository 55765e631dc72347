//! Maze extraction: classifies raw pixels, finds the maze bounding box,
//! builds the grid, and resolves marker pixels to grid coordinates.

use vstd::prelude::*;
use crate::cell::{KIND_WALL, MyCell, Position, spec_cell_new};
use crate::errors::MazeError;
use crate::matrix::{Matrix, on_path, on_path_prefix};
use crate::pixels::PixelBuffer;

verus! {

/// Wall color test on one pixel's channels: either two channels are equal
/// and at least one channel is at most 160 (near-gray), or one channel is
/// clearly the darkest (under 50) and strictly less than the other two
/// (near-black tinted).
pub open spec fn spec_black(r: u8, g: u8, b: u8) -> bool {
    ||| ((r == g || r == b || g == b) && (r <= 160 || g <= 160 || b <= 160))
    ||| (r < 50 && r < g && r < b)
    ||| (g < 50 && g < r && g < b)
    ||| (b < 50 && b < r && b < g)
}

/// Start-marker (red) test: red channel at least 150 and green or blue
/// under 100.
pub open spec fn spec_red(r: u8, g: u8, b: u8) -> bool {
    r >= 150 && (g < 100 || b < 100)
}

/// End-marker (blue) test: blue channel at least 150 and red or green
/// under 100.
pub open spec fn spec_blue(r: u8, g: u8, b: u8) -> bool {
    b >= 150 && (r < 100 || g < 100)
}

/// Per-pixel classification, in priority order: wall (1), start marker
/// (2), end marker (3), otherwise open (0).
pub open spec fn spec_classify(r: u8, g: u8, b: u8) -> u8 {
    if spec_black(r, g, b) {
        1u8
    } else if spec_red(r, g, b) {
        2u8
    } else if spec_blue(r, g, b) {
        3u8
    } else {
        0u8
    }
}

/// Whether the pixel at column `x`, row `y` of `img` is wall-colored.
pub open spec fn wall_at(img: PixelBuffer, x: int, y: int) -> bool {
    spec_black(img.spec_channel(x, y, 0), img.spec_channel(x, y, 1), img.spec_channel(x, y, 2))
}

/// Whether the pixel at column `x`, row `y` of `img` passes the red test.
pub open spec fn red_at(img: PixelBuffer, x: int, y: int) -> bool {
    spec_red(img.spec_channel(x, y, 0), img.spec_channel(x, y, 1), img.spec_channel(x, y, 2))
}

/// Whether the pixel at column `x`, row `y` of `img` passes the blue test.
pub open spec fn blue_at(img: PixelBuffer, x: int, y: int) -> bool {
    spec_blue(img.spec_channel(x, y, 0), img.spec_channel(x, y, 1), img.spec_channel(x, y, 2))
}

/// Classification of the pixel at column `x`, row `y` of `img`.
pub open spec fn classify_at(img: PixelBuffer, x: int, y: int) -> u8 {
    spec_classify(img.spec_channel(x, y, 0), img.spec_channel(x, y, 1), img.spec_channel(x, y, 2))
}

/// The kind of the grid cell at column `x`, row `y` of the `w` x `h`
/// sub-rectangle of `img` whose top-left pixel is (`x0`, `y0`).
///
/// A cell not on the sub-rectangle's border is forced to wall when either
/// diagonal pair of its orthogonal neighbors (north+east, south+west,
/// north+west, south+east) are both wall-colored: this closes 1-pixel
/// gaps left by anti-aliased diagonal wall strokes. Otherwise the cell
/// takes the pixel's own classification.
pub open spec fn spec_kind_in_region(
    img: PixelBuffer,
    x0: int,
    y0: int,
    w: int,
    h: int,
    x: int,
    y: int,
) -> u8 {
    let north = wall_at(img, x0 + x, y0 + y - 1);
    let south = wall_at(img, x0 + x, y0 + y + 1);
    let west = wall_at(img, x0 + x - 1, y0 + y);
    let east = wall_at(img, x0 + x + 1, y0 + y);
    if 0 < y && y < h - 1 && 0 < x && x < w - 1 && ((north && east) || (south && west) || (north
        && west) || (south && east)) {
        1u8
    } else {
        classify_at(img, x0 + x, y0 + y)
    }
}

/// Whether a pixel's channel slice is wall-colored.
pub fn test_black(pixels: &[u8]) -> (r: bool)
    requires
        pixels@.len() >= 3,
    ensures
        r == spec_black(pixels@[0], pixels@[1], pixels@[2]),
{
    if (pixels[0] == pixels[1] || pixels[0] == pixels[2] || pixels[1] == pixels[2]) && (pixels[0]
        <= 160 || pixels[1] <= 160 || pixels[2] <= 160) {
        return true;
    }
    if pixels[0] < 50 && pixels[0] < pixels[1] && pixels[0] < pixels[2] {
        return true;
    }
    if pixels[1] < 50 && pixels[1] < pixels[0] && pixels[1] < pixels[2] {
        return true;
    }
    if pixels[2] < 50 && pixels[2] < pixels[0] && pixels[2] < pixels[1] {
        return true;
    }
    false
}

/// Whether a pixel's channel slice passes the red (start marker) test.
pub fn test_red(pixels: &[u8]) -> (r: bool)
    requires
        pixels@.len() >= 3,
    ensures
        r == spec_red(pixels@[0], pixels@[1], pixels@[2]),
{
    pixels[0] >= 150 && (pixels[1] < 100 || pixels[2] < 100)
}

/// Whether a pixel's channel slice passes the blue (end marker) test.
pub fn test_blue(pixels: &[u8]) -> (r: bool)
    requires
        pixels@.len() >= 3,
    ensures
        r == spec_blue(pixels@[0], pixels@[1], pixels@[2]),
{
    (pixels[0] < 100 || pixels[1] < 100) && pixels[2] >= 150
}

/// Classifies a pixel's channel slice: wall (1), start marker (2), end
/// marker (3), otherwise open (0).
pub fn test_colorus(pixel: &[u8]) -> (r: u8)
    requires
        pixel@.len() >= 3,
    ensures
        r == spec_classify(pixel@[0], pixel@[1], pixel@[2]),
{
    if test_black(pixel) {
        return 1;
    }
    if test_red(pixel) {
        return 2;
    }
    if test_blue(pixel) {
        return 3;
    }
    0
}

/// Whether row `y` of `img` holds at least one wall-colored pixel.
pub fn row_has_wall(img: &PixelBuffer, y: u32) -> (r: bool)
    requires
        img.wf(),
        y < img.height,
    ensures
        r == exists|x: int| 0 <= x < img.width && wall_at(*img, x, y as int),
{
    let mut x: u32 = 0;
    while x < img.width()
        invariant
            img.wf(),
            y < img.height,
            x <= img.width,
            forall|xx: int| 0 <= xx < x ==> !wall_at(*img, xx, y as int),
        decreases img.width - x,
    {
        if test_black(img.pixel_slice(x, y)) {
            assert(wall_at(*img, x as int, y as int));
            return true;
        }
        x = x + 1;
    }
    false
}

/// Whether column `x` of `img` holds at least one wall-colored pixel.
pub fn col_has_wall(img: &PixelBuffer, x: u32) -> (r: bool)
    requires
        img.wf(),
        x < img.width,
    ensures
        r == exists|y: int| 0 <= y < img.height && wall_at(*img, x as int, y),
{
    let mut y: u32 = 0;
    while y < img.height()
        invariant
            img.wf(),
            x < img.width,
            y <= img.height,
            forall|yy: int| 0 <= yy < y ==> !wall_at(*img, x as int, yy),
        decreases img.height - y,
    {
        if test_black(img.pixel_slice(x, y)) {
            assert(wall_at(*img, x as int, y as int));
            return true;
        }
        y = y + 1;
    }
    false
}

/// Whether `img` holds a wall-colored pixel anywhere.
pub open spec fn some_wall(img: PixelBuffer) -> bool {
    exists|x: int, y: int|
        0 <= x < img.width && 0 <= y < img.height && #[trigger] wall_at(img, x, y)
}

/// The top-left corner of the bounding box: the least row holding a
/// wall-colored pixel and, independently, the least such column.
pub open spec fn top_corner_post(img: PixelBuffer, top: Position) -> bool {
    &&& 0 <= top.position.0 < img.height
    &&& 0 <= top.position.1 < img.width
    &&& (exists|x: int| 0 <= x < img.width && #[trigger] wall_at(img, x, top.position.0 as int))
    &&& (exists|y: int| 0 <= y < img.height && #[trigger] wall_at(img, top.position.1 as int, y))
    &&& forall|x: int, y: int|
        0 <= x < img.width && 0 <= y < top.position.0 ==> !(#[trigger] wall_at(img, x, y))
    &&& forall|x: int, y: int|
        0 <= x < top.position.1 && 0 <= y < img.height ==> !(#[trigger] wall_at(img, x, y))
}

/// The bottom-right corner of the bounding box: the greatest row holding
/// a wall-colored pixel and the greatest such column, each incremented by
/// one to serve as an exclusive end that keeps a trailing margin.
pub open spec fn bottom_corner_post(img: PixelBuffer, bottom: Position) -> bool {
    &&& 1 <= bottom.position.0 <= img.height
    &&& 1 <= bottom.position.1 <= img.width
    &&& (exists|x: int|
        0 <= x < img.width && #[trigger] wall_at(img, x, bottom.position.0 - 1))
    &&& (exists|y: int|
        0 <= y < img.height && #[trigger] wall_at(img, bottom.position.1 - 1, y))
    &&& forall|x: int, y: int|
        0 <= x < img.width && bottom.position.0 <= y < img.height ==> !(#[trigger] wall_at(
            img,
            x,
            y,
        ))
    &&& forall|x: int, y: int|
        bottom.position.1 <= x < img.width && 0 <= y < img.height ==> !(#[trigger] wall_at(
            img,
            x,
            y,
        ))
}

/// Finds the bounding box's top-left corner by scanning the image forward,
/// or reports that no wall-colored pixel exists at all.
pub fn get_top_corner(image: &PixelBuffer) -> (r: Option<Position>)
    requires
        image.wf(),
    ensures
        r is Some <==> some_wall(*image),
        r is Some ==> top_corner_post(*image, r->Some_0),
{
    let mut topy: u32 = 0;
    let mut found_y: bool = false;
    let mut y: u32 = 0;
    while y < image.height() && !found_y
        invariant
            image.wf(),
            y <= image.height,
            !found_y ==> forall|x: int, yy: int|
                0 <= x < image.width && 0 <= yy < y ==> !(#[trigger] wall_at(*image, x, yy)),
            found_y ==> {
                &&& topy < image.height
                &&& (exists|x: int|
                    0 <= x < image.width && #[trigger] wall_at(*image, x, topy as int))
                &&& forall|x: int, yy: int|
                    0 <= x < image.width && 0 <= yy < topy ==> !(#[trigger] wall_at(
                        *image,
                        x,
                        yy,
                    ))
            },
        decreases image.height - y + (if found_y { 0int } else { 1int }),
    {
        if row_has_wall(image, y) {
            topy = y;
            found_y = true;
        } else {
            y = y + 1;
        }
    }
    if !found_y {
        assert(!some_wall(*image));
        return None;
    }
    let mut topx: u32 = 0;
    let mut found_x: bool = false;
    let mut x: u32 = 0;
    while x < image.width() && !found_x
        invariant
            image.wf(),
            x <= image.width,
            !found_x ==> forall|xx: int, yy: int|
                0 <= xx < x && 0 <= yy < image.height ==> !(#[trigger] wall_at(*image, xx, yy)),
            found_x ==> {
                &&& topx < image.width
                &&& (exists|yy: int|
                    0 <= yy < image.height && #[trigger] wall_at(*image, topx as int, yy))
                &&& forall|xx: int, yy: int|
                    0 <= xx < topx && 0 <= yy < image.height ==> !(#[trigger] wall_at(
                        *image,
                        xx,
                        yy,
                    ))
            },
        decreases image.width - x + (if found_x { 0int } else { 1int }),
    {
        if col_has_wall(image, x) {
            topx = x;
            found_x = true;
        } else {
            x = x + 1;
        }
    }
    assert(found_x) by {
        assert(some_wall(*image));
    }
    Some(Position::new(topy, topx))
}

/// Finds the bounding box's bottom-right corner (exclusive, with a
/// one-pixel trailing margin) by scanning the image backward, or reports
/// that no wall-colored pixel exists at all.
pub fn get_bottom_corner(image: &PixelBuffer) -> (r: Option<Position>)
    requires
        image.wf(),
    ensures
        r is Some <==> some_wall(*image),
        r is Some ==> bottom_corner_post(*image, r->Some_0),
{
    let mut bottomy: u32 = 0;
    let mut found_y: bool = false;
    let mut y: u32 = image.height();
    while y > 0 && !found_y
        invariant
            image.wf(),
            y <= image.height,
            !found_y ==> forall|x: int, yy: int|
                0 <= x < image.width && y <= yy < image.height ==> !(#[trigger] wall_at(
                    *image,
                    x,
                    yy,
                )),
            found_y ==> {
                &&& bottomy < image.height
                &&& (exists|x: int|
                    0 <= x < image.width && #[trigger] wall_at(*image, x, bottomy as int))
                &&& forall|x: int, yy: int|
                    0 <= x < image.width && bottomy < yy < image.height ==> !(#[trigger] wall_at(
                        *image,
                        x,
                        yy,
                    ))
            },
        decreases y + (if found_y { 0int } else { 1int }),
    {
        if row_has_wall(image, y - 1) {
            bottomy = y - 1;
            found_y = true;
        } else {
            y = y - 1;
        }
    }
    if !found_y {
        assert(!some_wall(*image));
        return None;
    }
    let mut bottomx: u32 = 0;
    let mut found_x: bool = false;
    let mut x: u32 = image.width();
    while x > 0 && !found_x
        invariant
            image.wf(),
            x <= image.width,
            !found_x ==> forall|xx: int, yy: int|
                x <= xx < image.width && 0 <= yy < image.height ==> !(#[trigger] wall_at(
                    *image,
                    xx,
                    yy,
                )),
            found_x ==> {
                &&& bottomx < image.width
                &&& (exists|yy: int|
                    0 <= yy < image.height && #[trigger] wall_at(*image, bottomx as int, yy))
                &&& forall|xx: int, yy: int|
                    bottomx < xx < image.width && 0 <= yy < image.height ==> !(
                    #[trigger] wall_at(*image, xx, yy))
            },
        decreases x + (if found_x { 0int } else { 1int }),
    {
        if col_has_wall(image, x - 1) {
            bottomx = x - 1;
            found_x = true;
        } else {
            x = x - 1;
        }
    }
    assert(found_x) by {
        assert(some_wall(*image));
    }
    proof {
        let xw = choose|x: int|
            0 <= x < image.width && #[trigger] wall_at(*image, x, bottomy as int);
        assert(wall_at(*image, xw, (bottomy + 1) as u32 - 1));
        let yw = choose|y: int|
            0 <= y < image.height && #[trigger] wall_at(*image, bottomx as int, y);
        assert(wall_at(*image, (bottomx + 1) as u32 - 1, yw));
    }
    Some(Position::new(bottomy + 1, bottomx + 1))
}

/// Builds the grid for the `x_size` x `y_size` sub-rectangle of `image`
/// whose top-left pixel is (`x0`, `y0`): every cell carries its own
/// coordinate, the kind given by the classification rules with
/// diagonal-gap repair, and cleared search state.
pub fn get_matrix(image: &PixelBuffer, x0: u32, y0: u32, x_size: u32, y_size: u32) -> (r: Matrix)
    requires
        image.wf(),
        x0 + x_size <= image.width,
        y0 + y_size <= image.height,
    ensures
        r.wf(),
        r.y_size == y_size,
        r.x_size == x_size,
        r.positions_consistent(),
        r.cells_fresh(),
        forall|y: int, x: int|
            r.in_bounds(y, x) ==> #[trigger] r.cell(y, x) == spec_cell_new(
                y as u32,
                x as u32,
                spec_kind_in_region(
                    *image,
                    x0 as int,
                    y0 as int,
                    x_size as int,
                    y_size as int,
                    x,
                    y,
                ),
            ),
{
    let mut matrix = Matrix::new(x_size as usize, y_size as usize);
    let mut y: u32 = 0;
    while y < y_size
        invariant
            image.wf(),
            x0 + x_size <= image.width,
            y0 + y_size <= image.height,
            y <= y_size,
            matrix.wf(),
            matrix.y_size == y_size,
            matrix.x_size == x_size,
            forall|yy: int, xx: int|
                matrix.in_bounds(yy, xx) && yy < y ==> #[trigger] matrix.cell(yy, xx)
                    == spec_cell_new(
                    yy as u32,
                    xx as u32,
                    spec_kind_in_region(
                        *image,
                        x0 as int,
                        y0 as int,
                        x_size as int,
                        y_size as int,
                        xx,
                        yy,
                    ),
                ),
        decreases y_size - y,
    {
        let mut x: u32 = 0;
        while x < x_size
            invariant
                image.wf(),
                x0 + x_size <= image.width,
                y0 + y_size <= image.height,
                y < y_size,
                x <= x_size,
                matrix.wf(),
                matrix.y_size == y_size,
                matrix.x_size == x_size,
                forall|yy: int, xx: int|
                    matrix.in_bounds(yy, xx) && (yy < y || (yy == y && xx < x))
                        ==> #[trigger] matrix.cell(yy, xx) == spec_cell_new(
                        yy as u32,
                        xx as u32,
                        spec_kind_in_region(
                            *image,
                            x0 as int,
                            y0 as int,
                            x_size as int,
                            y_size as int,
                            xx,
                            yy,
                        ),
                    ),
            decreases x_size - x,
        {
            let t: u8;
            if y > 0 && y + 1 < y_size && x > 0 && x + 1 < x_size {
                let north = test_black(image.pixel_slice(x0 + x, y0 + y - 1));
                let south = test_black(image.pixel_slice(x0 + x, y0 + y + 1));
                let west = test_black(image.pixel_slice(x0 + x - 1, y0 + y));
                let east = test_black(image.pixel_slice(x0 + x + 1, y0 + y));
                if (north && east) || (south && west) || (north && west) || (south && east) {
                    t = 1;
                } else {
                    t = test_colorus(image.pixel_slice(x0 + x, y0 + y));
                }
            } else {
                t = test_colorus(image.pixel_slice(x0 + x, y0 + y));
            }
            matrix.set(y as usize, x as usize, MyCell::new(y, x, t));
            assert(matrix.cell(y as int, x as int) == spec_cell_new(
                y,
                x,
                spec_kind_in_region(
                    *image,
                    x0 as int,
                    y0 as int,
                    x_size as int,
                    y_size as int,
                    x as int,
                    y as int,
                ),
            ));
            x = x + 1;
        }
        y = y + 1;
    }
    matrix
}

/// One maze attempt's extracted data: the full decoded image, the
/// detected bounding box, the crop offsets and the grid built from the
/// cropped region.
pub struct DataHandle {
    /// The maze's identifier (its file name stem).
    pub name: String,
    /// The full, uncropped decoded image.
    pub image: PixelBuffer,
    /// Columns trimmed from the left of the image.
    pub diff_x: u32,
    /// Rows trimmed from the top of the image.
    pub diff_y: u32,
    /// First wall-colored row and column of the image.
    pub top_corner: Position,
    /// One past the last wall-colored row and column of the image.
    pub bottom_corner: Position,
    /// The grid built from the cropped region.
    pub matrix: Matrix,
}

/// Everything `get_data` promises of a successful extraction from `img`:
/// the corners bound the wall-colored pixels tightly, the crop offsets
/// are the top corner shifted one pixel up and left (clamped at the
/// image's edge), and every grid cell is the classification of its pixel
/// with diagonal-gap repair and cleared search state.
pub open spec fn extraction_post(d: DataHandle, img: PixelBuffer) -> bool {
    &&& top_corner_post(img, d.top_corner)
    &&& bottom_corner_post(img, d.bottom_corner)
    &&& d.diff_y == if d.top_corner.position.0 > 0 {
        (d.top_corner.position.0 - 1) as u32
    } else {
        0u32
    }
    &&& d.diff_x == if d.top_corner.position.1 > 0 {
        (d.top_corner.position.1 - 1) as u32
    } else {
        0u32
    }
    &&& d.matrix.wf()
    &&& d.matrix.positions_consistent()
    &&& d.matrix.cells_fresh()
    &&& d.matrix.y_size == d.bottom_corner.position.0 - d.diff_y
    &&& d.matrix.x_size == d.bottom_corner.position.1 - d.diff_x
    &&& forall|y: int, x: int|
        d.matrix.in_bounds(y, x) ==> #[trigger] d.matrix.cell(y, x) == spec_cell_new(
            y as u32,
            x as u32,
            spec_kind_in_region(
                img,
                d.diff_x as int,
                d.diff_y as int,
                d.matrix.x_size as int,
                d.matrix.y_size as int,
                x,
                y,
            ),
        )
}

impl DataHandle {
    /// The handle's pieces fit together: the box lies inside the image,
    /// the offsets sit on or just outside the box's top-left corner, and
    /// the grid covers exactly the cropped region.
    pub open spec fn wf(&self) -> bool {
        &&& self.image.wf()
        &&& self.matrix.wf()
        &&& self.matrix.positions_consistent()
        &&& self.diff_y <= self.top_corner.position.0
        &&& self.diff_x <= self.top_corner.position.1
        &&& self.top_corner.position.0 < self.bottom_corner.position.0
        &&& self.top_corner.position.1 < self.bottom_corner.position.1
        &&& self.bottom_corner.position.0 <= self.image.height
        &&& self.bottom_corner.position.1 <= self.image.width
        &&& self.matrix.y_size == self.bottom_corner.position.0 - self.diff_y
        &&& self.matrix.x_size == self.bottom_corner.position.1 - self.diff_x
    }

    /// A copy of the extracted grid.
    pub fn matrix(&self) -> (r: Matrix)
        requires
            self.matrix.wf(),
        ensures
            r.wf(),
            r.y_size == self.matrix.y_size,
            r.x_size == self.matrix.x_size,
            forall|y: int, x: int|
                r.in_bounds(y, x) ==> #[trigger] r.cell(y, x) == self.matrix.cell(y, x),
    {
        let rows = crate::matrix::copy_cells(&self.matrix.matrix);
        Matrix { matrix: rows, y_size: self.matrix.y_size, x_size: self.matrix.x_size }
    }
}

/// Extracts the maze from a decoded image: detects the bounding box,
/// crops it with a one-pixel margin, and classifies every pixel of the
/// cropped region into a grid cell. Fails with `ExtractionAmbiguity`
/// exactly when the image holds no wall-colored pixel at all.
pub fn get_data(name: String, image: PixelBuffer) -> (r: Result<DataHandle, MazeError>)
    requires
        image.wf(),
    ensures
        r is Err <==> !some_wall(image),
        r is Err ==> r == Err::<DataHandle, MazeError>(MazeError::ExtractionAmbiguity),
        r is Ok ==> {
            let d = r->Ok_0;
            &&& d.wf()
            &&& d.image == image
            &&& d.name@ == name@
            &&& extraction_post(d, image)
        },
{
    let top = match get_top_corner(&image) {
        None => {
            return Err(MazeError::ExtractionAmbiguity);
        },
        Some(t) => t,
    };
    let bottom = match get_bottom_corner(&image) {
        None => {
            proof {
                assert(false);
            }
            return Err(MazeError::ExtractionAmbiguity);
        },
        Some(b) => b,
    };
    proof {
        let xw = choose|x: int|
            0 <= x < image.width && #[trigger] wall_at(image, x, top.position.0 as int);
        assert(wall_at(image, xw, top.position.0 as int));
        assert(top.position.0 < bottom.position.0);
        let yw = choose|y: int|
            0 <= y < image.height && #[trigger] wall_at(image, top.position.1 as int, y);
        assert(wall_at(image, top.position.1 as int, yw));
        assert(top.position.1 < bottom.position.1);
    }
    let diff_y = if top.y() > 0 {
        top.y() - 1
    } else {
        0
    };
    let diff_x = if top.x() > 0 {
        top.x() - 1
    } else {
        0
    };
    let h = bottom.y() - diff_y;
    let w = bottom.x() - diff_x;
    let matrix = get_matrix(&image, diff_x, diff_y, w, h);
    Ok(DataHandle { name, image, diff_x, diff_y, top_corner: top, bottom_corner: bottom, matrix })
}

/// Extraction is deterministic: two extractions whose input images hold
/// identical pixel bytes agree on the bounding box, the crop offsets,
/// the grid's dimensions and every single cell.
pub proof fn lemma_extraction_deterministic(
    img1: PixelBuffer,
    img2: PixelBuffer,
    d1: DataHandle,
    d2: DataHandle,
)
    requires
        img1.width == img2.width,
        img1.height == img2.height,
        img1.data@ == img2.data@,
        extraction_post(d1, img1),
        extraction_post(d2, img2),
    ensures
        d1.top_corner == d2.top_corner,
        d1.bottom_corner == d2.bottom_corner,
        d1.diff_x == d2.diff_x,
        d1.diff_y == d2.diff_y,
        d1.matrix.y_size == d2.matrix.y_size,
        d1.matrix.x_size == d2.matrix.x_size,
        forall|y: int, x: int|
            d1.matrix.in_bounds(y, x) ==> #[trigger] d1.matrix.cell(y, x) == d2.matrix.cell(y, x),
{
    assert forall|x: int, y: int, k: int| true implies #[trigger] img1.spec_channel(x, y, k)
        == img2.spec_channel(x, y, k) by {}
    assert forall|x: int, y: int|
        #![trigger wall_at(img1, x, y)]
        #![trigger wall_at(img2, x, y)]
        true implies wall_at(img1, x, y) == wall_at(img2, x, y) by {
        assert(img1.spec_channel(x, y, 0) == img2.spec_channel(x, y, 0));
        assert(img1.spec_channel(x, y, 1) == img2.spec_channel(x, y, 1));
        assert(img1.spec_channel(x, y, 2) == img2.spec_channel(x, y, 2));
    }
    let t1y = d1.top_corner.position.0 as int;
    let t2y = d2.top_corner.position.0 as int;
    if t1y < t2y {
        let xw = choose|x: int| 0 <= x < img1.width && #[trigger] wall_at(img1, x, t1y);
        assert(wall_at(img2, xw, t1y));
        assert(false);
    }
    if t2y < t1y {
        let xw = choose|x: int| 0 <= x < img2.width && #[trigger] wall_at(img2, x, t2y);
        assert(wall_at(img1, xw, t2y));
        assert(false);
    }
    let t1x = d1.top_corner.position.1 as int;
    let t2x = d2.top_corner.position.1 as int;
    if t1x < t2x {
        let yw = choose|y: int| 0 <= y < img1.height && #[trigger] wall_at(img1, t1x, y);
        assert(wall_at(img2, t1x, yw));
        assert(false);
    }
    if t2x < t1x {
        let yw = choose|y: int| 0 <= y < img2.height && #[trigger] wall_at(img2, t2x, y);
        assert(wall_at(img1, t2x, yw));
        assert(false);
    }
    let b1y = d1.bottom_corner.position.0 as int;
    let b2y = d2.bottom_corner.position.0 as int;
    if b1y < b2y {
        let xw = choose|x: int| 0 <= x < img2.width && #[trigger] wall_at(img2, x, b2y - 1);
        assert(wall_at(img1, xw, b2y - 1));
        assert(false);
    }
    if b2y < b1y {
        let xw = choose|x: int| 0 <= x < img1.width && #[trigger] wall_at(img1, x, b1y - 1);
        assert(wall_at(img2, xw, b1y - 1));
        assert(false);
    }
    let b1x = d1.bottom_corner.position.1 as int;
    let b2x = d2.bottom_corner.position.1 as int;
    if b1x < b2x {
        let yw = choose|y: int| 0 <= y < img2.height && #[trigger] wall_at(img2, b2x - 1, y);
        assert(wall_at(img1, b2x - 1, yw));
        assert(false);
    }
    if b2x < b1x {
        let yw = choose|y: int| 0 <= y < img1.height && #[trigger] wall_at(img1, b1x - 1, y);
        assert(wall_at(img2, b1x - 1, yw));
        assert(false);
    }
    assert(d1.top_corner.position == d2.top_corner.position);
    assert(d1.bottom_corner.position == d2.bottom_corner.position);
    assert forall|y: int, x: int| d1.matrix.in_bounds(y, x) implies #[trigger] d1.matrix.cell(y, x)
        == d2.matrix.cell(y, x) by {
        assert(d1.matrix.cell(y, x) == spec_cell_new(
            y as u32,
            x as u32,
            spec_kind_in_region(
                img1,
                d1.diff_x as int,
                d1.diff_y as int,
                d1.matrix.x_size as int,
                d1.matrix.y_size as int,
                x,
                y,
            ),
        ));
        assert(d2.matrix.cell(y, x) == spec_cell_new(
            y as u32,
            x as u32,
            spec_kind_in_region(
                img2,
                d2.diff_x as int,
                d2.diff_y as int,
                d2.matrix.x_size as int,
                d2.matrix.y_size as int,
                x,
                y,
            ),
        ));
    }
}

/// Forward edge scan along row `row` of `m`, from column `i` rightward:
/// skips until a wall cell has been crossed, then counts consecutive
/// open cells, starting the count over at every further wall; the column
/// where a run reaches 5 is the entry point. `counter` and `started`
/// carry the scan's state so far.
pub open spec fn scan_cols_forward(m: Matrix, row: int, i: int, counter: int, started: bool) -> Option<u32>
    decreases m.x_size - i,
{
    if i < 0 || i >= m.x_size {
        None
    } else {
        let wall = m.cell(row, i).t == KIND_WALL;
        let started2 = started || wall;
        let counter2 = if wall {
            0int
        } else if started2 {
            counter + 1
        } else {
            counter
        };
        if counter2 >= 5 {
            Some(i as u32)
        } else {
            scan_cols_forward(m, row, i + 1, counter2, started2)
        }
    }
}

/// Backward edge scan along row `row` of `m`, from column `i` leftward,
/// with the same crossing-then-counting rule as the forward scan.
pub open spec fn scan_cols_backward(m: Matrix, row: int, i: int, counter: int, started: bool) -> Option<u32>
    decreases i + 1,
{
    if i < 0 || i >= m.x_size {
        None
    } else {
        let wall = m.cell(row, i).t == KIND_WALL;
        let started2 = started || wall;
        let counter2 = if wall {
            0int
        } else if started2 {
            counter + 1
        } else {
            counter
        };
        if counter2 >= 5 {
            Some(i as u32)
        } else {
            scan_cols_backward(m, row, i - 1, counter2, started2)
        }
    }
}

/// Forward edge scan down column `col` of `m`, from row `i`, with the
/// same crossing-then-counting rule as the column scans.
pub open spec fn scan_rows_forward(m: Matrix, col: int, i: int, counter: int, started: bool) -> Option<u32>
    decreases m.y_size - i,
{
    if i < 0 || i >= m.y_size {
        None
    } else {
        let wall = m.cell(i, col).t == KIND_WALL;
        let started2 = started || wall;
        let counter2 = if wall {
            0int
        } else if started2 {
            counter + 1
        } else {
            counter
        };
        if counter2 >= 5 {
            Some(i as u32)
        } else {
            scan_rows_forward(m, col, i + 1, counter2, started2)
        }
    }
}

/// Backward edge scan up column `col` of `m`, from row `i`.
pub open spec fn scan_rows_backward(m: Matrix, col: int, i: int, counter: int, started: bool) -> Option<u32>
    decreases i + 1,
{
    if i < 0 || i >= m.y_size {
        None
    } else {
        let wall = m.cell(i, col).t == KIND_WALL;
        let started2 = started || wall;
        let counter2 = if wall {
            0int
        } else if started2 {
            counter + 1
        } else {
            counter
        };
        if counter2 >= 5 {
            Some(i as u32)
        } else {
            scan_rows_backward(m, col, i - 1, counter2, started2)
        }
    }
}

/// The entry column on row `row` for a marker projected to column `c0`:
/// the forward scan's answer if it finds one, else the backward scan's,
/// else the projected column itself.
pub open spec fn search_x_spec(m: Matrix, row: int, c0: int) -> u32 {
    match scan_cols_forward(m, row, c0, 0, false) {
        Some(c) => c,
        None => match scan_cols_backward(m, row, c0, 0, false) {
            Some(c) => c,
            None => c0 as u32,
        },
    }
}

/// The entry row on column `col` for a marker projected to row `r0`,
/// with the same forward-then-backward-then-projection rule.
pub open spec fn search_y_spec(m: Matrix, col: int, r0: int) -> u32 {
    match scan_rows_forward(m, col, r0, 0, false) {
        Some(c) => c,
        None => match scan_rows_backward(m, col, r0, 0, false) {
            Some(c) => c,
            None => r0 as u32,
        },
    }
}

/// Where `create_position` sends the image pixel (`x`, `y`): direct
/// translation inside the cropped region, an edge scan when the pixel
/// lies outside it on exactly one side, and `MarkerAmbiguous` when it
/// lies outside on two sides at once.
pub open spec fn cp_spec(d: DataHandle, x: int, y: int) -> Result<Position, MazeError> {
    let dy = d.diff_y as int;
    let dx = d.diff_x as int;
    let by = d.bottom_corner.position.0 as int;
    let bx = d.bottom_corner.position.1 as int;
    let h = d.matrix.y_size as int;
    let w = d.matrix.x_size as int;
    if dy <= y < by && dx <= x < bx {
        Ok(Position { position: ((y - dy) as u32, (x - dx) as u32) })
    } else {
        let above = y < dy;
        let below = y >= by;
        let left = x < dx;
        let right = x >= bx;
        if (above && left) || (above && right) || (below && left) || (below && right) {
            Err(MazeError::MarkerAmbiguous)
        } else if above {
            Ok(Position { position: (0u32, search_x_spec(d.matrix, 0, x - dx)) })
        } else if below {
            Ok(Position { position: ((h - 1) as u32, search_x_spec(d.matrix, h - 1, x - dx)) })
        } else if left {
            Ok(Position { position: (search_y_spec(d.matrix, 0, y - dy), 0u32) })
        } else {
            Ok(Position { position: (search_y_spec(d.matrix, w - 1, y - dy), (w - 1) as u32) })
        }
    }
}

/// Channel `k` of the annotated image at pixel (`x`, `y`): red over path
/// cells, green over visited cells off the path, and the original byte
/// everywhere else.
pub open spec fn overlay_pixel(
    d: DataHandle,
    path: Seq<MyCell>,
    mtx: Matrix,
    x: int,
    y: int,
    k: int,
) -> u8 {
    let gy = y - d.diff_y;
    let gx = x - d.diff_x;
    if mtx.in_bounds(gy, gx) && on_path(path, gy, gx) {
        if k == 0 {
            255u8
        } else {
            0u8
        }
    } else if mtx.in_bounds(gy, gx) && mtx.cell(gy, gx).visited {
        if k == 1 {
            255u8
        } else {
            0u8
        }
    } else {
        d.image.spec_channel(x, y, k)
    }
}

/// There is a pixel passing the red test somewhere in `img`.
pub open spec fn some_red(img: PixelBuffer) -> bool {
    exists|x: int, y: int|
        0 <= x < img.width && 0 <= y < img.height && #[trigger] red_at(img, x, y)
}

/// There is a pixel passing the blue test somewhere in `img`.
pub open spec fn some_blue(img: PixelBuffer) -> bool {
    exists|x: int, y: int|
        0 <= x < img.width && 0 <= y < img.height && #[trigger] blue_at(img, x, y)
}

/// (`fx`, `fy`) is the first pixel of `img`, in row-major order, that
/// passes the red test.
pub open spec fn is_first_red(img: PixelBuffer, fx: int, fy: int) -> bool {
    &&& img.pixel_in_bounds(fx, fy)
    &&& red_at(img, fx, fy)
    &&& forall|x: int, y: int|
        img.pixel_in_bounds(x, y) && (y < fy || (y == fy && x < fx)) ==> !(#[trigger] red_at(
            img,
            x,
            y,
        ))
}

/// (`fx`, `fy`) is the first pixel of `img`, in row-major order, that
/// passes the blue test.
pub open spec fn is_first_blue(img: PixelBuffer, fx: int, fy: int) -> bool {
    &&& img.pixel_in_bounds(fx, fy)
    &&& blue_at(img, fx, fy)
    &&& forall|x: int, y: int|
        img.pixel_in_bounds(x, y) && (y < fy || (y == fy && x < fx)) ==> !(#[trigger] blue_at(
            img,
            x,
            y,
        ))
}

impl DataHandle {
    /// Scans row `y_pos` of the grid for the column where a corridor
    /// opens: forward from `x_pos`, then backward, falling back to the
    /// projected column itself when neither scan finds an opening.
    pub fn search_x(&self, y_pos: u32, x_pos: u32) -> (r: u32)
        requires
            self.matrix.wf(),
            y_pos < self.matrix.y_size,
            x_pos < self.matrix.x_size,
        ensures
            r == search_x_spec(self.matrix, y_pos as int, x_pos as int),
            r < self.matrix.x_size,
    {
        let x_size: u32 = self.matrix.x_size() as u32;
        let mut counter: u32 = 0;
        let mut started: bool = false;
        let mut i: u32 = x_pos;
        while i < x_size
            invariant
                self.matrix.wf(),
                y_pos < self.matrix.y_size,
                x_pos <= i <= x_size,
                x_size == self.matrix.x_size,
                counter <= 4,
                scan_cols_forward(self.matrix, y_pos as int, x_pos as int, 0, false)
                    == scan_cols_forward(
                    self.matrix,
                    y_pos as int,
                    i as int,
                    counter as int,
                    started,
                ),
            decreases x_size - i,
        {
            let wall = self.matrix.at(y_pos as usize, i as usize).is_wall();
            let started2 = started || wall;
            let counter2 = if wall {
                0
            } else if started2 {
                counter + 1
            } else {
                counter
            };
            if counter2 >= 5 {
                return i;
            }
            counter = counter2;
            started = started2;
            i = i + 1;
        }
        let mut counter: u32 = 0;
        let mut started: bool = false;
        let mut jj: u32 = x_pos + 1;
        while jj > 0
            invariant
                self.matrix.wf(),
                y_pos < self.matrix.y_size,
                x_pos < self.matrix.x_size,
                jj <= x_pos + 1,
                counter <= 4,
                scan_cols_forward(self.matrix, y_pos as int, x_pos as int, 0, false) is None,
                scan_cols_backward(self.matrix, y_pos as int, x_pos as int, 0, false)
                    == scan_cols_backward(
                    self.matrix,
                    y_pos as int,
                    jj - 1,
                    counter as int,
                    started,
                ),
            decreases jj,
        {
            let idx = jj - 1;
            let wall = self.matrix.at(y_pos as usize, idx as usize).is_wall();
            let started2 = started || wall;
            let counter2 = if wall {
                0
            } else if started2 {
                counter + 1
            } else {
                counter
            };
            if counter2 >= 5 {
                return idx;
            }
            counter = counter2;
            started = started2;
            jj = jj - 1;
        }
        x_pos
    }

    /// Scans column `x_pos` of the grid for the row where a corridor
    /// opens: forward from `y_pos`, then backward, falling back to the
    /// projected row itself when neither scan finds an opening.
    pub fn search_y(&self, y_pos: u32, x_pos: u32) -> (r: u32)
        requires
            self.matrix.wf(),
            y_pos < self.matrix.y_size,
            x_pos < self.matrix.x_size,
        ensures
            r == search_y_spec(self.matrix, x_pos as int, y_pos as int),
            r < self.matrix.y_size,
    {
        let y_size: u32 = self.matrix.y_size() as u32;
        let mut counter: u32 = 0;
        let mut started: bool = false;
        let mut i: u32 = y_pos;
        while i < y_size
            invariant
                self.matrix.wf(),
                x_pos < self.matrix.x_size,
                y_pos <= i <= y_size,
                y_size == self.matrix.y_size,
                counter <= 4,
                scan_rows_forward(self.matrix, x_pos as int, y_pos as int, 0, false)
                    == scan_rows_forward(
                    self.matrix,
                    x_pos as int,
                    i as int,
                    counter as int,
                    started,
                ),
            decreases y_size - i,
        {
            let wall = self.matrix.at(i as usize, x_pos as usize).is_wall();
            let started2 = started || wall;
            let counter2 = if wall {
                0
            } else if started2 {
                counter + 1
            } else {
                counter
            };
            if counter2 >= 5 {
                return i;
            }
            counter = counter2;
            started = started2;
            i = i + 1;
        }
        let mut counter: u32 = 0;
        let mut started: bool = false;
        let mut jj: u32 = y_pos + 1;
        while jj > 0
            invariant
                self.matrix.wf(),
                x_pos < self.matrix.x_size,
                y_pos < self.matrix.y_size,
                jj <= y_pos + 1,
                counter <= 4,
                scan_rows_forward(self.matrix, x_pos as int, y_pos as int, 0, false) is None,
                scan_rows_backward(self.matrix, x_pos as int, y_pos as int, 0, false)
                    == scan_rows_backward(
                    self.matrix,
                    x_pos as int,
                    jj - 1,
                    counter as int,
                    started,
                ),
            decreases jj,
        {
            let idx = jj - 1;
            let wall = self.matrix.at(idx as usize, x_pos as usize).is_wall();
            let started2 = started || wall;
            let counter2 = if wall {
                0
            } else if started2 {
                counter + 1
            } else {
                counter
            };
            if counter2 >= 5 {
                return idx;
            }
            counter = counter2;
            started = started2;
            jj = jj - 1;
        }
        y_pos
    }

    /// Translates an image pixel coordinate into a grid position:
    /// directly when it lies in the cropped region, by projecting onto
    /// the nearest edge and scanning along it when it lies outside on
    /// exactly one side, and failing with `MarkerAmbiguous` when it lies
    /// outside on two sides at once.
    pub fn create_position(&self, x_pos: u32, y_pos: u32) -> (r: Result<Position, MazeError>)
        requires
            self.wf(),
        ensures
            r == cp_spec(*self, x_pos as int, y_pos as int),
            r is Ok ==> self.matrix.in_bounds(
                r->Ok_0.position.0 as int,
                r->Ok_0.position.1 as int,
            ),
    {
        let dy = self.diff_y;
        let dx = self.diff_x;
        let by = self.bottom_corner.y();
        let bx = self.bottom_corner.x();
        let h: u32 = self.matrix.y_size() as u32;
        let w: u32 = self.matrix.x_size() as u32;
        if dy <= y_pos && y_pos < by && dx <= x_pos && x_pos < bx {
            return Ok(Position::new(y_pos - dy, x_pos - dx));
        }
        let above = y_pos < dy;
        let below = y_pos >= by;
        let left = x_pos < dx;
        let right = x_pos >= bx;
        if (above && left) || (above && right) || (below && left) || (below && right) {
            return Err(MazeError::MarkerAmbiguous);
        }
        if above {
            return Ok(Position::new(0, self.search_x(0, x_pos - dx)));
        }
        if below {
            return Ok(Position::new(h - 1, self.search_x(h - 1, x_pos - dx)));
        }
        if left {
            return Ok(Position::new(self.search_y(y_pos - dy, 0), 0));
        }
        Ok(Position::new(self.search_y(y_pos - dy, w - 1), w - 1))
    }

    /// Overlays the search's outcome onto the stored image: every pixel
    /// whose grid cell lies on the reconstructed path turns red, every
    /// other pixel whose grid cell was visited turns green, and all
    /// remaining pixels keep their bytes. The caller hands the annotated
    /// buffer to an external encoder afterwards.
    pub fn write_image(&mut self, path: &Vec<MyCell>, matrix: &Matrix)
        requires
            old(self).wf(),
            matrix.wf(),
            matrix.y_size == old(self).matrix.y_size,
            matrix.x_size == old(self).matrix.x_size,
            forall|i: int|
                0 <= i < path@.len() ==> matrix.in_bounds(
                    (#[trigger] path@[i]).position.position.0 as int,
                    path@[i].position.position.1 as int,
                ),
        ensures
            final(self).wf(),
            final(self).name == old(self).name,
            final(self).matrix == old(self).matrix,
            final(self).diff_x == old(self).diff_x,
            final(self).diff_y == old(self).diff_y,
            final(self).top_corner == old(self).top_corner,
            final(self).bottom_corner == old(self).bottom_corner,
            final(self).image.width == old(self).image.width,
            final(self).image.height == old(self).image.height,
            forall|x: int, y: int, k: int|
                final(self).image.pixel_in_bounds(x, y) && 0 <= k < 3
                    ==> #[trigger] final(self).image.spec_channel(x, y, k) == overlay_pixel(
                    *old(self),
                    path@,
                    *matrix,
                    x,
                    y,
                    k,
                ),
    {
        let dy = self.diff_y;
        let dx = self.diff_x;
        let h: u32 = self.matrix.y_size() as u32;
        let w: u32 = self.matrix.x_size() as u32;
        let mut gy: u32 = 0;
        while gy < h
            invariant
                old(self).wf(),
                matrix.wf(),
                matrix.y_size == old(self).matrix.y_size,
                matrix.x_size == old(self).matrix.x_size,
                dy == old(self).diff_y,
                dx == old(self).diff_x,
                h == old(self).matrix.y_size,
                w == old(self).matrix.x_size,
                gy <= h,
                *self == (DataHandle { image: self.image, ..*old(self) }),
                self.image.wf(),
                self.image.width == old(self).image.width,
                self.image.height == old(self).image.height,
                forall|x: int, y: int, k: int|
                    self.image.pixel_in_bounds(x, y) && 0 <= k < 3
                        ==> #[trigger] self.image.spec_channel(x, y, k) == {
                        let ggy = y - dy;
                        let ggx = x - dx;
                        if matrix.in_bounds(ggy, ggx) && ggy < gy && matrix.cell(ggy, ggx).visited {
                            if k == 1 {
                                255u8
                            } else {
                                0u8
                            }
                        } else {
                            old(self).image.spec_channel(x, y, k)
                        }
                    },
            decreases h - gy,
        {
            let mut gx: u32 = 0;
            while gx < w
                invariant
                    old(self).wf(),
                    matrix.wf(),
                    matrix.y_size == old(self).matrix.y_size,
                    matrix.x_size == old(self).matrix.x_size,
                    dy == old(self).diff_y,
                    dx == old(self).diff_x,
                    h == old(self).matrix.y_size,
                    w == old(self).matrix.x_size,
                    gy < h,
                    gx <= w,
                    *self == (DataHandle { image: self.image, ..*old(self) }),
                    self.image.wf(),
                    self.image.width == old(self).image.width,
                    self.image.height == old(self).image.height,
                    forall|x: int, y: int, k: int|
                        self.image.pixel_in_bounds(x, y) && 0 <= k < 3
                            ==> #[trigger] self.image.spec_channel(x, y, k) == {
                            let ggy = y - dy;
                            let ggx = x - dx;
                            if matrix.in_bounds(ggy, ggx) && (ggy < gy || (ggy == gy && ggx < gx))
                                && matrix.cell(ggy, ggx).visited {
                                if k == 1 {
                                    255u8
                                } else {
                                    0u8
                                }
                            } else {
                                old(self).image.spec_channel(x, y, k)
                            }
                        },
                decreases w - gx,
            {
                if matrix.at(gy as usize, gx as usize).get_visited() {
                    self.image.set_pixel(gx + dx, gy + dy, (0, 255, 0));
                }
                gx = gx + 1;
            }
            gy = gy + 1;
        }
        let mut i: usize = 0;
        while i < path.len()
            invariant
                old(self).wf(),
                matrix.wf(),
                matrix.y_size == old(self).matrix.y_size,
                matrix.x_size == old(self).matrix.x_size,
                dy == old(self).diff_y,
                dx == old(self).diff_x,
                h == old(self).matrix.y_size,
                w == old(self).matrix.x_size,
                i <= path@.len(),
                forall|j: int|
                    0 <= j < path@.len() ==> matrix.in_bounds(
                        (#[trigger] path@[j]).position.position.0 as int,
                        path@[j].position.position.1 as int,
                    ),
                *self == (DataHandle { image: self.image, ..*old(self) }),
                self.image.wf(),
                self.image.width == old(self).image.width,
                self.image.height == old(self).image.height,
                forall|x: int, y: int, k: int|
                    self.image.pixel_in_bounds(x, y) && 0 <= k < 3
                        ==> #[trigger] self.image.spec_channel(x, y, k) == {
                        let ggy = y - dy;
                        let ggx = x - dx;
                        if matrix.in_bounds(ggy, ggx) && on_path_prefix(path@, i as int, ggy, ggx) {
                            if k == 0 {
                                255u8
                            } else {
                                0u8
                            }
                        } else if matrix.in_bounds(ggy, ggx) && matrix.cell(ggy, ggx).visited {
                            if k == 1 {
                                255u8
                            } else {
                                0u8
                            }
                        } else {
                            old(self).image.spec_channel(x, y, k)
                        }
                    },
            decreases path@.len() - i,
        {
            let cell = &path[i];
            self.image.set_pixel(cell.x() + dx, cell.y() + dy, (255, 0, 0));
            i = i + 1;
        }
        proof {
            assert forall|x: int, y: int, k: int|
                self.image.pixel_in_bounds(x, y) && 0 <= k < 3 implies #[trigger] self.image.spec_channel(
                x,
                y,
                k,
            ) == overlay_pixel(*old(self), path@, *matrix, x, y, k) by {
                assert(on_path_prefix(path@, path@.len() as int, y - dy, x - dx) == on_path(
                    path@,
                    y - dy,
                    x - dx,
                ));
            }
        }
    }

    /// Finds the first red pixel of the full image in row-major order
    /// and translates it into a grid position; fails with
    /// `MarkerNotFound` when no pixel passes the red test.
    pub fn get_start(&self) -> (r: Result<Position, MazeError>)
        requires
            self.wf(),
        ensures
            (r == Err::<Position, MazeError>(MazeError::MarkerNotFound)) <==> !some_red(
                self.image,
            ),
            some_red(self.image) ==> exists|fx: int, fy: int|
                #[trigger] is_first_red(self.image, fx, fy) && r == cp_spec(*self, fx, fy),
            r is Ok ==> self.matrix.in_bounds(
                r->Ok_0.position.0 as int,
                r->Ok_0.position.1 as int,
            ),
    {
        let mut y: u32 = 0;
        while y < self.image.height()
            invariant
                self.wf(),
                y <= self.image.height,
                forall|xx: int, yy: int|
                    0 <= xx < self.image.width && 0 <= yy < y ==> !(#[trigger] red_at(
                        self.image,
                        xx,
                        yy,
                    )),
            decreases self.image.height - y,
        {
            let mut x: u32 = 0;
            while x < self.image.width()
                invariant
                    self.wf(),
                    y < self.image.height,
                    x <= self.image.width,
                    forall|xx: int, yy: int|
                        0 <= xx < self.image.width && 0 <= yy < y ==> !(#[trigger] red_at(
                            self.image,
                            xx,
                            yy,
                        )),
                    forall|xx: int| 0 <= xx < x ==> !(#[trigger] red_at(self.image, xx, y as int)),
                decreases self.image.width - x,
            {
                if test_red(self.image.pixel_slice(x, y)) {
                    assert(is_first_red(self.image, x as int, y as int));
                    return self.create_position(x, y);
                }
                x = x + 1;
            }
            y = y + 1;
        }
        assert(!some_red(self.image));
        Err(MazeError::MarkerNotFound)
    }

    /// Finds the first blue pixel of the full image in row-major order
    /// and translates it into a grid position; fails with
    /// `MarkerNotFound` when no pixel passes the blue test.
    pub fn get_end(&self) -> (r: Result<Position, MazeError>)
        requires
            self.wf(),
        ensures
            (r == Err::<Position, MazeError>(MazeError::MarkerNotFound)) <==> !some_blue(
                self.image,
            ),
            some_blue(self.image) ==> exists|fx: int, fy: int|
                #[trigger] is_first_blue(self.image, fx, fy) && r == cp_spec(*self, fx, fy),
            r is Ok ==> self.matrix.in_bounds(
                r->Ok_0.position.0 as int,
                r->Ok_0.position.1 as int,
            ),
    {
        let mut y: u32 = 0;
        while y < self.image.height()
            invariant
                self.wf(),
                y <= self.image.height,
                forall|xx: int, yy: int|
                    0 <= xx < self.image.width && 0 <= yy < y ==> !(#[trigger] blue_at(
                        self.image,
                        xx,
                        yy,
                    )),
            decreases self.image.height - y,
        {
            let mut x: u32 = 0;
            while x < self.image.width()
                invariant
                    self.wf(),
                    y < self.image.height,
                    x <= self.image.width,
                    forall|xx: int, yy: int|
                        0 <= xx < self.image.width && 0 <= yy < y ==> !(#[trigger] blue_at(
                            self.image,
                            xx,
                            yy,
                        )),
                    forall|xx: int| 0 <= xx < x ==> !(#[trigger] blue_at(self.image, xx, y as int)),
                decreases self.image.width - x,
            {
                if test_blue(self.image.pixel_slice(x, y)) {
                    assert(is_first_blue(self.image, x as int, y as int));
                    return self.create_position(x, y);
                }
                x = x + 1;
            }
            y = y + 1;
        }
        assert(!some_blue(self.image));
        Err(MazeError::MarkerNotFound)
    }
}

} // verus!
