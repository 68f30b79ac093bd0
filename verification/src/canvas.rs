//! The raster canvas and the drawing primitives that paint on it.
//!
//! The pixel buffer is an `image::RgbaImage`, and rectangles and polygons are
//! filled by `imageproc`. Verus does not look inside either: what a canvas
//! holds is named by [`canvas_width`], [`canvas_height`] and
//! [`canvas_pixels`], and the private functions of this module state, without
//! proof, what the outside routines do in terms of those names. Everything
//! else in the crate is proved against these statements.

use vstd::prelude::*;
use crate::geometry::Point;

verus! {

/// An 8-bit colour with an alpha channel.
#[derive(Clone, Copy, Debug, PartialEq, Eq, Structural)]
pub struct Rgba8 {
    pub red: u8,
    pub green: u8,
    pub blue: u8,
    pub alpha: u8,
}

/// An 8-bit colour without an alpha channel.
#[derive(Clone, Copy, Debug, PartialEq, Eq, Structural)]
pub struct Rgb8 {
    pub red: u8,
    pub green: u8,
    pub blue: u8,
}

/// A rectangular grid of RGBA pixels.
///
/// It holds an `image::RgbaImage`, of which Verus knows nothing: the canvas
/// is opaque to it, and what is known of a canvas is what the functions of
/// this module say of [`canvas_width`], [`canvas_height`] and
/// [`canvas_pixels`].
#[verifier::external_body]
pub struct Canvas {
    image: image::RgbaImage,
}

/// The number of pixel columns of a canvas.
pub uninterp spec fn canvas_width(canvas: Canvas) -> nat;

/// The number of pixel rows of a canvas.
pub uninterp spec fn canvas_height(canvas: Canvas) -> nat;

/// The colour of every pixel of a canvas, keyed by `(column, row)`.
pub uninterp spec fn canvas_pixels(canvas: Canvas) -> Map<(int, int), Rgba8>;

/// The pixels that `imageproc::drawing::draw_polygon_mut` leaves on a canvas
/// of the given size that held `pixels`, after filling the closed polygon
/// through `vertices` with `color`.
pub uninterp spec fn polygon_painted(
    pixels: Map<(int, int), Rgba8>,
    width: nat,
    height: nat,
    vertices: Seq<Point>,
    color: Rgba8,
) -> Map<(int, int), Rgba8>;

/// The widest and highest canvas, and the largest rectangle side, that the
/// drawing primitives can address: they compute in `i32`.
pub const MAX_DRAWING_EXTENT: u32 = 0x7fff_ffff;

/// The largest magnitude of a polygon vertex coordinate for which the
/// polygon filler's `i32` and single-precision arithmetic stays in range.
pub const MAX_VERTEX_MAGNITUDE: i32 = 0x2000_0000;

impl Rgba8 {
    /// The colour of a pixel that nothing was painted on.
    pub open spec fn spec_transparent() -> Rgba8 {
        Rgba8 { red: 0, green: 0, blue: 0, alpha: 0 }
    }
}

/// Whether `(x, y)` addresses a pixel of a canvas `width` wide and `height` high.
pub open spec fn on_canvas(width: nat, height: nat, x: int, y: int) -> bool {
    0 <= x < width && 0 <= y < height
}

/// The pixels of a canvas of the given size on which nothing was painted.
pub open spec fn blank_pixels(width: nat, height: nat) -> Map<(int, int), Rgba8> {
    Map::new(
        |p: (int, int)| on_canvas(width, height, p.0, p.1),
        |p: (int, int)| Rgba8::spec_transparent(),
    )
}

/// Whether `(x, y)` lies in the rectangle whose top-left corner is
/// `(left, top)` and whose sides are `width` and `height`.
pub open spec fn in_rect(left: int, top: int, width: int, height: int, x: int, y: int) -> bool {
    left <= x < left + width && top <= y < top + height
}

/// Whether every vertex coordinate is small enough for the polygon filler.
pub open spec fn vertices_in_range(vertices: Seq<Point>) -> bool {
    forall|k: int|
        0 <= k < vertices.len() ==> {
            &&& -MAX_VERTEX_MAGNITUDE <= (#[trigger] vertices[k]).x <= MAX_VERTEX_MAGNITUDE
            &&& -MAX_VERTEX_MAGNITUDE <= vertices[k].y <= MAX_VERTEX_MAGNITUDE
        }
}

/// The colour whose four channels are the bytes of `bytes` from `at` on.
pub open spec fn color_at(bytes: Seq<u8>, at: int) -> Rgba8 {
    Rgba8 { red: bytes[at], green: bytes[at + 1], blue: bytes[at + 2], alpha: bytes[at + 3] }
}

/// Whether the polygon filler can be let loose on a canvas of the given size
/// with these vertices: the canvas is neither empty nor too large, the
/// polygon is an open path of two vertices or more, and the vertices are in
/// range.
pub open spec fn polygon_is_drawable(width: nat, height: nat, vertices: Seq<Point>) -> bool {
    &&& 1 <= width <= MAX_DRAWING_EXTENT
    &&& 1 <= height <= MAX_DRAWING_EXTENT
    &&& vertices.len() >= 2
    &&& vertices[0] != vertices[vertices.len() - 1]
    &&& vertices_in_range(vertices)
}

/// The byte length of the pixel buffer of a canvas of the given size. A
/// canvas can be made when this is at most `isize::MAX`.
pub open spec fn buffer_length(width: int, height: int) -> int {
    4 * width * height
}

/// Calls `image::ImageBuffer::new`. The buffer it returns has the given size
/// and every channel of every pixel is zero. The call panics when the byte
/// length of the buffer is more than a vector can hold, which is
/// `isize::MAX` bytes, so that is left out.
#[verifier::external_body]
fn blank_image(width: u32, height: u32) -> (canvas: Canvas)
    requires
        buffer_length(width as int, height as int) <= isize::MAX,
    ensures
        canvas_width(canvas) == width,
        canvas_height(canvas) == height,
        canvas_pixels(canvas) == blank_pixels(width as nat, height as nat),
{
    Canvas { image: image::ImageBuffer::new(width, height) }
}

/// Calls `image::ImageBuffer::width`, which reads the width that the buffer
/// was made with.
#[verifier::external_body]
fn image_width(canvas: &Canvas) -> (width: u32)
    ensures
        width == canvas_width(*canvas),
{
    canvas.image.width()
}

/// Calls `image::ImageBuffer::height`, which reads the height that the
/// buffer was made with.
#[verifier::external_body]
fn image_height(canvas: &Canvas) -> (height: u32)
    ensures
        height == canvas_height(*canvas),
{
    canvas.image.height()
}

/// Calls `image::ImageBuffer::get_pixel`, which reads the pixel at `(x, y)`
/// and panics when that lies outside the buffer.
#[verifier::external_body]
fn image_pixel(canvas: &Canvas, x: u32, y: u32) -> (color: Rgba8)
    requires
        on_canvas(canvas_width(*canvas), canvas_height(*canvas), x as int, y as int),
    ensures
        color == canvas_pixels(*canvas)[(x as int, y as int)],
{
    let channels = canvas.image.get_pixel(x, y).0;
    Rgba8 { red: channels[0], green: channels[1], blue: channels[2], alpha: channels[3] }
}

/// Calls `image::ImageBuffer::put_pixel`, which replaces the one pixel at
/// `(x, y)` and panics when that lies outside the buffer.
#[verifier::external_body]
fn image_put_pixel(canvas: &mut Canvas, x: u32, y: u32, color: Rgba8)
    requires
        on_canvas(canvas_width(*old(canvas)), canvas_height(*old(canvas)), x as int, y as int),
    ensures
        canvas_width(*final(canvas)) == canvas_width(*old(canvas)),
        canvas_height(*final(canvas)) == canvas_height(*old(canvas)),
        canvas_pixels(*final(canvas)) == canvas_pixels(*old(canvas)).insert(
            (x as int, y as int),
            color,
        ),
{
    canvas.image.put_pixel(x, y, image::Rgba([color.red, color.green, color.blue, color.alpha]));
}

/// Calls `imageproc::drawing::draw_filled_rect_mut` on the rectangle made by
/// `imageproc::rect::Rect::at(left, top).of_size(width, height)`. It
/// overwrites every pixel of the canvas that lies in the rectangle and
/// touches no other. `of_size` panics on an empty rectangle or canvas, and
/// the rectangle's right and bottom edges are computed in `i32`, so the sides
/// and the far corner must fit there.
#[verifier::external_body]
fn image_fill_rect(
    canvas: &mut Canvas,
    left: i32,
    top: i32,
    width: u32,
    height: u32,
    color: Rgba8,
)
    requires
        1 <= canvas_width(*old(canvas)) <= MAX_DRAWING_EXTENT,
        1 <= canvas_height(*old(canvas)) <= MAX_DRAWING_EXTENT,
        1 <= width <= MAX_DRAWING_EXTENT,
        1 <= height <= MAX_DRAWING_EXTENT,
        left + width <= MAX_DRAWING_EXTENT,
        top + height <= MAX_DRAWING_EXTENT,
    ensures
        canvas_width(*final(canvas)) == canvas_width(*old(canvas)),
        canvas_height(*final(canvas)) == canvas_height(*old(canvas)),
        forall|x: int, y: int|
            on_canvas(canvas_width(*old(canvas)), canvas_height(*old(canvas)), x, y) ==> (
            #[trigger] canvas_pixels(*final(canvas))[(x, y)]) == if in_rect(
                left as int,
                top as int,
                width as int,
                height as int,
                x,
                y,
            ) {
                color
            } else {
                canvas_pixels(*old(canvas))[(x, y)]
            },
{
    let rect = imageproc::rect::Rect::at(left, top).of_size(width, height);
    let pixel = image::Rgba([color.red, color.green, color.blue, color.alpha]);
    imageproc::drawing::draw_filled_rect_mut(&mut canvas.image, rect, pixel);
}

/// Calls `imageproc::drawing::draw_polygon_mut`. What it paints is named, not
/// described: see [`polygon_painted`]. It keeps the size of the canvas, and
/// the only thing it writes is `color`: every pixel afterwards has that
/// colour or the one it had. It panics when the first vertex equals the
/// last, and it draws on row 0 of a canvas without rows; its edge arithmetic
/// is in `i32` and `f32`, which the bound on the vertices keeps in range.
#[verifier::external_body]
fn image_fill_polygon(canvas: &mut Canvas, vertices: &[Point], color: Rgba8)
    requires
        polygon_is_drawable(
            canvas_width(*old(canvas)),
            canvas_height(*old(canvas)),
            vertices@,
        ),
    ensures
        canvas_width(*final(canvas)) == canvas_width(*old(canvas)),
        canvas_height(*final(canvas)) == canvas_height(*old(canvas)),
        canvas_pixels(*final(canvas)) == polygon_painted(
            canvas_pixels(*old(canvas)),
            canvas_width(*old(canvas)),
            canvas_height(*old(canvas)),
            vertices@,
            color,
        ),
        forall|x: int, y: int|
            on_canvas(canvas_width(*old(canvas)), canvas_height(*old(canvas)), x, y) ==> (
            #[trigger] canvas_pixels(*final(canvas))[(x, y)]) == color || canvas_pixels(
                *final(canvas),
            )[(x, y)] == canvas_pixels(*old(canvas))[(x, y)],
{
    let corners: Vec<imageproc::point::Point<i32>> =
        vertices.iter().map(|vertex| imageproc::point::Point::new(vertex.x, vertex.y)).collect();
    let pixel = image::Rgba([color.red, color.green, color.blue, color.alpha]);
    imageproc::drawing::draw_polygon_mut(&mut canvas.image, &corners, pixel);
}

/// Calls `image::ImageBuffer::into_raw`, which hands out the buffer's bytes:
/// four per pixel, red first, the pixels of a row side by side and the rows
/// one after another from the top.
#[verifier::external_body]
fn image_into_raw(canvas: Canvas) -> (bytes: Vec<u8>)
    ensures
        bytes.len() == buffer_length(canvas_width(canvas) as int, canvas_height(canvas) as int),
        forall|x: int, y: int|
            on_canvas(canvas_width(canvas), canvas_height(canvas), x, y) ==> color_at(
                bytes@,
                4 * (y * canvas_width(canvas) + x),
            ) == #[trigger] canvas_pixels(canvas)[(x, y)],
{
    canvas.image.into_raw()
}

impl Canvas {
    /// The colour of the pixel at `(x, y)`, as a specification.
    pub open spec fn spec_pixel(self, x: int, y: int) -> Rgba8 {
        canvas_pixels(self)[(x, y)]
    }

    /// A canvas of the given size on which every pixel is transparent.
    pub fn new(width: u32, height: u32) -> (canvas: Canvas)
        requires
            buffer_length(width as int, height as int) <= isize::MAX,
        ensures
            canvas_width(canvas) == width,
            canvas_height(canvas) == height,
            canvas_pixels(canvas) == blank_pixels(width as nat, height as nat),
    {
        blank_image(width, height)
    }

    /// The number of pixel columns.
    pub fn width(&self) -> (width: u32)
        ensures
            width == canvas_width(*self),
    {
        image_width(self)
    }

    /// The number of pixel rows.
    pub fn height(&self) -> (height: u32)
        ensures
            height == canvas_height(*self),
    {
        image_height(self)
    }

    /// The colour of the pixel at `(x, y)`, or `None` when the canvas has no
    /// such pixel.
    pub fn pixel(&self, x: u32, y: u32) -> (color: Option<Rgba8>)
        ensures
            color == if on_canvas(canvas_width(*self), canvas_height(*self), x as int, y as int) {
                Some(self.spec_pixel(x as int, y as int))
            } else {
                None
            },
    {
        if x < image_width(self) && y < image_height(self) {
            Some(image_pixel(self, x, y))
        } else {
            None
        }
    }

    /// Paints the pixel at `(x, y)`, if the canvas has one, and says whether
    /// it did. No other pixel changes.
    pub fn put_pixel(&mut self, x: u32, y: u32, color: Rgba8) -> (painted: bool)
        ensures
            canvas_width(*final(self)) == canvas_width(*old(self)),
            canvas_height(*final(self)) == canvas_height(*old(self)),
            painted == on_canvas(
                canvas_width(*old(self)),
                canvas_height(*old(self)),
                x as int,
                y as int,
            ),
            canvas_pixels(*final(self)) == if painted {
                canvas_pixels(*old(self)).insert((x as int, y as int), color)
            } else {
                canvas_pixels(*old(self))
            },
    {
        if x < image_width(self) && y < image_height(self) {
            image_put_pixel(self, x, y, color);
            true
        } else {
            false
        }
    }

    /// Fills the rectangle whose top-left corner is `(left, top)` and whose
    /// sides are `width` and `height`, as far as it lies on the canvas. No
    /// pixel outside the rectangle changes. Nothing is drawn, and `false` is
    /// returned, on a canvas wider or higher than [`MAX_DRAWING_EXTENT`].
    pub fn fill_rect(&mut self, left: i32, top: i32, width: u32, height: u32, color: Rgba8) -> (drawn:
        bool)
        ensures
            canvas_width(*final(self)) == canvas_width(*old(self)),
            canvas_height(*final(self)) == canvas_height(*old(self)),
            drawn == (canvas_width(*old(self)) <= MAX_DRAWING_EXTENT && canvas_height(*old(self))
                <= MAX_DRAWING_EXTENT),
            !drawn ==> canvas_pixels(*final(self)) == canvas_pixels(*old(self)),
            drawn ==> forall|x: int, y: int|
                on_canvas(canvas_width(*old(self)), canvas_height(*old(self)), x, y) ==> (
                #[trigger] canvas_pixels(*final(self))[(x, y)]) == if in_rect(
                    left as int,
                    top as int,
                    width as int,
                    height as int,
                    x,
                    y,
                ) {
                    color
                } else {
                    canvas_pixels(*old(self))[(x, y)]
                },
    {
        let canvas_width = image_width(self);
        let canvas_height = image_height(self);
        if canvas_width > MAX_DRAWING_EXTENT || canvas_height > MAX_DRAWING_EXTENT {
            return false;
        }
        let x0: i64 = if left > 0 {
            left as i64
        } else {
            0
        };
        let y0: i64 = if top > 0 {
            top as i64
        } else {
            0
        };
        let right: i64 = left as i64 + width as i64;
        let bottom: i64 = top as i64 + height as i64;
        let x1: i64 = if right < canvas_width as i64 {
            right
        } else {
            canvas_width as i64
        };
        let y1: i64 = if bottom < canvas_height as i64 {
            bottom
        } else {
            canvas_height as i64
        };
        if x0 < x1 && y0 < y1 {
            image_fill_rect(self, x0 as i32, y0 as i32, (x1 - x0) as u32, (y1 - y0) as u32, color);
        }
        true
    }

    /// Fills the closed polygon through `vertices`, if the polygon filler can
    /// take it, and says whether it did: see [`polygon_is_drawable`]. What
    /// it paints is [`polygon_painted`]; every pixel afterwards has the
    /// given colour or the one it had.
    pub fn fill_polygon(&mut self, vertices: &[Point], color: Rgba8) -> (drawn: bool)
        ensures
            canvas_width(*final(self)) == canvas_width(*old(self)),
            canvas_height(*final(self)) == canvas_height(*old(self)),
            forall|x: int, y: int|
                on_canvas(canvas_width(*old(self)), canvas_height(*old(self)), x, y) ==> (
                #[trigger] canvas_pixels(*final(self))[(x, y)]) == color || canvas_pixels(
                    *final(self),
                )[(x, y)] == canvas_pixels(*old(self))[(x, y)],
            drawn == polygon_is_drawable(
                canvas_width(*old(self)),
                canvas_height(*old(self)),
                vertices@,
            ),
            canvas_pixels(*final(self)) == if drawn {
                polygon_painted(
                    canvas_pixels(*old(self)),
                    canvas_width(*old(self)),
                    canvas_height(*old(self)),
                    vertices@,
                    color,
                )
            } else {
                canvas_pixels(*old(self))
            },
    {
        let canvas_width = image_width(self);
        let canvas_height = image_height(self);
        if canvas_width < 1 || canvas_width > MAX_DRAWING_EXTENT || canvas_height < 1
            || canvas_height > MAX_DRAWING_EXTENT {
            return false;
        }
        let count = vertices.len();
        if count < 2 || vertices[0] == vertices[count - 1] {
            return false;
        }
        let mut k: usize = 0;
        while k < count
            invariant
                k <= count,
                count == vertices.len(),
                vertices_in_range(vertices@.take(k as int)),
            decreases count - k,
        {
            let vertex = vertices[k];
            if vertex.x < -MAX_VERTEX_MAGNITUDE || vertex.x > MAX_VERTEX_MAGNITUDE || vertex.y
                < -MAX_VERTEX_MAGNITUDE || vertex.y > MAX_VERTEX_MAGNITUDE {
                return false;
            }
            assert forall|n: int| 0 <= n < k + 1 implies {
                &&& -MAX_VERTEX_MAGNITUDE <= (#[trigger] vertices@.take(k + 1)[n]).x
                    <= MAX_VERTEX_MAGNITUDE
                &&& -MAX_VERTEX_MAGNITUDE <= vertices@.take(k + 1)[n].y <= MAX_VERTEX_MAGNITUDE
            } by {
                if n < k {
                    assert(vertices@.take(k + 1)[n] == vertices@.take(k as int)[n]);
                }
            }
            k += 1;
        }
        assert(vertices@.take(k as int) == vertices@);
        image_fill_polygon(self, vertices, color);
        true
    }

    /// The pixel buffer as bytes: four per pixel, red first, row after row.
    pub fn into_rgba_bytes(self) -> (bytes: Vec<u8>)
        ensures
            bytes.len() == buffer_length(canvas_width(self) as int, canvas_height(self) as int),
            forall|x: int, y: int|
                on_canvas(canvas_width(self), canvas_height(self), x, y) ==> color_at(
                    bytes@,
                    4 * (y * canvas_width(self) + x),
                ) == #[trigger] canvas_pixels(self)[(x, y)],
    {
        image_into_raw(self)
    }
}

} // verus!
