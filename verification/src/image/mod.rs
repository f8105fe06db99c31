//! From an image's alpha channel to the contours of its opaque region.

use crate::error::Error;
use crate::geometry::{views, Point, Polygon};
use vstd::prelude::*;

pub mod decode;
pub mod grid;
pub mod rectangle;
pub mod ring;
pub mod trace;
pub mod walk;

pub use grid::Grid;
pub use walk::get_polygon_from_point;

use decode::decode_alpha;
use grid::{
    edge_points, edge_points_of, first_opaque_of, fits_coordinates, is_blank, is_first_opaque,
    is_grid,
};
use trace::{is_trace, trace_contours};

verus! {

/// The largest width and the largest height of an image: a pixel's column and
/// row must be 16-bit coordinates.
pub const MAX_DIMENSION: u32 = 0xFFFF;

/// The opacity grid of an image of `width` by `height` pixels whose alpha
/// samples are `alpha`, row by row: a cell is opaque where the sample is not
/// zero.
pub open spec fn opacity_grid(width: nat, height: nat, alpha: Seq<u16>) -> Seq<Seq<bool>> {
    Seq::new(height, |y: int| Seq::new(width, |x: int| alpha[y * width + x] > 0))
}

/// Why an image of these dimensions with `samples` alpha samples is refused,
/// or `None` where it is accepted.
pub open spec fn refusal(width: u32, height: u32, samples: nat) -> Option<Error> {
    if width > MAX_DIMENSION || height > MAX_DIMENSION {
        Some(Error::CoordinateOverflow)
    } else if samples != width * height {
        Some(Error::Decode)
    } else {
        None
    }
}

/// A decoded image, reduced to what the contours depend on: its dimensions and
/// the alpha sample of each pixel.
pub struct ImagePolygon {
    alpha: Vec<u16>,
    size: (u16, u16),
}

impl ImagePolygon {
    #[verifier::type_invariant]
    spec fn well_formed(self) -> bool {
        self.alpha@.len() == self.size.0 * self.size.1
    }

    /// The number of pixels in a row.
    pub closed spec fn width(&self) -> nat {
        self.size.0 as nat
    }

    /// The number of rows.
    pub closed spec fn height(&self) -> nat {
        self.size.1 as nat
    }

    /// The alpha samples, row by row.
    pub closed spec fn alpha(&self) -> Seq<u16> {
        self.alpha@
    }

    /// The opacity grid of the image.
    pub open spec fn grid(&self) -> Seq<Seq<bool>> {
        opacity_grid(self.width(), self.height(), self.alpha())
    }

    /// Takes a decoded image as its dimensions and its alpha samples, one for
    /// each pixel, row by row.
    ///
    /// Fails with `CoordinateOverflow` where the width or the height is above
    /// 65535, and else with `Decode` where `alpha` does not hold exactly
    /// `width * height` samples.
    pub fn new(width: u32, height: u32, alpha: Vec<u16>) -> (made: Result<ImagePolygon, Error>)
        ensures
            match made {
                Ok(image) => {
                    &&& refusal(width, height, alpha@.len()) is None
                    &&& image.width() == width
                    &&& image.height() == height
                    &&& image.alpha() == alpha@
                },
                Err(e) => refusal(width, height, alpha@.len()) == Some(e),
            },
    {
        if width > MAX_DIMENSION || height > MAX_DIMENSION {
            return Err(Error::CoordinateOverflow);
        }
        assert(width * height <= 0xFFFF * 0xFFFF) by (nonlinear_arith)
            requires
                width <= 0xFFFF,
                height <= 0xFFFF,
        ;
        let pixels: u64 = (width as u64) * (height as u64);
        if alpha.len() as u64 != pixels {
            return Err(Error::Decode);
        }
        Ok(ImagePolygon { alpha, size: (width as u16, height as u16) })
    }

    /// Takes what the decoder has made of an encoded image: the width, the
    /// height and the alpha samples, or the decoder's error.
    ///
    /// Fails with `Decode` where the decoder has failed, and for a decoded
    /// image as `new` does.
    pub fn from_decoded(decoded: Result<(u32, u32, Vec<u16>), ::image::ImageError>) -> (made: Result<
        ImagePolygon,
        Error,
    >)
        ensures
            match decoded {
                Ok((width, height, alpha)) => match made {
                    Ok(image) => {
                        &&& refusal(width, height, alpha@.len()) is None
                        &&& image.width() == width
                        &&& image.height() == height
                        &&& image.alpha() == alpha@
                    },
                    Err(e) => refusal(width, height, alpha@.len()) == Some(e),
                },
                Err(_) => made matches Err(e) && e == Error::Decode,
            },
    {
        match decoded {
            Ok((width, height, alpha)) => ImagePolygon::new(width, height, alpha),
            Err(_) => Err(Error::Decode),
        }
    }

    /// Decodes an encoded image, in whatever format the decoder recognises,
    /// and takes its alpha channel.
    ///
    /// What comes of given bytes is for the decoder to say, and `from_decoded`
    /// says what is made of each of its answers. Whatever the answer, a
    /// failure is `Decode` or `CoordinateOverflow`, and an image has a width
    /// and a height of at most 65535 and one alpha sample for each pixel.
    pub fn from_bytes(data: Vec<u8>) -> (made: Result<ImagePolygon, Error>)
        ensures
            match made {
                Ok(image) => {
                    &&& image.width() <= MAX_DIMENSION
                    &&& image.height() <= MAX_DIMENSION
                    &&& image.alpha().len() == image.width() * image.height()
                },
                Err(e) => e == Error::Decode || e == Error::CoordinateOverflow,
            },
    {
        ImagePolygon::from_decoded(decode_alpha(&data))
    }

    /// Builds the opacity grid: one row of cells for each row of pixels.
    pub fn get_opaque_points_grid(&self) -> (grid: Grid<bool>)
        ensures
            grid.deep_view() == self.grid(),
            is_grid(self.grid(), self.width(), self.height()),
            fits_coordinates(self.grid()),
    {
        proof {
            use_type_invariant(self);
        }
        let width = self.size.0 as usize;
        let height = self.size.1 as usize;
        let samples = self.alpha.len();
        let mut grid: Grid<bool> = Vec::new();
        let mut y: usize = 0;
        while y < height
            invariant
                width == self.size.0,
                height == self.size.1,
                samples == self.alpha@.len(),
                samples == width * height,
                y <= height,
                grid@.len() == y,
                forall|j: int| 0 <= j < y ==> (#[trigger] grid@[j])@ == self.grid()[j],
            decreases height - y,
        {
            let mut row: Vec<bool> = Vec::new();
            let mut x: usize = 0;
            while x < width
                invariant
                    width == self.size.0,
                    height == self.size.1,
                    samples == self.alpha@.len(),
                    samples == width * height,
                    y < height,
                    x <= width,
                    row@.len() == x,
                    forall|i: int| 0 <= i < x ==> #[trigger] row@[i] == (self.alpha@[y * width + i] > 0),
                decreases width - x,
            {
                assert(0 <= y * width && y * width + x < width * height) by (nonlinear_arith)
                    requires
                        y < height,
                        x < width,
                ;
                row.push(self.alpha[y * width + x] > 0);
                x += 1;
            }
            assert(row@ =~= self.grid()[y as int]);
            grid.push(row);
            y += 1;
        }
        assert(grid.deep_view() =~~= self.grid());
        grid
    }

    /// Lists the edge points of the image in row-major order.
    pub fn get_edges_points(&self) -> (edges: Vec<Point>)
        ensures
            edges@ == edge_points(self.grid()),
            fits_coordinates(self.grid()),
    {
        let grid = self.get_opaque_points_grid();
        edge_points_of(&grid)
    }

    /// Finds the point on which the outer contour starts: the first opaque
    /// pixel in row-major order. Fails with `EmptyImage` where no pixel is
    /// opaque.
    pub fn get_first_point_of_main_polygon(&self) -> (first: Result<Point, Error>)
        ensures
            match first {
                Ok(p) => is_first_opaque(self.grid(), p),
                Err(e) => e == Error::EmptyImage && is_blank(self.grid()),
            },
    {
        let grid = self.get_opaque_points_grid();
        match first_opaque_of(&grid) {
            Some(p) => Ok(p),
            None => Err(Error::EmptyImage),
        }
    }

    /// Traces the outer contour of the opaque region and its holes. Fails with
    /// `EmptyImage` where no pixel is opaque.
    pub fn to_polygon(&self) -> (traced: Result<(Polygon, Vec<Polygon>), Error>)
        ensures
            fits_coordinates(self.grid()),
            match traced {
                Ok((outer, holes)) => is_trace(self.grid(), outer@, views(holes@)),
                Err(e) => e == Error::EmptyImage && is_blank(self.grid()),
            },
    {
        let grid = self.get_opaque_points_grid();
        trace_contours(&grid)
    }
}

} // verus!
