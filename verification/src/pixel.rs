use vstd::prelude::*;

verus! {

/// One 24-bit RGB pixel.
#[derive(Clone, Copy, Debug, PartialEq, Eq, Structural)]
pub struct Pixel {
    pub r: u8,
    pub g: u8,
    pub b: u8,
}

/// Mathematical view of a pixel grid: the dimensions and the flat
/// row-major pixel sequence.
#[verifier::ext_equal]
pub struct GridView {
    pub width: int,
    pub height: int,
    pub pixels: Seq<Pixel>,
}

impl GridView {
    /// A grid is well formed when it holds exactly width * height pixels.
    pub open spec fn wf(self) -> bool {
        self.pixels.len() == self.width * self.height
    }
}

/// A width x height image as one flat row-major pixel buffer: the pixel
/// with running index i sits at column i % width, row i / width. Tokens of
/// the run-length stream may span row boundaries; there is no per-row reset.
#[derive(Clone, Debug, PartialEq, Eq)]
pub struct PixelGrid {
    pub width: u32,
    pub height: u32,
    pub pixels: Vec<Pixel>,
}

impl View for PixelGrid {
    type V = GridView;

    open spec fn view(&self) -> GridView {
        GridView {
            width: self.width as int,
            height: self.height as int,
            pixels: self.pixels@,
        }
    }
}

impl PixelGrid {
    /// The invariant every grid crossing the codec boundary satisfies.
    pub open spec fn wf(self) -> bool {
        self@.wf()
    }

    /// Build a grid of the given dimensions filled with one color.
    pub fn filled(width: u32, height: u32, p: Pixel) -> (r: PixelGrid)
        requires
            width * height <= usize::MAX,
        ensures
            r@.width == width,
            r@.height == height,
            r@.pixels == Seq::new((width * height) as nat, |i: int| p),
            r.wf(),
    {
        let total: usize = (width as usize) * (height as usize);
        let mut pixels: Vec<Pixel> = Vec::new();
        let mut i: usize = 0;
        while i < total
            invariant
                i <= total,
                pixels@ =~= Seq::new(i as nat, |j: int| p),
            decreases total - i,
        {
            pixels.push(p);
            i = i + 1;
        }
        proof {
            assert(pixels@ =~= Seq::new((width * height) as nat, |i: int| p));
        }
        PixelGrid { width, height, pixels }
    }
}

} // verus!
