use crate::ppm::{
    channels, column_after, decimal, header, ppm, push_decimal, push_value, rows, separator, wrapped,
};
use vstd::prelude::*;

verus! {

/// A grid of `width` × `height` pixels, stored row by row.
pub struct Canvas<T> {
    width: usize,
    height: usize,
    pixels: Vec<T>,
}

impl<T: Copy> Canvas<T> {
    pub closed spec fn spec_width(&self) -> nat {
        self.width as nat
    }

    pub closed spec fn spec_height(&self) -> nat {
        self.height as nat
    }

    /// The pixels, row by row: pixel `(x, y)` stands at `x + y * width`.
    pub closed spec fn cells(&self) -> Seq<T> {
        self.pixels@
    }

    /// The pixel store holds exactly one pixel per grid position.
    pub closed spec fn wf(&self) -> bool {
        self.pixels@.len() == self.width * self.height
    }

    /// The pixel at `(x, y)`.
    pub open spec fn at(&self, x: int, y: int) -> T {
        self.cells()[x + y * self.spec_width()]
    }

    /// A canvas whose every pixel is `fill`.
    pub fn new(width: usize, height: usize, fill: T) -> (r: Canvas<T>)
        requires
            width * height <= usize::MAX,
        ensures
            r.wf(),
            r.spec_width() == width,
            r.spec_height() == height,
            r.cells() == Seq::new((width * height) as nat, |i: int| fill),
    {
        let n: usize = width * height;
        let mut pixels: Vec<T> = Vec::new();
        let mut i: usize = 0;
        while i < n
            invariant
                i <= n,
                pixels@ == Seq::new(i as nat, |k: int| fill),
            decreases n - i,
        {
            pixels.push(fill);
            i += 1;
            assert(pixels@ =~= Seq::new(i as nat, |k: int| fill));
        }
        Canvas { width, height, pixels }
    }

    /// A canvas whose pixel `(x, y)` is `f(x, y)`, computed once for each pixel, row by row.
    pub fn from_fn<F: Fn(usize, usize) -> T>(width: usize, height: usize, f: F) -> (r: Canvas<T>)
        requires
            width * height <= usize::MAX,
            forall|x: usize, y: usize| x < width && y < height ==> call_requires(f, (x, y)),
        ensures
            r.wf(),
            r.spec_width() == width,
            r.spec_height() == height,
            forall|x: usize, y: usize|
                x < width && y < height ==> call_ensures(f, (x, y), #[trigger] r.at(x as int, y as int)),
    {
        let mut pixels: Vec<T> = Vec::new();
        let mut y: usize = 0;
        while y < height
            invariant
                width * height <= usize::MAX,
                y <= height,
                forall|x: usize, y: usize| x < width && y < height ==> call_requires(f, (x, y)),
                pixels@.len() == y * width,
                forall|i: int|
                    0 <= i < pixels@.len() ==> call_ensures(
                        f,
                        ((i % width as int) as usize, (i / width as int) as usize),
                        #[trigger] pixels@[i],
                    ),
            decreases height - y,
        {
            proof {
                assert((y + 1) * width <= width * height && (y + 1) * width == y * width + width)
                    by (nonlinear_arith)
                    requires
                        y < height,
                ;
            }
            let mut x: usize = 0;
            while x < width
                invariant
                    width * height <= usize::MAX,
                    y < height,
                    (y + 1) * width <= width * height,
                    (y + 1) * width == y * width + width,
                    x <= width,
                    forall|x: usize, y: usize| x < width && y < height ==> call_requires(f, (x, y)),
                    pixels@.len() == y * width + x,
                    forall|i: int|
                        0 <= i < pixels@.len() ==> call_ensures(
                            f,
                            ((i % width as int) as usize, (i / width as int) as usize),
                            #[trigger] pixels@[i],
                        ),
                decreases width - x,
            {
                let c = f(x, y);
                proof {
                    let i = y * width + x;
                    assert(i % width as int == x && i / width as int == y) by (nonlinear_arith)
                        requires
                            i == y * width + x,
                            x < width,
                    ;
                }
                pixels.push(c);
                x += 1;
            }
            y += 1;
        }
        assert(height * width == width * height) by (nonlinear_arith);
        let r = Canvas { width, height, pixels };
        proof {
            assert forall|x: usize, y: usize| x < width && y < height implies call_ensures(
                f,
                (x, y),
                #[trigger] r.at(x as int, y as int),
            ) by {
                let i = x + y * width;
                assert(0 <= i < width * height && i % width as int == x && i / width as int == y)
                    by (nonlinear_arith)
                    requires
                        i == x + y * width,
                        x < width,
                        y < height,
                ;
                assert(r.at(x as int, y as int) == r.pixels@[i]);
                assert(call_ensures(
                    f,
                    ((i % width as int) as usize, (i / width as int) as usize),
                    r.pixels@[i],
                ));
            }
        }
        r
    }

    pub fn width(&self) -> (r: usize)
        ensures
            r == self.spec_width(),
    {
        self.width
    }

    pub fn height(&self) -> (r: usize)
        ensures
            r == self.spec_height(),
    {
        self.height
    }

    /// Sets the pixel at `(x, y)`; a position outside the grid leaves the canvas unchanged.
    pub fn write_pixel(&mut self, x: usize, y: usize, color: T)
        requires
            old(self).wf(),
        ensures
            final(self).wf(),
            final(self).spec_width() == old(self).spec_width(),
            final(self).spec_height() == old(self).spec_height(),
            x < old(self).spec_width() && y < old(self).spec_height() ==> final(self).cells()
                == old(self).cells().update(x + y * old(self).spec_width(), color),
            !(x < old(self).spec_width() && y < old(self).spec_height()) ==> final(self).cells()
                == old(self).cells(),
    {
        if x >= self.width || y >= self.height {
            return;
        }
        let idx = self.xy(x, y);
        self.pixels.set(idx, color);
    }

    /// The pixel at `(x, y)`.
    pub fn pixel_at(&self, x: usize, y: usize) -> (r: T)
        requires
            self.wf(),
            x < self.spec_width(),
            y < self.spec_height(),
        ensures
            r == self.at(x as int, y as int),
    {
        let idx = self.xy(x, y);
        self.pixels[idx]
    }

    fn xy(&self, x: usize, y: usize) -> (r: usize)
        requires
            self.wf(),
            x < self.width,
            y < self.height,
        ensures
            r == x + y * self.width,
            r < self.pixels@.len(),
    {
        let w = self.width;
        let h = self.height;
        let len = self.pixels.len();
        proof {
            assert(x + y * w < w * h && 0 <= y * w) by (nonlinear_arith)
                requires
                    x < w,
                    y < h,
            ;
        }
        x + y * w
    }
}

impl Canvas<(u8, u8, u8)> {
    /// The canvas as a plain PPM file, with its pixel lines wrapped at `MAX_LINE` characters.
    pub fn to_ppm(&self) -> (r: Vec<u8>)
        requires
            self.wf(),
        ensures
            r@ == ppm(self.spec_width(), self.spec_height(), self.cells()),
    {
        let w = self.width;
        let h = self.height;
        let len = self.pixels.len();
        let mut out: Vec<u8> = Vec::new();
        out.push(80);
        out.push(51);
        out.push(10);
        push_decimal(&mut out, w);
        out.push(32);
        push_decimal(&mut out, h);
        out.push(10);
        out.push(50);
        out.push(53);
        out.push(53);
        out.push(10);
        let ghost head = header(w as nat, h as nat);
        assert(out@ =~= head);
        let mut y: usize = 0;
        while y < h
            invariant
                len == self.pixels@.len() == w * h,
                y <= h,
                out@ == head + rows(self.pixels@, w as nat, y as int),
            decreases h - y,
        {
            proof {
                assert((y + 1) * w <= w * h && y * w <= (y + 1) * w && (y + 1) * w == y * w + w)
                    by (nonlinear_arith)
                    requires
                        y < h,
                ;
            }
            let ghost row = self.pixels@.subrange(y * w, (y + 1) * w);
            let ghost vals = channels(row);
            let ghost start = out@;
            let mut col: usize = 0;
            let mut x: usize = 0;
            while x < w
                invariant
                    len == self.pixels@.len() == w * h,
                    y < h,
                    (y + 1) * w <= w * h,
                    (y + 1) * w == y * w + w,
                    x <= w,
                    row == self.pixels@.subrange(y * w, (y + 1) * w),
                    vals == channels(row),
                    out@ == start + wrapped(vals, 3 * x),
                    col == column_after(vals, 3 * x),
                decreases w - x,
            {
                let p = self.pixels[y * w + x];
                assert(p == row[x as int]);
                assert(vals[3 * x] == p.0 && vals[3 * x + 1] == p.1 && vals[3 * x + 2] == p.2);
                col = push_value(&mut out, col, Ghost(vals), Ghost(3 * x), p.0);
                col = push_value(&mut out, col, Ghost(vals), Ghost(3 * x + 1), p.1);
                col = push_value(&mut out, col, Ghost(vals), Ghost(3 * x + 2), p.2);
                proof {
                    let k = 3 * x;
                    assert(wrapped(vals, k + 1) == wrapped(vals, k) + separator(vals, k) + decimal(
                        vals[k] as nat,
                    ));
                    assert(wrapped(vals, k + 2) == wrapped(vals, k + 1) + separator(vals, k + 1)
                        + decimal(vals[k + 1] as nat));
                    assert(wrapped(vals, k + 3) == wrapped(vals, k + 2) + separator(vals, k + 2)
                        + decimal(vals[k + 2] as nat));
                    assert(out@ =~= start + wrapped(vals, 3 * (x + 1)));
                }
                x += 1;
            }
            out.push(10);
            assert(out@ =~= head + rows(self.pixels@, w as nat, y + 1));
            y += 1;
        }
        out
    }
}

} // verus!
