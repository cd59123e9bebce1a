//! Images in memory: one or three sample planes with their layout.

use vstd::prelude::*;

verus! {

/// Layout of the samples of an [`IcerImage`].
#[derive(Debug, Clone, Copy, PartialEq, Eq, Structural)]
pub enum IcerPixelFormat {
    /// One plane of 8-bit luma.
    Gray8,
    /// 8-bit luma and two chroma planes of the same size.
    Yuv444P,
    /// One plane of luma with `bits` significant bits, 9 to 16, in
    /// little-endian 16-bit words.
    GrayDeep {
        /// Significant bits of a sample.
        bits: u8,
    },
}

impl IcerPixelFormat {
    /// Number of planes.
    pub open spec fn planes(self) -> nat {
        match self {
            IcerPixelFormat::Yuv444P => 3,
            _ => 1,
        }
    }

    /// Bytes of a sample.
    pub open spec fn sample_width(self) -> nat {
        match self {
            IcerPixelFormat::GrayDeep { .. } => 2,
            _ => 1,
        }
    }

    /// Number of planes.
    pub fn plane_count(self) -> (n: usize)
        ensures
            n == self.planes(),
    {
        match self {
            IcerPixelFormat::Gray8 | IcerPixelFormat::GrayDeep { .. } => 1,
            IcerPixelFormat::Yuv444P => 3,
        }
    }

    /// Significant bits of a sample.
    pub fn bit_depth(self) -> (bits: u8)
        ensures
            bits == (match self {
                IcerPixelFormat::GrayDeep { bits } => bits,
                _ => 8,
            }),
    {
        match self {
            IcerPixelFormat::Gray8 | IcerPixelFormat::Yuv444P => 8,
            IcerPixelFormat::GrayDeep { bits } => bits,
        }
    }

    /// Bytes of a sample.
    pub fn sample_bytes(self) -> (n: usize)
        ensures
            n == self.sample_width(),
    {
        match self {
            IcerPixelFormat::Gray8 | IcerPixelFormat::Yuv444P => 1,
            IcerPixelFormat::GrayDeep { .. } => 2,
        }
    }
}

/// One sample plane.
#[derive(Debug, Clone, PartialEq, Eq)]
pub struct IcerPlane {
    /// Bytes from one row to the next.
    pub stride: usize,
    /// The rows.
    pub data: Vec<u8>,
}

/// An image: its planes and their layout.
#[derive(Debug, Clone, PartialEq, Eq)]
pub struct IcerImage {
    /// Width in samples.
    pub width: u32,
    /// Height in samples.
    pub height: u32,
    /// Layout of the samples.
    pub pixel_format: IcerPixelFormat,
    /// The planes.
    pub planes: Vec<IcerPlane>,
    /// Presentation time.
    pub pts: i64,
}

/// A plane of zeros.
pub open spec fn is_zero_plane(p: IcerPlane, stride: int, rows: int) -> bool {
    &&& p.stride == stride
    &&& p.data@ == Seq::new((stride * rows) as nat, |i: int| 0u8)
}

impl IcerPlane {
    /// The bytes of row `y`, without the padding behind its `row_bytes` bytes.
    pub open spec fn row(self, y: int, row_bytes: int) -> Seq<u8> {
        self.data@.subrange(y * self.stride, y * self.stride + row_bytes)
    }

    /// Rows `0..rows` of `row_bytes` bytes each lie inside the plane.
    pub open spec fn holds(self, row_bytes: int, rows: int) -> bool {
        forall|y: int|
            0 <= y < rows ==> #[trigger] (y * self.stride) >= 0 && y * self.stride + row_bytes
                <= self.data@.len()
    }
}

/// A vector of `n` times `v`.
pub fn filled_bytes(v: u8, n: usize) -> (r: Vec<u8>)
    ensures
        r@ == Seq::new(n as nat, |i: int| v),
{
    let mut r: Vec<u8> = Vec::with_capacity(n);
    let mut i: usize = 0;
    while i < n
        invariant
            i <= n,
            r@ == Seq::new(i as nat, |j: int| v),
        decreases n - i,
    {
        r.push(v);
        i = i + 1;
        assert(r@ =~= Seq::new(i as nat, |j: int| v));
    }
    r
}

impl IcerImage {
    /// Where the sample `(x, y)` of a plane starts.
    pub open spec fn offset(self, plane: int, x: int, y: int) -> int {
        y * self.planes@[plane].stride + x * self.pixel_format.sample_width()
    }

    /// The sample `(x, y)` of plane `plane` lies inside the image and the
    /// plane's bytes.
    pub open spec fn has_sample(self, plane: int, x: int, y: int) -> bool {
        &&& 0 <= plane < self.planes@.len()
        &&& 0 <= x < self.width
        &&& 0 <= y < self.height
        &&& self.offset(plane, x, y) + self.pixel_format.sample_width()
            <= self.planes@[plane].data@.len()
    }

    /// The value of the sample `(x, y)`.
    pub open spec fn sample_value(self, plane: int, x: int, y: int) -> int {
        let data = self.planes@[plane].data@;
        let off = self.offset(plane, x, y);
        if self.pixel_format.sample_width() == 2 {
            data[off] + 256 * data[off + 1]
        } else {
            data[off] as int
        }
    }

    /// An image of zeros.
    pub fn zeros(width: u32, height: u32, pixel_format: IcerPixelFormat) -> (img: Self)
        requires
            width * pixel_format.sample_width() * height <= usize::MAX,
            width * pixel_format.sample_width() <= usize::MAX,
        ensures
            img.width == width,
            img.height == height,
            img.pixel_format == pixel_format,
            img.pts == 0,
            img.planes@.len() == pixel_format.planes(),
            forall|i: int|
                0 <= i < img.planes@.len() ==> is_zero_plane(
                    #[trigger] img.planes@[i],
                    width * pixel_format.sample_width(),
                    height as int,
                ),
    {
        let stride: usize = width as usize * pixel_format.sample_bytes();
        let n: usize = pixel_format.plane_count();
        let mut planes: Vec<IcerPlane> = Vec::new();
        let mut i: usize = 0;
        while i < n
            invariant
                i <= n,
                planes@.len() == i,
                stride == width * pixel_format.sample_width(),
                width * pixel_format.sample_width() * height <= usize::MAX,
                forall|j: int|
                    0 <= j < i ==> is_zero_plane(
                        #[trigger] planes@[j],
                        width * pixel_format.sample_width(),
                        height as int,
                    ),
            decreases n - i,
        {
            let data = filled_bytes(0, stride * height as usize);
            planes.push(IcerPlane { stride, data });
            i = i + 1;
        }
        IcerImage { width, height, pixel_format, planes, pts: 0 }
    }

    /// The sample `(x, y)` of plane `plane_idx`.
    pub fn sample(&self, plane_idx: usize, x: u32, y: u32) -> (v: u16)
        requires
            self.has_sample(plane_idx as int, x as int, y as int),
        ensures
            v == self.sample_value(plane_idx as int, x as int, y as int),
    {
        let plane = &self.planes[plane_idx];
        let sb: usize = self.pixel_format.sample_bytes();
        proof {
            lemma_offset_bounds(y as int, plane.stride as int, x as int, sb as int);
        }
        assert(self.offset(plane_idx as int, x as int, y as int) <= plane.data.len());
        let off: usize = y as usize * plane.stride + x as usize * sb;
        if sb == 2 {
            plane.data[off] as u16 + 256 * plane.data[off + 1] as u16
        } else {
            plane.data[off] as u16
        }
    }

    /// Write the sample `(x, y)` of plane `plane_idx`. The byte formats keep
    /// the low eight bits of `value`.
    pub fn set_sample(&mut self, plane_idx: usize, x: u32, y: u32, value: u16)
        requires
            old(self).has_sample(plane_idx as int, x as int, y as int),
        ensures
            final(self).width == old(self).width,
            final(self).height == old(self).height,
            final(self).pixel_format == old(self).pixel_format,
            final(self).pts == old(self).pts,
            final(self).planes@.len() == old(self).planes@.len(),
            forall|j: int|
                0 <= j < old(self).planes@.len() && j != plane_idx ==> final(self).planes@[j] == old(
                    self,
                ).planes@[j],
            final(self).planes@[plane_idx as int].stride == old(self).planes@[plane_idx as int].stride,
            final(self).planes@[plane_idx as int].data@ == ({
                let data = old(self).planes@[plane_idx as int].data@;
                let off = old(self).offset(plane_idx as int, x as int, y as int);
                let low = data.update(off, (value % 256) as u8);
                if old(self).pixel_format.sample_width() == 2 {
                    low.update(off + 1, (value / 256) as u8)
                } else {
                    low
                }
            }),
    {
        let sb: usize = self.pixel_format.sample_bytes();
        let stride: usize = self.planes[plane_idx].stride;
        proof {
            lemma_offset_bounds(y as int, stride as int, x as int, sb as int);
        }
        assert(self.offset(plane_idx as int, x as int, y as int) <= self.planes@[plane_idx as int].data.len());
        let off: usize = y as usize * stride + x as usize * sb;
        let mut data = crate::bytes::copy_bytes(self.planes[plane_idx].data.as_slice());
        data.set(off, (value % 256) as u8);
        if sb == 2 {
            data.set(off + 1, (value / 256) as u8);
        }
        self.planes.set(plane_idx, IcerPlane { stride, data });
    }
}

proof fn lemma_offset_bounds(y: int, stride: int, x: int, sb: int)
    requires
        y >= 0,
        stride >= 0,
        x >= 0,
        1 <= sb <= 2,
    ensures
        0 <= y * stride <= y * stride + x * sb,
        0 <= x * sb,
{
    assert(0 <= y * stride) by (nonlinear_arith)
        requires
            y >= 0,
            stride >= 0,
    ;
    assert(0 <= x * sb) by (nonlinear_arith)
        requires
            x >= 0,
            sb >= 0,
    ;
}

/// A sample of a plane that is written in the range of the format reads back.
pub proof fn written_sample_reads_back(before: IcerImage, after: IcerImage, plane: int, x: int, y: int, value: u16)
    requires
        before.has_sample(plane, x, y),
        after.width == before.width,
        after.height == before.height,
        after.pixel_format == before.pixel_format,
        after.planes@.len() == before.planes@.len(),
        after.planes@[plane].stride == before.planes@[plane].stride,
        before.pixel_format.sample_width() == 1 ==> value < 256,
        after.planes@[plane].data@ == ({
            let data = before.planes@[plane].data@;
            let off = before.offset(plane, x, y);
            let low = data.update(off, (value % 256) as u8);
            if before.pixel_format.sample_width() == 2 {
                low.update(off + 1, (value / 256) as u8)
            } else {
                low
            }
        }),
    ensures
        after.has_sample(plane, x, y),
        after.sample_value(plane, x, y) == value,
{
    lemma_offset_bounds(y, before.planes@[plane].stride as int, x, before.pixel_format.sample_width() as int);
}

} // verus!
