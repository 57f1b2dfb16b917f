use vstd::prelude::*;

verus! {

/// A pixel's colour, in the layout of one of the pixel formats.
#[derive(Debug, Clone, Copy, PartialEq, Eq, Structural)]
pub enum Color {
    RGB(u8, u8, u8),
    RGBA(u8, u8, u8, u8),
    Gray(u8),
}

/// The bytes that a colour occupies in a frame buffer.
pub open spec fn color_bytes(c: Color) -> Seq<u8> {
    match c {
        Color::RGB(r, g, b) => seq![r, g, b],
        Color::RGBA(r, g, b, a) => seq![r, g, b, a],
        Color::Gray(v) => seq![v],
    }
}

impl Color {
    /// The number of bytes the colour occupies.
    pub fn size(&self) -> (r: usize)
        ensures
            r == color_bytes(*self).len(),
    {
        match *self {
            Color::RGB(..) => 3,
            Color::Gray(_) => 1,
            Color::RGBA(..) => 4,
        }
    }
}

/// A pixel position: column, then row.
#[derive(Debug, Clone, Copy, PartialEq, Eq, Structural)]
pub struct Pos(pub u32, pub u32);

/// The layout of a decoded image's pixels.
#[derive(Debug, Clone, Copy, PartialEq, Eq, Structural, PartialOrd, Ord)]
pub enum PixelFormat {
    RGB24,
    Gray8,
    RGBA32,
}

pub open spec fn bpp(f: PixelFormat) -> nat {
    match f {
        PixelFormat::RGB24 => 3,
        PixelFormat::Gray8 => 1,
        PixelFormat::RGBA32 => 4,
    }
}

/// The name by which the media tools know a pixel format.
pub open spec fn ffmpeg_name(f: PixelFormat) -> Seq<char> {
    match f {
        PixelFormat::RGB24 => "rgb24"@,
        PixelFormat::RGBA32 => "rgba"@,
        PixelFormat::Gray8 => "gray"@,
    }
}

impl PixelFormat {
    pub fn bytes_per_pixel(self) -> (r: usize)
        ensures
            r == bpp(self),
    {
        match self {
            PixelFormat::RGB24 => 3,
            PixelFormat::Gray8 => 1,
            PixelFormat::RGBA32 => 4,
        }
    }

    pub fn ffmpeg_fmt(&self) -> (r: &'static str)
        ensures
            r@ == ffmpeg_name(*self),
    {
        match *self {
            PixelFormat::RGB24 => "rgb24",
            PixelFormat::RGBA32 => "rgba",
            PixelFormat::Gray8 => "gray",
        }
    }
}

/// A point in a media stream, in microseconds.
#[derive(Debug, Clone, Copy, PartialEq, Eq, Structural, PartialOrd, Ord)]
pub struct Timestamp {
    pub micros: u64,
}

impl Timestamp {
    pub fn from_micros(us: u64) -> (r: Timestamp)
        ensures
            r.micros == us,
    {
        Timestamp { micros: us }
    }
}

/// What can go wrong on a frame.
#[derive(Debug, Clone, Copy, PartialEq, Eq, Structural)]
pub enum FrameError {
    InvalidFrameSize,
    InvalidPixel,
    InvalidPixelFormat,
    BlitFailed,
    InvalidOpacityValue,
}

pub open spec fn frame_error_text(e: FrameError) -> Seq<char> {
    match e {
        FrameError::InvalidFrameSize => "Invalid frame buffer size"@,
        FrameError::InvalidPixel => "Unable to find the pixel!"@,
        FrameError::InvalidPixelFormat => "The PixelFormat for Frame and Color Does not match!"@,
        FrameError::BlitFailed => "Overlapping Failed! Check Dimensions!"@,
        FrameError::InvalidOpacityValue => "Opacity Value must be between 0 and 100"@,
    }
}

impl FrameError {
    /// A sentence that describes the error.
    pub fn message(&self) -> (r: &'static str)
        ensures
            r@ == frame_error_text(*self),
    {
        match *self {
            FrameError::InvalidFrameSize => "Invalid frame buffer size",
            FrameError::InvalidPixel => "Unable to find the pixel!",
            FrameError::InvalidPixelFormat => "The PixelFormat for Frame and Color Does not match!",
            FrameError::BlitFailed => "Overlapping Failed! Check Dimensions!",
            FrameError::InvalidOpacityValue => "Opacity Value must be between 0 and 100",
        }
    }
}

/// An image, or one frame of a video: `width * height` pixels, row by row.
#[derive(Debug, Clone)]
pub struct Frame {
    width: u32,
    height: u32,
    format: PixelFormat,
    data: Vec<u8>,
}

pub struct FrameView {
    pub width: u32,
    pub height: u32,
    pub format: PixelFormat,
    pub data: Seq<u8>,
}

impl View for Frame {
    type V = FrameView;

    closed spec fn view(&self) -> FrameView {
        FrameView { width: self.width, height: self.height, format: self.format, data: self.data@ }
    }
}

/// The buffer length that a frame of these dimensions and format has.
pub open spec fn frame_len(width: u32, height: u32, format: PixelFormat) -> int {
    width * height * bpp(format)
}

pub open spec fn frame_wf(v: FrameView) -> bool {
    v.data.len() == frame_len(v.width, v.height, v.format)
}

pub open spec fn in_bounds(v: FrameView, p: Pos) -> bool {
    p.0 < v.width && p.1 < v.height
}

/// Where a pixel's bytes start in the buffer.
pub open spec fn pixel_offset(v: FrameView, p: Pos) -> int {
    (p.1 * v.width + p.0) * bpp(v.format)
}

/// The colour stored at an in-bounds position.
pub open spec fn pixel_at(v: FrameView, p: Pos) -> Color {
    let i = pixel_offset(v, p);
    let d = v.data;
    match v.format {
        PixelFormat::RGB24 => Color::RGB(d[i], d[i + 1], d[i + 2]),
        PixelFormat::RGBA32 => Color::RGBA(d[i], d[i + 1], d[i + 2], d[i + 3]),
        PixelFormat::Gray8 => Color::Gray(d[i]),
    }
}

/// The frame with the pixel at `p` replaced by the bytes of `c`.
pub open spec fn with_pixel(v: FrameView, p: Pos, c: Color) -> FrameView {
    let i = pixel_offset(v, p);
    FrameView {
        width: v.width,
        height: v.height,
        format: v.format,
        data: v.data.take(i) + color_bytes(c) + v.data.skip(i + bpp(v.format)),
    }
}

pub open spec fn clamp_byte(v: int) -> u8 {
    if v < 0 {
        0
    } else if v > 255 {
        255
    } else {
        v as u8
    }
}

pub open spec fn is_alpha_index(i: int) -> bool {
    i % 4 == 3
}

/// The frame with `delta` added to every byte, clamped to `0..=255`.
pub open spec fn with_brightness(v: FrameView, delta: i16) -> FrameView {
    FrameView {
        width: v.width,
        height: v.height,
        format: v.format,
        data: Seq::new(v.data.len(), |i: int| clamp_byte(v.data[i] + delta)),
    }
}

/// The frame with every alpha byte set to `value`.
pub open spec fn with_alpha(v: FrameView, value: u8) -> FrameView {
    FrameView {
        width: v.width,
        height: v.height,
        format: v.format,
        data: Seq::new(
            v.data.len(),
            |i: int|
                if is_alpha_index(i) {
                    value
                } else {
                    v.data[i]
                },
        ),
    }
}

/// The frame with every alpha byte scaled by `percent` percent.
pub open spec fn with_opacity(v: FrameView, percent: u8) -> FrameView {
    FrameView {
        width: v.width,
        height: v.height,
        format: v.format,
        data: Seq::new(
            v.data.len(),
            |i: int|
                if is_alpha_index(i) {
                    (v.data[i] * percent / 100) as u8
                } else {
                    v.data[i]
                },
        ),
    }
}

/// The pixel at `p` lies inside the frame and inside its buffer.
pub open spec fn pixel_fits(v: FrameView, p: Pos) -> bool {
    in_bounds(v, p) && pixel_offset(v, p) + bpp(v.format) <= v.data.len()
}

/// In a well-formed frame every in-bounds pixel lies inside the buffer.
pub proof fn lemma_wf_pixel_fits(v: FrameView, p: Pos)
    requires
        frame_wf(v),
        in_bounds(v, p),
    ensures
        pixel_fits(v, p),
{
    let (w, h, b, x, y) = (v.width as int, v.height as int, bpp(v.format) as int, p.0 as int, p.1 as int);
    assert(y * w + x + 1 <= w * h) by (nonlinear_arith)
        requires
            0 <= x < w,
            0 <= y < h,
    ;
    assert((y * w + x) * b + b <= w * h * b) by (nonlinear_arith)
        requires
            y * w + x + 1 <= w * h,
            b >= 1,
    ;
}

proof fn lemma_alpha_slots(n: int)
    requires
        0 <= n,
    ensures
        forall|j: int| 0 <= j < n && is_alpha_index(j) ==> j < 4 * (n / 4),
{
    assert forall|j: int| 0 <= j < n && is_alpha_index(j) implies j < 4 * (n / 4) by {
        assert(j == 4 * (j / 4) + 3) by (nonlinear_arith)
            requires
                j % 4 == 3,
                0 <= j,
        ;
        assert(j / 4 < n / 4) by (nonlinear_arith)
            requires
                j == 4 * (j / 4) + 3,
                j < n,
                0 <= j,
        ;
        assert(j < 4 * (n / 4)) by (nonlinear_arith)
            requires
                j == 4 * (j / 4) + 3,
                j / 4 < n / 4,
        ;
    }
}

proof fn lemma_alpha_slot(k: int)
    requires
        0 <= k,
    ensures
        forall|j: int| 4 * k <= j < 4 * k + 4 ==> (is_alpha_index(j) <==> j == 4 * k + 3),
{
    assert forall|j: int| 4 * k <= j < 4 * k + 4 implies (is_alpha_index(j) <==> j == 4 * k + 3) by {
        assert(j - 4 * k == 0 || j - 4 * k == 1 || j - 4 * k == 2 || j - 4 * k == 3);
        assert((4 * k) % 4 == 0) by (nonlinear_arith);
        assert(j % 4 == (j - 4 * k) % 4) by (nonlinear_arith)
            requires
                (4 * k) % 4 == 0,
                0 <= k,
        ;
    }
}

impl Frame {
    /// The buffer holds exactly `width * height` pixels of the format, as
    /// every frame made by `new` does.
    pub open spec fn wf(&self) -> bool {
        frame_wf(self@)
    }

    /// A frame over `data`, which must hold exactly `width * height` pixels
    /// of `format`.
    pub fn new(width: u32, height: u32, format: PixelFormat, data: Vec<u8>) -> (r: Result<
        Frame,
        FrameError,
    >)
        ensures
            match r {
                Ok(f) => data@.len() == frame_len(width, height, format) && f.wf() && f@.width == width
                    && f@.height == height && f@.format == format && f@.data == data@,
                Err(e) => data@.len() != frame_len(width, height, format) && e
                    == FrameError::InvalidFrameSize,
            },
    {
        let expected = match (width as usize).checked_mul(height as usize) {
            Some(n) => n.checked_mul(format.bytes_per_pixel()),
            None => None,
        };
        let len = data.len();
        let fits = match expected {
            Some(n) => {
                assert(n == frame_len(width, height, format));
                len == n
            },
            None => {
                assert(width * height * bpp(format) > usize::MAX) by (nonlinear_arith)
                    requires
                        width as usize * height as usize > usize::MAX || (width * height)
                            * bpp(format) > usize::MAX,
                        bpp(format) >= 1,
                ;
                false
            },
        };
        if fits {
            Ok(Frame { width, height, format, data })
        } else {
            Err(FrameError::InvalidFrameSize)
        }
    }

    /// Adds `delta` to every byte of the buffer, clamped to `0..=255`.
    pub fn brightness(&mut self, delta: i16)
        ensures
            final(self)@ == with_brightness(old(self)@, delta),
    {
        let n = self.data.len();
        let mut i: usize = 0;
        while i < n
            invariant
                n == old(self)@.data.len(),
                self.width == old(self).width,
                self.height == old(self).height,
                self.format == old(self).format,
                self.data@.len() == n,
                i <= n,
                forall|j: int| 0 <= j < i ==> self.data@[j] == clamp_byte(old(self)@.data[j] + delta),
                forall|j: int| i <= j < n ==> self.data@[j] == old(self)@.data[j],
            decreases n - i,
        {
            let value = self.data[i] as i32 + delta as i32;
            let clamped: u8 = if value < 0 {
                0
            } else if value > 255 {
                255
            } else {
                value as u8
            };
            self.data.set(i, clamped);
            i = i + 1;
        }
        assert(self@.data =~= with_brightness(old(self)@, delta).data);
    }

    pub fn format(&self) -> (r: PixelFormat)
        ensures
            r == self@.format,
    {
        self.format
    }

    pub fn width(&self) -> (r: u32)
        ensures
            r == self@.width,
    {
        self.width
    }

    pub fn height(&self) -> (r: u32)
        ensures
            r == self@.height,
    {
        self.height
    }

    pub fn data(&self) -> (r: &[u8])
        ensures
            r@ == self@.data,
    {
        self.data.as_slice()
    }

    /// The offset of the pixel at `pos` in the buffer. In a frame made by
    /// `new` this succeeds exactly on the in-bounds positions.
    pub fn pixel_index(&self, pos: &Pos) -> (r: Result<usize, FrameError>)
        ensures
            match r {
                Ok(i) => pixel_fits(self@, *pos) && i == pixel_offset(self@, *pos),
                Err(e) => !pixel_fits(self@, *pos) && e == FrameError::InvalidPixel,
            },
            self.wf() ==> (r is Ok <==> in_bounds(self@, *pos)),
    {
        proof {
            if self.wf() && in_bounds(self@, *pos) {
                lemma_wf_pixel_fits(self@, *pos);
            }
        }
        let len = self.data.len();
        let Pos(x, y) = *pos;
        if x >= self.width || y >= self.height {
            return Err(FrameError::InvalidPixel);
        }
        let b = self.format.bytes_per_pixel();
        let index = match (y as usize).checked_mul(self.width as usize) {
            Some(row) => match row.checked_add(x as usize) {
                Some(cell) => cell.checked_mul(b),
                None => None,
            },
            None => None,
        };
        match index {
            Some(i) => {
                if i <= len && b <= len - i {
                    Ok(i)
                } else {
                    Err(FrameError::InvalidPixel)
                }
            },
            None => {
                assert(pixel_offset(self@, *pos) > usize::MAX) by (nonlinear_arith)
                    requires
                        y as usize * self.width as usize > usize::MAX || y as usize
                            * self.width as usize + x as usize > usize::MAX || (y * self.width
                            + x) * b > usize::MAX,
                        pixel_offset(self@, *pos) == (y * self.width + x) * b,
                        b >= 1,
                ;
                Err(FrameError::InvalidPixel)
            },
        }
    }

    /// The colour of the pixel at `pos`.
    pub fn get_pixel(&self, pos: &Pos) -> (r: Result<Color, FrameError>)
        ensures
            match r {
                Ok(c) => pixel_fits(self@, *pos) && c == pixel_at(self@, *pos),
                Err(e) => !pixel_fits(self@, *pos) && e == FrameError::InvalidPixel,
            },
    {
        let index = match self.pixel_index(pos) {
            Ok(i) => i,
            Err(e) => {
                return Err(e);
            },
        };
        let len = self.data.len();
        let data = &self.data;
        let pixel = match self.format {
            PixelFormat::RGB24 => Color::RGB(data[index], data[index + 1], data[index + 2]),
            PixelFormat::RGBA32 => Color::RGBA(
                data[index],
                data[index + 1],
                data[index + 2],
                data[index + 3],
            ),
            PixelFormat::Gray8 => Color::Gray(data[index]),
        };
        Ok(pixel)
    }

    /// Writes `color` at `pos`; the colour must have the frame's layout.
    pub fn set_pixel(&mut self, pos: &Pos, color: &Color) -> (r: Result<(), FrameError>)
        ensures
            !pixel_fits(old(self)@, *pos) ==> r == Err::<(), FrameError>(FrameError::InvalidPixel)
                && final(self)@ == old(self)@,
            pixel_fits(old(self)@, *pos) && color_bytes(*color).len() != bpp(old(self)@.format)
                ==> r == Err::<(), FrameError>(FrameError::InvalidPixelFormat) && final(self)@
                == old(self)@,
            pixel_fits(old(self)@, *pos) && color_bytes(*color).len() == bpp(old(self)@.format)
                ==> r is Ok && final(self)@ == with_pixel(old(self)@, *pos, *color),
    {
        let index = match self.pixel_index(pos) {
            Ok(i) => i,
            Err(e) => {
                return Err(e);
            },
        };
        if self.format.bytes_per_pixel() != color.size() {
            return Err(FrameError::InvalidPixelFormat);
        }
        let len = self.data.len();
        let ghost before = self.data@;
        match *color {
            Color::RGB(r, g, b) => {
                self.data.set(index, r);
                self.data.set(index + 1, g);
                self.data.set(index + 2, b);
            },
            Color::RGBA(r, g, b, a) => {
                self.data.set(index, r);
                self.data.set(index + 1, g);
                self.data.set(index + 2, b);
                self.data.set(index + 3, a);
            },
            Color::Gray(a) => {
                self.data.set(index, a);
            },
        }
        assert(self.data@ =~= before.take(index as int) + color_bytes(*color) + before.skip(
            index + bpp(self.format),
        ));
        Ok(())
    }

    /// Writes `color` at `pos` and returns the colour that was there.
    pub fn replace_pixel(&mut self, pos: &Pos, color: &Color) -> (r: Result<Color, FrameError>)
        ensures
            !pixel_fits(old(self)@, *pos) ==> r == Err::<Color, FrameError>(FrameError::InvalidPixel)
                && final(self)@ == old(self)@,
            pixel_fits(old(self)@, *pos) && color_bytes(*color).len() != bpp(old(self)@.format)
                ==> r == Err::<Color, FrameError>(FrameError::InvalidPixelFormat) && final(self)@
                == old(self)@,
            pixel_fits(old(self)@, *pos) && color_bytes(*color).len() == bpp(old(self)@.format)
                ==> r == Ok::<Color, FrameError>(pixel_at(old(self)@, *pos)) && final(self)@
                == with_pixel(old(self)@, *pos, *color),
    {
        let pixel = match self.get_pixel(pos) {
            Ok(c) => c,
            Err(e) => {
                return Err(e);
            },
        };
        match self.set_pixel(pos, color) {
            Ok(()) => Ok(pixel),
            Err(e) => Err(e),
        }
    }

    /// Sets the alpha byte of every pixel of an RGBA frame to `value`.
    pub fn set_alpha(&mut self, value: u8) -> (r: Result<(), FrameError>)
        ensures
            old(self)@.format != PixelFormat::RGBA32 ==> r == Err::<(), FrameError>(
                FrameError::InvalidPixelFormat,
            ) && final(self)@ == old(self)@,
            old(self)@.format == PixelFormat::RGBA32 ==> r is Ok && final(self)@ == with_alpha(
                old(self)@,
                value,
            ),
    {
        if self.format != PixelFormat::RGBA32 {
            return Err(FrameError::InvalidPixelFormat);
        }
        let n = self.data.len();
        let pixels = n / 4;
        let mut k: usize = 0;
        while k < pixels
            invariant
                n == old(self)@.data.len(),
                pixels == n / 4,
                self.width == old(self).width,
                self.height == old(self).height,
                self.format == old(self).format,
                self.data@.len() == n,
                k <= pixels,
                forall|j: int|
                    0 <= j < n ==> self.data@[j] == if is_alpha_index(j) && j < 4 * k {
                        value
                    } else {
                        old(self)@.data[j]
                    },
            decreases pixels - k,
        {
            proof {
                lemma_alpha_slot(k as int);
            }
            self.data.set(4 * k + 3, value);
            k = k + 1;
        }
        proof {
            lemma_alpha_slots(n as int);
        }
        assert(self@.data =~= with_alpha(old(self)@, value).data);
        Ok(())
    }

    /// Scales the alpha byte of every pixel of an RGBA frame by
    /// `value` percent.
    pub fn opacity(&mut self, value: u8) -> (r: Result<(), FrameError>)
        ensures
            old(self)@.format != PixelFormat::RGBA32 ==> r == Err::<(), FrameError>(
                FrameError::InvalidPixelFormat,
            ) && final(self)@ == old(self)@,
            old(self)@.format == PixelFormat::RGBA32 && value > 100 ==> r == Err::<(), FrameError>(
                FrameError::InvalidOpacityValue,
            ) && final(self)@ == old(self)@,
            old(self)@.format == PixelFormat::RGBA32 && value <= 100 ==> r is Ok && final(self)@
                == with_opacity(old(self)@, value),
    {
        if self.format != PixelFormat::RGBA32 {
            return Err(FrameError::InvalidPixelFormat);
        }
        if value > 100 {
            return Err(FrameError::InvalidOpacityValue);
        }
        let n = self.data.len();
        let pixels = n / 4;
        let mut k: usize = 0;
        while k < pixels
            invariant
                n == old(self)@.data.len(),
                pixels == n / 4,
                value <= 100,
                self.width == old(self).width,
                self.height == old(self).height,
                self.format == old(self).format,
                self.data@.len() == n,
                k <= pixels,
                forall|j: int|
                    0 <= j < n ==> self.data@[j] == if is_alpha_index(j) && j < 4 * k {
                        (old(self)@.data[j] * value / 100) as u8
                    } else {
                        old(self)@.data[j]
                    },
            decreases pixels - k,
        {
            proof {
                lemma_alpha_slot(k as int);
            }
            let i = 4 * k + 3;
            let a = self.data[i] as u16;
            assert(a * (value as u16) <= 255 * 100) by (nonlinear_arith)
                requires
                    a <= 255,
                    value <= 100,
            ;
            let scaled = (a * value as u16) / 100;
            self.data.set(i, scaled as u8);
            k = k + 1;
        }
        proof {
            lemma_alpha_slots(n as int);
        }
        assert(self@.data =~= with_opacity(old(self)@, value).data);
        Ok(())
    }
}

} // verus!
