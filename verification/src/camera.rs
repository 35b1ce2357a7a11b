//! Configuration of the camera driver as plain values: formats, resolutions, pins and the numbers that
//! the driver knows them by.

use vstd::prelude::*;

verus! {

/// Product id that an OV3660 sensor reports.
pub const OV3660_PID: u16 = 0x3660;

/// Pin number of a pin that is not connected.
pub const NOT_CONNECTED: i32 = -1;

/// The position of the first code equal to `raw`, or the number of codes.
pub open spec fn code_position(codes: Seq<u32>, raw: u32) -> int
    decreases codes.len(),
{
    if codes.len() == 0 {
        0
    } else if codes[0] == raw {
        0
    } else {
        1 + code_position(codes.drop_first(), raw)
    }
}

proof fn lemma_code_position(codes: Seq<u32>, raw: u32, i: int)
    requires
        0 <= i <= codes.len(),
        forall|k: int| 0 <= k < i ==> #[trigger] codes[k] != raw,
        i < codes.len() ==> codes[i] == raw,
    ensures
        code_position(codes, raw) == i,
    decreases codes.len(),
{
    if codes.len() > 0 && i > 0 {
        let rest = codes.drop_first();
        assert forall|k: int| 0 <= k < i - 1 implies #[trigger] rest[k] != raw by {
            assert(rest[k] == codes[k + 1]);
        }
        assert(codes[0] != raw);
        lemma_code_position(rest, raw, i - 1);
    }
}

fn find_code(codes: &[u32], raw: u32) -> (i: usize)
    ensures
        i == code_position(codes@, raw),
        i <= codes.len(),
{
    for i in 0..codes.len()
        invariant
            forall|k: int| 0 <= k < i ==> #[trigger] codes@[k] != raw,
    {
        if codes[i] == raw {
            proof {
                lemma_code_position(codes@, raw, i as int);
            }
            return i;
        }
    }
    proof {
        lemma_code_position(codes@, raw, codes@.len() as int);
    }
    codes.len()
}

/// No code stands for two things.
pub open spec fn distinct_codes(codes: Seq<u32>) -> bool {
    forall|i: int, j: int|
        0 <= i < j < codes.len() ==> #[trigger] codes[i] != #[trigger] codes[j]
}

/// Pixel formats of the driver.
#[derive(Clone, Copy, Debug, PartialEq, Eq, Structural)]
pub enum PixelFormat {
    Rgb565,
    Yuv422,
    Yuv420,
    Grayscale,
    Jpeg,
    Rgb888,
    Raw,
    Rgb444,
    Rgb555,
    Raw8,
}

impl PixelFormat {
    /// Position in the declaration, which is the position of its code.
    pub open spec fn ordinal(self) -> int {
        match self {
            PixelFormat::Rgb565 => 0,
            PixelFormat::Yuv422 => 1,
            PixelFormat::Yuv420 => 2,
            PixelFormat::Grayscale => 3,
            PixelFormat::Jpeg => 4,
            PixelFormat::Rgb888 => 5,
            PixelFormat::Raw => 6,
            PixelFormat::Rgb444 => 7,
            PixelFormat::Rgb555 => 8,
            PixelFormat::Raw8 => 9,
        }
    }

    /// The variant at a position.
    pub open spec fn at(i: int) -> Option<PixelFormat> {
        if i == 0 {
            Some(PixelFormat::Rgb565)
        } else if i == 1 {
            Some(PixelFormat::Yuv422)
        } else if i == 2 {
            Some(PixelFormat::Yuv420)
        } else if i == 3 {
            Some(PixelFormat::Grayscale)
        } else if i == 4 {
            Some(PixelFormat::Jpeg)
        } else if i == 5 {
            Some(PixelFormat::Rgb888)
        } else if i == 6 {
            Some(PixelFormat::Raw)
        } else if i == 7 {
            Some(PixelFormat::Rgb444)
        } else if i == 8 {
            Some(PixelFormat::Rgb555)
        } else if i == 9 {
            Some(PixelFormat::Raw8)
        } else {
            None
        }
    }

    fn index(self) -> (i: usize)
        ensures
            i == self.ordinal(),
            i < 10,
    {
        match self {
            PixelFormat::Rgb565 => 0,
            PixelFormat::Yuv422 => 1,
            PixelFormat::Yuv420 => 2,
            PixelFormat::Grayscale => 3,
            PixelFormat::Jpeg => 4,
            PixelFormat::Rgb888 => 5,
            PixelFormat::Raw => 6,
            PixelFormat::Rgb444 => 7,
            PixelFormat::Rgb555 => 8,
            PixelFormat::Raw8 => 9,
        }
    }

    fn from_index(i: usize) -> (r: Option<PixelFormat>)
        ensures
            r == PixelFormat::at(i as int),
    {
        match i {
            0 => Some(PixelFormat::Rgb565),
            1 => Some(PixelFormat::Yuv422),
            2 => Some(PixelFormat::Yuv420),
            3 => Some(PixelFormat::Grayscale),
            4 => Some(PixelFormat::Jpeg),
            5 => Some(PixelFormat::Rgb888),
            6 => Some(PixelFormat::Raw),
            7 => Some(PixelFormat::Rgb444),
            8 => Some(PixelFormat::Rgb555),
            9 => Some(PixelFormat::Raw8),
            _ => None,
        }
    }

    /// The driver's number for the format, from the table of its numbers in declaration order.
    pub fn as_raw(self, codes: &[u32; 10]) -> (raw: u32)
        ensures
            raw == codes@[self.ordinal()],
    {
        codes[self.index()]
    }

    /// The variant that the driver's number stands for; `None` for a number that is not in the table.
    pub fn from_raw(raw: u32, codes: &[u32; 10]) -> (r: Option<PixelFormat>)
        ensures
            r == PixelFormat::at(code_position(codes@, raw)),
    {
        PixelFormat::from_index(find_code(codes, raw))
    }
}

/// Every format is found again by its number, where no two formats share one.
pub proof fn format_numbers_invert(f: PixelFormat, codes: Seq<u32>)
    requires
        codes.len() == 10,
        distinct_codes(codes),
    ensures
        PixelFormat::at(code_position(codes, codes[f.ordinal()])) == Some(f),
{
    lemma_code_position(codes, codes[f.ordinal()], f.ordinal());
}

/// Resolutions of the driver.
#[derive(Clone, Copy, Debug, PartialEq, Eq, Structural)]
pub enum FrameSize {
    R96x96,
    Qqvga,
    R128x128,
    Qcif,
    Hqvga,
    R240x240,
    Qvga,
    R320x320,
    Cif,
    Hvga,
    Vga,
    Svga,
    Xga,
    Hd,
    Sxga,
    Uxga,
    Fhd,
    PHd,
    P3mp,
    Qxga,
    Qhd,
    Wqxga,
    PFhd,
    Qsxga,
    Mp5,
}

impl FrameSize {
    /// Position in the declaration, which is the position of its code.
    pub open spec fn ordinal(self) -> int {
        match self {
            FrameSize::R96x96 => 0,
            FrameSize::Qqvga => 1,
            FrameSize::R128x128 => 2,
            FrameSize::Qcif => 3,
            FrameSize::Hqvga => 4,
            FrameSize::R240x240 => 5,
            FrameSize::Qvga => 6,
            FrameSize::R320x320 => 7,
            FrameSize::Cif => 8,
            FrameSize::Hvga => 9,
            FrameSize::Vga => 10,
            FrameSize::Svga => 11,
            FrameSize::Xga => 12,
            FrameSize::Hd => 13,
            FrameSize::Sxga => 14,
            FrameSize::Uxga => 15,
            FrameSize::Fhd => 16,
            FrameSize::PHd => 17,
            FrameSize::P3mp => 18,
            FrameSize::Qxga => 19,
            FrameSize::Qhd => 20,
            FrameSize::Wqxga => 21,
            FrameSize::PFhd => 22,
            FrameSize::Qsxga => 23,
            FrameSize::Mp5 => 24,
        }
    }

    /// The variant at a position.
    pub open spec fn at(i: int) -> Option<FrameSize> {
        if i == 0 {
            Some(FrameSize::R96x96)
        } else if i == 1 {
            Some(FrameSize::Qqvga)
        } else if i == 2 {
            Some(FrameSize::R128x128)
        } else if i == 3 {
            Some(FrameSize::Qcif)
        } else if i == 4 {
            Some(FrameSize::Hqvga)
        } else if i == 5 {
            Some(FrameSize::R240x240)
        } else if i == 6 {
            Some(FrameSize::Qvga)
        } else if i == 7 {
            Some(FrameSize::R320x320)
        } else if i == 8 {
            Some(FrameSize::Cif)
        } else if i == 9 {
            Some(FrameSize::Hvga)
        } else if i == 10 {
            Some(FrameSize::Vga)
        } else if i == 11 {
            Some(FrameSize::Svga)
        } else if i == 12 {
            Some(FrameSize::Xga)
        } else if i == 13 {
            Some(FrameSize::Hd)
        } else if i == 14 {
            Some(FrameSize::Sxga)
        } else if i == 15 {
            Some(FrameSize::Uxga)
        } else if i == 16 {
            Some(FrameSize::Fhd)
        } else if i == 17 {
            Some(FrameSize::PHd)
        } else if i == 18 {
            Some(FrameSize::P3mp)
        } else if i == 19 {
            Some(FrameSize::Qxga)
        } else if i == 20 {
            Some(FrameSize::Qhd)
        } else if i == 21 {
            Some(FrameSize::Wqxga)
        } else if i == 22 {
            Some(FrameSize::PFhd)
        } else if i == 23 {
            Some(FrameSize::Qsxga)
        } else if i == 24 {
            Some(FrameSize::Mp5)
        } else {
            None
        }
    }

    fn index(self) -> (i: usize)
        ensures
            i == self.ordinal(),
            i < 25,
    {
        match self {
            FrameSize::R96x96 => 0,
            FrameSize::Qqvga => 1,
            FrameSize::R128x128 => 2,
            FrameSize::Qcif => 3,
            FrameSize::Hqvga => 4,
            FrameSize::R240x240 => 5,
            FrameSize::Qvga => 6,
            FrameSize::R320x320 => 7,
            FrameSize::Cif => 8,
            FrameSize::Hvga => 9,
            FrameSize::Vga => 10,
            FrameSize::Svga => 11,
            FrameSize::Xga => 12,
            FrameSize::Hd => 13,
            FrameSize::Sxga => 14,
            FrameSize::Uxga => 15,
            FrameSize::Fhd => 16,
            FrameSize::PHd => 17,
            FrameSize::P3mp => 18,
            FrameSize::Qxga => 19,
            FrameSize::Qhd => 20,
            FrameSize::Wqxga => 21,
            FrameSize::PFhd => 22,
            FrameSize::Qsxga => 23,
            FrameSize::Mp5 => 24,
        }
    }

    fn from_index(i: usize) -> (r: Option<FrameSize>)
        ensures
            r == FrameSize::at(i as int),
    {
        match i {
            0 => Some(FrameSize::R96x96),
            1 => Some(FrameSize::Qqvga),
            2 => Some(FrameSize::R128x128),
            3 => Some(FrameSize::Qcif),
            4 => Some(FrameSize::Hqvga),
            5 => Some(FrameSize::R240x240),
            6 => Some(FrameSize::Qvga),
            7 => Some(FrameSize::R320x320),
            8 => Some(FrameSize::Cif),
            9 => Some(FrameSize::Hvga),
            10 => Some(FrameSize::Vga),
            11 => Some(FrameSize::Svga),
            12 => Some(FrameSize::Xga),
            13 => Some(FrameSize::Hd),
            14 => Some(FrameSize::Sxga),
            15 => Some(FrameSize::Uxga),
            16 => Some(FrameSize::Fhd),
            17 => Some(FrameSize::PHd),
            18 => Some(FrameSize::P3mp),
            19 => Some(FrameSize::Qxga),
            20 => Some(FrameSize::Qhd),
            21 => Some(FrameSize::Wqxga),
            22 => Some(FrameSize::PFhd),
            23 => Some(FrameSize::Qsxga),
            24 => Some(FrameSize::Mp5),
            _ => None,
        }
    }

    /// The driver's number for the resolution, from the table of its numbers in declaration order.
    pub fn as_raw(self, codes: &[u32; 25]) -> (raw: u32)
        ensures
            raw == codes@[self.ordinal()],
    {
        codes[self.index()]
    }

    /// The variant that the driver's number stands for; `None` for a number that is not in the table.
    pub fn from_raw(raw: u32, codes: &[u32; 25]) -> (r: Option<FrameSize>)
        ensures
            r == FrameSize::at(code_position(codes@, raw)),
    {
        FrameSize::from_index(find_code(codes, raw))
    }

    /// Width and height in pixels.
    pub open spec fn pixels(self) -> (u16, u16) {
        match self {
            FrameSize::R96x96 => (96, 96),
            FrameSize::Qqvga => (160, 120),
            FrameSize::R128x128 => (128, 128),
            FrameSize::Qcif => (176, 144),
            FrameSize::Hqvga => (240, 176),
            FrameSize::R240x240 => (240, 240),
            FrameSize::Qvga => (320, 240),
            FrameSize::R320x320 => (320, 320),
            FrameSize::Cif => (400, 296),
            FrameSize::Hvga => (480, 320),
            FrameSize::Vga => (640, 480),
            FrameSize::Svga => (800, 600),
            FrameSize::Xga => (1024, 768),
            FrameSize::Hd => (1280, 720),
            FrameSize::Sxga => (1280, 1024),
            FrameSize::Uxga => (1600, 1200),
            FrameSize::Fhd => (1920, 1080),
            FrameSize::PHd => (720, 1280),
            FrameSize::P3mp => (864, 1536),
            FrameSize::Qxga => (2048, 1536),
            FrameSize::Qhd => (2560, 1440),
            FrameSize::Wqxga => (2560, 1600),
            FrameSize::PFhd => (1080, 1920),
            FrameSize::Qsxga => (2560, 1920),
            FrameSize::Mp5 => (2592, 1944),
        }
    }

    /// Width and height in pixels.
    pub fn dimensions(self) -> (r: (u16, u16))
        ensures
            r == self.pixels(),
    {
        match self {
            FrameSize::R96x96 => (96, 96),
            FrameSize::Qqvga => (160, 120),
            FrameSize::R128x128 => (128, 128),
            FrameSize::Qcif => (176, 144),
            FrameSize::Hqvga => (240, 176),
            FrameSize::R240x240 => (240, 240),
            FrameSize::Qvga => (320, 240),
            FrameSize::R320x320 => (320, 320),
            FrameSize::Cif => (400, 296),
            FrameSize::Hvga => (480, 320),
            FrameSize::Vga => (640, 480),
            FrameSize::Svga => (800, 600),
            FrameSize::Xga => (1024, 768),
            FrameSize::Hd => (1280, 720),
            FrameSize::Sxga => (1280, 1024),
            FrameSize::Uxga => (1600, 1200),
            FrameSize::Fhd => (1920, 1080),
            FrameSize::PHd => (720, 1280),
            FrameSize::P3mp => (864, 1536),
            FrameSize::Qxga => (2048, 1536),
            FrameSize::Qhd => (2560, 1440),
            FrameSize::Wqxga => (2560, 1600),
            FrameSize::PFhd => (1080, 1920),
            FrameSize::Qsxga => (2560, 1920),
            FrameSize::Mp5 => (2592, 1944),
        }
    }
}

/// Every resolution is found again by its number, where no two resolutions share one.
pub proof fn size_numbers_invert(s: FrameSize, codes: Seq<u32>)
    requires
        codes.len() == 25,
        distinct_codes(codes),
    ensures
        FrameSize::at(code_position(codes, codes[s.ordinal()])) == Some(s),
{
    lemma_code_position(codes, codes[s.ordinal()], s.ordinal());
}

/// A number that is not in the table stands for nothing.
pub proof fn unknown_numbers_are_refused(formats: Seq<u32>, sizes: Seq<u32>, raw: u32)
    requires
        formats.len() == 10,
        sizes.len() == 25,
        !formats.contains(raw),
        !sizes.contains(raw),
    ensures
        PixelFormat::at(code_position(formats, raw)) is None,
        FrameSize::at(code_position(sizes, raw)) is None,
{
    assert forall|k: int| 0 <= k < 10 implies #[trigger] formats[k] != raw by {
        assert(formats.contains(formats[k]));
    }
    assert forall|k: int| 0 <= k < 25 implies #[trigger] sizes[k] != raw by {
        assert(sizes.contains(sizes[k]));
    }
    lemma_code_position(formats, raw, 10);
    lemma_code_position(sizes, raw, 25);
}

/// Where the frame buffer lives.
#[derive(Clone, Copy, Debug, PartialEq, Eq, Structural)]
pub enum FbLocation {
    /// External memory, needed for all but small frames.
    Psram,
    /// Internal memory.
    Dram,
}

impl FbLocation {
    /// The driver's number for the location, from its numbers for external and internal memory.
    pub fn as_raw(self, codes: &[u32; 2]) -> (raw: u32)
        ensures
            raw == codes@[if self == FbLocation::Psram {
                0int
            } else {
                1
            }],
    {
        match self {
            FbLocation::Psram => codes[0],
            FbLocation::Dram => codes[1],
        }
    }
}

/// When buffers are filled.
#[derive(Clone, Copy, Debug, PartialEq, Eq, Structural)]
pub enum GrabMode {
    /// As soon as a buffer is free.
    WhenEmpty,
    /// Always, so that the latest frame is at hand.
    Latest,
}

impl GrabMode {
    /// The driver's number for the mode, from its numbers for both modes.
    pub fn as_raw(self, codes: &[u32; 2]) -> (raw: u32)
        ensures
            raw == codes@[if self == GrabMode::WhenEmpty {
                0int
            } else {
                1
            }],
    {
        match self {
            GrabMode::WhenEmpty => codes[0],
            GrabMode::Latest => codes[1],
        }
    }
}

/// Pins of the camera interface.
#[derive(Clone, Copy, Debug, PartialEq, Eq, Structural)]
pub struct CameraPins {
    pub pwdn: i32,
    pub reset: i32,
    pub xclk: i32,
    pub sccb_sda: i32,
    pub sccb_scl: i32,
    pub d7: i32,
    pub d6: i32,
    pub d5: i32,
    pub d4: i32,
    pub d3: i32,
    pub d2: i32,
    pub d1: i32,
    pub d0: i32,
    pub vsync: i32,
    pub href: i32,
    pub pclk: i32,
}

impl CameraPins {
    /// Everything disconnected.
    pub open spec fn disconnected() -> CameraPins {
        CameraPins {
            pwdn: NOT_CONNECTED,
            reset: NOT_CONNECTED,
            xclk: NOT_CONNECTED,
            sccb_sda: NOT_CONNECTED,
            sccb_scl: NOT_CONNECTED,
            d7: NOT_CONNECTED,
            d6: NOT_CONNECTED,
            d5: NOT_CONNECTED,
            d4: NOT_CONNECTED,
            d3: NOT_CONNECTED,
            d2: NOT_CONNECTED,
            d1: NOT_CONNECTED,
            d0: NOT_CONNECTED,
            vsync: NOT_CONNECTED,
            href: NOT_CONNECTED,
            pclk: NOT_CONNECTED,
        }
    }

    /// Everything disconnected.
    pub fn all_disabled() -> (p: CameraPins)
        ensures
            p == CameraPins::disconnected(),
    {
        CameraPins {
            pwdn: NOT_CONNECTED,
            reset: NOT_CONNECTED,
            xclk: NOT_CONNECTED,
            sccb_sda: NOT_CONNECTED,
            sccb_scl: NOT_CONNECTED,
            d7: NOT_CONNECTED,
            d6: NOT_CONNECTED,
            d5: NOT_CONNECTED,
            d4: NOT_CONNECTED,
            d3: NOT_CONNECTED,
            d2: NOT_CONNECTED,
            d1: NOT_CONNECTED,
            d0: NOT_CONNECTED,
            vsync: NOT_CONNECTED,
            href: NOT_CONNECTED,
            pclk: NOT_CONNECTED,
        }
    }

    /// The Freenove ESP32-S3 WROOM board.
    pub open spec fn freenove() -> CameraPins {
        CameraPins {
            pwdn: NOT_CONNECTED,
            reset: NOT_CONNECTED,
            xclk: 15,
            sccb_sda: 4,
            sccb_scl: 5,
            d7: 16,
            d6: 17,
            d5: 18,
            d4: 12,
            d3: 10,
            d2: 8,
            d1: 9,
            d0: 11,
            vsync: 6,
            href: 7,
            pclk: 13,
        }
    }

    /// The Freenove ESP32-S3 WROOM board.
    pub fn freenove_esp32s3_wroom() -> (p: CameraPins)
        ensures
            p == CameraPins::freenove(),
    {
        CameraPins {
            pwdn: NOT_CONNECTED,
            reset: NOT_CONNECTED,
            xclk: 15,
            sccb_sda: 4,
            sccb_scl: 5,
            d7: 16,
            d6: 17,
            d5: 18,
            d4: 12,
            d3: 10,
            d2: 8,
            d1: 9,
            d0: 11,
            vsync: 6,
            href: 7,
            pclk: 13,
        }
    }
}

impl Default for CameraPins {
    fn default() -> (p: CameraPins)
        ensures
            p == CameraPins::disconnected(),
    {
        CameraPins::all_disabled()
    }
}

/// Everything that the driver needs to start.
#[derive(Clone, Copy, Debug, PartialEq, Eq, Structural)]
pub struct CameraConfig {
    pub pins: CameraPins,
    /// Clock for the sensor, in hertz.
    pub xclk_freq_hz: u32,
    pub pixel_format: PixelFormat,
    pub frame_size: FrameSize,
    /// 0 to 63, lower is better; for JPEG only.
    pub jpeg_quality: u8,
    /// 1 takes single shots; more run continuously, for JPEG.
    pub fb_count: usize,
    pub fb_location: FbLocation,
    pub grab_mode: GrabMode,
}

impl CameraConfig {
    /// Grayscale 640x480 with one buffer in external memory, for the given pins.
    pub open spec fn for_pins(pins: CameraPins) -> CameraConfig {
        CameraConfig {
            pins,
            xclk_freq_hz: 20_000_000,
            pixel_format: PixelFormat::Grayscale,
            frame_size: FrameSize::Vga,
            jpeg_quality: 12,
            fb_count: 1,
            fb_location: FbLocation::Psram,
            grab_mode: GrabMode::WhenEmpty,
        }
    }

    /// The default configuration with the given pins.
    pub fn with_pins(pins: CameraPins) -> (c: CameraConfig)
        ensures
            c == CameraConfig::for_pins(pins),
    {
        CameraConfig {
            pins,
            xclk_freq_hz: 20_000_000,
            pixel_format: PixelFormat::Grayscale,
            frame_size: FrameSize::Vga,
            jpeg_quality: 12,
            fb_count: 1,
            fb_location: FbLocation::Psram,
            grab_mode: GrabMode::WhenEmpty,
        }
    }
}

impl Default for CameraConfig {
    fn default() -> (c: CameraConfig)
        ensures
            c == CameraConfig::for_pins(CameraPins::disconnected()),
    {
        CameraConfig::with_pins(CameraPins::all_disabled())
    }
}

/// The sensor that the driver found.
#[derive(Clone, Copy, Debug, PartialEq, Eq)]
pub struct SensorInfo {
    pub pid: u16,
    pub ver: u8,
    pub name: &'static str,
}

impl SensorInfo {
    /// Whether the sensor is an OV3660.
    pub fn is_ov3660(&self) -> (r: bool)
        ensures
            r == (self.pid == OV3660_PID),
    {
        self.pid == OV3660_PID
    }
}

/// Microseconds of a time given as seconds and microseconds, in 64 bits; a time before the epoch wraps.
pub fn timestamp_us(sec: i64, usec: i32) -> (t: u64)
    requires
        i64::MIN <= sec * 1_000_000 <= i64::MAX,
        i64::MIN <= sec * 1_000_000 + usec <= i64::MAX,
    ensures
        t == if sec * 1_000_000 + usec >= 0 {
            sec * 1_000_000 + usec
        } else {
            sec * 1_000_000 + usec + 0x1_0000_0000_0000_0000
        },
{
    let us: i64 = sec * 1_000_000 + usec as i64;
    if us >= 0 {
        us as u64
    } else {
        (us as i128 + 0x1_0000_0000_0000_0000) as u64
    }
}

/// The driver's numbers for everything that it numbers.
#[derive(Clone, Copy, Debug, PartialEq, Eq)]
pub struct DriverCodes {
    pub pixel_formats: [u32; 10],
    pub frame_sizes: [u32; 25],
    pub fb_locations: [u32; 2],
    pub grab_modes: [u32; 2],
    pub ledc_timer: u32,
    pub ledc_channel: u32,
}

/// The driver's configuration record.
#[derive(Clone, Copy, Debug, PartialEq, Eq, Structural)]
pub struct RawConfig {
    pub pins: CameraPins,
    pub xclk_freq_hz: i32,
    pub ledc_timer: u32,
    pub ledc_channel: u32,
    pub pixel_format: u32,
    pub frame_size: u32,
    pub jpeg_quality: i32,
    pub fb_count: usize,
    pub fb_location: u32,
    pub grab_mode: u32,
    pub sccb_i2c_port: i32,
}

/// The configuration record that stands for a configuration. The control bus runs over the pins, not
/// over a configured port. A clock beyond 31 bits wraps.
pub fn ffi_config(config: &CameraConfig, codes: &DriverCodes) -> (raw: RawConfig)
    ensures
        raw.pins == config.pins,
        raw.xclk_freq_hz == if config.xclk_freq_hz <= i32::MAX {
            config.xclk_freq_hz as int
        } else {
            config.xclk_freq_hz - 0x1_0000_0000
        },
        raw.ledc_timer == codes.ledc_timer,
        raw.ledc_channel == codes.ledc_channel,
        raw.pixel_format == codes.pixel_formats@[config.pixel_format.ordinal()],
        raw.frame_size == codes.frame_sizes@[config.frame_size.ordinal()],
        raw.jpeg_quality == config.jpeg_quality,
        raw.fb_count == config.fb_count,
        raw.fb_location == codes.fb_locations@[if config.fb_location == FbLocation::Psram {
            0int
        } else {
            1
        }],
        raw.grab_mode == codes.grab_modes@[if config.grab_mode == GrabMode::WhenEmpty {
            0int
        } else {
            1
        }],
        raw.sccb_i2c_port == -1,
{
    let hz: i32 = if config.xclk_freq_hz <= 0x7FFF_FFFF {
        config.xclk_freq_hz as i32
    } else {
        (config.xclk_freq_hz as i64 - 0x1_0000_0000) as i32
    };
    RawConfig {
        pins: config.pins,
        xclk_freq_hz: hz,
        ledc_timer: codes.ledc_timer,
        ledc_channel: codes.ledc_channel,
        pixel_format: config.pixel_format.as_raw(&codes.pixel_formats),
        frame_size: config.frame_size.as_raw(&codes.frame_sizes),
        jpeg_quality: config.jpeg_quality as i32,
        fb_count: config.fb_count,
        fb_location: config.fb_location.as_raw(&codes.fb_locations),
        grab_mode: config.grab_mode.as_raw(&codes.grab_modes),
        sccb_i2c_port: -1,
    }
}

} // verus!
