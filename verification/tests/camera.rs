use vo_box_lite::camera::{
    ffi_config, timestamp_us, CameraConfig, CameraPins, DriverCodes, FbLocation, FrameSize,
    GrabMode, PixelFormat, SensorInfo, NOT_CONNECTED, OV3660_PID,
};

const FORMATS: [PixelFormat; 10] = [
    PixelFormat::Rgb565,
    PixelFormat::Yuv422,
    PixelFormat::Yuv420,
    PixelFormat::Grayscale,
    PixelFormat::Jpeg,
    PixelFormat::Rgb888,
    PixelFormat::Raw,
    PixelFormat::Rgb444,
    PixelFormat::Rgb555,
    PixelFormat::Raw8,
];

const SIZES: [(FrameSize, (u16, u16)); 25] = [
    (FrameSize::R96x96, (96, 96)),
    (FrameSize::Qqvga, (160, 120)),
    (FrameSize::R128x128, (128, 128)),
    (FrameSize::Qcif, (176, 144)),
    (FrameSize::Hqvga, (240, 176)),
    (FrameSize::R240x240, (240, 240)),
    (FrameSize::Qvga, (320, 240)),
    (FrameSize::R320x320, (320, 320)),
    (FrameSize::Cif, (400, 296)),
    (FrameSize::Hvga, (480, 320)),
    (FrameSize::Vga, (640, 480)),
    (FrameSize::Svga, (800, 600)),
    (FrameSize::Xga, (1024, 768)),
    (FrameSize::Hd, (1280, 720)),
    (FrameSize::Sxga, (1280, 1024)),
    (FrameSize::Uxga, (1600, 1200)),
    (FrameSize::Fhd, (1920, 1080)),
    (FrameSize::PHd, (720, 1280)),
    (FrameSize::P3mp, (864, 1536)),
    (FrameSize::Qxga, (2048, 1536)),
    (FrameSize::Qhd, (2560, 1440)),
    (FrameSize::Wqxga, (2560, 1600)),
    (FrameSize::PFhd, (1080, 1920)),
    (FrameSize::Qsxga, (2560, 1920)),
    (FrameSize::Mp5, (2592, 1944)),
];

fn codes() -> DriverCodes {
    let mut pixel_formats = [0u32; 10];
    for (i, c) in pixel_formats.iter_mut().enumerate() {
        *c = 100 - i as u32;
    }
    let mut frame_sizes = [0u32; 25];
    for (i, c) in frame_sizes.iter_mut().enumerate() {
        *c = 7 * i as u32;
    }
    DriverCodes {
        pixel_formats,
        frame_sizes,
        fb_locations: [5, 6],
        grab_modes: [8, 9],
        ledc_timer: 2,
        ledc_channel: 3,
    }
}

#[test]
fn format_numbers_are_inverted() {
    let c = codes().pixel_formats;
    for (i, f) in FORMATS.iter().enumerate() {
        assert_eq!(f.as_raw(&c), c[i]);
        assert_eq!(PixelFormat::from_raw(c[i], &c), Some(*f));
    }
    assert_eq!(PixelFormat::from_raw(90, &c), None);
}

#[test]
fn size_numbers_are_inverted() {
    let c = codes().frame_sizes;
    for (i, (s, dims)) in SIZES.iter().enumerate() {
        assert_eq!(s.as_raw(&c), c[i]);
        assert_eq!(FrameSize::from_raw(c[i], &c), Some(*s));
        assert_eq!(s.dimensions(), *dims);
    }
    assert_eq!(FrameSize::from_raw(1, &c), None);
    assert_eq!(FrameSize::from_raw(175, &c), None);
}

#[test]
fn configurations() {
    let c = codes();
    assert_eq!(FbLocation::Psram.as_raw(&c.fb_locations), 5);
    assert_eq!(FbLocation::Dram.as_raw(&c.fb_locations), 6);
    assert_eq!(GrabMode::WhenEmpty.as_raw(&c.grab_modes), 8);
    assert_eq!(GrabMode::Latest.as_raw(&c.grab_modes), 9);
    let d = CameraConfig::default();
    assert_eq!(d.pins, CameraPins::all_disabled());
    assert_eq!(CameraPins::default(), CameraPins::all_disabled());
    assert_eq!((d.pins.pwdn, d.pins.pclk, NOT_CONNECTED), (-1, -1, -1));
    assert_eq!((d.xclk_freq_hz, d.jpeg_quality, d.fb_count), (20_000_000, 12, 1));
    assert_eq!((d.pixel_format, d.frame_size), (PixelFormat::Grayscale, FrameSize::Vga));
    assert_eq!((d.fb_location, d.grab_mode), (FbLocation::Psram, GrabMode::WhenEmpty));
    let pins = CameraPins::freenove_esp32s3_wroom();
    assert_eq!(
        (pins.pwdn, pins.reset, pins.xclk, pins.sccb_sda, pins.sccb_scl),
        (-1, -1, 15, 4, 5)
    );
    assert_eq!(
        [pins.d7, pins.d6, pins.d5, pins.d4, pins.d3, pins.d2, pins.d1, pins.d0],
        [16, 17, 18, 12, 10, 8, 9, 11]
    );
    assert_eq!((pins.vsync, pins.href, pins.pclk), (6, 7, 13));
    let raw = ffi_config(&CameraConfig::with_pins(pins), &c);
    assert_eq!(raw.pins, pins);
    assert_eq!((raw.xclk_freq_hz, raw.jpeg_quality, raw.sccb_i2c_port), (20_000_000, 12, -1));
    assert_eq!((raw.pixel_format, raw.frame_size), (97, 70));
    assert_eq!((raw.fb_location, raw.grab_mode, raw.fb_count), (5, 8, 1));
    assert_eq!((raw.ledc_timer, raw.ledc_channel), (2, 3));
    let odd = CameraConfig { xclk_freq_hz: 0xFFFF_FFFF, ..CameraConfig::default() };
    assert_eq!(ffi_config(&odd, &c).xclk_freq_hz, -1);
}

#[test]
fn sensors_and_timestamps() {
    assert_eq!(OV3660_PID, 0x3660);
    assert!(SensorInfo { pid: 0x3660, ver: 0, name: "OV3660" }.is_ov3660());
    assert!(!SensorInfo { pid: 0x2640, ver: 0, name: "OV2640" }.is_ov3660());
    assert_eq!(timestamp_us(3, 17), 3_000_017);
    assert_eq!(timestamp_us(0, -1), u64::MAX);
}
