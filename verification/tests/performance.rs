use my_library::performance::{fps_band, FpsBand};

#[test]
fn fps_bands() {
    assert_eq!(fps_band(0), FpsBand::Red);
    assert_eq!(fps_band(29), FpsBand::Red);
    assert_eq!(fps_band(30), FpsBand::Gold);
    assert_eq!(fps_band(59), FpsBand::Gold);
    assert_eq!(fps_band(60), FpsBand::Green);
    assert_eq!(fps_band(u32::MAX), FpsBand::Green);
}
