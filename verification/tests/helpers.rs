use maramos::helpers::crc::{crc32 as bit_crc32, crc64};
use maramos::helpers::crc32::crc32 as table_crc32;
use maramos::helpers::late_init::LateInit;
use maramos::helpers::time::Time;
use maramos::helpers::wait::{timed_out, wait_over};
use maramos::library::crc32::crc32 as lib_crc32;
use maramos::library::framebuffer::FrameBuffer;
use maramos::library::late_init::LateInit as LibLateInit;
use maramos::library::time::Time as LibTime;

#[test]
fn crc32_known_vectors() {
    for f in [bit_crc32 as fn(&[u8]) -> u32, table_crc32, lib_crc32] {
        assert_eq!(f(b""), 0x0000_0000);
        assert_eq!(f(b"hello"), 0x3610_A686);
        assert_eq!(f(b"world"), 0x3A77_1143);
        assert_eq!(f(b"\x00"), 0xD202_EF8D);
        assert_eq!(f(b"123456789"), 0xCBF4_3926);
        assert_eq!(f(b"test"), f(b"test"));
        assert_ne!(f(b"abc"), f(b"def"));
    }
}

#[test]
fn crc32_table_matches_bitwise() {
    let data: Vec<u8> = (0..=255u8).chain(0..=255u8).collect();
    assert_eq!(table_crc32(&data), bit_crc32(&data));
}

#[test]
fn crc64_known_vector() {
    assert_eq!(crc64(b"123456789"), 0x995D_C9BB_DF19_39FA);
    assert_eq!(crc64(b""), 0);
}

#[test]
fn time_units() {
    assert_eq!(Time::Nanoseconds(5).to_nanos(), 5);
    assert_eq!(Time::Milliseconds(3).to_nanos(), 3_000_000);
    assert_eq!(Time::Seconds(2).to_nanos(), 2_000_000_000);
    assert_eq!(Time::Minutes(1).to_nanos(), 60_000_000_000);
    assert_eq!(Time::Hours(1).to_nanos(), 3_600_000_000_000);
    assert_eq!(Time::Days(1).to_nanos(), 86_400_000_000_000);
    assert_eq!(Time::Hours(24).to_nanos(), Time::Days(1).to_nanos());
    assert_eq!(Time::Minutes(60).to_nanos(), Time::Hours(1).to_nanos());
}

#[test]
fn time_mul() {
    assert_eq!((Time::Seconds(3) * 5).to_nanos(), 15_000_000_000);
    assert_eq!((Time::Milliseconds(10) * 0).to_nanos(), 0);
    assert_eq!((Time::Nanoseconds(100) * 1).to_nanos(), 100);
    assert_eq!(Time::Seconds(3) * 5, Time::Nanoseconds(15_000_000_000));
}

#[test]
fn library_time_units() {
    assert_eq!(LibTime::Nanoseconds(5).to_nanos(), 5);
    assert_eq!(LibTime::Milliseconds(3).to_nanos(), 3_000_000);
    assert_eq!(LibTime::Seconds(2).to_nanos(), 2_000_000_000);
    assert_eq!(LibTime::Minutes(1).to_nanos(), 60_000_000_000);
    assert_eq!(LibTime::Hours(1).to_nanos(), 3_600_000_000_000);
    assert_eq!(LibTime::Days(1).to_nanos(), 86_400_000_000_000);
    assert_eq!(LibTime::Hours(24).to_nanos(), LibTime::Days(1).to_nanos());
    assert_eq!(LibTime::Minutes(60).to_nanos(), LibTime::Hours(1).to_nanos());
    assert_eq!((LibTime::Seconds(3) * 5).to_nanos(), 15_000_000_000);
}

#[test]
fn late_init_lifecycle() {
    let mut li: LateInit<u64> = LateInit::new();
    assert!(li.try_get().is_none());
    assert_eq!(*li.init(42), 42);
    assert_eq!(*li.get(), 42);
    assert_eq!(li.try_get(), Some(&42));

    let mut s: LateInit<String> = LateInit::new();
    s.init(String::from("kernel"));
    assert_eq!(s.get().as_str(), "kernel");
}

#[test]
fn library_late_init_get_mut() {
    let mut li: LibLateInit<u64> = LibLateInit::new();
    assert!(li.try_get().is_none());
    *li.init(1) += 1;
    assert_eq!(*li.get(), 2);
    *li.get_mut() = 7;
    assert_eq!(li.try_get(), Some(&7));
}

#[test]
fn wait_decisions() {
    let t = Time::Milliseconds(1);
    assert!(!timed_out(100, 100 + 1_000_000, &t));
    assert!(timed_out(100, 100 + 1_000_001, &t));
    assert!(!wait_over(0, 999_999, &t));
    assert!(wait_over(0, 1_000_000, &t));
}

#[test]
fn framebuffer_pixels() {
    let fb = FrameBuffer::new(0x1000, 3, 2, 16);
    assert_eq!(fb.stride, 4);
    assert_eq!(fb.pos_to_idx(2, 1), Some(6));
    assert_eq!(fb.pos_to_idx(3, 0), None);
    assert_eq!(fb.pos_to_idx(0, 2), None);
    let mut px = vec![0u32; 8];
    fb.set_pixel(&mut px, 1, 1, 0xAB);
    fb.set_pixel(&mut px, 9, 9, 0xCD);
    assert_eq!(px, vec![0, 0, 0, 0, 0, 0xAB, 0, 0]);
    assert_eq!(fb.read_pixel(&px, 1, 1), 0xAB);
    assert_eq!(fb.read_pixel(&px, 5, 1), 0);
    fb.fill_screen(&mut px, 7);
    assert_eq!(px, vec![7; 8]);
}

#[test]
fn framebuffer_scroll() {
    let fb = FrameBuffer::new(0, 2, 3, 8);
    let mut px: Vec<u32> = (1..=6).collect();
    fb.scroll(&mut px, 1);
    assert_eq!(px, vec![3, 4, 5, 6, 0, 0]);
    fb.scroll(&mut px, 3);
    assert_eq!(px, vec![3, 4, 5, 6, 0, 0]);
    fb.scroll(&mut px, 0);
    assert_eq!(px, vec![3, 4, 5, 6, 0, 0]);
}
