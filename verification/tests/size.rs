use mini_download_serve::size::human_size;

/// The same by floating-point division and formatting.
fn by_floats(n: u64) -> String {
    let units = ["B", "KB", "MB", "GB", "TB", "PB"];
    let mut n = n as f64;
    let mut u: usize = 0;
    while n >= 1024.0 && u < 5 {
        n /= 1024.0;
        u += 1;
    }
    if u == 0 {
        format!("{n:.0} B")
    } else {
        format!("{n:.1} {}", units[u])
    }
}

#[test]
fn bytes_are_shown_as_they_are() {
    assert_eq!(human_size(0), "0 B");
    assert_eq!(human_size(1), "1 B");
    assert_eq!(human_size(1023), "1023 B");
}

#[test]
fn larger_units_have_one_decimal() {
    assert_eq!(human_size(1024), "1.0 KB");
    assert_eq!(human_size(1536), "1.5 KB");
    assert_eq!(human_size(1048576), "1.0 MB");
    assert_eq!(human_size(5 * 1024 * 1024 * 1024), "5.0 GB");
    assert_eq!(human_size(1 << 40), "1.0 TB");
    assert_eq!(human_size(1 << 50), "1.0 PB");
    assert_eq!(human_size(u64::MAX), "16384.0 PB");
}

#[test]
fn a_size_just_below_a_unit_keeps_the_smaller_one() {
    assert_eq!(human_size(1024 * 1024 - 1), "1024.0 KB");
}

#[test]
fn ties_go_to_the_even_tenth() {
    // 1.25 and 1.75 kilobytes
    assert_eq!(human_size(1280), "1.2 KB");
    assert_eq!(human_size(1792), "1.8 KB");
}

#[test]
fn sizes_are_shown_as_floating_point_numbers_are() {
    for n in 0..20_000u64 {
        assert_eq!(human_size(n), by_floats(n), "{n}");
    }
    for shift in 10..64u32 {
        let base: u64 = 1 << shift;
        for i in 0..200u64 {
            for n in [
                base.wrapping_add(i),
                base.wrapping_sub(i + 1),
                base.wrapping_add(i << (shift - 8).min(56)),
                base.wrapping_add((i << (shift - 10)).wrapping_add(1)),
                base.wrapping_add((i << (shift - 10)).wrapping_sub(1)),
            ] {
                assert_eq!(human_size(n), by_floats(n), "{n}");
            }
        }
    }
}

#[test]
fn rounding_to_a_float_comes_before_rounding_to_a_tenth() {
    // next to a tie, and too near to it for a floating-point number to tell
    let tie: u64 = 0x2_0004 << 46;
    for n in [tie - 2000, tie - 513, tie - 512, tie - 1, tie, tie + 1, tie + 512, tie + 513, tie + 3000] {
        assert_eq!(human_size(n), by_floats(n), "{n}");
    }
    let mut n: u64 = 0x9e37_79b9_7f4a_7c15;
    for _ in 0..20_000 {
        n = n.wrapping_mul(6364136223846793005).wrapping_add(1442695040888963407);
        assert_eq!(human_size(n), by_floats(n), "{n}");
        // near multiples of a quarter of a petabyte, where ties are
        let m: u64 = (n & !0x0000_ffff_ffff_ffff).wrapping_add((n >> 20) & 0xfff).wrapping_sub(0x800);
        assert_eq!(human_size(m), by_floats(m), "{m}");
    }
}
