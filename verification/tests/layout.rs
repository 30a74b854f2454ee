use bibbo::layout::{seed_jitter, spawn_fractions};

#[test]
fn spawn_fractions_follow_the_generator() {
    for n in [0usize, 1, 2, 49, 1000, usize::MAX] {
        let s = n as u64;
        let ax = s.wrapping_mul(2654435761).wrapping_add(1013904223);
        let ay = ax.wrapping_mul(2654435761).wrapping_add(1013904223);
        assert_eq!(spawn_fractions(n), (ax & 0xFFFF, ay & 0xFFFF));
    }
    // n = 0: ax = 1013904223 = 0x3C6EF35F.
    assert_eq!(spawn_fractions(0).0, 0xF35F);
}

#[test]
fn seed_jitter_takes_two_bytes() {
    for i in 0usize..50 {
        let h = (i as u64).wrapping_mul(6364136223846793005);
        assert_eq!(seed_jitter(i), (h & 0xFF, (h >> 8) & 0xFF));
    }
    assert_eq!(seed_jitter(0), (0, 0));
    // 6364136223846793005 = 0x5851F42D4C957F2D
    assert_eq!(seed_jitter(1), (0x2D, 0x7F));
}

#[test]
fn placement_repeats_every_65536_notes() {
    for n in [0usize, 5, 777, 65535, 123456] {
        assert_eq!(spawn_fractions(n), spawn_fractions(n + 65536));
    }
}
