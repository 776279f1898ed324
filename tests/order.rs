use vexlake::order::{key_bits, order_key};

#[test]
fn keys_follow_float_order() {
    let values = [-f32::INFINITY, -2.5, -1.0, -0.0, 0.0, 1e-30, 0.5, 1.0, 3.0, f32::INFINITY];
    for w in values.windows(2) {
        assert!(order_key(w[0].to_bits()) < order_key(w[1].to_bits()));
    }
}

#[test]
fn key_values() {
    assert_eq!(order_key(0), 0x8000_0000);
    assert_eq!(order_key(1.0f32.to_bits()), 0x8000_0000 + 0x3f80_0000);
    assert_eq!(order_key((-1.0f32).to_bits()), 0x7fff_ffff - 0x3f80_0000);
}

#[test]
fn key_bits_inverts_order_key() {
    for b in [0u32, 1, 0x3f80_0000, 0x8000_0000, 0xbf80_0000, 0x7fc0_0000, u32::MAX] {
        assert_eq!(key_bits(order_key(b)), b);
    }
}
