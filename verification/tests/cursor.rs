use grammar_gen::cursor::EntropyCursor;

#[test]
fn draws_are_below_the_bound() {
    let bytes = [0u8, 1, 2, 3, 250, 251, 252, 253, 254, 255];
    for n in 1..300u64 {
        let mut cursor = EntropyCursor::new(&bytes);
        for _ in 0..12 {
            assert!(cursor.draw_bounded(n) < n);
        }
    }
}

#[test]
fn one_byte_covers_bounds_up_to_256() {
    let mut cursor = EntropyCursor::new(&[7, 200, 255]);
    assert_eq!(cursor.draw_bounded(10), 7);
    assert_eq!(cursor.position(), 1);
    assert_eq!(cursor.draw_bounded(256), 200);
    assert_eq!(cursor.position(), 2);
    assert_eq!(cursor.draw_bounded(100), 55);
    assert_eq!(cursor.position(), 3);
    assert!(cursor.exhausted());
}

#[test]
fn wider_bounds_take_more_bytes() {
    let mut cursor = EntropyCursor::new(&[1, 2, 3, 4, 5, 6, 7, 8, 9]);
    // 0x0102 = 258
    assert_eq!(cursor.draw_bounded(257), 1);
    assert_eq!(cursor.position(), 2);
    // 0x030405 = 197637
    assert_eq!(cursor.draw_bounded(0x1_0001), 197637 % 0x1_0001);
    assert_eq!(cursor.position(), 5);
    let mut cursor = EntropyCursor::new(&[1, 2, 3, 4, 5, 6, 7, 8, 9]);
    assert_eq!(cursor.draw_bounded(u64::MAX), 0x0102_0304_0506_0708);
    assert_eq!(cursor.position(), 8);
}

#[test]
fn missing_bytes_count_as_zero() {
    let mut cursor = EntropyCursor::new(&[]);
    assert!(cursor.exhausted());
    assert_eq!(cursor.draw_bounded(5), 0);
    assert_eq!(cursor.draw_bounded(1 << 40), 0);
    assert_eq!(cursor.position(), 0);
    // One byte is left of a two-byte draw: 0x0100 = 256.
    let mut cursor = EntropyCursor::new(&[1]);
    assert_eq!(cursor.draw_bounded(1000), 256);
    assert_eq!(cursor.position(), 1);
    assert_eq!(cursor.draw_bounded(1000), 0);
    assert_eq!(cursor.position(), 1);
}

#[test]
fn position_only_increases() {
    let bytes: Vec<u8> = (0..=255u8).collect();
    let mut cursor = EntropyCursor::new(&bytes);
    let mut last = cursor.position();
    for n in [1u64, 2, 300, 70_000, 1 << 30, 1 << 50, 3, 1] {
        cursor.draw_bounded(n);
        assert!(cursor.position() >= last);
        assert!(cursor.position() <= bytes.len());
        last = cursor.position();
    }
}

#[test]
fn equal_buffers_give_equal_draws() {
    let a = vec![9u8, 8, 7, 6, 5, 4, 3, 2, 1];
    let b = a.clone();
    let mut first = EntropyCursor::new(&a);
    let mut second = EntropyCursor::new(&b);
    for n in [3u64, 1000, 17, 1 << 20, 2] {
        assert_eq!(first.draw_bounded(n), second.draw_bounded(n));
        assert_eq!(first.position(), second.position());
    }
}
