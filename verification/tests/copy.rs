use glz::copy::{const_copy, copy_literals, fixed_copy_within};

#[test]
fn const_copy_moves_exactly_the_size() {
    let src: Vec<u8> = (0..40u8).collect();
    let mut dest = [0xEEu8; 40];
    const_copy::<16, false>(&src, &mut dest, 3, 5);
    for i in 0..40 {
        if (5..21).contains(&i) {
            assert_eq!(dest[i], src[i - 2]);
        } else {
            assert_eq!(dest[i], 0xEE);
        }
    }
}

#[test]
fn const_copy_safe_with_room() {
    let src = [1u8, 2, 3, 4, 5, 6, 7, 8];
    let mut dest = [0u8; 9];
    const_copy::<8, true>(&src, &mut dest, 0, 0);
    assert_eq!(dest, [1, 2, 3, 4, 5, 6, 7, 8, 0]);
}

#[test]
fn copy_literals_of_every_length() {
    let src: Vec<u8> = (0..100u8).collect();
    for n in 0..70usize {
        let mut dest = [0xEEu8; 100];
        copy_literals(&src, &mut dest, 7, 11, n);
        for i in 0..100 {
            if i >= 11 && i < 11 + n {
                assert_eq!(dest[i], src[i - 4]);
            } else {
                assert_eq!(dest[i], 0xEE);
            }
        }
    }
}

#[test]
fn fixed_copy_within_apart() {
    let mut buf: Vec<u8> = (0..64u8).collect();
    fixed_copy_within::<8>(&mut buf, 0, 40);
    assert_eq!(&buf[40..48], &[0, 1, 2, 3, 4, 5, 6, 7]);
    assert_eq!(buf[39], 39);
    assert_eq!(buf[48], 48);
}

#[test]
fn fixed_copy_within_replicates_one_byte() {
    let mut buf = [0u8; 40];
    buf[3] = 0xAB;
    fixed_copy_within::<32>(&mut buf, 3, 4);
    for i in 3..36 {
        assert_eq!(buf[i], 0xAB);
    }
    assert_eq!(buf[2], 0);
    assert_eq!(buf[36], 0);
}

#[test]
fn fixed_copy_within_repeats_a_period() {
    let mut buf = [0u8; 20];
    buf[0] = b'x';
    buf[1] = b'y';
    buf[2] = b'z';
    fixed_copy_within::<16>(&mut buf, 0, 3);
    assert_eq!(&buf[..19], b"xyzxyzxyzxyzxyzxyzx");
    assert_eq!(buf[19], 0);
}

#[test]
fn fixed_copy_within_backwards() {
    let mut buf: Vec<u8> = (0..16u8).collect();
    fixed_copy_within::<4>(&mut buf, 8, 6);
    assert_eq!(&buf[..], &[0, 1, 2, 3, 4, 5, 8, 9, 10, 11, 10, 11, 12, 13, 14, 15]);
}
