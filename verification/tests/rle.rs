use jpeg_core::{rle, EOB, ZRL};

fn block(f: impl Fn(usize) -> i16) -> [i16; 64] {
    let mut b = [0i16; 64];
    for i in 0..64 {
        b[i] = f(i);
    }
    b
}

#[test]
fn rle_test_smoke() {
    let buf: [i16; 64] = block(|i| match i {
        0 => 42,
        _ => 0,
    });
    let (dc, _) = rle(buf, 0);
    assert_eq!(dc, 42)
}

#[test]
fn test_prev_block() {
    let buf: [i16; 64] = block(|i| match i {
        0 => 42,
        _ => 0,
    });
    let (dc, _) = rle(buf, -1);
    assert_eq!(dc, 43);
}

#[test]
fn test_eob() {
    let buf: [i16; 64] = block(|i| match i {
        1..=9 => i as i16,
        _ => 0,
    });
    let (_, pairs) = rle(buf, 0);
    assert_eq!(*pairs.last().unwrap(), EOB)
}

#[test]
fn test_zrl() {
    let buf: [i16; 64] = block(|i| match i {
        1..=16 => 0,
        _ => 42,
    });
    let (_, pairs) = rle(buf, 0);
    assert_eq!(pairs[0], ZRL);
    assert_eq!(pairs[1], (0, 42))
}

#[test]
fn test_fifteen_zeros_are_not_zrl() {
    let mut buf = [0i16; 64];
    buf[16] = 42; // 15 AC zeros, then a non-zero coefficient

    let (_, pairs) = rle(buf, 0);

    assert_eq!(&pairs[..2], &[(15, 42), ZRL]);
}

#[test]
fn test_sixteen_zeros_use_zrl() {
    let mut buf = [0i16; 64];
    buf[17] = 42; // 16 AC zeros, then a non-zero coefficient

    let (_, pairs) = rle(buf, 0);

    assert_eq!(&pairs[..2], &[ZRL, (0, 42)]);
}

#[test]
fn test_fifteen_trailing_zeros_are_eob() {
    let mut buf = [0i16; 64];
    buf[48] = 42; // 15 AC zeros after the last non-zero coefficient

    let (_, pairs) = rle(buf, 0);

    assert_eq!(*pairs.last().unwrap(), EOB);
    assert_eq!(pairs[pairs.len() - 2], (15, 42));
}

#[test]
fn test_full_block_does_not_end_with_eob() {
    let buf = [42i16; 64];

    let (_, pairs) = rle(buf, 0);

    assert_eq!(pairs.len(), 63);
    assert_eq!(*pairs.last().unwrap(), (0, 42));
    assert!(!pairs.contains(&EOB));
}

#[test]
fn rle_all_zero_block() {
    let (dc, pairs) = rle([0i16; 64], 5);
    assert_eq!(dc, -5);
    assert_eq!(pairs, vec![ZRL, ZRL, ZRL, EOB]);
}

#[test]
fn rle_sixteen_trailing_zeros_have_no_eob() {
    let mut buf = [0i16; 64];
    buf[47] = 7;
    let (_, pairs) = rle(buf, 0);
    assert_eq!(pairs, vec![ZRL, ZRL, (14, 7), ZRL]);
}

#[test]
fn rle_decodes_back() {
    let buf: [i16; 64] = block(|i| match i % 7 {
        0 => (i as i16) - 30,
        _ => 0,
    });
    let (dc, pairs) = rle(buf, 3);
    assert_eq!(dc, buf[0] - 3);
    let mut ac: Vec<i16> = Vec::new();
    for (run, v) in pairs {
        if (run, v) == EOB {
            break;
        }
        let zeros = if (run, v) == ZRL { 16 } else { run as usize };
        for _ in 0..zeros {
            ac.push(0);
        }
        if (run, v) != ZRL {
            ac.push(v);
        }
    }
    while ac.len() < 63 {
        ac.push(0);
    }
    assert_eq!(&ac[..], &buf[1..]);
}
