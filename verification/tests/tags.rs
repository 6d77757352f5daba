use arkstore::tag::MagicTag;

const LENGTHS: &[u64] = &[0, 3, 6, 7, 8, 9, 0xFF, 0x7_FF, 0x8_FF, 0b1111111111, 0b10000000000, 0x7_FF_FF_FF];

#[test]
fn no_overlap() {
    let items = [MagicTag::END, MagicTag::WRITING, MagicTag::WRITTEN, MagicTag::DELETED, 0];
    let iter = items.iter().copied().enumerate().flat_map(|(i, t)| {
        items
            .iter()
            .copied()
            .enumerate()
            .map(move |(j, s)| ((i, j), (t & MagicTag::MASK, s & MagicTag::MASK)))
    });

    for ((i, j), (t, s)) in iter {
        if i == j {
            continue;
        }
        assert_ne!(t, s)
    }
}

fn check_write_length(length: u64) {
    let mut backing = vec![0u8; 8];
    let mut pos = 0;
    MagicTag::Writing { length }.write_buffer(&mut backing, &mut pos);
    let mut read = 0;
    let r = MagicTag::read(&backing, &mut read).unwrap();
    assert_eq!(r, MagicTag::Writing { length });
}

fn check_write_exact(length: u64, n: usize) {
    if (MagicTag::Writing { length }).written_length() <= n {
        let mut backing = vec![0u8; 8];
        let mut pos = 0;
        MagicTag::Writing { length }.write_exact(&mut backing, &mut pos, n);
        let mut read = 0;
        let r = MagicTag::read(&backing, &mut read).unwrap();
        assert_eq!(r, MagicTag::Writing { length });
    }
}

#[test]
fn test_buffer_write() {
    for &length in LENGTHS {
        let o = MagicTag::Writing { length };
        let mut buffer = vec![0u8; 8];
        let mut backing = vec![0u8; 8];
        o.write_buffer(&mut buffer, &mut 0usize.clone());
        let mut pos = 0;
        o.write_buffer(&mut backing, &mut pos);
        let t = MagicTag::read(&buffer, &mut 0usize.clone()).unwrap();
        let mut read = 0;
        let r = MagicTag::read(&backing, &mut read).unwrap();
        assert_eq!(t, o);
        assert_eq!(t, r);
    }
}

#[test]
fn test_writing_length() {
    for &length in LENGTHS {
        check_write_length(length);
    }
}

#[test]
fn test_exact() {
    for &length in LENGTHS {
        for n in 0..=0b11 + 1 {
            check_write_exact(length, n);
        }
    }
}

#[test]
fn test_no_further_length() {
    for &length in LENGTHS {
        let mut backing = vec![0u8; 8];
        let mut written = 0;
        MagicTag::Writing { length }.write_buffer(&mut backing, &mut written);
        let mut read = 0;
        MagicTag::read(&backing, &mut read).unwrap();
        assert_eq!(written, read);
    }
}

#[test]
fn test_computed_length() {
    for &length in LENGTHS {
        let mut backing = vec![0u8; 8];
        let tag = MagicTag::Writing { length };
        let mut position = 0;
        tag.write_buffer(&mut backing, &mut position);
        assert_eq!(position, tag.written_length());
        position = 0;
        let tag2 = MagicTag::read(&backing, &mut position).unwrap();
        assert_eq!(position, tag.written_length());
        assert_eq!(tag, tag2);
    }
}
