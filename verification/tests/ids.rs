use arkstore::id::{Id, PackedId};

const POSITIONS: &[u64] = &[1, 127, 128, 255, 256, 1 << 16, 1 << 24, 1 << 32, 1 << 40, 1 << 48, 1 << 55];

#[test]
fn roundtrip_pack() {
    for &position in POSITIONS {
        for length in 0..u8::MAX {
            let id = Id::new(position as _, length as _);
            let t = Id::from_packed(id.pack());
            assert_eq!(id, t);
        }
    }
}

#[test]
fn verify_correct() {
    for &position in POSITIONS {
        for length in 0..u8::MAX {
            let id = Id::new(position as _, length as _);
            let r = id.verify(length as _);
            assert!(r.is_ok(), "{:?}", r.unwrap_err());
        }
    }
}

#[test]
fn leading_zeros() {
    for &position in POSITIONS {
        for length in 0..u8::MAX {
            let id = Id::new(position as _, length as _);
            let o = position.leading_zeros();
            let p = id.pack().get().leading_zeros();
            assert!(p >= o - 8);
        }
    }
}
