use aava::util::bit_array::BitArray;

#[test]
fn get_set() {
    for i in 1..128 {
        for w in 1..8 {
            let num_max = 1u8 << w;
            let mut v = BitArray::new(w, i);
            for n in 0..i {
                v.set(n, (n as u8) % num_max);
            }
            for n in 0..i {
                assert_eq!(n as u8 % num_max, v.get(n), "Indexing: {}", n);
            }
        }
    }
}

#[test]
fn iter() {
    for i in 1..128 {
        for w in 1..8 {
            let num_max = 1u8 << w;
            let mut v = BitArray::new(w, i);
            for n in 0..i {
                v.set(n, (n as u8) % num_max);
            }
            let vv = v.iter();
            assert!(
                vv.iter().copied().eq((0..(i as u8)).map(|i| i % num_max)),
                "Expected '{:?}' got '{:?}",
                (0..(i as u8)).map(|i| i % num_max).collect::<Vec<_>>(),
                vv
            )
        }
    }
}

#[test]
fn len() {
    for i in 1..16 {
        for w in 1..8 {
            let v = BitArray::new(w, i);
            assert_eq!(v.len(), i);
            v.get(i - 1);
        }
    }
}

#[test]
fn round_trip_w5() {
    // every register value survives a set/get round trip at width 5
    let c = 1434;
    let mut v = BitArray::new(5, c);
    for i in 0..c {
        v.set(i, (i % 32) as u8);
    }
    for i in 0..c {
        assert_eq!(v.get(i), (i % 32) as u8);
    }
    let vv = v.iter();
    for i in 0..c {
        assert_eq!(vv[i], (i % 32) as u8);
    }
}

#[test]
fn max_with_equal_is_no_change() {
    // element-wise max against equal contents reports no change
    let mut a = BitArray::new(5, 100);
    let mut b = BitArray::new(5, 100);
    for i in 0..100 {
        a.set(i, (i % 32) as u8);
        b.set(i, (i % 32) as u8);
    }
    let modified = a.max(&mut b);
    assert!(!modified);
    for i in 0..100 {
        assert_eq!(b.get(i), (i % 32) as u8);
    }
}

#[test]
fn max_grows_registers() {
    let a = {
        let mut a = BitArray::new(3, 16);
        for i in 0..16 {
            a.set(i, (i % 8) as u8);
        }
        a
    };
    let mut b = BitArray::new(3, 16);
    for i in 0..16 {
        b.set(i, ((15 - i) % 8) as u8);
    }
    let modified = a.max(&mut b);
    assert!(modified);
    for i in 0..16 {
        assert_eq!(b.get(i), u8::max((i % 8) as u8, ((15 - i) % 8) as u8));
    }
}

#[test]
fn formatted_dump_renders_the_bytes() {
    let bytes: Vec<u8> = vec![0b00000010, 0b00100011, 0b01000101, 0b01100111, 0b00000000];
    let s = aava::util::bit_array::format_slice(&bytes, 5, 8);
    assert!(s.starts_with("[00000010|00100011|01000101|01100111|00000000]"));
}
