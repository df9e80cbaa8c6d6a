use rsat::word::Words;

#[test]
fn word_gc_01() {
    let mut words = Words::new();

    let a = words.var(8);
    words.drop_word(a);
    assert_eq!(words.live_count(), 0);

    let before = words.size();
    let b = words.var(8);
    let after = words.size();

    assert_eq!(before, after);
    words.drop_word(b);
}

#[test]
fn word_convert_01() {
    let mut words = Words::new();

    for k in 0..=u8::MAX {
        let w = words.from_u64(8, k as u64);
        let j = words.to_u64(&w).unwrap() as u8;

        assert_eq!(k, j);
        words.drop_word(w);
    }
}

#[test]
fn convert_02() {
    let mut words = Words::new();

    let w = words.var(8);

    assert!(words.to_u64(&w).is_none());
    words.drop_word(w);
}

#[test]
fn word_rotl_01() {
    let mut words = Words::new();

    for n in 0..=u8::MAX {
        let w = words.from_u64(8, n as u64);

        for k in 0..=8 {
            let r = w.rotl(&mut words, k);
            let m = words.to_u64(&r).unwrap() as u8;

            assert_eq!(n.rotate_left(k as u32), m);
            words.drop_word(r);
        }
        words.drop_word(w);
    }
}

#[test]
fn word_rotr_01() {
    let mut words = Words::new();

    for n in 0..=u8::MAX {
        let w = words.from_u64(8, n as u64);

        for k in 0..=8 {
            let r = w.rotr(&mut words, k);
            let m = words.to_u64(&r).unwrap() as u8;

            assert_eq!(n.rotate_right(k as u32), m);
            words.drop_word(r);
        }
        words.drop_word(w);
    }
}

#[test]
fn rotl_02() {
    let mut words = Words::new();

    for n in 0..=u8::MAX {
        for k in 0..=8 {
            let mut w = words.from_u64(8, n as u64);
            w.rotr_assign(&mut words, k);
            let m = words.to_u64(&w).unwrap() as u8;

            assert_eq!(n.rotate_right(k as u32), m);
            words.drop_word(w);
        }
    }
}

#[test]
fn rotr_02() {
    let mut words = Words::new();

    for n in 0..=u8::MAX {
        for k in 0..=8 {
            let mut w = words.from_u64(8, n as u64);
            w.rotl_assign(&mut words, k);
            let m = words.to_u64(&w).unwrap() as u8;

            assert_eq!(n.rotate_left(k as u32), m);
            words.drop_word(w);
        }
    }
}

#[test]
fn word_slice_concat() {
    let mut words = Words::new();

    let w = words.from_u64(8, 0xa5);
    let lo = w.slice(&mut words, 0, 3);
    let hi = w.slice(&mut words, 4, 7);
    assert_eq!(words.to_u64(&lo), Some(0x5));
    assert_eq!(words.to_u64(&hi), Some(0xa));
    // hi.concat(lo) puts lo's bits first
    let back = hi.concat(&mut words, &lo);
    assert_eq!(words.to_u64(&back), Some(0xa5));
    words.drop_word(w);
    words.drop_word(lo);
    words.drop_word(hi);
    words.drop_word(back);
    assert_eq!(words.live_count(), 0);
}
