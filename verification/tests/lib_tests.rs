use rsat::formula::Formula;

#[test]
fn lib_word_convert_u64_01() {
    let mut formula = Formula::new();

    for n in 0..=255 {
        let a = formula.from_u64(n, 8);
        assert_eq!(formula.try_to_u64(&a), Some(n));
        formula.drop_word(a);
    }
}

#[test]
fn lib_gc_01() {
    let mut formula = Formula::new();

    let a = formula.word(32);

    let b = formula.word(32);
    assert_eq!(formula.gc_live_count(), 64);
    formula.drop_word(b);

    assert_eq!(formula.gc_live_count(), 32);
    formula.drop_word(a);
}

#[test]
fn lib_and_01() {
    let mut formula = Formula::new();

    for a in 0..=15 {
        let x = formula.from_u64(a, 4);

        for b in 0..=15 {
            let y = formula.from_u64(b, 4);
            let z = formula.and(&x, &y);

            let c_actual = formula.try_to_u64(&z).unwrap();
            let c_expected = a & b;

            assert_eq!(c_actual, c_expected);
            formula.drop_word(y);
            formula.drop_word(z);
        }
        formula.drop_word(x);
    }

    assert_eq!(formula.gc_live_count(), 0);
}

#[test]
fn lib_or_01() {
    let mut formula = Formula::new();

    for a in 0..=15 {
        let x = formula.from_u64(a, 4);

        for b in 0..=15 {
            let y = formula.from_u64(b, 4);
            let z = formula.or(&x, &y);

            let c_actual = formula.try_to_u64(&z).unwrap();
            let c_expected = a | b;

            assert_eq!(c_actual, c_expected);
            formula.drop_word(y);
            formula.drop_word(z);
        }
        formula.drop_word(x);
    }

    assert_eq!(formula.gc_live_count(), 0);
}

#[test]
fn lib_xor_01() {
    let mut formula = Formula::new();

    for a in 0..=15 {
        let x = formula.from_u64(a, 4);

        for b in 0..=15 {
            let y = formula.from_u64(b, 4);
            let z = formula.xor(&x, &y);

            let c_actual = formula.try_to_u64(&z).unwrap();
            let c_expected = a ^ b;

            assert_eq!(c_actual, c_expected);
            formula.drop_word(y);
            formula.drop_word(z);
        }
        formula.drop_word(x);
    }

    assert_eq!(formula.gc_live_count(), 0);
}

#[test]
fn lib_add_01() {
    let mut formula = Formula::new();

    for a in 0..=15 {
        let x = formula.from_u64(a, 4);

        for b in 0..=15 {
            let y = formula.from_u64(b, 4);
            let z = formula.add(&x, &y);

            let c_actual = formula.try_to_u64(&z).unwrap();
            let c_expected = (a + b) & 0x0f;

            assert_eq!(c_actual, c_expected);
            formula.drop_word(y);
            formula.drop_word(z);
        }
        formula.drop_word(x);
    }

    assert_eq!(formula.gc_live_count(), 0);
}

#[test]
fn lib_not_01() {
    let mut formula = Formula::new();

    for a in 0..=15 {
        let x = formula.from_u64(a, 4);
        let z = formula.not(&x);

        let c_actual = formula.try_to_u64(&z).unwrap();
        let c_expected = (!a) & 0x0f;

        assert_eq!(c_actual, c_expected);
        formula.drop_word(x);
        formula.drop_word(z);
    }

    assert_eq!(formula.gc_live_count(), 0);
}

#[test]
fn lib_shl_01() {
    let mut formula = Formula::new();

    for a in 0..=15 {
        for k in 0..=3 {
            let x = formula.from_u64(a, 4);
            let z = formula.shl(&x, k);

            let c_actual = formula.try_to_u64(&z).unwrap();
            let c_expected = (a << k) & 0xf;

            assert_eq!(c_actual, c_expected);
            formula.drop_word(x);
            formula.drop_word(z);
        }
    }

    assert_eq!(formula.gc_live_count(), 0);
}

#[test]
fn lib_shr_01() {
    let mut formula = Formula::new();

    for a in 0..=15 {
        for k in 0..=3 {
            let x = formula.from_u64(a, 4);
            let z = formula.shr(&x, k);

            let c_actual = formula.try_to_u64(&z).unwrap();
            let c_expected = (a >> k) & 0xf;

            assert_eq!(c_actual, c_expected);
            formula.drop_word(x);
            formula.drop_word(z);
        }
    }

    assert_eq!(formula.gc_live_count(), 0);
}

#[test]
fn lib_rotl_01() {
    let mut formula = Formula::new();

    for a in 0..=255 {
        for k in 0..=8 {
            let x = formula.from_u64(a, 8);
            let z = formula.rotl(&x, k);

            let c_actual = formula.try_to_u64(&z).unwrap();
            let c_expected = (a as u8).rotate_left(k as u32) as u64;

            assert_eq!(c_actual, c_expected);
            formula.drop_word(x);
            formula.drop_word(z);
        }
    }

    assert_eq!(formula.gc_live_count(), 0);
}

#[test]
fn lib_rotr_01() {
    let mut formula = Formula::new();

    for a in 0..=255 {
        for k in 0..=8 {
            let x = formula.from_u64(a, 8);
            let z = formula.rotr(&x, k);

            let c_actual = formula.try_to_u64(&z).unwrap();
            let c_expected = (a as u8).rotate_right(k as u32) as u64;

            assert_eq!(c_actual, c_expected);
            formula.drop_word(x);
            formula.drop_word(z);
        }
    }

    assert_eq!(formula.gc_live_count(), 0);
}
