use rsat::formula::Formula;

#[test]
fn formula_word_convert_u64_01() {
    let mut formula = Formula::new();

    for n in 0..=255 {
        let a = formula.from_u64(n, 8);
        assert_eq!(formula.try_to_u64(&a), Some(n));
        formula.drop_word(a);
    }
}

#[test]
fn formula_gc_01() {
    let mut formula = Formula::new();

    let a = formula.word(32);

    let b = formula.word(32);
    assert_eq!(formula.gc_live_count(), 64);
    formula.drop_word(b);

    assert_eq!(formula.gc_live_count(), 32);
    formula.drop_word(a);
}

#[test]
fn formula_and_01() {
    let mut formula = Formula::new();

    for a in 0..=15 {
        let x = formula.from_u64(a, 4);

        for b in 0..=15 {
            let y = formula.from_u64(b, 4);
            let z = formula.and(&x, &y);

            let c_actual = formula.try_to_u64(&z).unwrap();
            let c_expected = a & b;

            assert_eq!(c_actual, c_expected);
            formula.drop_word(y);
            formula.drop_word(z);
        }
        formula.drop_word(x);
    }

    assert_eq!(formula.gc_live_count(), 0);
}

#[test]
fn formula_or_01() {
    let mut formula = Formula::new();

    for a in 0..=15 {
        let x = formula.from_u64(a, 4);

        for b in 0..=15 {
            let y = formula.from_u64(b, 4);
            let z = formula.or(&x, &y);

            let c_actual = formula.try_to_u64(&z).unwrap();
            let c_expected = a | b;

            assert_eq!(c_actual, c_expected);
            formula.drop_word(y);
            formula.drop_word(z);
        }
        formula.drop_word(x);
    }

    assert_eq!(formula.gc_live_count(), 0);
}

#[test]
fn formula_xor_01() {
    let mut formula = Formula::new();

    for a in 0..=15 {
        let x = formula.from_u64(a, 4);

        for b in 0..=15 {
            let y = formula.from_u64(b, 4);
            let z = formula.xor(&x, &y);

            let c_actual = formula.try_to_u64(&z).unwrap();
            let c_expected = a ^ b;

            assert_eq!(c_actual, c_expected);
            formula.drop_word(y);
            formula.drop_word(z);
        }
        formula.drop_word(x);
    }

    assert_eq!(formula.gc_live_count(), 0);
}

#[test]
fn formula_add_01() {
    let mut formula = Formula::new();

    for a in 0..=15 {
        let x = formula.from_u64(a, 4);

        for b in 0..=15 {
            let y = formula.from_u64(b, 4);
            let z = formula.add(&x, &y);

            let c_actual = formula.try_to_u64(&z).unwrap();
            let c_expected = (a + b) & 0x0f;

            assert_eq!(c_actual, c_expected);
            formula.drop_word(y);
            formula.drop_word(z);
        }
        formula.drop_word(x);
    }

    assert_eq!(formula.gc_live_count(), 0);
}

#[test]
fn formula_mul_01() {
    let mut formula = Formula::new();

    for a in 0..=15 {
        let x = formula.from_u64(a, 4);

        for b in 0..=15 {
            let y = formula.from_u64(b, 4);
            let z = formula.mul(&x, &y);

            let c_actual = formula.try_to_u64(&z).unwrap();
            let c_expected = (a * b) & 0x0f;

            assert_eq!(c_actual, c_expected);
            formula.drop_word(y);
            formula.drop_word(z);
        }
        formula.drop_word(x);
    }

    assert_eq!(formula.gc_live_count(), 0);
}

#[test]
fn less_than_01() {
    let mut formula = Formula::new();

    for a in 0..=15 {
        let x = formula.from_u64(a, 4);

        for b in 0..=15 {
            let y = formula.from_u64(b, 4);
            let z = formula.less_than(&x, &y);

            let c_actual = formula.try_to_u64(&z).unwrap();
            println!("{} {}", a, b);
            let c_expected = if a < b { 1 } else { 0 };

            assert_eq!(c_actual, c_expected);
            formula.drop_word(y);
            formula.drop_word(z);
        }
        formula.drop_word(x);
    }

    assert_eq!(formula.gc_live_count(), 0);
}

#[test]
fn equal_to_01() {
    let mut formula = Formula::new();

    for a in 0..=15 {
        let x = formula.from_u64(a, 4);

        for b in 0..=15 {
            let y = formula.from_u64(b, 4);
            let z = formula.equal_to(&x, &y);

            let c_actual = formula.try_to_u64(&z).unwrap();
            println!("{} {}", a, b);
            let c_expected = if a == b { 1 } else { 0 };

            assert_eq!(c_actual, c_expected);
            formula.drop_word(y);
            formula.drop_word(z);
        }
        formula.drop_word(x);
    }

    assert_eq!(formula.gc_live_count(), 0);
}

#[test]
fn greater_than_01() {
    let mut formula = Formula::new();

    for a in 0..=15 {
        let x = formula.from_u64(a, 4);

        for b in 0..=15 {
            let y = formula.from_u64(b, 4);
            let z = formula.greater_than(&x, &y);

            let c_actual = formula.try_to_u64(&z).unwrap();
            println!("{} {}", a, b);
            let c_expected = if a > b { 1 } else { 0 };

            assert_eq!(c_actual, c_expected);
            formula.drop_word(y);
            formula.drop_word(z);
        }
        formula.drop_word(x);
    }

    assert_eq!(formula.gc_live_count(), 0);
}

#[test]
fn formula_mul_02() {
    let mut formula = Formula::new();

    let a = formula.from_u64(12_345, 64);
    let b = formula.from_u64(54_321, 64);

    let c = formula.mul(&a, &b);

    assert_eq!(formula.try_to_u64(&c), Some(670_592_745));
}

#[test]
fn mul_03() {
    let mut formula = Formula::new();

    let a = formula.word(64);
    let b = formula.word(64);

    let c = formula.mul(&a, &b);

    println!("{}", formula.gc_live_count());
    formula.drop_word(a);
    formula.drop_word(b);
    formula.drop_word(c);
}

#[test]
fn formula_not_01() {
    let mut formula = Formula::new();

    for a in 0..=15 {
        let x = formula.from_u64(a, 4);
        let z = formula.not(&x);

        let c_actual = formula.try_to_u64(&z).unwrap();
        let c_expected = (!a) & 0x0f;

        assert_eq!(c_actual, c_expected);
        formula.drop_word(x);
        formula.drop_word(z);
    }

    assert_eq!(formula.gc_live_count(), 0);
}

#[test]
fn formula_shl_01() {
    let mut formula = Formula::new();

    for a in 0..=15 {
        for k in 0..=3 {
            let x = formula.from_u64(a, 4);
            let z = formula.shl(&x, k);

            let c_actual = formula.try_to_u64(&z).unwrap();
            let c_expected = (a << k) & 0xf;

            assert_eq!(c_actual, c_expected);
            formula.drop_word(x);
            formula.drop_word(z);
        }
    }

    assert_eq!(formula.gc_live_count(), 0);
}

#[test]
fn formula_shr_01() {
    let mut formula = Formula::new();

    for a in 0..=15 {
        for k in 0..=3 {
            let x = formula.from_u64(a, 4);
            let z = formula.shr(&x, k);

            let c_actual = formula.try_to_u64(&z).unwrap();
            let c_expected = (a >> k) & 0xf;

            assert_eq!(c_actual, c_expected);
            formula.drop_word(x);
            formula.drop_word(z);
        }
    }

    assert_eq!(formula.gc_live_count(), 0);
}

#[test]
fn formula_rotl_01() {
    let mut formula = Formula::new();

    for a in 0..=255 {
        for k in 0..=8 {
            let x = formula.from_u64(a, 8);
            let z = formula.rotl(&x, k);

            let c_actual = formula.try_to_u64(&z).unwrap();
            let c_expected = (a as u8).rotate_left(k as u32) as u64;

            assert_eq!(c_actual, c_expected);
            formula.drop_word(x);
            formula.drop_word(z);
        }
    }

    assert_eq!(formula.gc_live_count(), 0);
}

#[test]
fn formula_rotr_01() {
    let mut formula = Formula::new();

    for a in 0..=255 {
        for k in 0..=8 {
            let x = formula.from_u64(a, 8);
            let z = formula.rotr(&x, k);

            let c_actual = formula.try_to_u64(&z).unwrap();
            let c_expected = (a as u8).rotate_right(k as u32) as u64;

            assert_eq!(c_actual, c_expected);
            formula.drop_word(x);
            formula.drop_word(z);
        }
    }

    assert_eq!(formula.gc_live_count(), 0);
}

#[test]
fn cond_01() {
    let mut formula = Formula::new();

    for a in 0..=15 {
        for b in 0..=15 {
            for t in &[0, 1] {
                let yes = formula.from_u64(a, 4);
                let no = formula.from_u64(b, 4);
                let test = formula.from_u64(*t, 1);
                let cond = formula.cond(&test, &yes, &no);

                let res_actual = formula.try_to_u64(&cond).unwrap();
                let res_expected = if *t == 1 { a } else { b };

                assert_eq!(res_actual, res_expected);
                formula.drop_word(yes);
                formula.drop_word(no);
                formula.drop_word(test);
                formula.drop_word(cond);
            }
        }
    }

    assert_eq!(formula.gc_live_count(), 0);
}
