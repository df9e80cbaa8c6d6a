use rsat::cnf::Cnf;
use rsat::formula::Formula;

#[test]
fn sub_wraps_around() {
    let mut formula = Formula::new();
    for a in 0..=15u64 {
        for b in 0..=15u64 {
            let x = formula.from_u64(a, 4);
            let y = formula.from_u64(b, 4);
            let z = formula.sub(&x, &y);
            let expected = a.wrapping_sub(b) & 0xf;
            assert_eq!(formula.try_to_u64(&z), Some(expected));
            formula.drop_word(x);
            formula.drop_word(y);
            formula.drop_word(z);
        }
    }
    assert_eq!(formula.gc_live_count(), 0);
}

#[test]
fn neg_is_two_complement() {
    let mut formula = Formula::new();
    for a in 0..=15u64 {
        let x = formula.from_u64(a, 4);
        let z = formula.neg(&x);
        let expected = a.wrapping_neg() & 0xf;
        assert_eq!(formula.try_to_u64(&z), Some(expected));
        formula.drop_word(x);
        formula.drop_word(z);
    }
    assert_eq!(formula.gc_live_count(), 0);
}

#[test]
fn addc_reports_carry() {
    let mut formula = Formula::new();
    let x = formula.from_u64(0xf, 4);
    let y = formula.from_u64(0x1, 4);
    let (sum, carry) = formula.addc(&x, &y);
    assert_eq!(formula.try_to_u64(&sum), Some(0));
    assert_eq!(formula.try_to_u64(&carry), Some(1));
    formula.drop_word(x);
    formula.drop_word(y);
    formula.drop_word(sum);
    formula.drop_word(carry);
    assert_eq!(formula.gc_live_count(), 0);
}

#[test]
fn xor_and_add_agree_on_disjoint_bits() {
    let mut formula = Formula::new();
    let a = formula.from_u64(0xa, 4);
    let b = formula.from_u64(0x5, 4);
    let x = formula.xor(&a, &b);
    assert_eq!(formula.try_to_u64(&x), Some(0xf));
    let s = formula.add(&a, &b);
    assert_eq!(formula.try_to_u64(&s), Some(0xf));
    let m = formula.mul(&a, &b);
    assert_eq!(formula.try_to_u64(&m), Some(0x2));
    formula.drop_word(a);
    formula.drop_word(b);
    formula.drop_word(x);
    formula.drop_word(s);
    formula.drop_word(m);
    assert_eq!(formula.gc_live_count(), 0);
}

#[test]
fn slice_and_concat_roundtrip() {
    let mut formula = Formula::new();
    let w = formula.from_u64(0xc3, 8);
    let lo = formula.slice(&w, 0, 3);
    let hi = formula.slice(&w, 4, 7);
    assert_eq!(formula.try_to_u64(&lo), Some(0x3));
    assert_eq!(formula.try_to_u64(&hi), Some(0xc));
    let back = formula.concat(&lo, &hi);
    assert_eq!(formula.try_to_u64(&back), Some(0xc3));
    formula.drop_word(w);
    formula.drop_word(lo);
    formula.drop_word(hi);
    formula.drop_word(back);
    assert_eq!(formula.gc_live_count(), 0);
}

#[test]
fn folds_reduce_across_bits() {
    let mut formula = Formula::new();
    for a in 0..=15u64 {
        let x = formula.from_u64(a, 4);
        let all = formula.fold_and(&x);
        let any = formula.fold_or(&x);
        let par = formula.fold_xor(&x);
        assert_eq!(formula.try_to_u64(&all), Some(if a == 0xf { 1 } else { 0 }));
        assert_eq!(formula.try_to_u64(&any), Some(if a != 0 { 1 } else { 0 }));
        assert_eq!(
            formula.try_to_u64(&par),
            Some((a.count_ones() % 2) as u64)
        );
        formula.drop_word(x);
        formula.drop_word(all);
        formula.drop_word(any);
        formula.drop_word(par);
    }
    assert_eq!(formula.gc_live_count(), 0);
}

#[test]
fn wide_words_have_no_u64_value() {
    let mut formula = Formula::new();
    let w = formula.from_u64(7, 65);
    assert_eq!(formula.try_to_u64(&w), None);
    let v = formula.word(4);
    assert_eq!(formula.try_to_u64(&v), None);
    formula.drop_word(w);
    formula.drop_word(v);
}

#[test]
fn zero_is_all_clear() {
    let mut formula = Formula::new();
    let z = formula.zero(16);
    assert_eq!(formula.try_to_u64(&z), Some(0));
    formula.drop_word(z);
    assert_eq!(formula.gc_live_count(), 0);
}

#[test]
fn clone_shares_bits() {
    let mut formula = Formula::new();
    let a = formula.from_u64(9, 4);
    let b = formula.clone_word(&a);
    assert_eq!(formula.try_to_u64(&b), Some(9));
    formula.drop_word(a);
    assert_eq!(formula.try_to_u64(&b), Some(9));
    formula.drop_word(b);
    assert_eq!(formula.gc_live_count(), 0);
}

#[test]
fn cnf_stores_clauses_flat() {
    let mut cnf = Cnf::new();
    let i0 = cnf.add(&vec![1, -5, 4]);
    let i1 = cnf.add(&vec![-1, 5, 3, 4]);
    let i2 = cnf.add(&vec![-3, -4]);
    assert_eq!((i0, i1, i2), (0, 1, 2));
    assert_eq!(cnf.nbclause(), 3);
    assert_eq!(cnf.get(0), Some(vec![1, -5, 4]));
    assert_eq!(cnf.get(1), Some(vec![-1, 5, 3, 4]));
    assert_eq!(cnf.get(2), Some(vec![-3, -4]));
    assert_eq!(cnf.get(3), None);
    assert_eq!(cnf.clauses().len(), 3);
    assert_eq!(cnf.nbvars(), 4);
}

#[test]
fn cnf_counts_each_variable_once() {
    let mut cnf = Cnf::new();
    cnf.add(&vec![1, -1, 2]);
    cnf.add(&vec![2, 2]);
    assert_eq!(cnf.nbvars(), 2);
}
