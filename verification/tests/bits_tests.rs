use rsat::bits::Bits;

#[test]
fn bits_gc_01() {
    let mut bits = Bits::new();

    let a = bits.var();
    assert_eq!(bits.refcount(a), 1);

    let b = bits.var();

    let c = bits.and(a, b);

    assert_eq!(bits.refcount(a), 2);
    assert_eq!(bits.refcount(b), 2);
    assert_eq!(bits.refcount(c), 1);

    bits.decr(c);

    assert_eq!(bits.refcount(a), 1);
    assert_eq!(bits.refcount(b), 1);
    assert_eq!(bits.refcount(c), 0);
}

#[test]
fn bits_gc_02() {
    let mut bits = Bits::new();
    let mut xs = vec![];

    let a = bits.var();

    xs.push(a);

    for i in 1..xs.len() {
        xs.push(xs[i - 1])
    }
}

#[test]
fn words_gc_01() {
    let mut bits = Bits::new();

    let a = bits.var();
    assert_eq!(bits.refcount(a), 1);

    let b = bits.var();

    let c = bits.and(a, b);

    assert_eq!(bits.refcount(a), 2);
    assert_eq!(bits.refcount(b), 2);
    assert_eq!(bits.refcount(c), 1);

    bits.decr(c);

    assert_eq!(bits.refcount(a), 1);
    assert_eq!(bits.refcount(b), 1);
    assert_eq!(bits.refcount(c), 0);
}

#[test]
fn words_gc_02() {
    let mut bits = Bits::new();
    let mut xs = vec![];

    let a = bits.var();

    xs.push(a);

    for i in 1..xs.len() {
        xs.push(xs[i - 1])
    }
}

#[test]
fn combinators_release_temporaries() {
    // building any combinator expression and releasing the roots brings the
    // sum of all refcounts back to zero
    let mut bits = Bits::new();
    let a = bits.var();
    let b = bits.var();
    let c = bits.var();
    let x = bits.xor(a, b);
    let (s, co) = bits.full_adder(a, b, c);
    let m = bits.cond(c, x, s);
    bits.decr(m);
    bits.decr(co);
    bits.decr(s);
    bits.decr(x);
    bits.decr(a);
    bits.decr(b);
    bits.decr(c);
    let info = bits.gc_inf();
    let mut sum: u64 = 0;
    for i in 0..info.0 {
        sum += bits.refcount(i as u32) as u64;
    }
    assert_eq!(sum, 0, "refcount expected to be zero");
}

#[test]
fn and_short_circuits() {
    // and(false, x) = x-side short cut; and(true, x) = x
    let mut bits = Bits::new();
    let x = bits.var();
    let f = bits.val(false);
    let t = bits.val(true);
    let r1 = bits.and(f, x);
    assert_eq!(r1, f);
    let r2 = bits.and(t, x);
    assert_eq!(r2, x);
    let r3 = bits.or(f, x);
    assert_eq!(r3, x);
    let r4 = bits.or(t, x);
    assert_eq!(r4, t);
}

#[test]
fn not_folds_constants() {
    let mut bits = Bits::new();
    let f = bits.val(false);
    let nf = bits.not(f);
    assert!(bits.is_true(nf));
    let nnf = bits.not(nf);
    assert!(bits.is_false(nnf));
    assert!(nnf != f);
}
