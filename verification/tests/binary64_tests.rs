use forth_vm::binary64::{compare_floats, truncate, widen, Order};
use forth_vm::types::{Arith, ArithOp, FloatTask, Num, Relation};

fn samples_i64() -> Vec<i64> {
    let mut v = vec![
        0,
        1,
        -1,
        2,
        3,
        -3,
        4,
        7,
        1023,
        1024,
        i64::MAX,
        i64::MIN,
        i64::MAX - 1,
        i64::MIN + 1,
        (1 << 52) - 1,
        1 << 52,
        (1 << 52) + 1,
        (1 << 53) - 1,
        1 << 53,
        (1 << 53) + 1,
        (1 << 53) + 2,
        (1 << 53) + 3,
        (1 << 54) + 2,
        (1 << 54) + 6,
        (1 << 54) - 1,
        (1 << 62) + (1 << 9),
        (1 << 62) + (1 << 9) + 1,
        (1 << 62) + (1 << 9) - 1,
        (1 << 62) + 3 * (1 << 9),
        i64::MAX - 511,
        i64::MAX - 512,
        i64::MAX - 513,
        9007199254740993,
        -9007199254740993,
        123456789012345678,
        -987654321098765432,
    ];
    let mut x: u64 = 0x9E3779B97F4A7C15;
    for _ in 0..20000 {
        x ^= x << 13;
        x ^= x >> 7;
        x ^= x << 17;
        let shift = (x >> 58) as u32;
        v.push((x as i64) >> shift);
    }
    v
}

fn samples_bits() -> Vec<u64> {
    let mut v = vec![
        0,
        0x8000_0000_0000_0000,
        1,
        0x8000_0000_0000_0001,
        0x000f_ffff_ffff_ffff,
        0x0010_0000_0000_0000,
        0x7fef_ffff_ffff_ffff,
        0x7ff0_0000_0000_0000,
        0xfff0_0000_0000_0000,
        0x7ff0_0000_0000_0001,
        0x7ff8_0000_0000_0000,
        0xfff8_0000_0000_0000,
        0xffff_ffff_ffff_ffff,
        1.0f64.to_bits(),
        (-1.0f64).to_bits(),
        0.5f64.to_bits(),
        1.5f64.to_bits(),
        (-2.5f64).to_bits(),
        0.999999f64.to_bits(),
        (-0.999999f64).to_bits(),
        9.223372036854775807e18f64.to_bits(),
        (-9.223372036854775808e18f64).to_bits(),
        9.3e18f64.to_bits(),
        (-9.3e18f64).to_bits(),
        4503599627370496.5f64.to_bits(),
        4503599627370495.5f64.to_bits(),
        1e300f64.to_bits(),
        (-1e300f64).to_bits(),
        1e-300f64.to_bits(),
        123456.789f64.to_bits(),
        (-123456.789f64).to_bits(),
    ];
    let mut x: u64 = 0xD1B54A32D192ED03;
    for _ in 0..20000 {
        x ^= x << 13;
        x ^= x >> 7;
        x ^= x << 17;
        v.push(x);
        v.push((x >> 1) % 0x4400_0000_0000_0000 + 0x3c00_0000_0000_0000);
    }
    v
}

#[test]
fn widen_exact_values() {
    assert_eq!(widen(0), 0);
    assert_eq!(widen(1), 0x3ff0_0000_0000_0000);
    assert_eq!(widen(-1), 0xbff0_0000_0000_0000);
    assert_eq!(widen(2), 0x4000_0000_0000_0000);
    assert_eq!(widen(3), 0x4008_0000_0000_0000);
    assert_eq!(widen(i64::MIN), 0xc3e0_0000_0000_0000);
    assert_eq!(widen(i64::MAX), 0x43e0_0000_0000_0000);
}

#[test]
fn widen_rounds_ties_to_even() {
    assert_eq!(widen((1 << 53) + 1), ((1u64 << 53) as f64).to_bits());
    assert_eq!(widen((1 << 53) + 3), (((1u64 << 53) + 4) as f64).to_bits());
    assert_eq!(widen((1 << 53) + 2), (((1u64 << 53) + 2) as f64).to_bits());
}

#[test]
fn widen_agrees_with_the_hardware() {
    for n in samples_i64() {
        assert_eq!(widen(n), (n as f64).to_bits(), "{}", n);
    }
}

#[test]
fn truncate_exact_values() {
    assert_eq!(truncate(1.0f64.to_bits()), 1);
    assert_eq!(truncate(1.9f64.to_bits()), 1);
    assert_eq!(truncate((-1.9f64).to_bits()), -1);
    assert_eq!(truncate(0.5f64.to_bits()), 0);
    assert_eq!(truncate((-0.0f64).to_bits()), 0);
    assert_eq!(truncate(f64::NAN.to_bits()), 0);
    assert_eq!(truncate(f64::INFINITY.to_bits()), i64::MAX);
    assert_eq!(truncate(f64::NEG_INFINITY.to_bits()), i64::MIN);
    assert_eq!(truncate(1e19f64.to_bits()), i64::MAX);
    assert_eq!(truncate((-1e19f64).to_bits()), i64::MIN);
    assert_eq!(truncate(1e18f64.to_bits()), 1_000_000_000_000_000_000);
}

#[test]
fn truncate_agrees_with_the_hardware() {
    for bits in samples_bits() {
        assert_eq!(truncate(bits), f64::from_bits(bits) as i64, "{:#x}", bits);
    }
}

fn order_of(a: f64, b: f64) -> Option<Order> {
    match a.partial_cmp(&b) {
        None => None,
        Some(std::cmp::Ordering::Less) => Some(Order::Less),
        Some(std::cmp::Ordering::Equal) => Some(Order::Equal),
        Some(std::cmp::Ordering::Greater) => Some(Order::Greater),
    }
}

#[test]
fn compare_floats_exact_values() {
    assert_eq!(compare_floats(1.0f64.to_bits(), 2.0f64.to_bits()), Some(Order::Less));
    assert_eq!(compare_floats(2.0f64.to_bits(), 2.0f64.to_bits()), Some(Order::Equal));
    assert_eq!(compare_floats(2.5f64.to_bits(), (-3.0f64).to_bits()), Some(Order::Greater));
    assert_eq!(compare_floats(0.0f64.to_bits(), (-0.0f64).to_bits()), Some(Order::Equal));
    assert_eq!(compare_floats(f64::NAN.to_bits(), 1.0f64.to_bits()), None);
    assert_eq!(compare_floats(1.0f64.to_bits(), f64::NAN.to_bits()), None);
    assert_eq!(compare_floats(f64::NAN.to_bits(), f64::NAN.to_bits()), None);
    assert_eq!(
        compare_floats(f64::NEG_INFINITY.to_bits(), f64::MIN.to_bits()),
        Some(Order::Less)
    );
    assert_eq!(
        compare_floats(f64::INFINITY.to_bits(), f64::MAX.to_bits()),
        Some(Order::Greater)
    );
}

#[test]
fn compare_floats_agrees_with_the_hardware() {
    let bits = samples_bits();
    for i in 0..bits.len() {
        let a = bits[i];
        let b = bits[(i * 7 + 3) % bits.len()];
        assert_eq!(
            compare_floats(a, b),
            order_of(f64::from_bits(a), f64::from_bits(b)),
            "{:#x} {:#x}",
            a,
            b
        );
        assert_eq!(compare_floats(a, a), order_of(f64::from_bits(a), f64::from_bits(a)));
    }
    for i in 0..40 {
        for j in 0..40 {
            let (a, b) = (bits[i], bits[j]);
            assert_eq!(compare_floats(a, b), order_of(f64::from_bits(a), f64::from_bits(b)));
        }
    }
}

#[test]
fn num_compare_integers() {
    assert_eq!(Num::Integer(2).compare(Num::Integer(3)), Some(Order::Less));
    assert_eq!(Num::Integer(3).compare(Num::Integer(3)), Some(Order::Equal));
    assert_eq!(Num::Integer(i64::MAX).compare(Num::Integer(i64::MAX - 1)), Some(Order::Greater));
}

#[test]
fn num_compare_widens_the_integer() {
    let float = |x: f64| Num::Float(x.to_bits());
    assert_eq!(Num::Integer(1).compare(float(1.0)), Some(Order::Equal));
    assert_eq!(float(1.5).compare(Num::Integer(1)), Some(Order::Greater));
    assert_eq!(Num::Integer(-2).compare(float(-1.5)), Some(Order::Less));
    assert_eq!(Num::Integer(0).compare(float(-0.0)), Some(Order::Equal));
    assert_eq!(Num::Integer(0).compare(float(f64::NAN)), None);
    assert_eq!(Num::Integer((1 << 53) + 1).compare(float(9007199254740992.0)), Some(Order::Equal));
    assert_eq!(
        Num::Integer(i64::MAX).compare(Num::Integer(i64::MAX - 1)),
        Some(Order::Greater)
    );
    assert_eq!(Num::Integer(i64::MAX).compare(float((i64::MAX - 1) as f64)), Some(Order::Equal));
}

#[test]
fn num_compare_agrees_with_the_hardware() {
    let ints = samples_i64();
    let bits = samples_bits();
    for i in 0..2000 {
        let n = ints[i];
        let b = bits[i];
        let f = f64::from_bits(b);
        assert_eq!(Num::Integer(n).compare(Num::Float(b)), order_of(n as f64, f));
        assert_eq!(Num::Float(b).compare(Num::Integer(n)), order_of(f, n as f64));
        let m = (n as f64).to_bits();
        assert_eq!(Num::Integer(n).compare(Num::Float(m)), Some(Order::Equal));
    }
}

#[test]
fn num_equality_is_numeric() {
    assert!(Num::Integer(1) == Num::Float(1.0f64.to_bits()));
    assert!(Num::Float(0.0f64.to_bits()) == Num::Float((-0.0f64).to_bits()));
    assert!(Num::Float(f64::NAN.to_bits()) != Num::Float(f64::NAN.to_bits()));
    assert!(Num::Integer(1) != Num::Integer(2));
}

#[test]
fn num_satisfies_each_relation() {
    let two = Num::Integer(2);
    let three = Num::Float(3.0f64.to_bits());
    let nan = Num::Float(f64::NAN.to_bits());
    assert!(!two.satisfies(Relation::Eq, three));
    assert!(two.satisfies(Relation::Lt, three));
    assert!(two.satisfies(Relation::Lteq, three));
    assert!(!two.satisfies(Relation::Gt, three));
    assert!(!two.satisfies(Relation::Gteq, three));
    assert!(three.satisfies(Relation::Gt, two));
    assert!(three.satisfies(Relation::Gteq, two));
    assert!(two.satisfies(Relation::Eq, two));
    assert!(two.satisfies(Relation::Gteq, two));
    assert!(two.satisfies(Relation::Lteq, two));
    assert!(!two.satisfies(Relation::Lt, two));
    for relation in [Relation::Eq, Relation::Gt, Relation::Lt, Relation::Gteq, Relation::Lteq] {
        assert!(!nan.satisfies(relation, two));
        assert!(!two.satisfies(relation, nan));
        assert!(!nan.satisfies(relation, nan));
    }
}

fn exact(a: Arith) -> Num {
    match a {
        Arith::Exact(n) => n,
        Arith::Deferred(task) => panic!("deferred: {:?}", task),
    }
}

fn deferred(a: Arith) -> FloatTask {
    match a {
        Arith::Exact(n) => panic!("exact: {:?}", n),
        Arith::Deferred(task) => task,
    }
}

fn perform(task: FloatTask) -> f64 {
    let (l, r) = (f64::from_bits(task.left), f64::from_bits(task.right));
    match task.op {
        ArithOp::Add => l + r,
        ArithOp::Sub => l - r,
        ArithOp::Mul => l * r,
        ArithOp::Div => l / r,
    }
}

#[test]
fn integers_combine_exactly() {
    assert!(matches!(exact(Num::Integer(2).combine(ArithOp::Add, Num::Integer(3))), Num::Integer(5)));
    assert!(matches!(exact(Num::Integer(3).combine(ArithOp::Sub, Num::Integer(5))), Num::Integer(-2)));
    assert!(matches!(exact(Num::Integer(-4).combine(ArithOp::Mul, Num::Integer(6))), Num::Integer(-24)));
}

#[test]
fn integers_wrap_around() {
    assert!(matches!(
        exact(Num::Integer(i64::MAX).combine(ArithOp::Add, Num::Integer(1))),
        Num::Integer(i64::MIN)
    ));
    assert!(matches!(
        exact(Num::Integer(i64::MIN).combine(ArithOp::Sub, Num::Integer(1))),
        Num::Integer(i64::MAX)
    ));
    assert!(matches!(
        exact(Num::Integer(i64::MAX).combine(ArithOp::Mul, Num::Integer(2))),
        Num::Integer(-2)
    ));
}

#[test]
fn division_of_integers_is_a_float_division() {
    let task = deferred(Num::Integer(2).combine(ArithOp::Div, Num::Integer(4)));
    assert_eq!(
        task,
        FloatTask { op: ArithOp::Div, left: 2.0f64.to_bits(), right: 4.0f64.to_bits() }
    );
    assert_eq!(perform(task), 0.5);
    let by_zero = deferred(Num::Integer(1).combine(ArithOp::Div, Num::Integer(0)));
    assert_eq!(perform(by_zero), f64::INFINITY);
}

#[test]
fn a_float_operand_makes_a_float_operation() {
    let task = deferred(Num::Float(1.0f64.to_bits()).combine(ArithOp::Add, Num::Integer(1)));
    assert_eq!(
        task,
        FloatTask { op: ArithOp::Add, left: 1.0f64.to_bits(), right: 1.0f64.to_bits() }
    );
    assert_eq!(perform(task), 2.0);
    let task = deferred(Num::Integer(3).combine(ArithOp::Sub, Num::Float(0.5f64.to_bits())));
    assert_eq!(perform(task), 2.5);
    let task = deferred(Num::Float(1.5f64.to_bits()).combine(ArithOp::Mul, Num::Float(2.0f64.to_bits())));
    assert_eq!(perform(task), 3.0);
}

#[test]
fn to_float_converts_integers_only() {
    assert_eq!(Num::Integer(7).to_float(), 7.0f64.to_bits());
    assert_eq!(Num::Float(0x1234).to_float(), 0x1234);
}

#[test]
fn num_operators_order_numerically() {
    let float = |x: f64| Num::Float(x.to_bits());
    assert!(Num::Integer(1) < Num::Integer(2));
    assert!(Num::Integer(1) < float(1.5));
    assert!(float(2.5) > Num::Integer(2));
    assert!(Num::Integer(2) >= float(2.0));
    assert!(Num::Integer(2) <= float(2.0));
    assert!(!(float(f64::NAN) < Num::Integer(0)));
    assert!(!(float(f64::NAN) >= Num::Integer(0)));
    assert_eq!(Num::Integer(3).partial_cmp(&float(3.0)), Some(std::cmp::Ordering::Equal));
    assert_eq!(float(f64::NAN).partial_cmp(&float(f64::NAN)), None);
    assert_eq!(
        float(-0.0).partial_cmp(&Num::Integer(1)),
        Some(std::cmp::Ordering::Less)
    );
}
