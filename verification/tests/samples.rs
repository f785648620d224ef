//! The guest programs.
use an_encoding::samples::fib::fib;
use an_encoding::samples::structs as s;

#[test]
fn fib_counts_from_one() {
    let expected = [1, 1, 2, 3, 5, 8, 13, 21, 34, 55];
    for (i, &want) in expected.iter().enumerate() {
        assert_eq!(fib(i as i32), want);
    }
    assert_eq!(fib(-3), 1);
    assert_eq!(fib(45), 1_836_311_903);
}

#[test]
fn structs_give_their_results() {
    assert_eq!(s::test_basic(), 6);
    assert_eq!(s::test_mutation(), 14);
    assert_eq!(s::test_nested(), 34);
    assert_eq!(s::test_pass(), 129);
    assert_eq!(s::test_array(), 38);
    assert_eq!(s::test_vec3(), 96);
    assert_eq!(s::test_trait_static(), 93);
    assert_eq!(s::test_trait_dynamic(), 75);
    assert_eq!(s::test_generic_struct(), 55);
    assert_eq!(s::test_generic_fn(), 44);
    assert_eq!(s::test_enum(), 106);
    assert_eq!(s::test_option(), 25);
    assert_eq!(s::run_all(), 715);
}

#[test]
fn negation_undoes_itself() {
    for a in [0, 1, -7, 123_456, i32::MAX, i32::MIN + 1] {
        let minus = s::eval(&s::Op::Negate(a));
        assert_eq!(minus, -a);
        assert_eq!(s::eval(&s::Op::Add(a, minus)), 0);
        assert_eq!(s::eval(&s::Op::Negate(minus)), a);
        assert_eq!(s::eval(&s::Op::Const { value: a }), a);
    }
}

// Items that cannot be compared leave the greatest so far in place.
#[test]
fn the_greatest_of_some_items() {
    assert_eq!(s::max_of(&[3, 9, 2, 14, 7]), 14);
    assert_eq!(s::max_of(&[-3]), -3);
    assert_eq!(s::max_of(&[1.5, f64::NAN, 2.5, 0.5]), 2.5);
}
