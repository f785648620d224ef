//! A guest program that computes Fibonacci numbers.
use vstd::prelude::*;

verus! {

/// The Fibonacci numbers: zero, one, one, two, three, ...
pub open spec fn fibonacci(n: nat) -> nat
    decreases n,
{
    if n < 2 {
        n
    } else {
        fibonacci((n - 1) as nat) + fibonacci((n - 2) as nat)
    }
}

/// The number of steps that a count asks for.
pub open spec fn steps(num: i32) -> nat {
    if num < 0 {
        0
    } else {
        num as nat
    }
}

/// The Fibonacci numbers do not fall.
pub proof fn lemma_fibonacci_grows(m: nat, n: nat)
    requires
        m <= n,
    ensures
        fibonacci(m) <= fibonacci(n),
    decreases n - m,
{
    if m < n {
        lemma_fibonacci_grows(m, (n - 1) as nat);
        if n >= 2 {
            assert(fibonacci(n) == fibonacci((n - 1) as nat) + fibonacci((n - 2) as nat));
        }
    }
}

/// The Fibonacci number after the one with index `num`; a negative count makes no step.
pub fn fib(num: i32) -> (r: i32)
    requires
        fibonacci(steps(num) + 1) <= i32::MAX,
    ensures
        r == fibonacci(steps(num) + 1),
{
    let mut a: i32 = 0;
    let mut b: i32 = 1;
    let mut i: i32 = 0;
    assert(fibonacci(0) == 0 && fibonacci(1) == 1);
    while i < num
        invariant
            0 <= i <= steps(num),
            fibonacci(steps(num) + 1) <= i32::MAX,
            a == fibonacci(i as nat),
            b == fibonacci((i + 1) as nat),
        decreases num - i,
    {
        proof {
            lemma_fibonacci_grows((i + 2) as nat, steps(num) + 1);
            assert(fibonacci((i + 2) as nat) == fibonacci((i + 1) as nat) + fibonacci(i as nat));
        }
        let tmp: i32 = a + b;
        a = b;
        b = tmp;
        i = i + 1;
    }
    b
}

} // verus!
