//! The guest programs.
use crate::samples::fib::{fib, fibonacci};
use crate::samples::structs::{
    eval, lemma_greatest, magnitude, max_of, ordered, Op, Pair, Point, Rect, Shape, Square, Triangle, Vec3,
};
use vstd::prelude::*;

verus! {

/// The first two numbers are one, and every other is the sum of the two before it.
pub proof fn law_fib(n: i32, r: i32, next: i32, sum: i32)
    requires
        n < i32::MAX - 1,
        call_ensures(fib, (n,), r),
        call_ensures(fib, ((n + 1) as i32,), next),
        call_ensures(fib, ((n + 2) as i32,), sum),
    ensures
        n <= 1 ==> r == 1,
        n >= 0 ==> sum == r + next,
{
    assert(fibonacci(0) == 0 && fibonacci(1) == 1 && fibonacci(2) == 1);
    if n >= 0 {
        let k = n as nat;
        assert(fibonacci(k + 3) == fibonacci(k + 2) + fibonacci(k + 1));
    }
}

/// A point has the coordinates that it was made with, and its distance is that along the axes.
pub proof fn law_point(x: i32, y: i32, p: Point, r: i32)
    requires
        call_ensures(Point::new, (x, y), p),
        call_ensures(Point::manhattan, (&p,), r),
    ensures
        p.x == x && p.y == y,
        r == (if x < 0 {
            -x
        } else {
            x as int
        }) + (if y < 0 {
            -y
        } else {
            y as int
        }),
{
}

/// A point moves by both distances.
pub proof fn law_translate(p: &mut Point, dx: i32, dy: i32)
    requires
        call_ensures(Point::translate, (p, dx, dy), ()),
    ensures
        final(p).x - old(p).x == dx,
        final(p).y - old(p).y == dy,
{
}

/// The far corner of a rectangle lies its size away from the origin, and its area is the product
/// of the two sizes.
pub proof fn law_rect(q: Rect, r: i32, p: Point)
    requires
        call_ensures(Rect::area, (&q,), r),
        call_ensures(Rect::far_corner, (&q,), p),
    ensures
        r == q.size.x * q.size.y,
        p.x - q.origin.x == q.size.x,
        p.y - q.origin.y == q.size.y,
{
}

/// The scalar product is the sum of the products of the components, and a scaled vector has
/// every component multiplied.
pub proof fn law_vec3(u: Vec3, v: Vec3, k: i32, r: i32, w: Vec3)
    requires
        call_ensures(Vec3::dot, (&u, &v), r),
        call_ensures(Vec3::scaled, (&u, k), w),
    ensures
        r == u.data@[0] * v.data@[0] + u.data@[1] * v.data@[1] + u.data@[2] * v.data@[2],
        w.data@[0] == u.data@[0] * k,
        w.data@[1] == u.data@[1] * k,
        w.data@[2] == u.data@[2] * k,
{
    reveal_with_fuel(Vec3::terms, 4);
}

/// The area of a square is that of its side, the area of a triangle half of base times height,
/// rounded towards zero.
pub proof fn law_areas(s: Square, t: Triangle, a: i32, b: i32)
    requires
        call_ensures(Square::area, (&s,), a),
        call_ensures(Triangle::area, (&t,), b),
    ensures
        a == s.side * s.side,
        t.base * t.height >= 0 ==> 2 * b <= t.base * t.height <= 2 * b + 1,
        t.base * t.height < 0 ==> 2 * b - 1 <= t.base * t.height <= 2 * b,
{
    let x = t.base * t.height;
    assert(magnitude(2) == 2);
    if x >= 0 {
        assert(magnitude(x) / magnitude(2) == x / 2);
    } else {
        assert(magnitude(x) / magnitude(2) == (-x) / 2);
    }
}

/// A pair holds its values in order, and swapped in the other.
pub proof fn law_pair(a: i32, b: i32, p: Pair<i32>, q: Pair<i32>, r: i32)
    requires
        call_ensures(Pair::<i32>::new, (a, b), p),
        call_ensures(Pair::<i32>::swapped, (p,), q),
        call_ensures(Pair::<i32>::combined, (&p,), r),
        a + b <= i32::MAX,
        a + b >= i32::MIN,
    ensures
        p.first == a && p.second == b,
        q.first == b && q.second == a,
        r == a + b,
{
}

/// The greatest of some integers is one of them, and none exceeds it.
pub proof fn law_max_of(items: &[i32], m: i32)
    requires
        items@.len() > 0,
        call_ensures(max_of::<i32>, (items,), m),
    ensures
        exists|i: int| 0 <= i < items@.len() && #[trigger] items@[i] == m,
        forall|i: int| 0 <= i < items@.len() ==> #[trigger] items@[i] <= m,
{
    assert(ordered::<i32>());
    lemma_greatest(items@, items@.len());
}

/// What the operations give.
pub proof fn law_eval(a: i32, b: i32, sum: i32, negated: i32, constant: i32)
    requires
        call_ensures(eval, (&Op::Add(a, b),), sum),
        call_ensures(eval, (&Op::Negate(a),), negated),
        call_ensures(eval, (&Op::Const { value: a },), constant),
    ensures
        sum == a + b,
        negated + a == 0,
        constant == a,
{
}

} // verus!
