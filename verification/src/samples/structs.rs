//! A guest program with structs, traits, generics, trait objects and enums.
use core::ops::Add;
use vstd::prelude::*;
use vstd::std_specs::cmp::PartialOrdSpec;
use vstd::std_specs::ops::AddSpec;

verus! {

/// Whether a number fits in 32 bits, signed.
pub open spec fn fits(n: int) -> bool {
    i32::MIN <= n <= i32::MAX
}

/// The absolute value.
pub open spec fn magnitude(n: int) -> int {
    if n < 0 {
        -n
    } else {
        n
    }
}

/// The quotient, rounded towards zero.
pub open spec fn quotient(a: int, b: int) -> int {
    if (a < 0) == (b < 0) {
        magnitude(a) / magnitude(b)
    } else {
        -(magnitude(a) / magnitude(b))
    }
}

/// The absolute value.
fn abs(n: i32) -> (r: i32)
    requires
        n != i32::MIN,
    ensures
        r == magnitude(n as int),
{
    if n < 0 {
        -n
    } else {
        n
    }
}

/// The quotient, rounded towards zero.
fn divide(a: i32, b: i32) -> (r: i32)
    requires
        b != 0,
        a != i32::MIN || b != -1,
    ensures
        r == quotient(a as int, b as int),
{
    let m: u32 = if a < 0 {
        (-(a as i64)) as u32
    } else {
        a as u32
    };
    let n: u32 = if b < 0 {
        (-(b as i64)) as u32
    } else {
        b as u32
    };
    let q: i64 = (m / n) as i64;
    assert(m as int / n as int <= m) by (nonlinear_arith)
        requires
            n > 0,
    ;
    assert(n >= 2 ==> m as int / n as int <= m as int / 2) by (nonlinear_arith);
    if (a < 0) == (b < 0) {
        q as i32
    } else {
        (-q) as i32
    }
}

/// A point in the plane.
#[derive(Clone, Copy)]
pub struct Point {
    pub x: i32,
    pub y: i32,
}

impl Point {
    /// The point with the coordinates `x` and `y`.
    pub fn new(x: i32, y: i32) -> (p: Point)
        ensures
            p == (Point { x, y }),
    {
        Point { x, y }
    }

    /// The distance from the origin along the axes.
    pub fn manhattan(&self) -> (r: i32)
        requires
            fits(magnitude(self.x as int) + magnitude(self.y as int)),
        ensures
            r == magnitude(self.x as int) + magnitude(self.y as int),
    {
        abs(self.x) + abs(self.y)
    }

    /// Moves the point.
    pub fn translate(&mut self, dx: i32, dy: i32)
        requires
            fits(old(self).x + dx),
            fits(old(self).y + dy),
        ensures
            final(self).x == old(self).x + dx,
            final(self).y == old(self).y + dy,
    {
        self.x = self.x + dx;
        self.y = self.y + dy;
    }
}

/// A rectangle.
#[derive(Clone, Copy)]
pub struct Rect {
    pub origin: Point,
    pub size: Point,
}

impl Rect {
    /// The area.
    pub fn area(&self) -> (r: i32)
        requires
            fits(self.size.x * self.size.y),
        ensures
            r == self.size.x * self.size.y,
    {
        self.size.x * self.size.y
    }

    /// The corner opposite to the origin.
    pub fn far_corner(&self) -> (p: Point)
        requires
            fits(self.origin.x + self.size.x),
            fits(self.origin.y + self.size.y),
        ensures
            p.x == self.origin.x + self.size.x,
            p.y == self.origin.y + self.size.y,
    {
        Point::new(self.origin.x + self.size.x, self.origin.y + self.size.y)
    }
}

/// Construction, field access and a method call.
pub fn test_basic() -> (r: i32)
    ensures
        r == 6,
{
    let p: Point = Point::new(3, -4);
    p.x + p.y + p.manhattan()
}

/// A field write and a mutating method call.
pub fn test_mutation() -> (r: i32)
    ensures
        r == 14,
{
    let mut p: Point = Point::new(1, 2);
    p.x = 10;
    p.translate(5, -3);
    p.x + p.y
}

/// A struct within a struct.
pub fn test_nested() -> (r: i32)
    ensures
        r == 34,
{
    let r: Rect = Rect { origin: Point::new(2, 3), size: Point::new(4, 5) };
    let corner: Point = r.far_corner();
    r.area() + corner.x + corner.y
}

/// Takes a copy of a point, moves the copy, and gives its first coordinate.
fn by_value(p: Point) -> (r: i32)
    requires
        fits(p.x + 100),
    ensures
        r == p.x + 100,
{
    let mut q: Point = p;
    q.x = q.x + 100;
    q.x
}

/// The sum of the coordinates.
fn by_ref(p: &Point) -> (r: i32)
    requires
        fits(p.x + p.y),
    ensures
        r == p.x + p.y,
{
    p.x + p.y
}

/// A struct passed by value and by reference.
pub fn test_pass() -> (r: i32)
    ensures
        r == 129,
{
    let p: Point = Point::new(7, 8);
    let v: i32 = by_value(p);
    let r: i32 = by_ref(&p);
    v + r + p.x
}

/// An array of structs, one of which is moved in place.
pub fn test_array() -> (r: i32)
    ensures
        r == 38,
{
    let mut pts: [Point; 4] = [Point::new(0, 0); 4];
    let mut i: usize = 0;
    while i < 4
        invariant
            i <= 4,
            forall|j: int|
                0 <= j < i ==> (#[trigger] pts@[j]).x == j && pts@[j].y == 2 * j,
        decreases 4 - i,
    {
        pts[i] = Point::new(i as i32, (i as i32) * 2);
        i = i + 1;
    }
    let mut moved: Point = pts[2];
    moved.translate(10, 10);
    pts[2] = moved;
    let ghost expected: Seq<int> = seq![0int, 0, 3, 29, 38];
    let mut sum: i32 = 0;
    let mut k: usize = 0;
    while k < 4
        invariant
            k <= 4,
            expected == seq![0int, 0, 3, 29, 38],
            sum == expected[k as int],
            pts@[0].x + pts@[0].y == 0,
            pts@[1].x + pts@[1].y == 3,
            pts@[2].x + pts@[2].y == 26,
            pts@[3].x + pts@[3].y == 9,
            forall|j: int| 0 <= j < 4 ==> 0 <= (#[trigger] pts@[j]).x <= 20 && 0 <= pts@[j].y <= 20,
        decreases 4 - k,
    {
        let p: Point = pts[k];
        sum = sum + (p.x + p.y);
        k = k + 1;
    }
    sum
}

/// A vector with three components.
#[derive(Clone, Copy)]
pub struct Vec3 {
    pub data: [i32; 3],
}

impl Vec3 {
    /// The first `n` terms of a scalar product.
    pub open spec fn terms(self, other: Vec3, n: nat) -> int
        decreases n,
    {
        if n == 0 {
            0
        } else {
            self.terms(other, (n - 1) as nat) + self.data@[n - 1] * other.data@[n - 1]
        }
    }

    /// The scalar product.
    pub fn dot(&self, other: &Vec3) -> (r: i32)
        requires
            forall|i: int| 0 <= i < 3 ==> fits(self.data@[i] * #[trigger] other.data@[i]),
            forall|n: nat| n <= 3 ==> fits(#[trigger] self.terms(*other, n)),
        ensures
            r == self.terms(*other, 3),
    {
        let mut acc: i32 = 0;
        let mut i: usize = 0;
        while i < 3
            invariant
                i <= 3,
                forall|j: int| 0 <= j < 3 ==> fits(self.data@[j] * #[trigger] other.data@[j]),
                forall|n: nat| n <= 3 ==> fits(#[trigger] self.terms(*other, n)),
                acc == self.terms(*other, i as nat),
            decreases 3 - i,
        {
            assert(fits(self.terms(*other, (i + 1) as nat)));
            acc = acc + self.data[i] * other.data[i];
            i = i + 1;
        }
        acc
    }

    /// The vector multiplied by a number.
    pub fn scaled(&self, k: i32) -> (v: Vec3)
        requires
            forall|i: int| 0 <= i < 3 ==> fits(#[trigger] self.data@[i] * k),
        ensures
            forall|i: int| 0 <= i < 3 ==> #[trigger] v.data@[i] == self.data@[i] * k,
    {
        Vec3 { data: [self.data[0] * k, self.data[1] * k, self.data[2] * k] }
    }
}

/// Arrays within structs.
pub fn test_vec3() -> (r: i32)
    ensures
        r == 96,
{
    let a: Vec3 = Vec3 { data: [1, 2, 3] };
    let b: Vec3 = Vec3 { data: [4, 5, 6] };
    proof {
        assert(a.terms(b, 0) == 0);
        assert(a.data@[0] == 1 && a.data@[1] == 2 && a.data@[2] == 3);
        assert(b.data@[0] == 4 && b.data@[1] == 5 && b.data@[2] == 6);
        assert(a.terms(b, 1) == a.data@[0] * b.data@[0]);
        assert(a.terms(b, 1) == 4);
        assert(a.terms(b, 2) == a.terms(b, 1) + a.data@[1] * b.data@[1]);
        assert(a.terms(b, 2) == 14);
        assert(a.terms(b, 3) == a.terms(b, 2) + a.data@[2] * b.data@[2]);
        assert(a.terms(b, 3) == 32);
    }
    let d: i32 = a.dot(&b);
    let s: Vec3 = a.scaled(2);
    proof {
        assert(s.data@[0] == 2 && s.data@[1] == 4 && s.data@[2] == 6);
        assert(s.terms(b, 0) == 0);
        assert(s.terms(b, 1) == s.data@[0] * b.data@[0]);
        assert(s.terms(b, 1) == 8);
        assert(s.terms(b, 2) == 28);
        assert(s.terms(b, 3) == 64);
    }
    d + s.dot(&b)
}

/// Shapes with an area.
pub trait Shape {
    /// The area.
    spec fn extent(&self) -> int;

    /// Whether the area can be computed.
    spec fn measurable(&self) -> bool;

    fn area(&self) -> (r: i32)
        requires
            self.measurable(),
        ensures
            r == self.extent(),
    ;

    fn double_area(&self) -> (r: i32)
        requires
            self.measurable(),
            fits(self.extent() * 2),
        ensures
            r == self.extent() * 2,
    {
        self.area() * 2
    }
}

/// A square.
pub struct Square {
    pub side: i32,
}

/// A triangle.
pub struct Triangle {
    pub base: i32,
    pub height: i32,
}

impl Shape for Square {
    open spec fn extent(&self) -> int {
        self.side * self.side
    }

    open spec fn measurable(&self) -> bool {
        fits(self.side * self.side)
    }

    fn area(&self) -> (r: i32) {
        self.side * self.side
    }
}

impl Shape for Triangle {
    open spec fn extent(&self) -> int {
        quotient(self.base * self.height, 2)
    }

    open spec fn measurable(&self) -> bool {
        fits(self.base * self.height)
    }

    fn area(&self) -> (r: i32) {
        divide(self.base * self.height, 2)
    }
}

/// The area and its double, together.
fn describe<S: Shape>(s: &S) -> (r: i32)
    requires
        s.measurable(),
        fits(s.extent() * 2),
        fits(s.extent() * 3),
    ensures
        r == s.extent() * 3,
{
    s.area() + s.double_area()
}

/// Calls of trait methods on types that are known.
pub fn test_trait_static() -> (r: i32)
    ensures
        r == 93,
{
    let sq: Square = Square { side: 4 };
    let tr: Triangle = Triangle { base: 6, height: 5 };
    assert(sq.extent() == 16);
    assert(tr.base * tr.height == 30);
    assert(quotient(30, 2) == 15) by (nonlinear_arith);
    describe(&sq) + describe(&tr)
}

/// Calls of trait methods through trait objects.
pub fn test_trait_dynamic() -> (r: i32)
    ensures
        r == 75,
{
    let sq: Square = Square { side: 3 };
    let tr: Triangle = Triangle { base: 8, height: 4 };
    assert(sq.extent() == 9);
    assert(tr.base * tr.height == 32);
    assert(quotient(32, 2) == 16) by (nonlinear_arith);
    let first: &dyn Shape = &sq;
    let second: &dyn Shape = &tr;
    assert(first.extent() == sq.extent() && first.measurable() == sq.measurable());
    assert(second.extent() == tr.extent() && second.measurable() == tr.measurable());
    let mut sum: i32 = first.double_area();
    sum = sum + second.double_area();
    let boxed: Box<dyn Shape> = Box::new(Square { side: 5 });
    sum + boxed.area()
}

/// Two values of one type.
pub struct Pair<T> {
    pub first: T,
    pub second: T,
}

impl<T: Copy + Add<Output = T>> Pair<T> {
    /// The pair of two values.
    pub fn new(a: T, b: T) -> (p: Pair<T>)
        ensures
            p == (Pair { first: a, second: b }),
    {
        Pair { first: a, second: b }
    }

    /// The sum of the two values.
    pub fn combined(&self) -> (r: T)
        requires
            self.first.add_req(self.second),
        ensures
            T::obeys_add_spec() ==> r == self.first.add_spec(self.second),
    {
        self.first + self.second
    }

    /// The pair with its values exchanged.
    pub fn swapped(self) -> (p: Pair<T>)
        ensures
            p == (Pair { first: self.second, second: self.first }),
    {
        Pair { first: self.second, second: self.first }
    }
}

/// A generic struct.
pub fn test_generic_struct() -> (r: i32)
    ensures
        r == 55,
{
    let p: Pair<i32> = Pair::new(11, 22);
    let combined: i32 = p.combined();
    let s: Pair<i32> = p.swapped();
    combined + s.first
}

/// Whether one value is greater than another.
pub open spec fn exceeds<T: PartialOrd>(x: T, m: T) -> bool {
    x.partial_cmp_spec(&m) == Some(core::cmp::Ordering::Greater)
}

/// Whether the comparisons of a type follow its specification.
pub open spec fn ordered<T: PartialOrd>() -> bool {
    T::obeys_partial_cmp_spec()
}

/// The greatest of the first `n` items, as far as they can be compared: of two that cannot, the
/// earlier one stays.
pub open spec fn greatest<T: PartialOrd + Copy>(items: Seq<T>, n: nat) -> T
    decreases n,
{
    if n <= 1 {
        items[0]
    } else {
        let m = greatest(items, (n - 1) as nat);
        if exceeds(items[n - 1], m) {
            items[n - 1]
        } else {
            m
        }
    }
}

/// Of integers, the greatest is one of them and none of them exceeds it.
pub proof fn lemma_greatest(items: Seq<i32>, n: nat)
    requires
        1 <= n <= items.len(),
    ensures
        exists|i: int| 0 <= i < n && #[trigger] items[i] == greatest(items, n),
        forall|i: int| 0 <= i < n ==> #[trigger] items[i] <= greatest(items, n),
    decreases n,
{
    if n == 1 {
        assert(items[0] == greatest(items, n));
    } else {
        let m = greatest(items, (n - 1) as nat);
        lemma_greatest(items, (n - 1) as nat);
        let i = choose|i: int| 0 <= i < n - 1 && #[trigger] items[i] == m;
        assert(exceeds(items[n - 1], m) <==> items[n - 1] > m);
        if items[n - 1] > m {
            assert(items[n - 1] == greatest(items, n));
        } else {
            assert(items[i] == greatest(items, n));
        }
    }
}

/// The greatest of some items, where the comparisons of their type follow its specification.
pub fn max_of<T: PartialOrd + Copy>(items: &[T]) -> (m: T)
    requires
        items@.len() > 0,
    ensures
        ordered::<T>() ==> m == greatest(items@, items@.len()),
{
    let mut m: T = items[0];
    let mut i: usize = 1;
    while i < items.len()
        invariant
            1 <= i <= items@.len(),
            ordered::<T>() ==> m == greatest(items@, i as nat),
        decreases items@.len() - i,
    {
        let x: T = items[i];
        if x > m {
            m = x;
        }
        i = i + 1;
    }
    m
}

/// The sum of the items above a bound.
pub open spec fn sum_above(items: Seq<i32>, bound: int, n: nat) -> int
    decreases n,
{
    if n == 0 {
        0
    } else {
        sum_above(items, bound, (n - 1) as nat) + if items[n - 1] > bound {
            items[n - 1] as int
        } else {
            0
        }
    }
}

/// A generic function, and a filtered sum.
pub fn test_generic_fn() -> (r: i32)
    ensures
        r == 44,
{
    let nums: [i32; 5] = [3, 9, 2, 14, 7];
    let m: i32 = max_of(nums.as_slice());
    proof {
        assert(nums@[0] == 3 && nums@[1] == 9 && nums@[2] == 2 && nums@[3] == 14 && nums@[4] == 7);
        reveal_with_fuel(greatest, 6);
        reveal_with_fuel(sum_above, 6);
    }
    let mut total: i32 = 0;
    let mut i: usize = 0;
    while i < 5
        invariant
            i <= 5,
            forall|j: int| 0 <= j < 5 ==> 0 <= #[trigger] nums@[j] <= 14,
            total == sum_above(nums@, 5, i as nat),
            0 <= total <= 14 * i,
        decreases 5 - i,
    {
        if nums[i] > 5 {
            total = total + nums[i];
        }
        i = i + 1;
    }
    m + total
}

/// An operation.
pub enum Op {
    Add(i32, i32),
    Negate(i32),
    Const { value: i32 },
}

/// What an operation gives.
pub open spec fn meaning(op: Op) -> int {
    match op {
        Op::Add(a, b) => a + b,
        Op::Negate(a) => -a,
        Op::Const { value } => value as int,
    }
}

/// A number and its negation add to zero, and negating twice gives the number back.
pub proof fn lemma_negation(a: i32)
    requires
        a != i32::MIN,
    ensures
        fits(meaning(Op::Negate(a))),
        meaning(Op::Add(a, meaning(Op::Negate(a)) as i32)) == 0,
        meaning(Op::Negate(meaning(Op::Negate(a)) as i32)) == a,
{
}

/// Carries out an operation.
pub fn eval(op: &Op) -> (r: i32)
    requires
        fits(meaning(*op)),
    ensures
        r == meaning(*op),
{
    match op {
        Op::Add(a, b) => *a + *b,
        Op::Negate(a) => -*a,
        Op::Const { value } => *value,
    }
}

/// The sum of the first `n` operations.
pub open spec fn sum_of(ops: Seq<Op>, n: nat) -> int
    decreases n,
{
    if n == 0 {
        0
    } else {
        sum_of(ops, (n - 1) as nat) + meaning(ops[n - 1])
    }
}

/// An enum with three kinds of variants.
pub fn test_enum() -> (r: i32)
    ensures
        r == 106,
{
    let ops: [Op; 3] = [Op::Add(4, 5), Op::Negate(3), Op::Const { value: 100 }];
    proof {
        assert(ops@[0] == Op::Add(4, 5) && ops@[1] == Op::Negate(3) && ops@[2] == (Op::Const {
            value: 100,
        }));
        reveal_with_fuel(sum_of, 4);
    }
    let mut sum: i32 = 0;
    let mut i: usize = 0;
    while i < 3
        invariant
            i <= 3,
            forall|j: int| 0 <= j < 3 ==> -1000 <= meaning(#[trigger] ops@[j]) <= 1000,
            sum == sum_of(ops@, i as nat),
            -1000 * i <= sum <= 1000 * i,
        decreases 3 - i,
    {
        sum = sum + eval(&ops[i]);
        i = i + 1;
    }
    sum
}

/// The quotient, rounded towards zero, unless the divisor is zero.
fn checked_div(a: i32, b: i32) -> (r: Option<i32>)
    requires
        a != i32::MIN || b != -1,
    ensures
        b == 0 ==> r is None,
        b != 0 ==> (r matches Some(q) && q == quotient(a as int, b as int)),
{
    if b == 0 {
        None
    } else {
        Some(divide(a, b))
    }
}

/// An optional value or another in its place.
fn value_or(o: Option<i32>, other: i32) -> (r: i32)
    ensures
        r == match o {
            Some(v) => v,
            None => other,
        },
{
    match o {
        Some(v) => v,
        None => other,
    }
}

/// Optional values.
pub fn test_option() -> (r: i32)
    ensures
        r == 25,
{
    proof {
        assert(quotient(20, 4) == 5) by (nonlinear_arith);
        assert(quotient(100, 5) == 20) by (nonlinear_arith);
    }
    let ok: i32 = value_or(checked_div(20, 4), -1);
    let bad: i32 = value_or(checked_div(1, 0), -1);
    let chained: i32 = match checked_div(100, 5) {
        Some(v) => v + 1,
        None => 0,
    };
    ok + bad + chained
}

/// The sum of all of them.
pub fn run_all() -> (r: i32)
    ensures
        r == 715,
{
    test_basic() + test_mutation() + test_nested() + test_pass() + test_array() + test_vec3()
        + test_trait_static() + test_trait_dynamic() + test_generic_struct() + test_generic_fn()
        + test_enum() + test_option()
}

} // verus!
