//! The floating-point operations that scores need, asked of whoever embeds the library.
//!
//! A score is held as the bits of an IEEE 754 number, and this library computes nothing with
//! such numbers but their order and their roundings. The operations are a parameter of the
//! functions that need them. Those functions ask of them only that they are functions of
//! their arguments, and state their results in terms of them.
use vstd::prelude::*;

verus! {

/// Arithmetic on the bits of floating-point numbers.
///
/// Nothing is promised of a result here: what is proved of a function that takes an
/// `Arithmetic` holds whatever the operations compute.
pub trait Arithmetic {
    /// `a + b` in single precision.
    fn plus(a: u32, b: u32) -> (r: u32);

    /// `a - b` in single precision.
    fn minus(a: u32, b: u32) -> (r: u32);

    /// `a / b` in single precision.
    fn over(a: u32, b: u32) -> (r: u32);

    /// The square root of `a` in single precision.
    fn root(a: u32) -> (r: u32);

    /// `n` in single precision.
    fn counted(n: usize) -> (r: u32);

    /// The dot product of two vectors in single precision.
    fn dot(a: &Vec<u32>, b: &Vec<u32>) -> (r: u32);

    /// The sum, in single precision, of a column whose cells lie `stride` places apart.
    fn total(column: &Vec<u32>, stride: usize) -> (r: u32);

    /// The cosine similarity of two vectors in single precision.
    fn cosine(a: &Vec<u32>, b: &Vec<u32>) -> (r: u32);

    /// `a` in double precision.
    fn widened(a: u32) -> (r: u64);

    /// `a + b` in double precision.
    fn plus_wide(a: u64, b: u64) -> (r: u64);

    /// `a - b` in double precision.
    fn minus_wide(a: u64, b: u64) -> (r: u64);

    /// `a * b` in double precision.
    fn times_wide(a: u64, b: u64) -> (r: u64);

    /// `n / 2^53` in double precision, for an integer below `2^53`.
    fn fraction(n: u64) -> (r: u64);
}

/// What `plus` gives.
pub open spec fn plus_of<A: Arithmetic>(a: u32, b: u32) -> u32 {
    choose|r: u32| call_ensures(A::plus, (a, b), r)
}

/// What `minus` gives.
pub open spec fn minus_of<A: Arithmetic>(a: u32, b: u32) -> u32 {
    choose|r: u32| call_ensures(A::minus, (a, b), r)
}

/// What `over` gives.
pub open spec fn over_of<A: Arithmetic>(a: u32, b: u32) -> u32 {
    choose|r: u32| call_ensures(A::over, (a, b), r)
}

/// What `root` gives.
pub open spec fn root_of<A: Arithmetic>(a: u32) -> u32 {
    choose|r: u32| call_ensures(A::root, (a,), r)
}

/// What `counted` gives.
pub open spec fn counted_of<A: Arithmetic>(n: usize) -> u32 {
    choose|r: u32| call_ensures(A::counted, (n,), r)
}

/// Whether `dot` can give `r` for vectors with these components.
pub open spec fn dots<A: Arithmetic>(a: Seq<u32>, b: Seq<u32>, r: u32) -> bool {
    exists|v: Vec<u32>, w: Vec<u32>|
        v@ == a && w@ == b && #[trigger] call_ensures(A::dot, (&v, &w), r)
}

/// What `dot` gives.
pub open spec fn dot_of<A: Arithmetic>(a: Seq<u32>, b: Seq<u32>) -> u32 {
    choose|r: u32| dots::<A>(a, b, r)
}

/// Whether `total` can give `r` for a column with these cells.
pub open spec fn totals<A: Arithmetic>(column: Seq<u32>, stride: usize, r: u32) -> bool {
    exists|v: Vec<u32>| v@ == column && #[trigger] call_ensures(A::total, (&v, stride), r)
}

/// What `total` gives.
pub open spec fn total_of<A: Arithmetic>(column: Seq<u32>, stride: usize) -> u32 {
    choose|r: u32| totals::<A>(column, stride, r)
}

/// Whether `cosine` can give `r` for vectors with these components.
pub open spec fn cosines<A: Arithmetic>(a: Seq<u32>, b: Seq<u32>, r: u32) -> bool {
    exists|v: Vec<u32>, w: Vec<u32>|
        v@ == a && w@ == b && #[trigger] call_ensures(A::cosine, (&v, &w), r)
}

/// What `cosine` gives.
pub open spec fn cosine_of<A: Arithmetic>(a: Seq<u32>, b: Seq<u32>) -> u32 {
    choose|r: u32| cosines::<A>(a, b, r)
}

/// What `widened` gives.
pub open spec fn widened_of<A: Arithmetic>(a: u32) -> u64 {
    choose|r: u64| call_ensures(A::widened, (a,), r)
}

/// What `plus_wide` gives.
pub open spec fn plus_wide_of<A: Arithmetic>(a: u64, b: u64) -> u64 {
    choose|r: u64| call_ensures(A::plus_wide, (a, b), r)
}

/// What `minus_wide` gives.
pub open spec fn minus_wide_of<A: Arithmetic>(a: u64, b: u64) -> u64 {
    choose|r: u64| call_ensures(A::minus_wide, (a, b), r)
}

/// What `times_wide` gives.
pub open spec fn times_wide_of<A: Arithmetic>(a: u64, b: u64) -> u64 {
    choose|r: u64| call_ensures(A::times_wide, (a, b), r)
}

/// What `fraction` gives.
pub open spec fn fraction_of<A: Arithmetic>(n: u64) -> u64 {
    choose|r: u64| call_ensures(A::fraction, (n,), r)
}

/// Whether every operation gives the same result whenever it is given the same arguments.
pub open spec fn functional<A: Arithmetic>() -> bool {
    &&& forall|a: u32, b: u32, r: u32|
        #[trigger] call_ensures(A::plus, (a, b), r) ==> r == plus_of::<A>(a, b)
    &&& forall|a: u32, b: u32, r: u32|
        #[trigger] call_ensures(A::minus, (a, b), r) ==> r == minus_of::<A>(a, b)
    &&& forall|a: u32, b: u32, r: u32|
        #[trigger] call_ensures(A::over, (a, b), r) ==> r == over_of::<A>(a, b)
    &&& forall|a: u32, r: u32| #[trigger] call_ensures(A::root, (a,), r) ==> r == root_of::<A>(a)
    &&& forall|n: usize, r: u32|
        #[trigger] call_ensures(A::counted, (n,), r) ==> r == counted_of::<A>(n)
    &&& forall|a: Seq<u32>, b: Seq<u32>, r: u32|
        #[trigger] dots::<A>(a, b, r) ==> r == dot_of::<A>(a, b)
    &&& forall|column: Seq<u32>, stride: usize, r: u32|
        #[trigger] totals::<A>(column, stride, r) ==> r == total_of::<A>(column, stride)
    &&& forall|a: Seq<u32>, b: Seq<u32>, r: u32|
        #[trigger] cosines::<A>(a, b, r) ==> r == cosine_of::<A>(a, b)
    &&& forall|a: u32, r: u64|
        #[trigger] call_ensures(A::widened, (a,), r) ==> r == widened_of::<A>(a)
    &&& forall|a: u64, b: u64, r: u64|
        #[trigger] call_ensures(A::plus_wide, (a, b), r) ==> r == plus_wide_of::<A>(a, b)
    &&& forall|a: u64, b: u64, r: u64|
        #[trigger] call_ensures(A::minus_wide, (a, b), r) ==> r == minus_wide_of::<A>(a, b)
    &&& forall|a: u64, b: u64, r: u64|
        #[trigger] call_ensures(A::times_wide, (a, b), r) ==> r == times_wide_of::<A>(a, b)
    &&& forall|n: u64, r: u64|
        #[trigger] call_ensures(A::fraction, (n,), r) ==> r == fraction_of::<A>(n)
}

/// The dot product of two vectors in single precision.
pub(crate) fn dot<A: Arithmetic>(a: &Vec<u32>, b: &Vec<u32>) -> (r: u32)
    requires
        functional::<A>(),
    ensures
        r == dot_of::<A>(a@, b@),
{
    let r: u32 = A::dot(a, b);
    proof {
        assert(call_ensures(A::dot, (a, b), r));
        assert(dots::<A>(a@, b@, r));
    }
    r
}

/// The sum, in single precision, of a column whose cells lie `stride` places apart.
pub(crate) fn total<A: Arithmetic>(column: &Vec<u32>, stride: usize) -> (r: u32)
    requires
        functional::<A>(),
    ensures
        r == total_of::<A>(column@, stride),
{
    let r: u32 = A::total(column, stride);
    proof {
        assert(call_ensures(A::total, (column, stride), r));
        assert(totals::<A>(column@, stride, r));
    }
    r
}

/// The cosine similarity of two vectors in single precision.
pub(crate) fn cosine<A: Arithmetic>(a: &Vec<u32>, b: &Vec<u32>) -> (r: u32)
    requires
        functional::<A>(),
    ensures
        r == cosine_of::<A>(a@, b@),
{
    let r: u32 = A::cosine(a, b);
    proof {
        assert(call_ensures(A::cosine, (a, b), r));
        assert(cosines::<A>(a@, b@, r));
    }
    r
}

} // verus!
