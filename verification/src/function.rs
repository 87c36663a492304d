//! Functions that the caller supplies.
//!
//! Cosines, sines, arc tangents, exponentials and logarithms come from the
//! platform and are not correctly rounded, so nothing exact can be said of
//! them. The functions of this crate that need one take it as an argument, and
//! their contracts speak of what it gives: they hold whatever it is, as long as
//! it is a function.

use vstd::prelude::*;
use crate::pose::Heading;
use crate::single::Single;

verus! {

/// `f` can be called on every argument and always gives the same for the same.
pub open spec fn is_function<A, R, F: Fn(A) -> R>(f: F) -> bool {
    &&& forall|a: A| #[trigger] call_requires(f, (a,))
    &&& forall|a: A, x: R, y: R| #[trigger]
        call_ensures(f, (a,), x) && #[trigger] call_ensures(f, (a,), y) ==> x == y
}

/// What `f` gives for `a`.
pub open spec fn image<A, R, F: Fn(A) -> R>(f: F, a: A) -> R {
    choose|x: R| call_ensures(f, (a,), x)
}

/// What `f` gives for each of several numbers.
pub open spec fn images<R, F: Fn(Single) -> R>(f: F, a: Seq<Single>) -> Seq<R> {
    Seq::new(a.len(), |k: int| image(f, a[k]))
}

/// What `f` gives for `a`.
pub fn apply<A, R, F: Fn(A) -> R>(f: &F, a: A) -> (r: R)
    requires
        is_function::<A, R, F>(*f),
    ensures
        r == image::<A, R, F>(*f, a),
{
    let r = f(a);
    assert(call_ensures(*f, (a,), r));
    r
}

/// What `f` gives for each of several numbers.
pub fn apply_each<R, F: Fn(Single) -> R>(f: &F, a: &[Single]) -> (r: Vec<R>)
    requires
        is_function::<Single, R, F>(*f),
    ensures
        r@ == images::<R, F>(*f, a@),
{
    let n = a.len();
    let mut out: Vec<R> = Vec::new();
    let mut k: usize = 0;
    while k < n
        invariant
            n == a@.len(),
            k <= n,
            is_function::<Single, R, F>(*f),
            out@.len() == k,
            forall|t: int| 0 <= t < k ==> #[trigger] out@[t] == image::<Single, R, F>(*f, a@[t]),
        decreases n - k,
    {
        out.push(apply(f, a[k]));
        k = k + 1;
    }
    assert(out@ =~= images::<R, F>(*f, a@));
    out
}

/// `trig` gives a cosine and sine for every angle.
pub open spec fn is_trig<T: Fn(Single) -> Heading>(trig: T) -> bool {
    is_function::<Single, Heading, T>(trig)
}

/// The cosine and sine that `trig` gives for an angle.
pub open spec fn heading_of<T: Fn(Single) -> Heading>(trig: T, angle: Single) -> Heading {
    image::<Single, Heading, T>(trig, angle)
}

/// `f` gives a number for every number.
pub open spec fn is_numeric<F: Fn(Single) -> Single>(f: F) -> bool {
    is_function::<Single, Single, F>(f)
}

/// `atan2` gives an angle for every pair of a rise and a run.
pub open spec fn is_atan2<F: Fn((Single, Single)) -> Single>(atan2: F) -> bool {
    is_function::<(Single, Single), Single, F>(atan2)
}

/// The angle that `atan2` gives for a rise and a run.
pub open spec fn angle_to<F: Fn((Single, Single)) -> Single>(
    atan2: F,
    rise: Single,
    run: Single,
) -> Single {
    image::<(Single, Single), Single, F>(atan2, (rise, run))
}

} // verus!
