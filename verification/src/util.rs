//! Array helpers.
use vstd::prelude::*;

verus! {

/// Moves the elements of an array into a `Vec`, in order.
///
/// Calls `<Vec<T> as From<[T; N]>>::from`, which std documents as allocating a vector and moving
/// the array's items into it; the contract claims that the vector holds the array's elements in
/// their order.
#[verifier::external_body]
pub(crate) fn array_into_vec<T, const N: usize>(array: [T; N]) -> (v: Vec<T>)
    ensures
        v@ == array@,
{
    Vec::from(array)
}

/// Moves the elements of a `Vec` into an array, if it holds exactly `N` of them; gives the
/// vector back otherwise.
///
/// Calls `<[T; N] as TryFrom<Vec<T>>>::try_from`, which std documents as succeeding exactly when
/// the length of the vector equals `N` and returning the vector unchanged otherwise; the contract
/// claims that and that the array holds the vector's elements in their order.
#[verifier::external_body]
pub(crate) fn vec_into_array<T, const N: usize>(v: Vec<T>) -> (r: Result<[T; N], Vec<T>>)
    ensures
        r is Ok <==> v@.len() == N,
        r matches Ok(a) ==> a@ == v@,
        r matches Err(w) ==> w@ == v@,
{
    <[T; N]>::try_from(v)
}

/// Maps the elements of a vector of `N` elements to an array of `N` elements, in order.
fn map_into_array<T, U, F: Fn(T) -> U, const N: usize>(v: Vec<T>, f: F) -> (r: [U; N])
    requires
        v@.len() == N,
        forall|t: T| f.requires((t,)),
    ensures
        forall|i: int| 0 <= i < N ==> f.ensures((v@[i],), #[trigger] r@[i]),
{
    let mut rest = v;
    let mut out: Vec<U> = Vec::new();
    let ghost all = rest@;
    while rest.len() > 0
        invariant
            forall|t: T| f.requires((t,)),
            all.len() == N,
            out@.len() + rest@.len() == N,
            rest@ == all.subrange(out@.len() as int, N as int),
            forall|i: int| 0 <= i < out@.len() ==> f.ensures((all[i],), #[trigger] out@[i]),
        decreases rest@.len(),
    {
        let e = rest.remove(0);
        let u = f(e);
        out.push(u);
        assert(rest@ =~= all.subrange(out@.len() as int, N as int));
    }
    match vec_into_array::<U, N>(out) {
        Ok(a) => a,
        Err(_) => vstd::pervasive::unreached(),
    }
}

/// Maps the elements of an array by reference to an array of the same length, in order.
fn map_by_ref<T, U, F: Fn(&T) -> U, const N: usize>(array: &[T; N], f: F) -> (r: [U; N])
    requires
        forall|t: &T| f.requires((t,)),
    ensures
        forall|i: int| 0 <= i < N ==> f.ensures((&array@[i],), #[trigger] r@[i]),
{
    let mut out: Vec<U> = Vec::new();
    let mut i: usize = 0;
    while i < N
        invariant
            forall|t: &T| f.requires((t,)),
            i <= N,
            out@.len() == i,
            forall|j: int| 0 <= j < i ==> f.ensures((&array@[j],), #[trigger] out@[j]),
        decreases N - i,
    {
        let u = f(&array[i]);
        out.push(u);
        i = i + 1;
    }
    match vec_into_array::<U, N>(out) {
        Ok(a) => a,
        Err(_) => vstd::pervasive::unreached(),
    }
}

/// Arrays whose elements can be mapped into another array of the same length.
pub trait ArrayMap<T, U>: Sized {
    /// The array type holding the mapped elements.
    type Output;

    /// Maps every element with `f`, in order.
    fn array_map<F: Fn(T) -> U>(self, f: F) -> Self::Output
        requires
            forall|t: T| f.requires((t,)),
    ;

    /// Maps a reference to every element with `f`, in order.
    fn array_map_by_ref<F: Fn(&T) -> U>(&self, f: F) -> Self::Output
        requires
            forall|t: &T| f.requires((t,)),
    ;
}

impl<T, U> ArrayMap<T, U> for [T; 4] {
    type Output = [U; 4];

    fn array_map<F: Fn(T) -> U>(self, f: F) -> (r: [U; 4])
        ensures
            forall|i: int| 0 <= i < 4 ==> f.ensures((self@[i],), #[trigger] r@[i]),
    {
        let v = array_into_vec(self);
        map_into_array::<T, U, _, 4>(v, f)
    }

    fn array_map_by_ref<F: Fn(&T) -> U>(&self, f: F) -> (r: [U; 4])
        ensures
            forall|i: int| 0 <= i < 4 ==> f.ensures((&self@[i],), #[trigger] r@[i]),
    {
        map_by_ref(self, f)
    }
}

impl<T, U> ArrayMap<T, U> for [T; 8] {
    type Output = [U; 8];

    fn array_map<F: Fn(T) -> U>(self, f: F) -> (r: [U; 8])
        ensures
            forall|i: int| 0 <= i < 8 ==> f.ensures((self@[i],), #[trigger] r@[i]),
    {
        let v = array_into_vec(self);
        map_into_array::<T, U, _, 8>(v, f)
    }

    fn array_map_by_ref<F: Fn(&T) -> U>(&self, f: F) -> (r: [U; 8])
        ensures
            forall|i: int| 0 <= i < 8 ==> f.ensures((&self@[i],), #[trigger] r@[i]),
    {
        map_by_ref(self, f)
    }
}

} // verus!
