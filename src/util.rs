//! Slicing helpers for datasets: a train/test split and a bounded window.

use vstd::prelude::*;

verus! {

/// `len * num / den` rounded to the nearest integer, halves rounded up,
/// and at most `len`.
pub open spec fn train_count(len: nat, num: nat, den: nat) -> nat
    recommends
        den > 0,
{
    let a = len * num;
    let rounded = if 2 * (a % den) >= den {
        a / den + 1
    } else {
        a / den
    };
    if rounded < len {
        rounded
    } else {
        len
    }
}

/// Clones of `data[lo..hi]`, in order.
fn copy_range<T: Clone>(data: &[T], lo: usize, hi: usize) -> (r: Vec<T>)
    requires
        lo <= hi <= data@.len(),
    ensures
        r@.len() == hi - lo,
        forall|i: int| 0 <= i < r@.len() ==> cloned(data@[lo + i], #[trigger] r@[i]),
{
    let mut r: Vec<T> = Vec::new();
    let mut i: usize = lo;
    while i < hi
        invariant
            lo <= i <= hi <= data@.len(),
            r@.len() == i - lo,
            forall|k: int| 0 <= k < r@.len() ==> cloned(data@[lo + k], #[trigger] r@[k]),
        decreases hi - i,
    {
        let x = data[i].clone();
        r.push(x);
        i += 1;
    }
    r
}

/// Splits `data` into a leading training part of `train_count(len, num, den)`
/// items and a test part holding the rest, both in their original order.
pub fn train_test_split<T: Clone>(data: &[T], num: usize, den: usize) -> (r: (Vec<T>, Vec<T>))
    requires
        den > 0,
    ensures
        r.0@.len() == train_count(data@.len(), num as nat, den as nat),
        r.0@.len() + r.1@.len() == data@.len(),
        forall|i: int| 0 <= i < r.0@.len() ==> cloned(data@[i], #[trigger] r.0@[i]),
        forall|i: int|
            0 <= i < r.1@.len() ==> cloned(data@[r.0@.len() + i], #[trigger] r.1@[i]),
{
    let total = data.len();
    assert((total as int) * (num as int) <= 0xffff_ffff_ffff_fffe_0000_0000_0000_0001) by (nonlinear_arith)
        requires
            total <= 0xffff_ffff_ffff_ffff,
            num <= 0xffff_ffff_ffff_ffff,
    ;
    let a: u128 = (total as u128) * (num as u128);
    let q: u128 = a / (den as u128);
    assert(q <= a) by (nonlinear_arith)
        requires
            q == a / (den as u128),
            den > 0,
    ;
    let rem: u128 = a % (den as u128);
    assert(rem < den) by (nonlinear_arith)
        requires
            rem == a % (den as u128),
            den > 0,
    ;
    let rounded: u128 = if 2 * rem >= den as u128 {
        q + 1
    } else {
        q
    };
    let n: usize = if rounded < total as u128 {
        rounded as usize
    } else {
        total
    };
    let train = copy_range(data, 0, n);
    let test = copy_range(data, n, total);
    (train, test)
}

/// Clones of the items of `data` from `start` on, at most `count` of them.
pub fn take_subset<T: Clone>(data: &[T], start: usize, count: usize) -> (r: Vec<T>)
    requires
        start <= data@.len(),
    ensures
        r@.len() == if count < data@.len() - start {
            count as int
        } else {
            data@.len() - start
        },
        forall|i: int| 0 <= i < r@.len() ==> cloned(data@[start + i], #[trigger] r@[i]),
{
    let end: usize = if count < data.len() - start {
        start + count
    } else {
        data.len()
    };
    copy_range(data, start, end)
}

} // verus!
