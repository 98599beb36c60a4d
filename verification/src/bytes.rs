//! Searching in bytes.
use vstd::prelude::*;

use crate::text::{find_from, has_infix, lemma_find_from, occurs_at};

verus! {

/// Whether `pat` stands in `data` at position `i`.
pub fn bytes_at(data: &[u8], pat: &[u8], i: usize) -> (r: bool)
    requires
        i + pat@.len() <= data@.len(),
    ensures
        r == occurs_at(data@, pat@, i as int),
{
    let n: usize = data.len();
    let mut k: usize = 0;
    while k < pat.len()
        invariant
            k <= pat@.len(),
            n == data@.len(),
            i + pat@.len() <= data@.len(),
            forall|m: int| 0 <= m < k ==> data@[i + m] == #[trigger] pat@[m],
        decreases pat@.len() - k,
    {
        if data[i + k] != pat[k] {
            proof {
                assert(data@.subrange(i as int, i + pat@.len())[k as int] == data@[i + k]);
            }
            return false;
        }
        k += 1;
    }
    proof {
        assert(data@.subrange(i as int, i + pat@.len()) =~= pat@);
    }
    true
}

/// The first position from `start` on at which `pat` stands in `data`.
pub fn find_bytes(data: &[u8], pat: &[u8], start: usize) -> (r: Option<usize>)
    ensures
        match find_from(data@, pat@, start as int) {
            Some(j) => r == Some(j as usize) && start <= j && j + pat@.len() <= data@.len()
                && j as usize == j && occurs_at(data@, pat@, j),
            None => r is None,
        },
{
    if pat.len() > data.len() {
        return None;
    }
    let last: usize = data.len() - pat.len();
    let mut i: usize = start;
    while i <= last
        invariant
            start <= i,
            last == data@.len() - pat@.len(),
            find_from(data@, pat@, start as int) == find_from(data@, pat@, i as int),
        decreases last + 1 - i,
    {
        if bytes_at(data, pat, i) {
            return Some(i);
        }
        if i == last {
            return None;
        }
        i += 1;
    }
    None
}

/// Whether `data` begins with `pat`.
pub fn bytes_start_with(data: &[u8], pat: &[u8]) -> (r: bool)
    ensures
        r == pat@.is_prefix_of(data@),
{
    if pat.len() > data.len() {
        return false;
    }
    proof {
        assert(data@.subrange(0, pat@.len() as int) == pat@ <==> pat@.is_prefix_of(data@));
    }
    bytes_at(data, pat, 0)
}

/// Whether `pat` stands somewhere in `data`.
pub fn bytes_contain(data: &[u8], pat: &[u8]) -> (r: bool)
    ensures
        r == has_infix(data@, pat@),
{
    proof {
        lemma_find_from(data@, pat@, 0);
    }
    find_bytes(data, pat, 0).is_some()
}

/// Whether two rows of bytes are equal.
pub fn bytes_equal(a: &Vec<u8>, b: &Vec<u8>) -> (r: bool)
    ensures
        r == (a@ == b@),
{
    if a.len() != b.len() {
        return false;
    }
    let mut i: usize = 0;
    while i < a.len()
        invariant
            i <= a@.len(),
            a@.len() == b@.len(),
            forall|k: int| 0 <= k < i ==> a@[k] == b@[k],
        decreases a@.len() - i,
    {
        if a[i] != b[i] {
            return false;
        }
        i += 1;
    }
    proof {
        assert(a@ =~= b@);
    }
    true
}

/// A copy of bytes.
pub fn copy_bytes(data: &Vec<u8>) -> (r: Vec<u8>)
    ensures
        r@ == data@,
{
    let mut r: Vec<u8> = Vec::new();
    let mut i: usize = 0;
    while i < data.len()
        invariant
            i <= data@.len(),
            r@ == data@.take(i as int),
        decreases data@.len() - i,
    {
        r.push(data[i]);
        proof {
            assert(data@.take(i as int + 1) =~= data@.take(i as int).push(data@[i as int]));
        }
        i += 1;
    }
    proof {
        assert(data@.take(i as int) =~= data@);
    }
    r
}

} // verus!
