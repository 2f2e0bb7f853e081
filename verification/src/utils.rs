use vstd::prelude::*;

use crate::btree::Cell;
use crate::constants;

verus! {

/// A page as raw bytes; well-formed when it holds exactly `PAGE_SIZE` bytes.
pub type Page = Vec<u8>;

/// `n` zero bytes.
pub open spec fn zero_seq(n: nat) -> Seq<u8> {
    Seq::new(n, |i: int| 0u8)
}

/// Builds a vector of `n` zero bytes.
pub fn zero_vec(n: usize) -> (r: Vec<u8>)
    ensures
        r@ == zero_seq(n as nat),
{
    let mut r: Vec<u8> = Vec::new();
    let mut i: usize = 0;
    while i < n
        invariant
            i <= n,
            r@.len() == i,
            forall|j: int| 0 <= j < i ==> r@[j] == 0u8,
        decreases n - i,
    {
        r.push(0u8);
        i = i + 1;
    }
    proof {
        assert(r@ =~= zero_seq(n as nat));
    }
    r
}

/// Copies `v` into the front of a fresh zero-filled page.
pub fn vec_to_page(v: &[u8]) -> (p: Page)
    requires
        v@.len() <= constants::PAGE_SIZE,
    ensures
        p@.len() == constants::PAGE_SIZE,
        p@ == v@ + zero_seq((constants::PAGE_SIZE - v@.len()) as nat),
{
    let mut p: Vec<u8> = Vec::new();
    let mut i: usize = 0;
    let n: usize = v.len();
    while i < n
        invariant
            i <= n,
            n == v@.len() <= constants::PAGE_SIZE,
            p@ == v@.subrange(0, i as int),
        decreases n - i,
    {
        let b: u8 = *vstd::slice::slice_index_get(v, i);
        p.push(b);
        proof {
            assert(p@ =~= v@.subrange(0, i + 1 as int));
        }
        i = i + 1;
    }
    while i < constants::PAGE_SIZE as usize
        invariant
            n == v@.len() <= constants::PAGE_SIZE,
            n <= i <= constants::PAGE_SIZE,
            p@.len() == i,
            p@.subrange(0, n as int) == v@,
            forall|j: int| n <= j < i ==> p@[j] == 0u8,
        decreases constants::PAGE_SIZE - i,
    {
        p.push(0u8);
        proof {
            assert(p@.subrange(0, n as int) =~= v@);
        }
        i = i + 1;
    }
    proof {
        assert(p@ =~= v@ + zero_seq((constants::PAGE_SIZE - v@.len()) as nat));
    }
    p
}

/// Binary search for the insertion index of `key` in a leaf's cells: on a
/// sorted sequence it returns the lowest index `i` with `cells[i].key >=
/// key`, or `cells.len()` when `key` exceeds all keys. On an unsorted
/// sequence it still returns some index within bounds.
pub fn binary_search_key(cells: &Vec<Cell>, key: u32) -> (idx: u32)
    requires
        cells@.len() <= u32::MAX,
    ensures
        idx <= cells@.len(),
        (forall|i: int, j: int|
            0 <= i <= j < cells@.len() ==> (#[trigger] cells@[i])@.key <= (
            #[trigger] cells@[j])@.key) ==> {
            &&& forall|j: int| 0 <= j < idx ==> (#[trigger] cells@[j])@.key < key
            &&& (idx < cells@.len() ==> cells@[idx as int]@.key >= key)
        },
{
    let mut left: usize = 0;
    let mut right: usize = cells.len();
    while left < right
        invariant
            left <= right <= cells@.len() <= u32::MAX,
            (forall|i: int, j: int|
                0 <= i <= j < cells@.len() ==> (#[trigger] cells@[i])@.key <= (
                #[trigger] cells@[j])@.key) ==> {
                &&& forall|j: int| 0 <= j < left ==> (#[trigger] cells@[j])@.key < key
                &&& forall|j: int|
                    right <= j < cells@.len() ==> (#[trigger] cells@[j])@.key >= key
            },
        decreases right - left,
    {
        let mid = left + (right - left) / 2;
        if cells[mid].key < key {
            left = mid + 1;
        } else {
            right = mid;
        }
    }
    left as u32
}

} // verus!
