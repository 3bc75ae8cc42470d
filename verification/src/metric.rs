//! The metric engine's fixed set of distance functions, selected by short
//! code, and the exact top-k selection over a full linear scan.
//!
//! A distance here is an order key: the non-negative IEEE-754 double a
//! metric yields, mapped by the caller to a `u64` that orders exactly as
//! the double does. Selection sorts ascending by key with ties broken by
//! original scan position, which is precisely a stable sort, and keeps the
//! first k.

use vstd::prelude::*;
use vstd::pervasive::VecAdditionalExecFns;
use vstd::slice::slice_index_get;
use vstd::utf8::{encode_utf8, encode_utf8_decode_utf8};

verus! {

/// The named distance functions.
#[derive(Clone, Copy, Debug, PartialEq, Eq, Structural)]
pub enum Metric {
    Euclidean,
    L1,
    Cosine,
}

/// Which metric a query code selects: `eu`, `l1` or `cs`; anything else
/// selects none.
pub open spec fn spec_metric_from_code(code: Seq<char>) -> Option<Metric> {
    if code == "eu"@ {
        Some(Metric::Euclidean)
    } else if code == "l1"@ {
        Some(Metric::L1)
    } else if code == "cs"@ {
        Some(Metric::Cosine)
    } else {
        None
    }
}

/// String equality by comparing UTF-8 bytes; exact because the encoding is
/// injective.
pub(crate) fn str_eq(a: &str, b: &str) -> (r: bool)
    ensures
        r == (a@ == b@),
{
    proof {
        encode_utf8_decode_utf8(a@);
        encode_utf8_decode_utf8(b@);
    }
    let ab = a.as_bytes();
    let bb = b.as_bytes();
    if ab.len() != bb.len() {
        return false;
    }
    let mut i: usize = 0;
    while i < ab.len()
        invariant
            i <= ab@.len(),
            ab@.len() == bb@.len(),
            ab@ == encode_utf8(a@),
            bb@ == encode_utf8(b@),
            forall|m: int| 0 <= m < i ==> ab@[m] == bb@[m],
        decreases ab@.len() - i,
    {
        if *slice_index_get(ab, i) != *slice_index_get(bb, i) {
            return false;
        }
        i += 1;
    }
    proof {
        assert(ab@ =~= bb@);
    }
    true
}

impl Metric {
    /// Resolves a query-time metric code; `None` is surfaced by callers as
    /// an UnknownMetric failure before any scan occurs.
    pub fn from_code(code: &str) -> (r: Option<Self>)
        ensures
            r == spec_metric_from_code(code@),
    {
        if str_eq(code, "eu") {
            Some(Metric::Euclidean)
        } else if str_eq(code, "l1") {
            Some(Metric::L1)
        } else if str_eq(code, "cs") {
            Some(Metric::Cosine)
        } else {
            None
        }
    }
}

/// The strict priority order of scored records: lower key first, and the
/// earlier scan position first among equal keys.
pub open spec fn lex_before(k1: u64, i1: int, k2: u64, i2: int) -> bool {
    k1 < k2 || (k1 == k2 && i1 < i2)
}

/// Whether some pair in `r` carries scan position `j`.
pub open spec fn holds_index(r: Seq<(usize, u64)>, j: int) -> bool {
    exists|m: int| 0 <= m < r.len() && (#[trigger] r[m]).0 == j
}

/// The selected pairs are exactly the ranking that §top-k owes: every pair
/// is a scanned (position, key); they come strictly ordered by (key,
/// position); and nothing left out precedes anything kept.
pub open spec fn ranked_top(keys: Seq<u64>, k: int, r: Seq<(usize, u64)>) -> bool {
    &&& r.len() == if k <= keys.len() {
        k
    } else {
        keys.len() as int
    }
    &&& forall|m: int|
        0 <= m < r.len() ==> (#[trigger] r[m]).0 < keys.len() && r[m].1 == keys[r[m].0 as int]
    &&& forall|m1: int, m2: int| 0 <= m1 < m2 < r.len() ==> lex_before(
        (#[trigger] r[m1]).1,
        r[m1].0 as int,
        (#[trigger] r[m2]).1,
        r[m2].0 as int,
    )
    &&& forall|j: int, m: int|
        #![trigger r[m], holds_index(r, j)]
        0 <= j < keys.len() && !holds_index(r, j) && 0 <= m < r.len() ==> lex_before(
            r[m].1,
            r[m].0 as int,
            keys[j],
            j,
        )
}

/// Pairs every record position with its distance key, sorts ascending by
/// key with ties broken by position (a stable sort of the scan order), and
/// returns the first k pairs; all of them if k exceeds the record count.
pub fn top_k(keys: &Vec<u64>, k: usize) -> (r: Vec<(usize, u64)>)
    ensures
        ranked_top(keys@, k as int, r@),
        k >= keys@.len() ==> forall|j: int| 0 <= j < keys@.len() ==> holds_index(r@, j),
{
    let n = keys.len();
    let mut arr: Vec<(usize, u64)> = Vec::new();
    let mut i: usize = 0;
    while i < n
        invariant
            i <= n,
            n == keys@.len(),
            arr@.len() == i,
            forall|m: int| 0 <= m < i ==> #[trigger] arr@[m] == (m as usize, keys@[m]),
        decreases n - i,
    {
        arr.push((i, keys[i]));
        i += 1;
    }
    proof {
        assert forall|j: int| 0 <= j < n implies holds_index(arr@, j) by {
            assert(arr@[j].0 == j);
        }
    }
    let mut i: usize = if n == 0 { 0 } else { 1 };
    while i < arr.len()
        invariant
            1 <= i || n == 0,
            i <= arr@.len(),
            arr@.len() == n,
            n == keys@.len(),
            forall|m: int|
                0 <= m < n ==> (#[trigger] arr@[m]).0 < n && arr@[m].1 == keys@[arr@[m].0 as int],
            forall|m1: int, m2: int| 0 <= m1 < m2 < n ==> (#[trigger] arr@[m1]).0 != (
            #[trigger] arr@[m2]).0,
            forall|j: int| 0 <= j < n ==> holds_index(arr@, j),
            forall|m1: int, m2: int| 0 <= m1 < m2 < i ==> lex_before(
                (#[trigger] arr@[m1]).1,
                arr@[m1].0 as int,
                (#[trigger] arr@[m2]).1,
                arr@[m2].0 as int,
            ),
        decreases arr@.len() - i,
    {
        let mut j: usize = i;
        let mut go = true;
        while go && j > 0
            invariant
                !go ==> 0 < j && !lex_before(
                    arr@[j as int].1,
                    arr@[j as int].0 as int,
                    arr@[j - 1].1,
                    arr@[j - 1].0 as int,
                ),
                0 <= j <= i < arr@.len(),
                arr@.len() == n,
                n == keys@.len(),
                forall|m: int|
                    0 <= m < n ==> (#[trigger] arr@[m]).0 < n && arr@[m].1 == keys@[arr@[m].0 as int],
                forall|m1: int, m2: int| 0 <= m1 < m2 < n ==> (#[trigger] arr@[m1]).0 != (
                #[trigger] arr@[m2]).0,
                forall|j2: int| 0 <= j2 < n ==> holds_index(arr@, j2),
                forall|m1: int, m2: int|
                    0 <= m1 < m2 <= i && m1 != j && m2 != j ==> lex_before(
                        (#[trigger] arr@[m1]).1,
                        arr@[m1].0 as int,
                        (#[trigger] arr@[m2]).1,
                        arr@[m2].0 as int,
                    ),
                forall|m: int| j < m <= i ==> lex_before(
                    arr@[j as int].1,
                    arr@[j as int].0 as int,
                    (#[trigger] arr@[m]).1,
                    arr@[m].0 as int,
                ),
            decreases j + if go { 1int } else { 0int },
        {
            let prev = arr[j - 1];
            let curv = arr[j];
            if !(prev.1 > curv.1 || (prev.1 == curv.1 && prev.0 > curv.0)) {
                go = false;
            } else {
                let ghost pre = arr@;
                let a = arr[j - 1];
                let bv = arr[j];
                arr.set(j - 1, bv);
                arr.set(j, a);
            proof {
                assert forall|j2: int| 0 <= j2 < n implies holds_index(arr@, j2) by {
                    assert(holds_index(pre, j2));
                    let m = choose|m: int| 0 <= m < pre.len() && (#[trigger] pre[m]).0 == j2;
                    if m == j - 1 {
                        assert(arr@[j as int].0 == j2);
                    } else if m == j {
                        assert(arr@[j - 1].0 == j2);
                    } else {
                        assert(arr@[m].0 == j2);
                    }
                    }
                }
                j -= 1;
            }
        }
        i += 1;
    }
    let ghost sorted = arr@;
    arr.truncate(k);
    proof {
        let rlen = if k <= n { k as int } else { n as int };
        assert(arr@ =~= sorted.subrange(0, rlen));
        if k >= n {
            assert(arr@ =~= sorted);
        }
        assert forall|j: int, m: int|
            0 <= j < n && !holds_index(arr@, j) && 0 <= m < arr@.len() implies lex_before(
            arr@[m].1,
            arr@[m].0 as int,
            keys@[j],
            j,
        ) by {
            assert(holds_index(sorted, j));
            let w = choose|w: int| 0 <= w < sorted.len() && (#[trigger] sorted[w]).0 == j;
            if w < rlen {
                assert(arr@[w] == sorted[w]);
                assert(arr@[w].0 == j);
                assert(holds_index(arr@, j));
            } else {
                assert(lex_before(sorted[m].1, sorted[m].0 as int, sorted[w].1, sorted[w].0 as int));
            }
        }
    }
    arr
}

} // verus!
