//! Bookkeeping of the embedding cache.
//!
//! The cache persists a list of identifiers (file names) beside a matrix of
//! embeddings, row `k` belonging to identifier `k`. This module decides, by
//! identifier and row index alone, which rows of a request come from the cache
//! and which must be computed, and how the store is rebuilt afterwards.
use vstd::hash_map::StringHashMap;
use vstd::prelude::*;

use crate::error::DedupError;

verus! {

/// The final component of a path, as `std::path::Path::file_name` gives it.
pub uninterp spec fn file_name_of(path: Seq<char>) -> Option<Seq<char>>;

/// Relies on `std::path::Path::file_name` for the final component of `path`;
/// that component of a `str` is valid UTF-8, so `to_str` keeps it whole.
#[verifier::external_body]
fn file_name(path: &str) -> (r: Option<String>)
    ensures
        match r {
            Some(name) => file_name_of(path@) == Some(name@),
            None => file_name_of(path@) is None,
        },
{
    std::path::Path::new(path).file_name().and_then(|n| n.to_str()).map(|n| n.to_string())
}

/// Where a row of an embedding matrix comes from.
#[derive(Clone, Copy, Debug, PartialEq, Eq, Structural)]
pub enum RowSource {
    /// Row of the cached matrix.
    Cached(usize),
    /// Row of the freshly computed matrix.
    Computed(usize),
}

/// The answer of the cache to a request: for each requested position where its
/// row comes from, and the positions to compute, in request order. The
/// freshly computed matrix has one row per entry of `to_compute`.
pub struct Partition {
    pub rows: Vec<RowSource>,
    pub to_compute: Vec<usize>,
}

/// A rebuilt store: its identifiers and where each of its rows comes from.
pub struct StorePlan {
    pub identifiers: Vec<String>,
    pub rows: Vec<RowSource>,
}

/// `ids` holds `key`.
pub open spec fn listed(ids: Seq<String>, key: Seq<char>) -> bool {
    exists|i: int| 0 <= i < ids.len() && (#[trigger] ids[i])@ == key
}

/// `i` is the first position of `key` in `ids`.
pub open spec fn first_index(ids: Seq<String>, key: Seq<char>, i: int) -> bool {
    &&& 0 <= i < ids.len()
    &&& ids[i]@ == key
    &&& forall|m: int| 0 <= m < i ==> (#[trigger] ids[m])@ != key
}

/// `p` answers the request `requested` against the cached identifiers `cached`.
pub open spec fn is_partition(requested: Seq<String>, cached: Seq<String>, p: Partition) -> bool {
    let rows = p.rows@;
    let tc = p.to_compute@;
    &&& rows.len() == requested.len()
    &&& forall|a: int, b: int| 0 <= a < b < tc.len() ==> tc[a] < tc[b]
    &&& forall|m: int|
        0 <= m < tc.len() ==> #[trigger] tc[m] < requested.len() && rows[tc[m] as int]
            == RowSource::Computed(m as usize)
    &&& forall|k: int|
        0 <= k < requested.len() ==> match #[trigger] rows[k] {
            RowSource::Cached(ci) => first_index(cached, requested[k]@, ci as int),
            RowSource::Computed(m) => !listed(cached, requested[k]@) && m < tc.len() && tc[m as int]
                == k,
        }
}

/// `plan` is the store rebuilt from `cached` and the rows computed for `p`:
/// the cached entries first, unchanged, then the computed ones in request order.
pub open spec fn is_merged(
    requested: Seq<String>,
    cached: Seq<String>,
    p: Partition,
    plan: StorePlan,
) -> bool {
    let n = cached.len();
    let tc = p.to_compute@;
    &&& plan.identifiers@.len() == n + tc.len()
    &&& plan.rows@.len() == n + tc.len()
    &&& forall|k: int|
        0 <= k < n ==> (#[trigger] plan.identifiers@[k])@ == cached[k]@ && plan.rows@[k]
            == RowSource::Cached(k as usize)
    &&& forall|k: int|
        n <= k < n + tc.len() ==> (#[trigger] plan.identifiers@[k])@ == requested[tc[k - n] as int]@
            && plan.rows@[k] == RowSource::Computed((k - n) as usize)
}

/// The cache identifier of each path, its file name; `None` if some path has none.
pub fn identifiers(paths: &Vec<String>) -> (r: Option<Vec<String>>)
    ensures
        match r {
            Some(ids) => ids@.len() == paths@.len() && forall|k: int|
                0 <= k < ids@.len() ==> file_name_of(paths@[k]@) == Some(#[trigger] ids@[k]@),
            None => exists|k: int|
                0 <= k < paths@.len() && (#[trigger] file_name_of(paths@[k]@)) is None,
        },
{
    let mut ids: Vec<String> = Vec::new();
    let mut k: usize = 0;
    while k < paths.len()
        invariant
            k <= paths@.len(),
            ids@.len() == k,
            forall|a: int| 0 <= a < k ==> file_name_of(paths@[a]@) == Some(#[trigger] ids@[a]@),
        decreases paths@.len() - k,
    {
        match file_name(paths[k].as_str()) {
            Some(name) => ids.push(name),
            None => {
                assert(file_name_of(paths@[k as int]@) is None);
                return None;
            },
        }
        k += 1;
    }
    Some(ids)
}

/// Splits a request into the rows the cache holds and the positions to compute.
/// A cached identifier that occurs twice answers with its first row.
pub fn partition(requested: &Vec<String>, cached: &Vec<String>) -> (r: Partition)
    ensures
        is_partition(requested@, cached@, r),
{
    let mut index: StringHashMap<usize> = StringHashMap::new();
    let mut i: usize = 0;
    while i < cached.len()
        invariant
            i <= cached@.len(),
            forall|key: Seq<char>|
                #[trigger] index@.contains_key(key) ==> first_index(cached@, key, index@[key] as int),
            forall|m: int| 0 <= m < i ==> index@.contains_key((#[trigger] cached@[m])@),
            forall|key: Seq<char>| #[trigger] index@.contains_key(key) ==> index@[key] < i,
        decreases cached@.len() - i,
    {
        if !index.contains_key(cached[i].as_str()) {
            index.insert(cached[i].clone(), i);
        }
        i += 1;
    }
    let mut rows: Vec<RowSource> = Vec::new();
    let mut to_compute: Vec<usize> = Vec::new();
    let mut k: usize = 0;
    while k < requested.len()
        invariant
            k <= requested@.len(),
            forall|key: Seq<char>|
                #[trigger] index@.contains_key(key) ==> first_index(cached@, key, index@[key] as int),
            forall|m: int| 0 <= m < cached@.len() ==> index@.contains_key((#[trigger] cached@[m])@),
            rows@.len() == k,
            forall|a: int, b: int| 0 <= a < b < to_compute@.len() ==> to_compute@[a] < to_compute@[b],
            forall|m: int|
                0 <= m < to_compute@.len() ==> #[trigger] to_compute@[m] < k && rows@[to_compute@[m] as int]
                    == RowSource::Computed(m as usize),
            forall|a: int|
                0 <= a < k ==> match #[trigger] rows@[a] {
                    RowSource::Cached(ci) => first_index(cached@, requested@[a]@, ci as int),
                    RowSource::Computed(m) => !listed(cached@, requested@[a]@) && m
                        < to_compute@.len() && to_compute@[m as int] == a,
                },
        decreases requested@.len() - k,
    {
        let key = requested[k].as_str();
        match index.get(key) {
            Some(ci) => {
                rows.push(RowSource::Cached(*ci));
            },
            None => {
                proof {
                    assert forall|m: int| 0 <= m < cached@.len() implies (#[trigger] cached@[m])@
                        != requested@[k as int]@ by {
                        assert(index@.contains_key(cached@[m]@));
                    }
                }
                rows.push(RowSource::Computed(to_compute.len()));
                to_compute.push(k);
            },
        }
        k += 1;
    }
    Partition { rows, to_compute }
}

/// Rebuilds the store after the rows of `part` were computed: every cached
/// entry, then each computed identifier in request order.
pub fn merge_store(requested: &Vec<String>, cached: &Vec<String>, part: &Partition) -> (r:
    StorePlan)
    requires
        is_partition(requested@, cached@, *part),
    ensures
        is_merged(requested@, cached@, *part, r),
{
    let mut identifiers: Vec<String> = Vec::new();
    let mut rows: Vec<RowSource> = Vec::new();
    let mut k: usize = 0;
    while k < cached.len()
        invariant
            k <= cached@.len(),
            identifiers@.len() == k,
            rows@.len() == k,
            forall|a: int|
                0 <= a < k ==> (#[trigger] identifiers@[a])@ == cached@[a]@ && rows@[a]
                    == RowSource::Cached(a as usize),
        decreases cached@.len() - k,
    {
        identifiers.push(cached[k].clone());
        rows.push(RowSource::Cached(k));
        k += 1;
    }
    let n = cached.len();
    let mut m: usize = 0;
    while m < part.to_compute.len()
        invariant
            forall|b: int|
                0 <= b < part.to_compute@.len() ==> #[trigger] part.to_compute@[b]
                    < requested@.len(),
            n == cached@.len(),
            m <= part.to_compute@.len(),
            identifiers@.len() == n + m,
            rows@.len() == n + m,
            forall|a: int|
                0 <= a < n ==> (#[trigger] identifiers@[a])@ == cached@[a]@ && rows@[a]
                    == RowSource::Cached(a as usize),
            forall|b: int|
                n <= b < n + m ==> (#[trigger] identifiers@[b])@
                    == requested@[part.to_compute@[b - n] as int]@ && rows@[b]
                    == RowSource::Computed((b - n) as usize),
        decreases part.to_compute@.len() - m,
    {
        let pos = part.to_compute[m];
        let ghost ids0 = identifiers@;
        let ghost rows0 = rows@;
        identifiers.push(requested[pos].clone());
        rows.push(RowSource::Computed(m));
        proof {
            assert forall|a: int| 0 <= a < n implies (#[trigger] identifiers@[a])@ == cached@[a]@
                && rows@[a] == RowSource::Cached(a as usize) by {
                assert(identifiers@[a] == ids0[a]);
                assert(rows@[a] == rows0[a]);
            }
            assert forall|b: int| n <= b < n + m + 1 implies (#[trigger] identifiers@[b])@
                == requested@[part.to_compute@[b - n] as int]@ && rows@[b]
                == RowSource::Computed((b - n) as usize) by {
                if b < n + m {
                    assert(identifiers@[b] == ids0[b]);
                    assert(rows@[b] == rows0[b]);
                }
            }
        }
        m += 1;
    }
    let r = StorePlan { identifiers, rows };
    proof {
        // Restates the loop invariants over `r`, whose fields the postcondition names.
        assert(forall|k: int|
            0 <= k < n ==> (#[trigger] r.identifiers@[k])@ == cached@[k]@ && r.rows@[k]
                == RowSource::Cached(k as usize));
        assert(forall|k: int|
            n <= k < n + part.to_compute@.len() ==> (#[trigger] r.identifiers@[k])@
                == requested@[part.to_compute@[k - n] as int]@ && r.rows@[k]
                == RowSource::Computed((k - n) as usize));
    }
    r
}

/// A persisted store is usable only if it has as many identifiers as rows.
pub fn check_store(n_identifiers: usize, n_rows: usize) -> (r: Result<(), DedupError>)
    ensures
        n_identifiers == n_rows ==> r == Ok::<(), DedupError>(()),
        n_identifiers != n_rows ==> r == Err::<(), DedupError>(DedupError::CacheCorrupt),
{
    if n_identifiers == n_rows {
        Ok(())
    } else {
        Err(DedupError::CacheCorrupt)
    }
}

/// Cached rows may be mixed with fresh ones only if their dimensions agree; an
/// empty cache agrees with any dimension.
pub fn check_dimension(n_cached: usize, cached_dim: usize, fresh_dim: usize) -> (r: Result<
    (),
    DedupError,
>)
    ensures
        n_cached == 0 || cached_dim == fresh_dim ==> r == Ok::<(), DedupError>(()),
        n_cached > 0 && cached_dim != fresh_dim ==> r == Err::<(), DedupError>(
            DedupError::DimensionMismatch,
        ),
{
    if n_cached > 0 && cached_dim != fresh_dim {
        Err(DedupError::DimensionMismatch)
    } else {
        Ok(())
    }
}

/// Once the missing rows of a request are computed and merged into the store,
/// the same request against the rebuilt store needs nothing computed.
pub proof fn lemma_round_trip(
    requested: Seq<String>,
    cached: Seq<String>,
    first: Partition,
    plan: StorePlan,
    second: Partition,
)
    requires
        is_partition(requested, cached, first),
        is_merged(requested, cached, first, plan),
        is_partition(requested, plan.identifiers@, second),
    ensures
        second.to_compute@.len() == 0,
{
    if second.to_compute@.len() > 0 {
        let k = second.to_compute@[0] as int;
        assert(second.rows@[k] == RowSource::Computed(0));
        let ids = plan.identifiers@;
        match first.rows@[k] {
            RowSource::Cached(ci) => {
                assert(ids[ci as int]@ == requested[k]@);
            },
            RowSource::Computed(m) => {
                let at = cached.len() + m;
                assert(ids[at]@ == requested[k]@);
            },
        }
        assert(listed(ids, requested[k]@));
    }
}

/// A request whose identifiers are all cached computes nothing, and the store
/// rebuilt after it is the cached store unchanged.
pub proof fn lemma_cached_request_keeps_store(
    requested: Seq<String>,
    cached: Seq<String>,
    p: Partition,
    plan: StorePlan,
)
    requires
        is_partition(requested, cached, p),
        is_merged(requested, cached, p, plan),
        forall|k: int| 0 <= k < requested.len() ==> listed(cached, #[trigger] requested[k]@),
    ensures
        p.to_compute@.len() == 0,
        plan.identifiers@.len() == cached.len(),
        forall|k: int|
            0 <= k < cached.len() ==> (#[trigger] plan.identifiers@[k])@ == cached[k]@
                && plan.rows@[k] == RowSource::Cached(k as usize),
{
    if p.to_compute@.len() > 0 {
        let k = p.to_compute@[0] as int;
        assert(p.rows@[k] == RowSource::Computed(0));
        assert(listed(cached, requested[k]@));
    }
}

/// When the requested identifiers are distinct, a second run of the same
/// request against the rebuilt store takes every row from the store, and that
/// store row holds what the first run gave the same position: the second run
/// yields the same embedding matrix.
pub proof fn lemma_second_run_same_rows(
    requested: Seq<String>,
    cached: Seq<String>,
    first: Partition,
    plan: StorePlan,
    second: Partition,
)
    requires
        is_partition(requested, cached, first),
        is_merged(requested, cached, first, plan),
        is_partition(requested, plan.identifiers@, second),
        forall|a: int, b: int|
            0 <= a < b < requested.len() ==> (#[trigger] requested[a])@ != (#[trigger] requested[b])@,
    ensures
        forall|k: int|
            0 <= k < requested.len() ==> match #[trigger] second.rows@[k] {
                RowSource::Cached(c) => plan.rows@[c as int] == first.rows@[k],
                RowSource::Computed(_) => false,
            },
{
    lemma_round_trip(requested, cached, first, plan, second);
    let ids = plan.identifiers@;
    let n = cached.len() as int;
    let tc = first.to_compute@;
    assert forall|k: int| 0 <= k < requested.len() implies match #[trigger] second.rows@[k] {
        RowSource::Cached(c) => plan.rows@[c as int] == first.rows@[k],
        RowSource::Computed(_) => false,
    } by {
        let key = requested[k]@;
        let e: int = match first.rows@[k] {
            RowSource::Cached(ci) => ci as int,
            RowSource::Computed(m) => n + m,
        };
        match first.rows@[k] {
            RowSource::Cached(ci) => {
                assert(ids[ci as int]@ == cached[ci as int]@);
                assert forall|x: int| 0 <= x < e implies (#[trigger] ids[x])@ != key by {
                    assert(ids[x]@ == cached[x]@);
                }
            },
            RowSource::Computed(m) => {
                assert(ids[n + m]@ == requested[tc[m as int] as int]@);
                assert forall|x: int| 0 <= x < e implies (#[trigger] ids[x])@ != key by {
                    if x < n {
                        assert(ids[x]@ == cached[x]@);
                    } else {
                        assert(ids[x]@ == requested[tc[x - n] as int]@);
                        assert(tc[x - n] < tc[m as int]);
                        let a = tc[x - n] as int;
                        assert(requested[a]@ != requested[k]@);
                    }
                }
            },
        }
        assert(first_index(ids, key, e));
        match second.rows@[k] {
            RowSource::Cached(c) => {
                assert(first_index(ids, key, c as int));
                if (c as int) < e {
                    assert(ids[c as int]@ != key);
                }
                if e < (c as int) {
                    assert(ids[e]@ != key);
                }
                assert(c as int == e);
            },
            RowSource::Computed(m) => {
                assert(m < second.to_compute@.len());
            },
        }
    }
}

} // verus!
