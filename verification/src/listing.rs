//! The orders in which notes are listed, and the choice of the rows that a
//! bounded listing shows.

use vstd::prelude::*;

use crate::note::{stored_views, StoredNote, StoredView};
use crate::text::{lowercased, to_lowercase};
use crate::timestamp::Timestamp;

verus! {

/// The number of notes that a listing shows when no limit is configured.
pub const DEFAULT_LIMIT: i64 = 10;

/// The order of a listing.
#[derive(Debug, Clone, Copy, PartialEq, Eq, Structural)]
pub enum ListOrder {
    /// Highest identifier first.
    IdDescending,
    /// Most recently created first.
    CreatedDescending,
    /// Most recently modified first; notes never modified come last.
    ModifiedDescending,
    /// Lowest identifier first.
    IdAscending,
}

/// Whether modification time `p` is earlier than `q`. A note never modified
/// counts as earlier than every modified one.
pub open spec fn modified_earlier(p: Option<Timestamp>, q: Option<Timestamp>) -> bool {
    match (p, q) {
        (None, Some(_)) => true,
        (Some(x), Some(y)) => x.earlier_than(&y),
        _ => false,
    }
}

/// Whether the row at `a` is listed before the row at `b`. Rows that the
/// order does not tell apart keep their table order.
pub open spec fn ranks_before(rows: Seq<StoredView>, a: int, b: int, order: ListOrder) -> bool {
    let x = rows[a];
    let y = rows[b];
    match order {
        ListOrder::IdDescending => x.id > y.id || (x.id == y.id && a < b),
        ListOrder::IdAscending => x.id < y.id || (x.id == y.id && a < b),
        ListOrder::CreatedDescending => y.created_at.earlier_than(&x.created_at) || (
        !x.created_at.earlier_than(&y.created_at) && a < b),
        ListOrder::ModifiedDescending => modified_earlier(y.modified_at, x.modified_at) || (
        !modified_earlier(x.modified_at, y.modified_at) && a < b),
    }
}

/// Whether `picks` names the first `count` rows of the listing, in order:
/// each pick is listed before the picks behind it and before every row that
/// was not picked.
pub open spec fn is_listing(
    rows: Seq<StoredView>,
    order: ListOrder,
    count: int,
    picks: Seq<int>,
) -> bool {
    &&& picks.len() == count
    &&& forall|i: int| 0 <= i < picks.len() ==> 0 <= #[trigger] picks[i] < rows.len()
    &&& forall|i: int, j: int|
        0 <= i < j < picks.len() ==> ranks_before(rows, picks[i], picks[j], order)
    &&& forall|i: int, k: int|
        #![trigger ranks_before(rows, picks[i], k, order)]
        0 <= i < picks.len() && 0 <= k < rows.len() && !picks.contains(k) ==> ranks_before(
            rows,
            picks[i],
            k,
            order,
        )
}

/// No two rows are listed before each other, and none before itself.
pub proof fn lemma_rank_is_one_way(rows: Seq<StoredView>, a: int, b: int, order: ListOrder)
    ensures
        !(ranks_before(rows, a, b, order) && ranks_before(rows, b, a, order)),
{
}

/// Two listings of the same rows agree on their first `i` picks.
proof fn lemma_listings_agree(
    rows: Seq<StoredView>,
    order: ListOrder,
    count: int,
    first: Seq<int>,
    second: Seq<int>,
    i: int,
)
    requires
        is_listing(rows, order, count, first),
        is_listing(rows, order, count, second),
        0 <= i <= count,
    ensures
        forall|j: int| 0 <= j < i ==> first[j] == second[j],
    decreases i,
{
    if i > 0 {
        lemma_listings_agree(rows, order, count, first, second, i - 1);
        let x = first[i - 1];
        let y = second[i - 1];
        if x != y {
            lemma_comes_first(rows, order, count, first, second, i - 1);
            lemma_comes_first(rows, order, count, second, first, i - 1);
            lemma_rank_is_one_way(rows, x, y, order);
        }
    }
}

/// Where two listings agree before place `i` and differ at it, the pick of
/// the second is listed before the pick of the first.
proof fn lemma_comes_first(
    rows: Seq<StoredView>,
    order: ListOrder,
    count: int,
    first: Seq<int>,
    second: Seq<int>,
    i: int,
)
    requires
        is_listing(rows, order, count, first),
        is_listing(rows, order, count, second),
        0 <= i < count,
        forall|j: int| 0 <= j < i ==> first[j] == second[j],
        first[i] != second[i],
    ensures
        ranks_before(rows, second[i], first[i], order),
{
    let x = first[i];
    if second.contains(x) {
        let j = choose|j: int| 0 <= j < second.len() && second[j] == x;
        if j < i {
            assert(first[j] == x);
            assert(ranks_before(rows, first[j], first[i], order));
            lemma_rank_is_one_way(rows, x, x, order);
        }
        assert(ranks_before(rows, second[i], second[j], order));
    } else {
        assert(0 <= first[i] < rows.len());
        assert(ranks_before(rows, second[i], x, order));
    }
}

/// The rows and the order settle the listing: there is only one.
pub proof fn lemma_listing_is_unique(
    rows: Seq<StoredView>,
    order: ListOrder,
    count: int,
    first: Seq<int>,
    second: Seq<int>,
)
    requires
        is_listing(rows, order, count, first),
        is_listing(rows, order, count, second),
    ensures
        first == second,
{
    lemma_listings_agree(rows, order, count, first, second, count);
    assert(first =~= second);
}

/// The rows that the picks name, in the picks' order.
pub open spec fn picked_rows(rows: Seq<StoredView>, picks: Seq<int>) -> Seq<StoredView> {
    picks.map_values(|k: int| rows[k])
}

/// The picks as mathematical integers.
pub open spec fn as_ints(picks: Seq<usize>) -> Seq<int> {
    picks.map_values(|k: usize| k as int)
}

/// The number of rows that a listing of `len` rows shows under a limit: ten
/// where none is configured, all of them under a negative limit.
pub open spec fn shown_count(limit: Option<i64>, len: int) -> int {
    let bound = match limit {
        Some(n) => n,
        None => DEFAULT_LIMIT,
    };
    if bound < 0 || bound >= len {
        len
    } else {
        bound as int
    }
}

impl ListOrder {
    /// The order that a field name selects, letter case aside; `None` for a
    /// name that selects none.
    pub open spec fn of_name(name: Seq<char>) -> Option<ListOrder> {
        let lower = lowercased(name);
        if lower == "id"@ {
            Some(ListOrder::IdDescending)
        } else if lower == "createdat"@ {
            Some(ListOrder::CreatedDescending)
        } else if lower == "modifiedat"@ {
            Some(ListOrder::ModifiedDescending)
        } else {
            None
        }
    }

    /// The order that a configured field name selects: descending by
    /// creation time where no name is configured or the name selects none.
    pub open spec fn resolved(name: Option<Seq<char>>) -> ListOrder {
        match name {
            Some(n) => match ListOrder::of_name(n) {
                Some(order) => order,
                None => ListOrder::CreatedDescending,
            },
            None => ListOrder::CreatedDescending,
        }
    }

    /// Reads a field name: `id`, `createdAt` or `modifiedAt`, in any letter
    /// case. `None` tells the caller that the name selects no order.
    pub fn from_name(name: &str) -> (res: Option<ListOrder>)
        ensures
            res == ListOrder::of_name(name@),
    {
        let lower = to_lowercase(name);
        if lower == "id".to_owned() {
            Some(ListOrder::IdDescending)
        } else if lower == "createdat".to_owned() {
            Some(ListOrder::CreatedDescending)
        } else if lower == "modifiedat".to_owned() {
            Some(ListOrder::ModifiedDescending)
        } else {
            None
        }
    }
}

/// The number of rows to show out of `len` under a limit.
pub fn count_shown(limit: Option<i64>, len: usize) -> (count: usize)
    ensures
        count == shown_count(limit, len as int),
        count <= len,
{
    let bound: i64 = match limit {
        Some(n) => n,
        None => DEFAULT_LIMIT,
    };
    if bound < 0 {
        len
    } else if (bound as u64) >= (len as u64) {
        len
    } else {
        bound as usize
    }
}

/// Whether modification time `p` is earlier than `q`.
fn is_modified_earlier(p: &Option<Timestamp>, q: &Option<Timestamp>) -> (res: bool)
    ensures
        res == modified_earlier(*p, *q),
{
    match (p, q) {
        (None, Some(_)) => true,
        (Some(x), Some(y)) => x.is_before(y),
        _ => false,
    }
}

/// Whether the row at `a` is listed before the row at `b`.
fn is_ranked_before(rows: &Vec<StoredNote>, a: usize, b: usize, order: ListOrder) -> (res: bool)
    requires
        a < rows@.len(),
        b < rows@.len(),
    ensures
        res == ranks_before(stored_views(rows@), a as int, b as int, order),
{
    let x = &rows[a];
    let y = &rows[b];
    match order {
        ListOrder::IdDescending => x.id > y.id || (x.id == y.id && a < b),
        ListOrder::IdAscending => x.id < y.id || (x.id == y.id && a < b),
        ListOrder::CreatedDescending => y.created_at.is_before(&x.created_at) || (
        !x.created_at.is_before(&y.created_at) && a < b),
        ListOrder::ModifiedDescending => is_modified_earlier(&y.modified_at, &x.modified_at) || (
        !is_modified_earlier(&x.modified_at, &y.modified_at) && a < b),
    }
}

/// Picks the first `count` rows of the listing, in order; all rows where
/// there are fewer.
pub fn listing_order(rows: &Vec<StoredNote>, order: ListOrder, count: usize) -> (picks: Vec<usize>)
    ensures
        is_listing(
            stored_views(rows@),
            order,
            if count <= rows@.len() {
                count as int
            } else {
                rows@.len() as int
            },
            as_ints(picks@),
        ),
        forall|i: int| 0 <= i < picks@.len() ==> picks@[i] < rows@.len(),
{
    let ghost views = stored_views(rows@);
    let n = rows.len();
    let count = if count <= n {
        count
    } else {
        n
    };
    let mut pool: Vec<usize> = Vec::new();
    let mut k: usize = 0;
    while k < n
        invariant
            k <= n,
            n == rows@.len(),
            pool@.len() == k,
            forall|p: int| 0 <= p < k ==> pool@[p] == p,
        decreases n - k,
    {
        pool.push(k);
        k += 1;
    }
    let mut picks: Vec<usize> = Vec::new();
    assert forall|k: usize| k < n implies #[trigger] pool@.contains(k) by {
        assert(pool@[k as int] == k);
    }
    while picks.len() < count
        invariant
            n == rows@.len(),
            views == stored_views(rows@),
            count <= n,
            picks@.len() <= count,
            pool@.len() + picks@.len() == n,
            forall|p: int| 0 <= p < pool@.len() ==> pool@[p] < n,
            forall|p: int, q: int| 0 <= p < q < pool@.len() ==> pool@[p] < pool@[q],
            forall|i: int| 0 <= i < picks@.len() ==> picks@[i] < n,
            forall|k: usize|
                #![trigger pool@.contains(k)]
                k < n ==> pool@.contains(k) || picks@.contains(k),
            forall|i: int, j: int|
                0 <= i < j < picks@.len() ==> ranks_before(
                    views,
                    picks@[i] as int,
                    picks@[j] as int,
                    order,
                ),
            forall|i: int, p: int|
                0 <= i < picks@.len() && 0 <= p < pool@.len() ==> ranks_before(
                    views,
                    picks@[i] as int,
                    pool@[p] as int,
                    order,
                ),
        decreases count - picks@.len(),
    {
        let mut best: usize = 0;
        let mut p: usize = 1;
        while p < pool.len()
            invariant
                n == rows@.len(),
                views == stored_views(rows@),
                1 <= p <= pool@.len(),
                best < p,
                forall|q: int| 0 <= q < pool@.len() ==> pool@[q] < n,
                forall|q: int, r: int| 0 <= q < r < pool@.len() ==> pool@[q] < pool@[r],
                forall|q: int|
                    0 <= q < p && q != best ==> ranks_before(
                        views,
                        pool@[best as int] as int,
                        pool@[q] as int,
                        order,
                    ),
            decreases pool@.len() - p,
        {
            if is_ranked_before(rows, pool[p], pool[best], order) {
                best = p;
            }
            p += 1;
        }
        let ghost old_pool = pool@;
        let ghost old_picks = picks@;
        let chosen = pool.remove(best);
        picks.push(chosen);
        proof {
            assert forall|q: int| 0 <= q < pool@.len() implies pool@[q] < n && ranks_before(
                views,
                chosen as int,
                pool@[q] as int,
                order,
            ) by {
                let r = if q < best { q } else { q + 1 };
                assert(pool@[q] == old_pool[r]);
            }
            assert forall|q: int, r: int| 0 <= q < r < pool@.len() implies pool@[q] < pool@[r] by {
                let q0 = if q < best { q } else { q + 1 };
                let r0 = if r < best { r } else { r + 1 };
                assert(pool@[q] == old_pool[q0]);
                assert(pool@[r] == old_pool[r0]);
            }
            assert forall|k: usize| k < n implies #[trigger] pool@.contains(k) || picks@.contains(
                k,
            ) by {
                assert(old_pool.contains(k) || old_picks.contains(k));
                if old_picks.contains(k) {
                    let i = choose|i: int| 0 <= i < old_picks.len() && old_picks[i] == k;
                    assert(picks@[i] == k);
                } else {
                    let q = choose|q: int| 0 <= q < old_pool.len() && old_pool[q] == k;
                    if q == best {
                        assert(picks@[old_picks.len() as int] == k);
                    } else {
                        let r = if q < best { q } else { q - 1 };
                        assert(pool@[r] == old_pool[q]);
                    }
                }
            }
            assert forall|i: int, j: int| 0 <= i < j < picks@.len() implies ranks_before(
                views,
                picks@[i] as int,
                picks@[j] as int,
                order,
            ) by {
                if j == old_picks.len() {
                    assert(picks@[i] == old_picks[i]);
                    assert(picks@[j] == old_pool[best as int]);
                } else {
                    assert(picks@[i] == old_picks[i]);
                    assert(picks@[j] == old_picks[j]);
                }
            }
            assert forall|i: int, q: int|
                0 <= i < picks@.len() && 0 <= q < pool@.len() implies ranks_before(
                views,
                picks@[i] as int,
                pool@[q] as int,
                order,
            ) by {
                let r = if q < best { q } else { q + 1 };
                assert(pool@[q] == old_pool[r]);
                if i < old_picks.len() {
                    assert(picks@[i] == old_picks[i]);
                }
            }
        }
    }
    proof {
        let ints = as_ints(picks@);
        assert forall|i: int, k: int|
            #![trigger ranks_before(views, ints[i], k, order)]
            0 <= i < ints.len() && 0 <= k < views.len() && !ints.contains(k) implies ranks_before(
            views,
            ints[i],
            k,
            order,
        ) by {
            let ku = k as usize;
            assert(pool@.contains(ku) || picks@.contains(ku));
            if picks@.contains(ku) {
                let j = choose|j: int| 0 <= j < picks@.len() && picks@[j] == ku;
                assert(ints[j] == k);
            }
            let q = choose|q: int| 0 <= q < pool@.len() && pool@[q] == ku;
            assert(ranks_before(views, picks@[i] as int, pool@[q] as int, order));
        }
    }
    picks
}

} // verus!
