use vstd::prelude::*;
use crate::record::{ContainerRecord, RuntimeContainer};

verus! {

/// Name of the container that collects the logs; it is never removed.
pub const LOGS_CONTAINER: &'static str = "logs_managerr";

/// The same name as the runtime lists it, with its leading slash.
pub const LOGS_CONTAINER_LISTED: &'static str = "/logs_managerr";

pub open spec fn reserved_name(n: Seq<char>) -> bool {
    n == "logs_managerr"@ || n == "/logs_managerr"@
}

/// Some name of the list is the reserved one.
pub open spec fn names_reserved(names: Seq<String>) -> bool {
    exists|j: int| 0 <= j < names.len() && reserved_name(#[trigger] names[j]@)
}

/// The runtime lists a container with identifier `id` under the reserved name.
pub open spec fn listed_reserved(listing: Seq<RuntimeContainer>, id: Seq<char>) -> bool {
    exists|k: int|
        0 <= k < listing.len() && (#[trigger] listing[k]).id@ == id && names_reserved(
            listing[k].names@,
        )
}

/// A record that must never be removed: the logs container, known by its own
/// name or by the name under which the runtime lists its identifier.
pub open spec fn is_reserved(rec: ContainerRecord, listing: Seq<RuntimeContainer>) -> bool {
    reserved_name(rec.name@) || listed_reserved(listing, rec.container_id@)
}

fn is_reserved_name(n: &String) -> (r: bool)
    ensures
        r == reserved_name(n@),
{
    let plain = LOGS_CONTAINER.to_owned();
    let listed = LOGS_CONTAINER_LISTED.to_owned();
    *n == plain || *n == listed
}

fn any_name_reserved(names: &Vec<String>) -> (r: bool)
    ensures
        r == names_reserved(names@),
{
    let mut j: usize = 0;
    while j < names.len()
        invariant
            j <= names@.len(),
            forall|t: int| 0 <= t < j ==> !reserved_name(#[trigger] names@[t]@),
        decreases names@.len() - j,
    {
        if is_reserved_name(&names[j]) {
            return true;
        }
        j = j + 1;
    }
    false
}

/// Whether a record is the logs container, by its name or by the runtime's listing.
pub fn is_reserved_record(rec: &ContainerRecord, listing: &Vec<RuntimeContainer>) -> (r: bool)
    ensures
        r == is_reserved(*rec, listing@),
{
    if is_reserved_name(&rec.name) {
        return true;
    }
    let mut k: usize = 0;
    while k < listing.len()
        invariant
            k <= listing@.len(),
            forall|t: int|
                0 <= t < k ==> !((#[trigger] listing@[t]).id@ == rec.container_id@
                    && names_reserved(listing@[t].names@)),
        decreases listing@.len() - k,
    {
        if listing[k].id == rec.container_id && any_name_reserved(&listing[k].names) {
            return true;
        }
        k = k + 1;
    }
    false
}

/// The positions of `group` whose record may be removed, in the order of `group`,
/// taken from its first `n` entries.
pub open spec fn eligible(
    recs: Seq<ContainerRecord>,
    listing: Seq<RuntimeContainer>,
    group: Seq<usize>,
    n: int,
) -> Seq<usize>
    decreases n,
{
    if n <= 0 {
        Seq::empty()
    } else if is_reserved(recs[group[n - 1] as int], listing) {
        eligible(recs, listing, group, n - 1)
    } else {
        eligible(recs, listing, group, n - 1).push(group[n - 1])
    }
}

/// The candidates of a group: its records but the reserved one.
pub open spec fn pool_of(
    recs: Seq<ContainerRecord>,
    listing: Seq<RuntimeContainer>,
    group: Seq<usize>,
) -> Seq<usize> {
    eligible(recs, listing, group, group.len() as int)
}

/// Record `a` comes before record `b`: a higher process ID first, and for equal
/// process IDs the earlier position first, as a stable sort keeps them.
pub open spec fn precedes(recs: Seq<ContainerRecord>, a: usize, b: usize) -> bool {
    recs[a as int].pid > recs[b as int].pid || (recs[a as int].pid == recs[b as int].pid && a < b)
}

pub open spec fn sorted_by_pid(recs: Seq<ContainerRecord>, r: Seq<usize>) -> bool {
    forall|i: int, j: int| 0 <= i < j < r.len() ==> precedes(recs, #[trigger] r[i], #[trigger] r[j])
}

/// `r` holds the positions of `pool`, each once, from the newest process down.
pub open spec fn is_ranking(recs: Seq<ContainerRecord>, pool: Seq<usize>, r: Seq<usize>) -> bool {
    &&& r.len() == pool.len()
    &&& forall|x: usize| #[trigger] r.contains(x) <==> pool.contains(x)
    &&& sorted_by_pid(recs, r)
}

/// The positions of `pool` ordered by process ID, highest first.
pub open spec fn ranked(recs: Seq<ContainerRecord>, pool: Seq<usize>) -> Seq<usize> {
    choose|r: Seq<usize>| is_ranking(recs, pool, r)
}

/// The stale records of a group: all candidates but the first of the ranking.
pub open spec fn stale_of(
    recs: Seq<ContainerRecord>,
    listing: Seq<RuntimeContainer>,
    group: Seq<usize>,
) -> Seq<usize> {
    let r = ranked(recs, pool_of(recs, listing, group));
    if r.len() == 0 {
        Seq::empty()
    } else {
        r.drop_first()
    }
}

pub open spec fn distinct(s: Seq<usize>) -> bool {
    forall|i: int, j: int| 0 <= i < j < s.len() ==> s[i] != s[j]
}

pub open spec fn positions_in(s: Seq<usize>, n: int) -> bool {
    forall|i: int| 0 <= i < s.len() ==> (#[trigger] s[i]) < n
}


/// What `eligible` keeps: group entries whose record is not reserved, without
/// repetition when the group has none.
pub proof fn lemma_eligible(
    recs: Seq<ContainerRecord>,
    listing: Seq<RuntimeContainer>,
    group: Seq<usize>,
    n: int,
)
    requires
        0 <= n <= group.len(),
    ensures
        forall|x: usize|
            #[trigger] eligible(recs, listing, group, n).contains(x) <==> exists|k: int|
                0 <= k < n && group[k] == x && !is_reserved(recs[x as int], listing),
        eligible(recs, listing, group, n).len() <= n,
        distinct(group) ==> distinct(eligible(recs, listing, group, n)),
    decreases n,
{
    if n > 0 {
        lemma_eligible(recs, listing, group, n - 1);
        let prev = eligible(recs, listing, group, n - 1);
        let cur = eligible(recs, listing, group, n);
        assert forall|x: usize| #[trigger] cur.contains(x) <==> exists|k: int|
            0 <= k < n && group[k] == x && !is_reserved(recs[x as int], listing) by {
            if cur.contains(x) {
                if prev.contains(x) {
                    let k = choose|k: int|
                        0 <= k < n - 1 && group[k] == x && !is_reserved(recs[x as int], listing);
                    assert(0 <= k < n && group[k] == x);
                } else {
                    let t = choose|t: int| 0 <= t < cur.len() && cur[t] == x;
                    assert(t == prev.len());
                    assert(group[n - 1] == x);
                }
            }
            if exists|k: int| 0 <= k < n && group[k] == x && !is_reserved(recs[x as int], listing) {
                let k = choose|k: int|
                    0 <= k < n && group[k] == x && !is_reserved(recs[x as int], listing);
                if k < n - 1 {
                    assert(prev.contains(x));
                    let t = choose|t: int| 0 <= t < prev.len() && prev[t] == x;
                    assert(cur[t] == x);
                } else {
                    assert(cur[cur.len() - 1] == x);
                }
            }
        }
        if distinct(group) && !is_reserved(recs[group[n - 1] as int], listing) {
            assert forall|i: int, j: int| 0 <= i < j < cur.len() implies cur[i] != cur[j] by {
                if j == cur.len() - 1 {
                    assert(prev.contains(cur[i]));
                }
            }
        }
    }
}

/// The entries of `group` that may be removed, in group order.
pub fn candidates(
    recs: &Vec<ContainerRecord>,
    listing: &Vec<RuntimeContainer>,
    group: &Vec<usize>,
) -> (r: Vec<usize>)
    requires
        positions_in(group@, recs@.len() as int),
    ensures
        r@ == pool_of(recs@, listing@, group@),
{
    let mut r: Vec<usize> = Vec::new();
    let mut k: usize = 0;
    while k < group.len()
        invariant
            k <= group@.len(),
            positions_in(group@, recs@.len() as int),
            r@ == eligible(recs@, listing@, group@, k as int),
        decreases group@.len() - k,
    {
        let g = group[k];
        if !is_reserved_record(&recs[g], listing) {
            r.push(g);
        }
        k = k + 1;
    }
    r
}

fn before(recs: &Vec<ContainerRecord>, a: usize, b: usize) -> (r: bool)
    requires
        a < recs@.len(),
        b < recs@.len(),
    ensures
        r == precedes(recs@, a, b),
{
    let pa = recs[a].pid;
    let pb = recs[b].pid;
    pa > pb || (pa == pb && a < b)
}

/// Putting `x` after every entry that precedes it and before the rest keeps a
/// ranking sorted.
proof fn lemma_insert_sorted(recs: Seq<ContainerRecord>, r: Seq<usize>, x: usize, p: int)
    requires
        0 <= p <= r.len(),
        sorted_by_pid(recs, r),
        forall|k: int| 0 <= k < p ==> precedes(recs, #[trigger] r[k], x),
        p < r.len() ==> precedes(recs, x, r[p]),
    ensures
        sorted_by_pid(recs, r.insert(p, x)),
{
    let s = r.insert(p, x);
    assert forall|i: int, j: int| 0 <= i < j < s.len() implies precedes(
        recs,
        #[trigger] s[i],
        #[trigger] s[j],
    ) by {
        if i < p && j < p {
            assert(precedes(recs, r[i], r[j]));
        } else if i < p && j == p {
        } else if i < p {
            assert(precedes(recs, r[i], r[j - 1]));
        } else if i == p {
            if j - 1 > p {
                assert(precedes(recs, r[p], r[j - 1]));
            }
        } else {
            assert(precedes(recs, r[i - 1], r[j - 1]));
        }
    }
}

/// Orders the positions of `pool` by process ID, highest first; equal IDs keep
/// their order in `pool`.
pub fn rank_by_pid(recs: &Vec<ContainerRecord>, pool: &Vec<usize>) -> (r: Vec<usize>)
    requires
        positions_in(pool@, recs@.len() as int),
        distinct(pool@),
    ensures
        is_ranking(recs@, pool@, r@),
{
    let mut r: Vec<usize> = Vec::new();
    let mut i: usize = 0;
    while i < pool.len()
        invariant
            i <= pool@.len(),
            positions_in(pool@, recs@.len() as int),
            distinct(pool@),
            r@.len() == i,
            forall|x: usize| #[trigger] r@.contains(x) <==> pool@.subrange(0, i as int).contains(x),
            positions_in(r@, recs@.len() as int),
            sorted_by_pid(recs@, r@),
        decreases pool@.len() - i,
    {
        let x = pool[i];
        assert(!r@.contains(x)) by {
            if r@.contains(x) {
                let sub = pool@.subrange(0, i as int);
                let t = choose|t: int| 0 <= t < sub.len() && sub[t] == x;
                assert(pool@[t] == pool@[i as int]);
            }
        }
        let mut p: usize = 0;
        while p < r.len() && !before(recs, x, r[p])
            invariant
                p <= r@.len(),
                x < recs@.len(),
                !r@.contains(x),
                positions_in(r@, recs@.len() as int),
                forall|k: int| 0 <= k < p ==> precedes(recs@, #[trigger] r@[k], x),
            decreases r@.len() - p,
        {
            assert(r@[p as int] != x);
            p = p + 1;
        }
        proof {
            lemma_insert_sorted(recs@, r@, x, p as int);
        }
        let ghost prev = r@;
        let ghost sub_prev = pool@.subrange(0, i as int);
        r.insert(p, x);
        i = i + 1;
        let ghost sub_now = pool@.subrange(0, i as int);
        assert forall|y: usize| #[trigger] r@.contains(y) <==> pool@.subrange(0, i as int).contains(
            y,
        ) by {
            if r@.contains(y) && y != x {
                let t = choose|t: int| 0 <= t < r@.len() && r@[t] == y;
                if t < p {
                    assert(prev[t] == y);
                } else {
                    assert(prev[t - 1] == y);
                }
                assert(prev.contains(y));
                let u = choose|u: int| 0 <= u < sub_prev.len() && sub_prev[u] == y;
                assert(sub_now[u] == y);
            }
            if y == x {
                assert(r@[p as int] == x);
                assert(sub_now[i - 1] == x);
            }
            if pool@.subrange(0, i as int).contains(y) && y != x {
                let u = choose|u: int| 0 <= u < sub_now.len() && sub_now[u] == y;
                assert(sub_prev[u] == y);
                assert(prev.contains(y));
                let t = choose|t: int| 0 <= t < prev.len() && prev[t] == y;
                if t < p {
                    assert(r@[t] == y);
                } else {
                    assert(r@[t + 1] == y);
                }
            }
        }
        assert forall|k: int| 0 <= k < r@.len() implies (#[trigger] r@[k]) < recs@.len() by {
            if k < p {
                assert(r@[k] == prev[k]);
            } else if k > p {
                assert(r@[k] == prev[k - 1]);
            }
        }
    }
    assert(pool@.subrange(0, pool@.len() as int) == pool@);
    r
}

/// Two rankings of the same positions are the same sequence.
pub proof fn lemma_ranking_unique(recs: Seq<ContainerRecord>, a: Seq<usize>, b: Seq<usize>)
    requires
        a.len() == b.len(),
        forall|x: usize| #[trigger] a.contains(x) <==> b.contains(x),
        sorted_by_pid(recs, a),
        sorted_by_pid(recs, b),
    ensures
        a == b,
    decreases a.len(),
{
    if a.len() == 0 {
        assert(a =~= b);
    } else {
        assert(a[0] == a[0] && a.contains(a[0]));
        assert(b[0] == b[0] && b.contains(b[0]));
        assert(b.contains(a[0]));
        assert(a.contains(b[0]));
        let j = choose|j: int| 0 <= j < b.len() && b[j] == a[0];
        let i = choose|i: int| 0 <= i < a.len() && a[i] == b[0];
        if i > 0 && j > 0 {
            assert(precedes(recs, a[0], a[i]));
            assert(precedes(recs, b[0], b[j]));
        }
        assert(a[0] == b[0]);
        let ta = a.drop_first();
        let tb = b.drop_first();
        assert(sorted_by_pid(recs, ta)) by {
            assert forall|p: int, q: int| 0 <= p < q < ta.len() implies precedes(
                recs,
                #[trigger] ta[p],
                #[trigger] ta[q],
            ) by {
                assert(precedes(recs, a[p + 1], a[q + 1]));
            }
        }
        assert(sorted_by_pid(recs, tb)) by {
            assert forall|p: int, q: int| 0 <= p < q < tb.len() implies precedes(
                recs,
                #[trigger] tb[p],
                #[trigger] tb[q],
            ) by {
                assert(precedes(recs, b[p + 1], b[q + 1]));
            }
        }
        assert forall|x: usize| #[trigger] ta.contains(x) <==> tb.contains(x) by {
            if ta.contains(x) {
                let p = choose|p: int| 0 <= p < ta.len() && ta[p] == x;
                assert(precedes(recs, a[0], a[p + 1]));
                assert(a.contains(x));
                let q = choose|q: int| 0 <= q < b.len() && b[q] == x;
                assert(q != 0);
                assert(tb[q - 1] == x);
            }
            if tb.contains(x) {
                let p = choose|p: int| 0 <= p < tb.len() && tb[p] == x;
                assert(precedes(recs, b[0], b[p + 1]));
                assert(b.contains(x));
                assert(a.contains(x));
                let q = choose|q: int| 0 <= q < a.len() && a[q] == x;
                assert(q != 0);
                assert(ta[q - 1] == x);
            }
        }
        lemma_ranking_unique(recs, ta, tb);
        assert(a =~= b) by {
            assert forall|k: int| 0 <= k < a.len() implies a[k] == b[k] by {
                if k > 0 {
                    assert(ta[k - 1] == tb[k - 1]);
                }
            }
        }
    }
}

/// Where `x` goes in the ranking `r`: before the first entry it precedes.
pub open spec fn insertion_point(recs: Seq<ContainerRecord>, r: Seq<usize>, x: usize) -> int
    decreases r.len(),
{
    if r.len() == 0 {
        0
    } else if precedes(recs, x, r[0]) {
        0
    } else {
        1 + insertion_point(recs, r.drop_first(), x)
    }
}

proof fn lemma_insertion_point(recs: Seq<ContainerRecord>, r: Seq<usize>, x: usize)
    requires
        !r.contains(x),
    ensures
        0 <= insertion_point(recs, r, x) <= r.len(),
        forall|k: int|
            0 <= k < insertion_point(recs, r, x) ==> precedes(recs, #[trigger] r[k], x),
        insertion_point(recs, r, x) < r.len() ==> precedes(
            recs,
            x,
            r[insertion_point(recs, r, x)],
        ),
    decreases r.len(),
{
    if r.len() > 0 && !precedes(recs, x, r[0]) {
        let t = r.drop_first();
        assert(!t.contains(x)) by {
            if t.contains(x) {
                let q = choose|q: int| 0 <= q < t.len() && t[q] == x;
                assert(r[q + 1] == x);
            }
        }
        lemma_insertion_point(recs, t, x);
        assert(r[0] != x);
        assert forall|k: int|
            0 <= k < insertion_point(recs, r, x) implies precedes(recs, #[trigger] r[k], x) by {
            if k > 0 {
                assert(r[k] == t[k - 1]);
            }
        }
    }
}

/// Every set of distinct positions has a ranking.
pub proof fn lemma_ranking_exists(recs: Seq<ContainerRecord>, pool: Seq<usize>) -> (r: Seq<usize>)
    requires
        distinct(pool),
    ensures
        is_ranking(recs, pool, r),
    decreases pool.len(),
{
    if pool.len() == 0 {
        let r = Seq::<usize>::empty();
        assert forall|x: usize| #[trigger] r.contains(x) <==> pool.contains(x) by {}
        r
    } else {
        let front = pool.drop_last();
        let x = pool.last();
        assert(distinct(front));
        let rest = lemma_ranking_exists(recs, front);
        assert(!rest.contains(x)) by {
            if rest.contains(x) {
                assert(front.contains(x));
                let q = choose|q: int| 0 <= q < front.len() && front[q] == x;
                assert(pool[q] == pool[pool.len() - 1]);
            }
        }
        lemma_insertion_point(recs, rest, x);
        let p = insertion_point(recs, rest, x);
        lemma_insert_sorted(recs, rest, x, p);
        let r = rest.insert(p, x);
        assert forall|y: usize| #[trigger] r.contains(y) <==> pool.contains(y) by {
            if r.contains(y) && y != x {
                let t = choose|t: int| 0 <= t < r.len() && r[t] == y;
                if t < p {
                    assert(rest[t] == y);
                } else {
                    assert(rest[t - 1] == y);
                }
                assert(rest.contains(y));
                let u = choose|u: int| 0 <= u < front.len() && front[u] == y;
                assert(pool[u] == y);
            }
            if y == x {
                assert(r[p] == x);
                assert(pool[pool.len() - 1] == x);
            }
            if pool.contains(y) && y != x {
                let u = choose|u: int| 0 <= u < pool.len() && pool[u] == y;
                assert(front[u] == y);
                assert(rest.contains(y));
                let t = choose|t: int| 0 <= t < rest.len() && rest[t] == y;
                if t < p {
                    assert(r[t] == y);
                } else {
                    assert(r[t + 1] == y);
                }
            }
        }
        r
    }
}

/// A ranking computed for `pool` is the one `ranked` names.
pub proof fn lemma_ranked_is(recs: Seq<ContainerRecord>, pool: Seq<usize>, r: Seq<usize>)
    requires
        is_ranking(recs, pool, r),
    ensures
        ranked(recs, pool) == r,
        is_ranking(recs, pool, ranked(recs, pool)),
{
    let q = ranked(recs, pool);
    assert(is_ranking(recs, pool, q));
    lemma_ranking_unique(recs, q, r);
}

/// The stale positions of one group: the candidates minus the newest one, from
/// the highest process ID down.
pub fn stale_in_group(
    recs: &Vec<ContainerRecord>,
    listing: &Vec<RuntimeContainer>,
    group: &Vec<usize>,
) -> (r: Vec<usize>)
    requires
        positions_in(group@, recs@.len() as int),
        distinct(group@),
    ensures
        r@ == stale_of(recs@, listing@, group@),
        positions_in(r@, recs@.len() as int),
{
    let pool = candidates(recs, listing, group);
    proof {
        lemma_eligible(recs@, listing@, group@, group@.len() as int);
        assert forall|i: int| 0 <= i < pool@.len() implies (#[trigger] pool@[i]) < recs@.len() by {
            assert(pool@.contains(pool@[i]));
        }
    }
    let mut ranking = rank_by_pid(recs, &pool);
    proof {
        lemma_ranked_is(recs@, pool@, ranking@);
        assert forall|i: int| 0 <= i < ranking@.len() implies (#[trigger] ranking@[i])
            < recs@.len() by {
            assert(ranking@.contains(ranking@[i]));
            assert(pool@.contains(ranking@[i]));
        }
    }
    if ranking.len() == 0 {
        ranking
    } else {
        ranking.remove(0);
        ranking
    }
}

/// The record kept in a group: the first of the ranking.
pub open spec fn current_of(
    recs: Seq<ContainerRecord>,
    listing: Seq<RuntimeContainer>,
    group: Seq<usize>,
) -> usize {
    ranked(recs, pool_of(recs, listing, group))[0]
}

/// In a group with candidates, exactly one is kept, the one with the highest
/// process ID, and the other `size - 1` are stale; a group with at most one
/// candidate has no stale record. Stale records are candidates, so the logs
/// container is never among them.
pub proof fn lemma_stale_selection(
    recs: Seq<ContainerRecord>,
    listing: Seq<RuntimeContainer>,
    group: Seq<usize>,
)
    requires
        distinct(group),
    ensures
        ({
            let pool = pool_of(recs, listing, group);
            let stale = stale_of(recs, listing, group);
            let cur = current_of(recs, listing, group);
            &&& pool.len() <= 1 ==> stale.len() == 0
            &&& pool.len() >= 1 ==> {
                &&& stale.len() == pool.len() - 1
                &&& pool.contains(cur)
                &&& !stale.contains(cur)
                &&& forall|x: usize| #[trigger]
                    pool.contains(x) ==> recs[x as int].pid <= recs[cur as int].pid
                &&& forall|x: usize| #[trigger]
                    stale.contains(x) <==> (pool.contains(x) && x != cur)
            }
            &&& forall|x: usize| #[trigger]
                stale.contains(x) ==> !is_reserved(recs[x as int], listing)
            &&& forall|x: usize| #[trigger]
                pool.contains(x) <==> (group.contains(x) && !is_reserved(recs[x as int], listing))
        }),
{
    let pool = pool_of(recs, listing, group);
    lemma_eligible(recs, listing, group, group.len() as int);
    let w = lemma_ranking_exists(recs, pool);
    lemma_ranked_is(recs, pool, w);
    let rk = ranked(recs, pool);
    let stale = stale_of(recs, listing, group);
    assert forall|x: usize| #[trigger]
        pool.contains(x) <==> (group.contains(x) && !is_reserved(recs[x as int], listing)) by {
        if group.contains(x) && !is_reserved(recs[x as int], listing) {
            let k = choose|k: int| 0 <= k < group.len() && group[k] == x;
            assert(exists|k: int|
                0 <= k < group.len() && group[k] == x && !is_reserved(recs[x as int], listing));
        }
        if pool.contains(x) {
            let k = choose|k: int|
                0 <= k < group.len() && group[k] == x && !is_reserved(recs[x as int], listing);
            assert(group.contains(x));
        }
    }
    if pool.len() >= 1 {
        let cur = rk[0];
        assert(rk.contains(cur));
        assert forall|x: usize| #[trigger] stale.contains(x) <==> (pool.contains(x) && x != cur) by {
            if stale.contains(x) {
                let t = choose|t: int| 0 <= t < stale.len() && stale[t] == x;
                assert(rk[t + 1] == x);
                assert(precedes(recs, rk[0], rk[t + 1]));
                assert(rk.contains(x));
            }
            if pool.contains(x) && x != cur {
                assert(rk.contains(x));
                let t = choose|t: int| 0 <= t < rk.len() && rk[t] == x;
                assert(stale[t - 1] == x);
            }
        }
        assert forall|x: usize| #[trigger] pool.contains(x) implies recs[x as int].pid
            <= recs[cur as int].pid by {
            assert(rk.contains(x));
            let t = choose|t: int| 0 <= t < rk.len() && rk[t] == x;
            if t > 0 {
                assert(precedes(recs, rk[0], rk[t]));
            }
        }
    }
    assert forall|x: usize| #[trigger] stale.contains(x) implies !is_reserved(
        recs[x as int],
        listing,
    ) by {
        let t = choose|t: int| 0 <= t < stale.len() && stale[t] == x;
        assert(rk[t + 1] == x);
        assert(rk.contains(x));
        assert(pool.contains(x));
    }
}

} // verus!
