use vstd::prelude::*;
use crate::classify::{bucket_of, category_of, lemma_bucket_positions, lemma_members};
use crate::record::{Category, ContainerRecord, RuntimeContainer};
use crate::reconcile::{planned, report_of, stale_removals, succeeded, RemovalOutcome};
use crate::select::{is_reserved, lemma_eligible, lemma_stale_selection, pool_of, reserved_name, stale_of};

verus! {

proof fn lemma_stale_removals_not_reserved(
    recs: Seq<ContainerRecord>,
    listing: Seq<RuntimeContainer>,
    c: Category,
)
    requires
        recs.len() <= usize::MAX,
    ensures
        forall|j: int|
            0 <= j < stale_removals(recs, listing, c).len() ==> !is_reserved(
                (#[trigger] stale_removals(recs, listing, c)[j]).record,
                listing,
            ),
{
    let group = bucket_of(recs, c);
    lemma_bucket_positions(recs, c);
    lemma_stale_selection(recs, listing, group);
    let stale = stale_of(recs, listing, group);
    assert forall|j: int| 0 <= j < stale_removals(recs, listing, c).len() implies !is_reserved(
        (#[trigger] stale_removals(recs, listing, c)[j]).record,
        listing,
    ) by {
        assert(stale.contains(stale[j]));
    }
}

/// The logs container is never planned for removal, whatever its process ID or
/// its command.
pub proof fn lemma_logs_container_kept(recs: Seq<ContainerRecord>, listing: Seq<RuntimeContainer>)
    requires
        recs.len() <= usize::MAX,
    ensures
        forall|k: int|
            0 <= k < planned(recs, listing).len() ==> !reserved_name(
                (#[trigger] planned(recs, listing)[k]).record.name@,
            ) && !is_reserved(planned(recs, listing)[k].record, listing),
{
    lemma_stale_removals_not_reserved(recs, listing, Category::Cpu);
    lemma_stale_removals_not_reserved(recs, listing, Category::Ram);
    lemma_stale_removals_not_reserved(recs, listing, Category::Io);
    lemma_stale_removals_not_reserved(recs, listing, Category::Disk);
    let a = stale_removals(recs, listing, Category::Cpu);
    let b = stale_removals(recs, listing, Category::Ram);
    let c = stale_removals(recs, listing, Category::Io);
    let d = stale_removals(recs, listing, Category::Disk);
    let p = planned(recs, listing);
    assert forall|k: int| 0 <= k < p.len() implies !is_reserved((#[trigger] p[k]).record, listing) by {
        if k < a.len() {
            assert(p[k] == a[k]);
        } else if k < a.len() + b.len() {
            assert(p[k] == b[k - a.len()]);
        } else if k < a.len() + b.len() + c.len() {
            assert(p[k] == c[k - a.len() - b.len()]);
        } else {
            assert(p[k] == d[k - a.len() - b.len() - c.len()]);
        }
    }
}

/// Number of the first `n` outcomes that succeeded.
pub open spec fn count_removed(outcomes: Seq<RemovalOutcome>, n: int) -> nat
    decreases n,
{
    if n <= 0 {
        0
    } else {
        count_removed(outcomes, n - 1) + if outcomes[n - 1].removed {
            1nat
        } else {
            0nat
        }
    }
}

/// The report holds exactly the removals that succeeded: each success is in it
/// whatever became of the others, each entry comes from a success, and there are
/// as many entries as successes.
pub proof fn lemma_report_exact(outcomes: Seq<RemovalOutcome>, n: int)
    requires
        0 <= n <= outcomes.len(),
    ensures
        forall|k: int|
            0 <= k < n && (#[trigger] outcomes[k]).removed ==> succeeded(outcomes, n).contains(
                outcomes[k].removal,
            ),
        forall|j: int|
            0 <= j < succeeded(outcomes, n).len() ==> exists|k: int|
                0 <= k < n && (#[trigger] outcomes[k]).removed && outcomes[k].removal
                    == #[trigger] succeeded(outcomes, n)[j],
        succeeded(outcomes, n).len() == count_removed(outcomes, n),
    decreases n,
{
    if n > 0 {
        lemma_report_exact(outcomes, n - 1);
        let prev = succeeded(outcomes, n - 1);
        let cur = succeeded(outcomes, n);
        assert forall|k: int|
            0 <= k < n && (#[trigger] outcomes[k]).removed implies cur.contains(
            outcomes[k].removal,
        ) by {
            if k < n - 1 {
                let t = choose|t: int| 0 <= t < prev.len() && prev[t] == outcomes[k].removal;
                assert(cur[t] == outcomes[k].removal);
            } else {
                assert(cur[cur.len() - 1] == outcomes[k].removal);
            }
        }
        assert forall|j: int| 0 <= j < cur.len() implies exists|k: int|
            0 <= k < n && (#[trigger] outcomes[k]).removed && outcomes[k].removal
                == #[trigger] cur[j] by {
            if j < prev.len() {
                assert(cur[j] == prev[j]);
                let k = choose|k: int|
                    0 <= k < n - 1 && (#[trigger] outcomes[k]).removed && outcomes[k].removal
                        == prev[j];
                assert(0 <= k < n);
            } else {
                assert(outcomes[n - 1].removed && outcomes[n - 1].removal == cur[j]);
            }
        }
    }
}

/// The whole report of a pass, by `lemma_report_exact`.
pub proof fn lemma_report(outcomes: Seq<RemovalOutcome>)
    ensures
        forall|k: int|
            0 <= k < outcomes.len() && (#[trigger] outcomes[k]).removed ==> report_of(
                outcomes,
            ).contains(outcomes[k].removal),
        forall|j: int|
            0 <= j < report_of(outcomes).len() ==> exists|k: int|
                0 <= k < outcomes.len() && (#[trigger] outcomes[k]).removed && outcomes[k].removal
                    == #[trigger] report_of(outcomes)[j],
        report_of(outcomes).len() == count_removed(outcomes, outcomes.len() as int),
{
    lemma_report_exact(outcomes, outcomes.len() as int);
}

/// Position `i` of `recs` is removed by a pass: its record is stale in its own
/// category, which is one of the four that are acted on.
pub open spec fn removed_at(recs: Seq<ContainerRecord>, listing: Seq<RuntimeContainer>, i: int) -> bool {
    let c = category_of(recs[i].cmdline@);
    c != Category::Unknown && stale_of(recs, listing, bucket_of(recs, c)).contains(i as usize)
}

/// Positions among the first `n` that a pass leaves in place, in order.
pub open spec fn kept_positions(
    recs: Seq<ContainerRecord>,
    listing: Seq<RuntimeContainer>,
    n: int,
) -> Seq<int>
    decreases n,
{
    if n <= 0 {
        Seq::empty()
    } else if removed_at(recs, listing, n - 1) {
        kept_positions(recs, listing, n - 1)
    } else {
        kept_positions(recs, listing, n - 1).push(n - 1)
    }
}

/// The containers still running after a pass whose removals all succeeded, in
/// snapshot order.
pub open spec fn survivors(recs: Seq<ContainerRecord>, listing: Seq<RuntimeContainer>) -> Seq<
    ContainerRecord,
> {
    kept_positions(recs, listing, recs.len() as int).map_values(|p: int| recs[p])
}

proof fn lemma_kept(recs: Seq<ContainerRecord>, listing: Seq<RuntimeContainer>, n: int)
    requires
        0 <= n <= recs.len(),
    ensures
        kept_positions(recs, listing, n).len() <= n,
        forall|k: int|
            0 <= k < kept_positions(recs, listing, n).len() ==> 0 <= #[trigger] kept_positions(
                recs,
                listing,
                n,
            )[k] < n && !removed_at(recs, listing, kept_positions(recs, listing, n)[k]),
        forall|k: int, l: int|
            0 <= k < l < kept_positions(recs, listing, n).len() ==> #[trigger] kept_positions(
                recs,
                listing,
                n,
            )[k] < #[trigger] kept_positions(recs, listing, n)[l],
    decreases n,
{
    if n > 0 {
        lemma_kept(recs, listing, n - 1);
        let prev = kept_positions(recs, listing, n - 1);
        let cur = kept_positions(recs, listing, n);
        assert forall|k: int, l: int| 0 <= k < l < cur.len() implies #[trigger] cur[k]
            < #[trigger] cur[l] by {
            if l < prev.len() {
                assert(prev[k] < prev[l]);
            } else {
                assert(0 <= prev[k] < n - 1);
            }
        }
        assert forall|k: int| 0 <= k < cur.len() implies 0 <= #[trigger] cur[k] < n && !removed_at(
            recs,
            listing,
            cur[k],
        ) by {
            if k < prev.len() {
                assert(cur[k] == prev[k]);
            }
        }
    }
}

proof fn lemma_second_pass_category(
    recs: Seq<ContainerRecord>,
    listing: Seq<RuntimeContainer>,
    c: Category,
)
    requires
        recs.len() <= usize::MAX,
        c != Category::Unknown,
    ensures
        stale_removals(survivors(recs, listing), listing, c).len() == 0,
{
    let n = recs.len() as int;
    let kp = kept_positions(recs, listing, n);
    lemma_kept(recs, listing, n);
    let s = survivors(recs, listing);
    let gs = bucket_of(s, c);
    lemma_bucket_positions(s, c);
    lemma_members(s, c, s.len() as int);
    lemma_stale_selection(s, listing, gs);
    let pool_s = pool_of(s, listing, gs);
    lemma_eligible(s, listing, gs, gs.len() as int);
    if pool_s.len() > 1 {
        let x = pool_s[0];
        let y = pool_s[1];
        assert(pool_s.contains(x));
        assert(pool_s.contains(y));
        assert(x != y);
        let i = kp[x as int];
        let j = kp[y as int];
        assert(i != j) by {
            if x < y {
                assert(kp[x as int] < kp[y as int]);
            } else {
                assert(kp[y as int] < kp[x as int]);
            }
        }
        let g = bucket_of(recs, c);
        lemma_members(recs, c, n);
        lemma_bucket_positions(recs, c);
        lemma_stale_selection(recs, listing, g);
        assert(s[x as int] == recs[i]);
        assert(s[y as int] == recs[j]);
        assert(g.contains(i as usize));
        assert(g.contains(j as usize));
        assert(pool_of(recs, listing, g).contains(i as usize));
        assert(pool_of(recs, listing, g).contains(j as usize));
        assert(!removed_at(recs, listing, i));
        assert(!removed_at(recs, listing, j));
    }
}

/// A second pass over what a first pass left running removes nothing.
pub proof fn lemma_second_pass_removes_nothing(
    recs: Seq<ContainerRecord>,
    listing: Seq<RuntimeContainer>,
)
    requires
        recs.len() <= usize::MAX,
    ensures
        planned(survivors(recs, listing), listing).len() == 0,
{
    lemma_second_pass_category(recs, listing, Category::Cpu);
    lemma_second_pass_category(recs, listing, Category::Ram);
    lemma_second_pass_category(recs, listing, Category::Io);
    lemma_second_pass_category(recs, listing, Category::Disk);
}

} // verus!
