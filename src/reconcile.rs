use vstd::prelude::*;
use crate::classify::{bucket_of, classify_containers, lemma_bucket_positions};
use crate::record::{Category, ContainerRecord, RuntimeContainer, Snapshot};
use crate::select::{stale_in_group, stale_of};

verus! {

/// A record chosen for removal, with the category it was found stale in.
#[derive(Clone, Debug)]
pub struct Removal {
    pub record: ContainerRecord,
    pub category: Category,
}

impl Removal {
    /// A copy equal to `self` in every field.
    pub fn duplicate(&self) -> (r: Removal)
        ensures
            r == *self,
    {
        Removal { record: self.record.duplicate(), category: self.category }
    }
}

/// The removals for the stale positions `stale` of category `c`, in that order.
pub open spec fn removals_for(recs: Seq<ContainerRecord>, stale: Seq<usize>, c: Category) -> Seq<
    Removal,
> {
    stale.map_values(|i: usize| Removal { record: recs[i as int], category: c })
}

pub open spec fn stale_removals(
    recs: Seq<ContainerRecord>,
    listing: Seq<RuntimeContainer>,
    c: Category,
) -> Seq<Removal> {
    removals_for(recs, stale_of(recs, listing, bucket_of(recs, c)), c)
}

/// Every removal of one pass, category by category (cpu, ram, io, disk); the
/// unknown category is never acted on.
pub open spec fn planned(recs: Seq<ContainerRecord>, listing: Seq<RuntimeContainer>) -> Seq<
    Removal,
> {
    stale_removals(recs, listing, Category::Cpu) + stale_removals(recs, listing, Category::Ram)
        + stale_removals(recs, listing, Category::Io) + stale_removals(
        recs,
        listing,
        Category::Disk,
    )
}

fn push_removals(
    out: &mut Vec<Removal>,
    recs: &Vec<ContainerRecord>,
    stale: &Vec<usize>,
    c: Category,
)
    requires
        forall|i: int| 0 <= i < stale@.len() ==> (#[trigger] stale@[i]) < recs@.len(),
    ensures
        final(out)@ == old(out)@ + removals_for(recs@, stale@, c),
{
    let ghost start = out@;
    let mut k: usize = 0;
    while k < stale.len()
        invariant
            k <= stale@.len(),
            forall|i: int| 0 <= i < stale@.len() ==> (#[trigger] stale@[i]) < recs@.len(),
            out@ == start + removals_for(recs@, stale@.subrange(0, k as int), c),
        decreases stale@.len() - k,
    {
        let rec = recs[stale[k]].duplicate();
        out.push(Removal { record: rec, category: c });
        proof {
            assert(stale@.subrange(0, k + 1) == stale@.subrange(0, k as int).push(stale@[k as int]));
        }
        k = k + 1;
        assert(out@ =~= start + removals_for(recs@, stale@.subrange(0, k as int), c));
    }
    assert(stale@.subrange(0, stale@.len() as int) == stale@);
}

/// Decides what one pass removes: in each of the categories cpu, ram, io and
/// disk, every record but the one with the highest process ID, never the logs
/// container.
pub fn plan_removals(snapshot: &Snapshot, listing: &Vec<RuntimeContainer>) -> (r: Vec<Removal>)
    ensures
        r@ == planned(snapshot.containers@, listing@),
{
    let recs = &snapshot.containers;
    let groups = classify_containers(recs);
    let mut out: Vec<Removal> = Vec::new();
    let _n: usize = recs.len();
    proof {
        lemma_bucket_positions(recs@, Category::Cpu);
        lemma_bucket_positions(recs@, Category::Ram);
        lemma_bucket_positions(recs@, Category::Io);
        lemma_bucket_positions(recs@, Category::Disk);
    }
    let cpu = stale_in_group(recs, listing, groups.get(Category::Cpu));
    push_removals(&mut out, recs, &cpu, Category::Cpu);
    let ram = stale_in_group(recs, listing, groups.get(Category::Ram));
    push_removals(&mut out, recs, &ram, Category::Ram);
    let io = stale_in_group(recs, listing, groups.get(Category::Io));
    push_removals(&mut out, recs, &io, Category::Io);
    let disk = stale_in_group(recs, listing, groups.get(Category::Disk));
    push_removals(&mut out, recs, &disk, Category::Disk);
    assert(out@ =~= planned(recs@, listing@));
    out
}

/// The result of one removal request.
#[derive(Clone, Debug)]
pub struct RemovalOutcome {
    pub removal: Removal,
    pub removed: bool,
}

/// The removals of the first `n` outcomes that succeeded, in submission order.
pub open spec fn succeeded(outcomes: Seq<RemovalOutcome>, n: int) -> Seq<Removal>
    decreases n,
{
    if n <= 0 {
        Seq::empty()
    } else if outcomes[n - 1].removed {
        succeeded(outcomes, n - 1).push(outcomes[n - 1].removal)
    } else {
        succeeded(outcomes, n - 1)
    }
}

pub open spec fn report_of(outcomes: Seq<RemovalOutcome>) -> Seq<Removal> {
    succeeded(outcomes, outcomes.len() as int)
}

/// The report of a pass: the removals that succeeded, in submission order. A
/// failed removal is left out and affects no other entry; an empty report means
/// that nothing was removed.
pub fn collect_report(outcomes: &Vec<RemovalOutcome>) -> (r: Vec<Removal>)
    ensures
        r@ == report_of(outcomes@),
{
    let mut r: Vec<Removal> = Vec::new();
    let mut k: usize = 0;
    while k < outcomes.len()
        invariant
            k <= outcomes@.len(),
            r@ == succeeded(outcomes@, k as int),
        decreases outcomes@.len() - k,
    {
        if outcomes[k].removed {
            r.push(outcomes[k].removal.duplicate());
        }
        k = k + 1;
    }
    r
}

/// The work of one tick: nothing when no snapshot could be read, else the
/// removals of the pass over that snapshot.
pub fn plan_tick(snapshot: &Option<Snapshot>, listing: &Vec<RuntimeContainer>) -> (r: Option<
    Vec<Removal>,
>)
    ensures
        snapshot is None ==> r is None,
        snapshot is Some ==> r is Some && r->Some_0@ == planned(
            snapshot->Some_0.containers@,
            listing@,
        ),
{
    match snapshot {
        None => None,
        Some(s) => Some(plan_removals(s, listing)),
    }
}

/// Where the driver loop stands.
#[derive(Clone, Copy, Debug, PartialEq, Eq, Structural)]
pub enum Phase {
    Running,
    Stopped,
}

/// What the driver does next.
#[derive(Clone, Copy, Debug, PartialEq, Eq, Structural)]
pub enum Step {
    /// Read a snapshot; when there is one, report it and reconcile; then sleep.
    Tick,
    /// Withdraw the periodic registration, report a last snapshot, and end.
    Shutdown,
    /// Nothing more to do.
    Halt,
}

/// The driver's decision at an iteration boundary: keep ticking until a stop is
/// requested, then shut down once, then halt.
pub fn next_step(phase: Phase, stop_requested: bool) -> (r: (Phase, Step))
    ensures
        phase == Phase::Running && !stop_requested ==> r == (Phase::Running, Step::Tick),
        phase == Phase::Running && stop_requested ==> r == (Phase::Stopped, Step::Shutdown),
        phase == Phase::Stopped ==> r == (Phase::Stopped, Step::Halt),
{
    match phase {
        Phase::Running => {
            if stop_requested {
                (Phase::Stopped, Step::Shutdown)
            } else {
                (Phase::Running, Step::Tick)
            }
        },
        Phase::Stopped => (Phase::Stopped, Step::Halt),
    }
}

} // verus!
