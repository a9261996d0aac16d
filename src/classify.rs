use vstd::prelude::*;
use crate::record::{Category, ContainerRecord};

verus! {

/// What `str::to_lowercase` returns for a string: the Unicode lower-case mapping,
/// which depends on the characters alone.
pub uninterp spec fn lower_of(s: Seq<char>) -> Seq<char>;

/// `p` occurs in `s` as a contiguous run of characters.
pub open spec fn has_infix(s: Seq<char>, p: Seq<char>) -> bool {
    exists|i: int| 0 <= i && i + p.len() <= s.len() && #[trigger] s.subrange(i, i + p.len()) == p
}

/// Relies on `str::to_lowercase`: the lower-case form of `s`, a function of its
/// characters; an empty string stays empty.
#[verifier::external_body]
fn lowercase(s: &str) -> (r: String)
    ensures
        r@ == lower_of(s@),
        s@.len() == 0 ==> r@.len() == 0,
{
    s.to_lowercase()
}

/// Relies on `str::contains` with a `&str` pattern: true exactly when `p` is a
/// substring of `s`.
#[verifier::external_body]
pub(crate) fn contains_str(s: &str, p: &str) -> (r: bool)
    ensures
        r == has_infix(s@, p@),
{
    s.contains(p)
}

/// The category of an already lower-cased command: the first marker that occurs
/// wins, in the order cpu, vm (memory), io, hdd (disk).
pub open spec fn category_of_folded(lc: Seq<char>) -> Category {
    if has_infix(lc, "--cpu"@) {
        Category::Cpu
    } else if has_infix(lc, "--vm"@) {
        Category::Ram
    } else if has_infix(lc, "--io"@) {
        Category::Io
    } else if has_infix(lc, "--hdd"@) {
        Category::Disk
    } else {
        Category::Unknown
    }
}

/// The category of a launch command; matching ignores case.
pub open spec fn category_of(cmdline: Seq<char>) -> Category {
    category_of_folded(lower_of(cmdline))
}

/// Category of a command that is already in lower case.
pub fn categorize_folded(lc: &str) -> (r: Category)
    ensures
        r == category_of_folded(lc@),
{
    if contains_str(lc, "--cpu") {
        Category::Cpu
    } else if contains_str(lc, "--vm") {
        Category::Ram
    } else if contains_str(lc, "--io") {
        Category::Io
    } else if contains_str(lc, "--hdd") {
        Category::Disk
    } else {
        Category::Unknown
    }
}

/// Category of a launch command, matched without regard to case.
pub fn categorize(cmdline: &str) -> (r: Category)
    ensures
        r == category_of(cmdline@),
{
    let lc = lowercase(cmdline);
    categorize_folded(lc.as_str())
}

/// Positions, in increasing order, of the first `n` records whose command falls
/// in category `c`.
pub open spec fn members(recs: Seq<ContainerRecord>, c: Category, n: int) -> Seq<usize>
    decreases n,
{
    if n <= 0 {
        Seq::empty()
    } else if category_of(recs[n - 1].cmdline@) == c {
        members(recs, c, n - 1).push((n - 1) as usize)
    } else {
        members(recs, c, n - 1)
    }
}

/// Positions of the records of category `c` in `recs`, in snapshot order.
pub open spec fn bucket_of(recs: Seq<ContainerRecord>, c: Category) -> Seq<usize> {
    members(recs, c, recs.len() as int)
}

/// The records of a snapshot grouped by category. Each group holds positions
/// into the snapshot's container list, in snapshot order.
#[derive(Clone, Debug)]
pub struct Classification {
    pub cpu: Vec<usize>,
    pub ram: Vec<usize>,
    pub io: Vec<usize>,
    pub disk: Vec<usize>,
    pub unknown: Vec<usize>,
}

impl Classification {
    pub open spec fn group(&self, c: Category) -> Seq<usize> {
        match c {
            Category::Cpu => self.cpu@,
            Category::Ram => self.ram@,
            Category::Io => self.io@,
            Category::Disk => self.disk@,
            Category::Unknown => self.unknown@,
        }
    }

    /// The group of category `c`.
    pub fn get(&self, c: Category) -> (r: &Vec<usize>)
        ensures
            r@ == self.group(c),
    {
        match c {
            Category::Cpu => &self.cpu,
            Category::Ram => &self.ram,
            Category::Io => &self.io,
            Category::Disk => &self.disk,
            Category::Unknown => &self.unknown,
        }
    }
}

/// Groups the records by the category of their launch command.
pub fn classify_containers(recs: &Vec<ContainerRecord>) -> (r: Classification)
    ensures
        forall|c: Category| #[trigger] r.group(c) == bucket_of(recs@, c),
        r.cpu@ == bucket_of(recs@, Category::Cpu),
        r.ram@ == bucket_of(recs@, Category::Ram),
        r.io@ == bucket_of(recs@, Category::Io),
        r.disk@ == bucket_of(recs@, Category::Disk),
        r.unknown@ == bucket_of(recs@, Category::Unknown),
{
    let mut r = Classification {
        cpu: Vec::new(),
        ram: Vec::new(),
        io: Vec::new(),
        disk: Vec::new(),
        unknown: Vec::new(),
    };
    let mut i: usize = 0;
    while i < recs.len()
        invariant
            i <= recs@.len(),
            forall|c: Category| #[trigger] r.group(c) == members(recs@, c, i as int),
        decreases recs@.len() - i,
    {
        let c = categorize(recs[i].cmdline.as_str());
        let ghost before = r;
        match c {
            Category::Cpu => r.cpu.push(i),
            Category::Ram => r.ram.push(i),
            Category::Io => r.io.push(i),
            Category::Disk => r.disk.push(i),
            Category::Unknown => r.unknown.push(i),
        }
        i = i + 1;
        assert forall|d: Category| #[trigger] r.group(d) == members(recs@, d, i as int) by {
            assert(before.group(d) == members(recs@, d, i - 1));
            assert(members(recs@, d, i as int) == if category_of(recs@[i - 1].cmdline@) == d {
                members(recs@, d, i - 1).push((i - 1) as usize)
            } else {
                members(recs@, d, i - 1)
            });
        }
    }
    assert(r.group(Category::Cpu) == bucket_of(recs@, Category::Cpu));
    assert(r.group(Category::Ram) == bucket_of(recs@, Category::Ram));
    assert(r.group(Category::Io) == bucket_of(recs@, Category::Io));
    assert(r.group(Category::Disk) == bucket_of(recs@, Category::Disk));
    assert(r.group(Category::Unknown) == bucket_of(recs@, Category::Unknown));
    r
}

/// The first `n` records' positions of category `c`: increasing, below `n`, and
/// holding exactly the positions whose command falls in `c`.
pub proof fn lemma_members(recs: Seq<ContainerRecord>, c: Category, n: int)
    requires
        0 <= n <= recs.len(),
        recs.len() <= usize::MAX,
    ensures
        forall|k: int|
            0 <= k < members(recs, c, n).len() ==> (#[trigger] members(recs, c, n)[k]) < n,
        forall|k: int, l: int|
            0 <= k < l < members(recs, c, n).len() ==> #[trigger] members(recs, c, n)[k]
                < #[trigger] members(recs, c, n)[l],
        forall|x: usize|
            x < n ==> (#[trigger] members(recs, c, n).contains(x) <==> category_of(
                recs[x as int].cmdline@,
            ) == c),
        forall|x: usize| #[trigger] members(recs, c, n).contains(x) ==> x < n,
    decreases n,
{
    if n > 0 {
        lemma_members(recs, c, n - 1);
        let prev = members(recs, c, n - 1);
        let cur = members(recs, c, n);
        assert forall|x: usize| x < n implies (#[trigger] cur.contains(x) <==> category_of(
            recs[x as int].cmdline@,
        ) == c) by {
            if x < n - 1 {
                if cur.contains(x) {
                    let t = choose|t: int| 0 <= t < cur.len() && cur[t] == x;
                    if t < prev.len() {
                        assert(prev[t] == x);
                    }
                }
                if prev.contains(x) {
                    let t = choose|t: int| 0 <= t < prev.len() && prev[t] == x;
                    assert(cur[t] == x);
                }
            } else if category_of(recs[x as int].cmdline@) == c {
                assert(cur[cur.len() - 1] == x);
            } else {
                if cur.contains(x) {
                    let t = choose|t: int| 0 <= t < cur.len() && cur[t] == x;
                    assert(prev[t] == x);
                }
            }
        }
        assert forall|x: usize| #[trigger] cur.contains(x) implies x < n by {
            let t = choose|t: int| 0 <= t < cur.len() && cur[t] == x;
            if t < prev.len() {
                assert(prev[t] == x);
            }
        }
        assert forall|k: int, l: int| 0 <= k < l < cur.len() implies #[trigger] cur[k]
            < #[trigger] cur[l] by {
            if l == prev.len() {
                assert(prev[k] < n - 1);
            } else {
                assert(prev[k] < prev[l]);
            }
        }
    }
}

/// Every record is placed in exactly one group, the one of its category, and the
/// groups together hold as many positions as there are records.
pub proof fn lemma_classification_total(recs: Seq<ContainerRecord>)
    requires
        recs.len() <= usize::MAX,
    ensures
        forall|x: usize, c: Category|
            x < recs.len() ==> (#[trigger] bucket_of(recs, c).contains(x) <==> c == category_of(
                recs[x as int].cmdline@,
            )),
        forall|c: Category, x: usize| #[trigger] bucket_of(recs, c).contains(x) ==> x < recs.len(),
        bucket_of(recs, Category::Cpu).len() + bucket_of(recs, Category::Ram).len() + bucket_of(
            recs,
            Category::Io,
        ).len() + bucket_of(recs, Category::Disk).len() + bucket_of(recs, Category::Unknown).len()
            == recs.len(),
{
    lemma_members_sum(recs, recs.len() as int);
    lemma_members(recs, Category::Cpu, recs.len() as int);
    lemma_members(recs, Category::Ram, recs.len() as int);
    lemma_members(recs, Category::Io, recs.len() as int);
    lemma_members(recs, Category::Disk, recs.len() as int);
    lemma_members(recs, Category::Unknown, recs.len() as int);
}

proof fn lemma_members_sum(recs: Seq<ContainerRecord>, n: int)
    requires
        0 <= n <= recs.len(),
    ensures
        members(recs, Category::Cpu, n).len() + members(recs, Category::Ram, n).len() + members(
            recs,
            Category::Io,
            n,
        ).len() + members(recs, Category::Disk, n).len() + members(recs, Category::Unknown, n).len()
            == n,
    decreases n,
{
    if n > 0 {
        lemma_members_sum(recs, n - 1);
    }
}

/// The groups are strictly increasing lists of valid positions.
pub proof fn lemma_bucket_positions(recs: Seq<ContainerRecord>, c: Category)
    requires
        recs.len() <= usize::MAX,
    ensures
        forall|k: int|
            0 <= k < bucket_of(recs, c).len() ==> (#[trigger] bucket_of(recs, c)[k]) < recs.len(),
        forall|k: int, l: int|
            0 <= k < l < bucket_of(recs, c).len() ==> bucket_of(recs, c)[k] != bucket_of(
                recs,
                c,
            )[l],
{
    lemma_members(recs, c, recs.len() as int);
}

} // verus!
