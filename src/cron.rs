use vstd::prelude::*;
use vstd::string::StringExecFns;
use crate::classify::{contains_str, has_infix};

verus! {

/// What `str::lines` returns for a text: its lines, split at `\n`, each without
/// its line ending.
pub uninterp spec fn lines_of(s: Seq<char>) -> Seq<Seq<char>>;

/// Relies on `str::lines`: the lines of `s`, in order; an empty text has none.
#[verifier::external_body]
fn split_lines(s: &str) -> (r: Vec<String>)
    ensures
        r@.map_values(|l: String| l@) == lines_of(s@),
        s@.len() == 0 ==> r@.len() == 0,
{
    s.lines().map(|l| l.to_string()).collect()
}

/// The first `n` lines that do not mention `marker`.
pub open spec fn lines_without(ls: Seq<Seq<char>>, marker: Seq<char>, n: int) -> Seq<Seq<char>>
    decreases n,
{
    if n <= 0 {
        Seq::empty()
    } else if has_infix(ls[n - 1], marker) {
        lines_without(ls, marker, n - 1)
    } else {
        lines_without(ls, marker, n - 1).push(ls[n - 1])
    }
}

/// The lines joined with `\n` between them, without a final line break.
pub open spec fn joined(ls: Seq<Seq<char>>) -> Seq<char>
    decreases ls.len(),
{
    if ls.len() == 0 {
        Seq::empty()
    } else if ls.len() == 1 {
        ls[0]
    } else {
        joined(ls.drop_last()) + "\n"@ + ls.last()
    }
}

/// The periodic-execution table with every line that mentions `marker` taken out;
/// the remaining lines are joined with `\n`.
pub fn without_entries(table: &str, marker: &str) -> (r: String)
    ensures
        ({
            let ls = lines_of(table@);
            r@ == joined(lines_without(ls, marker@, ls.len() as int))
        }),
{
    let ls = split_lines(table);
    let ghost views = ls@.map_values(|l: String| l@);
    let mut out = String::new();
    let mut empty = true;
    let mut k: usize = 0;
    while k < ls.len()
        invariant
            k <= ls@.len(),
            views == ls@.map_values(|l: String| l@),
            empty == (lines_without(views, marker@, k as int).len() == 0),
            out@ == joined(lines_without(views, marker@, k as int)),
        decreases ls@.len() - k,
    {
        let line = ls[k].as_str();
        let ghost before = lines_without(views, marker@, k as int);
        if !contains_str(line, marker) {
            if !empty {
                out.append("\n");
            }
            out.append(line);
            empty = false;
            proof {
                let after = before.push(views[k as int]);
                assert(after.drop_last() == before);
                if before.len() == 0 {
                    assert(out@ == views[k as int]);
                }
            }
        }
        k = k + 1;
    }
    out
}

} // verus!
