//! The core transform: collapse every maximal run of consecutive equal lines
//! to its first member.

use vstd::prelude::*;

verus! {

/// A line of input, kept as its raw bytes; equality is byte-for-byte.
pub type Line = Seq<u8>;

/// An input line survives the transform exactly when it starts a run:
/// it is the first line, or it differs from the line just before it.
pub open spec fn keep(lines: Seq<Line>, i: int) -> bool {
    i == 0 || lines[i] != lines[i - 1]
}

/// The lines that survive: the first member of every maximal run of
/// consecutive equal lines, in input order.
pub open spec fn dedup_spec(lines: Seq<Line>) -> Seq<Line>
    decreases lines.len(),
{
    if lines.len() == 0 {
        Seq::empty()
    } else {
        let rest = dedup_spec(lines.drop_last());
        if keep(lines, lines.len() - 1) {
            rest.push(lines.last())
        } else {
            rest
        }
    }
}

/// The transform never invents lines: its output is empty exactly on empty
/// input, keeps the input's first line first, and ends with the content of
/// the input's last line (the last run's members are all equal to it).
pub proof fn lemma_dedup_bounds(lines: Seq<Line>)
    ensures
        dedup_spec(lines).len() == 0 <==> lines.len() == 0,
        lines.len() > 0 ==> dedup_spec(lines).last() == lines.last(),
        lines.len() > 0 ==> dedup_spec(lines)[0] == lines[0],
    decreases lines.len(),
{
    if lines.len() == 0 {
    } else if lines.len() == 1 {
        assert(keep(lines, 0));
        assert(lines.drop_last().len() == 0);
        assert(dedup_spec(lines.drop_last()) == Seq::<Line>::empty());
        assert(dedup_spec(lines) == Seq::<Line>::empty().push(lines.last()));
        assert(dedup_spec(lines)[0] == lines.last());
        assert(lines.last() == lines[0]);
    } else {
        lemma_dedup_bounds(lines.drop_last());
        let rest = dedup_spec(lines.drop_last());
        if keep(lines, lines.len() - 1) {
            assert(dedup_spec(lines)[0] == rest.push(lines.last())[0]);
            assert(rest.push(lines.last())[0] == rest[0]);
        } else {
            assert(lines.drop_last().last() == lines[lines.len() - 2]);
            assert(lines.last() == lines[lines.len() - 2]);
        }
        assert(lines.drop_last()[0] == lines[0]);
    }
}

/// After one pass, no two consecutive output lines are equal.
pub proof fn lemma_dedup_no_adjacent(lines: Seq<Line>)
    ensures
        forall|j: int|
            1 <= j < dedup_spec(lines).len() ==> #[trigger] dedup_spec(lines)[j] != dedup_spec(
                lines,
            )[j - 1],
    decreases lines.len(),
{
    if lines.len() == 0 {
    } else {
        let dl = lines.drop_last();
        lemma_dedup_no_adjacent(dl);
        lemma_dedup_bounds(dl);
        let rest = dedup_spec(dl);
        if keep(lines, lines.len() - 1) {
            let d = rest.push(lines.last());
            assert(dedup_spec(lines) == d);
            assert forall|j: int| 1 <= j < d.len() implies #[trigger] d[j] != d[j - 1] by {
                if j < rest.len() {
                    assert(d[j] == rest[j]);
                    assert(d[j - 1] == rest[j - 1]);
                } else {
                    assert(d[j] == lines.last());
                    assert(d[j - 1] == rest[j - 1]);
                    assert(rest[j - 1] == rest.last());
                    assert(rest.last() == dl.last());
                    assert(dl.last() == lines[lines.len() - 2]);
                }
            }
        }
    }
}

/// An input in which no two consecutive lines are equal passes through
/// unchanged.
pub proof fn lemma_dedup_identity(lines: Seq<Line>)
    ensures
        (forall|i: int| 1 <= i < lines.len() ==> #[trigger] lines[i] != lines[i - 1]) ==> dedup_spec(lines)
            == lines,
    decreases lines.len(),
{
    if lines.len() == 0 {
        assert(dedup_spec(lines) =~= lines);
    } else {
        let dl = lines.drop_last();
        lemma_dedup_identity(dl);
        if forall|i: int| 1 <= i < lines.len() ==> #[trigger] lines[i] != lines[i - 1] {
            assert forall|i: int| 1 <= i < dl.len() implies #[trigger] dl[i] != dl[i - 1] by {
                assert(dl[i] == lines[i]);
                assert(dl[i - 1] == lines[i - 1]);
                assert(lines[i] != lines[i - 1]);
            }
            assert(dedup_spec(dl) == dl);
            if lines.len() == 1 {
                assert(keep(lines, 0));
            } else {
                assert(lines[lines.len() - 1] != lines[lines.len() - 2]);
            }
            assert(keep(lines, lines.len() - 1));
            assert(dedup_spec(lines) == dl.push(lines.last()));
            assert(dedup_spec(lines) =~= lines);
        }
    }
}

/// Applying the transform twice yields the same result as applying it once:
/// one pass already leaves no two consecutive equal lines.
pub proof fn lemma_dedup_idempotent(lines: Seq<Line>)
    ensures
        dedup_spec(dedup_spec(lines)) == dedup_spec(lines),
{
    lemma_dedup_no_adjacent(lines);
    lemma_dedup_identity(dedup_spec(lines));
}

/// The output is never longer than the input, and has the input's length
/// exactly when no two consecutive input lines are equal.
pub proof fn lemma_dedup_length(lines: Seq<Line>)
    ensures
        dedup_spec(lines).len() <= lines.len(),
        dedup_spec(lines).len() == lines.len() <==> (forall|i: int|
            1 <= i < lines.len() ==> #[trigger] lines[i] != lines[i - 1]),
    decreases lines.len(),
{
    if lines.len() == 0 {
    } else {
        let dl = lines.drop_last();
        lemma_dedup_length(dl);
        assert forall|i: int| 1 <= i < dl.len() implies #[trigger] dl[i] == lines[i] && dl[i - 1]
            == lines[i - 1] by {}
        if keep(lines, lines.len() - 1) {
            if dedup_spec(lines).len() == lines.len() {
                assert(dedup_spec(dl).len() == dl.len());
                assert forall|i: int| 1 <= i < lines.len() implies #[trigger] lines[i] != lines[i - 1] by {
                    if i < lines.len() - 1 {
                        assert(dl[i] != dl[i - 1]);
                    }
                }
            }
            if forall|i: int| 1 <= i < lines.len() ==> #[trigger] lines[i] != lines[i - 1] {
                assert forall|i: int| 1 <= i < dl.len() implies #[trigger] dl[i] != dl[i - 1] by {
                    assert(lines[i] != lines[i - 1]);
                }
                assert(dedup_spec(dl).len() == dl.len());
            }
        } else {
            assert(lines[lines.len() - 1] == lines[lines.len() - 2]);
            assert(dedup_spec(lines).len() < lines.len());
        }
    }
}

/// The positions of the lines that survive: every index that starts a
/// maximal run of consecutive equal lines, in increasing order.
pub open spec fn run_starts(lines: Seq<Line>) -> Seq<int>
    decreases lines.len(),
{
    if lines.len() == 0 {
        Seq::empty()
    } else {
        let rest = run_starts(lines.drop_last());
        if keep(lines, lines.len() - 1) {
            rest.push(lines.len() - 1)
        } else {
            rest
        }
    }
}

/// The output is exactly the input restricted to the run-start positions:
/// the surviving lines keep their input order (the positions are strictly
/// increasing), each output line is the input line at its position, every
/// such position starts a run, and every run start is represented.
pub proof fn lemma_dedup_run_starts(lines: Seq<Line>)
    ensures
        run_starts(lines).len() == dedup_spec(lines).len(),
        forall|j: int|
            0 <= j < run_starts(lines).len() ==> 0 <= #[trigger] run_starts(lines)[j]
                < lines.len(),
        forall|j: int|
            1 <= j < run_starts(lines).len() ==> run_starts(lines)[j - 1] < #[trigger] run_starts(
                lines,
            )[j],
        forall|j: int|
            0 <= j < run_starts(lines).len() ==> #[trigger] dedup_spec(lines)[j] == lines[run_starts(
                lines,
            )[j]],
        forall|j: int|
            0 <= j < run_starts(lines).len() ==> keep(lines, #[trigger] run_starts(lines)[j]),
        forall|i: int| 0 <= i < lines.len() && keep(lines, i) ==> run_starts(lines).contains(i),
    decreases lines.len(),
{
    if lines.len() == 0 {
    } else {
        let n = lines.len() as int;
        let dl = lines.drop_last();
        lemma_dedup_run_starts(dl);
        let rest = run_starts(dl);
        let restd = dedup_spec(dl);
        assert forall|i: int| 0 <= i < n - 1 implies keep(dl, i) == keep(lines, i) by {
            assert(dl[i] == lines[i]);
            if i > 0 {
                assert(dl[i - 1] == lines[i - 1]);
            }
        }
        let idx = run_starts(lines);
        if keep(lines, n - 1) {
            assert(idx == rest.push(n - 1));
            assert(dedup_spec(lines) == restd.push(lines.last()));
            assert forall|j: int| 0 <= j < idx.len() implies #[trigger] dedup_spec(lines)[j]
                == lines[idx[j]] by {
                if j < rest.len() {
                    assert(idx[j] == rest[j]);
                    assert(dedup_spec(lines)[j] == restd[j]);
                    assert(restd[j] == dl[rest[j]]);
                    assert(dl[rest[j]] == lines[rest[j]]);
                } else {
                    assert(idx[j] == n - 1);
                    assert(dedup_spec(lines)[j] == lines.last());
                }
            }
            assert forall|i: int| 0 <= i < n && keep(lines, i) implies idx.contains(i) by {
                if i < n - 1 {
                    assert(keep(dl, i));
                    assert(rest.contains(i));
                    let k = choose|k: int| 0 <= k < rest.len() && rest[k] == i;
                    assert(idx[k] == i);
                } else {
                    assert(idx[idx.len() - 1] == i);
                }
            }
        } else {
            assert(idx == rest);
            assert(dedup_spec(lines) == restd);
            assert forall|j: int| 0 <= j < idx.len() implies #[trigger] dedup_spec(lines)[j]
                == lines[idx[j]] by {
                assert(restd[j] == dl[rest[j]]);
                assert(dl[rest[j]] == lines[rest[j]]);
            }
            assert forall|i: int| 0 <= i < n && keep(lines, i) implies idx.contains(i) by {
                assert(i != n - 1);
                assert(keep(dl, i));
                assert(rest.contains(i));
                let k = choose|k: int| 0 <= k < rest.len() && rest[k] == i;
                assert(idx[k] == i);
            }
        }
    }
}

/// Every output line's content exactly matches some input line's content:
/// nothing is transformed, only removed.
pub proof fn lemma_dedup_content(lines: Seq<Line>)
    ensures
        forall|j: int|
            0 <= j < dedup_spec(lines).len() ==> lines.contains(#[trigger] dedup_spec(lines)[j]),
{
    lemma_dedup_run_starts(lines);
    assert forall|j: int| 0 <= j < dedup_spec(lines).len() implies lines.contains(
        #[trigger] dedup_spec(lines)[j],
    ) by {
        let i = run_starts(lines)[j];
        assert(lines[i] == dedup_spec(lines)[j]);
    }
}

/// Byte-for-byte structural equality of two lines.
fn lines_equal(a: &Vec<u8>, b: &Vec<u8>) -> (r: bool)
    ensures
        r == (a@ == b@),
{
    if a.len() != b.len() {
        return false;
    }
    let mut i: usize = 0;
    while i < a.len()
        invariant
            i <= a@.len(),
            a@.len() == b@.len(),
            forall|k: int| 0 <= k < i ==> a@[k] == b@[k],
        decreases a@.len() - i,
    {
        if a[i] != b[i] {
            return false;
        }
        i = i + 1;
    }
    proof {
        assert(a@ =~= b@);
    }
    true
}

/// The single piece of state the filter retains: the content of the most
/// recently emitted line, or nothing before the first emission.
pub struct Deduplicator {
    last: Option<Vec<u8>>,
}

impl View for Deduplicator {
    type V = Option<Line>;

    closed spec fn view(&self) -> Option<Line> {
        match self.last {
            Option::None => Option::None,
            Option::Some(l) => Option::Some(l@),
        }
    }
}

impl Deduplicator {
    /// A fresh filter that has emitted nothing yet.
    pub fn new() -> (d: Deduplicator)
        ensures
            d@ is None,
    {
        Deduplicator { last: Option::None }
    }

    /// Offer the next input line: returns true exactly when the line must be
    /// emitted, that is, when no line was emitted yet or this one differs
    /// from the last emitted content. Afterwards the remembered content is
    /// this line's content either way (a suppressed line equals it already).
    pub fn push(&mut self, line: &Vec<u8>) -> (emit: bool)
        ensures
            emit == (old(self)@ != Some(line@)),
            final (self)@ == Some(line@),
    {
        let emit = match &self.last {
            Option::None => true,
            Option::Some(prev) => !lines_equal(prev, line),
        };
        if emit {
            self.last = Option::Some(vstd::slice::slice_to_vec(line.as_slice()));
        }
        emit
    }
}

} // verus!
