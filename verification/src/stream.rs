//! The whole-stream passes: both process one input stream to one output
//! stream, collapsing each run of consecutive equal lines to its first line.

use vstd::prelude::*;

use crate::dedup::Deduplicator;
use crate::dedup::dedup_spec;
use crate::dedup::keep;
use crate::dedup::lemma_dedup_content;
use crate::dedup::lemma_dedup_idempotent;
use crate::lines::NL;
use crate::lines::lemma_split_no_newline;
use crate::lines::lemma_split_render;
use crate::lines::render_lines;
use crate::lines::render_spec;
use crate::lines::split_lines;
use crate::lines::split_spec;

verus! {

/// The observable behaviour of the filter on a whole byte stream: split it
/// into lines, keep the first line of every run of consecutive equal lines,
/// and write each kept line back followed by exactly one newline.
pub open spec fn output_spec(s: Seq<u8>) -> Seq<u8> {
    render_spec(dedup_spec(split_spec(s)))
}

/// One whole-sequence pass of the filter: feed every line, in order, to a
/// fresh filter and collect exactly the lines it emits.
pub fn with_iterator(lines: &Vec<Vec<u8>>) -> (out: Vec<Vec<u8>>)
    ensures
        out.deep_view() == dedup_spec(lines.deep_view()),
{
    let ghost lv = lines.deep_view();
    let mut out: Vec<Vec<u8>> = Vec::new();
    let mut filter = Deduplicator::new();
    let mut i: usize = 0;
    proof {
        assert(out.deep_view() =~= dedup_spec(lv.take(0)));
    }
    while i < lines.len()
        invariant
            i <= lv.len(),
            lv == lines.deep_view(),
            lv.len() == lines@.len(),
            out.deep_view() == dedup_spec(lv.take(i as int)),
            i == 0 ==> filter@ is None,
            i > 0 ==> filter@ == Some(lv[i - 1]),
        decreases lv.len() - i,
    {
        let ghost out0 = out.deep_view();
        let line = &lines[i];
        proof {
            assert(line@ == lv[i as int]);
        }
        let emit = filter.push(line);
        if emit {
            out.push(vstd::slice::slice_to_vec(line.as_slice()));
        }
        proof {
            let t = lv.take(i + 1);
            assert(t.drop_last() =~= lv.take(i as int));
            assert(t.last() == lv[i as int]);
            if i == 0 {
                assert(keep(t, i as int));
                assert(emit);
            } else {
                assert(t[i - 1] == lv[i - 1]);
                assert(emit == (lv[i as int] != lv[i - 1]));
                assert(emit == keep(t, i as int));
            }
            if emit {
                assert(out.deep_view() =~= out0.push(line@));
                assert(dedup_spec(t) == dedup_spec(t.drop_last()).push(t.last()));
            } else {
                assert(out.deep_view() == out0);
                assert(dedup_spec(t) == dedup_spec(t.drop_last()));
            }
            assert(out.deep_view() == dedup_spec(t));
        }
        i = i + 1;
    }
    proof {
        assert(lv.take(lv.len() as int) =~= lv);
    }
    out
}

/// One whole-stream pass over a materialized buffer: split the bytes into
/// lines, collapse the runs, and render the survivors with one newline each.
pub fn buf_read(input: &Vec<u8>) -> (out: Vec<u8>)
    ensures
        out@ == output_spec(input@),
{
    let lines = split_lines(input);
    let kept = with_iterator(&lines);
    render_lines(&kept)
}

/// Applying the filter twice to a byte stream yields the same bytes as
/// applying it once: one pass leaves no two consecutive equal lines, and
/// its output is already newline-normalized.
pub proof fn lemma_output_idempotent(s: Seq<u8>)
    ensures
        output_spec(output_spec(s)) == output_spec(s),
{
    let ls = split_spec(s);
    let d = dedup_spec(ls);
    lemma_split_no_newline(s);
    lemma_dedup_content(ls);
    assert forall|j: int| 0 <= j < d.len() implies !(#[trigger] d[j]).contains(NL) by {
        assert(ls.contains(d[j]));
        let i = choose|i: int| 0 <= i < ls.len() && ls[i] == d[j];
        assert(!ls[i].contains(NL));
    }
    lemma_split_render(d);
    lemma_dedup_idempotent(ls);
}

} // verus!
