//! The byte-level view of the stream: splitting input into lines at newline
//! bytes, and rendering lines back with exactly one newline after each.

use vstd::prelude::*;

use crate::dedup::Line;

verus! {

/// The line-terminator byte: a single newline.
pub const NL: u8 = 10;

/// Split a byte stream into lines at each newline byte. The terminators are
/// not part of any line's content; a trailing newline closes the last line
/// rather than opening an empty one, and a final unterminated span still
/// counts as a line. Empty input holds no lines at all.
pub open spec fn split_spec(s: Seq<u8>) -> Seq<Line>
    decreases s.len(),
{
    if s.len() == 0 {
        Seq::empty()
    } else if s[0] == NL {
        seq![Seq::<u8>::empty()] + split_spec(s.skip(1))
    } else {
        let rest = split_spec(s.skip(1));
        if rest.len() == 0 {
            seq![seq![s[0]]]
        } else {
            seq![seq![s[0]] + rest[0]] + rest.skip(1)
        }
    }
}

/// Render lines back to a byte stream: every line, the last included, is
/// followed by exactly one newline byte.
pub open spec fn render_spec(lines: Seq<Line>) -> Seq<u8>
    decreases lines.len(),
{
    if lines.len() == 0 {
        Seq::empty()
    } else {
        lines[0] + seq![NL] + render_spec(lines.skip(1))
    }
}

/// A non-empty stream splits into at least one line.
proof fn lemma_split_nonempty(s: Seq<u8>)
    ensures
        s.len() > 0 ==> split_spec(s).len() > 0,
    decreases s.len(),
{
    if s.len() > 0 {
        lemma_split_nonempty(s.skip(1));
    }
}

/// No line produced by splitting contains a newline byte.
pub proof fn lemma_split_no_newline(s: Seq<u8>)
    ensures
        forall|j: int|
            0 <= j < split_spec(s).len() ==> !(#[trigger] split_spec(s)[j]).contains(NL),
    decreases s.len(),
{
    if s.len() == 0 {
    } else {
        lemma_split_no_newline(s.skip(1));
        let rest = split_spec(s.skip(1));
        if s[0] == NL {
            assert forall|j: int| 0 <= j < split_spec(s).len() implies !(
            #[trigger] split_spec(s)[j]).contains(NL) by {
                if j == 0 {
                    assert(split_spec(s)[0] =~= Seq::<u8>::empty());
                    assert(!Seq::<u8>::empty().contains(NL));
                } else {
                    assert(split_spec(s)[j] == rest[j - 1]);
                }
            }
        } else if rest.len() == 0 {
            assert forall|j: int| 0 <= j < split_spec(s).len() implies !(
            #[trigger] split_spec(s)[j]).contains(NL) by {
                let l = split_spec(s)[j];
                assert(l == seq![s[0]]);
                assert(forall|k: int| 0 <= k < l.len() ==> l[k] == s[0]);
            }
        } else {
            assert forall|j: int| 0 <= j < split_spec(s).len() implies !(
            #[trigger] split_spec(s)[j]).contains(NL) by {
                if j == 0 {
                    let l = seq![s[0]] + rest[0];
                    assert(split_spec(s)[0] == l);
                    assert(!rest[0].contains(NL));
                    assert forall|k: int| 0 <= k < l.len() implies l[k] != NL by {
                        if k == 0 {
                            assert(l[0] == s[0]);
                        } else {
                            assert(l[k] == rest[0][k - 1]);
                        }
                    }
                } else {
                    assert(split_spec(s)[j] == rest.skip(1)[j - 1]);
                    assert(rest.skip(1)[j - 1] == rest[j]);
                }
            }
        }
    }
}

/// Splitting distributes over concatenation at a line boundary: when `a` is
/// empty or ends with a newline, the lines of `a + b` are the lines of `a`
/// followed by the lines of `b`.
proof fn lemma_split_append(a: Seq<u8>, b: Seq<u8>)
    requires
        a.len() == 0 || a.last() == NL,
    ensures
        split_spec(a + b) == split_spec(a) + split_spec(b),
    decreases a.len(),
{
    if a.len() == 0 {
        assert(a + b =~= b);
        assert(split_spec(a) + split_spec(b) =~= split_spec(b));
    } else {
        let ab = a + b;
        assert(ab[0] == a[0]);
        assert(ab.skip(1) =~= a.skip(1) + b);
        if a.len() > 1 {
            assert(a.skip(1).last() == a.last());
        }
        lemma_split_append(a.skip(1), b);
        if a[0] == NL {
            assert(split_spec(ab) == seq![Seq::<u8>::empty()] + (split_spec(a.skip(1)) + split_spec(
                b,
            )));
            assert(split_spec(a) == seq![Seq::<u8>::empty()] + split_spec(a.skip(1)));
            assert(split_spec(ab) =~= split_spec(a) + split_spec(b));
        } else {
            assert(a.len() > 1);
            lemma_split_nonempty(a.skip(1));
            let ra = split_spec(a.skip(1));
            let rab = split_spec(ab.skip(1));
            assert(rab == ra + split_spec(b));
            assert(ra.len() > 0);
            assert(rab.len() > 0);
            assert(rab[0] == ra[0]);
            assert(split_spec(ab) == seq![seq![a[0]] + ra[0]] + rab.skip(1));
            assert(split_spec(a) == seq![seq![a[0]] + ra[0]] + ra.skip(1));
            assert(rab.skip(1) =~= ra.skip(1) + split_spec(b));
            assert(split_spec(ab) =~= split_spec(a) + split_spec(b));
        }
    }
}

/// A newline-free span followed by a newline splits into exactly that one
/// line; a non-empty newline-free span splits into itself alone.
proof fn lemma_split_single(l: Line)
    requires
        !l.contains(NL),
    ensures
        split_spec(l + seq![NL]) == seq![l],
        l.len() > 0 ==> split_spec(l) == seq![l],
    decreases l.len(),
{
    if l.len() == 0 {
        let s = l + seq![NL];
        assert(s =~= seq![NL]);
        assert(s.len() == 1);
        assert(s[0] == NL);
        assert(s.skip(1) =~= Seq::<u8>::empty());
        assert(split_spec(s.skip(1)) == Seq::<Line>::empty());
        assert(split_spec(s) == seq![Seq::<u8>::empty()] + Seq::<Line>::empty());
        assert(split_spec(s) =~~= seq![l]);
    } else {
        assert(l[0] != NL);
        let tail = l.skip(1);
        assert(!tail.contains(NL)) by {
            if tail.contains(NL) {
                let k = choose|k: int| 0 <= k < tail.len() && tail[k] == NL;
                assert(l[k + 1] == NL);
            }
        }
        lemma_split_single(tail);
        let s = l + seq![NL];
        assert(s[0] == l[0]);
        assert(s.skip(1) =~= tail + seq![NL]);
        let rest = split_spec(tail + seq![NL]);
        assert(rest == seq![tail]);
        assert(split_spec(s) == seq![seq![s[0]] + tail] + rest.skip(1));
        assert(seq![s[0]] + tail =~= l);
        assert(rest.skip(1) =~= Seq::<Line>::empty());
        assert(split_spec(s) =~~= seq![l]);
        if tail.len() == 0 {
            assert(l.skip(1) == tail);
            assert(split_spec(l.skip(1)) == Seq::<Line>::empty());
            assert(split_spec(l) == seq![seq![l[0]]]);
            assert(seq![l[0]] =~= l);
            assert(split_spec(l) =~~= seq![l]);
        } else {
            assert(split_spec(tail) == seq![tail]);
            assert(split_spec(l) == seq![seq![l[0]] + tail] + seq![tail].skip(1));
            assert(seq![tail].skip(1) =~= Seq::<Line>::empty());
            assert(split_spec(l) =~~= seq![l]);
        }
    }
}

/// Rendering distributes over concatenation of line sequences.
proof fn lemma_render_append(a: Seq<Line>, b: Seq<Line>)
    ensures
        render_spec(a + b) == render_spec(a) + render_spec(b),
    decreases a.len(),
{
    if a.len() == 0 {
        assert(a + b =~= b);
        assert(render_spec(a) + render_spec(b) =~= render_spec(b));
    } else {
        let ab = a + b;
        assert(ab[0] == a[0]);
        assert(ab.skip(1) =~= a.skip(1) + b);
        lemma_render_append(a.skip(1), b);
        assert(render_spec(ab) == ab[0] + seq![NL] + (render_spec(a.skip(1)) + render_spec(b)));
        assert(render_spec(a) == a[0] + seq![NL] + render_spec(a.skip(1)));
        assert(render_spec(ab) =~= render_spec(a) + render_spec(b));
    }
}

/// Splitting undoes rendering: for any sequence of newline-free lines,
/// rendering and then splitting returns exactly those lines.
pub proof fn lemma_split_render(lines: Seq<Line>)
    requires
        forall|j: int| 0 <= j < lines.len() ==> !(#[trigger] lines[j]).contains(NL),
    ensures
        split_spec(render_spec(lines)) == lines,
    decreases lines.len(),
{
    if lines.len() == 0 {
    } else {
        let head = lines[0];
        let tail = lines.skip(1);
        assert forall|j: int| 0 <= j < tail.len() implies !(#[trigger] tail[j]).contains(NL) by {
            assert(tail[j] == lines[j + 1]);
        }
        lemma_split_render(tail);
        lemma_split_single(head);
        assert(render_spec(lines) == head + seq![NL] + render_spec(tail));
        assert(head + seq![NL] + render_spec(tail) =~= (head + seq![NL]) + render_spec(tail));
        assert((head + seq![NL]).last() == NL);
        lemma_split_append(head + seq![NL], render_spec(tail));
        assert(split_spec(render_spec(lines)) == split_spec(head + seq![NL]) + split_spec(
            render_spec(tail),
        ));
        assert(split_spec(head + seq![NL]) == seq![head]);
        assert(seq![head] + tail =~= lines);
    }
}

/// Split a fully materialized byte stream into its lines.
pub fn split_lines(input: &Vec<u8>) -> (lines: Vec<Vec<u8>>)
    ensures
        lines.deep_view() == split_spec(input@),
{
    let s = Ghost(input@);
    let mut lines: Vec<Vec<u8>> = Vec::new();
    let mut cur: Vec<u8> = Vec::new();
    let ghost mut start: int = 0;
    let mut i: usize = 0;
    proof {
        assert(s@.take(0) =~= Seq::<u8>::empty());
        assert(lines.deep_view() =~= split_spec(s@.take(0)));
        assert(cur@ =~= s@.subrange(0, 0));
    }
    while i < input.len()
        invariant
            s@ == input@,
            0 <= start <= i <= s@.len(),
            start == 0 || s@[start - 1] == NL,
            cur@ == s@.subrange(start, i as int),
            !cur@.contains(NL),
            lines.deep_view() == split_spec(s@.take(start)),
        decreases s@.len() - i,
    {
        let c = input[i];
        if c == NL {
            let ghost lines0 = lines.deep_view();
            let ghost cur0 = cur@;
            lines.push(cur);
            cur = Vec::new();
            proof {
                assert(lines.deep_view() =~~= lines0.push(cur0));
                assert(s@.take(start) + (cur0 + seq![NL]) =~= s@.take(i + 1));
                assert(s@.take(start).len() == 0 || s@.take(start).last() == NL);
                lemma_split_append(s@.take(start), cur0 + seq![NL]);
                lemma_split_single(cur0);
                assert(split_spec(s@.take(i + 1)) =~= split_spec(s@.take(start)).push(cur0));
                start = i + 1;
                assert(cur@ =~= s@.subrange(start, i + 1));
            }
        } else {
            let ghost cur0 = cur@;
            cur.push(c);
            proof {
                assert(cur@ =~= s@.subrange(start, i + 1));
                assert(!cur@.contains(NL)) by {
                    if cur@.contains(NL) {
                        let k = choose|k: int| 0 <= k < cur@.len() && cur@[k] == NL;
                        assert(k < cur0.len() ==> cur0[k] == NL);
                    }
                }
            }
        }
        i = i + 1;
    }
    proof {
        assert(s@.subrange(start, s@.len() as int) == cur@);
    }
    if cur.len() > 0 {
        let ghost lines0 = lines.deep_view();
        let ghost cur0 = cur@;
        lines.push(cur);
        proof {
            assert(lines.deep_view() =~~= lines0.push(cur0));
            assert(s@.take(start) + cur0 =~= s@);
            lemma_split_append(s@.take(start), cur0);
            lemma_split_single(cur0);
            assert(split_spec(s@) =~= split_spec(s@.take(start)).push(cur0));
        }
    } else {
        proof {
            assert(s@.take(start) =~= s@);
        }
    }
    lines
}

/// Render a sequence of lines as the output byte stream: each line's bytes,
/// then one newline, whether or not the source line was terminated.
pub fn render_lines(lines: &Vec<Vec<u8>>) -> (out: Vec<u8>)
    ensures
        out@ == render_spec(lines.deep_view()),
{
    let ghost lv = lines.deep_view();
    let mut out: Vec<u8> = Vec::new();
    let mut k: usize = 0;
    proof {
        assert(lv.take(0) =~= Seq::<Line>::empty());
        assert(out@ =~= render_spec(lv.take(0)));
    }
    while k < lines.len()
        invariant
            lv == lines.deep_view(),
            lv.len() == lines@.len(),
            k <= lv.len(),
            out@ == render_spec(lv.take(k as int)),
        decreases lv.len() - k,
    {
        let line = &lines[k];
        proof {
            assert(line@ == lv[k as int]);
        }
        let ghost mid = out@;
        let mut j: usize = 0;
        while j < line.len()
            invariant
                j <= line@.len(),
                out@ == mid + line@.take(j as int),
            decreases line@.len() - j,
        {
            out.push(line[j]);
            proof {
                assert(out@ =~= mid + line@.take(j + 1));
            }
            j = j + 1;
        }
        out.push(NL);
        proof {
            assert(line@.take(line@.len() as int) =~= line@);
            assert(out@ =~= mid + (line@ + seq![NL]));
            assert(lv.take(k as int) + seq![lv[k as int]] =~= lv.take(k + 1));
            lemma_render_append(lv.take(k as int), seq![lv[k as int]]);
            assert(seq![lv[k as int]].skip(1) =~= Seq::<Line>::empty());
            assert(render_spec(Seq::<Line>::empty()) == Seq::<u8>::empty());
            assert(render_spec(seq![lv[k as int]]) == lv[k as int] + seq![NL] + Seq::<u8>::empty());
            assert(render_spec(seq![lv[k as int]]) =~= lv[k as int] + seq![NL]);
            assert(out@ =~= render_spec(lv.take(k + 1)));
        }
        k = k + 1;
    }
    proof {
        assert(lv.take(lv.len() as int) =~= lv);
    }
    out
}

} // verus!
