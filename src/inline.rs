//! The inline classifier: splits heading-free text into bold, italic, link
//! and paragraph runs, line by line.
use vstd::prelude::*;
use crate::model::{MarkdownType, Tree, render, render_from, run, wf_tree, all_expanded};
use crate::tree::{MarkdownString, Node, nodes_trees};
use crate::text::string_of_range;

verus! {

/// The first position at or after `k` that holds `c`, or the length of `t`.
pub open spec fn first_of(t: Seq<char>, k: int, c: char) -> int
    decreases t.len() - k,
{
    if k < 0 || k >= t.len() {
        t.len() as int
    } else if t[k] == c {
        k
    } else {
        first_of(t, k + 1, c)
    }
}

/// A character that may stand in a link target.
pub open spec fn is_link_char(c: char) -> bool {
    c == '\\' || c == '/' || ('A' <= c && c <= 'Z') || ('a' <= c && c <= 'z') || ('0' <= c
        && c <= '9') || c == '_' || c == '-'
}

/// The first position at or after `k` that does not hold a link character,
/// or the length of `t`.
pub open spec fn link_chars_end(t: Seq<char>, k: int) -> int
    decreases t.len() - k,
{
    if k < 0 || k >= t.len() {
        t.len() as int
    } else if !is_link_char(t[k]) {
        k
    } else {
        link_chars_end(t, k + 1)
    }
}

/// The end of the run that starts at `i` and its kind, if one starts there:
/// `**`, one or more characters other than `*`, `**` (bold); `_`, one or
/// more characters other than `_`, `_` (italic); `@@` and one or more link
/// characters, as many as follow (link).
pub open spec fn match_at(t: Seq<char>, i: int) -> Option<(int, MarkdownType)> {
    if 0 <= i && i + 1 < t.len() && t[i] == '*' && t[i + 1] == '*' {
        let k = first_of(t, i + 2, '*');
        if k > i + 2 && k + 1 < t.len() && t[k + 1] == '*' {
            Some((k + 2, MarkdownType::Bold))
        } else {
            None
        }
    } else if 0 <= i && i < t.len() && t[i] == '_' {
        let k = first_of(t, i + 1, '_');
        if k > i + 1 && k < t.len() {
            Some((k + 1, MarkdownType::Italic))
        } else {
            None
        }
    } else if 0 <= i && i + 1 < t.len() && t[i] == '@' && t[i + 1] == '@' {
        let k = link_chars_end(t, i + 2);
        if k > i + 2 {
            Some((k, MarkdownType::Link))
        } else {
            None
        }
    } else {
        None
    }
}

/// The leftmost run at or after `i`: its start, end and kind.
pub open spec fn first_match(t: Seq<char>, i: int) -> Option<(int, int, MarkdownType)>
    decreases t.len() - i,
{
    if i < 0 || i >= t.len() {
        None
    } else if let Some((e, k)) = match_at(t, i) {
        Some((i, e, k))
    } else {
        first_match(t, i + 1)
    }
}

pub proof fn lemma_first_of_bounds(t: Seq<char>, k: int, c: char)
    requires
        0 <= k,
    ensures
        k <= first_of(t, k, c) <= t.len() || (k > t.len() && first_of(t, k, c) == t.len()),
        first_of(t, k, c) < t.len() ==> t[first_of(t, k, c)] == c,
    decreases t.len() - k,
{
    if k < t.len() && t[k] != c {
        lemma_first_of_bounds(t, k + 1, c);
    }
}

proof fn lemma_link_chars_end_bounds(t: Seq<char>, k: int)
    requires
        0 <= k <= t.len(),
    ensures
        k <= link_chars_end(t, k) <= t.len(),
    decreases t.len() - k,
{
    if k < t.len() && is_link_char(t[k]) {
        lemma_link_chars_end_bounds(t, k + 1);
    }
}

/// A run found at `i` ends after `i` and within `t`.
proof fn lemma_match_at_bounds(t: Seq<char>, i: int)
    requires
        0 <= i,
        match_at(t, i) is Some,
    ensures
        match_at(t, i) matches Some((e, _)) ==> i < e <= t.len(),
{
    if i + 1 < t.len() && t[i] == '*' && t[i + 1] == '*' {
        lemma_first_of_bounds(t, i + 2, '*');
    } else if i < t.len() && t[i] == '_' {
        lemma_first_of_bounds(t, i + 1, '_');
    } else {
        lemma_link_chars_end_bounds(t, i + 2);
    }
}

/// The leftmost run at or after `i` lies within `t[i..]`.
pub proof fn lemma_first_match_bounds(t: Seq<char>, i: int)
    requires
        0 <= i,
    ensures
        first_match(t, i) matches Some((s, e, k)) ==> i <= s < e <= t.len() && match_at(t, s)
            == Some((e, k)),
    decreases t.len() - i,
{
    if 0 <= i < t.len() {
        if match_at(t, i) is Some {
            lemma_match_at_bounds(t, i);
        } else {
            lemma_first_match_bounds(t, i + 1);
        }
    }
}

#[via_fn]
proof fn classify_from_decreases(t: Seq<char>, i: int) {
    if 0 <= i {
        lemma_first_match_bounds(t, i);
    }
}

/// The runs of one line `t` from position `i` on: repeatedly, plain text up
/// to the leftmost run, then that run; plain text after the last run.
pub open spec fn classify_from(t: Seq<char>, i: int) -> Seq<Tree>
    decreases t.len() - i via classify_from_decreases
{
    if i < 0 || i >= t.len() {
        Seq::empty()
    } else if let Some((s, e, k)) = first_match(t, i) {
        let before = if s > i {
            seq![run(t.subrange(i, s), MarkdownType::Paragraph)]
        } else {
            Seq::empty()
        };
        before + seq![run(t.subrange(s, e), k)] + classify_from(t, e)
    } else {
        seq![run(t.subrange(i, t.len() as int), MarkdownType::Paragraph)]
    }
}

/// The end of the line that holds position `i`: just after its newline, or
/// the end of `t`.
pub open spec fn line_stop(t: Seq<char>, i: int) -> int {
    let e = first_of(t, i, '\n');
    if e < t.len() {
        e + 1
    } else {
        t.len() as int
    }
}

#[via_fn]
proof fn classify_lines_decreases(t: Seq<char>, i: int) {
    if 0 <= i {
        lemma_first_of_bounds(t, i, '\n');
    }
}

/// The runs of `t[i..]`, each line (with its newline) classified on its own.
pub open spec fn classify_lines(t: Seq<char>, i: int) -> Seq<Tree>
    decreases t.len() - i via classify_lines_decreases
{
    if i < 0 || i >= t.len() {
        Seq::empty()
    } else {
        let stop = line_stop(t, i);
        classify_from(t.subrange(i, stop), 0) + classify_lines(t, stop)
    }
}

/// The text of two sequences of nodes one after the other.
pub proof fn lemma_render_from_concat(a: Seq<Tree>, b: Seq<Tree>, full: bool, i: int)
    requires
        0 <= i <= a.len(),
    ensures
        render_from(a + b, full, i) == render_from(a, full, i) + render_from(b, full, 0),
    decreases a.len() - i,
{
    if i < a.len() {
        lemma_render_from_concat(a, b, full, i + 1);
        assert((a + b)[i] == a[i]);
        assert(render_from(a + b, full, i) =~= render_from(a, full, i) + render_from(b, full, 0));
    } else {
        lemma_render_from_shift(a, b, full, 0);
        assert(render_from(a, full, i) =~= Seq::<char>::empty());
        assert(render_from(a + b, full, i) =~= render_from(a, full, i) + render_from(b, full, 0));
    }
}

/// The nodes of `b` keep their text when `a` is put before them.
proof fn lemma_render_from_shift(a: Seq<Tree>, b: Seq<Tree>, full: bool, j: int)
    requires
        0 <= j <= b.len(),
    ensures
        render_from(a + b, full, a.len() + j) == render_from(b, full, j),
    decreases b.len() - j,
{
    if j < b.len() {
        lemma_render_from_shift(a, b, full, j + 1);
        assert((a + b)[a.len() + j] == b[j]);
    }
}

/// The text of a single node.
pub proof fn lemma_render_from_single(x: Tree, full: bool)
    ensures
        render_from(seq![x], full, 0) == render(x, full),
{
    assert(render_from(seq![x], full, 1) =~= Seq::<char>::empty());
    assert(render_from(seq![x], full, 0) =~= render(x, full));
}

/// Classifying a line loses and adds no character.
pub proof fn lemma_classify_from_text(t: Seq<char>, i: int)
    requires
        0 <= i <= t.len(),
    ensures
        render_from(classify_from(t, i), true, 0) == t.subrange(i, t.len() as int),
    decreases t.len() - i,
{
    if i < t.len() {
        lemma_first_match_bounds(t, i);
        if let Some((s, e, k)) = first_match(t, i) {
            lemma_classify_from_text(t, e);
            let before = if s > i {
                seq![run(t.subrange(i, s), MarkdownType::Paragraph)]
            } else {
                Seq::empty()
            };
            let mid = seq![run(t.subrange(s, e), k)];
            let rest = classify_from(t, e);
            lemma_render_from_concat(before + mid, rest, true, 0);
            lemma_render_from_concat(before, mid, true, 0);
            lemma_render_from_single(run(t.subrange(s, e), k), true);
            if s > i {
                lemma_render_from_single(run(t.subrange(i, s), MarkdownType::Paragraph), true);
            } else {
                assert(render_from(before, true, 0) =~= Seq::<char>::empty());
            }
            assert(classify_from(t, i) == before + mid + rest);
            assert(t.subrange(i, t.len() as int) =~= render_from(before, true, 0) + t.subrange(s, e)
                + t.subrange(e, t.len() as int));
        } else {
            lemma_render_from_single(run(t.subrange(i, t.len() as int), MarkdownType::Paragraph), true);
        }
    } else {
        assert(t.subrange(i, t.len() as int) =~= Seq::<char>::empty());
    }
}

/// Classifying text line by line loses and adds no character.
pub proof fn lemma_classify_lines_text(t: Seq<char>, i: int)
    requires
        0 <= i <= t.len(),
    ensures
        render_from(classify_lines(t, i), true, 0) == t.subrange(i, t.len() as int),
    decreases t.len() - i,
{
    if i < t.len() {
        lemma_first_of_bounds(t, i, '\n');
        let stop = line_stop(t, i);
        let line = t.subrange(i, stop);
        lemma_classify_from_text(line, 0);
        lemma_classify_lines_text(t, stop);
        lemma_render_from_concat(classify_from(line, 0), classify_lines(t, stop), true, 0);
        assert(line.subrange(0, line.len() as int) =~= line);
        assert(t.subrange(i, t.len() as int) =~= line + t.subrange(stop, t.len() as int));
    } else {
        assert(t.subrange(i, t.len() as int) =~= Seq::<char>::empty());
    }
}

/// The first position at or after `k` that holds `c`, or the length of `t`.
pub fn find_char(t: &Vec<char>, k: usize, c: char) -> (r: usize)
    requires
        k <= t@.len(),
    ensures
        r == first_of(t@, k as int, c),
{
    let mut j = k;
    while j < t.len() && t[j] != c
        invariant
            k <= j <= t@.len(),
            first_of(t@, j as int, c) == first_of(t@, k as int, c),
        decreases t.len() - j,
    {
        j += 1;
    }
    j
}

/// `is_link_char`, computed.
fn link_char(c: char) -> (r: bool)
    ensures
        r == is_link_char(c),
{
    c == '\\' || c == '/' || ('A' <= c && c <= 'Z') || ('a' <= c && c <= 'z') || ('0' <= c && c
        <= '9') || c == '_' || c == '-'
}

/// The first position at or after `k` that does not hold a link character.
fn find_link_end(t: &Vec<char>, k: usize) -> (r: usize)
    requires
        k <= t@.len(),
    ensures
        r == link_chars_end(t@, k as int),
{
    let mut j = k;
    while j < t.len() && link_char(t[j])
        invariant
            k <= j <= t@.len(),
            link_chars_end(t@, j as int) == link_chars_end(t@, k as int),
        decreases t.len() - j,
    {
        j += 1;
    }
    j
}

/// The end and kind of the run that starts at `i`, if one does.
fn run_at(t: &Vec<char>, i: usize) -> (r: Option<(usize, MarkdownType)>)
    requires
        i <= t@.len(),
    ensures
        match r {
            None => match_at(t@, i as int) is None,
            Some((e, k)) => match_at(t@, i as int) == Some((e as int, k)),
        },
{
    let n = t.len();
    if n - i > 1 && t[i] == '*' && t[i + 1] == '*' {
        let k = find_char(t, i + 2, '*');
        if k > i + 2 && k < n && n - k > 1 && t[k + 1] == '*' {
            Some((k + 2, MarkdownType::Bold))
        } else {
            None
        }
    } else if i < n && t[i] == '_' {
        let k = find_char(t, i + 1, '_');
        if k > i + 1 && k < n {
            Some((k + 1, MarkdownType::Italic))
        } else {
            None
        }
    } else if n - i > 1 && t[i] == '@' && t[i + 1] == '@' {
        let k = find_link_end(t, i + 2);
        if k > i + 2 {
            Some((k, MarkdownType::Link))
        } else {
            None
        }
    } else {
        None
    }
}

/// The start, end and kind of the leftmost run at or after `i`.
fn find_first_run(t: &Vec<char>, i: usize) -> (r: Option<(usize, usize, MarkdownType)>)
    requires
        i <= t@.len(),
    ensures
        match r {
            None => first_match(t@, i as int) is None,
            Some((s, e, k)) => first_match(t@, i as int) == Some((s as int, e as int, k)),
        },
{
    let mut j = i;
    while j < t.len()
        invariant
            i <= j <= t@.len(),
            first_match(t@, j as int) == first_match(t@, i as int),
        decreases t.len() - j,
    {
        if let Some((e, k)) = run_at(t, j) {
            return Some((j, e, k));
        }
        j += 1;
    }
    None
}

/// A leaf holding `t[lo..hi]` as a run of the given kind.
fn leaf_of(t: &Vec<char>, lo: usize, hi: usize, kind: MarkdownType) -> (r: Node)
    requires
        lo <= hi <= t@.len(),
    ensures
        r@ == run(t@.subrange(lo as int, hi as int), kind),
{
    Node::Leaf(MarkdownString { text: string_of_range(t, lo, hi), mdtype: kind })
}

/// Appends the runs of the line `line[lo..hi]` to `out`.
fn classify_line_into(t: &Vec<char>, lo: usize, hi: usize, out: &mut Vec<Node>)
    requires
        lo <= hi <= t@.len(),
    ensures
        nodes_trees(final(out)@) == nodes_trees(old(out)@) + classify_from(
            t@.subrange(lo as int, hi as int),
            0,
        ),
{
    let line = crate::text::copy_range(t, lo, hi);
    let ghost l = line@;
    let mut i: usize = 0;
    loop
        invariant
            line@ == l,
            i <= l.len(),
            l == t@.subrange(lo as int, hi as int),
            nodes_trees(out@) + classify_from(l, i as int) == nodes_trees(old(out)@)
                + classify_from(l, 0),
        decreases l.len() - i,
    {
        if i >= line.len() {
            assert(nodes_trees(out@) =~= nodes_trees(out@) + classify_from(l, i as int));
            return ;
        }
        proof {
            lemma_first_match_bounds(l, i as int);
        }
        let ghost before_out = nodes_trees(out@);
        let ghost i0 = i as int;
        match find_first_run(&line, i) {
            None => {
                out.push(leaf_of(&line, i, line.len(), MarkdownType::Paragraph));
                assert(nodes_trees(out@) =~= before_out + classify_from(l, i as int));
                assert(nodes_trees(out@) =~= nodes_trees(old(out)@) + classify_from(l, 0));
                return ;
            },
            Some((s, e, k)) => {
                if s > i {
                    out.push(leaf_of(&line, i, s, MarkdownType::Paragraph));
                }
                out.push(leaf_of(&line, s, e, k));
                let ghost pre = if s > i {
                    seq![run(l.subrange(i as int, s as int), MarkdownType::Paragraph)]
                } else {
                    Seq::empty()
                };
                assert(nodes_trees(out@) =~= before_out + pre + seq![run(l.subrange(s as int, e as int), k)]);
                assert(classify_from(l, i as int) == pre + seq![run(l.subrange(s as int, e as int), k)]
                    + classify_from(l, e as int));
                i = e;
                assert(nodes_trees(out@) + classify_from(l, i as int) =~= before_out
                    + classify_from(l, i0));
            },
        }
    }
}

/// The runs of `t`, each line (with its newline) classified on its own.
pub fn parse_strings(t: &Vec<char>) -> (r: Vec<Node>)
    ensures
        nodes_trees(r@) == classify_lines(t@, 0),
{
    let mut out: Vec<Node> = Vec::new();
    let mut i: usize = 0;
    while i < t.len()
        invariant
            i <= t@.len(),
            nodes_trees(out@) + classify_lines(t@, i as int) == classify_lines(t@, 0),
        decreases t.len() - i,
    {
        proof {
            lemma_first_of_bounds(t@, i as int, '\n');
        }
        let e = find_char(t, i, '\n');
        let stop = if e < t.len() {
            e + 1
        } else {
            t.len()
        };
        let ghost before = nodes_trees(out@);
        let ghost i0 = i as int;
        classify_line_into(t, i, stop, &mut out);
        assert(classify_lines(t@, i as int) == classify_from(t@.subrange(i as int, stop as int), 0)
            + classify_lines(t@, stop as int));
        i = stop;
        assert(nodes_trees(out@) + classify_lines(t@, i as int) =~= before + classify_lines(t@, i0));
    }
    assert(nodes_trees(out@) =~= nodes_trees(out@) + classify_lines(t@, i as int));
    out
}

/// Classifying a line gives leaves only.
pub proof fn lemma_classify_from_leaves(t: Seq<char>, i: int)
    ensures
        forall|j: int| 0 <= j < classify_from(t, i).len() ==> #[trigger] classify_from(t, i)[j] is Leaf,
    decreases t.len() - i,
{
    if 0 <= i < t.len() {
        lemma_first_match_bounds(t, i);
        if let Some((s, e, k)) = first_match(t, i) {
            lemma_classify_from_leaves(t, e);
        }
    }
}

/// Classifying text line by line gives well-formed leaves only.
pub proof fn lemma_classify_lines_leaves(t: Seq<char>, i: int)
    ensures
        forall|j: int| 0 <= j < classify_lines(t, i).len() ==> #[trigger] classify_lines(t, i)[j] is Leaf,
        forall|j: int| 0 <= j < classify_lines(t, i).len() ==> #[trigger] wf_tree(classify_lines(t, i)[j]),
        forall|j: int| 0 <= j < classify_lines(t, i).len() ==> #[trigger] all_expanded(classify_lines(t, i)[j]),
    decreases t.len() - i,
{
    if 0 <= i < t.len() {
        lemma_first_of_bounds(t, i, '\n');
        let stop = line_stop(t, i);
        lemma_classify_from_leaves(t.subrange(i, stop), 0);
        lemma_classify_lines_leaves(t, stop);
    }
}

} // verus!
