//! The block parser: splits text into sections at heading lines, recursively.
use vstd::prelude::*;
use crate::model::{
    Tree, render, render_from, hashes, wf_tree, lemma_wf_from, all_expanded, lemma_all_expanded_from,
};
use crate::inline::{
    first_of, classify_lines, find_char, parse_strings, lemma_first_of_bounds,
    lemma_classify_lines_text, lemma_render_from_concat, lemma_render_from_single,
    lemma_classify_lines_leaves,
};
use crate::tree::{Node, Section, nodes_trees};
use crate::text::{copy_range, string_of_range};

verus! {

/// The first position at or after `k` that does not hold `#`, or the length of `t`.
pub open spec fn hashes_end(t: Seq<char>, k: int) -> int
    decreases t.len() - k,
{
    if k < 0 || k >= t.len() {
        t.len() as int
    } else if t[k] != '#' {
        k
    } else {
        hashes_end(t, k + 1)
    }
}

/// Whether a heading line starts at `i`, and if so where its hash run and
/// its line end. A heading line starts at the start of a line with one or
/// more `#`; its hash run takes all of them, and the rest of the line, up to
/// the newline or the end of `t`, is its title, which may be empty.
pub open spec fn heading_at(t: Seq<char>, i: int) -> Option<(int, int)> {
    if 0 <= i < t.len() && (i == 0 || t[i - 1] == '\n') {
        let h = hashes_end(t, i);
        let e = first_of(t, i, '\n');
        if h == i {
            None
        } else {
            Some((h, e))
        }
    } else {
        None
    }
}

/// Just after the newline that ends the line ending at `e`, or `e` at the end of `t`.
pub open spec fn after_line(t: Seq<char>, e: int) -> int {
    if e < t.len() {
        e + 1
    } else {
        e
    }
}

/// The number of hashes of the heading line at `i`.
pub open spec fn heading_level(t: Seq<char>, i: int) -> int {
    match heading_at(t, i) {
        Some((h, _)) => h - i,
        None => 0,
    }
}

/// The first position at or after `from` where a heading line of at most
/// `cap` hashes starts.
pub open spec fn next_heading(t: Seq<char>, from: int, cap: int) -> Option<int>
    decreases t.len() - from,
{
    if from < 0 || from >= t.len() {
        None
    } else if heading_at(t, from) is Some && heading_level(t, from) <= cap {
        Some(from)
    } else {
        next_heading(t, from + 1, cap)
    }
}

proof fn lemma_hashes_end(t: Seq<char>, k: int)
    requires
        0 <= k <= t.len(),
    ensures
        k <= hashes_end(t, k) <= t.len(),
        hashes_end(t, k) < t.len() ==> t[hashes_end(t, k)] != '#',
        forall|j: int| k <= j < hashes_end(t, k) ==> t[j] == '#',
    decreases t.len() - k,
{
    if k < t.len() && t[k] == '#' {
        lemma_hashes_end(t, k + 1);
    }
}

/// The parts of a heading line lie in order within `t`, and its hash run is
/// made of `#`.
pub proof fn lemma_heading_at(t: Seq<char>, i: int)
    requires
        heading_at(t, i) is Some,
    ensures
        heading_at(t, i) matches Some((h, e)) && i < h <= e <= t.len() && e < after_line(t, e) + 1
            && after_line(t, e) <= t.len() && t.subrange(i, h) == hashes((h - i) as nat)
            && e == first_of(t, i, '\n'),
{
    lemma_hashes_end(t, i);
    lemma_first_of_bounds(t, i, '\n');
    let (h, e) = heading_at(t, i)->0;
    assert(t.subrange(i, h) =~= hashes((h - i) as nat));
}

/// A heading found from `from` on is a heading at or after `from`.
pub proof fn lemma_next_heading(t: Seq<char>, from: int, cap: int)
    requires
        0 <= from,
    ensures
        next_heading(t, from, cap) matches Some(n) ==> (from <= n < t.len() && heading_at(t, n) is Some
            && heading_level(t, n) <= cap),
    decreases t.len() - from,
{
    if 0 <= from < t.len() && !(heading_at(t, from) is Some && heading_level(t, from) <= cap) {
        lemma_next_heading(t, from + 1, cap);
    }
}

/// Where the title of the heading line at `i` starts.
pub open spec fn title_start(t: Seq<char>, i: int) -> int {
    match heading_at(t, i) {
        Some((h, _)) => h,
        None => i,
    }
}

/// Where the content below the heading line at `i` starts.
pub open spec fn body_start(t: Seq<char>, i: int) -> int {
    match heading_at(t, i) {
        Some((_, e)) => after_line(t, e),
        None => i,
    }
}

#[via_fn]
proof fn sections_from_decreases(t: Seq<char>, s: int) {
    if 0 <= s < t.len() && heading_at(t, s) is Some {
        lemma_heading_at(t, s);
        lemma_next_heading(t, body_start(t, s), heading_level(t, s));
    }
}

/// The nodes of `t`: the runs of the text before its first heading line,
/// then one expanded section for each heading line that has no more hashes
/// than the section before it (the first one counts whatever its hashes).
/// A section keeps the title with the newline that ends its line, and its
/// children are the nodes of the text up to the next such heading line.
pub open spec fn parse_tree(t: Seq<char>) -> Seq<Tree>
    decreases t.len(), 1int, 0int,
{
    match next_heading(t, 0, t.len() as int) {
        None => classify_lines(t, 0),
        Some(s) => classify_lines(t.subrange(0, s), 0) + sections_from(t, s),
    }
}

/// The sections of `t` from the heading line at `s` on.
pub open spec fn sections_from(t: Seq<char>, s: int) -> Seq<Tree>
    decreases t.len(), 0int, t.len() - s via sections_from_decreases
{
    if 0 <= s < t.len() && heading_at(t, s) is Some {
        let h = title_start(t, s);
        let b = body_start(t, s);
        let level = h - s;
        match next_heading(t, b, level) {
            None => seq![
                Tree::Part {
                    heading: t.subrange(h, b),
                    expanded: true,
                    level: level as nat,
                    children: parse_tree(t.subrange(b, t.len() as int)),
                },
            ],
            Some(n) => seq![
                Tree::Part {
                    heading: t.subrange(h, b),
                    expanded: true,
                    level: level as nat,
                    children: parse_tree(t.subrange(b, n)),
                },
            ] + sections_from(t, n),
        }
    } else {
        Seq::empty()
    }
}

/// Parsing loses and adds no character: the full text of the nodes of `t` is `t`.
pub proof fn lemma_parse_tree_text(t: Seq<char>)
    ensures
        render_from(parse_tree(t), true, 0) == t,
    decreases t.len(), 1int, 0int,
{
    match next_heading(t, 0, t.len() as int) {
        None => {
            lemma_classify_lines_text(t, 0);
            assert(t.subrange(0, t.len() as int) =~= t);
        },
        Some(s) => {
            lemma_next_heading(t, 0, t.len() as int);
            let pre = t.subrange(0, s);
            lemma_classify_lines_text(pre, 0);
            lemma_sections_text(t, s);
            lemma_render_from_concat(classify_lines(pre, 0), sections_from(t, s), true, 0);
            assert(pre.subrange(0, pre.len() as int) =~= pre);
            assert(t =~= pre + t.subrange(s, t.len() as int));
        },
    }
}

/// `lemma_parse_tree_text` for the sections from the heading line at `s` on.
pub proof fn lemma_sections_text(t: Seq<char>, s: int)
    requires
        0 <= s < t.len(),
        heading_at(t, s) is Some,
    ensures
        render_from(sections_from(t, s), true, 0) == t.subrange(s, t.len() as int),
    decreases t.len(), 0int, t.len() - s,
{
    lemma_heading_at(t, s);
    let h = title_start(t, s);
    let b = body_start(t, s);
    let level = h - s;
    lemma_next_heading(t, b, level);
    match next_heading(t, b, level) {
        None => {
            let sub = t.subrange(b, t.len() as int);
            lemma_parse_tree_text(sub);
            let p = Tree::Part {
                heading: t.subrange(h, b),
                expanded: true,
                level: level as nat,
                children: parse_tree(sub),
            };
            lemma_render_from_single(p, true);
            assert(render(p, true) =~= t.subrange(s, t.len() as int));
        },
        Some(n) => {
            let sub = t.subrange(b, n);
            lemma_parse_tree_text(sub);
            lemma_sections_text(t, n);
            let p = Tree::Part {
                heading: t.subrange(h, b),
                expanded: true,
                level: level as nat,
                children: parse_tree(sub),
            };
            lemma_render_from_single(p, true);
            lemma_render_from_concat(seq![p], sections_from(t, n), true, 0);
            assert(render(p, true) =~= t.subrange(s, n));
            assert(t.subrange(s, t.len() as int) =~= t.subrange(s, n) + t.subrange(n, t.len() as int));
        },
    }
}

/// The first position at or after `k` that does not hold `#`.
fn find_hashes_end(t: &Vec<char>, k: usize) -> (r: usize)
    requires
        k <= t@.len(),
    ensures
        r == hashes_end(t@, k as int),
{
    let mut j = k;
    while j < t.len() && t[j] == '#'
        invariant
            k <= j <= t@.len(),
            hashes_end(t@, j as int) == hashes_end(t@, k as int),
        decreases t.len() - j,
    {
        j += 1;
    }
    j
}

/// Where the hash run and the line of a heading line at `i` end, if one starts there.
fn find_heading_at(t: &Vec<char>, i: usize) -> (r: Option<(usize, usize)>)
    ensures
        match r {
            None => heading_at(t@, i as int) is None,
            Some((h, e)) => heading_at(t@, i as int) == Some((h as int, e as int)),
        },
{
    if !(i < t.len() && (i == 0 || t[i - 1] == '\n')) {
        return None;
    }
    proof {
        lemma_hashes_end(t@, i as int);
    }
    let h = find_hashes_end(t, i);
    let e = find_char(t, i, '\n');
    if h == i {
        None
    } else {
        Some((h, e))
    }
}

/// The first position at or after `from` where a heading line of at most
/// `cap` hashes starts.
fn find_heading(t: &Vec<char>, from: usize, cap: usize) -> (r: Option<usize>)
    requires
        from <= t@.len(),
    ensures
        match r {
            None => next_heading(t@, from as int, cap as int) is None,
            Some(n) => next_heading(t@, from as int, cap as int) == Some(n as int),
        },
{
    let mut j = from;
    while j < t.len()
        invariant
            from <= j <= t@.len(),
            next_heading(t@, j as int, cap as int) == next_heading(t@, from as int, cap as int),
        decreases t.len() - j,
    {
        if let Some((h, _)) = find_heading_at(t, j) {
            proof {
                lemma_heading_at(t@, j as int);
            }
            if h - j <= cap {
                return Some(j);
            }
        }
        j += 1;
    }
    None
}

/// The nodes of `text`: see `parse_tree`. Their full text is `text` again.
pub fn parse(text: String) -> (r: Vec<Node>)
    ensures
        nodes_trees(r@) == parse_tree(text@),
        crate::model::render_from(nodes_trees(r@), true, 0) == text@,
{
    proof {
        lemma_parse_tree_text(text@);
    }
    parse_chars(&crate::text::chars_of(text.as_str()))
}

/// The nodes of `t`: see `parse_tree`.
pub fn parse_chars(t: &Vec<char>) -> (r: Vec<Node>)
    ensures
        nodes_trees(r@) == parse_tree(t@),
    decreases t@.len(),
{
    let first = match find_heading(t, 0, t.len()) {
        None => {
            return parse_strings(t);
        },
        Some(s) => s,
    };
    proof {
        lemma_next_heading(t@, 0, t@.len() as int);
    }
    let prefix = copy_range(t, 0, first);
    let mut nodes = parse_strings(&prefix);
    let mut s = first;
    loop
        invariant
            s < t@.len(),
            heading_at(t@, s as int) is Some,
            nodes_trees(nodes@) + sections_from(t@, s as int) == parse_tree(t@),
        decreases t@.len() - s,
    {
        proof {
            lemma_heading_at(t@, s as int);
        }
        let (h, e) = match find_heading_at(t, s) {
            Some(p) => p,
            None => {
                return nodes;
            },
        };
        let b = if e < t.len() {
            e + 1
        } else {
            e
        };
        let level = h - s;
        let heading = string_of_range(t, h, b);
        proof {
            lemma_next_heading(t@, b as int, level as int);
        }
        let ghost before = nodes_trees(nodes@);
        match find_heading(t, b, level) {
            None => {
                let body = copy_range(t, b, t.len());
                let children = parse_chars(&body);
                let sec = Node::Section(Section { heading, expanded: true, level, children });
                nodes.push(sec);
                assert(nodes_trees(nodes@) =~= before + sections_from(t@, s as int));
                return nodes;
            },
            Some(n) => {
                let body = copy_range(t, b, n);
                let children = parse_chars(&body);
                let sec = Node::Section(Section { heading, expanded: true, level, children });
                nodes.push(sec);
                let ghost s0 = s as int;
                assert(sections_from(t@, s0) == seq![sec@] + sections_from(t@, n as int));
                s = n;
                assert(nodes_trees(nodes@) + sections_from(t@, s as int) =~= before + sections_from(
                    t@,
                    s0,
                ));
            },
        }
    }
}

/// Every node that parsing gives is well formed: its sections have one
/// hash or more.
pub proof fn lemma_parse_tree_wf(t: Seq<char>)
    ensures
        forall|j: int| 0 <= j < parse_tree(t).len() ==> #[trigger] wf_tree(parse_tree(t)[j]),
        forall|j: int| 0 <= j < parse_tree(t).len() ==> #[trigger] all_expanded(parse_tree(t)[j]),
    decreases t.len(), 1int, 0int,
{
    match next_heading(t, 0, t.len() as int) {
        None => {
            lemma_classify_lines_leaves(t, 0);
        },
        Some(s) => {
            lemma_next_heading(t, 0, t.len() as int);
            lemma_classify_lines_leaves(t.subrange(0, s), 0);
            lemma_sections_wf(t, s);
            let a = classify_lines(t.subrange(0, s), 0);
            let b = sections_from(t, s);
            assert forall|j: int| 0 <= j < (a + b).len() implies #[trigger] wf_tree((a + b)[j])
                && all_expanded((a + b)[j]) by {
                if j >= a.len() {
                    assert((a + b)[j] == b[j - a.len()]);
                }
            }
        },
    }
}

/// `lemma_parse_tree_wf` for the sections from the heading line at `s` on.
pub proof fn lemma_sections_wf(t: Seq<char>, s: int)
    ensures
        forall|j: int| 0 <= j < sections_from(t, s).len() ==> #[trigger] wf_tree(sections_from(t, s)[j]),
        forall|j: int| 0 <= j < sections_from(t, s).len() ==> #[trigger] all_expanded(sections_from(t, s)[j]),
    decreases t.len(), 0int, t.len() - s,
{
    if 0 <= s < t.len() && heading_at(t, s) is Some {
        lemma_heading_at(t, s);
        let h = title_start(t, s);
        let b = body_start(t, s);
        let level = h - s;
        lemma_next_heading(t, b, level);
        let sub = match next_heading(t, b, level) {
            None => t.subrange(b, t.len() as int),
            Some(n) => t.subrange(b, n),
        };
        lemma_parse_tree_wf(sub);
        lemma_wf_from(parse_tree(sub), 0);
        lemma_all_expanded_from(parse_tree(sub), 0);
        let p = Tree::Part {
            heading: t.subrange(h, b),
            expanded: true,
            level: level as nat,
            children: parse_tree(sub),
        };
        assert(wf_tree(p));
        assert(all_expanded(p));
        if let Some(n) = next_heading(t, b, level) {
            lemma_sections_wf(t, n);
            let rest = sections_from(t, n);
            assert forall|j: int| 0 <= j < (seq![p] + rest).len() implies #[trigger] wf_tree(
                (seq![p] + rest)[j],
            ) && all_expanded((seq![p] + rest)[j]) by {
                if j >= 1 {
                    assert((seq![p] + rest)[j] == rest[j - 1]);
                }
            }
        }
    }
}

} // verus!
