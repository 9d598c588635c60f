//! The mathematical model of a note: a tree of sections and classified text,
//! its two renderings and the maps between their positions.
use vstd::prelude::*;

verus! {

/// The kind of a classified span of text.
#[derive(Clone, Copy, Debug, PartialEq, Eq, Structural)]
pub enum MarkdownType {
    Empty,
    Heading,
    Paragraph,
    Bold,
    Italic,
    Link,
}

/// A node of the note, as a mathematical value.
#[verifier::ext_equal]
pub enum Tree {
    /// A run of classified text.
    Leaf { text: Seq<char>, kind: MarkdownType },
    /// A heading of `level` hashes followed by `heading`, and its content.
    Part { heading: Seq<char>, expanded: bool, level: nat, children: Seq<Tree> },
}

/// `n` hash characters.
pub open spec fn hashes(n: nat) -> Seq<char> {
    Seq::new(n, |_i: int| '#')
}

/// The text that stays visible for a node whatever its state: the whole text
/// of a leaf, the hash run and heading text of a section.
pub open spec fn head(t: Tree) -> Seq<char> {
    match t {
        Tree::Leaf { text, .. } => text,
        Tree::Part { heading, level, .. } => hashes(level) + heading,
    }
}

/// The text of a node: with `full`, every section counts as expanded; without,
/// a collapsed section shows its heading line only.
pub open spec fn render(t: Tree, full: bool) -> Seq<char>
    decreases t, 1int,
{
    match t {
        Tree::Leaf { text, .. } => text,
        Tree::Part { heading, expanded, level, children } => {
            if full || expanded {
                hashes(level) + heading + render_from(children, full, 0)
            } else {
                hashes(level) + heading
            }
        },
    }
}

/// The text of the nodes `s[i..]`, one after the other.
pub open spec fn render_from(s: Seq<Tree>, full: bool, i: int) -> Seq<char>
    decreases s, s.len() - i,
{
    if 0 <= i < s.len() {
        render(s[i], full) + render_from(s, full, i + 1)
    } else {
        Seq::empty()
    }
}

/// The length of the full text of a node.
pub open spec fn flen(t: Tree) -> int {
    render(t, true).len() as int
}

/// The length of the displayed text of a node.
pub open spec fn dlen(t: Tree) -> int {
    render(t, false).len() as int
}

/// Every node below the root is a leaf or a section of level one or more.
pub open spec fn wf_tree(t: Tree) -> bool
    decreases t, 1int,
{
    match t {
        Tree::Leaf { .. } => true,
        Tree::Part { level, children, .. } => level >= 1 && wf_from(children, 0),
    }
}

/// Every node of `s[i..]` is well formed.
pub open spec fn wf_from(s: Seq<Tree>, i: int) -> bool
    decreases s, s.len() - i,
{
    if 0 <= i < s.len() {
        wf_tree(s[i]) && wf_from(s, i + 1)
    } else {
        true
    }
}

/// `wf_from` says of each node what `wf_tree` says.
pub proof fn lemma_wf_from(s: Seq<Tree>, i: int)
    requires
        0 <= i <= s.len(),
    ensures
        wf_from(s, i) <==> forall|j: int| i <= j < s.len() ==> #[trigger] wf_tree(s[j]),
    decreases s.len() - i,
{
    if i < s.len() {
        lemma_wf_from(s, i + 1);
        if forall|j: int| i <= j < s.len() ==> #[trigger] wf_tree(s[j]) {
            assert(wf_tree(s[i]));
        }
    }
}

/// A section that methods may work on: its children are well formed, a
/// section of level zero (the root) has no heading text and is never
/// collapsed, and its full text fits in a `usize`.
pub open spec fn wf_section(t: Tree) -> bool {
    &&& t is Part
    &&& forall|j: int| 0 <= j < t->children.len() ==> #[trigger] wf_tree(t->children[j])
    &&& t->level == 0 ==> t->heading.len() == 0 && t->expanded
    &&& flen(t) <= usize::MAX
}

/// Maps a display position of a node to the full position of the same character.
pub open spec fn to_full(t: Tree, p: int) -> int
    decreases t, 1int,
{
    match t {
        Tree::Leaf { .. } => p,
        Tree::Part { expanded, children, .. } => {
            let h = head(t).len() as int;
            if p < h {
                p
            } else if expanded {
                h + to_full_from(children, p - h, 0)
            } else {
                p - h + flen(t)
            }
        },
    }
}

/// `to_full` over the nodes `s[i..]` laid one after the other.
pub open spec fn to_full_from(s: Seq<Tree>, p: int, i: int) -> int
    decreases s, s.len() - i,
{
    if 0 <= i < s.len() {
        if p < dlen(s[i]) {
            to_full(s[i], p)
        } else {
            flen(s[i]) + to_full_from(s, p - dlen(s[i]), i + 1)
        }
    } else {
        p
    }
}

/// Maps a full position of a node to a display position: the same character
/// where it is visible, else the last character of the heading line of the
/// collapsed section that hides it.
pub open spec fn to_display(t: Tree, f: int) -> int
    decreases t, 1int,
{
    match t {
        Tree::Leaf { .. } => f,
        Tree::Part { expanded, children, .. } => {
            let h = head(t).len() as int;
            if f < h {
                f
            } else if !expanded {
                h - 1
            } else {
                h + to_display_from(children, f - h, 0)
            }
        },
    }
}

/// `to_display` over the nodes `s[i..]` laid one after the other.
pub open spec fn to_display_from(s: Seq<Tree>, f: int, i: int) -> int
    decreases s, s.len() - i,
{
    if 0 <= i < s.len() {
        if f < flen(s[i]) {
            to_display(s[i], f)
        } else {
            dlen(s[i]) + to_display_from(s, f - flen(s[i]), i + 1)
        }
    } else {
        0
    }
}

/// A collapsed section hides text, it never adds any: the displayed text of a
/// node is never longer than its full text.
pub proof fn lemma_display_not_longer(t: Tree)
    ensures
        dlen(t) <= flen(t),
    decreases t, 1int,
{
    if let Tree::Part { children, .. } = t {
        lemma_display_not_longer_from(children, 0);
    }
}

/// `lemma_display_not_longer` over the nodes `s[i..]`.
pub proof fn lemma_display_not_longer_from(s: Seq<Tree>, i: int)
    ensures
        render_from(s, false, i).len() <= render_from(s, true, i).len(),
    decreases s, s.len() - i,
{
    if 0 <= i < s.len() {
        lemma_display_not_longer(s[i]);
        lemma_display_not_longer_from(s, i + 1);
    }
}

/// The text of one node of `s[i..]` is part of the text of them all.
pub proof fn lemma_render_from_part(s: Seq<Tree>, full: bool, i: int, j: int)
    requires
        0 <= i <= j < s.len(),
    ensures
        render(s[j], full).len() <= render_from(s, full, i).len(),
    decreases j - i,
{
    if i < j {
        lemma_render_from_part(s, full, i + 1, j);
    }
}

/// A displayed character of a node maps to a character of its full text, and
/// back to where it started.
pub proof fn lemma_to_full_inside(t: Tree, p: int)
    requires
        0 <= p < dlen(t),
    ensures
        0 <= to_full(t, p) < flen(t),
        to_display(t, to_full(t, p)) == p,
    decreases t, 1int,
{
    lemma_display_not_longer(t);
    if let Tree::Part { expanded, children, .. } = t {
        let h = head(t).len() as int;
        if p >= h && expanded {
            lemma_to_full_from(children, p - h, 0);
        }
    }
}

/// `lemma_to_full_inside` over the nodes `s[i..]`, their end included.
proof fn lemma_to_full_from(s: Seq<Tree>, p: int, i: int)
    requires
        0 <= i <= s.len(),
        0 <= p <= render_from(s, false, i).len(),
    ensures
        0 <= to_full_from(s, p, i) <= render_from(s, true, i).len(),
        p < render_from(s, false, i).len() ==> to_full_from(s, p, i) < render_from(s, true, i).len(),
        to_display_from(s, to_full_from(s, p, i), i) == p,
    decreases s, s.len() - i,
{
    if i < s.len() {
        lemma_display_not_longer_from(s, i + 1);
        if p < dlen(s[i]) {
            lemma_to_full_inside(s[i], p);
        } else {
            lemma_to_full_from(s, p - dlen(s[i]), i + 1);
        }
    }
}

/// For an expanded section, going from a display position to the full text
/// and back gives the position that was started from.
pub proof fn lemma_display_of_full(t: Tree, d: int)
    requires
        t is Part,
        t->expanded,
        0 <= d <= dlen(t),
    ensures
        0 <= to_full(t, d) <= flen(t),
        to_display(t, to_full(t, d)) == d,
{
    let h = head(t).len() as int;
    if d >= h {
        lemma_to_full_from(t->children, d - h, 0);
    }
}

/// `to_full` keeps the order of positions.
pub proof fn lemma_to_full_monotone(t: Tree, p: int, q: int)
    requires
        0 <= p <= q < dlen(t),
    ensures
        to_full(t, p) <= to_full(t, q),
    decreases t, 1int,
{
    if let Tree::Part { expanded, children, .. } = t {
        let h = head(t).len() as int;
        if p >= h && expanded {
            lemma_to_full_from_monotone(children, p - h, q - h, 0);
        } else if q >= h && expanded {
            lemma_to_full_from(children, q - h, 0);
        }
    }
}

/// `lemma_to_full_monotone` over the nodes `s[i..]`, their end included.
pub proof fn lemma_to_full_from_monotone(s: Seq<Tree>, p: int, q: int, i: int)
    requires
        0 <= i <= s.len(),
        0 <= p <= q <= render_from(s, false, i).len(),
    ensures
        to_full_from(s, p, i) <= to_full_from(s, q, i),
    decreases s, s.len() - i,
{
    if i < s.len() {
        if q < dlen(s[i]) {
            lemma_to_full_monotone(s[i], p, q);
        } else if p < dlen(s[i]) {
            lemma_to_full_inside(s[i], p);
            lemma_to_full_from(s, q - dlen(s[i]), i + 1);
        } else {
            lemma_to_full_from_monotone(s, p - dlen(s[i]), q - dlen(s[i]), i + 1);
        }
    }
}

/// A full position of a well-formed node maps into its displayed text.
pub proof fn lemma_to_display_inside(t: Tree, f: int)
    requires
        wf_tree(t),
        0 <= f < flen(t),
    ensures
        0 <= to_display(t, f) < dlen(t),
    decreases t, 1int,
{
    if let Tree::Part { expanded, children, level, .. } = t {
        let h = head(t).len() as int;
        assert(h >= 1);
        if f >= h && expanded {
            lemma_wf_from(children, 0);
            lemma_to_display_from(children, f - h, 0);
        }
    }
}

/// `lemma_to_display_inside` over the nodes `s[i..]`, their end included.
pub proof fn lemma_to_display_from(s: Seq<Tree>, f: int, i: int)
    requires
        0 <= i <= s.len(),
        forall|j: int| 0 <= j < s.len() ==> #[trigger] wf_tree(s[j]),
        0 <= f <= render_from(s, true, i).len(),
    ensures
        0 <= to_display_from(s, f, i) <= render_from(s, false, i).len(),
        f < render_from(s, true, i).len() ==> to_display_from(s, f, i) < render_from(
            s,
            false,
            i,
        ).len(),
    decreases s, s.len() - i,
{
    if i < s.len() {
        if f < flen(s[i]) {
            lemma_to_display_inside(s[i], f);
        } else {
            lemma_to_display_from(s, f - flen(s[i]), i + 1);
        }
    }
}

/// Both maps stay within the texts of a well-formed section.
pub proof fn lemma_section_maps_bounded(t: Tree, p: int)
    requires
        wf_section(t),
        0 <= p,
    ensures
        p <= dlen(t) ==> 0 <= to_full(t, p) <= flen(t),
        p <= flen(t) ==> 0 <= to_display(t, p) <= dlen(t),
{
    lemma_display_not_longer(t);
    let h = head(t).len() as int;
    if p >= h && t->expanded {
        if p <= dlen(t) {
            lemma_to_full_from(t->children, p - h, 0);
        }
        if p <= flen(t) {
            lemma_to_display_from(t->children, p - h, 0);
        }
    }
}

/// How a change of collapse state treats a section's flag.
pub enum FlagOp {
    Toggle,
    Collapse,
    Expand,
}

/// The new value of an `expanded` flag.
pub open spec fn apply_flag(op: FlagOp, expanded: bool) -> bool {
    match op {
        FlagOp::Toggle => !expanded,
        FlagOp::Collapse => false,
        FlagOp::Expand => true,
    }
}

/// `path` leads, by child indices, from `t` to a section.
pub open spec fn valid_path(t: Tree, path: Seq<usize>) -> bool
    decreases path.len(),
{
    &&& t is Part
    &&& path.len() > 0 ==> {
        &&& path[0] < t->children.len()
        &&& valid_path(t->children[path[0] as int], path.drop_first())
    }
}

/// `t` with the flag of the section at `path` changed by `op`; a section of
/// level zero keeps its flag.
pub open spec fn change_flag(t: Tree, path: Seq<usize>, op: FlagOp) -> Tree
    decreases path.len(),
{
    match t {
        Tree::Leaf { .. } => t,
        Tree::Part { heading, expanded, level, children } => {
            if path.len() == 0 {
                if level == 0 {
                    t
                } else {
                    Tree::Part { heading, expanded: apply_flag(op, expanded), level, children }
                }
            } else if path[0] < children.len() {
                Tree::Part {
                    heading,
                    expanded,
                    level,
                    children: children.update(
                        path[0] as int,
                        change_flag(children[path[0] as int], path.drop_first(), op),
                    ),
                }
            } else {
                t
            }
        },
    }
}

/// The path, relative to `t`, of the deepest visible section whose span holds
/// display position `p`; a position in a leaf gives its section. A position
/// belongs to the node whose span starts at or before it and ends after it;
/// the end of the text belongs to the last node.
pub open spec fn locate(t: Tree, p: int) -> Seq<usize>
    decreases t, 1int,
{
    match t {
        Tree::Leaf { .. } => Seq::empty(),
        Tree::Part { expanded, children, .. } => {
            let h = head(t).len() as int;
            if p < h || !expanded {
                Seq::empty()
            } else {
                locate_from(children, p - h, 0)
            }
        },
    }
}

/// `locate` over the nodes `s[i..]` laid one after the other.
pub open spec fn locate_from(s: Seq<Tree>, p: int, i: int) -> Seq<usize>
    decreases s, s.len() - i,
{
    if 0 <= i < s.len() {
        if p < dlen(s[i]) || (i == s.len() - 1 && p == dlen(s[i])) {
            if s[i] is Leaf {
                Seq::empty()
            } else {
                seq![i as usize] + locate(s[i], p)
            }
        } else {
            locate_from(s, p - dlen(s[i]), i + 1)
        }
    } else {
        Seq::empty()
    }
}

/// A run of text of the given kind.
pub open spec fn run(text: Seq<char>, kind: MarkdownType) -> Tree {
    Tree::Leaf { text, kind }
}

/// The classified runs that make up the displayed text of `t`: each section
/// gives a heading run for its hash run and heading text.
pub open spec fn spans(t: Tree) -> Seq<Tree>
    decreases t, 1int,
{
    match t {
        Tree::Leaf { .. } => seq![t],
        Tree::Part { expanded, children, .. } => {
            if expanded {
                seq![run(head(t), MarkdownType::Heading)] + spans_from(children, 0)
            } else {
                seq![run(head(t), MarkdownType::Heading)]
            }
        },
    }
}

/// `spans` of the nodes `s[i..]`, one after the other.
pub open spec fn spans_from(s: Seq<Tree>, i: int) -> Seq<Tree>
    decreases s, s.len() - i,
{
    if 0 <= i < s.len() {
        spans(s[i]) + spans_from(s, i + 1)
    } else {
        Seq::empty()
    }
}

/// The run that covers display position `p`: a leaf, or a heading run for
/// the hash run and heading text of a section; an empty run where no
/// character is there (from the end of the text on).
pub open spec fn span_at(t: Tree, p: int) -> Tree
    decreases t, 1int,
{
    match t {
        Tree::Leaf { .. } => t,
        Tree::Part { expanded, children, .. } => {
            let h = head(t).len() as int;
            if p < h {
                run(head(t), MarkdownType::Heading)
            } else if !expanded {
                run(Seq::empty(), MarkdownType::Empty)
            } else {
                span_at_from(children, p - h, 0)
            }
        },
    }
}

/// `span_at` over the nodes `s[i..]` laid one after the other.
pub open spec fn span_at_from(s: Seq<Tree>, p: int, i: int) -> Tree
    decreases s, s.len() - i,
{
    if 0 <= i < s.len() {
        if p < dlen(s[i]) {
            span_at(s[i], p)
        } else {
            span_at_from(s, p - dlen(s[i]), i + 1)
        }
    } else {
        run(Seq::empty(), MarkdownType::Empty)
    }
}

/// Replacing a node of `s` by one with the same text keeps the text of `s[k..]`.
pub proof fn lemma_render_from_update(s: Seq<Tree>, full: bool, k: int, i: int, x: Tree)
    requires
        0 <= i < s.len(),
        0 <= k,
        render(x, full) == render(s[i], full),
    ensures
        render_from(s.update(i, x), full, k) == render_from(s, full, k),
    decreases s.len() - k,
{
    if k < s.len() {
        lemma_render_from_update(s, full, k + 1, i, x);
    }
}

/// Replacing a node of `s` by a well-formed one keeps `s[k..]` well formed.
pub proof fn lemma_wf_from_update(s: Seq<Tree>, k: int, i: int, x: Tree)
    requires
        0 <= i < s.len(),
        0 <= k,
        wf_tree(x),
        wf_from(s, k),
    ensures
        wf_from(s.update(i, x), k),
    decreases s.len() - k,
{
    if k < s.len() {
        lemma_wf_from_update(s, k + 1, i, x);
    }
}

/// A change of collapse state keeps the full text and well-formedness.
pub proof fn lemma_change_flag(t: Tree, path: Seq<usize>, op: FlagOp)
    requires
        valid_path(t, path),
    ensures
        render(change_flag(t, path, op), true) == render(t, true),
        wf_tree(t) ==> wf_tree(change_flag(t, path, op)),
        wf_section(t) ==> wf_section(change_flag(t, path, op)),
        change_flag(t, path, op) is Part,
        change_flag(t, path, op)->level == t->level,
        change_flag(t, path, op)->heading == t->heading,
    decreases path.len(),
{
    let r = change_flag(t, path, op);
    if path.len() > 0 {
        let i = path[0] as int;
        let c = t->children[i];
        lemma_change_flag(c, path.drop_first(), op);
        lemma_render_from_update(t->children, true, 0, i, change_flag(c, path.drop_first(), op));
        if wf_tree(t) {
            lemma_wf_from(t->children, 0);
            lemma_wf_from_update(t->children, 0, i, change_flag(c, path.drop_first(), op));
        }
        if wf_section(t) {
            lemma_wf_from(t->children, 0);
            lemma_wf_from_update(t->children, 0, i, change_flag(c, path.drop_first(), op));
            lemma_wf_from(r->children, 0);
        }
    }
}

/// `s` with `x` inserted before position `at`.
pub open spec fn splice(s: Seq<char>, at: int, x: Seq<char>) -> Seq<char> {
    s.subrange(0, at) + x + s.subrange(at, s.len() as int)
}

/// Text inserted at display position `p` of `t` can go straight into a
/// heading text or a leaf: `p` lies after the hash run of a heading and
/// before its end, or in a visible leaf.
pub open spec fn can_insert(t: Tree, p: int) -> bool
    decreases t, 1int,
{
    match t {
        Tree::Leaf { text, .. } => 0 <= p <= text.len(),
        Tree::Part { expanded, level, children, .. } => {
            let h = head(t).len() as int;
            if p < level {
                false
            } else if p < h {
                true
            } else if !expanded {
                false
            } else {
                can_insert_from(children, p - h, 0)
            }
        },
    }
}

/// `can_insert` over the nodes `s[i..]` laid one after the other.
pub open spec fn can_insert_from(s: Seq<Tree>, p: int, i: int) -> bool
    decreases s, s.len() - i,
{
    if 0 <= i < s.len() {
        if p < dlen(s[i]) {
            can_insert(s[i], p)
        } else {
            can_insert_from(s, p - dlen(s[i]), i + 1)
        }
    } else {
        false
    }
}

/// `t` with `x` inserted at display position `p`, where `can_insert(t, p)`.
pub open spec fn inserted(t: Tree, p: int, x: Seq<char>) -> Tree
    decreases t, 1int,
{
    match t {
        Tree::Leaf { text, kind } => Tree::Leaf { text: splice(text, p, x), kind },
        Tree::Part { heading, expanded, level, children } => {
            let h = head(t).len() as int;
            if p < h {
                Tree::Part { heading: splice(heading, p - level, x), expanded, level, children }
            } else {
                Tree::Part {
                    heading,
                    expanded,
                    level,
                    children: inserted_from(children, p - h, x, 0),
                }
            }
        },
    }
}

/// `inserted` over the nodes `s[i..]` laid one after the other.
pub open spec fn inserted_from(s: Seq<Tree>, p: int, x: Seq<char>, i: int) -> Seq<Tree>
    decreases s, s.len() - i,
{
    if 0 <= i < s.len() {
        if p < dlen(s[i]) {
            s.update(i, inserted(s[i], p, x))
        } else {
            inserted_from(s, p - dlen(s[i]), x, i + 1)
        }
    } else {
        s
    }
}

/// Nodes before `k` do not count in the text of `s[k..]`.
pub proof fn lemma_render_from_update_before(s: Seq<Tree>, full: bool, k: int, i: int, x: Tree)
    requires
        0 <= i < k,
        i < s.len(),
    ensures
        render_from(s.update(i, x), full, k) == render_from(s, full, k),
    decreases s.len() - k,
{
    if k < s.len() {
        lemma_render_from_update_before(s, full, k + 1, i, x);
    }
}

/// An insertion into a heading text or a leaf inserts into both texts of the
/// node: at `p` in the displayed text, at `to_full(t, p)` in the full text.
pub proof fn lemma_inserted(t: Tree, p: int, x: Seq<char>)
    requires
        can_insert(t, p),
        0 <= p,
    ensures
        render(inserted(t, p, x), false) == splice(render(t, false), p, x),
        render(inserted(t, p, x), true) == splice(render(t, true), to_full(t, p), x),
        0 <= to_full(t, p) <= flen(t),
        p <= dlen(t),
        wf_tree(t) ==> wf_tree(inserted(t, p, x)),
        t is Part ==> inserted(t, p, x) is Part && inserted(t, p, x)->level == t->level
            && inserted(t, p, x)->expanded == t->expanded,
    decreases t, 1int,
{
    lemma_display_not_longer(t);
    match t {
        Tree::Leaf { text, kind } => {
        },
        Tree::Part { heading, expanded, level, children } => {
            let h = head(t).len() as int;
            let hs = hashes(level);
            let u = inserted(t, p, x);
            if p < h {
                let hd = splice(heading, p - level, x);
                assert(hs + hd =~= splice(hs + heading, p, x));
                if expanded {
                    let r = render_from(children, false, 0);
                    assert(hs + hd + r =~= splice(hs + heading + r, p, x));
                } else {
                    assert(hs + hd =~= splice(hs + heading, p, x));
                }
                let rf = render_from(children, true, 0);
                assert(hs + hd + rf =~= splice(hs + heading + rf, p, x));
                assert(u == Tree::Part { heading: hd, expanded, level, children });
            } else {
                lemma_inserted_from(children, p - h, x, 0);
                let c2 = inserted_from(children, p - h, x, 0);
                let q = to_full_from(children, p - h, 0);
                assert(hs + heading + render_from(c2, false, 0) =~= splice(
                    hs + heading + render_from(children, false, 0),
                    p,
                    x,
                ));
                assert(hs + heading + render_from(c2, true, 0) =~= splice(
                    hs + heading + render_from(children, true, 0),
                    h + q,
                    x,
                ));
                assert(u == Tree::Part { heading, expanded, level, children: c2 });
                if wf_tree(t) {
                    lemma_wf_from(children, 0);
                    lemma_wf_from(c2, 0);
                    assert forall|j: int| 0 <= j < c2.len() implies #[trigger] wf_tree(c2[j]) by {
                        assert(wf_tree(children[j]));
                    }
                    assert(wf_from(c2, 0));
                }
            }
        },
    }
}

/// `lemma_inserted` over the nodes `s[i..]`.
pub proof fn lemma_inserted_from(s: Seq<Tree>, p: int, x: Seq<char>, i: int)
    requires
        can_insert_from(s, p, i),
        0 <= p,
        0 <= i,
    ensures
        inserted_from(s, p, x, i).len() == s.len(),
        forall|j: int| 0 <= j < i ==> #[trigger] inserted_from(s, p, x, i)[j] == s[j],
        render_from(inserted_from(s, p, x, i), false, i) == splice(render_from(s, false, i), p, x),
        render_from(inserted_from(s, p, x, i), true, i) == splice(
            render_from(s, true, i),
            to_full_from(s, p, i),
            x,
        ),
        0 <= to_full_from(s, p, i) <= render_from(s, true, i).len(),
        p < render_from(s, false, i).len(),
        forall|j: int| 0 <= j < s.len() && #[trigger] wf_tree(s[j]) ==> wf_tree(inserted_from(s, p, x, i)[j]),
    decreases s, s.len() - i,
{
    let r = inserted_from(s, p, x, i);
    if p < dlen(s[i]) {
        let y = inserted(s[i], p, x);
        lemma_inserted(s[i], p, x);
        lemma_to_full_inside(s[i], p);
        lemma_render_from_update_before(s, false, i + 1, i, y);
        lemma_render_from_update_before(s, true, i + 1, i, y);
        assert(r[i] == y);
        let a = render_from(s, false, i + 1);
        assert(render(y, false) + a =~= splice(render(s[i], false) + a, p, x));
        let b = render_from(s, true, i + 1);
        assert(render(y, true) + b =~= splice(render(s[i], true) + b, to_full(s[i], p), x));
    } else {
        lemma_inserted_from(s, p - dlen(s[i]), x, i + 1);
        lemma_display_not_longer(s[i]);
        assert(r[i] == s[i]);
        let a = render_from(s, false, i + 1);
        assert(render(s[i], false) + splice(a, p - dlen(s[i]), x) =~= splice(
            render(s[i], false) + a,
            p,
            x,
        ));
        let b = render_from(s, true, i + 1);
        let q = to_full_from(s, p - dlen(s[i]), i + 1);
        assert(render(s[i], true) + splice(b, q, x) =~= splice(
            render(s[i], true) + b,
            flen(s[i]) + q,
            x,
        ));
    }
}

/// `to_full` keeps the order of positions of an expanded section, its end included.
pub proof fn lemma_section_to_full_monotone(t: Tree, p: int, q: int)
    requires
        t is Part,
        t->expanded,
        0 <= p <= q <= dlen(t),
    ensures
        to_full(t, p) <= to_full(t, q),
{
    let h = head(t).len() as int;
    if p >= h {
        lemma_to_full_from_monotone(t->children, p - h, q - h, 0);
    } else if q >= h {
        lemma_to_full_from(t->children, q - h, 0);
    }
}

/// Every section of `t` has at most `usize::MAX` children, as every `Vec` has.
pub open spec fn counts_fit(t: Tree) -> bool
    decreases t, 1int,
{
    match t {
        Tree::Leaf { .. } => true,
        Tree::Part { children, .. } => children.len() <= usize::MAX && counts_fit_from(children, 0),
    }
}

/// `counts_fit` for each node of `s[i..]`.
pub open spec fn counts_fit_from(s: Seq<Tree>, i: int) -> bool
    decreases s, s.len() - i,
{
    if 0 <= i < s.len() {
        counts_fit(s[i]) && counts_fit_from(s, i + 1)
    } else {
        true
    }
}

proof fn lemma_counts_fit_from(s: Seq<Tree>, i: int, j: int)
    requires
        0 <= i <= j < s.len(),
        counts_fit_from(s, i),
    ensures
        counts_fit(s[j]),
    decreases j - i,
{
    if i < j {
        lemma_counts_fit_from(s, i + 1, j);
    }
}

/// The path that `locate` gives leads to a section.
pub proof fn lemma_locate_valid(t: Tree, p: int)
    requires
        t is Part,
        counts_fit(t),
    ensures
        valid_path(t, locate(t, p)),
    decreases t, 1int,
{
    let h = head(t).len() as int;
    if !(p < h || !t->expanded) {
        lemma_locate_from_valid(t->children, p - h, 0);
    }
}

/// `lemma_locate_valid` over the nodes `s[i..]`.
pub proof fn lemma_locate_from_valid(s: Seq<Tree>, p: int, i: int)
    requires
        0 <= i,
        s.len() <= usize::MAX,
        counts_fit_from(s, i),
    ensures
        locate_from(s, p, i).len() > 0 ==> {
            let path = locate_from(s, p, i);
            &&& path[0] < s.len()
            &&& valid_path(s[path[0] as int], path.drop_first())
        },
    decreases s, s.len() - i,
{
    if i < s.len() {
        if p < dlen(s[i]) || (i == s.len() - 1 && p == dlen(s[i])) {
            if s[i] is Part {
                lemma_counts_fit_from(s, i, i);
                lemma_locate_valid(s[i], p);
                let path = locate_from(s, p, i);
                assert(path.drop_first() =~= locate(s[i], p));
            }
        } else {
            lemma_locate_from_valid(s, p - dlen(s[i]), i + 1);
        }
    }
}

/// No section of `t` is collapsed.
pub open spec fn all_expanded(t: Tree) -> bool
    decreases t, 1int,
{
    match t {
        Tree::Leaf { .. } => true,
        Tree::Part { expanded, children, .. } => expanded && all_expanded_from(children, 0),
    }
}

/// `all_expanded` for each node of `s[i..]`.
pub open spec fn all_expanded_from(s: Seq<Tree>, i: int) -> bool
    decreases s, s.len() - i,
{
    if 0 <= i < s.len() {
        all_expanded(s[i]) && all_expanded_from(s, i + 1)
    } else {
        true
    }
}

/// `all_expanded_from` says of each node what `all_expanded` says.
pub proof fn lemma_all_expanded_from(s: Seq<Tree>, i: int)
    requires
        0 <= i <= s.len(),
    ensures
        all_expanded_from(s, i) <==> forall|j: int| i <= j < s.len() ==> #[trigger] all_expanded(s[j]),
    decreases s.len() - i,
{
    if i < s.len() {
        lemma_all_expanded_from(s, i + 1);
        if forall|j: int| i <= j < s.len() ==> #[trigger] all_expanded(s[j]) {
            assert(all_expanded(s[i]));
        }
    }
}

/// Where no section is collapsed, the displayed text is the full text.
pub proof fn lemma_all_expanded_display(t: Tree)
    requires
        all_expanded(t),
    ensures
        render(t, false) == render(t, true),
    decreases t, 1int,
{
    if let Tree::Part { children, .. } = t {
        lemma_all_expanded_display_from(children, 0);
    }
}

/// `lemma_all_expanded_display` over the nodes `s[i..]`.
pub proof fn lemma_all_expanded_display_from(s: Seq<Tree>, i: int)
    requires
        all_expanded_from(s, i),
    ensures
        render_from(s, false, i) == render_from(s, true, i),
    decreases s, s.len() - i,
{
    if 0 <= i < s.len() {
        lemma_all_expanded_display(s[i]);
        lemma_all_expanded_display_from(s, i + 1);
    }
}

} // verus!
