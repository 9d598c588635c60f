//! The note's node types and the operations on them.
use vstd::prelude::*;
use crate::model::{
    MarkdownType, Tree, render, render_from, flen, dlen, head, wf_tree, wf_section, to_full,
    to_full_from, to_display, to_display_from, lemma_display_not_longer, lemma_render_from_part,
    lemma_to_full_inside, lemma_to_display_inside, lemma_section_maps_bounded, lemma_wf_from,
    hashes, FlagOp, valid_path, change_flag, lemma_change_flag, locate, locate_from, spans,
    spans_from, span_at, span_at_from, run, can_insert, can_insert_from, inserted, inserted_from,
    lemma_inserted,
    counts_fit, counts_fit_from,
};
use crate::text::{char_count, append_hashes, push_str, spliced, chars_of, string_of_range};

verus! {

/// A run of classified text.
#[derive(Clone, Debug)]
pub struct MarkdownString {
    pub text: String,
    pub mdtype: MarkdownType,
}

/// A heading of `level` hashes followed by `heading` (which keeps the newline
/// that ended its line, if any), and the nodes below it.
#[derive(Debug)]
pub struct Section {
    pub heading: String,
    pub expanded: bool,
    pub level: usize,
    pub children: Vec<Node>,
}

/// A node of the note.
#[derive(Debug)]
pub enum Node {
    Leaf(MarkdownString),
    Section(Section),
}

/// The model of a node.
pub open spec fn node_tree(n: Node) -> Tree
    decreases n, 1int,
{
    match n {
        Node::Leaf(m) => Tree::Leaf { text: m.text@, kind: m.mdtype },
        Node::Section(s) => section_tree(s),
    }
}

/// The model of a section.
pub open spec fn section_tree(s: Section) -> Tree
    decreases s, 0int,
{
    Tree::Part {
        heading: s.heading@,
        expanded: s.expanded,
        level: s.level as nat,
        children: nodes_trees(s.children@),
    }
}

/// The models of a sequence of nodes.
pub open spec fn nodes_trees(v: Seq<Node>) -> Seq<Tree>
    decreases v,
{
    Seq::new(
        v.len(),
        |j: int|
            if 0 <= j < v.len() {
                node_tree(v[j])
            } else {
                Tree::Leaf { text: Seq::empty(), kind: MarkdownType::Empty }
            },
    )
}

impl View for MarkdownString {
    type V = Tree;

    open spec fn view(&self) -> Tree {
        Tree::Leaf { text: self.text@, kind: self.mdtype }
    }
}

impl View for Section {
    type V = Tree;

    open spec fn view(&self) -> Tree {
        section_tree(*self)
    }
}

impl View for Node {
    type V = Tree;

    open spec fn view(&self) -> Tree {
        node_tree(*self)
    }
}

impl Default for Section {
    /// An empty root section.
    fn default() -> (r: Self)
        ensures
            r@ == (Tree::Part { heading: Seq::empty(), expanded: true, level: 0, children: Seq::empty() }),
    {
        let r = Section { heading: String::new(), expanded: true, level: 0, children: Vec::new() };
        assert(nodes_trees(r.children@) =~= Seq::<Tree>::empty());
        assert(r@ =~= (Tree::Part {
            heading: Seq::empty(),
            expanded: true,
            level: 0,
            children: Seq::empty(),
        }));
        r
    }
}

impl MarkdownString {
    /// A paragraph holding `content`.
    pub fn new(content: String) -> (r: Self)
        ensures
            r@ == (Tree::Leaf { text: content@, kind: MarkdownType::Paragraph }),
    {
        MarkdownString { text: content, mdtype: MarkdownType::Paragraph }
    }

    /// The target that a link run names: its text after the `@@` marker.
    pub fn link_target(&self) -> (r: Option<String>)
        ensures
            r is Some <==> self.mdtype == MarkdownType::Link && self.text@.len() >= 2,
            r matches Some(t) ==> t@ == self.text@.subrange(2, self.text@.len() as int),
    {
        if self.mdtype != MarkdownType::Link {
            return None;
        }
        let v = chars_of(self.text.as_str());
        if v.len() < 2 {
            return None;
        }
        Some(string_of_range(&v, 2, v.len()))
    }

    /// A copy of this run.
    pub fn duplicate(&self) -> (r: Self)
        ensures
            r@ == self@,
    {
        MarkdownString { text: self.text.clone(), mdtype: self.mdtype }
    }
}

impl Section {
    /// Holds for a section that the operations below accept.
    pub open spec fn inv(&self) -> bool {
        wf_section(self@)
    }

    /// The facts about child `i` that the operations below rely on.
    proof fn lemma_child(&self, i: int)
        requires
            self.inv(),
            0 <= i < self.children@.len(),
        ensures
            self.children@[i]@ == self@->children[i],
            wf_tree(self.children@[i]@),
            flen(self.children@[i]@) <= usize::MAX,
            self@->children.len() == self.children@.len(),
    {
        lemma_render_from_part(self@->children, true, 0, i);
        lemma_wf_from(self@->children, 0);
    }

    /// The number of characters of the hash run and the heading text.
    fn head_len(&self) -> (r: usize)
        requires
            self.inv(),
        ensures
            r == head(self@).len(),
    {
        self.level + char_count(self.heading.as_str())
    }

    /// The length of the full text (`full`) or of the displayed text.
    pub fn len(&self, full: bool) -> (r: usize)
        requires
            self.inv(),
        ensures
            r == render(self@, full).len(),
        decreases self, 0int,
    {
        proof {
            lemma_display_not_longer(self@);
        }
        let ghost ch = self@->children;
        let mut length = self.head_len();
        if self.expanded || full {
            let mut i: usize = 0;
            while i < self.children.len()
                invariant
                    self.inv(),
                    ch == self@->children,
                    ch.len() == self.children@.len(),
                    self.expanded || full,
                    i <= ch.len(),
                    length + render_from(ch, full, i as int).len() == render(self@, full).len(),
                    render(self@, full).len() <= usize::MAX,
                decreases self.children.len() - i,
            {
                proof {
                    self.lemma_child(i as int);
                }
                let l = self.children[i].len(full);
                length = length + l;
                i += 1;
            }
        }
        length
    }

    /// Maps a display position to the full position of the same character.
    pub fn translate(&self, pos: usize) -> (r: usize)
        requires
            self.inv(),
            pos <= dlen(self@),
        ensures
            r == to_full(self@, pos as int),
        decreases self, 0int,
    {
        proof {
            lemma_section_maps_bounded(self@, pos as int);
        }
        let ghost ch = self@->children;
        let h = self.head_len();
        if pos < h {
            return pos;
        }
        if !self.expanded {
            return pos - h + self.len(true);
        }
        let mut rel = pos - h;
        let mut base = h;
        let mut i: usize = 0;
        while i < self.children.len()
            invariant
                self.inv(),
                self.expanded,
                ch == self@->children,
                ch.len() == self.children@.len(),
                i <= ch.len(),
                h == head(self@).len(),
                base + to_full_from(ch, rel as int, i as int) == to_full(self@, pos as int),
                rel <= render_from(ch, false, i as int).len(),
                base + render_from(ch, true, i as int).len() == flen(self@),
            decreases self.children.len() - i,
        {
            proof {
                self.lemma_child(i as int);
                lemma_display_not_longer(ch[i as int]);
            }
            let dl = self.children[i].len(false);
            if rel < dl {
                proof {
                    lemma_to_full_inside(ch[i as int], rel as int);
                }
                let r = self.children[i].translate(rel);
                return base + r;
            }
            let fl = self.children[i].len(true);
            base = base + fl;
            rel = rel - dl;
            i += 1;
        }
        base + rel
    }

    /// Maps a full position to the display position of the same character, or
    /// to the end of the heading line of the collapsed section that hides it.
    pub fn inv_translate(&self, pos: usize) -> (r: usize)
        requires
            self.inv(),
            pos <= flen(self@),
        ensures
            r == to_display(self@, pos as int),
        decreases self, 0int,
    {
        proof {
            lemma_section_maps_bounded(self@, pos as int);
            lemma_display_not_longer(self@);
        }
        let ghost ch = self@->children;
        let h = self.head_len();
        if pos < h {
            return pos;
        }
        if !self.expanded {
            return h - 1;
        }
        let mut rel = pos - h;
        let mut base = h;
        let mut i: usize = 0;
        while i < self.children.len()
            invariant
                self.inv(),
                self.expanded,
                ch == self@->children,
                ch.len() == self.children@.len(),
                i <= ch.len(),
                h == head(self@).len(),
                base + to_display_from(ch, rel as int, i as int) == to_display(self@, pos as int),
                rel <= render_from(ch, true, i as int).len(),
                base + render_from(ch, false, i as int).len() == dlen(self@),
                dlen(self@) <= usize::MAX,
            decreases self.children.len() - i,
        {
            proof {
                self.lemma_child(i as int);
                lemma_display_not_longer(ch[i as int]);
            }
            let fl = self.children[i].len(true);
            if rel < fl {
                proof {
                    lemma_to_display_inside(ch[i as int], rel as int);
                }
                let r = self.children[i].inv_translate(rel);
                return base + r;
            }
            let dl = self.children[i].len(false);
            base = base + dl;
            rel = rel - fl;
            i += 1;
        }
        base
    }
}

impl Node {
    /// Holds for a node below a section that the operations accept.
    pub open spec fn inv(&self) -> bool {
        wf_tree(self@) && flen(self@) <= usize::MAX
    }

    /// A section below another one satisfies `Section::inv`.
    proof fn lemma_section_inv(&self)
        requires
            self.inv(),
            self is Section,
        ensures
            self->Section_0.inv(),
            self@ == self->Section_0@,
    {
        let s = self->Section_0;
        assert(self@ == s@);
        lemma_wf_from(s@->children, 0);
    }

    /// The length of the full text (`full`) or of the displayed text.
    pub fn len(&self, full: bool) -> (r: usize)
        requires
            self.inv(),
        ensures
            r == render(self@, full).len(),
        decreases self, 1int,
    {
        match self {
            Node::Leaf(m) => char_count(m.text.as_str()),
            Node::Section(s) => {
                proof {
                    self.lemma_section_inv();
                }
                s.len(full)
            },
        }
    }

    /// `Section::translate`, for any node.
    pub fn translate(&self, pos: usize) -> (r: usize)
        requires
            self.inv(),
            pos < dlen(self@),
        ensures
            r == to_full(self@, pos as int),
        decreases self, 1int,
    {
        match self {
            Node::Leaf(_) => pos,
            Node::Section(s) => {
                proof {
                    self.lemma_section_inv();
                }
                s.translate(pos)
            },
        }
    }

    /// `Section::inv_translate`, for any node.
    pub fn inv_translate(&self, pos: usize) -> (r: usize)
        requires
            self.inv(),
            pos < flen(self@),
        ensures
            r == to_display(self@, pos as int),
        decreases self, 1int,
    {
        match self {
            Node::Leaf(_) => pos,
            Node::Section(s) => {
                proof {
                    self.lemma_section_inv();
                }
                s.inv_translate(pos)
            },
        }
    }
}

/// The runs that a sequence of classified strings stands for.
pub open spec fn runs_of(v: Seq<MarkdownString>) -> Seq<Tree> {
    Seq::new(v.len(), |j: int| v[j]@)
}

impl Section {
    /// Appends the full text (`full`) or the displayed text to `out`.
    pub fn write_to(&self, out: &mut String, full: bool)
        requires
            self.inv(),
        ensures
            final(out)@ == old(out)@ + render(self@, full),
        decreases self, 0int,
    {
        let ghost ch = self@->children;
        append_hashes(out, self.level);
        push_str(out, self.heading.as_str());
        if self.expanded || full {
            let mut i: usize = 0;
            while i < self.children.len()
                invariant
                    self.inv(),
                    ch == self@->children,
                    ch.len() == self.children@.len(),
                    self.expanded || full,
                    i <= ch.len(),
                    out@ + render_from(ch, full, i as int) == old(out)@ + render(self@, full),
                decreases self.children.len() - i,
            {
                proof {
                    self.lemma_child(i as int);
                }
                let ghost before = out@;
                self.children[i].write_to(out, full);
                i += 1;
                assert(out@ + render_from(ch, full, i as int) =~= before + render_from(
                    ch,
                    full,
                    i - 1,
                ));
            }
            assert(out@ =~= out@ + render_from(ch, full, i as int));
        } else {
            assert(out@ =~= old(out)@ + render(self@, full));
        }
    }

    /// The full text (`full`) or the displayed text.
    pub fn string(&self, full: bool) -> (r: String)
        requires
            self.inv(),
        ensures
            r@ == render(self@, full),
    {
        let mut out = String::new();
        self.write_to(&mut out, full);
        assert(out@ =~= render(self@, full));
        out
    }

    /// Changes the flag of the section at `path[k..]` by `op`.
    fn change_flag_at(&mut self, path: &[usize], k: usize, op: FlagOp)
        requires
            old(self).inv(),
            k <= path@.len(),
            valid_path(old(self)@, path@.subrange(k as int, path@.len() as int)),
        ensures
            final(self)@ == change_flag(old(self)@, path@.subrange(k as int, path@.len() as int), op),
            final(self).inv(),
        decreases path@.len() - k,
    {
        let ghost rest = path@.subrange(k as int, path@.len() as int);
        proof {
            lemma_change_flag(old(self)@, rest, op);
        }
        if k == path.len() {
            if self.level == 0 {
                return ;
            }
            self.expanded = match op {
                FlagOp::Toggle => !self.expanded,
                FlagOp::Collapse => false,
                FlagOp::Expand => true,
            };
            assert(self@ =~= change_flag(old(self)@, rest, op));
            return ;
        }
        let i = path[k];
        proof {
            assert(rest.drop_first() =~= path@.subrange(k + 1, path@.len() as int));
            self.lemma_child(i as int);
        }
        let child = self.children.remove(i);
        let changed = match child {
            Node::Section(mut sec) => {
                proof {
                    Node::Section(sec).lemma_section_inv();
                }
                sec.change_flag_at(path, k + 1, op);
                Node::Section(sec)
            },
            Node::Leaf(m) => Node::Leaf(m),
        };
        self.children.insert(i, changed);
        proof {
            assert(nodes_trees(self.children@) =~= old(self)@->children.update(
                i as int,
                changed@,
            ));
            assert(self@ =~= change_flag(old(self)@, rest, op));
        }
    }

    /// Flips the collapse state of the section at `path`; the root keeps its own.
    pub fn toggle(&mut self, path: &[usize])
        requires
            old(self).inv(),
            valid_path(old(self)@, path@),
        ensures
            final(self)@ == change_flag(old(self)@, path@, FlagOp::Toggle),
            final(self).inv(),
    {
        assert(path@.subrange(0, path@.len() as int) =~= path@);
        self.change_flag_at(path, 0, FlagOp::Toggle);
    }

    /// Collapses the section at `path`; the root stays expanded.
    pub fn collapse(&mut self, path: &[usize])
        requires
            old(self).inv(),
            valid_path(old(self)@, path@),
        ensures
            final(self)@ == change_flag(old(self)@, path@, FlagOp::Collapse),
            final(self).inv(),
    {
        assert(path@.subrange(0, path@.len() as int) =~= path@);
        self.change_flag_at(path, 0, FlagOp::Collapse);
    }

    /// Expands the section at `path`.
    pub fn expand(&mut self, path: &[usize])
        requires
            old(self).inv(),
            valid_path(old(self)@, path@),
        ensures
            final(self)@ == change_flag(old(self)@, path@, FlagOp::Expand),
            final(self).inv(),
    {
        assert(path@.subrange(0, path@.len() as int) =~= path@);
        self.change_flag_at(path, 0, FlagOp::Expand);
    }

    /// The path of the deepest visible section whose span holds display
    /// position `pos`.
    pub fn path(&self, pos: usize) -> (r: Vec<usize>)
        requires
            self.inv(),
            pos <= dlen(self@),
        ensures
            r@ == locate(self@, pos as int),
        decreases self, 0int,
    {
        let ghost ch = self@->children;
        let h = self.head_len();
        if pos < h || !self.expanded {
            return Vec::new();
        }
        let mut rel = pos - h;
        let mut i: usize = 0;
        while i < self.children.len()
            invariant
                self.inv(),
                self.expanded,
                ch == self@->children,
                ch.len() == self.children@.len(),
                i <= ch.len(),
                h == head(self@).len(),
                pos >= h,
                rel <= render_from(ch, false, i as int).len(),
                locate_from(ch, rel as int, i as int) == locate(self@, pos as int),
            decreases self.children.len() - i,
        {
            proof {
                self.lemma_child(i as int);
            }
            let dl = self.children[i].len(false);
            if rel < dl || (i + 1 == self.children.len() && rel == dl) {
                match &self.children[i] {
                    Node::Leaf(_) => {
                        return Vec::new();
                    },
                    Node::Section(sec) => {
                        proof {
                            self.children@[i as int].lemma_section_inv();
                        }
                        let mut r = vec![i];
                        let mut tail = sec.path(rel);
                        r.append(&mut tail);
                        return r;
                    },
                }
            }
            rel = rel - dl;
            i += 1;
        }
        Vec::new()
    }

    /// Appends the classified runs of the displayed text to `out`.
    pub fn write_spans(&self, out: &mut Vec<MarkdownString>)
        requires
            self.inv(),
        ensures
            runs_of(final(out)@) == runs_of(old(out)@) + spans(self@),
        decreases self, 0int,
    {
        let ghost ch = self@->children;
        out.push(self.heading_run());
        proof {
            assert(runs_of(out@) =~= runs_of(old(out)@) + seq![run(head(self@), MarkdownType::Heading)]);
        }
        if self.expanded {
            let mut i: usize = 0;
            while i < self.children.len()
                invariant
                    self.inv(),
                    self.expanded,
                    ch == self@->children,
                    ch.len() == self.children@.len(),
                    i <= ch.len(),
                    runs_of(out@) + spans_from(ch, i as int) == runs_of(old(out)@) + spans(self@),
                decreases self.children.len() - i,
            {
                proof {
                    self.lemma_child(i as int);
                }
                let ghost before = runs_of(out@);
                self.children[i].write_spans(out);
                i += 1;
                assert(runs_of(out@) + spans_from(ch, i as int) =~= before + spans_from(
                    ch,
                    i - 1,
                ));
            }
            assert(runs_of(out@) =~= runs_of(out@) + spans_from(ch, i as int));
        } else {
            assert(runs_of(out@) =~= runs_of(old(out)@) + spans(self@));
        }
    }

    /// The classified runs of the displayed text.
    pub fn markdown(&self) -> (r: Vec<MarkdownString>)
        requires
            self.inv(),
        ensures
            runs_of(r@) == spans(self@),
    {
        let mut out: Vec<MarkdownString> = Vec::new();
        self.write_spans(&mut out);
        assert(runs_of(out@) =~= spans(self@));
        out
    }

    /// The hash run and heading text, as a heading run.
    fn heading_run(&self) -> (r: MarkdownString)
        requires
            self.inv(),
        ensures
            r@ == run(head(self@), MarkdownType::Heading),
    {
        let mut text = String::new();
        append_hashes(&mut text, self.level);
        push_str(&mut text, self.heading.as_str());
        assert(text@ =~= head(self@));
        MarkdownString { text, mdtype: MarkdownType::Heading }
    }

    /// The classified run that covers display position `pos`.
    pub fn get_node(&self, pos: usize) -> (r: MarkdownString)
        requires
            self.inv(),
        ensures
            r@ == span_at(self@, pos as int),
        decreases self, 0int,
    {
        let ghost ch = self@->children;
        let h = self.head_len();
        if pos < h {
            return self.heading_run();
        }
        if !self.expanded {
            let r = MarkdownString { text: String::new(), mdtype: MarkdownType::Empty };
            assert(r@ =~= span_at(self@, pos as int));
            return r;
        }
        let mut rel = pos - h;
        let mut i: usize = 0;
        while i < self.children.len()
            invariant
                self.inv(),
                self.expanded,
                ch == self@->children,
                ch.len() == self.children@.len(),
                i <= ch.len(),
                h == head(self@).len(),
                pos >= h,
                span_at_from(ch, rel as int, i as int) == span_at(self@, pos as int),
            decreases self.children.len() - i,
        {
            proof {
                self.lemma_child(i as int);
            }
            let dl = self.children[i].len(false);
            if rel < dl {
                return self.children[i].get_node(rel);
            }
            rel = rel - dl;
            i += 1;
        }
        let r = MarkdownString { text: String::new(), mdtype: MarkdownType::Empty };
        assert(r@ =~= span_at(self@, pos as int));
        r
    }
}

impl Node {
    /// Appends the full text (`full`) or the displayed text to `out`.
    pub fn write_to(&self, out: &mut String, full: bool)
        requires
            self.inv(),
        ensures
            final(out)@ == old(out)@ + render(self@, full),
        decreases self, 1int,
    {
        match self {
            Node::Leaf(m) => push_str(out, m.text.as_str()),
            Node::Section(s) => {
                proof {
                    self.lemma_section_inv();
                }
                s.write_to(out, full)
            },
        }
    }

    /// Appends the classified runs of the displayed text to `out`.
    pub fn write_spans(&self, out: &mut Vec<MarkdownString>)
        requires
            self.inv(),
        ensures
            runs_of(final(out)@) == runs_of(old(out)@) + spans(self@),
        decreases self, 1int,
    {
        match self {
            Node::Leaf(m) => {
                out.push(m.duplicate());
                assert(runs_of(out@) =~= runs_of(old(out)@) + spans(self@));
            },
            Node::Section(s) => {
                proof {
                    self.lemma_section_inv();
                }
                s.write_spans(out)
            },
        }
    }

    /// The classified run that covers display position `pos`.
    pub fn get_node(&self, pos: usize) -> (r: MarkdownString)
        requires
            self.inv(),
        ensures
            r@ == span_at(self@, pos as int),
        decreases self, 1int,
    {
        match self {
            Node::Leaf(m) => m.duplicate(),
            Node::Section(s) => {
                proof {
                    self.lemma_section_inv();
                }
                s.get_node(pos)
            },
        }
    }
}

impl Section {
    /// Inserts `text` at display position `pos` when the position lies in a
    /// heading text or a visible leaf, and says whether it did.
    pub fn insert(&mut self, text: &str, pos: usize) -> (r: bool)
        requires
            old(self).inv(),
            flen(old(self)@) + text@.len() <= usize::MAX,
        ensures
            r == can_insert(old(self)@, pos as int),
            r ==> final(self)@ == inserted(old(self)@, pos as int, text@),
            !r ==> final(self)@ == old(self)@,
            final(self).inv(),
        decreases old(self)@, 0int,
    {
        let ghost t = self@;
        let ghost ch = self@->children;
        let h = self.head_len();
        if pos < self.level {
            return false;
        }
        if pos < h {
            proof {
                lemma_inserted(t, pos as int, text@);
            }
            let new_heading = spliced(self.heading.as_str(), pos - self.level, text);
            self.heading = new_heading;
            assert(self@ =~= inserted(t, pos as int, text@));
            return true;
        }
        if !self.expanded {
            return false;
        }
        let mut rel = pos - h;
        let mut i: usize = 0;
        while i < self.children.len()
            invariant
                *self == *old(self),
                t == self@,
                self.inv(),
                self.expanded,
                flen(t) + text@.len() <= usize::MAX,
                ch == t->children,
                ch.len() == self.children@.len(),
                i <= ch.len(),
                h == head(t).len(),
                pos >= h,
                can_insert_from(ch, rel as int, i as int) == can_insert(t, pos as int),
                inserted_from(ch, rel as int, text@, i as int) == inserted(
                    t,
                    pos as int,
                    text@,
                )->children,
            decreases self.children.len() - i,
        {
            proof {
                self.lemma_child(i as int);
            }
            let dl = self.children[i].len(false);
            if rel < dl {
                proof {
                    lemma_render_from_part(ch, true, 0, i as int);
                    lemma_wf_from(ch, 0);
                }
                let mut child = self.children.remove(i);
                let ok = child.insert(text, rel);
                self.children.insert(i, child);
                proof {
                    assert(nodes_trees(self.children@) =~= ch.update(i as int, child@));
                    if ok {
                        lemma_inserted(t, pos as int, text@);
                        assert(self@ =~= inserted(t, pos as int, text@));
                    } else {
                        assert(ch.update(i as int, child@) =~= ch);
                        assert(self@ =~= t);
                    }
                }
                return ok;
            }
            rel = rel - dl;
            i += 1;
        }
        false
    }
}

impl Node {
    /// `Section::insert`, for any node; a leaf takes the text at `pos`.
    pub fn insert(&mut self, text: &str, pos: usize) -> (r: bool)
        requires
            old(self).inv(),
            pos < dlen(old(self)@),
            flen(old(self)@) + text@.len() <= usize::MAX,
        ensures
            r == can_insert(old(self)@, pos as int),
            r ==> final(self)@ == inserted(old(self)@, pos as int, text@),
            !r ==> final(self)@ == old(self)@,
            final(self).inv(),
        decreases old(self)@, 1int,
    {
        proof {
            if *old(self) is Section {
                old(self).lemma_section_inv();
            }
        }
        match self {
            Node::Leaf(m) => {
                let new_text = spliced(m.text.as_str(), pos, text);
                m.text = new_text;
                proof {
                    lemma_inserted(old(self)@, pos as int, text@);
                }
                true
            },
            Node::Section(s) => {
                let r = s.insert(text, pos);
                proof {
                    if r {
                        lemma_inserted(old(self)@, pos as int, text@);
                    }
                }
                r
            },
        }
    }
}

/// No section of a section has more children than a `Vec` can hold.
pub proof fn lemma_section_counts_fit(s: Section)
    ensures
        counts_fit(s@),
    decreases s, 0int,
{
    assert(s.children.len() == s.children@.len());
    lemma_nodes_counts_fit(s.children@, 0);
}

/// `lemma_section_counts_fit` for the nodes `v[i..]`.
proof fn lemma_nodes_counts_fit(v: Seq<Node>, i: int)
    requires
        0 <= i,
    ensures
        counts_fit_from(nodes_trees(v), i),
    decreases v, v.len() - i,
{
    if i < v.len() {
        assert(nodes_trees(v)[i] == node_tree(v[i]));
        if let Node::Section(s) = v[i] {
            lemma_section_counts_fit(s);
            assert(node_tree(v[i]) == s@);
        }
        assert(counts_fit(nodes_trees(v)[i]));
        lemma_nodes_counts_fit(v, i + 1);
        assert(counts_fit_from(nodes_trees(v), i + 1));
    }
}

} // verus!
