//! A note: the tree of a text, with its full and displayed texts kept at hand.
use vstd::prelude::*;
use crate::model::{
    Tree, FlagOp, render, flen, dlen, to_full, to_display, wf_section, valid_path, change_flag,
    locate, spans, span_at, splice, can_insert, inserted, lemma_inserted, lemma_section_maps_bounded,
    lemma_section_to_full_monotone, lemma_wf_from, lemma_locate_valid, lemma_change_flag,
    lemma_all_expanded_from, lemma_all_expanded_display_from,
};
use crate::tree::{MarkdownString, Section, runs_of, lemma_section_counts_fit};
use crate::block::{parse_chars, parse_tree, lemma_parse_tree_text, lemma_parse_tree_wf};
use crate::text::{chars_of, spliced, without_range};

verus! {

/// The root section that holds the nodes of text `t`, all expanded.
pub open spec fn document(t: Seq<char>) -> Tree {
    Tree::Part { heading: Seq::empty(), expanded: true, level: 0, children: parse_tree(t) }
}

/// A text parsed anew shows all of itself: the full text and the displayed
/// text of its document are both the text.
pub proof fn lemma_document_texts(t: Seq<char>)
    ensures
        render(document(t), true) == t,
        render(document(t), false) == t,
{
    lemma_parse_tree_text(t);
    lemma_parse_tree_wf(t);
    lemma_all_expanded_from(parse_tree(t), 0);
    lemma_all_expanded_display_from(parse_tree(t), 0);
    assert(render(document(t), true) =~= t);
    assert(render(document(t), false) =~= t);
}

/// A note, as a host editor drives it.
#[derive(Debug)]
pub struct Note {
    /// The full text of `root`.
    pub internal: String,
    pub root: Section,
    /// The displayed text of `root`, as of the last change or `refresh`.
    pub repr: String,
}

impl Default for Note {
    /// An empty note.
    fn default() -> (r: Self)
        ensures
            r.inv(),
            r.tree() == document(Seq::empty()),
            r.full_text() == Seq::<char>::empty(),
            r.display_text() == Seq::<char>::empty(),
    {
        let r = Note { internal: String::new(), root: Section::default(), repr: String::new() };
        proof {
            assert(parse_tree(Seq::empty()) =~= Seq::<Tree>::empty()) by {
                reveal_with_fuel(crate::inline::classify_lines, 1);
            }
            assert(render(r.root@, true) =~= Seq::<char>::empty());
            assert(render(r.root@, false) =~= Seq::<char>::empty());
        }
        r
    }
}

impl Note {
    /// The model of the note's tree, held in `root`.
    pub open spec fn tree(&self) -> Tree {
        self.root@
    }

    /// The root is a well-formed section of level zero and the full text is
    /// its full text.
    pub open spec fn inv(&self) -> bool {
        &&& self.root.inv()
        &&& self.root@->level == 0
        &&& self.internal@ == render(self.root@, true)
    }

    /// The full text kept at hand.
    pub open spec fn full_text(&self) -> Seq<char> {
        self.internal@
    }

    /// The displayed text kept at hand.
    pub open spec fn display_text(&self) -> Seq<char> {
        self.repr@
    }

    /// What the invariant of a note says of its tree: a well-formed, expanded
    /// root section of level zero whose full text is the note's full text.
    pub proof fn lemma_inv(&self)
        requires
            self.inv(),
        ensures
            wf_section(self.tree()),
            self.tree()->level == 0,
            self.tree()->expanded,
            render(self.tree(), true) == self.full_text(),
    {
    }

    /// For a note, going from a display position to the full text and back
    /// gives the position that was started from.
    pub proof fn lemma_display_full_display(&self, d: int)
        requires
            self.inv(),
            0 <= d <= dlen(self.tree()),
        ensures
            0 <= to_full(self.tree(), d) <= flen(self.tree()),
            to_display(self.tree(), to_full(self.tree(), d)) == d,
    {
        crate::model::lemma_display_of_full(self.tree(), d);
    }

    /// Replaces the root's children by the nodes of `t`.
    fn reparse(&mut self, t: String)
        requires
            old(self).tree()->level == 0,
            old(self).root.inv(),
        ensures
            final(self).inv(),
            final(self).tree() == document(t@),
            final(self).full_text() == t@,
            final(self).display_text() == t@,
    {
        let ghost tv = t@;
        let chars = chars_of(t.as_str());
        proof {
            assert(self.root.heading@ =~= Seq::<char>::empty());
        }
        self.root.children = parse_chars(&chars);
        proof {
            lemma_parse_tree_text(t@);
            lemma_parse_tree_wf(t@);
            lemma_wf_from(parse_tree(t@), 0);
            assert(self.root@ =~= document(t@));
            assert(render(self.root@, true) =~= t@);
            assert(wf_section(self.root@));
        }
        self.internal = t;
        self.repr = self.root.string(false);
        proof {
            lemma_document_texts(tv);
        }
    }

    /// The note of `content`.
    pub fn new(content: String) -> (r: Self)
        ensures
            r.inv(),
            r.tree() == document(content@),
            render(r.tree(), true) == content@,
            r.full_text() == content@,
            r.display_text() == content@,
    {
        let mut r = Note { internal: String::new(), root: Section::default(), repr: String::new() };
        r.reparse(content);
        r
    }

    /// The full text.
    pub fn full(&self) -> (r: &str)
        requires
            self.inv(),
        ensures
            r@ == render(self.tree(), true),
            r@ == self.full_text(),
    {
        self.internal.as_str()
    }

    /// The displayed text kept at hand.
    pub fn as_str(&self) -> (r: &str)
        ensures
            r@ == self.display_text(),
    {
        self.repr.as_str()
    }

    /// A note's text can be edited.
    pub fn is_mutable(&self) -> (r: bool)
        ensures
            r,
    {
        true
    }

    /// Recomputes the displayed text from the tree.
    pub fn refresh(&mut self)
        requires
            old(self).inv(),
        ensures
            final(self).inv(),
            final(self).tree() == old(self).tree(),
            final(self).full_text() == old(self).full_text(),
            final(self).display_text() == render(final(self).tree(), false),
    {
        self.repr = self.root.string(false);
    }

    /// The path of the deepest visible section whose span holds display position `pos`.
    pub fn path(&self, pos: usize) -> (r: Vec<usize>)
        requires
            self.inv(),
            pos <= dlen(self.tree()),
        ensures
            r@ == locate(self.tree(), pos as int),
    {
        self.root.path(pos)
    }

    /// Flips the collapse state of the section at `path`; the displayed text
    /// kept at hand changes only on `refresh`.
    pub fn toggle(&mut self, path: &[usize])
        requires
            old(self).inv(),
            valid_path(old(self).tree(), path@),
        ensures
            final(self).inv(),
            final(self).tree() == change_flag(old(self).tree(), path@, FlagOp::Toggle),
            final(self).full_text() == old(self).full_text(),
            final(self).display_text() == old(self).display_text(),
    {
        proof {
            crate::model::lemma_change_flag(old(self).tree(), path@, FlagOp::Toggle);
        }
        self.root.toggle(path);
    }

    /// Flips the collapse state of the deepest visible section that holds
    /// display position `primary` and refreshes the displayed text. Returns
    /// the display positions, in the new displayed text, of the characters
    /// that were at `primary` and `secondary` (a cursor's two ends); one that
    /// went out of view goes to the end of the heading line that hides it.
    pub fn toggle_at(&mut self, primary: usize, secondary: usize) -> (r: (usize, usize))
        requires
            old(self).inv(),
            primary <= dlen(old(self).tree()),
            secondary <= dlen(old(self).tree()),
        ensures
            final(self).inv(),
            final(self).tree() == change_flag(
                old(self).tree(),
                locate(old(self).tree(), primary as int),
                FlagOp::Toggle,
            ),
            final(self).full_text() == old(self).full_text(),
            final(self).display_text() == render(final(self).tree(), false),
            r.0 == to_display(final(self).tree(), to_full(old(self).tree(), primary as int)),
            r.1 == to_display(final(self).tree(), to_full(old(self).tree(), secondary as int)),
    {
        proof {
            lemma_section_maps_bounded(self.root@, primary as int);
            lemma_section_maps_bounded(self.root@, secondary as int);
            lemma_section_counts_fit(self.root);
            lemma_locate_valid(self.root@, primary as int);
            lemma_change_flag(self.root@, locate(self.root@, primary as int), FlagOp::Toggle);
        }
        let path = self.root.path(primary);
        let a = self.root.translate(primary);
        let b = self.root.translate(secondary);
        self.root.toggle(path.as_slice());
        self.refresh();
        (self.root.inv_translate(a), self.root.inv_translate(b))
    }

    /// The classified runs of the displayed text.
    pub fn markdown(&self) -> (r: Vec<MarkdownString>)
        requires
            self.inv(),
        ensures
            runs_of(r@) == spans(self.tree()),
    {
        self.root.markdown()
    }

    /// The classified run that covers display position `pos`.
    pub fn get_node(&self, pos: usize) -> (r: MarkdownString)
        requires
            self.inv(),
        ensures
            r@ == span_at(self.tree(), pos as int),
    {
        self.root.get_node(pos)
    }

    /// Maps a display position to the full position of the same character.
    pub fn translate(&self, pos: usize) -> (r: usize)
        requires
            self.inv(),
            pos <= dlen(self.tree()),
        ensures
            r == to_full(self.tree(), pos as int),
            r <= flen(self.tree()),
    {
        proof {
            lemma_section_maps_bounded(self.root@, pos as int);
        }
        self.root.translate(pos)
    }

    /// Maps a full position to a display position.
    pub fn inv_translate(&self, pos: usize) -> (r: usize)
        requires
            self.inv(),
            pos <= flen(self.tree()),
        ensures
            r == to_display(self.tree(), pos as int),
            r <= dlen(self.tree()),
    {
        proof {
            lemma_section_maps_bounded(self.root@, pos as int);
        }
        self.root.inv_translate(pos)
    }

    /// Inserts `text` at display position `char_index`: straight into a
    /// heading text or a leaf where the position lies in one, else into the
    /// full text, which is then parsed anew. Returns the number of characters
    /// inserted.
    pub fn insert_text(&mut self, text: &str, char_index: usize) -> (r: usize)
        requires
            old(self).inv(),
            char_index <= dlen(old(self).tree()),
            flen(old(self).tree()) + text@.len() <= usize::MAX,
        ensures
            final(self).inv(),
            r == text@.len(),
            final(self).full_text() == splice(
                old(self).full_text(),
                to_full(old(self).tree(), char_index as int),
                text@,
            ),
            final(self).display_text() == render(final(self).tree(), false),
            can_insert(old(self).tree(), char_index as int) ==> final(self).tree() == inserted(
                old(self).tree(),
                char_index as int,
                text@,
            ) && final(self).display_text() == splice(
                render(old(self).tree(), false),
                char_index as int,
                text@,
            ),
            !can_insert(old(self).tree(), char_index as int) ==> final(self).tree() == document(
                final(self).full_text(),
            ) && final(self).display_text() == final(self).full_text(),
    {
        let ghost old_root = self.root@;
        proof {
            lemma_section_maps_bounded(self.root@, char_index as int);
        }
        let n = crate::text::char_count(text);
        if self.root.insert(text, char_index) {
            proof {
                lemma_inserted(old_root, char_index as int, text@);
            }
            self.internal = self.root.string(true);
            self.repr = self.root.string(false);
        } else {
            let at = self.root.translate(char_index);
            let t = spliced(self.internal.as_str(), at, text);
            self.reparse(t);
            proof {
                lemma_document_texts(self.internal@);
            }
        }
        n
    }

    /// Removes the characters at display positions `char_range`, from the full
    /// text, which is then parsed anew.
    pub fn delete_char_range(&mut self, char_range: std::ops::Range<usize>)
        requires
            old(self).inv(),
            char_range.start <= char_range.end <= dlen(old(self).tree()),
        ensures
            final(self).inv(),
            final(self).full_text() == old(self).full_text().subrange(
                0,
                to_full(old(self).tree(), char_range.start as int),
            ) + old(self).full_text().subrange(
                to_full(old(self).tree(), char_range.end as int),
                old(self).full_text().len() as int,
            ),
            final(self).tree() == document(final(self).full_text()),
            final(self).display_text() == final(self).full_text(),
    {
        proof {
            lemma_section_maps_bounded(self.root@, char_range.start as int);
            lemma_section_maps_bounded(self.root@, char_range.end as int);
            lemma_section_to_full_monotone(self.root@, char_range.start as int, char_range.end as int);
        }
        let lo = self.root.translate(char_range.start);
        let hi = self.root.translate(char_range.end);
        let t = without_range(self.internal.as_str(), lo, hi);
        self.reparse(t);
    }
}

} // verus!
