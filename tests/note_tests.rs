use noters::{parse, MarkdownType, Node, Note, Section};

const EXAMPLE: &str = "# A\n## B\nbbbbb\n## C\nccccc";

fn parsed(text: &str) -> Section {
    let mut sec = Section::default();
    sec.children = parse(text.to_string());
    sec
}

#[test]
fn test_parse() {
    let mut sec = Section::default();
    let mut example = "# Big Head\n## Little Head\nSome body\nMore Body##Second Little Head\none body\n# Another Big One\nend";
    sec.children = parse(example.to_string());
    assert_eq!(example, sec.string(true));

    example = "not starting with a heading\n# Now Heading\nasdfasdf\nasdf\n";
    sec.children = parse(example.to_string());
    assert_eq!(example, sec.string(true));

    example = "# A\n## B\n### C";
    sec.children = parse(example.to_string());
    assert_eq!(example, sec.string(true));

    example = "# A\n### B\n## C";
    sec.children = parse(example.to_string());
    assert_eq!(example, sec.string(true));

    example = "# A";
    sec.children = parse(example.to_string());
    assert_eq!(example, sec.string(true));

    example = "# A\n#\na\n";
    sec.children = parse(example.to_string());
    assert_eq!(example, sec.string(true));
}

#[test]
fn test_expand() {
    let mut sec = Section::default();
    let example = "# A\n## B\nbbbbb\n## C\nccccc";
    sec.children = parse(example.to_string());

    sec.collapse(&[0usize]);
    assert_eq!("# A\n", sec.string(false));
    assert_eq!(4, sec.len(false));

    sec.expand(&[0usize]);
    sec.collapse(&[0usize, 1usize]);
    assert_eq!("# A\n## B\nbbbbb\n## C\n", sec.string(false));
    assert_eq!(20, sec.len(false));
}

#[test]
fn test_insert() {
    let mut sec = Section::default();
    let example = "# A\n## B\nbbbbb\n## C\nccccc";
    sec.children = parse(example.to_string());
    sec.collapse(&[0usize, 0usize]);
    sec.insert("d", 15);
    assert_eq!("# A\n## B\n## C\ncdcccc", sec.string(false));
}

#[test]
fn test_translate() {
    let mut sec = Section::default();
    let example = "# A\n## B\nbbbbb\n## C\nccccc";
    sec.children = parse(example.to_string());

    assert_eq!(1, sec.translate(1));
    assert_eq!(2, sec.translate(2));
    assert_eq!(4, sec.translate(4));
    assert_eq!(10, sec.translate(10));
    assert_eq!(example.len(), sec.translate(example.len()));

    sec.collapse(&[0usize, 0usize]);
    assert_eq!(16, sec.translate(10));
    assert_eq!(8, sec.inv_translate(11));
    assert_eq!(11, sec.inv_translate(17));
}

#[test]
fn test_path() {
    let mut sec = Section::default();
    let example = "# A\n## B\nbbbbb\n## C\nccccc";
    sec.children = parse(example.to_string());

    assert_eq!([0usize, 1usize], sec.path(20).iter().as_slice());
}

#[test]
fn test_note_insert() {
    let mut note = Note::new("# A\n\na\n".to_string());
    note.insert_text("#", 4);
    assert_eq!("# A\n#\na\n", note.as_str());
}

#[test]
fn test_markdown() {
    let mut sec = Section::default();
    let example = "# A\n## B\nbbbbb\n## C\nccccc";
    sec.children = parse(example.to_string());

    let md = sec.markdown();
    assert_eq!(MarkdownType::Heading, md[0].mdtype);
    assert_eq!(MarkdownType::Heading, md[1].mdtype);
    assert_eq!(MarkdownType::Heading, md[2].mdtype);
    assert_eq!(MarkdownType::Paragraph, md[3].mdtype);
    assert_eq!(MarkdownType::Heading, md[4].mdtype);
    assert_eq!(MarkdownType::Paragraph, md[5].mdtype);
}

#[test]
fn round_trip_of_pathological_texts() {
    for text in [
        "",
        "no heading at all\nstill none",
        "# A\n#\na\n",
        "# A\n### B\n## C",
        "# A",
        "#",
        "##",
        "###\n\n",
        "## A\n# B\n## C\n",
        "\n\n# A\n\n\n## B\n",
        "text # not a heading\n#no space\n",
        "**bold** _it_ @@link/x\n# H **b**\n",
    ] {
        assert_eq!(text, parsed(text).string(true));
        let note = Note::new(text.to_string());
        assert_eq!(text, note.full());
        assert_eq!(text, note.as_str());
    }
}

#[test]
fn line_of_hashes_alone_is_a_heading_with_empty_title() {
    let sec = parsed("##\nx");
    assert_eq!(1, sec.children.len());
    match &sec.children[0] {
        Node::Section(s) => {
            assert_eq!(2, s.level);
            assert_eq!("\n", s.heading);
            assert_eq!(1, s.children.len());
        }
        Node::Leaf(_) => panic!("expected a section"),
    }
    let sec = parsed("# A\n#\na\n");
    assert_eq!(2, sec.children.len());
    match (&sec.children[0], &sec.children[1]) {
        (Node::Section(a), Node::Section(b)) => {
            assert_eq!(1, a.level);
            assert_eq!(" A\n", a.heading);
            assert_eq!(0, a.children.len());
            assert_eq!(1, b.level);
            assert_eq!("\n", b.heading);
            assert_eq!(1, b.children.len());
            match &b.children[0] {
                Node::Leaf(m) => {
                    assert_eq!("a\n", m.text);
                    assert_eq!(MarkdownType::Paragraph, m.mdtype);
                }
                Node::Section(_) => panic!("expected a leaf"),
            }
        }
        _ => panic!("expected two sections"),
    }
    let last = parsed("x\n#");
    assert_eq!(2, last.children.len());
    assert!(matches!(&last.children[1], Node::Section(_)));
    assert_eq!("x\n#", last.string(true));
}

#[test]
fn lower_heading_after_higher_one_starts_a_sibling() {
    let sec = parsed("## A\n# B\n## C");
    assert_eq!(2, sec.children.len());
    match (&sec.children[0], &sec.children[1]) {
        (Node::Section(a), Node::Section(b)) => {
            assert_eq!(2, a.level);
            assert_eq!(" A\n", a.heading);
            assert_eq!(0, a.children.len());
            assert_eq!(1, b.level);
            assert_eq!(1, b.children.len());
        }
        _ => panic!("expected two sections"),
    }
}

#[test]
fn text_before_the_first_heading_becomes_leaves() {
    let sec = parsed("intro\n# A\nbody");
    assert_eq!(2, sec.children.len());
    match &sec.children[0] {
        Node::Leaf(m) => {
            assert_eq!("intro\n", m.text);
            assert_eq!(MarkdownType::Paragraph, m.mdtype);
        }
        Node::Section(_) => panic!("expected a leaf"),
    }
}

#[test]
fn inline_runs_are_classified_leftmost_first() {
    let sec = parsed("a **b** _c_ @@x/y-z! d");
    let md = sec.markdown();
    let got: Vec<(String, MarkdownType)> =
        md.iter().map(|m| (m.text.clone(), m.mdtype.clone())).collect();
    let want = vec![
        ("".to_string(), MarkdownType::Heading),
        ("a ".to_string(), MarkdownType::Paragraph),
        ("**b**".to_string(), MarkdownType::Bold),
        (" ".to_string(), MarkdownType::Paragraph),
        ("_c_".to_string(), MarkdownType::Italic),
        (" ".to_string(), MarkdownType::Paragraph),
        ("@@x/y-z".to_string(), MarkdownType::Link),
        ("! d".to_string(), MarkdownType::Paragraph),
    ];
    assert_eq!(want, got);
}

#[test]
fn inline_runs_do_not_cross_lines_or_nest() {
    let md = parsed("_a\nb_").markdown();
    assert_eq!(3, md.len());
    assert_eq!("_a\n", md[1].text);
    assert_eq!(MarkdownType::Paragraph, md[1].mdtype);
    assert_eq!("b_", md[2].text);

    let md = parsed("**a*b**").markdown();
    assert_eq!(2, md.len());
    assert_eq!("**a*b**", md[1].text);
    assert_eq!(MarkdownType::Paragraph, md[1].mdtype);

    let md = parsed("**a _b_ c**").markdown();
    assert_eq!(2, md.len());
    assert_eq!(MarkdownType::Bold, md[1].mdtype);

    let md = parsed("@@ x").markdown();
    assert_eq!(2, md.len());
    assert_eq!(MarkdownType::Paragraph, md[1].mdtype);
}

#[test]
fn collapse_hides_children_but_keeps_heading_line() {
    let mut note = Note::new(EXAMPLE.to_string());
    note.toggle(&[0usize]);
    assert_eq!(EXAMPLE, note.as_str());
    note.refresh();
    assert_eq!("# A\n", note.as_str());
    assert_eq!(EXAMPLE, note.full());
    note.toggle(&[0usize]);
    note.toggle(&[0usize, 1usize]);
    note.refresh();
    assert_eq!("# A\n## B\nbbbbb\n## C\n", note.as_str());
    assert_eq!(20, note.as_str().len());
}

#[test]
fn toggling_the_root_changes_nothing() {
    let mut note = Note::new(EXAMPLE.to_string());
    note.toggle(&[]);
    note.refresh();
    assert_eq!(EXAMPLE, note.as_str());
    let mut sec = parsed(EXAMPLE);
    sec.collapse(&[]);
    assert_eq!(EXAMPLE, sec.string(false));
}

#[test]
fn display_full_display_round_trip() {
    let mut sec = parsed(EXAMPLE);
    for d in 0..=sec.len(false) {
        assert_eq!(d, sec.inv_translate(sec.translate(d)));
    }
    sec.collapse(&[0usize, 0usize]);
    for d in 0..=sec.len(false) {
        assert_eq!(d, sec.inv_translate(sec.translate(d)));
    }
    assert_eq!(16, sec.translate(10));
    assert_eq!(8, sec.inv_translate(11));
    assert_eq!(11, sec.inv_translate(17));
    sec.collapse(&[0usize]);
    for d in 0..=sec.len(false) {
        assert_eq!(d, sec.inv_translate(sec.translate(d)));
    }
    assert_eq!(25, sec.translate(4));
    assert_eq!(3, sec.inv_translate(9));
}

#[test]
fn fast_insert_keeps_collapse_state() {
    let mut note = Note::new(EXAMPLE.to_string());
    note.toggle(&[0usize, 0usize]);
    note.refresh();
    assert_eq!("# A\n## B\n## C\nccccc", note.as_str());
    assert_eq!(1, note.insert_text("d", 15));
    assert_eq!("# A\n## B\n## C\ncdcccc", note.as_str());
    assert_eq!("# A\n## B\nbbbbb\n## C\ncdcccc", note.full());
}

#[test]
fn insert_into_heading_text() {
    let mut note = Note::new(EXAMPLE.to_string());
    note.insert_text("x", 2);
    assert_eq!("# xA\n## B\nbbbbb\n## C\nccccc", note.full());
    assert_eq!("# xA\n## B\nbbbbb\n## C\nccccc", note.as_str());
}

#[test]
fn insert_into_hash_run_reparses() {
    let mut note = Note::new(EXAMPLE.to_string());
    note.insert_text("#", 0);
    assert_eq!("## A\n## B\nbbbbb\n## C\nccccc", note.full());
    assert_eq!(3, note.root.children.len());
}

#[test]
fn slow_insert_at_end_reparses() {
    let mut note = Note::new("# A\nx".to_string());
    note.insert_text("\n# B", 5);
    assert_eq!("# A\nx\n# B", note.full());
    assert_eq!("# A\nx\n# B", note.as_str());
    assert_eq!(2, note.root.children.len());
}

#[test]
fn insert_after_first_line_goes_into_empty_line() {
    let mut note = Note::new("# A\n\na\n".to_string());
    assert_eq!(4, note.translate(4));
    note.insert_text("#", 4);
    assert_eq!("# A\n#\na\n", note.full());
    assert_eq!("# A\n#\na\n", note.as_str());
}

#[test]
fn delete_range_reparses() {
    let mut note = Note::new("# A\nx\n# B\ny".to_string());
    note.delete_char_range(4..6);
    assert_eq!("# A\n# B\ny", note.full());
    assert_eq!("# A\n# B\ny", note.as_str());
    assert_eq!(2, note.root.children.len());
}

#[test]
fn delete_range_across_collapsed_section() {
    let mut note = Note::new("# A\nx\n# B\ny".to_string());
    note.toggle(&[0usize]);
    note.refresh();
    assert_eq!("# A\n# B\ny", note.as_str());
    note.delete_char_range(3..4);
    assert_eq!("# A# B\ny", note.full());
    assert_eq!("# A# B\ny", note.as_str());
    assert_eq!(1, note.root.children.len());
}

#[test]
fn span_lookup() {
    let note = Note::new(EXAMPLE.to_string());
    let head = note.get_node(0);
    assert_eq!("# A\n", head.text);
    assert_eq!(MarkdownType::Heading, head.mdtype);
    let body = note.get_node(10);
    assert_eq!("bbbbb\n", body.text);
    assert_eq!(MarkdownType::Paragraph, body.mdtype);
    let next = note.get_node(15);
    assert_eq!("## C\n", next.text);
    assert_eq!(MarkdownType::Heading, next.mdtype);
    let last = note.get_node(24);
    assert_eq!("ccccc", last.text);
    let end = note.get_node(25);
    assert_eq!(MarkdownType::Empty, end.mdtype);
    let none = note.get_node(100);
    assert_eq!("", none.text);
    assert_eq!(MarkdownType::Empty, none.mdtype);

    let linked = Note::new("see @@notes/x here".to_string());
    let link = linked.get_node(6);
    assert_eq!("@@notes/x", link.text);
    assert_eq!(MarkdownType::Link, link.mdtype);
}

#[test]
fn path_lookup() {
    let note = Note::new(EXAMPLE.to_string());
    assert_eq!(vec![0usize, 1usize], note.path(20));
    assert_eq!(vec![0usize], note.path(2));
    assert_eq!(vec![0usize, 1usize], note.path(25));
    assert_eq!(vec![0usize, 1usize], note.path(15));
    assert_eq!(vec![0usize, 0usize], note.path(14));
    let flat = Note::new("intro\n# A".to_string());
    assert_eq!(Vec::<usize>::new(), flat.path(1));
    assert_eq!(vec![1usize], flat.path(6));
    assert_eq!(vec![1usize], flat.path(9));
    assert_eq!(vec![0usize, 0usize], note.path(10));
    assert_eq!(vec![0usize], note.path(0));
}

#[test]
fn empty_note() {
    let note = Note::default();
    assert_eq!("", note.full());
    assert_eq!("", note.as_str());
    assert!(note.is_mutable());
    assert!(note.markdown().len() == 1);
    let leaf = noters::MarkdownString::new("plain".to_string());
    assert_eq!(MarkdownType::Paragraph, leaf.mdtype);
    assert_eq!("plain", leaf.text);
}

#[test]
fn non_ascii_text_counts_characters() {
    let mut note = Note::new("# é\nü".to_string());
    assert_eq!(5, note.root.len(true));
    note.insert_text("x", 5);
    assert_eq!("# é\nüx", note.full());
}

#[test]
fn toggle_at_cursor_collapses_and_carries_cursor() {
    let mut note = Note::new(EXAMPLE.to_string());
    assert_eq!((8, 8), note.toggle_at(10, 10));
    assert_eq!("# A\n## B\n## C\nccccc", note.as_str());
    assert_eq!(EXAMPLE, note.full());
    assert_eq!((8, 8), note.toggle_at(8, 8));
    assert_eq!(EXAMPLE, note.as_str());
    assert_eq!((1, 2), note.toggle_at(1, 2));
    assert_eq!("# A\n", note.as_str());
}

#[test]
fn link_target_strips_marker() {
    let linked = Note::new("see @@notes/x here".to_string());
    assert_eq!(Some("notes/x".to_string()), linked.get_node(6).link_target());
    assert_eq!(None, linked.get_node(1).link_target());
}

#[test]
fn span_after_collapsed_heading_line_is_the_next_heading() {
    let mut note = Note::new(EXAMPLE.to_string());
    note.toggle(&[0usize, 0usize]);
    note.refresh();
    assert_eq!("# A\n## B\n## C\nccccc", note.as_str());
    let span = note.get_node(9);
    assert_eq!("## C\n", span.text);
    assert_eq!(MarkdownType::Heading, span.mdtype);
    let span = note.get_node(8);
    assert_eq!("## B\n", span.text);
    assert_eq!(vec![0usize, 1usize], note.path(9));
    assert_eq!(vec![0usize, 0usize], note.path(8));
    for d in 0..=note.as_str().len() {
        assert_eq!(d, note.inv_translate(note.translate(d)));
    }
}
