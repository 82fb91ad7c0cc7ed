use text_extractor::blocks::{parse_blocks, Block};
use text_extractor::line::{parse_bullet, parse_numbered};
use text_extractor::render::{escape_html, to_html, to_markdown};

fn chars(s: &str) -> Vec<char> {
    s.chars().collect()
}

#[test]
fn blank_text_gives_nothing() {
    assert_eq!(to_markdown(""), "");
    assert_eq!(to_markdown("   \n\t\n  \r\n"), "");
    assert_eq!(to_html(""), "<html><body></body></html>");
    assert_eq!(to_html(" \n \n"), "<html><body></body></html>");
    assert!(parse_blocks("\n\n").is_empty());
}

#[test]
fn first_line_is_title() {
    assert_eq!(
        to_markdown("Shopping list\nmilk and eggs"),
        "# Shopping list\n\nmilk and eggs"
    );
    assert_eq!(
        parse_blocks("\n\n  Shopping list\nmilk and eggs")[0],
        Block::Heading(chars("Shopping list"))
    );
}

#[test]
fn first_line_ending_with_comma_is_not_a_title() {
    assert_eq!(to_markdown("Dear John,\nhello there"), "Dear John, hello there");
    assert_eq!(to_markdown("items;\nmore"), "items; more");
}

#[test]
fn numbered_items_are_renumbered() {
    assert_eq!(
        to_markdown("Steps\n5. first\n7) second\n"),
        "# Steps\n\n1. first\n2. second"
    );
    assert_eq!(to_markdown("Total\n1.5 apples"), "# Total\n\n1. 5 apples");
}

#[test]
fn numbered_line_needs_text() {
    assert_eq!(
        parse_blocks("Head\n3.\n12345"),
        vec![
            Block::Heading(chars("Head")),
            Block::Paragraph(chars("3. 12345")),
        ]
    );
}

#[test]
fn bullet_items() {
    assert_eq!(
        to_markdown("Items:\n\u{2022} apple\n- banana\n* cherry\n-nope"),
        "# Items:\n\n- apple\n- banana\n- cherry\n\n-nope"
    );
    assert_eq!(
        parse_blocks("Marks\n\u{2013}dash item\n\u{b7} dot"),
        vec![
            Block::Heading(chars("Marks")),
            Block::BulletList(vec![chars("dash item"), chars("dot")]),
        ]
    );
}

#[test]
fn lists_of_both_kinds_alternate() {
    let blocks = parse_blocks("1. a\n- b\n2. c\n3. d");
    assert_eq!(
        blocks,
        vec![
            Block::NumberedList(vec![chars("a")]),
            Block::BulletList(vec![chars("b")]),
            Block::NumberedList(vec![chars("c"), chars("d")]),
        ]
    );
    assert_eq!(to_markdown("1. a\n- b\n2. c\n3. d"), "1. a\n\n- b\n\n1. c\n2. d");
}

#[test]
fn lowercase_line_continues_list_item() {
    assert_eq!(
        to_markdown("1. buy milk\nand bread\n2. call mom"),
        "1. buy milk and bread\n2. call mom"
    );
    // after a blank line it starts a paragraph instead
    assert_eq!(
        to_markdown("- one\n\nand more text\nsecond line"),
        "- one\n\nand more text second line"
    );
}

#[test]
fn paragraphs_join_until_blank_line() {
    assert_eq!(
        to_markdown("Intro\nfirst para line\n\nsecond para a\nsecond para b"),
        "# Intro\n\nfirst para line\n\nsecond para a second para b"
    );
}

#[test]
fn standalone_short_line_is_heading() {
    assert_eq!(
        to_markdown("Title\nbody text here\n\nNew part here.\n\nmore body\nend of it"),
        "# Title\n\nbody text here\n\n\n# New part here.\n\nmore body end of it"
    );
}

#[test]
fn all_caps_line_is_heading() {
    assert_eq!(
        to_markdown("Title\nsome text\nSECTION 2\nbody"),
        "# Title\n\nsome text\n\n\n# SECTION 2\n\nbody"
    );
}

#[test]
fn heading_length_counts_bytes() {
    let eighty_bytes: String = std::iter::repeat('\u{e9}').take(40).collect();
    let eighty_two_bytes: String = std::iter::repeat('\u{e9}').take(41).collect();
    assert_eq!(
        parse_blocks(&eighty_bytes),
        vec![Block::Heading(chars(&eighty_bytes))]
    );
    assert_eq!(
        parse_blocks(&eighty_two_bytes),
        vec![Block::Paragraph(chars(&eighty_two_bytes))]
    );
}

#[test]
fn line_endings_and_indentation_do_not_matter() {
    assert_eq!(to_markdown("Title\r\nbody text\r\n"), "# Title\n\nbody text");
    assert_eq!(
        to_markdown("   Title  \n\t  body text "),
        to_markdown("Title\nbody text")
    );
    assert_eq!(
        to_html("\u{3000}Title\u{a0}\n  1.  x "),
        to_html("Title\n1. x")
    );
}

#[test]
fn unicode_letters() {
    assert_eq!(
        to_markdown("\u{dc}berschrift\nn\u{e4}chste zeile"),
        "# \u{dc}berschrift\n\nn\u{e4}chste zeile"
    );
}

#[test]
fn html_escapes_text() {
    assert_eq!(
        to_html("A & B <tag> \"q\""),
        "<html><body><h1>A &amp; B &lt;tag&gt; &quot;q&quot;</h1></body></html>"
    );
}

#[test]
fn html_lists_and_paragraphs() {
    assert_eq!(
        to_html("Todo\n1. one\n2. two\n\u{2022} x\nPlain text"),
        "<html><body><h1>Todo</h1><ol><li>one</li><li>two</li></ol><ul><li>x</li></ul><p>Plain text</p></body></html>"
    );
}

#[test]
fn escape_html_replaces_special_characters() {
    assert_eq!(escape_html("a&b<c>d\"e'f"), "a&amp;b&lt;c&gt;d&quot;e'f");
    assert_eq!(escape_html("&lt;"), "&amp;lt;");
    assert_eq!(escape_html(""), "");
}

#[test]
fn escaped_text_has_no_markup() {
    let e = escape_html("<script>\"x\" & 'y'</script>");
    assert!(!e.contains('<') && !e.contains('>') && !e.contains('"'));
    let back = e
        .replace("&quot;", "\"")
        .replace("&gt;", ">")
        .replace("&lt;", "<")
        .replace("&amp;", "&");
    assert_eq!(back, "<script>\"x\" & 'y'</script>");
}

#[test]
fn markdown_is_trimmed() {
    let md = to_markdown("\n\n  Heading \n\n\u{2022} item\n\n");
    assert_eq!(md, "# Heading\n\n- item");
    assert_eq!(md.trim(), md);
}

#[test]
fn blocks_are_well_formed() {
    let blocks = parse_blocks("A\n- x\n- y\nand z\n1) p\n\n  q  \nr");
    for b in &blocks {
        let texts: Vec<&Vec<char>> = match b {
            Block::Heading(h) => vec![h],
            Block::Paragraph(p) => vec![p],
            Block::NumberedList(items) | Block::BulletList(items) => items.iter().collect(),
        };
        assert!(!texts.is_empty());
        for t in texts {
            assert!(!t.is_empty());
            assert!(!t[0].is_whitespace() && !t[t.len() - 1].is_whitespace());
            assert!(!t.contains(&'\n'));
        }
    }
    assert_eq!(
        blocks,
        vec![
            Block::Heading(chars("A")),
            Block::BulletList(vec![chars("x"), chars("y and z")]),
            Block::NumberedList(vec![chars("p")]),
            Block::Paragraph(chars("q r")),
        ]
    );
}

#[test]
fn every_line_is_kept_in_order() {
    let text = "Notes\n  1) alpha one\nbeta two\n\n\u{2022} gamma\n- delta\nEpsilon\n\nZETA";
    let mut flat: Vec<String> = Vec::new();
    for b in parse_blocks(text) {
        match b {
            Block::Heading(s) | Block::Paragraph(s) => flat.push(s.into_iter().collect()),
            Block::NumberedList(v) | Block::BulletList(v) => {
                for s in v {
                    flat.push(s.into_iter().collect());
                }
            }
        }
    }
    let expected: Vec<String> = text
        .lines()
        .map(str::trim)
        .filter(|l| !l.is_empty())
        .map(|l| {
            let cs = chars(l);
            parse_numbered(&cs)
                .or_else(|| parse_bullet(&cs))
                .map(|v| v.into_iter().collect())
                .unwrap_or_else(|| l.to_string())
        })
        .collect();
    assert_eq!(flat.join(" "), expected.join(" "));
}

#[test]
fn one_list_item_per_list_line() {
    let text = "1. a\nmore a\n2. b\n- c\n* d\ncontinued d\n3) e";
    let blocks = parse_blocks(text);
    let numbered: usize = blocks
        .iter()
        .map(|b| if let Block::NumberedList(v) = b { v.len() } else { 0 })
        .sum();
    let bullets: usize = blocks
        .iter()
        .map(|b| if let Block::BulletList(v) = b { v.len() } else { 0 })
        .sum();
    assert_eq!(numbered, 3);
    assert_eq!(bullets, 2);
}

#[test]
fn markdown_lines_are_clean() {
    let md = to_markdown("Title\nbody  \n\nAnother\n\n  - item one \n\nSECTION\n\ntext");
    assert!(!md.contains("\n\n\n\n"));
    for line in md.lines() {
        assert_eq!(line, line.trim());
    }
    assert!(md.contains("\n\n\n"));
}

#[test]
fn text_with_content_gives_output() {
    assert_eq!(to_markdown(" x "), "# x");
    assert_eq!(parse_blocks("\n\n ,\n").len(), 1);
    assert_eq!(to_markdown("\n\n ,\n"), ",");
    assert!(to_html(".").len() > "<html><body></body></html>".len());
}

#[test]
fn html_markup_only_in_tags() {
    let html = to_html("<b>bold</b>\n- \"quoted\" & <i>");
    assert_eq!(
        html,
        "<html><body><h1>&lt;b&gt;bold&lt;/b&gt;</h1><ul><li>&quot;quoted&quot; &amp; &lt;i&gt;</li></ul></body></html>"
    );
    let mut rest = html.as_str();
    let tags = [
        "<html><body>", "</body></html>", "<h1>", "</h1>", "<p>", "</p>", "<ol>", "</ol>",
        "<ul>", "</ul>", "<li>", "</li>",
    ];
    while let Some(pos) = rest.find('<') {
        let after = &rest[pos..];
        let tag = tags.iter().find(|t| after.starts_with(**t)).expect("only document tags");
        assert!(!rest[..pos].contains('>') && !rest[..pos].contains('"'));
        rest = &after[tag.len()..];
    }
    assert!(!rest.contains('>'));
}

#[test]
fn headings_are_lines_within_limits() {
    for b in parse_blocks("Head line\nA, B\nTAIL;\nSHORT\n\nalone") {
        if let Block::Heading(h) = b {
            let s: String = h.iter().collect();
            assert!(s.len() <= 80);
            assert!(!s.ends_with(',') && !s.ends_with(';'));
        }
    }
}
