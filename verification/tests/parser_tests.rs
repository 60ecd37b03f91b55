use mdlinks::parser::{parse_md_file_wrapper, Block, Line, MDParser, Node};
use mdlinks::vault::{File, Vault};

fn bytes(s: &str) -> Vec<u8> {
    s.as_bytes().to_vec()
}

fn normalized(s: &str) -> Vec<u8> {
    let mut b = bytes(s);
    if b.last() != Some(&b'\n') {
        b.push(b'\n');
    }
    b
}

const SAMPLE: &str = r#"---
title: Sample
aliases: ["one", "two"]
---

# Heading here

Some plain text with **bold words** and *italic ones*.

```rust
let x = 1;
```

$$a + b$$

> quoted line
>> nested quote
> back out

1. first item
- a bullet
"#;

#[test]
fn span_fidelity_holds_for_every_leaf() {
    let doc = parse_md_file_wrapper(bytes(SAMPLE), bytes("sample.md")).unwrap();
    let text = normalized(SAMPLE);
    for leaf in doc.get_string_nodes() {
        assert!(leaf.start <= leaf.end && leaf.end <= text.len());
        assert_eq!(&text[leaf.start..leaf.end], &leaf.text[..]);
    }
}

#[test]
fn round_trip_reconstructs_the_text() {
    let doc = parse_md_file_wrapper(bytes(SAMPLE), bytes("sample.md")).unwrap();
    let text = normalized(SAMPLE);
    let mut rebuilt: Vec<u8> = Vec::new();
    if let Some(yaml) = doc.get_yaml() {
        rebuilt.extend_from_slice(&text[0..yaml.end]);
    }
    for block in &doc.blocks {
        let span = match block {
            Block::BlockQuote(q) => q.span,
            Block::Latex(l) => l.span,
            Block::Code(c) => c.span,
            Block::String(s) => s.span,
        };
        rebuilt.extend_from_slice(&text[span.start..span.end]);
    }
    assert_eq!(rebuilt, text);
}

#[test]
fn block_structure_of_the_sample() {
    let doc = parse_md_file_wrapper(bytes(SAMPLE), bytes("sample.md")).unwrap();
    assert!(doc.yaml.is_some());
    let kinds: Vec<&str> = doc
        .blocks
        .iter()
        .map(|b| match b {
            Block::BlockQuote(_) => "quote",
            Block::Latex(_) => "latex",
            Block::Code(_) => "code",
            Block::String(_) => "string",
        })
        .collect();
    assert_eq!(
        kinds,
        vec!["string", "code", "string", "latex", "string"]
    );
}

#[test]
fn heading_level_and_nodes() {
    let doc = parse_md_file_wrapper(bytes("### Three hashes\n"), bytes("h.md")).unwrap();
    match &doc.blocks[0] {
        Block::String(sb) => match &sb.lines[0] {
            Line::Heading(h) => {
                assert_eq!(h.level, 3);
                match &h.nodes[0] {
                    Node::Text(t, pos) => {
                        assert_eq!(t, &bytes("Three hashes"));
                        assert_eq!(pos.start, 4);
                        assert_eq!(pos.end, 16);
                    }
                    other => panic!("expected text, got {:?}", other),
                }
            }
            other => panic!("expected heading, got {:?}", other),
        },
        other => panic!("expected string block, got {:?}", other),
    }
}

#[test]
fn numbered_list_number_is_parsed() {
    let doc = parse_md_file_wrapper(bytes("12. item\n"), bytes("l.md")).unwrap();
    match &doc.blocks[0] {
        Block::String(sb) => match &sb.lines[0] {
            Line::NumberedList(n) => {
                assert_eq!(n.number, 12);
            }
            other => panic!("expected numbered list, got {:?}", other),
        },
        other => panic!("expected string block, got {:?}", other),
    }
}

#[test]
fn code_block_fields() {
    let doc = parse_md_file_wrapper(bytes("```rust\nlet x = 1;\n```\n"), bytes("c.md")).unwrap();
    match &doc.blocks[0] {
        Block::Code(c) => {
            assert_eq!(c.code_type, Some(bytes("rust")));
            assert_eq!(c.code, bytes("\nlet x = 1;\n"));
        }
        other => panic!("expected code block, got {:?}", other),
    }
}

#[test]
fn latex_block_keeps_raw_text() {
    let doc = parse_md_file_wrapper(bytes("$$a + b$$\n"), bytes("m.md")).unwrap();
    match &doc.blocks[0] {
        Block::Latex(l) => {
            assert_eq!(l.latex, bytes("$$a + b$$"));
        }
        other => panic!("expected latex block, got {:?}", other),
    }
}

#[test]
fn block_quote_grouping_state_machine() {
    let doc = parse_md_file_wrapper(bytes("> a\n>> b\n> c\n"), bytes("q.md")).unwrap();
    match &doc.blocks[0] {
        Block::BlockQuote(q) => {
            assert_eq!(q.inner_blocks.len(), 3);
            assert!(matches!(q.inner_blocks[0], Block::String(_)));
            match &q.inner_blocks[1] {
                Block::BlockQuote(nested) => {
                    assert_eq!(nested.inner_blocks.len(), 1);
                    assert!(matches!(nested.inner_blocks[0], Block::String(_)));
                }
                other => panic!("expected nested quote, got {:?}", other),
            }
            assert!(matches!(q.inner_blocks[2], Block::String(_)));
        }
        other => panic!("expected block quote, got {:?}", other),
    }
}

#[test]
fn inline_links_are_recognized() {
    let doc = parse_md_file_wrapper(
        bytes("See [[target page|a label]] and [[plain]] and [site](http://x)\n"),
        bytes("i.md"),
    )
    .unwrap();
    match &doc.blocks[0] {
        Block::String(sb) => match &sb.lines[0] {
            Line::StringLine(sl) => {
                let mut saw_named = false;
                let mut saw_plain = false;
                let mut saw_web = false;
                for n in &sl.nodes {
                    match n {
                        Node::NamedMDLink(l, _) => {
                            assert_eq!(l.link, bytes("target page"));
                            assert_eq!(l.name, bytes("a label"));
                            saw_named = true;
                        }
                        Node::MDLink(raw, _) => {
                            assert_eq!(raw, &bytes("[[plain]]"));
                            saw_plain = true;
                        }
                        Node::WebLink(l, _) => {
                            assert_eq!(l.name, bytes("site"));
                            assert_eq!(l.link, bytes("http://x"));
                            saw_web = true;
                        }
                        _ => {}
                    }
                }
                assert!(saw_named && saw_plain && saw_web);
            }
            other => panic!("expected string line, got {:?}", other),
        },
        other => panic!("expected string block, got {:?}", other),
    }
}

#[test]
fn unmatched_emphasis_is_a_parse_failure() {
    let err = MDParser::parse(bytes("**oops\n"), bytes("bad.md")).unwrap_err();
    assert!(err.is_parse_error());
}

#[test]
fn titles_are_file_stems() {
    let cases = [
        ("dir/alan turing.md", "alan turing"),
        ("a.tar.gz", "a.tar"),
        (".hidden", ".hidden"),
        ("plain", "plain"),
    ];
    for (path, stem) in cases {
        let doc = parse_md_file_wrapper(bytes("x\n"), bytes(path)).unwrap();
        assert_eq!(doc.get_title(), bytes(stem));
    }
}

#[test]
fn alias_extraction_and_its_failure_modes() {
    let ok = parse_md_file_wrapper(
        bytes("---\naliases: [\"one\", \"two\"]\n---\nx\n"),
        bytes("a.md"),
    )
    .unwrap();
    assert_eq!(ok.get_aliases().unwrap(), vec![bytes("one"), bytes("two")]);

    let no_yaml = parse_md_file_wrapper(bytes("x\n"), bytes("a.md")).unwrap();
    assert!(no_yaml.get_aliases().is_err());

    let no_field = parse_md_file_wrapper(bytes("---\ntitle: t\n---\nx\n"), bytes("a.md")).unwrap();
    assert!(no_field.get_aliases().is_err());

    let non_string =
        parse_md_file_wrapper(bytes("---\naliases: [1]\n---\nx\n"), bytes("a.md")).unwrap();
    assert!(non_string.get_aliases().is_err());
}

#[test]
fn file_alias_group_degrades_to_the_title() {
    let f = File::new(bytes("note.md"), bytes("no front matter here\n")).unwrap();
    assert_eq!(f.get_aliases(), vec![bytes("note")]);

    let g = File::new(
        bytes("note.md"),
        bytes("---\naliases: [\"extra\"]\n---\nbody\n"),
    )
    .unwrap();
    assert_eq!(g.get_aliases(), vec![bytes("note"), bytes("extra")]);
}

#[test]
fn vault_partitions_documents_by_parse_outcome() {
    let vault = Vault::new(vec![
        (bytes("good.md"), bytes("fine text\n")),
        (bytes("bad.md"), bytes("**oops\n")),
        (bytes("good.md"), bytes("replaced text\n")),
    ]);
    assert_eq!(vault.vault_files.len(), 1);
    assert_eq!(vault.vault_files[0].path, bytes("good.md"));
    assert_eq!(vault.vault_files[0].original, bytes("replaced text\n"));
    assert_eq!(vault.errored_files.len(), 1);
    assert_eq!(vault.errored_files[0].0, bytes("bad.md"));
    assert!(vault.errored_files[0].1.is_parse_error());
}

#[test]
fn default_settings_match_the_plugin_defaults() {
    let s = mdlinks::settings::Settings::default();
    assert!(s.case_insensitive);
    assert!(!s.link_to_self);
    assert_eq!(s.color, "red".to_string());
}

#[test]
fn carriage_return_line_endings_are_accepted() {
    let doc = parse_md_file_wrapper(bytes("first\r\nsecond\r\n"), bytes("crlf.md")).unwrap();
    match &doc.blocks[0] {
        Block::String(sb) => assert_eq!(sb.lines.len(), 2),
        other => panic!("expected string block, got {:?}", other),
    }
}

#[test]
fn default_file_is_an_empty_document() {
    let f: File = Default::default();
    assert!(f.path.is_empty());
    assert!(f.original.is_empty());
    assert!(f.contents.yaml.is_none());
    assert_eq!(f.contents.blocks.len(), 1);
    assert_eq!(f.get_aliases(), vec![Vec::<u8>::new()]);
}
