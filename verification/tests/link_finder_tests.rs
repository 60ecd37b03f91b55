use mdlinks::link_finder::{Link, LinkFinder};
use mdlinks::settings::Settings;
use mdlinks::vault::File;

const FILE_1_PATH: &str = "alan turing.md";
const FILE_1_CONT: &str = r#"---
bad_links: 
tags: [computerscience]
date created: Monday, July 10th 2023, 12:23:57 am
title: Alan Turing
aliases: ["turing"]
---

# Alan Turing

Alan Mathison Turing, the father of the Turing Machine was born on June 23, 1912, in London. He is widely considered as the father of theoretical computer science and artificial intelligence. Turing studied mathematics at King's College, University of Cambridge, where he developed the concept of a "universal machine" that could compute anything that is computable. This idea formed the basis of all modern computers.  
During World War II, Turing worked at Bletchley Park, Britain's codebreaking centre, and was instrumental in breaking the German Enigma code. His work is said to have significantly shortened the war and saved countless lives.  
Post war, Turing worked on developing an early computer at the National Physical Laboratory and later on artificial intelligence at the University of Manchester. He proposed an experiment now known as the "Turing Test" to determine if a machine can exhibit intelligent behavior equivalent to or indistinguishable from human behavior.  
Despite his accomplishments, Turing faced persecution for his homosexuality - which was illegal in Britain at that time. He was convicted for "gross indecency" in 1952 and underwent chemical castration as an alternative to prison. Tragically, this led to his untimely death by suicide on June 7, 1954.  
In 2013, Queen Elizabeth II granted Turing a posthumous royal pardon. His legacy continues through the "Turing Award", often referred to as the 'Nobel Prize' of computing world which is given annually by ACM (Association for Computing Machinery). In addition, his life and work have been depicted in various forms including the 2014 film "The Imitation Game"."#;

const FILE_2_PATH: &str = "turing machine.md";
const FILE_2_CONT: &str = r#"---
bad_links: 
aliases: []
tags: [computerscience, theoreticalcompsci]
title: Turing Machine
date created: Monday, July 24th 2023, 7:44:20 pm
---
# Turing Machine

A Turing Machine is a theoretical computational device, conceived by British mathematician Alan Turing in 1936. Its an abstract model of computation that manipulates symbols on a strip of tape according to a table of rules. Despite its simplicity, a Turing machine can simulate the logic of any computer algorithm and is used in theoretical computer science to understand what can be computed. Its also a key concept in the theory of computation and computability."#;

fn bytes(s: &str) -> Vec<u8> {
    s.as_bytes().to_vec()
}

#[test]
fn regex_construct_test() {
    let settings = Settings::new(true, false, "red".to_string());
    let file1 = File::new(bytes(FILE_1_PATH), bytes(FILE_1_CONT)).unwrap();
    let file2 = File::new(bytes(FILE_2_PATH), bytes(FILE_2_CONT)).unwrap();
    let files = vec![&file1, &file2];
    let link_finder = LinkFinder::new(files, settings);
    let (regex, group_map) = link_finder.create_regex().unwrap();

    assert_eq!(group_map.len(), 3);
    assert_eq!(group_map[0], bytes(FILE_2_PATH));
    assert_eq!(group_map[1], bytes(FILE_1_PATH));
    assert_eq!(group_map[1], bytes(FILE_1_PATH));
    assert_eq!(
        regex,
        bytes(r#"(\bturing machine\b)|(\balan turing\b)|(\bturing\b)"#)
    );
}

#[test]
fn link_alan_turing_test() {
    let settings = Settings::new(true, false, "red".to_string());
    let file1 = File::new(bytes(FILE_1_PATH), bytes(FILE_1_CONT)).unwrap();
    let file2 = File::new(bytes(FILE_2_PATH), bytes(FILE_2_CONT)).unwrap();
    let files = vec![&file1, &file2];
    let link_finder = LinkFinder::new(files, settings);

    let (regex, group_map) = link_finder.create_regex_exc(file1.get_path()).unwrap();

    assert_eq!(group_map.len(), 1);
    assert_eq!(group_map[0], bytes(FILE_2_PATH));
    assert_eq!(regex, bytes(r#"(\bturing machine\b)"#));

    let links: Vec<Link> = link_finder.get_links(&file1).unwrap();

    let links_expected: Vec<Link> = vec![Link {
        source: bytes(FILE_1_PATH),
        target: bytes(FILE_2_PATH),
        byte_start: 189,
        byte_end: 203,
    }];
    assert_eq!(links, links_expected);
}

#[test]
fn link_turing_machine_test() {
    let settings = Settings::new(true, false, "red".to_string());
    let file1 = File::new(bytes(FILE_1_PATH), bytes(FILE_1_CONT)).unwrap();
    let file2 = File::new(bytes(FILE_2_PATH), bytes(FILE_2_CONT)).unwrap();
    let files = vec![&file1, &file2];
    let link_finder = LinkFinder::new(files, settings);
    let (regex, group_map) = link_finder.create_regex_exc(file2.get_path()).unwrap();

    assert_eq!(group_map.len(), 2);
    assert_eq!(group_map[0], bytes(FILE_1_PATH));
    assert_eq!(group_map[1], bytes(FILE_1_PATH));
    assert_eq!(regex, bytes(r#"(\balan turing\b)|(\bturing\b)"#));

    let links: Vec<Link> = link_finder.get_links(&file2).unwrap();

    let links_expected: Vec<Link> = vec![
        Link {
            source: bytes(FILE_2_PATH),
            target: bytes(FILE_1_PATH),
            byte_start: 149,
            byte_end: 155,
        },
        Link {
            source: bytes(FILE_2_PATH),
            target: bytes(FILE_1_PATH),
            byte_start: 167,
            byte_end: 173,
        },
        Link {
            source: bytes(FILE_2_PATH),
            target: bytes(FILE_1_PATH),
            byte_start: 256,
            byte_end: 267,
        },
        Link {
            source: bytes(FILE_2_PATH),
            target: bytes(FILE_1_PATH),
            byte_start: 415,
            byte_end: 421,
        },
    ];
    assert_eq!(links, links_expected);
}

#[test]
fn wasm_alan_turing_test() {
    let file1 = File::new(bytes(FILE_1_PATH), bytes(FILE_1_CONT)).unwrap();
    let file2 = File::new(bytes(FILE_2_PATH), bytes(FILE_2_CONT)).unwrap();
    let files = vec![&file1, &file2];
    let link_finder = LinkFinder::new(files, Settings::new(true, false, "red".to_string()));
    let links = link_finder.get_links(&file1).unwrap();
    let links_expected: Vec<Link> = vec![Link {
        source: bytes(FILE_1_PATH),
        target: bytes(FILE_2_PATH),
        byte_start: 189,
        byte_end: 203,
    }];
    assert_eq!(links, links_expected);
}

#[test]
fn wasm_turing_machine_test() {
    let file1 = File::new(bytes(FILE_1_PATH), bytes(FILE_1_CONT)).unwrap();
    let file2 = File::new(bytes(FILE_2_PATH), bytes(FILE_2_CONT)).unwrap();
    let files = vec![&file1, &file2];
    let link_finder = LinkFinder::new(files, Settings::new(true, false, "red".to_string()));
    let links = link_finder.get_links(&file2).unwrap();
    let links_expected: Vec<Link> = vec![
        Link {
            source: bytes(FILE_2_PATH),
            target: bytes(FILE_1_PATH),
            byte_start: 149,
            byte_end: 155,
        },
        Link {
            source: bytes(FILE_2_PATH),
            target: bytes(FILE_1_PATH),
            byte_start: 167,
            byte_end: 173,
        },
        Link {
            source: bytes(FILE_2_PATH),
            target: bytes(FILE_1_PATH),
            byte_start: 256,
            byte_end: 267,
        },
        Link {
            source: bytes(FILE_2_PATH),
            target: bytes(FILE_1_PATH),
            byte_start: 415,
            byte_end: 421,
        },
    ];
    assert_eq!(links, links_expected);
}

#[test]
fn longest_alias_wins_at_same_position() {
    // two documents whose names overlap: the longer alias must win
    let doc_a = File::new(bytes("turing.md"), bytes("About a person.\n")).unwrap();
    let doc_b = File::new(bytes("turing machine.md"), bytes("About a device.\n")).unwrap();
    let source = File::new(
        bytes("notes.md"),
        bytes("The Turing Machine is a model of computation.\n"),
    )
    .unwrap();
    let finder = LinkFinder::new(
        vec![&doc_a, &doc_b, &source],
        Settings::new(true, false, "red".to_string()),
    );
    let links = finder.get_links(&source).unwrap();
    assert_eq!(links.len(), 1);
    assert_eq!(links[0].target, bytes("turing machine.md"));
    assert_eq!(links[0].byte_start, 4);
    assert_eq!(links[0].byte_end, 18);
}

#[test]
fn opaque_regions_are_never_matched() {
    let target = File::new(bytes("turing.md"), bytes("A person.\n")).unwrap();
    let source_opaque = File::new(
        bytes("notes.md"),
        bytes("```\nturing\n```\nAnd `turing` inline, with $turing$ too.\n"),
    )
    .unwrap();
    let finder = LinkFinder::new(
        vec![&target, &source_opaque],
        Settings::new(true, false, "red".to_string()),
    );
    let links = finder.get_links(&source_opaque).unwrap();
    assert_eq!(links, Vec::<Link>::new());

    // the same mention in plain text is matched
    let source_plain = File::new(bytes("notes.md"), bytes("About turing here.\n")).unwrap();
    let finder2 = LinkFinder::new(
        vec![&target, &source_plain],
        Settings::new(true, false, "red".to_string()),
    );
    let links2 = finder2.get_links(&source_plain).unwrap();
    assert_eq!(links2.len(), 1);
    assert_eq!(links2[0].byte_start, 6);
    assert_eq!(links2[0].byte_end, 12);
}

#[test]
fn self_links_are_excluded() {
    // the source's own title appears in its text and in another document's alias
    let doc = File::new(
        bytes("echo.md"),
        bytes("---\naliases: [\"echo\"]\n---\nAn echo of an echo.\n"),
    )
    .unwrap();
    let other = File::new(
        bytes("other.md"),
        bytes("---\naliases: [\"echo\"]\n---\nSomething else.\n"),
    )
    .unwrap();
    let finder = LinkFinder::new(
        vec![&doc, &other],
        Settings::new(true, false, "red".to_string()),
    );
    let links = finder.get_links(&doc).unwrap();
    assert!(!links.is_empty());
    for l in &links {
        assert_ne!(l.source, l.target);
    }
}

#[test]
fn metacharacters_in_aliases_are_escaped() {
    let target = File::new(
        bytes("runtime.md"),
        bytes("---\naliases: [\"node.js\"]\n---\nA runtime.\n"),
    )
    .unwrap();
    let source = File::new(bytes("notes.md"), bytes("I like node.js a lot.\n")).unwrap();
    let finder = LinkFinder::new(
        vec![&target, &source],
        Settings::new(true, false, "red".to_string()),
    );
    let (pattern, _) = finder.create_regex_exc(source.get_path()).unwrap();
    let pattern_text = String::from_utf8(pattern).unwrap();
    assert!(pattern_text.contains(r"node\.js"));
    let links = finder.get_links(&source).unwrap();
    assert_eq!(links.len(), 1);
    assert_eq!(links[0].byte_start, 7);
    assert_eq!(links[0].byte_end, 14);

    // the dot matches only a literal dot, never any byte
    let decoy = File::new(bytes("decoy.md"), bytes("I like nodexjs a lot.\n")).unwrap();
    let finder2 = LinkFinder::new(
        vec![&target, &decoy],
        Settings::new(true, false, "red".to_string()),
    );
    assert_eq!(finder2.get_links(&decoy).unwrap(), Vec::<Link>::new());
}

#[test]
fn link_serialization_round_trips() {
    let link = Link::new(bytes("a b.md"), bytes("c/d.md"), 17, 42);
    let encoded = link.ser();
    let decoded = Link::deser(&encoded).unwrap();
    assert_eq!(decoded, link);
}

#[test]
fn link_deserialization_rejects_garbage() {
    assert!(Link::deser(&bytes("short")).is_none());
    let mut encoded = Link::new(bytes("x.md"), bytes("y.md"), 1, 2).ser();
    encoded.push(0);
    assert!(Link::deser(&encoded).is_none());
}
