use slicer_configs::entries::{LineEntry, ParseError};
use slicer_configs::parsing::parse;
use slicer_configs::sections::{has_printer_and_nozzle, regenerate, upsert, KeyMap, SectionMap};

fn parse_ok(text: &str) -> slicer_configs::entries::Document {
    parse(text).expect("input should parse")
}

#[test]
fn round_trip_identity() {
    let text = "; vendor profiles\n[vendor:PrusaResearch]\n# printers\nmodel:MK3S = 0.4\n\nmodel:MINI = 0.25, 0.4\n";
    let doc = parse_ok(text);
    assert_eq!(doc.format(), text);
}

#[test]
fn round_trip_empty() {
    let doc = parse_ok("");
    assert_eq!(doc.format(), "");
    assert!(doc.entries.is_empty());
}

#[test]
fn format_normalizes_spacing() {
    let doc = parse_ok("a=b\n");
    assert_eq!(doc.format(), "a = b\n");
    let doc = parse_ok("  key\t =  value \n");
    assert_eq!(doc.format(), "key = value\n");
}

#[test]
fn classify_kinds() {
    let doc = parse_ok("[s]\nk = v\n; c\n# c2\n\n");
    assert_eq!(doc.entries.len(), 5);
    assert!(matches!(&doc.entries[0], LineEntry::SectionHeader { name } if name == "s"));
    assert!(
        matches!(&doc.entries[1], LineEntry::KeyValue { key, value } if key == "k" && value == "v")
    );
    assert!(matches!(&doc.entries[2], LineEntry::Comment { text } if text == "; c"));
    assert!(matches!(&doc.entries[3], LineEntry::Comment { text } if text == "# c2"));
    assert!(matches!(&doc.entries[4], LineEntry::Blank));
}

#[test]
fn last_line_without_newline() {
    let doc = parse_ok("[s]\nk = v");
    assert_eq!(doc.entries.len(), 2);
    assert_eq!(doc.format(), "[s]\nk = v\n");
}

#[test]
fn malformed_section_header() {
    assert_eq!(parse("[unterminated\nkey = val\n"), Err(ParseError::MalformedSectionHeader));
    assert_eq!(parse("[\n"), Err(ParseError::MalformedSectionHeader));
}

#[test]
fn malformed_key_value() {
    assert_eq!(parse("[s]\nno separator here\n"), Err(ParseError::MalformedKeyValue));
}

#[test]
fn scenario_existing_key_gains_value() {
    let doc = parse_ok("[vendor:PrusaResearch]\nmodel:MK3S = 0.4\n");
    let mut map = doc.to_map();
    upsert(&mut map, "vendor:PrusaResearch", "model:MK3S", "0.6");
    let out = map.to_document().format();
    assert!(out.contains("model:MK3S = 0.4, 0.6"));
    assert_eq!(out, "[vendor:PrusaResearch]\nmodel:MK3S = 0.4, 0.6\n");
}

#[test]
fn scenario_empty_file() {
    let doc = parse_ok("");
    let mut map = doc.to_map();
    upsert(&mut map, "vendor:PrusaResearch", "model:MK4IS", "0.4");
    let out = map.to_document().format();
    assert_eq!(out, "[vendor:PrusaResearch]\nmodel:MK4IS = 0.4\n");
}

#[test]
fn upsert_idempotent() {
    let doc = parse_ok("[v]\na = 1\n");
    let mut once = doc.to_map();
    upsert(&mut once, "v", "a", "2");
    let mut twice = doc.to_map();
    upsert(&mut twice, "v", "a", "2");
    upsert(&mut twice, "v", "a", "2");
    assert_eq!(once, twice);
}

#[test]
fn upsert_no_duplication() {
    let mut map = SectionMap { sections: Vec::new() };
    upsert(&mut map, "vendor:PrusaResearch", "model:MK3S", "0.4");
    upsert(&mut map, "vendor:PrusaResearch", "model:MK3S", "0.4");
    assert_eq!(map.sections.len(), 1);
    let keys = &map.sections[0].keys.entries;
    assert_eq!(keys.len(), 1);
    assert_eq!(keys[0].values, Some(vec![String::from("0.4")]));
}

#[test]
fn upsert_preserves_order() {
    let doc = parse_ok("[a]\nx = 1\ny = 2\n[b]\nz = 3\n");
    let mut map = doc.to_map();
    upsert(&mut map, "c", "w", "4");
    upsert(&mut map, "a", "q", "5");
    let names: Vec<&str> = map.sections.iter().map(|s| s.name.as_str()).collect();
    assert_eq!(names, ["a", "b", "c"]);
    let keys_a: Vec<&str> = map.sections[0].keys.entries.iter().map(|e| e.key.as_str()).collect();
    assert_eq!(keys_a, ["x", "y", "q"]);
    assert_eq!(
        map.to_document().format(),
        "[a]\nx = 1\ny = 2\nq = 5\n[b]\nz = 3\n[c]\nw = 4\n"
    );
}

#[test]
fn has_printer_and_nozzle_basics() {
    let mut printers = KeyMap { entries: Vec::new() };
    has_printer_and_nozzle(&mut printers, "model:MK3S", "0.4");
    assert_eq!(printers.entries.len(), 1);
    assert_eq!(printers.entries[0].key, "model:MK3S");
    assert_eq!(printers.entries[0].values, Some(vec![String::from("0.4")]));
    has_printer_and_nozzle(&mut printers, "model:MK3S", "0.6");
    assert_eq!(
        printers.entries[0].values,
        Some(vec![String::from("0.4"), String::from("0.6")])
    );
    has_printer_and_nozzle(&mut printers, "model:MK3S", "0.4");
    assert_eq!(
        printers.entries[0].values,
        Some(vec![String::from("0.4"), String::from("0.6")])
    );
}

#[test]
fn empty_value_declares_key() {
    let doc = parse_ok("[s]\nk =\n");
    let map = doc.to_map();
    assert_eq!(map.sections[0].keys.entries[0].values, None);
    assert_eq!(map.to_document().format(), "[s]\nk = \n");
}

#[test]
fn empty_value_then_upsert() {
    let doc = parse_ok("[s]\nk =\n");
    let mut map = doc.to_map();
    upsert(&mut map, "s", "k", "0.4");
    assert_eq!(map.to_document().format(), "[s]\nk = 0.4\n");
}

#[test]
fn multi_value_decoding() {
    let doc = parse_ok("[s]\nk = a, b, a\n");
    let map = doc.to_map();
    assert_eq!(
        map.sections[0].keys.entries[0].values,
        Some(vec![String::from("a"), String::from("b")])
    );
    assert_eq!(map.to_document().format(), "[s]\nk = a, b\n");
}

#[test]
fn repeated_key_lines_merge() {
    let doc = parse_ok("[s]\nk = a\nk = b\nk = a\n");
    let map = doc.to_map();
    assert_eq!(map.sections[0].keys.entries.len(), 1);
    assert_eq!(map.to_document().format(), "[s]\nk = a, b\n");
}

#[test]
fn implicit_top_level_section() {
    let doc = parse_ok("x = 1\n[s]\ny = 2\n");
    let map = doc.to_map();
    assert_eq!(map.sections.len(), 2);
    assert_eq!(map.sections[0].name, "");
    assert_eq!(map.sections[0].keys.entries[0].key, "x");
    assert_eq!(map.to_document().format(), "x = 1\n[s]\ny = 2\n");
}

#[test]
fn comments_and_blanks_dropped_in_map() {
    let doc = parse_ok("; c\n[s]\n\nk = v\n# t\n");
    let map = doc.to_map();
    assert_eq!(map.sections.len(), 1);
    assert_eq!(map.to_document().format(), "[s]\nk = v\n");
}

#[test]
fn repeated_header_reuses_section() {
    let doc = parse_ok("[s]\na = 1\n[t]\nb = 2\n[s]\nc = 3\n");
    let map = doc.to_map();
    assert_eq!(map.sections.len(), 2);
    assert_eq!(map.to_document().format(), "[s]\na = 1\nc = 3\n[t]\nb = 2\n");
}

#[test]
fn header_name_kept_verbatim() {
    let doc = parse_ok("[ spaced name ]\nk = v\n");
    assert!(
        matches!(&doc.entries[0], LineEntry::SectionHeader { name } if name == " spaced name ")
    );
    assert_eq!(doc.format(), "[ spaced name ]\nk = v\n");
}

#[test]
fn separator_inside_value() {
    let doc = parse_ok("k = a = b\n");
    assert!(
        matches!(&doc.entries[0], LineEntry::KeyValue { key, value } if key == "k" && value == "a = b")
    );
    assert_eq!(doc.format(), "k = a = b\n");
}

#[test]
fn whitespace_only_line_is_blank() {
    let doc = parse_ok(" \t\n");
    assert!(matches!(&doc.entries[0], LineEntry::Blank));
    assert_eq!(doc.format(), "\n");
}

#[test]
fn regenerate_preserves_untouched_content() {
    let text = "; top comment\n[vendor:PrusaResearch]\n\n# inner\nmodel:MK3S = 0.4\nother = x\n";
    let doc = parse(text).expect("input should parse");
    let mut map = doc.to_map();
    upsert(&mut map, "vendor:PrusaResearch", "model:MK3S", "0.6");
    let out = regenerate(&doc, &map).format();
    assert_eq!(
        out,
        "; top comment\n[vendor:PrusaResearch]\n\n# inner\nmodel:MK3S = 0.4, 0.6\nother = x\n"
    );
}

#[test]
fn regenerate_without_mutation_is_identity() {
    let text = "; c\n[s]\nk = v\nlist = a, b\n\n[t]\nw = 0.25\n";
    let doc = parse(text).expect("input should parse");
    let map = doc.to_map();
    assert_eq!(regenerate(&doc, &map).format(), text);
}

#[test]
fn regenerate_appends_new_key_under_its_header() {
    let text = "[a]\nx = 1\n; tail\n[b]\ny = 2\n";
    let doc = parse(text).expect("input should parse");
    let mut map = doc.to_map();
    upsert(&mut map, "a", "z", "3");
    let out = regenerate(&doc, &map).format();
    assert_eq!(out, "[a]\nx = 1\n; tail\n[b]\ny = 2\n[a]\nz = 3\n");
    let remap = parse(&out).expect("regenerated text should parse").to_map();
    let keys_a: Vec<&str> = remap.sections[0].keys.entries.iter().map(|e| e.key.as_str()).collect();
    assert_eq!(remap.sections[0].name, "a");
    assert_eq!(keys_a, ["x", "z"]);
}

#[test]
fn regenerate_appends_new_section() {
    let doc = parse("").expect("input should parse");
    let mut map = doc.to_map();
    upsert(&mut map, "vendor:PrusaResearch", "model:MK4IS", "0.4");
    let out = regenerate(&doc, &map).format();
    assert_eq!(out, "[vendor:PrusaResearch]\nmodel:MK4IS = 0.4\n");
}
