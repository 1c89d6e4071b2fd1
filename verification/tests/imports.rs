use nemlc::engine::{Engine, LineContext};
use nemlc::import::Import;

#[test]
fn bracket_group_resolves_two_targets_under_one_path() {
    let mut imp = Import::init();
    let deps = imp.extract(&String::from("a/b.{c as x, d}")).unwrap();
    assert_eq!(deps.len(), 2);
    assert_eq!(deps[0].path, Some(String::from("a/b")));
    assert_eq!(deps[0].anchor, Some(String::from("c")));
    assert_eq!(deps[0].alias, Some(String::from("x")));
    assert_eq!(deps[1].path, Some(String::from("a/b")));
    assert_eq!(deps[1].anchor, Some(String::from("d")));
    assert_eq!(deps[1].alias, None);
}

#[test]
fn trailing_incomplete_import_yields_the_sentinel() {
    let mut imp = Import::init();
    let deps = imp.extract(&String::from("a/")).unwrap();
    assert_eq!(deps.len(), 1);
    assert_eq!(deps[0].path, Some(String::from("/unknown")));
    assert_eq!(deps[0].anchor, Some(String::from("/unknown")));
    assert_eq!(deps[0].alias, Some(String::from("unknown")));
}

#[test]
fn dotted_target_extends_the_path() {
    let mut imp = Import::init();
    let deps = imp.extract(&String::from("a/b.c")).unwrap();
    assert_eq!(deps.len(), 1);
    assert_eq!(deps[0].path, Some(String::from("a/b")));
    assert_eq!(deps[0].anchor, Some(String::from("c")));
    assert_eq!(deps[0].alias, None);
}

#[test]
fn quoted_names_lose_their_quotes() {
    let mut imp = Import::init();
    let deps = imp.extract(&String::from("m/a.\"q\" as \"al\"")).unwrap();
    assert_eq!(deps.len(), 1);
    assert_eq!(deps[0].path, Some(String::from("m/a")));
    assert_eq!(deps[0].anchor, Some(String::from("q")));
    assert_eq!(deps[0].alias, Some(String::from("al")));
}

#[test]
fn empty_bracket_contents_yield_the_sentinel() {
    let mut imp = Import::init();
    let deps = imp.extract(&String::from("a/b.{}")).unwrap();
    assert_eq!(deps.len(), 1);
    assert_eq!(deps[0].path, Some(String::from("/unknown")));
}

#[test]
fn doubled_alias_separator_yields_the_sentinel() {
    let mut imp = Import::init();
    let deps = imp.plain_atom_parse(String::from("a as b as c")).unwrap();
    assert_eq!(deps.path, Some(String::from("/unknown")));
    assert_eq!(deps.anchor, Some(String::from("/unknown")));
    assert_eq!(deps.alias, Some(String::from("unknown")));
}

#[test]
fn empty_atom_name_yields_the_sentinel() {
    let mut imp = Import::init();
    let plain = imp.plain_atom_parse(String::from("  ")).unwrap();
    assert_eq!(plain.anchor, Some(String::from("/unknown")));
    let aliased = imp.plain_atom_parse(String::from(" as x")).unwrap();
    assert_eq!(aliased.anchor, Some(String::from("/unknown")));
}

#[test]
fn line_seg_cuts_at_top_level_commas() {
    let toks = Import::line_seg("b.{c as x, d}, e.f").unwrap();
    assert_eq!(toks, vec![String::from("b.{c as x, d}"), String::from("e.f")]);
}

#[test]
fn line_seg_rejects_a_target_without_a_dot() {
    assert_eq!(Import::line_seg("x"), Err(String::from("Invalid")));
}

#[test]
fn line_seg_rejects_an_unclosed_group() {
    assert_eq!(Import::line_seg("a.{b, c"), Err(String::from("Invalid")));
}

#[test]
fn nested_group_inherits_both_prefixes() {
    let mut imp = Import::init();
    let deps = imp.extract(&String::from("a/{b.c, d.e}")).unwrap();
    assert_eq!(deps.len(), 2);
    assert_eq!(deps[0].path, Some(String::from("a/b")));
    assert_eq!(deps[0].anchor, Some(String::from("c")));
    assert_eq!(deps[1].path, Some(String::from("a/d")));
    assert_eq!(deps[1].anchor, Some(String::from("e")));
}

#[test]
fn alias_parse_uses_the_placeholder_target() {
    let mut imp = Import::init();
    let dep = imp.plain_alias_parse(vec!["dst", "alias"]).unwrap();
    assert_eq!(dep.path, Some(String::from("/unknown")));
    assert_eq!(dep.anchor, Some(String::from("unknown")));
    assert_eq!(dep.alias, Some(String::from("alias")));
}

#[test]
fn target_parse_always_hands_back_the_placeholder() {
    let mut imp = Import::init();
    let ele = imp.plain_target_parse("anything").unwrap();
    assert_eq!(ele.anchor, Some(String::from("/unknown")));
    assert_eq!(ele.target, Some(String::from("unknown")));
}

#[test]
fn markers_route_lines_to_their_sections() {
    let mut e = Engine::init();
    for (number, line) in ["#[import]", "use a/b.c", "#[content]", "top"].iter().enumerate() {
        let ctx = LineContext { line_number: number + 1, seg: vec![line.to_string()] };
        e.parse_line(&ctx).unwrap();
    }
    assert_eq!(e.import_data.data_list.len(), 1);
    assert_eq!(e.import_data.data_list[0].path, Some(String::from("a/b")));
    assert_eq!(e.import_data.data_list[0].anchor, Some(String::from("c")));
    assert_eq!(e.content_data.data_list.len(), 2);
    assert_eq!(e.content_data.data_list[1].name, Some(String::from("top")));
}

#[test]
fn import_lines_without_the_keyword_are_skipped() {
    let mut e = Engine::init();
    for (number, line) in ["#[import]", "// note", "", "stray line"].iter().enumerate() {
        let ctx = LineContext { line_number: number + 1, seg: vec![line.to_string()] };
        e.parse_line(&ctx).unwrap();
    }
    assert_eq!(e.import_data.data_list.len(), 0);
}
