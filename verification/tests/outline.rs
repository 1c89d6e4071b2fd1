use nemlc::concat::Concat;
use nemlc::content::{Content, LevelTable};
use nemlc::engine::{Engine, LineContext, SegmentType};
use nemlc::find::Finder;
use nemlc::parse::{parse_simple, parse_simple_vector};
use nemlc::strip::Strip;
use nemlc::text::{split_str, trim_str};

#[test]
fn next_point_finds_first_space() {
    assert_eq!(Finder::next_point("hello world", 0, ' ', true), Ok(5));
    assert_eq!(Finder::next_point("hello world", 6, 'l', true), Ok(3));
    assert_eq!(Finder::next_point("aaa", 0, 'a', false), Ok(3));
}

#[test]
fn next_sub_finds_first_substring() {
    assert_eq!(Finder::next_sub("hello world", 0, String::from("wor")), Some(6));
    assert_eq!(Finder::next_sub("hello world", 3, String::from("wor")), Some(3));
    assert_eq!(Finder::next_sub("hello", 0, String::from("zz")), None);
}

#[test]
fn space_count_counts_leading_run() {
    assert_eq!(Finder::space_count("  x", ' ', true), 2);
    assert_eq!(Finder::space_count("x  ", ' ', true), 0);
    assert_eq!(Finder::space_count("xxy", 'y', false), 2);
}

#[test]
fn rstrip_removes_trailing_newlines() {
    assert_eq!(Strip::rstrip(String::from("ab\n\n"), '\n'), String::from("ab"));
    assert_eq!(Strip::rstrip(String::from("ab"), '\n'), String::from("ab"));
    assert_eq!(Strip::rstrip(String::from("\n"), '\n'), String::from(""));
}

#[test]
fn colon_strip_removes_surrounding_quotes() {
    assert_eq!(Strip::colon_strip(String::from("\"abc\"")), String::from("abc"));
    assert_eq!(Strip::colon_strip(String::from("abc")), String::from("abc"));
    assert_eq!(Strip::colon_strip(String::from("\"\"")), String::from(""));
    assert_eq!(Strip::colon_strip(String::from("\"abc")), String::from("\"abc"));
}

#[test]
fn next_strip_skips_leading_run() {
    assert_eq!(Strip::next_strip("   a", 0, ' ', true), Ok(3));
    assert_eq!(Strip::next_strip("a   ", 0, ' ', true), Ok(0));
}

#[test]
fn raw_concat_joins_with_separator_when_both_nonempty() {
    assert_eq!(
        Concat::raw_concat(String::from("a"), String::from("/"), String::from("b")),
        String::from("a/b")
    );
    assert_eq!(
        Concat::raw_concat(String::from(""), String::from("/"), String::from("b")),
        String::from("b")
    );
    assert_eq!(
        Concat::raw_concat(String::from("a"), String::from("/"), String::from("")),
        String::from("a")
    );
}

#[test]
fn slash_concat_joins_leading_segments_and_anchor() {
    let parts = vec!["a", "b", "c"];
    assert_eq!(Concat::slash_concat(&parts, 2, String::from("z")), String::from("a/b/z"));
    assert_eq!(Concat::slash_concat(&parts, 0, String::from("z")), String::from("z"));
    let with_empty = vec!["a", "", "c"];
    assert_eq!(Concat::slash_concat(&with_empty, 3, String::from("")), String::from("a/c"));
}

#[test]
fn parse_simple_keeps_line_whole() {
    assert_eq!(parse_simple(String::from("a b")), vec![String::from("a b")]);
}

#[test]
fn parse_simple_vector_splits_at_whitespace() {
    assert_eq!(
        parse_simple_vector(String::from(" a  b\tc ")),
        vec![String::from("a"), String::from("b"), String::from("c")]
    );
}

#[test]
fn trim_and_split_helpers() {
    assert_eq!(trim_str("  a  "), String::from("a"));
    assert_eq!(
        split_str("a as b", " as "),
        vec![String::from("a"), String::from("b")]
    );
    assert_eq!(split_str("a  b", " "), vec![
        String::from("a"),
        String::from(""),
        String::from("b"),
    ]);
}

#[test]
fn root_item_takes_at_most_two_tokens() {
    let mut c = Content::init();
    let one = c.parse_root_item(&String::from("alpha")).unwrap();
    assert_eq!(one.name, Some(String::from("alpha")));
    assert_eq!(one.name_macro, None);
    assert_eq!(one.level, 0);

    let two = c.parse_root_item(&String::from("alpha beta")).unwrap();
    assert_eq!(two.name, Some(String::from("alpha")));
    assert_eq!(two.name_macro, Some(String::from("beta")));

    let three = c.parse_root_item(&String::from("a b c"));
    assert_eq!(three.unwrap_err(), String::from("Invalid"));
}

#[test]
fn element_parse_splits_body_and_attribute() {
    let mut c = Content::init();
    let e = c.element_parse(&String::from("name attr more")).unwrap();
    assert_eq!(e.body, Some(String::from("name")));
    assert_eq!(e.attr, Some(String::from("attr more")));

    let only = c.element_parse(&String::from("name")).unwrap();
    assert_eq!(only.body, Some(String::from("name")));
    assert_eq!(only.attr, None);

    let empty = c.element_parse(&String::from("")).unwrap();
    assert_eq!(empty.body, None);
    assert_eq!(empty.attr, None);
}

#[test]
fn two_space_line_is_level_one_without_relation() {
    let mut c = Content::init();
    let items = c.parse_plain(&String::from("  child")).unwrap();
    assert_eq!(items.len(), 1);
    assert_eq!(items[0].level, 1);
    assert_eq!(items[0].name, Some(String::from("child")));
    assert_eq!(items[0].dir, None);
    assert_eq!(items[0].relation, None);
}

#[test]
fn relation_line_yields_name_dir_relation() {
    let mut c = Content::init();
    let items = c.parse_plain(&String::from("  a - b")).unwrap();
    assert_eq!(items.len(), 1);
    assert_eq!(items[0].name, Some(String::from("a")));
    assert_eq!(items[0].dir, Some(String::from("-")));
    assert_eq!(items[0].relation, Some(String::from("b")));
}

#[test]
fn odd_indent_yields_no_item() {
    let mut c = Content::init();
    let items = c.parse_plain(&String::from("   child")).unwrap();
    assert_eq!(items.len(), 0);
}

#[test]
fn relation_without_spacing_is_dropped() {
    let mut c = Content::init();
    let items = c.parse_plain(&String::from("  a-b")).unwrap();
    assert_eq!(items.len(), 0);
}

#[test]
fn relation_with_empty_side_is_dropped() {
    let mut c = Content::init();
    let items = c.parse_plain(&String::from("   - b")).unwrap();
    assert_eq!(items.len(), 0);
}

#[test]
fn level_table_trace_matches_worked_example() {
    // The levels 0, 1, 2, 1, 2 in order give the roots 0, 1, 2, 1, 4.
    let mut c = Content::init();
    for line in ["r", "  a", "    b", "  c", "    d"] {
        let mut items = c.parse_plain(&String::from(line)).unwrap();
        assert_eq!(items.len(), 1);
        c.data_list.append(&mut items);
    }
    c.parse_level();
    let roots: Vec<usize> = c.data_list.iter().skip(1).map(|it| it.root).collect();
    assert_eq!(roots, vec![0, 1, 2, 1, 4]);
    let indices: Vec<usize> = c.data_list.iter().map(|it| it.index).collect();
    assert_eq!(indices, vec![0, 1, 2, 3, 4, 5]);
}

#[test]
fn parse_item_level_steps_the_table() {
    let mut c = Content::init();
    let mut items = c.parse_plain(&String::from("top")).unwrap();
    c.data_list.append(&mut items);
    let mut table = LevelTable { table: vec![0], current_level: 0 };
    c.data_list[1].index = 1;
    let root = c.parse_item_level(1, &mut table);
    assert_eq!(root, 0);
    assert_eq!(table.table, vec![0, 1]);
    assert_eq!(table.current_level, 1);
}

#[test]
fn too_deep_jump_falls_back_to_sentinel() {
    let mut c = Content::init();
    for line in ["r", "      deep"] {
        let mut items = c.parse_plain(&String::from(line)).unwrap();
        c.data_list.append(&mut items);
    }
    c.parse_level();
    assert_eq!(c.data_list[2].root, 0);
}

#[test]
fn resolving_twice_assigns_the_same_roots() {
    let mut c = Content::init();
    for line in ["r", "  a", "    b", "  c"] {
        let mut items = c.parse_plain(&String::from(line)).unwrap();
        c.data_list.append(&mut items);
    }
    c.parse_level();
    let first: Vec<usize> = c.data_list.iter().map(|it| it.root).collect();
    c.parse_level();
    let second: Vec<usize> = c.data_list.iter().map(|it| it.root).collect();
    assert_eq!(first, second);
}

#[test]
fn every_resolved_root_stands_below_its_item() {
    let mut c = Content::init();
    for line in ["r", "  a", "        jump", "  b", "    c"] {
        let mut items = c.parse_plain(&String::from(line)).unwrap();
        c.data_list.append(&mut items);
    }
    c.parse_level();
    for (pos, item) in c.data_list.iter().enumerate().skip(1) {
        assert!(item.root < pos);
    }
}

#[test]
fn forest_orders_children_and_nests_grandchild() {
    let mut e = Engine::init();
    let lines: Vec<String> = ["#[content]", "root", "  child1", "  child2", "    grandchild"]
        .iter()
        .map(|s| s.to_string())
        .collect();
    let arch = e.compile(lines).unwrap();
    assert_eq!(arch.name, Some(String::from("root")));
    assert_eq!(arch.neighbor.len(), 1);
    let top = &arch.neighbor[0];
    assert_eq!(top.name, Some(String::from("root")));
    assert_eq!(top.neighbor.len(), 2);
    assert_eq!(top.neighbor[0].name, Some(String::from("child1")));
    assert_eq!(top.neighbor[1].name, Some(String::from("child2")));
    assert_eq!(top.neighbor[1].neighbor.len(), 1);
    assert_eq!(top.neighbor[1].neighbor[0].name, Some(String::from("grandchild")));
}

#[test]
fn forest_names_in_depth_first_order_reproduce_line_order() {
    let mut e = Engine::init();
    let lines: Vec<String> = ["#[content]", "root", "  child1", "  child2", "    grandchild"]
        .iter()
        .map(|s| s.to_string())
        .collect();
    let arch = e.compile(lines).unwrap();
    let mut names: Vec<String> = Vec::new();
    let mut stack: Vec<&nemlc::endpoint::NeiEndpoint> = arch.neighbor.iter().rev().collect();
    while let Some(node) = stack.pop() {
        names.push(node.name.clone().unwrap());
        for sub in node.neighbor.iter().rev() {
            stack.push(sub);
        }
    }
    assert_eq!(
        names,
        vec![
            String::from("root"),
            String::from("child1"),
            String::from("child2"),
            String::from("grandchild"),
        ]
    );
}

#[test]
fn fatal_root_line_surfaces_as_error() {
    let mut e = Engine::init();
    let lines: Vec<String> = ["#[content]", "a b c"].iter().map(|s| s.to_string()).collect();
    let err = e.compile(lines).unwrap_err();
    assert_eq!(err, String::from("Invalid"));
}

#[test]
fn blank_and_comment_lines_are_skipped() {
    let mut e = Engine::init();
    let lines: Vec<String> = ["#[content]", "", "// note", "top"]
        .iter()
        .map(|s| s.to_string())
        .collect();
    e.start(lines).unwrap();
    assert_eq!(e.content_data.data_list.len(), 2);
    assert_eq!(e.content_data.data_list[1].name, Some(String::from("top")));
}

#[test]
fn reentering_the_open_section_is_a_no_op() {
    let mut e = Engine::init();
    e.seg_status_switch(SegmentType::SegContent);
    assert_eq!(e.seg_status, SegmentType::SegContent);
    e.seg_status_switch(SegmentType::SegContent);
    assert_eq!(e.seg_status, SegmentType::SegContent);
}

#[test]
fn lines_before_any_marker_are_dropped() {
    let mut e = Engine::init();
    let ctx = LineContext { line_number: 1, seg: vec![String::from("stray")] };
    e.parse_line(&ctx).unwrap();
    assert_eq!(e.content_data.data_list.len(), 1);
    assert_eq!(e.import_data.data_list.len(), 0);
}

#[test]
fn init_config_keeps_the_name() {
    let config = Engine::init_config(String::from("demo.neml"));
    assert_eq!(config.name, String::from("demo.neml"));
}
