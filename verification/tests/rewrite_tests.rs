use declank::compile::{compile_template, CompiledLiteral, CompiledRules, CompiledTemplate};
use declank::rewrite::{find_literal_matches, find_template_matches, rewrite, select, Span};
use declank::rules::parse_template;

fn lit(id: &str, pattern: &str, replacement: &str) -> CompiledLiteral {
    CompiledLiteral {
        id: id.to_string(),
        pattern: pattern.to_string(),
        replacement: replacement.to_string(),
    }
}

fn tmpl(id: &str, pattern: &str, replacement: &str) -> CompiledTemplate {
    let rule = parse_template(pattern, replacement)
        .unwrap_or_else(|e| panic!("bad test template {id:?}: {e:?}"));
    compile_template(id, rule)
}

fn book(literals: Vec<CompiledLiteral>, templates: Vec<CompiledTemplate>) -> CompiledRules {
    CompiledRules {
        literals,
        templates,
        enabled: true,
    }
}

fn lits(literals: Vec<CompiledLiteral>) -> CompiledRules {
    book(literals, vec![])
}

fn tmpls(templates: Vec<CompiledTemplate>) -> CompiledRules {
    book(vec![], templates)
}

#[test]
fn case_a_two_matches_in_one_sentence() {
    let rules = lits(vec![
        lit("utilise", "utilise", "use"),
        lit("delve", "delve", "look"),
    ]);
    assert_eq!(
        rewrite("We utilise this to delve into the data.", &rules),
        "We use this to look into the data."
    );
}

#[test]
fn same_rule_matches_repeatedly() {
    let rules = lits(vec![lit("utilise", "utilise", "use")]);
    assert_eq!(
        rewrite("We utilise it, they utilise it.", &rules),
        "We use it, they use it."
    );
}

#[test]
fn case_c_longest_match_wins_at_same_start() {
    let rules = lits(vec![
        lit("delve", "delve", "look"),
        lit("delve-long", "delve into the intricacies of", "examine"),
    ]);
    assert_eq!(
        rewrite("Let us delve into the intricacies of the problem.", &rules),
        "Let us examine the problem."
    );
}

#[test]
fn rule_order_in_the_slice_does_not_matter() {
    let rules = lits(vec![
        lit("delve-long", "delve into the intricacies of", "examine"),
        lit("delve", "delve", "look"),
    ]);
    assert_eq!(
        rewrite("Let us delve into the intricacies of the problem.", &rules),
        "Let us examine the problem."
    );
}

#[test]
fn leftmost_wins_when_matches_overlap_from_different_starts() {
    let rules = lits(vec![lit("ab", "a b", "X"), lit("bc", "b c", "Y")]);
    assert_eq!(rewrite("a b c", &rules), "X c");
}

#[test]
fn does_not_match_inside_words() {
    let rules = lits(vec![lit("and", "and", "&")]);
    assert_eq!(
        rewrite("It handles the standard and the rest.", &rules),
        "It handles the standard & the rest."
    );
}

#[test]
fn matches_at_start_and_end_of_sentence() {
    let rules = lits(vec![lit("and", "and", "&")]);
    assert_eq!(rewrite("and", &rules), "&");
    assert_eq!(rewrite("and then", &rules), "& then");
    assert_eq!(rewrite("this and", &rules), "this &");
}

#[test]
fn punctuation_counts_as_a_boundary() {
    let rules = lits(vec![lit("and", "and", "&")]);
    assert_eq!(rewrite("(and)", &rules), "(&)");
    assert_eq!(rewrite("and, then", &rules), "&, then");
}

#[test]
fn multi_word_patterns_match() {
    let rules = lits(vec![lit(
        "fast-paced",
        "in today's fast-paced world",
        "currently",
    )]);
    assert_eq!(
        rewrite("In today's fast-paced world things move.", &rules),
        "In today's fast-paced world things move."
    );
    assert_eq!(
        rewrite("We know in today's fast-paced world things move.", &rules),
        "We know currently things move."
    );
}

#[test]
fn empty_replacement_deletes_and_leaves_a_double_space() {
    let rules = lits(vec![lit("crucial", "it is crucial to note that", "")]);
    assert_eq!(
        rewrite("We know it is crucial to note that the system fails.", &rules),
        "We know  the system fails."
    );
}

#[test]
fn no_matches_returns_the_sentence_unchanged() {
    let rules = lits(vec![lit("utilise", "utilise", "use")]);
    assert_eq!(rewrite("A normal sentence.", &rules), "A normal sentence.");
}

#[test]
fn empty_sentence() {
    let rules = lits(vec![lit("utilise", "utilise", "use")]);
    assert_eq!(rewrite("", &rules), "");
}

#[test]
fn empty_rule_set() {
    assert_eq!(
        rewrite("We utilise this.", &book(vec![], vec![])),
        "We utilise this."
    );
}

#[test]
fn matches_carry_position_and_rule_id() {
    let rules = [lit("utilise", "utilise", "use")];
    let matches = find_literal_matches("We utilise this.", &rules);
    assert_eq!(matches.len(), 1);
    assert_eq!(matches[0].start, 3);
    assert_eq!(matches[0].end, 10);
    assert_eq!(matches[0].rule_id, "utilise");
}

#[test]
fn case_b_template_reorders_and_discards() {
    let rules = tmpls(vec![tmpl(
        "not-just",
        "it's not just {A}, it's {B}",
        "it's {B}",
    )]);
    assert_eq!(
        rewrite("it's not just a tool, it's a platform.", &rules),
        "it's a platform."
    );
}

#[test]
fn template_with_trailing_fixed_text() {
    let rules = tmpls(vec![tmpl("in-question", "the {A} in question", "the {A}")]);
    assert_eq!(
        rewrite("We reviewed the 3.5 million figure in question yesterday.", &rules),
        "We reviewed the 3.5 million figure yesterday."
    );
}

#[test]
fn slot_contents_are_copied_verbatim() {
    let rules = tmpls(vec![tmpl("in-question", "the {A} in question", "the {A}")]);
    assert_eq!(
        rewrite("Check the £4.2m Q3 figure in question now.", &rules),
        "Check the £4.2m Q3 figure now."
    );
}

#[test]
fn template_in_the_middle_of_a_sentence() {
    let rules = tmpls(vec![tmpl(
        "not-just",
        "it's not just {A}, it's {B}",
        "it's {B}",
    )]);
    assert_eq!(
        rewrite("She said it's not just a tool, it's a platform.", &rules),
        "She said it's a platform."
    );
}

#[test]
fn no_match_when_following_text_is_absent() {
    let rules = tmpls(vec![tmpl(
        "not-just",
        "it's not just {A}, it's {B}",
        "it's {B}",
    )]);
    let s = "it's not just a tool.";
    assert_eq!(rewrite(s, &rules), s);
}

#[test]
fn lead_inside_a_word_is_rejected() {
    let rules = tmpls(vec![tmpl("in-question", "the {A} in question", "the {A}")]);
    assert_eq!(
        rewrite("Breathe the air in question.", &rules),
        "Breathe the air."
    );
}

#[test]
fn template_with_no_lead_occurrence() {
    let rules = tmpls(vec![tmpl("in-question", "the {A} in question", "the {A}")]);
    let s = "Nothing here matches at all.";
    assert_eq!(rewrite(s, &rules), s);
}

#[test]
fn template_beats_an_overlapping_literal() {
    let rules = book(
        vec![lit("tool", "tool", "widget")],
        vec![tmpl("not-just", "it's not just {A}, it's {B}", "it's {B}")],
    );
    assert_eq!(
        rewrite("it's not just a tool, it's a platform.", &rules),
        "it's a platform."
    );
}

#[test]
fn literal_outside_a_template_still_fires() {
    let rules = book(
        vec![lit("utilise", "utilise", "use")],
        vec![tmpl("in-question", "the {A} in question", "the {A}")],
    );
    assert_eq!(
        rewrite("We utilise the figure in question daily.", &rules),
        "We use the figure daily."
    );
}

#[test]
fn template_matches_carry_position_and_rule_id() {
    let templates = [tmpl("in-question", "the {A} in question", "the {A}")];
    let matches = find_template_matches("We reviewed the figure in question now.", &templates);
    assert_eq!(matches.len(), 1);
    assert_eq!(matches[0].rule_id, "in-question");
    assert_eq!(matches[0].replacement, "the figure");
}

#[test]
fn templates_have_no_case_expansion() {
    let rules = tmpls(vec![tmpl(
        "not-just",
        "it's not just {A}, it's {B}",
        "it's {B}",
    )]);
    let s = "It's not just a tool, it's a platform.";
    assert_eq!(rewrite(s, &rules), s);
}

#[test]
fn slot_length_is_not_yet_capped() {
    let rules = tmpls(vec![tmpl("in-question", "the {A} in question", "the {A}")]);
    assert_eq!(
        rewrite(
            "the first thing everyone always says whenever anyone asks about it in question is wrong.",
            &rules
        ),
        "the first thing everyone always says whenever anyone asks about it is wrong."
    );
}

#[test]
fn slot_may_currently_span_a_full_stop() {
    let rules = tmpls(vec![tmpl("in-question", "the {A} in question", "the {A}")]);
    assert_eq!(
        rewrite("the end. the middle in question is wrong.", &rules),
        "the end. the middle is wrong."
    );
}

#[test]
fn an_empty_pattern_matches_between_non_word_characters() {
    let rules = lits(vec![lit("empty", "", "X")]);
    assert_eq!(rewrite(" ", &rules), "X X");
    assert_eq!(rewrite("", &rules), "X");
    assert_eq!(rewrite("a b", &rules), "a b");
}

#[test]
fn a_repeated_hole_name_keeps_the_last_capture() {
    let rules = tmpls(vec![tmpl("twice", "x {A} y {A}", "{A}")]);
    assert_eq!(rewrite("x 1 y 2", &rules), "2");
}

#[test]
fn overlapping_occurrences_of_one_pattern_are_found_left_to_right() {
    let rules = lits(vec![lit("aa", "a a", "B")]);
    assert_eq!(rewrite("a a a", &rules), "B a");
}

#[test]
fn non_ascii_letters_are_word_characters() {
    let rules = lits(vec![lit("and", "and", "&")]);
    assert_eq!(rewrite("éand and", &rules), "éand &");
}

#[test]
fn positions_are_byte_offsets() {
    let rules = [lit("x", "x", "y")];
    let matches = find_literal_matches("£ x", &rules);
    assert_eq!(matches.len(), 1);
    assert_eq!(matches[0].start, 3);
    assert_eq!(matches[0].end, 4);
    let templates = [tmpl("t", "é {A}", "{A}")];
    let matches = find_template_matches("a é b", &templates);
    assert_eq!(matches.len(), 1);
    assert_eq!(matches[0].start, 2);
    assert_eq!(matches[0].end, 6);
}

#[test]
fn template_order_does_not_matter() {
    let a = || tmpl("in-question", "the {A} in question", "the {A}");
    let b = || tmpl("not-just", "it's not just {A}, it's {B}", "it's {B}");
    let s = "the tool in question: it's not just a tool, it's a platform.";
    let one = rewrite(s, &tmpls(vec![a(), b()]));
    let two = rewrite(s, &tmpls(vec![b(), a()]));
    assert_eq!(one, two);
    assert_eq!(one, "the tool: it's a platform.");
}

#[test]
fn equal_spans_with_equal_replacements_in_either_order() {
    let one = rewrite("We utilise it.", &lits(vec![lit("a", "utilise", "use"), lit("b", "utilise", "use")]));
    let two = rewrite("We utilise it.", &lits(vec![lit("b", "utilise", "use"), lit("a", "utilise", "use")]));
    assert_eq!(one, two);
    assert_eq!(one, "We use it.");
}

fn span(start: usize, end: usize, id: &str) -> Span {
    Span { start, end, rule_id: id.to_string(), replacement: id.to_uppercase() }
}

fn fields(v: &[Span]) -> Vec<(usize, usize, String, String)> {
    v.iter().map(|m| (m.start, m.end, m.rule_id.clone(), m.replacement.clone())).collect()
}

#[test]
fn selecting_twice_changes_nothing() {
    let once = select(vec![
        span(4, 9, "b"),
        span(0, 3, "a"),
        span(2, 6, "c"),
        span(4, 4, "z"),
        span(4, 9, "d"),
        span(9, 9, "e"),
    ]);
    assert_eq!(
        fields(&once),
        vec![
            (0, 3, "a".to_string(), "A".to_string()),
            (4, 9, "b".to_string(), "B".to_string()),
            (9, 9, "e".to_string(), "E".to_string()),
        ]
    );
    let copy: Vec<Span> = once.iter().map(|m| span(m.start, m.end, &m.rule_id)).collect();
    let twice = select(copy);
    assert_eq!(fields(&twice), fields(&once));
}
