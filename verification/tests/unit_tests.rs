use declank::book::{deserialise_book, SerialisableBook, SerialisableRule, SerialisableRuleKind};
use declank::compile::{compile, compile_literal};
use declank::inflect::{noun_forms, verb_forms};
use declank::rules::{
    expand_lemma, parse_template, LemmaKind, LemmaRule, LiteralRule, ReplacementPart, Rule,
    RuleKind, TemplateValidationError,
};

fn forms(base: &str) -> [String; 5] {
    let f = verb_forms(base);
    [f.base, f.third_person, f.past, f.past_participle, f.present_participle]
}

#[test]
fn regular_verb_forms() {
    assert_eq!(forms("utilise"), ["utilise", "utilises", "utilised", "utilised", "utilising"]);
    assert_eq!(forms("walk"), ["walk", "walks", "walked", "walked", "walking"]);
    assert_eq!(forms("carry"), ["carry", "carries", "carried", "carried", "carrying"]);
    assert_eq!(forms("stop"), ["stop", "stops", "stopped", "stopped", "stopping"]);
    assert_eq!(forms("go"), ["go", "goes", "goed", "goed", "going"]);
    assert_eq!(forms("watch"), ["watch", "watches", "watched", "watched", "watching"]);
    assert_eq!(forms("play"), ["play", "plays", "played", "played", "playing"]);
    assert_eq!(forms("fix"), ["fix", "fixes", "fixed", "fixed", "fixing"]);
}

#[test]
fn participle_spelling_rules() {
    assert_eq!(verb_forms("die").present_participle, "dying");
    assert_eq!(verb_forms("see").present_participle, "seeing");
    assert_eq!(verb_forms("dye").present_participle, "dyeing");
    assert_eq!(verb_forms("hoe").present_participle, "hoeing");
    assert_eq!(verb_forms("make").present_participle, "making");
}

#[test]
fn irregular_verb_forms() {
    assert_eq!(forms("be"), ["be", "is", "was", "been", "being"]);
    assert_eq!(forms("have"), ["have", "has", "had", "had", "having"]);
    assert_eq!(forms("run"), ["run", "runs", "ran", "run", "running"]);
}

#[test]
fn noun_plurals() {
    assert_eq!(noun_forms("tool").plural, "tools");
    assert_eq!(noun_forms("box").plural, "boxes");
    assert_eq!(noun_forms("city").plural, "cities");
    assert_eq!(noun_forms("city").singular, "city");
}

fn lemma(pattern: &str, replacement: &str, kind: LemmaKind) -> LemmaRule {
    LemmaRule { pattern: pattern.to_string(), replacement: replacement.to_string(), kind }
}

fn pairs(v: &[LiteralRule]) -> Vec<(String, String)> {
    v.iter().map(|r| (r.pattern.clone(), r.replacement.clone())).collect()
}

#[test]
fn verb_lemma_expands_to_its_forms_without_a_repeated_past() {
    let out = expand_lemma(&lemma("utilise", "use", LemmaKind::Verb));
    let expected: Vec<(String, String)> = [
        ("utilise", "use"),
        ("utilises", "uses"),
        ("utilised", "used"),
        ("utilising", "using"),
    ]
    .iter()
    .map(|(a, b)| (a.to_string(), b.to_string()))
    .collect();
    assert_eq!(pairs(&out), expected);
}

#[test]
fn verb_lemma_keeps_a_distinct_past_participle() {
    let out = expand_lemma(&lemma("run", "walk", LemmaKind::Verb));
    assert_eq!(out.len(), 5);
    assert_eq!(out[3].pattern, "run");
    assert_eq!(out[3].replacement, "walked");
}

#[test]
fn noun_lemma_expands_to_singular_and_plural() {
    let out = expand_lemma(&lemma("tapestry", "range", LemmaKind::Noun));
    assert_eq!(
        pairs(&out),
        vec![
            ("tapestry".to_string(), "range".to_string()),
            ("tapestries".to_string(), "ranges".to_string())
        ]
    );
}

#[test]
fn compile_literal_adds_a_capitalised_variant() {
    let rule = LiteralRule { pattern: "utilise".to_string(), replacement: "use".to_string() };
    let out = compile_literal("u", &rule);
    assert_eq!(out.len(), 2);
    assert_eq!(out[1].pattern, "Utilise");
    assert_eq!(out[1].replacement, "Use");
    assert_eq!(out[1].id, "u");
}

#[test]
fn compile_literal_with_no_case_change_stays_single() {
    let rule = LiteralRule { pattern: "42 things".to_string(), replacement: "x".to_string() };
    assert_eq!(compile_literal("n", &rule).len(), 1);
    let rule = LiteralRule { pattern: "".to_string(), replacement: "x".to_string() };
    assert_eq!(compile_literal("e", &rule).len(), 1);
}

#[test]
fn compile_literal_uses_unicode_uppercase() {
    let rule = LiteralRule { pattern: "ßig".to_string(), replacement: "éa".to_string() };
    let out = compile_literal("s", &rule);
    assert_eq!(out[1].pattern, "SSig");
    assert_eq!(out[1].replacement, "Éa");
}

#[test]
fn compile_skips_disabled_rules_and_keeps_templates() {
    let rules = vec![
        Rule {
            id: "off".to_string(),
            enabled: false,
            kind: RuleKind::Literal(LiteralRule { pattern: "a".to_string(), replacement: "b".to_string() }),
        },
        Rule {
            id: "t".to_string(),
            enabled: true,
            kind: RuleKind::Template(parse_template("the {A} in question", "the {A}").unwrap()),
        },
        Rule {
            id: "l".to_string(),
            enabled: true,
            kind: RuleKind::Lemma(lemma("delve", "look", LemmaKind::Verb)),
        },
    ];
    let compiled = compile(rules, false);
    assert!(!compiled.enabled);
    assert_eq!(compiled.templates.len(), 1);
    assert_eq!(compiled.templates[0].id, "t");
    // delve, delves, delved, delving, each with a capitalised variant.
    assert_eq!(compiled.literals.len(), 8);
    assert!(compiled.literals.iter().all(|l| l.id == "l"));
}

fn err(pattern: &str, replacement: &str) -> TemplateValidationError {
    match parse_template(pattern, replacement) {
        Ok(_) => panic!("expected an error for {pattern:?}"),
        Err(e) => e,
    }
}

#[test]
fn template_errors() {
    assert!(matches!(err("", "x"), TemplateValidationError::EmptyTemplate));
    assert!(matches!(err("{A} x", "x"), TemplateValidationError::EmptyLead));
    assert!(matches!(err("just text", "x"), TemplateValidationError::NoHoles));
    assert!(matches!(err("x {A}{B}", "x"), TemplateValidationError::AdjacentHoles));
    assert!(matches!(err("x {A} a {B} b {C} c {D}", "x"), TemplateValidationError::TooManyHoles));
    assert!(matches!(err("x {A", "x"), TemplateValidationError::UnclosedBrace));
    assert!(matches!(err("x {A} y", "{A"), TemplateValidationError::UnclosedBrace));
    match err("x {A} y", "{B}") {
        TemplateValidationError::UnknownHoleInReplacement(n) => assert_eq!(n, "B"),
        other => panic!("unexpected {other:?}"),
    }
}

#[test]
fn template_error_messages() {
    assert_eq!(err("", "x").message(), "template is empty");
    assert_eq!(err("{A} x", "x").message(), "lead is empty");
    assert_eq!(err("just text", "x").message(), "no holes in template");
    assert_eq!(err("x {A}{B}", "x").message(), "adjacent holes in template");
    assert_eq!(err("x {A} a {B} b {C} c {D}", "x").message(), "too many holes in template");
    assert_eq!(err("x {A", "x").message(), "unclosed brace in template");
    assert_eq!(err("x {A} y", "{B}").message(), "unknown hole in replacement: B");
}

#[test]
fn template_parts() {
    let t = parse_template("it's not just {A}, it's {B}", "it's {B}").unwrap();
    assert_eq!(t.lead, "it's not just ");
    assert_eq!(t.pairs.len(), 1);
    assert_eq!(t.pairs[0].0.name, "A");
    assert_eq!(t.pairs[0].1, ", it's ");
    assert_eq!(t.tail.as_ref().unwrap().name, "B");
    assert_eq!(t.replacement.len(), 2);
    assert!(matches!(&t.replacement[0], ReplacementPart::Text(s) if s == "it's "));
    assert!(matches!(&t.replacement[1], ReplacementPart::Hole(h) if h.name == "B"));
}

#[test]
fn three_holes_are_allowed() {
    let t = parse_template("x {A} a {B} b {C}", "{C}{B}{A}").unwrap();
    assert_eq!(t.pairs.len(), 2);
    assert!(t.tail.is_some());
}

#[test]
fn deserialise_book_reads_rules_and_reports_errors() {
    let book = SerialisableBook {
        version: 1,
        enabled: false,
        rules: vec![
            SerialisableRule {
                id: "good".to_string(),
                enabled: true,
                kind: SerialisableRuleKind::LemmaNoun { pattern: "a".to_string(), replacement: "b".to_string() },
            },
            SerialisableRule {
                id: "broken".to_string(),
                enabled: true,
                kind: SerialisableRuleKind::Template { pattern: "{A} x".to_string(), replacement: "".to_string() },
            },
        ],
    };
    let b = deserialise_book(book);
    assert!(!b.enabled);
    assert_eq!(b.rules.len(), 1);
    assert_eq!(b.rules[0].id, "good");
    assert!(matches!(&b.rules[0].kind, RuleKind::Lemma(l) if l.kind == LemmaKind::Noun));
    assert_eq!(b.errors.len(), 1);
    assert_eq!(b.errors[0].id, "broken");
    assert_eq!(b.errors[0].error, "lead is empty");
}
