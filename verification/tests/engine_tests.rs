use declank::book::{SerialisableBook, SerialisableRule, SerialisableRuleKind};
use declank::engine::{Engine, RuleParseReport};
use serde_json::Value;

/// Reads a rule book from JSON the way the WebAssembly bindings do: a
/// missing `enabled` means true, and `kind` picks the rule kind.
fn parse_book(json: &str) -> Result<SerialisableBook, String> {
    let v: Value = serde_json::from_str(json).map_err(|e| e.to_string())?;
    let obj = v.as_object().ok_or_else(|| "book is not an object".to_string())?;
    let version = obj
        .get("version")
        .and_then(Value::as_u64)
        .ok_or_else(|| "missing version".to_string())? as u32;
    let enabled = obj.get("enabled").and_then(Value::as_bool).unwrap_or(true);
    let mut rules = Vec::new();
    for r in obj
        .get("rules")
        .and_then(Value::as_array)
        .ok_or_else(|| "missing rules".to_string())?
    {
        let field = |name: &str| -> Result<String, String> {
            r.get(name)
                .and_then(Value::as_str)
                .map(str::to_string)
                .ok_or_else(|| format!("missing {name}"))
        };
        let pattern = field("pattern")?;
        let replacement = field("replacement")?;
        let kind = match field("kind")?.as_str() {
            "literal" => SerialisableRuleKind::Literal { pattern, replacement },
            "lemma-verb" => SerialisableRuleKind::LemmaVerb { pattern, replacement },
            "lemma-noun" => SerialisableRuleKind::LemmaNoun { pattern, replacement },
            "template" => SerialisableRuleKind::Template { pattern, replacement },
            other => return Err(format!("unknown variant `{other}`")),
        };
        rules.push(SerialisableRule {
            id: field("id")?,
            enabled: r.get("enabled").and_then(Value::as_bool).unwrap_or(true),
            kind,
        });
    }
    Ok(SerialisableBook { version, enabled, rules })
}

/// The report as JSON, as the WebAssembly bindings give it.
fn report_json(report: &RuleParseReport) -> String {
    let errors: Vec<Value> = report
        .errors
        .iter()
        .map(|e| {
            let mut m = serde_json::Map::new();
            m.insert("id".to_string(), Value::String(e.id.clone()));
            m.insert("error".to_string(), Value::String(e.error.clone()));
            Value::Object(m)
        })
        .collect();
    let mut m = serde_json::Map::new();
    m.insert("loaded".to_string(), Value::from(report.loaded));
    m.insert("errors".to_string(), Value::Array(errors));
    serde_json::to_string(&Value::Object(m)).unwrap()
}

fn set_rules_inner(engine: &mut Engine, json: &str) -> Result<String, String> {
    engine.set_rules(parse_book(json)).map(|r| report_json(&r))
}

const GOOD_BOOK: &str = r#"{
    "version": 1,
    "rules": [
        {"id":"utilise","kind":"lemma-verb","pattern":"utilise","replacement":"use"},
        {"id":"tapestry","kind":"literal","pattern":"rich tapestry of","replacement":"range of"}
    ]
}"#;

#[test]
fn set_rules_loads_a_book_and_declank_uses_it() {
    let mut engine = Engine::new();
    let report = set_rules_inner(&mut engine, GOOD_BOOK).unwrap();
    assert!(report.contains("\"loaded\":2"), "report was {report}");
    assert_eq!(engine.declank("We utilise this."), "We use this.");
}

#[test]
fn lemma_expansion_survives_the_round_trip() {
    let mut engine = Engine::new();
    set_rules_inner(&mut engine, GOOD_BOOK).unwrap();
    assert_eq!(engine.declank("She utilises this."), "She uses this.");
    assert_eq!(engine.declank("They utilised this."), "They used this.");
    assert_eq!(engine.declank("We are utilising this."), "We are using this.");
}

#[test]
fn an_empty_book_rewrites_nothing() {
    let mut engine = Engine::new();
    set_rules_inner(&mut engine, r#"{"version":1,"rules":[]}"#).unwrap();
    assert_eq!(engine.declank("We utilise this."), "We utilise this.");
}

#[test]
fn a_disabled_book_rewrites_nothing() {
    let mut engine = Engine::new();
    let json = r#"{
        "version": 1,
        "enabled": false,
        "rules": [
            {"id":"utilise","kind":"lemma-verb","pattern":"utilise","replacement":"use"}
        ]
    }"#;
    let report = set_rules_inner(&mut engine, json).unwrap();
    assert!(report.contains("\"loaded\":1"), "report was {report}");
    assert_eq!(engine.declank("We utilise this."), "We utilise this.");
}

#[test]
fn a_disabled_rule_is_skipped() {
    let mut engine = Engine::new();
    let json = r#"{
        "version": 1,
        "rules": [
            {"id":"utilise","enabled":false,"kind":"lemma-verb","pattern":"utilise","replacement":"use"},
            {"id":"tapestry","kind":"literal","pattern":"rich tapestry of","replacement":"range of"}
        ]
    }"#;
    set_rules_inner(&mut engine, json).unwrap();
    assert_eq!(engine.declank("We utilise this."), "We utilise this.");
    assert_eq!(engine.declank("a rich tapestry of things"), "a range of things");
}

#[test]
fn malformed_json_is_rejected_and_leaves_the_old_rules_in_place() {
    let mut engine = Engine::new();
    set_rules_inner(&mut engine, GOOD_BOOK).unwrap();
    assert!(set_rules_inner(&mut engine, "{ not json").is_err());
    assert_eq!(engine.declank("We utilise this."), "We use this.");
}

#[test]
fn a_bad_template_is_reported_and_the_rest_still_load() {
    let mut engine = Engine::new();
    let json = r#"{
        "version": 1,
        "rules": [
            {"id":"utilise","kind":"lemma-verb","pattern":"utilise","replacement":"use"},
            {"id":"broken","kind":"template","pattern":"{A} starts here","replacement":"{A}"}
        ]
    }"#;
    let report = set_rules_inner(&mut engine, json).unwrap();
    assert!(report.contains("\"loaded\":1"), "report was {report}");
    assert!(report.contains("broken"), "report was {report}");
    assert!(report.contains("lead is empty"), "report was {report}");
    assert_eq!(engine.declank("We utilise this."), "We use this.");
}

#[test]
fn a_valid_template_round_trips() {
    let mut engine = Engine::new();
    let json = r#"{
        "version": 1,
        "rules": [
            {"id":"in-question","kind":"template","pattern":"the {A} in question","replacement":"the {A}"}
        ]
    }"#;
    set_rules_inner(&mut engine, json).unwrap();
    assert_eq!(
        engine.declank("We reviewed the £4.2m figure in question today."),
        "We reviewed the £4.2m figure today."
    );
}

#[test]
fn no_book_loaded_rewrites_nothing() {
    let engine = Engine::new();
    assert_eq!(engine.declank("We utilise this."), "We utilise this.");
}

#[test]
fn a_new_book_replaces_the_old_one() {
    let mut engine = Engine::new();
    set_rules_inner(&mut engine, GOOD_BOOK).unwrap();
    set_rules_inner(&mut engine, r#"{"version":1,"rules":[{"id":"delve","kind":"literal","pattern":"delve","replacement":"look"}]}"#).unwrap();
    assert_eq!(engine.declank("We utilise this to delve."), "We utilise this to look.");
}

#[test]
fn the_report_lists_every_refused_rule_in_order() {
    let mut engine = Engine::new();
    let json = r#"{
        "version": 1,
        "rules": [
            {"id":"a","kind":"template","pattern":"x {A}{B}","replacement":"{A}"},
            {"id":"b","kind":"literal","pattern":"p","replacement":"q"},
            {"id":"c","kind":"template","pattern":"x {A} y","replacement":"{Z}"}
        ]
    }"#;
    let mut e2 = Engine::new();
    let report = e2.set_rules(parse_book(json)).unwrap();
    assert_eq!(report.loaded, 1);
    assert_eq!(report.errors.len(), 2);
    assert_eq!(report.errors[0].id, "a");
    assert_eq!(report.errors[0].error, "adjacent holes in template");
    assert_eq!(report.errors[1].id, "c");
    assert_eq!(report.errors[1].error, "unknown hole in replacement: Z");
    set_rules_inner(&mut engine, json).unwrap();
}
