//! The rule book as it is read in, and its conversion into rules.
use vstd::prelude::*;
use crate::rules::{
    parse_template, spec_error_message, spec_parse_template, LemmaKind, LemmaRule, LemmaView,
    LiteralRule, LiteralView, Rule, RuleKind, RuleKindView, RuleView, TemplateErrorView,
    TemplateValidationError,
};
use crate::compile::rules_view;

verus! {

broadcast use vstd::string::group_string_axioms, vstd::std_specs::vec::group_vec_axioms;

/// One rule of the book as written: its kind, with the pattern and the
/// replacement.
pub enum SerialisableRuleKind {
    Literal { pattern: String, replacement: String },
    LemmaVerb { pattern: String, replacement: String },
    LemmaNoun { pattern: String, replacement: String },
    Template { pattern: String, replacement: String },
}

pub struct SerialisableRule {
    pub id: String,
    pub enabled: bool,
    pub kind: SerialisableRuleKind,
}

pub struct SerialisableBook {
    pub version: u32,
    pub enabled: bool,
    pub rules: Vec<SerialisableRule>,
}

/// A rule that could not be read, with the reason.
pub struct RuleError {
    pub id: String,
    pub error: String,
}

pub struct Book {
    pub enabled: bool,
    pub rules: Vec<Rule>,
    pub errors: Vec<RuleError>,
}

pub enum SerialisableRuleKindView {
    Literal { pattern: Seq<char>, replacement: Seq<char> },
    LemmaVerb { pattern: Seq<char>, replacement: Seq<char> },
    LemmaNoun { pattern: Seq<char>, replacement: Seq<char> },
    Template { pattern: Seq<char>, replacement: Seq<char> },
}

pub struct SerialisableRuleView {
    pub id: Seq<char>,
    pub enabled: bool,
    pub kind: SerialisableRuleKindView,
}

pub struct RuleErrorView {
    pub id: Seq<char>,
    pub error: Seq<char>,
}

impl View for SerialisableRuleKind {
    type V = SerialisableRuleKindView;

    open spec fn view(&self) -> SerialisableRuleKindView {
        match self {
            SerialisableRuleKind::Literal { pattern, replacement } => SerialisableRuleKindView::Literal {
                pattern: pattern@,
                replacement: replacement@,
            },
            SerialisableRuleKind::LemmaVerb { pattern, replacement } => SerialisableRuleKindView::LemmaVerb {
                pattern: pattern@,
                replacement: replacement@,
            },
            SerialisableRuleKind::LemmaNoun { pattern, replacement } => SerialisableRuleKindView::LemmaNoun {
                pattern: pattern@,
                replacement: replacement@,
            },
            SerialisableRuleKind::Template { pattern, replacement } => SerialisableRuleKindView::Template {
                pattern: pattern@,
                replacement: replacement@,
            },
        }
    }
}

impl View for SerialisableRule {
    type V = SerialisableRuleView;

    open spec fn view(&self) -> SerialisableRuleView {
        SerialisableRuleView { id: self.id@, enabled: self.enabled, kind: self.kind@ }
    }
}

impl View for RuleError {
    type V = RuleErrorView;

    open spec fn view(&self) -> RuleErrorView {
        RuleErrorView { id: self.id@, error: self.error@ }
    }
}

pub open spec fn serialisable_rules_view(v: Seq<SerialisableRule>) -> Seq<SerialisableRuleView> {
    v.map_values(|r: SerialisableRule| r@)
}

pub open spec fn rule_errors_view(v: Seq<RuleError>) -> Seq<RuleErrorView> {
    v.map_values(|e: RuleError| e@)
}

/// The kind of rule a written rule stands for; a template is parsed and
/// may be refused.
pub open spec fn spec_deserialise_rule_kind(k: SerialisableRuleKindView) -> Result<RuleKindView, TemplateErrorView> {
    match k {
        SerialisableRuleKindView::Literal { pattern, replacement } => Ok(
            RuleKindView::Literal(LiteralView { pattern, replacement }),
        ),
        SerialisableRuleKindView::LemmaNoun { pattern, replacement } => Ok(
            RuleKindView::Lemma(LemmaView { pattern, replacement, kind: LemmaKind::Noun }),
        ),
        SerialisableRuleKindView::LemmaVerb { pattern, replacement } => Ok(
            RuleKindView::Lemma(LemmaView { pattern, replacement, kind: LemmaKind::Verb }),
        ),
        SerialisableRuleKindView::Template { pattern, replacement } => match spec_parse_template(pattern, replacement) {
            Ok(t) => Ok(RuleKindView::Template(t)),
            Err(e) => Err(e),
        },
    }
}

pub open spec fn spec_deserialise_rule(r: SerialisableRuleView) -> Result<RuleView, TemplateErrorView> {
    match spec_deserialise_rule_kind(r.kind) {
        Ok(kind) => Ok(RuleView { id: r.id, enabled: r.enabled, kind }),
        Err(e) => Err(e),
    }
}

/// The written rules that could be read, in order.
pub open spec fn spec_book_rules(rules: Seq<SerialisableRuleView>) -> Seq<RuleView>
    decreases rules.len(),
{
    if rules.len() == 0 {
        Seq::empty()
    } else {
        spec_book_rules(rules.drop_last()) + match spec_deserialise_rule(rules.last()) {
            Ok(r) => seq![r],
            Err(_) => Seq::empty(),
        }
    }
}

/// The written rules that could not be read, in order, each with its id and
/// the error's message.
pub open spec fn spec_book_errors(rules: Seq<SerialisableRuleView>) -> Seq<RuleErrorView>
    decreases rules.len(),
{
    if rules.len() == 0 {
        Seq::empty()
    } else {
        spec_book_errors(rules.drop_last()) + match spec_deserialise_rule(rules.last()) {
            Ok(_) => Seq::empty(),
            Err(e) => seq![RuleErrorView { id: rules.last().id, error: spec_error_message(e) }],
        }
    }
}

/// Converts one written rule kind: only a template can be refused, by the
/// template parser; nothing else is checked.
pub fn deserialise_rule_kind(serialised: SerialisableRuleKind) -> (r: Result<RuleKind, TemplateValidationError>)
    ensures
        match r {
            Ok(k) => spec_deserialise_rule_kind(serialised@) == Ok::<RuleKindView, TemplateErrorView>(k@),
            Err(e) => spec_deserialise_rule_kind(serialised@) == Err::<RuleKindView, TemplateErrorView>(e@),
        },
{
    match serialised {
        SerialisableRuleKind::Literal { pattern, replacement } => Ok(
            RuleKind::Literal(LiteralRule { pattern, replacement }),
        ),
        SerialisableRuleKind::LemmaNoun { pattern, replacement } => Ok(
            RuleKind::Lemma(LemmaRule { pattern, replacement, kind: LemmaKind::Noun }),
        ),
        SerialisableRuleKind::LemmaVerb { pattern, replacement } => Ok(
            RuleKind::Lemma(LemmaRule { pattern, replacement, kind: LemmaKind::Verb }),
        ),
        SerialisableRuleKind::Template { pattern, replacement } => {
            match parse_template(pattern.as_str(), replacement.as_str()) {
                Ok(t) => Ok(RuleKind::Template(t)),
                Err(e) => Err(e),
            }
        },
    }
}

fn deserialise_rule(serialised: SerialisableRule) -> (r: Result<Rule, TemplateValidationError>)
    ensures
        match r {
            Ok(rule) => spec_deserialise_rule(serialised@) == Ok::<RuleView, TemplateErrorView>(rule@),
            Err(e) => spec_deserialise_rule(serialised@) == Err::<RuleView, TemplateErrorView>(e@),
        },
{
    let SerialisableRule { id, enabled, kind } = serialised;
    let kind = deserialise_rule_kind(kind)?;
    Ok(Rule { id, enabled, kind })
}

/// Reads every rule of the book: each either becomes a rule or is reported
/// with its error; the book's switch is carried over.
pub fn deserialise_book(book: SerialisableBook) -> (b: Book)
    ensures
        b.enabled == book.enabled,
        rules_view(b.rules@) == spec_book_rules(serialisable_rules_view(book.rules@)),
        rule_errors_view(b.errors@) == spec_book_errors(serialisable_rules_view(book.rules@)),
{
    let ghost all = serialisable_rules_view(book.rules@);
    let SerialisableBook { version: _, enabled, rules: written } = book;
    let mut rules: Vec<Rule> = Vec::new();
    let mut errors: Vec<RuleError> = Vec::new();
    for serialised_rule in it: written
        invariant
            it.seq() == written@,
            all == serialisable_rules_view(written@),
            rules_view(rules@) == spec_book_rules(all.take(it.index() as int)),
            rule_errors_view(errors@) == spec_book_errors(all.take(it.index() as int)),
    {
        let ghost idx = it.index() as int;
        let ghost rv = serialised_rule@;
        assert(all.take(idx + 1).drop_last() =~= all.take(idx));
        assert(all.take(idx + 1).last() == rv);
        let ghost rules_before = rules_view(rules@);
        let ghost errors_before = rule_errors_view(errors@);
        let rule_id = serialised_rule.id.clone();
        match deserialise_rule(serialised_rule) {
            Ok(rule) => {
                rules.push(rule);
                assert(rules_view(rules@) =~= rules_before + seq![rules@.last()@]);
                assert(rule_errors_view(errors@) =~= errors_before + Seq::<RuleErrorView>::empty());
            },
            Err(e) => {
                let message = e.message();
                errors.push(RuleError { id: rule_id, error: message });
                assert(rule_errors_view(errors@) =~= errors_before + seq![errors@.last()@]);
                assert(rules_view(rules@) =~= rules_before + Seq::<RuleView>::empty());
            },
        }
    }
    assert(all.take(all.len() as int) =~= all);
    Book { enabled, rules, errors }
}

/// Law: every written rule is accounted for once, either as a rule or as
/// an error.
pub proof fn lemma_book_accounts_for_every_rule(rules: Seq<SerialisableRuleView>)
    ensures
        spec_book_rules(rules).len() + spec_book_errors(rules).len() == rules.len(),
    decreases rules.len(),
{
    if rules.len() > 0 {
        lemma_book_accounts_for_every_rule(rules.drop_last());
    }
}

/// Law: the templates among the rules read from a book are well formed.
pub proof fn lemma_book_rules_well_formed(rules: Seq<SerialisableRuleView>)
    ensures
        crate::compile::rules_templates_well_formed(spec_book_rules(rules)),
    decreases rules.len(),
{
    if rules.len() > 0 {
        let init = rules.drop_last();
        lemma_book_rules_well_formed(init);
        let prev = spec_book_rules(init);
        let all = spec_book_rules(rules);
        let last = rules.last();
        if let SerialisableRuleKindView::Template { pattern, replacement } = last.kind {
            crate::rules::lemma_parsed_template_well_formed(pattern, replacement);
        }
        assert forall|i: int| 0 <= i < all.len() implies match (#[trigger] all[i]).kind {
            RuleKindView::Template(t) => crate::rules::template_well_formed(t),
            _ => true,
        } by {
            if i < prev.len() {
                assert(all[i] == prev[i]);
            }
        }
    }
}

} // verus!
