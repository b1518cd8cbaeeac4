//! Compiles rules into the literal and template lists that the rewriter uses.
use vstd::prelude::*;
use crate::rules::{
    expand_lemma, literals_view, spec_expand_lemma, template_well_formed, LiteralRule, LiteralView,
    Rule, RuleKind, RuleKindView, RuleView, TemplateRule, TemplateView,
};
use crate::text::{chars_of, push_chars, string_of};

verus! {

broadcast use vstd::string::group_string_axioms, vstd::std_specs::vec::group_vec_axioms;

pub struct CompiledLiteral {
    pub id: String,
    pub pattern: String,
    pub replacement: String,
}

pub struct CompiledTemplate {
    pub id: String,
    pub rule: TemplateRule,
}

pub struct CompiledRules {
    pub literals: Vec<CompiledLiteral>,
    pub templates: Vec<CompiledTemplate>,
    pub enabled: bool,
}

pub struct CompiledLiteralView {
    pub id: Seq<char>,
    pub pattern: Seq<char>,
    pub replacement: Seq<char>,
}

pub struct CompiledTemplateView {
    pub id: Seq<char>,
    pub rule: TemplateView,
}

pub struct CompiledRulesView {
    pub literals: Seq<CompiledLiteralView>,
    pub templates: Seq<CompiledTemplateView>,
    pub enabled: bool,
}

impl View for CompiledLiteral {
    type V = CompiledLiteralView;

    open spec fn view(&self) -> CompiledLiteralView {
        CompiledLiteralView { id: self.id@, pattern: self.pattern@, replacement: self.replacement@ }
    }
}

impl View for CompiledTemplate {
    type V = CompiledTemplateView;

    open spec fn view(&self) -> CompiledTemplateView {
        CompiledTemplateView { id: self.id@, rule: self.rule@ }
    }
}

pub open spec fn compiled_literals_view(v: Seq<CompiledLiteral>) -> Seq<CompiledLiteralView> {
    v.map_values(|l: CompiledLiteral| l@)
}

pub open spec fn compiled_templates_view(v: Seq<CompiledTemplate>) -> Seq<CompiledTemplateView> {
    v.map_values(|t: CompiledTemplate| t@)
}

impl View for CompiledRules {
    type V = CompiledRulesView;

    open spec fn view(&self) -> CompiledRulesView {
        CompiledRulesView {
            literals: compiled_literals_view(self.literals@),
            templates: compiled_templates_view(self.templates@),
            enabled: self.enabled,
        }
    }
}

/// Every template of the compiled rules is well formed.
pub open spec fn compiled_well_formed(rules: CompiledRulesView) -> bool {
    forall|i: int| 0 <= i < rules.templates.len() ==> template_well_formed(#[trigger] rules.templates[i].rule)
}

/// The characters that `char::to_uppercase` yields for `c`
/// (Unicode's full uppercase mapping).
pub uninterp spec fn char_uppercase(c: char) -> Seq<char>;

/// Calls `char::to_uppercase` and collects what it yields. The contract
/// gives the result the name `char_uppercase(c)` and states, as the
/// function's documentation does, that the mapping yields at least one
/// character; which characters those are is left unsaid.
#[verifier::external_body]
fn uppercase(c: char) -> (r: Vec<char>)
    ensures
        r@ == char_uppercase(c),
        r@.len() >= 1,
{
    c.to_uppercase().collect()
}

/// The word with its first character replaced by its uppercase mapping.
pub open spec fn spec_capitalise(s: Seq<char>) -> Seq<char> {
    if s.len() == 0 {
        s
    } else {
        char_uppercase(s[0]) + s.drop_first()
    }
}

fn capitalise(s: &str) -> (r: String)
    ensures
        r@ == spec_capitalise(s@),
{
    let chars = chars_of(s);
    if chars.len() == 0 {
        return string_of(chars);
    }
    let mut out = uppercase(chars[0]);
    let rest = crate::text::slice_chars(&chars, 1, chars.len());
    push_chars(&mut out, &rest);
    assert(rest@ =~= s@.drop_first());
    string_of(out)
}

/// A literal rule compiles to itself and, where capitalising the pattern's
/// first character changes it, to the capitalised pattern with the
/// capitalised replacement.
pub open spec fn spec_compile_literal(id: Seq<char>, rule: LiteralView) -> Seq<CompiledLiteralView> {
    let plain = CompiledLiteralView { id, pattern: rule.pattern, replacement: rule.replacement };
    if spec_capitalise(rule.pattern) != rule.pattern {
        seq![
            plain,
            CompiledLiteralView {
                id,
                pattern: spec_capitalise(rule.pattern),
                replacement: spec_capitalise(rule.replacement),
            },
        ]
    } else {
        seq![plain]
    }
}

pub fn compile_literal(id: &str, rule: &LiteralRule) -> (rules: Vec<CompiledLiteral>)
    ensures
        compiled_literals_view(rules@) == spec_compile_literal(id@, rule@),
{
    let mut rules = vec![CompiledLiteral {
        id: id.to_string(),
        pattern: rule.pattern.clone(),
        replacement: rule.replacement.clone(),
    }];
    let capitalised = capitalise(rule.pattern.as_str());
    if capitalised != rule.pattern {
        rules.push(CompiledLiteral {
            id: id.to_string(),
            pattern: capitalised,
            replacement: capitalise(rule.replacement.as_str()),
        });
    }
    assert(compiled_literals_view(rules@) =~= spec_compile_literal(id@, rule@));
    rules
}

pub fn compile_template(id: &str, rule: TemplateRule) -> (t: CompiledTemplate)
    ensures
        t@ == (CompiledTemplateView { id: id@, rule: rule@ }),
{
    CompiledTemplate { id: id.to_string(), rule }
}

/// The compiled literals of each literal rule in turn.
pub open spec fn spec_compile_literal_list(id: Seq<char>, rules: Seq<LiteralView>) -> Seq<CompiledLiteralView>
    decreases rules.len(),
{
    if rules.len() == 0 {
        Seq::empty()
    } else {
        spec_compile_literal_list(id, rules.drop_last()) + spec_compile_literal(id, rules.last())
    }
}

/// What one rule contributes to the compiled literals: nothing when it is
/// disabled or a template.
pub open spec fn spec_rule_literals(rule: RuleView) -> Seq<CompiledLiteralView> {
    if !rule.enabled {
        Seq::empty()
    } else {
        match rule.kind {
            RuleKindView::Literal(l) => spec_compile_literal(rule.id, l),
            RuleKindView::Lemma(l) => spec_compile_literal_list(rule.id, spec_expand_lemma(l)),
            RuleKindView::Template(_) => Seq::empty(),
        }
    }
}

/// What one rule contributes to the compiled templates.
pub open spec fn spec_rule_templates(rule: RuleView) -> Seq<CompiledTemplateView> {
    if !rule.enabled {
        Seq::empty()
    } else {
        match rule.kind {
            RuleKindView::Template(t) => seq![CompiledTemplateView { id: rule.id, rule: t }],
            _ => Seq::empty(),
        }
    }
}

pub open spec fn spec_compile_literals(rules: Seq<RuleView>) -> Seq<CompiledLiteralView>
    decreases rules.len(),
{
    if rules.len() == 0 {
        Seq::empty()
    } else {
        spec_compile_literals(rules.drop_last()) + spec_rule_literals(rules.last())
    }
}

pub open spec fn spec_compile_templates(rules: Seq<RuleView>) -> Seq<CompiledTemplateView>
    decreases rules.len(),
{
    if rules.len() == 0 {
        Seq::empty()
    } else {
        spec_compile_templates(rules.drop_last()) + spec_rule_templates(rules.last())
    }
}

pub open spec fn rules_view(rules: Seq<Rule>) -> Seq<RuleView> {
    rules.map_values(|r: Rule| r@)
}

/// The rule book compiled: the enabled rules' literals (lemmas expanded
/// and every literal in its cased variants) and templates, in rule order.
pub open spec fn spec_compile(rules: Seq<RuleView>, book_enabled: bool) -> CompiledRulesView {
    CompiledRulesView {
        literals: spec_compile_literals(rules),
        templates: spec_compile_templates(rules),
        enabled: book_enabled,
    }
}

/// Appends the compiled forms of `rule` to `literals`.
fn extend_with_literal(literals: &mut Vec<CompiledLiteral>, id: &String, rule: &LiteralRule)
    ensures
        compiled_literals_view(final(literals)@) == compiled_literals_view(old(literals)@)
            + spec_compile_literal(id@, rule@),
{
    let mut more = compile_literal(id.as_str(), rule);
    let ghost before = literals@;
    let ghost added = more@;
    literals.append(&mut more);
    assert(compiled_literals_view(literals@) =~= compiled_literals_view(before)
        + compiled_literals_view(added));
}

pub fn compile(rules: Vec<Rule>, book_enabled: bool) -> (compiled: CompiledRules)
    ensures
        compiled@ == spec_compile(rules_view(rules@), book_enabled),
{
    let ghost all = rules_view(rules@);
    let mut literals: Vec<CompiledLiteral> = Vec::new();
    let mut templates: Vec<CompiledTemplate> = Vec::new();
    for rule in it: rules
        invariant
            it.seq() == rules@,
            all == rules_view(rules@),
            compiled_literals_view(literals@) == spec_compile_literals(all.take(it.index() as int)),
            compiled_templates_view(templates@) == spec_compile_templates(all.take(it.index() as int)),
    {
        let ghost idx = it.index() as int;
        let ghost rv = rule@;
        assert(all.take(idx + 1).drop_last() =~= all.take(idx));
        assert(all.take(idx + 1).last() == rv);
        let Rule { id, enabled, kind } = rule;
        if enabled {
            match kind {
                RuleKind::Lemma(lemma) => {
                    let expanded = expand_lemma(&lemma);
                    let ghost ev = literals_view(expanded@);
                    let ghost start = compiled_literals_view(literals@);
                    let mut j: usize = 0;
                    while j < expanded.len()
                        invariant
                            0 <= j <= expanded@.len(),
                            ev == literals_view(expanded@),
                            compiled_literals_view(literals@) == start + spec_compile_literal_list(id@, ev.take(j as int)),
                        decreases expanded@.len() - j,
                    {
                        extend_with_literal(&mut literals, &id, &expanded[j]);
                        assert(ev.take(j + 1).drop_last() =~= ev.take(j as int));
                        j = j + 1;
                    }
                    assert(ev.take(j as int) =~= ev);
                },
                RuleKind::Literal(literal) => {
                    extend_with_literal(&mut literals, &id, &literal);
                },
                RuleKind::Template(template) => {
                    let ghost before = templates@;
                    templates.push(compile_template(id.as_str(), template));
                    assert(compiled_templates_view(templates@) =~= compiled_templates_view(before)
                        + spec_rule_templates(rv));
                },
            }
        }
        assert(compiled_literals_view(literals@) =~= spec_compile_literals(all.take(idx)) + spec_rule_literals(rv));
        assert(compiled_templates_view(templates@) =~= spec_compile_templates(all.take(idx)) + spec_rule_templates(rv));
    }
    assert(all.take(all.len() as int) =~= all);
    CompiledRules { literals, templates, enabled: book_enabled }
}

/// Every template rule among `rules` is well formed.
pub open spec fn rules_templates_well_formed(rules: Seq<RuleView>) -> bool {
    forall|i: int|
        0 <= i < rules.len() ==> match (#[trigger] rules[i]).kind {
            RuleKindView::Template(t) => template_well_formed(t),
            _ => true,
        }
}

/// Law: compiling keeps templates as they are, so rules whose templates
/// are well formed compile to rules that can be used to rewrite.
pub proof fn lemma_compile_well_formed(rules: Seq<RuleView>, book_enabled: bool)
    requires
        rules_templates_well_formed(rules),
    ensures
        compiled_well_formed(spec_compile(rules, book_enabled)),
    decreases rules.len(),
{
    if rules.len() > 0 {
        let init = rules.drop_last();
        assert(rules_templates_well_formed(init)) by {
            assert forall|i: int| 0 <= i < init.len() implies match (#[trigger] init[i]).kind {
                RuleKindView::Template(t) => template_well_formed(t),
                _ => true,
            } by {
                assert(init[i] == rules[i]);
            }
        }
        lemma_compile_well_formed(init, book_enabled);
        let prev = spec_compile_templates(init);
        let last = spec_rule_templates(rules.last());
        let all = spec_compile_templates(rules);
        assert(all == prev + last);
        assert(match rules[rules.len() - 1].kind {
            RuleKindView::Template(t) => template_well_formed(t),
            _ => true,
        });
        assert forall|i: int| 0 <= i < all.len() implies template_well_formed(#[trigger] all[i].rule) by {
            if i < prev.len() {
                assert(all[i] == prev[i]);
                assert(spec_compile(init, book_enabled).templates[i] == prev[i]);
            } else {
                assert(all[i] == last[i - prev.len()]);
            }
        }
    }
}

/// Law: a rule that is switched off contributes nothing to the compiled
/// rules; the others contribute in order.
pub proof fn lemma_disabled_rule_contributes_nothing(rules: Seq<RuleView>, r: RuleView)
    requires
        !r.enabled,
    ensures
        spec_compile_literals(rules.push(r)) == spec_compile_literals(rules),
        spec_compile_templates(rules.push(r)) == spec_compile_templates(rules),
{
    assert(rules.push(r).drop_last() =~= rules);
    assert(spec_compile_literals(rules) + Seq::<CompiledLiteralView>::empty() =~= spec_compile_literals(rules));
    assert(spec_compile_templates(rules) + Seq::<CompiledTemplateView>::empty() =~= spec_compile_templates(rules));
}

/// Law: compiling a book with one more rule at the end adds exactly that
/// rule's compiled forms at the end. An enabled literal rule adds what
/// `compile_literal` gives for it (itself, and its capitalised variant
/// where capitalising changes the pattern); an enabled template adds itself
/// to the templates only; an enabled lemma adds what `compile_literal`
/// gives for each literal it stands for; a disabled rule adds nothing.
pub proof fn lemma_compile_one_more_rule(rules: Seq<RuleView>, r: RuleView, book_enabled: bool)
    ensures
        ({
            let before = spec_compile(rules, book_enabled);
            let after = spec_compile(rules.push(r), book_enabled);
            &&& after.enabled == book_enabled
            &&& !r.enabled ==> after.literals == before.literals && after.templates == before.templates
            &&& r.enabled ==> match r.kind {
                RuleKindView::Literal(l) => {
                    &&& after.literals == before.literals + spec_compile_literal(r.id, l)
                    &&& after.templates == before.templates
                },
                RuleKindView::Template(t) => {
                    &&& after.literals == before.literals
                    &&& after.templates == before.templates.push(CompiledTemplateView { id: r.id, rule: t })
                },
                RuleKindView::Lemma(l) => {
                    &&& after.literals == before.literals + spec_compile_literal_list(r.id, spec_expand_lemma(l))
                    &&& after.templates == before.templates
                },
            }
        }),
{
    assert(rules.push(r).drop_last() =~= rules);
    assert(rules.push(r).last() == r);
    let before = spec_compile(rules, book_enabled);
    assert(before.literals + Seq::<CompiledLiteralView>::empty() =~= before.literals);
    assert(before.templates + Seq::<CompiledTemplateView>::empty() =~= before.templates);
    if let RuleKindView::Template(t) = r.kind {
        assert(before.templates + seq![CompiledTemplateView { id: r.id, rule: t }] =~= before.templates.push(
            CompiledTemplateView { id: r.id, rule: t },
        ));
    }
}

/// Law: a literal compiles first to itself, and has exactly one more
/// compiled form, the capitalised pattern with the capitalised replacement,
/// when capitalising changes the pattern.
pub proof fn lemma_compile_literal_forms(id: Seq<char>, l: LiteralView)
    ensures
        spec_compile_literal(id, l).len() == if spec_capitalise(l.pattern) != l.pattern { 2int } else { 1int },
        spec_compile_literal(id, l)[0] == (CompiledLiteralView { id, pattern: l.pattern, replacement: l.replacement }),
        spec_capitalise(l.pattern) != l.pattern ==> spec_compile_literal(id, l)[1] == (CompiledLiteralView {
            id,
            pattern: spec_capitalise(l.pattern),
            replacement: spec_capitalise(l.replacement),
        }),
{
}

/// Law: the compiled forms of a list of literals are those of each literal
/// in turn: compiling two lists one after the other gives the compiled
/// forms of the first followed by those of the second.
pub proof fn lemma_compile_literal_list_concat(id: Seq<char>, a: Seq<LiteralView>, b: Seq<LiteralView>)
    ensures
        spec_compile_literal_list(id, a + b) == spec_compile_literal_list(id, a) + spec_compile_literal_list(id, b),
    decreases b.len(),
{
    if b.len() == 0 {
        assert(a + b =~= a);
        assert(spec_compile_literal_list(id, a) + Seq::<CompiledLiteralView>::empty() =~= spec_compile_literal_list(id, a));
    } else {
        lemma_compile_literal_list_concat(id, a, b.drop_last());
        assert((a + b).drop_last() =~= a + b.drop_last());
        assert((a + b).last() == b.last());
    }
}

/// Law: a list of one literal compiles to what `compile_literal` gives for it.
pub proof fn lemma_compile_literal_list_one(id: Seq<char>, l: LiteralView)
    ensures
        spec_compile_literal_list(id, seq![l]) == spec_compile_literal(id, l),
{
    assert(seq![l].drop_last() =~= Seq::<LiteralView>::empty());
    assert(seq![l].last() == l);
    assert(spec_compile_literal_list(id, Seq::<LiteralView>::empty()) == Seq::<CompiledLiteralView>::empty());
    assert(Seq::<CompiledLiteralView>::empty() + spec_compile_literal(id, l) =~= spec_compile_literal(id, l));
}

} // verus!
