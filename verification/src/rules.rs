//! Rule definitions, lemma expansion and the template parser.
use vstd::prelude::*;
use crate::inflect::{noun_forms, spec_plural, spec_verb_forms, verb_forms};
use crate::text::{chars_of_string, copy_string, slice_chars, string_of};

verus! {

broadcast use vstd::string::group_string_axioms;

/// The largest number of holes a template pattern may have.
pub const MAX_HOLES: usize = 3;

pub struct Rule {
    pub id: String,
    pub enabled: bool,
    pub kind: RuleKind,
}

pub enum RuleKind {
    Literal(LiteralRule),
    Lemma(LemmaRule),
    Template(TemplateRule),
}

pub struct LiteralRule {
    pub pattern: String,
    pub replacement: String,
}

pub struct LemmaRule {
    pub pattern: String,
    pub replacement: String,
    pub kind: LemmaKind,
}

#[derive(Clone, Copy, Debug, PartialEq, Eq)]
pub enum LemmaKind {
    Noun,
    Verb,
}

enum Segment {
    Text(String),
    Hole(Hole),
}

pub struct Hole {
    pub name: String,
}

pub enum ReplacementPart {
    Text(String),
    Hole(Hole),
}

/// A template `lead {A} text {B} ...`: the fixed lead text, then pairs of a
/// hole and the fixed text that follows it, then possibly a final hole that
/// runs to the end of the sentence.
pub struct TemplateRule {
    pub lead: String,
    pub pairs: Vec<(Hole, String)>,
    pub tail: Option<Hole>,
    pub replacement: Vec<ReplacementPart>,
}

#[derive(Debug)]
pub enum TemplateValidationError {
    EmptyTemplate,
    EmptyLead,
    NoHoles,
    AdjacentHoles,
    TooManyHoles,
    UnclosedBrace,
    UnknownHoleInReplacement(String),
}

// ---------------------------------------------------------------------------
// Views
// ---------------------------------------------------------------------------

/// A piece of a template: fixed text, or a hole with its name.
pub enum Piece {
    Text(Seq<char>),
    Hole(Seq<char>),
}

impl Piece {
    /// The text of a text piece, or the name of a hole.
    pub open spec fn content(self) -> Seq<char> {
        match self {
            Piece::Text(t) => t,
            Piece::Hole(n) => n,
        }
    }
}

pub struct LiteralView {
    pub pattern: Seq<char>,
    pub replacement: Seq<char>,
}

pub struct LemmaView {
    pub pattern: Seq<char>,
    pub replacement: Seq<char>,
    pub kind: LemmaKind,
}

pub struct TemplateView {
    pub lead: Seq<char>,
    /// Each hole's name, with the fixed text that follows it.
    pub pairs: Seq<(Seq<char>, Seq<char>)>,
    pub tail: Option<Seq<char>>,
    pub replacement: Seq<Piece>,
}

pub enum RuleKindView {
    Literal(LiteralView),
    Lemma(LemmaView),
    Template(TemplateView),
}

pub struct RuleView {
    pub id: Seq<char>,
    pub enabled: bool,
    pub kind: RuleKindView,
}

pub enum TemplateErrorView {
    EmptyTemplate,
    EmptyLead,
    NoHoles,
    AdjacentHoles,
    TooManyHoles,
    UnclosedBrace,
    UnknownHoleInReplacement(Seq<char>),
}

impl View for LiteralRule {
    type V = LiteralView;

    open spec fn view(&self) -> LiteralView {
        LiteralView { pattern: self.pattern@, replacement: self.replacement@ }
    }
}

impl View for LemmaRule {
    type V = LemmaView;

    open spec fn view(&self) -> LemmaView {
        LemmaView { pattern: self.pattern@, replacement: self.replacement@, kind: self.kind }
    }
}

impl View for Segment {
    type V = Piece;

    closed spec fn view(&self) -> Piece {
        match self {
            Segment::Text(t) => Piece::Text(t@),
            Segment::Hole(h) => Piece::Hole(h.name@),
        }
    }
}

impl View for ReplacementPart {
    type V = Piece;

    open spec fn view(&self) -> Piece {
        match self {
            ReplacementPart::Text(t) => Piece::Text(t@),
            ReplacementPart::Hole(h) => Piece::Hole(h.name@),
        }
    }
}

pub open spec fn pairs_view(pairs: Seq<(Hole, String)>) -> Seq<(Seq<char>, Seq<char>)> {
    pairs.map_values(|p: (Hole, String)| (p.0.name@, p.1@))
}

pub open spec fn tail_view(tail: Option<Hole>) -> Option<Seq<char>> {
    match tail {
        Some(h) => Some(h.name@),
        None => None,
    }
}

pub open spec fn parts_view(parts: Seq<ReplacementPart>) -> Seq<Piece> {
    parts.map_values(|p: ReplacementPart| p@)
}

impl View for TemplateRule {
    type V = TemplateView;

    open spec fn view(&self) -> TemplateView {
        TemplateView {
            lead: self.lead@,
            pairs: pairs_view(self.pairs@),
            tail: tail_view(self.tail),
            replacement: parts_view(self.replacement@),
        }
    }
}

impl View for RuleKind {
    type V = RuleKindView;

    open spec fn view(&self) -> RuleKindView {
        match self {
            RuleKind::Literal(r) => RuleKindView::Literal(r@),
            RuleKind::Lemma(r) => RuleKindView::Lemma(r@),
            RuleKind::Template(r) => RuleKindView::Template(r@),
        }
    }
}

impl View for Rule {
    type V = RuleView;

    open spec fn view(&self) -> RuleView {
        RuleView { id: self.id@, enabled: self.enabled, kind: self.kind@ }
    }
}

impl View for TemplateValidationError {
    type V = TemplateErrorView;

    open spec fn view(&self) -> TemplateErrorView {
        match self {
            TemplateValidationError::EmptyTemplate => TemplateErrorView::EmptyTemplate,
            TemplateValidationError::EmptyLead => TemplateErrorView::EmptyLead,
            TemplateValidationError::NoHoles => TemplateErrorView::NoHoles,
            TemplateValidationError::AdjacentHoles => TemplateErrorView::AdjacentHoles,
            TemplateValidationError::TooManyHoles => TemplateErrorView::TooManyHoles,
            TemplateValidationError::UnclosedBrace => TemplateErrorView::UnclosedBrace,
            TemplateValidationError::UnknownHoleInReplacement(n) => TemplateErrorView::UnknownHoleInReplacement(n@),
        }
    }
}

// ---------------------------------------------------------------------------
// Error messages
// ---------------------------------------------------------------------------

/// The human-readable text of each template error.
pub open spec fn spec_error_message(e: TemplateErrorView) -> Seq<char> {
    match e {
        TemplateErrorView::EmptyTemplate => "template is empty"@,
        TemplateErrorView::EmptyLead => "lead is empty"@,
        TemplateErrorView::NoHoles => "no holes in template"@,
        TemplateErrorView::AdjacentHoles => "adjacent holes in template"@,
        TemplateErrorView::TooManyHoles => "too many holes in template"@,
        TemplateErrorView::UnclosedBrace => "unclosed brace in template"@,
        TemplateErrorView::UnknownHoleInReplacement(n) => "unknown hole in replacement: "@ + n,
    }
}

impl TemplateValidationError {
    /// The error as text, for reports.
    pub fn message(&self) -> (m: String)
        ensures
            m@ == spec_error_message(self@),
    {
        match self {
            TemplateValidationError::EmptyTemplate => "template is empty".to_string(),
            TemplateValidationError::EmptyLead => "lead is empty".to_string(),
            TemplateValidationError::NoHoles => "no holes in template".to_string(),
            TemplateValidationError::AdjacentHoles => "adjacent holes in template".to_string(),
            TemplateValidationError::TooManyHoles => "too many holes in template".to_string(),
            TemplateValidationError::UnclosedBrace => "unclosed brace in template".to_string(),
            TemplateValidationError::UnknownHoleInReplacement(name) => {
                let mut v = crate::text::chars_of("unknown hole in replacement: ");
                let n = chars_of_string(name);
                crate::text::push_chars(&mut v, &n);
                string_of(v)
            },
        }
    }
}

// ---------------------------------------------------------------------------
// Lemma expansion
// ---------------------------------------------------------------------------

/// The literal rules a lemma stands for: for a noun, singular and plural;
/// for a verb, base, `-s`, past, past participle (left out where both the
/// pattern's and the replacement's past participles equal their pasts) and
/// `-ing` forms. Each pattern form is paired with the same form of the
/// replacement.
pub open spec fn spec_expand_lemma(r: LemmaView) -> Seq<LiteralView> {
    match r.kind {
        LemmaKind::Noun => seq![
            LiteralView { pattern: r.pattern, replacement: r.replacement },
            LiteralView { pattern: spec_plural(r.pattern), replacement: spec_plural(r.replacement) },
        ],
        LemmaKind::Verb => {
            let p = spec_verb_forms(r.pattern);
            let q = spec_verb_forms(r.replacement);
            let collides = p.past == p.past_participle && q.past == q.past_participle;
            seq![
                LiteralView { pattern: p.base, replacement: q.base },
                LiteralView { pattern: p.third_person, replacement: q.third_person },
                LiteralView { pattern: p.past, replacement: q.past },
            ] + (if collides {
                Seq::empty()
            } else {
                seq![LiteralView { pattern: p.past_participle, replacement: q.past_participle }]
            }) + seq![LiteralView { pattern: p.present_participle, replacement: q.present_participle }]
        },
    }
}

/// Law: the first literal a lemma stands for rewrites its pattern, as
/// written, to its replacement, as written.
pub proof fn lemma_expansion_starts_with_the_rule(r: LemmaView)
    ensures
        spec_expand_lemma(r).len() >= 2,
        spec_expand_lemma(r)[0] == (LiteralView { pattern: r.pattern, replacement: r.replacement }),
{
}

/// Law: a verb lemma between two regular verbs stands for four literals
/// (base, `-s`, past, `-ing`), since their past participles are their
/// pasts; each form of the pattern goes to the same form of the
/// replacement.
pub proof fn lemma_expansion_of_regular_verbs(r: LemmaView)
    requires
        r.kind == LemmaKind::Verb,
        crate::inflect::not_listed(r.pattern),
        crate::inflect::not_listed(r.replacement),
    ensures
        ({
            let p = spec_verb_forms(r.pattern);
            let q = spec_verb_forms(r.replacement);
            spec_expand_lemma(r) == seq![
                LiteralView { pattern: r.pattern, replacement: r.replacement },
                LiteralView { pattern: p.third_person, replacement: q.third_person },
                LiteralView { pattern: p.past, replacement: q.past },
                LiteralView { pattern: p.present_participle, replacement: q.present_participle },
            ]
        }),
{
    crate::inflect::lemma_participle_is_past(r.pattern);
    crate::inflect::lemma_participle_is_past(r.replacement);
    let p = spec_verb_forms(r.pattern);
    let q = spec_verb_forms(r.replacement);
    assert(spec_expand_lemma(r) =~= seq![
        LiteralView { pattern: r.pattern, replacement: r.replacement },
        LiteralView { pattern: p.third_person, replacement: q.third_person },
        LiteralView { pattern: p.past, replacement: q.past },
        LiteralView { pattern: p.present_participle, replacement: q.present_participle },
    ]);
}

pub open spec fn literals_view(v: Seq<LiteralRule>) -> Seq<LiteralView> {
    v.map_values(|r: LiteralRule| r@)
}

pub fn expand_lemma(rule: &LemmaRule) -> (rules: Vec<LiteralRule>)
    ensures
        literals_view(rules@) == spec_expand_lemma(rule@),
{
    let mut rules: Vec<LiteralRule> = Vec::new();
    match &rule.kind {
        LemmaKind::Noun => {
            let pattern_forms = noun_forms(rule.pattern.as_str());
            let rep_forms = noun_forms(rule.replacement.as_str());
            rules.push(LiteralRule { pattern: pattern_forms.singular, replacement: rep_forms.singular });
            rules.push(LiteralRule { pattern: pattern_forms.plural, replacement: rep_forms.plural });
        },
        LemmaKind::Verb => {
            let pattern_forms = verb_forms(rule.pattern.as_str());
            let rep_forms = verb_forms(rule.replacement.as_str());
            let collides = pattern_forms.past == pattern_forms.past_participle
                && rep_forms.past == rep_forms.past_participle;
            rules.push(LiteralRule { pattern: pattern_forms.base, replacement: rep_forms.base });
            rules.push(
                LiteralRule { pattern: pattern_forms.third_person, replacement: rep_forms.third_person },
            );
            rules.push(LiteralRule { pattern: pattern_forms.past, replacement: rep_forms.past });
            if !collides {
                rules.push(
                    LiteralRule {
                        pattern: pattern_forms.past_participle,
                        replacement: rep_forms.past_participle,
                    },
                );
            }
            rules.push(
                LiteralRule {
                    pattern: pattern_forms.present_participle,
                    replacement: rep_forms.present_participle,
                },
            );
        },
    }
    assert(literals_view(rules@) =~= spec_expand_lemma(rule@));
    rules
}


// ---------------------------------------------------------------------------
// Template parsing
// ---------------------------------------------------------------------------

/// The first position at or after `from` where `s` holds `c`.
pub open spec fn spec_find_char(s: Seq<char>, c: char, from: int) -> Option<int>
    decreases s.len() - from,
{
    if from < 0 || from >= s.len() {
        None
    } else if s[from] == c {
        Some(from)
    } else {
        spec_find_char(s, c, from + 1)
    }
}

pub proof fn lemma_find_char(s: Seq<char>, c: char, from: int)
    ensures
        spec_find_char(s, c, from) matches Some(i) ==> {
            &&& 0 <= from <= i < s.len()
            &&& s[i] == c
            &&& forall|k: int| from <= k < i ==> s[k] != c
        },
        spec_find_char(s, c, from) is None ==> forall|k: int| 0 <= from <= k < s.len() ==> s[k] != c,
    decreases s.len() - from,
{
    if !(from < 0 || from >= s.len()) && s[from] != c {
        lemma_find_char(s, c, from + 1);
    }
}

/// Splits raw template text into fixed text and `{name}` holes. A hole runs
/// from a `{` to the first `}` after it; a `{` with no `}` after it is an
/// error. Text pieces are never empty.
pub open spec fn spec_segments(s: Seq<char>) -> Result<Seq<Piece>, ()>
    decreases s.len(),
{
    match spec_find_char(s, '{', 0) {
        None => if s.len() == 0 {
            Ok(Seq::empty())
        } else {
            Ok(seq![Piece::Text(s)])
        },
        Some(open) => match spec_find_char(s, '}', open) {
            None => Err(()),
            Some(close) => {
                proof {
                    lemma_find_char(s, '{', 0);
                    lemma_find_char(s, '}', open);
                }
                let head = if open > 0 {
                    seq![Piece::Text(s.subrange(0, open))]
                } else {
                    Seq::empty()
                };
                let hole = Piece::Hole(s.subrange(open + 1, close));
                match spec_segments(s.subrange(close + 1, s.len() as int)) {
                    Err(_) => Err(()),
                    Ok(rest) => Ok(head + seq![hole] + rest),
                }
            },
        },
    }
}

pub open spec fn prepend_pieces(head: Seq<Piece>, r: Result<Seq<Piece>, ()>) -> Result<Seq<Piece>, ()> {
    match r {
        Ok(t) => Ok(head + t),
        Err(_) => Err(()),
    }
}

/// No two text pieces stand next to each other.
pub open spec fn no_adjacent_text(p: Seq<Piece>) -> bool {
    forall|i: int| 0 <= i < p.len() - 1 ==> !(#[trigger] p[i] is Text && p[i + 1] is Text)
}

pub proof fn lemma_segments_no_adjacent_text(s: Seq<char>)
    ensures
        spec_segments(s) matches Ok(p) ==> no_adjacent_text(p),
    decreases s.len(),
{
    lemma_find_char(s, '{', 0);
    match spec_find_char(s, '{', 0) {
        None => {},
        Some(open) => {
            lemma_find_char(s, '}', open);
            match spec_find_char(s, '}', open) {
                None => {},
                Some(close) => {
                    let t = s.subrange(close + 1, s.len() as int);
                    lemma_segments_no_adjacent_text(t);
                    if let Ok(rest) = spec_segments(t) {
                        let head: Seq<Piece> = if open > 0 {
                            seq![Piece::Text(s.subrange(0, open))]
                        } else {
                            Seq::empty()
                        };
                        let p = head + seq![Piece::Hole(s.subrange(open + 1, close))] + rest;
                        assert forall|i: int| 0 <= i < p.len() - 1 implies !(#[trigger] p[i] is Text
                            && p[i + 1] is Text) by {
                            if i >= head.len() + 1 {
                                assert(p[i] == rest[i - head.len() - 1]);
                                assert(p[i + 1] == rest[i + 1 - head.len() - 1]);
                            } else if i == head.len() {
                                assert(p[i] is Hole);
                            } else {
                                assert(p[i + 1] is Hole);
                            }
                        }
                    }
                },
            }
        },
    }
}

/// The names of the pattern's holes, in order: those of the pairs, then the tail.
pub open spec fn spec_pattern_names(pairs: Seq<(Seq<char>, Seq<char>)>, tail: Option<Seq<char>>) -> Seq<Seq<char>> {
    pairs.map_values(|p: (Seq<char>, Seq<char>)| p.0) + match tail {
        Some(n) => seq![n],
        None => Seq::empty(),
    }
}

/// The first hole of `parts` whose name is not in `names`.
pub open spec fn spec_first_unknown(parts: Seq<Piece>, names: Seq<Seq<char>>) -> Option<Seq<char>>
    decreases parts.len(),
{
    if parts.len() == 0 {
        None
    } else {
        match parts[0] {
            Piece::Hole(n) => if names.contains(n) {
                spec_first_unknown(parts.drop_first(), names)
            } else {
                Some(n)
            },
            Piece::Text(_) => spec_first_unknown(parts.drop_first(), names),
        }
    }
}

/// Two holes stand next to each other.
pub open spec fn spec_adjacent_holes(p: Seq<Piece>) -> bool {
    exists|i: int| 0 <= i < p.len() - 1 && #[trigger] p[i] is Hole && p[i + 1] is Hole
}

/// The template whose pattern pieces after the lead are `rest`
/// (hole, text, hole, text, ..., possibly ending in a hole).
pub open spec fn spec_template_shape(lead: Seq<char>, rest: Seq<Piece>, replacement: Seq<Piece>) -> TemplateView {
    TemplateView {
        lead,
        pairs: Seq::new(rest.len() / 2, |k: int| (rest[2 * k].content(), rest[2 * k + 1].content())),
        tail: if rest.len() % 2 == 1 {
            Some(rest[rest.len() - 1].content())
        } else {
            None
        },
        replacement,
    }
}

/// The result of parsing a template pattern and its replacement, error
/// by error in the order they are checked.
pub open spec fn spec_parse_template(pattern: Seq<char>, replacement: Seq<char>) -> Result<TemplateView, TemplateErrorView> {
    match spec_segments(pattern) {
        Err(_) => Err(TemplateErrorView::UnclosedBrace),
        Ok(segs) => if segs.len() == 0 {
            Err(TemplateErrorView::EmptyTemplate)
        } else if segs[0] is Hole {
            Err(TemplateErrorView::EmptyLead)
        } else {
            let rest = segs.skip(1);
            if spec_adjacent_holes(rest) {
                Err(TemplateErrorView::AdjacentHoles)
            } else if (rest.len() + 1) / 2 > MAX_HOLES {
                Err(TemplateErrorView::TooManyHoles)
            } else if rest.len() == 0 {
                Err(TemplateErrorView::NoHoles)
            } else {
                match spec_segments(replacement) {
                    Err(_) => Err(TemplateErrorView::UnclosedBrace),
                    Ok(parts) => {
                        let t = spec_template_shape(segs[0].content(), rest, parts);
                        match spec_first_unknown(parts, spec_pattern_names(t.pairs, t.tail)) {
                            Some(n) => Err(TemplateErrorView::UnknownHoleInReplacement(n)),
                            None => Ok(t),
                        }
                    },
                }
            }
        },
    }
}

/// A template is well formed when every hole of its replacement names a
/// hole of its pattern.
pub open spec fn template_well_formed(t: TemplateView) -> bool {
    forall|i: int|
        0 <= i < t.replacement.len() && #[trigger] t.replacement[i] is Hole
            ==> spec_pattern_names(t.pairs, t.tail).contains(t.replacement[i].content())
}

fn find_char(s: &Vec<char>, c: char, from: usize) -> (r: Option<usize>)
    ensures
        match r {
            Some(i) => spec_find_char(s@, c, from as int) == Some(i as int),
            None => spec_find_char(s@, c, from as int) is None,
        },
{
    let mut i = from;
    while i < s.len()
        invariant
            from <= i,
            spec_find_char(s@, c, from as int) == spec_find_char(s@, c, i as int),
        decreases s@.len() - i,
    {
        if s[i] == c {
            return Some(i);
        }
        i = i + 1;
    }
    None
}

spec fn segments_view(v: Seq<Segment>) -> Seq<Piece> {
    v.map_values(|s: Segment| s@)
}

fn find_segments(raw: &Vec<char>) -> (r: Result<Vec<Segment>, TemplateValidationError>)
    ensures
        match r {
            Ok(segs) => spec_segments(raw@) == Ok::<Seq<Piece>, ()>(segments_view(segs@)),
            Err(e) => spec_segments(raw@) is Err && e@ == TemplateErrorView::UnclosedBrace,
        },
{
    let mut segments: Vec<Segment> = Vec::new();
    let mut rest = raw.clone();
    assert(rest@ =~= raw@);
    loop
        invariant
            spec_segments(raw@) == prepend_pieces(segments_view(segments@), spec_segments(rest@)),
        decreases rest@.len(),
    {
        let ghost before = rest@;
        let ghost done = segments_view(segments@);
        match find_char(&rest, '{', 0) {
            None => {
                if rest.len() > 0 {
                    segments.push(Segment::Text(string_of(rest)));
                    assert(segments_view(segments@) =~= done + seq![Piece::Text(before)]);
                } else {
                    assert(segments_view(segments@) =~= done + Seq::<Piece>::empty());
                }
                return Ok(segments);
            },
            Some(open) => {
                proof {
                    lemma_find_char(rest@, '{', 0);
                }
                match find_char(&rest, '}', open) {
                    None => {
                        return Err(TemplateValidationError::UnclosedBrace);
                    },
                    Some(close) => {
                        proof {
                            lemma_find_char(rest@, '}', open as int);
                        }
                        assert(open < close && close < rest.len());
                        let ghost head: Seq<Piece> = if open > 0 {
                            seq![Piece::Text(before.subrange(0, open as int))]
                        } else {
                            Seq::empty()
                        };
                        if open > 0 {
                            segments.push(Segment::Text(string_of(slice_chars(&rest, 0, open))));
                        }
                        assert(segments_view(segments@) =~= done + head);
                        let name = slice_chars(&rest, open + 1, close);
                        let ghost hole = Piece::Hole(name@);
                        segments.push(Segment::Hole(Hole { name: string_of(name) }));
                        assert(segments_view(segments@) =~= done + head + seq![hole]);
                        rest = slice_chars(&rest, close + 1, rest.len());
                        proof {
                            if let Ok(t) = spec_segments(rest@) {
                                assert(done + (head + seq![hole] + t) =~= done + head + seq![hole] + t);
                            }
                        }
                    },
                }
            },
        }
    }
}

fn copy_hole(h: &Hole) -> (r: Hole)
    ensures
        r.name@ == h.name@,
{
    Hole { name: copy_string(&h.name) }
}

/// The text of a text segment, or the name of a hole.
fn segment_content(seg: &Segment) -> (r: String)
    ensures
        r@ == seg@.content(),
{
    match seg {
        Segment::Text(t) => copy_string(t),
        Segment::Hole(h) => copy_string(&h.name),
    }
}

fn to_part(seg: &Segment) -> (r: ReplacementPart)
    ensures
        r@ == seg@,
{
    match seg {
        Segment::Text(t) => ReplacementPart::Text(copy_string(t)),
        Segment::Hole(h) => ReplacementPart::Hole(copy_hole(h)),
    }
}

/// Whether `name` is the name of one of the pattern's holes.
fn names_contain(pairs: &Vec<(Hole, String)>, tail: &Option<Hole>, name: &String) -> (r: bool)
    ensures
        r == spec_pattern_names(pairs_view(pairs@), tail_view(*tail)).contains(name@),
{
    let ghost names = spec_pattern_names(pairs_view(pairs@), tail_view(*tail));
    let mut i: usize = 0;
    while i < pairs.len()
        invariant
            0 <= i <= pairs@.len(),
            names == spec_pattern_names(pairs_view(pairs@), tail_view(*tail)),
            forall|k: int| 0 <= k < i ==> pairs@[k].0.name@ != name@,
        decreases pairs@.len() - i,
    {
        if pairs[i].0.name == *name {
            assert(names[i as int] == name@);
            return true;
        }
        i = i + 1;
    }
    let found = match tail {
        Some(h) => h.name == *name,
        None => false,
    };
    if found {
        assert(names[pairs@.len() as int] == name@);
    } else {
        assert forall|j: int| 0 <= j < names.len() implies names[j] != name@ by {
            if j < pairs@.len() {
                assert(names[j] == pairs@[j].0.name@);
            }
        }
    }
    found
}

fn check_all_replacement_parts_valid(
    pairs: &Vec<(Hole, String)>,
    tail: &Option<Hole>,
    replacements: &Vec<ReplacementPart>,
) -> (r: Result<(), TemplateValidationError>)
    ensures
        match r {
            Ok(_) => spec_first_unknown(parts_view(replacements@), spec_pattern_names(pairs_view(pairs@), tail_view(*tail))) is None,
            Err(e) => spec_first_unknown(parts_view(replacements@), spec_pattern_names(pairs_view(pairs@), tail_view(*tail)))
                matches Some(n) && e@ == TemplateErrorView::UnknownHoleInReplacement(n),
        },
{
    let ghost names = spec_pattern_names(pairs_view(pairs@), tail_view(*tail));
    let ghost parts = parts_view(replacements@);
    assert(parts.skip(0) =~= parts);
    let mut i: usize = 0;
    while i < replacements.len()
        invariant
            0 <= i <= replacements@.len(),
            parts == parts_view(replacements@),
            names == spec_pattern_names(pairs_view(pairs@), tail_view(*tail)),
            spec_first_unknown(parts, names) == spec_first_unknown(parts.skip(i as int), names),
        decreases replacements@.len() - i,
    {
        assert(parts.skip(i as int)[0] == parts[i as int]);
        assert(parts.skip(i as int).drop_first() =~= parts.skip(i + 1));
        if let ReplacementPart::Hole(hole) = &replacements[i] {
            if !names_contain(pairs, tail, &hole.name) {
                return Err(TemplateValidationError::UnknownHoleInReplacement(copy_string(&hole.name)));
            }
        }
        i = i + 1;
    }
    Ok(())
}

/// Pieces that alternate hole, text, hole, text, ... after a leading text
/// piece have no two holes in a row.
proof fn lemma_alternating(sv: Seq<Piece>, p: int)
    requires
        0 <= p,
        sv.len() == 2 * p + 1 || (sv.len() == 2 * p + 2 && sv[sv.len() - 1] is Hole),
        forall|k: int| 0 <= k < p ==> #[trigger] sv[2 * k + 1] is Hole && sv[2 * k + 2] is Text,
    ensures
        !spec_adjacent_holes(sv.skip(1)),
{
    let rest = sv.skip(1);
    assert forall|j: int| 0 <= j < rest.len() - 1 implies !(#[trigger] rest[j] is Hole && rest[j + 1] is Hole) by {
        let k = j / 2;
        assert(rest[j] == sv[j + 1]);
        assert(rest[j + 1] == sv[j + 2]);
        if j % 2 == 0 {
            assert(j == 2 * k);
            assert(sv[2 * k + 1] is Hole);
        } else {
            assert(j == 2 * k + 1);
            assert(sv[2 * (k + 1) + 1] is Hole);
        }
    }
}

/// Splits the pattern pieces after the lead into (hole, text) pairs and a
/// possible final hole, refusing two holes in a row.
fn pattern_holes(segs: &Vec<Segment>) -> (r: Result<(Vec<(Hole, String)>, Option<Hole>), TemplateValidationError>)
    requires
        segs@.len() >= 1,
        segments_view(segs@)[0] is Text,
        no_adjacent_text(segments_view(segs@)),
    ensures
        ({
            let rest = segments_view(segs@).skip(1);
            match r {
                Ok((pairs, tail)) => {
                    &&& !spec_adjacent_holes(rest)
                    &&& pairs_view(pairs@) == spec_template_shape(Seq::empty(), rest, Seq::empty()).pairs
                    &&& tail_view(tail) == spec_template_shape(Seq::empty(), rest, Seq::empty()).tail
                    &&& 2 * pairs@.len() + (if tail is Some { 1int } else { 0int }) == rest.len()
                },
                Err(e) => spec_adjacent_holes(rest) && e@ == TemplateErrorView::AdjacentHoles,
            }
        }),
{
    let ghost sv = segments_view(segs@);
    let ghost rest = sv.skip(1);
    let n = segs.len();
    let mut tail: Option<Hole> = None;
    let mut pairs: Vec<(Hole, String)> = Vec::new();
    let mut i: usize = 1;
    while i < n
        invariant
            n == segs@.len(),
            sv == segments_view(segs@),
            rest == sv.skip(1),
            no_adjacent_text(sv),
            sv[0] is Text,
            1 <= i <= n,
            tail is None ==> i == 1 + 2 * pairs@.len(),
            tail is Some ==> i == n && n == 2 + 2 * pairs@.len() && sv[n - 1] is Hole
                && tail_view(tail) == Some(sv[n - 1].content()),
            forall|k: int|
                0 <= k < pairs@.len() ==> #[trigger] sv[2 * k + 1] is Hole && sv[2 * k + 2] is Text
                    && pairs@[k].0.name@ == sv[2 * k + 1].content()
                    && pairs@[k].1@ == sv[2 * k + 2].content(),
        decreases n - i,
    {
        assert(sv[i as int] is Hole) by {
            if i > 1 {
                let k = pairs@.len() - 1;
                assert(sv[2 * k + 1] is Hole);
            }
            assert(sv[i - 1] is Text);
        }
        let hole = Hole { name: segment_content(&segs[i]) };
        if i + 1 < n {
            match &segs[i + 1] {
                Segment::Hole(_) => {
                    assert(rest[i - 1] == sv[i as int]);
                    assert(rest[i as int] == sv[i + 1]);
                    assert(rest[i - 1] is Hole && rest[i as int] is Hole);
                    return Err(TemplateValidationError::AdjacentHoles);
                },
                Segment::Text(text) => {
                    let ghost k = pairs@.len() as int;
                    pairs.push((hole, copy_string(text)));
                    assert(sv[2 * k + 1] is Hole && sv[2 * k + 2] is Text);
                    i = i + 2;
                },
            }
        } else {
            tail = Some(hole);
            i = i + 1;
        }
    }
    let ghost p = pairs@.len() as int;
    proof {
        lemma_alternating(sv, p);
    }
    let ghost shape = spec_template_shape(Seq::empty(), rest, Seq::empty());
    assert(pairs_view(pairs@) =~= shape.pairs) by {
        assert forall|k: int| 0 <= k < p implies pairs_view(pairs@)[k] == shape.pairs[k] by {
            assert(rest[2 * k] == sv[2 * k + 1]);
            assert(rest[2 * k + 1] == sv[2 * k + 2]);
            assert(sv[2 * k + 1] is Hole);
        }
    }
    proof {
        if tail is Some {
            assert(rest[rest.len() - 1] == sv[n - 1]);
        }
    }
    Ok((pairs, tail))
}

/// Parses a template pattern such as `the {A} in question` and its
/// replacement such as `the {A}`.
pub fn parse_template(pattern: &str, replacement: &str) -> (r: Result<TemplateRule, TemplateValidationError>)
    ensures
        match r {
            Ok(t) => spec_parse_template(pattern@, replacement@) == Ok::<TemplateView, TemplateErrorView>(t@),
            Err(e) => spec_parse_template(pattern@, replacement@) == Err::<TemplateView, TemplateErrorView>(e@),
        },
{
    let pattern_chars = crate::text::chars_of(pattern);
    let segs = find_segments(&pattern_chars)?;
    proof {
        lemma_segments_no_adjacent_text(pattern@);
    }
    if segs.len() == 0 {
        return Err(TemplateValidationError::EmptyTemplate);
    }
    let lead = match &segs[0] {
        Segment::Hole(_) => {
            return Err(TemplateValidationError::EmptyLead);
        },
        Segment::Text(text) => copy_string(text),
    };
    let (pairs, tail) = pattern_holes(&segs)?;
    let num_holes: usize = pairs.len() + if tail.is_some() { 1 } else { 0 };
    if num_holes > MAX_HOLES {
        return Err(TemplateValidationError::TooManyHoles);
    }
    if num_holes == 0 {
        return Err(TemplateValidationError::NoHoles);
    }
    let replacement_chars = crate::text::chars_of(replacement);
    let rsegs = find_segments(&replacement_chars)?;
    let mut parts: Vec<ReplacementPart> = Vec::new();
    let mut j: usize = 0;
    while j < rsegs.len()
        invariant
            0 <= j <= rsegs@.len(),
            parts_view(parts@) == segments_view(rsegs@).take(j as int),
        decreases rsegs@.len() - j,
    {
        let part = to_part(&rsegs[j]);
        let ghost before = parts_view(parts@);
        parts.push(part);
        assert(parts_view(parts@) =~= before.push(rsegs@[j as int]@));
        j = j + 1;
        assert(segments_view(rsegs@).take(j as int) =~= segments_view(rsegs@).take(j - 1).push(
            rsegs@[j - 1]@,
        ));
    }
    assert(parts_view(parts@) =~= segments_view(rsegs@));
    check_all_replacement_parts_valid(&pairs, &tail, &parts)?;
    let t = TemplateRule { lead, pairs, tail, replacement: parts };
    Ok(t)
}

proof fn lemma_first_unknown_none(parts: Seq<Piece>, names: Seq<Seq<char>>)
    requires
        spec_first_unknown(parts, names) is None,
    ensures
        forall|i: int| 0 <= i < parts.len() && #[trigger] parts[i] is Hole ==> names.contains(parts[i].content()),
    decreases parts.len(),
{
    if parts.len() > 0 {
        lemma_first_unknown_none(parts.drop_first(), names);
        assert forall|i: int| 0 <= i < parts.len() && #[trigger] parts[i] is Hole implies names.contains(parts[i].content()) by {
            if i > 0 {
                assert(parts[i] == parts.drop_first()[i - 1]);
            }
        }
    }
}

/// Law: a template that parses is well formed; every hole of its
/// replacement names a hole of its pattern, so rewriting never looks up a
/// hole that captured nothing.
pub proof fn lemma_parsed_template_well_formed(pattern: Seq<char>, replacement: Seq<char>)
    ensures
        spec_parse_template(pattern, replacement) matches Ok(t) ==> template_well_formed(t),
{
    if let Ok(t) = spec_parse_template(pattern, replacement) {
        lemma_first_unknown_none(t.replacement, spec_pattern_names(t.pairs, t.tail));
    }
}

/// Law: a template that parses has a non-empty lead, between one and
/// `MAX_HOLES` holes, and no two holes in a row.
pub proof fn lemma_parsed_template_shape(pattern: Seq<char>, replacement: Seq<char>)
    ensures
        spec_parse_template(pattern, replacement) matches Ok(t) ==> {
            &&& t.lead.len() > 0
            &&& 1 <= t.pairs.len() + (if t.tail is Some { 1int } else { 0int }) <= MAX_HOLES
        },
{
    if let Ok(t) = spec_parse_template(pattern, replacement) {
        lemma_segments_text_nonempty(pattern);
    }
}

/// Text pieces found by splitting a template are never empty.
pub proof fn lemma_segments_text_nonempty(s: Seq<char>)
    ensures
        spec_segments(s) matches Ok(p) ==> forall|i: int| 0 <= i < p.len() && #[trigger] p[i] is Text ==> p[i].content().len() > 0,
    decreases s.len(),
{
    lemma_find_char(s, '{', 0);
    match spec_find_char(s, '{', 0) {
        None => {},
        Some(open) => {
            lemma_find_char(s, '}', open);
            match spec_find_char(s, '}', open) {
                None => {},
                Some(close) => {
                    let t = s.subrange(close + 1, s.len() as int);
                    lemma_segments_text_nonempty(t);
                    if let Ok(rest) = spec_segments(t) {
                        let head: Seq<Piece> = if open > 0 {
                            seq![Piece::Text(s.subrange(0, open))]
                        } else {
                            Seq::empty()
                        };
                        let p = head + seq![Piece::Hole(s.subrange(open + 1, close))] + rest;
                        assert forall|i: int| 0 <= i < p.len() && #[trigger] p[i] is Text implies p[i].content().len() > 0 by {
                            if i >= head.len() + 1 {
                                assert(p[i] == rest[i - head.len() - 1]);
                            }
                        }
                    }
                },
            }
        },
    }
}

/// How many holes the pieces hold.
pub open spec fn hole_count(p: Seq<Piece>) -> nat
    decreases p.len(),
{
    if p.len() == 0 {
        0
    } else {
        hole_count(p.drop_last()) + if p.last() is Hole { 1nat } else { 0nat }
    }
}

proof fn lemma_hole_count_concat(a: Seq<Piece>, b: Seq<Piece>)
    ensures
        hole_count(a + b) == hole_count(a) + hole_count(b),
    decreases b.len(),
{
    if b.len() == 0 {
        assert(a + b =~= a);
    } else {
        lemma_hole_count_concat(a, b.drop_last());
        assert((a + b).drop_last() =~= a + b.drop_last());
        assert((a + b).last() == b.last());
    }
}

/// Pieces with no two texts and no two holes in a row, starting with a
/// hole, hold a hole at every even position and text at every odd one.
proof fn lemma_alternates(rest: Seq<Piece>)
    requires
        rest.len() > 0 ==> rest[0] is Hole,
        no_adjacent_text(rest),
        !spec_adjacent_holes(rest),
    ensures
        forall|k: int| 0 <= k < rest.len() ==> (#[trigger] rest[k] is Hole <==> k % 2 == 0),
        hole_count(rest) == (rest.len() + 1) / 2,
{
    assert forall|k: int| 0 <= k < rest.len() implies (#[trigger] rest[k] is Hole <==> k % 2 == 0) by {
        lemma_alternates_at(rest, k);
    }
    lemma_hole_count_alternating(rest, rest.len() as int);
    assert(rest.take(rest.len() as int) =~= rest);
}

proof fn lemma_alternates_at(rest: Seq<Piece>, k: int)
    requires
        rest.len() > 0 ==> rest[0] is Hole,
        no_adjacent_text(rest),
        !spec_adjacent_holes(rest),
        0 <= k < rest.len(),
    ensures
        rest[k] is Hole <==> k % 2 == 0,
    decreases k,
{
    if k > 0 {
        lemma_alternates_at(rest, k - 1);
        if rest[k - 1] is Hole {
            assert(!(rest[k - 1] is Hole && rest[k] is Hole));
        } else {
            assert(!(rest[k - 1] is Text && rest[k] is Text));
        }
    }
}

proof fn lemma_hole_count_alternating(rest: Seq<Piece>, m: int)
    requires
        0 <= m <= rest.len(),
        forall|k: int| 0 <= k < rest.len() ==> (#[trigger] rest[k] is Hole <==> k % 2 == 0),
    ensures
        hole_count(rest.take(m)) == (m + 1) / 2,
    decreases m,
{
    if m > 0 {
        lemma_hole_count_alternating(rest, m - 1);
        assert(rest.take(m).drop_last() =~= rest.take(m - 1));
        assert(rest.take(m).last() == rest[m - 1]);
    }
}

proof fn lemma_first_unknown_none_when_named(parts: Seq<Piece>, names: Seq<Seq<char>>)
    requires
        forall|i: int| 0 <= i < parts.len() && #[trigger] parts[i] is Hole ==> names.contains(parts[i].content()),
    ensures
        spec_first_unknown(parts, names) is None,
    decreases parts.len(),
{
    if parts.len() > 0 {
        assert forall|i: int| 0 <= i < parts.drop_first().len() && #[trigger] parts.drop_first()[i] is Hole implies names.contains(
            parts.drop_first()[i].content(),
        ) by {
            assert(parts.drop_first()[i] == parts[i + 1]);
        }
        lemma_first_unknown_none_when_named(parts.drop_first(), names);
        assert(parts[0] is Hole ==> names.contains(parts[0].content()));
    }
}

/// No two holes stand next to each other among `segs`.
pub open spec fn no_adjacent_holes(segs: Seq<Piece>) -> bool {
    forall|i: int| 0 <= i < segs.len() - 1 ==> !(#[trigger] segs[i] is Hole && segs[i + 1] is Hole)
}

/// Every hole of `parts` has the name of some hole of `segs`.
pub open spec fn names_only_holes_of(parts: Seq<Piece>, segs: Seq<Piece>) -> bool {
    forall|i: int|
        0 <= i < parts.len() && #[trigger] parts[i] is Hole ==> exists|j: int|
            0 <= j < segs.len() && #[trigger] segs[j] is Hole && segs[j].content() == parts[i].content()
}

#[verifier::rlimit(40)]
proof fn lemma_rest_facts(segs: Seq<Piece>)
    requires
        segs.len() >= 1,
        segs[0] is Text,
        no_adjacent_text(segs),
    ensures
        hole_count(segs) == hole_count(segs.skip(1)),
        no_adjacent_text(segs.skip(1)),
        segs.skip(1).len() > 0 ==> segs.skip(1)[0] is Hole,
        no_adjacent_holes(segs) ==> !spec_adjacent_holes(segs.skip(1)),
        !spec_adjacent_holes(segs.skip(1)) ==> no_adjacent_holes(segs),
{
    let rest = segs.skip(1);
    assert(segs =~= seq![segs[0]] + rest);
    lemma_hole_count_concat(seq![segs[0]], rest);
    assert(seq![segs[0]].drop_last() =~= Seq::<Piece>::empty());
    assert(hole_count(Seq::<Piece>::empty()) == 0);
    assert(seq![segs[0]].last() is Text);
    assert(hole_count(seq![segs[0]]) == 0);
    assert forall|i: int| 0 <= i < rest.len() - 1 implies !(#[trigger] rest[i] is Text && rest[i + 1] is Text) by {
        assert(rest[i] == segs[i + 1]);
        assert(rest[i + 1] == segs[i + 2]);
    }
    if rest.len() > 0 {
        assert(rest[0] == segs[1]);
        assert(!(segs[0] is Text && segs[1] is Text));
    }
    if no_adjacent_holes(segs) && spec_adjacent_holes(rest) {
        let i = choose|i: int| 0 <= i < rest.len() - 1 && #[trigger] rest[i] is Hole && rest[i + 1] is Hole;
        assert(rest[i] == segs[i + 1]);
        assert(rest[i + 1] == segs[i + 2]);
    }
    if !spec_adjacent_holes(rest) {
        assert forall|i: int| 0 <= i < segs.len() - 1 implies !(#[trigger] segs[i] is Hole && segs[i + 1] is Hole) by {
            if i > 0 {
                assert(rest[i - 1] == segs[i]);
                assert(rest[i] == segs[i + 1]);
                assert(!(rest[i - 1] is Hole && rest[i] is Hole));
            }
        }
    }
}

proof fn lemma_shape_names(lead: Seq<char>, segs: Seq<Piece>, parts: Seq<Piece>)
    requires
        segs.len() >= 1,
        segs[0] is Text,
        forall|k: int| 0 <= k < segs.skip(1).len() ==> (#[trigger] segs.skip(1)[k] is Hole <==> k % 2 == 0),
        names_only_holes_of(parts, segs),
    ensures
        ({
            let t = spec_template_shape(lead, segs.skip(1), parts);
            forall|i: int|
                0 <= i < parts.len() && #[trigger] parts[i] is Hole ==> spec_pattern_names(t.pairs, t.tail).contains(
                    parts[i].content(),
                )
        }),
{
    let rest = segs.skip(1);
    let t = spec_template_shape(lead, rest, parts);
    let names = spec_pattern_names(t.pairs, t.tail);
    let np = t.pairs.len();
    assert forall|j: int| 0 <= j < rest.len() && #[trigger] rest[j] is Hole implies names.contains(rest[j].content()) by {
        assert(j % 2 == 0);
        if j < 2 * np {
            let k = j / 2;
            assert(names[k] == t.pairs[k].0);
        } else {
            assert(j == rest.len() - 1);
            assert(names[np as int] == rest[rest.len() - 1].content());
        }
    }
    assert forall|i: int| 0 <= i < parts.len() && #[trigger] parts[i] is Hole implies names.contains(parts[i].content()) by {
        let j = choose|j: int| 0 <= j < segs.len() && #[trigger] segs[j] is Hole && segs[j].content() == parts[i].content();
        assert(j >= 1);
        assert(rest[j - 1] == segs[j]);
        assert(rest[j - 1] is Hole);
    }
}

/// Law (completeness of parsing): a pattern that splits into a non-empty
/// text lead followed by between one and `MAX_HOLES` holes, no two holes in
/// a row, with a replacement that splits cleanly and names only holes of
/// the pattern, parses; and `TooManyHoles` is the answer only for patterns
/// with more than `MAX_HOLES` holes.
pub proof fn lemma_parse_template_complete(pattern: Seq<char>, replacement: Seq<char>)
    ensures
        ({
            &&& spec_segments(pattern) matches Ok(segs)
            &&& segs.len() >= 1 && segs[0] is Text && segs[0].content().len() > 0
            &&& no_adjacent_holes(segs)
            &&& 1 <= hole_count(segs) <= MAX_HOLES
            &&& spec_segments(replacement) matches Ok(parts)
            &&& names_only_holes_of(parts, segs)
        }) ==> spec_parse_template(pattern, replacement) is Ok,
        spec_parse_template(pattern, replacement) == Err::<TemplateView, TemplateErrorView>(TemplateErrorView::TooManyHoles)
            ==> (spec_segments(pattern) matches Ok(segs) && hole_count(segs) > MAX_HOLES),
{
    lemma_segments_no_adjacent_text(pattern);
    if let Ok(segs) = spec_segments(pattern) {
        if segs.len() >= 1 && segs[0] is Text {
            let rest = segs.skip(1);
            lemma_rest_facts(segs);
            if !spec_adjacent_holes(rest) {
                lemma_alternates(rest);
                if let Ok(parts) = spec_segments(replacement) {
                    if names_only_holes_of(parts, segs) {
                        let t = spec_template_shape(segs[0].content(), rest, parts);
                        lemma_shape_names(segs[0].content(), segs, parts);
                        lemma_first_unknown_none_when_named(parts, spec_pattern_names(t.pairs, t.tail));
                    }
                }
            }
        }
    }
}

/// The text that pieces are written as: fixed text as it stands, each hole
/// as its name between `{` and `}`.
pub open spec fn rendered(p: Seq<Piece>) -> Seq<char>
    decreases p.len(),
{
    if p.len() == 0 {
        Seq::empty()
    } else {
        rendered(p.drop_last()) + match p.last() {
            Piece::Text(t) => t,
            Piece::Hole(n) => seq!['{'] + n + seq!['}'],
        }
    }
}

/// Some `{` in `s` has no `}` anywhere after it.
pub open spec fn has_unclosed_brace(s: Seq<char>) -> bool {
    exists|i: int| 0 <= i < s.len() && s[i] == '{' && forall|k: int| i < k < s.len() ==> #[trigger] s[k] != '}'
}

proof fn lemma_rendered_concat(a: Seq<Piece>, b: Seq<Piece>)
    ensures
        rendered(a + b) == rendered(a) + rendered(b),
    decreases b.len(),
{
    if b.len() == 0 {
        assert(a + b =~= a);
        assert(rendered(a) + rendered(b) =~= rendered(a));
    } else {
        lemma_rendered_concat(a, b.drop_last());
        assert((a + b).drop_last() =~= a + b.drop_last());
        assert((a + b).last() == b.last());
    }
}

proof fn lemma_rendered_one(p: Piece)
    ensures
        rendered(seq![p]) == match p {
            Piece::Text(t) => t,
            Piece::Hole(n) => seq!['{'] + n + seq!['}'],
        },
{
    assert(seq![p].drop_last() =~= Seq::<Piece>::empty());
    assert(rendered(Seq::<Piece>::empty()) == Seq::<char>::empty());
    assert(seq![p].last() == p);
    match p {
        Piece::Text(t) => assert(Seq::<char>::empty() + t =~= t),
        Piece::Hole(n) => assert(Seq::<char>::empty() + (seq!['{'] + n + seq!['}']) =~= seq!['{'] + n + seq!['}']),
    }
}

/// Law: splitting a template loses nothing and splits at the braces:
/// writing the pieces back, each hole between braces, gives the text back;
/// no fixed text holds a `{` and no hole's name a `}`. Splitting fails
/// exactly when some `{` has no `}` after it.
pub proof fn lemma_segments_round_trip(s: Seq<char>)
    ensures
        spec_segments(s) matches Ok(p) ==> {
            &&& rendered(p) == s
            &&& forall|i: int| 0 <= i < p.len() && #[trigger] p[i] is Text ==> !p[i].content().contains('{')
            &&& forall|i: int| 0 <= i < p.len() && #[trigger] p[i] is Hole ==> !p[i].content().contains('}')
        },
        spec_segments(s) is Err <==> has_unclosed_brace(s),
    decreases s.len(),
{
    lemma_find_char(s, '{', 0);
    match spec_find_char(s, '{', 0) {
        None => {
            if s.len() > 0 {
                lemma_rendered_one(Piece::Text(s));
                assert forall|i: int| 0 <= i < seq![Piece::Text(s)].len() && #[trigger] seq![Piece::Text(s)][i] is Text implies !seq![
                    Piece::Text(s),
                ][i].content().contains('{') by {
                    assert(seq![Piece::Text(s)][i] == Piece::Text(s));
                }
            } else {
                assert(rendered(Seq::<Piece>::empty()) =~= s);
            }
            if has_unclosed_brace(s) {
                let i = choose|i: int| 0 <= i < s.len() && s[i] == '{' && forall|k: int| i < k < s.len() ==> #[trigger] s[k] != '}';
                assert(s[i] != '{');
            }
        },
        Some(open) => {
            lemma_find_char(s, '}', open);
            match spec_find_char(s, '}', open) {
                None => {
                    assert(s[open] == '{');
                    assert(forall|k: int| open < k < s.len() ==> #[trigger] s[k] != '}');
                },
                Some(close) => {
                    let t = s.subrange(close + 1, s.len() as int);
                    lemma_segments_round_trip(t);
                    lemma_unclosed_after_hole(s, open, close);
                    if let Ok(rest) = spec_segments(t) {
                        lemma_segments_hole_step(s, open, close, rest);
                    }
                },
            }
        },
    }
}

proof fn lemma_unclosed_after_hole(s: Seq<char>, open: int, close: int)
    requires
        0 <= open < close < s.len(),
        s[open] == '{',
        s[close] == '}',
        forall|k: int| 0 <= k < open ==> s[k] != '{',
    ensures
        has_unclosed_brace(s) <==> has_unclosed_brace(s.subrange(close + 1, s.len() as int)),
{
    let t = s.subrange(close + 1, s.len() as int);
    if has_unclosed_brace(s) {
        let i = choose|i: int| 0 <= i < s.len() && s[i] == '{' && forall|k: int| i < k < s.len() ==> #[trigger] s[k] != '}';
        if i <= close {
            if i < close {
                assert(s[close] != '}');
            }
        }
        let j = i - close - 1;
        assert(t[j] == s[i]);
        assert forall|k: int| j < k < t.len() implies #[trigger] t[k] != '}' by {
            assert(t[k] == s[k + close + 1]);
        }
    }
    if has_unclosed_brace(t) {
        let j = choose|j: int| 0 <= j < t.len() && t[j] == '{' && forall|k: int| j < k < t.len() ==> #[trigger] t[k] != '}';
        let i = j + close + 1;
        assert(s[i] == t[j]);
        assert forall|k: int| i < k < s.len() implies #[trigger] s[k] != '}' by {
            assert(s[k] == t[k - close - 1]);
        }
    }
}

proof fn lemma_segments_hole_step(s: Seq<char>, open: int, close: int, rest: Seq<Piece>)
    requires
        0 <= open < close < s.len(),
        spec_find_char(s, '{', 0) == Some(open),
        spec_find_char(s, '}', open) == Some(close),
        forall|k: int| 0 <= k < open ==> s[k] != '{',
        forall|k: int| open <= k < close ==> s[k] != '}',
        s[open] == '{',
        s[close] == '}',
        spec_segments(s.subrange(close + 1, s.len() as int)) == Ok::<Seq<Piece>, ()>(rest),
        rendered(rest) == s.subrange(close + 1, s.len() as int),
        forall|i: int| 0 <= i < rest.len() && #[trigger] rest[i] is Text ==> !rest[i].content().contains('{'),
        forall|i: int| 0 <= i < rest.len() && #[trigger] rest[i] is Hole ==> !rest[i].content().contains('}'),
    ensures
        spec_segments(s) matches Ok(p) && {
            &&& rendered(p) == s
            &&& forall|i: int| 0 <= i < p.len() && #[trigger] p[i] is Text ==> !p[i].content().contains('{')
            &&& forall|i: int| 0 <= i < p.len() && #[trigger] p[i] is Hole ==> !p[i].content().contains('}')
        },
{
    let head: Seq<Piece> = if open > 0 {
        seq![Piece::Text(s.subrange(0, open))]
    } else {
        Seq::empty()
    };
    let name = s.subrange(open + 1, close);
    let hole = Piece::Hole(name);
    let p = head + seq![hole] + rest;
    assert(spec_segments(s) == Ok::<Seq<Piece>, ()>(p));
    lemma_rendered_concat(head + seq![hole], rest);
    lemma_rendered_concat(head, seq![hole]);
    lemma_rendered_one(hole);
    if open > 0 {
        lemma_rendered_one(Piece::Text(s.subrange(0, open)));
    } else {
        assert(rendered(head) =~= Seq::<char>::empty());
    }
    assert(s =~= s.subrange(0, open) + (seq!['{'] + name + seq!['}']) + s.subrange(close + 1, s.len() as int));
    assert forall|i: int| 0 <= i < p.len() && #[trigger] p[i] is Text implies !p[i].content().contains('{') by {
        if i >= head.len() + 1 {
            assert(p[i] == rest[i - head.len() - 1]);
        } else if i < head.len() {
            assert(p[i] == Piece::Text(s.subrange(0, open)));
            if s.subrange(0, open).contains('{') {
                let k = choose|k: int| 0 <= k < open && s.subrange(0, open)[k] == '{';
                assert(s[k] == '{');
            }
        }
    }
    assert forall|i: int| 0 <= i < p.len() && #[trigger] p[i] is Hole implies !p[i].content().contains('}') by {
        if i >= head.len() + 1 {
            assert(p[i] == rest[i - head.len() - 1]);
        } else if i == head.len() {
            assert(p[i] == hole);
            if name.contains('}') {
                let k = choose|k: int| 0 <= k < name.len() && name[k] == '}';
                assert(s[open + 1 + k] == '}');
            }
        }
    }
}

/// The pieces of a template's pattern: its lead, each hole followed by its
/// fixed text, then the final hole where there is one.
pub open spec fn template_pieces(t: TemplateView) -> Seq<Piece> {
    seq![Piece::Text(t.lead)] + pair_pieces(t.pairs) + match t.tail {
        Some(n) => seq![Piece::Hole(n)],
        None => Seq::empty(),
    }
}

/// Each (hole, fixed text) pair as a hole piece followed by a text piece.
pub open spec fn pair_pieces(pairs: Seq<(Seq<char>, Seq<char>)>) -> Seq<Piece>
    decreases pairs.len(),
{
    if pairs.len() == 0 {
        Seq::empty()
    } else {
        pair_pieces(pairs.drop_last()) + seq![Piece::Hole(pairs.last().0), Piece::Text(pairs.last().1)]
    }
}

proof fn lemma_pair_pieces_at(pairs: Seq<(Seq<char>, Seq<char>)>)
    ensures
        pair_pieces(pairs).len() == 2 * pairs.len(),
        forall|k: int| 0 <= k < pairs.len() ==> pair_pieces(pairs)[2 * k] == Piece::Hole((#[trigger] pairs[k]).0),
        forall|k: int| 0 <= k < pairs.len() ==> pair_pieces(pairs)[2 * k + 1] == Piece::Text((#[trigger] pairs[k]).1),
    decreases pairs.len(),
{
    if pairs.len() > 0 {
        let d = pairs.drop_last();
        lemma_pair_pieces_at(d);
        assert forall|k: int| 0 <= k < pairs.len() implies pair_pieces(pairs)[2 * k] == Piece::Hole((#[trigger] pairs[k]).0)
            && pair_pieces(pairs)[2 * k + 1] == Piece::Text(pairs[k].1) by {
            if k < d.len() {
                assert(pairs[k] == d[k]);
            }
        }
    }
}

/// Law: a template that parses holds its pattern's pieces exactly, in
/// order (lead, then each hole with the fixed text after it, then a final
/// hole where the pattern ends in one), and its replacement's pieces.
pub proof fn lemma_parsed_template_pieces(pattern: Seq<char>, replacement: Seq<char>)
    ensures
        spec_parse_template(pattern, replacement) matches Ok(t) ==> {
            &&& spec_segments(pattern) == Ok::<Seq<Piece>, ()>(template_pieces(t))
            &&& spec_segments(replacement) == Ok::<Seq<Piece>, ()>(t.replacement)
        },
{
    lemma_segments_no_adjacent_text(pattern);
    if let Ok(t) = spec_parse_template(pattern, replacement) {
        let segs = spec_segments(pattern)->Ok_0;
        let rest = segs.skip(1);
        lemma_rest_facts(segs);
        lemma_alternates(rest);
        lemma_pair_pieces_at(t.pairs);
        let pp = pair_pieces(t.pairs);
        let built = template_pieces(t);
        assert(segs[0] == Piece::Text(t.lead));
        assert forall|i: int| 0 <= i < segs.len() implies #[trigger] built[i] == segs[i] by {
            if i > 0 {
                let j = i - 1;
                assert(rest[j] == segs[i]);
                if j < pp.len() {
                    let k = j / 2;
                    assert(built[i] == pp[j]);
                    if j % 2 == 0 {
                        assert(j == 2 * k);
                        assert(pp[2 * k] == Piece::Hole(t.pairs[k].0));
                    } else {
                        assert(j == 2 * k + 1);
                        assert(pp[2 * k + 1] == Piece::Text(t.pairs[k].1));
                    }
                } else {
                    assert(j == rest.len() - 1);
                }
            }
        }
        assert(built =~= segs);
    }
}

/// Law: how malformed templates are refused. A pattern with a `{` that no
/// `}` follows is refused as an unclosed brace; an empty pattern as an
/// empty template; a pattern that starts with a hole as having no lead; a
/// pattern with no `{` at all as having no holes. A template that parses
/// has neither pattern nor replacement with an unclosed brace, and its
/// pattern does not start with `{`.
pub proof fn lemma_parse_template_refusals(pattern: Seq<char>, replacement: Seq<char>)
    ensures
        has_unclosed_brace(pattern) ==> spec_parse_template(pattern, replacement) == Err::<TemplateView, TemplateErrorView>(
            TemplateErrorView::UnclosedBrace,
        ),
        pattern.len() == 0 ==> spec_parse_template(pattern, replacement) == Err::<TemplateView, TemplateErrorView>(
            TemplateErrorView::EmptyTemplate,
        ),
        !has_unclosed_brace(pattern) && pattern.len() > 0 && pattern[0] == '{' ==> spec_parse_template(pattern, replacement)
            == Err::<TemplateView, TemplateErrorView>(TemplateErrorView::EmptyLead),
        pattern.len() > 0 && !pattern.contains('{') ==> spec_parse_template(pattern, replacement) == Err::<
            TemplateView,
            TemplateErrorView,
        >(TemplateErrorView::NoHoles),
        spec_parse_template(pattern, replacement) is Ok ==> {
            &&& !has_unclosed_brace(pattern)
            &&& !has_unclosed_brace(replacement)
            &&& pattern[0] != '{'
        },
{
    lemma_segments_round_trip(pattern);
    lemma_segments_round_trip(replacement);
    lemma_segments_text_nonempty(pattern);
    lemma_find_char(pattern, '{', 0);
    if pattern.len() == 0 {
        assert(spec_find_char(pattern, '{', 0) is None);
    }
    if pattern.len() > 0 && !pattern.contains('{') {
        assert(spec_find_char(pattern, '{', 0) is None) by {
            if let Some(i) = spec_find_char(pattern, '{', 0) {
                assert(pattern[i] == '{');
            }
        }
        assert(seq![Piece::Text(pattern)].skip(1) =~= Seq::<Piece>::empty());
    }
    if let Ok(segs) = spec_segments(pattern) {
        if segs.len() > 0 {
            lemma_rendered_concat(seq![segs[0]], segs.skip(1));
            assert(seq![segs[0]] + segs.skip(1) =~= segs);
            lemma_rendered_one(segs[0]);
            let head = rendered(seq![segs[0]]);
            assert(pattern =~= head + rendered(segs.skip(1)));
            if let Piece::Text(t) = segs[0] {
                assert(t.len() > 0);
                assert(pattern[0] == t[0]);
                assert(!t.contains('{'));
                assert(t[0] != '{');
            } else {
                assert(pattern[0] == head[0]);
            }
        } else {
            assert(rendered(segs) =~= Seq::<char>::empty());
        }
    }
}

} // verus!
