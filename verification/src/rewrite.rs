//! Finding rule matches in a sentence, choosing among overlapping matches,
//! and applying the chosen ones.
//!
//! Inside this module positions in a sentence count characters (Unicode
//! scalar values); the matches handed out by `find_literal_matches` and
//! `find_template_matches` give byte offsets into the sentence's UTF-8 text.
use vstd::prelude::*;
use crate::compile::{
    compiled_literals_view, compiled_templates_view, compiled_well_formed, CompiledLiteral,
    CompiledLiteralView, CompiledRules, CompiledRulesView, CompiledTemplate, CompiledTemplateView,
};
use crate::rules::{parts_view, pairs_view, Piece, ReplacementPart};
use vstd::string::StrSliceExecFns;
use vstd::utf8::encode_utf8;
use crate::text::{chars_of, chars_of_string, copy_string, push_chars, slice_chars, string_of};

verus! {

broadcast use vstd::string::group_string_axioms;

/// A place in the sentence where a rule applies: the characters
/// `start..end` (counted in characters) are to be replaced by `replacement`.
pub struct Span {
    pub start: usize,
    pub end: usize,
    pub rule_id: String,
    pub replacement: String,
}

pub struct MatchView {
    pub start: int,
    pub end: int,
    pub rule_id: Seq<char>,
    pub replacement: Seq<char>,
}

impl View for Span {
    type V = MatchView;

    open spec fn view(&self) -> MatchView {
        MatchView {
            start: self.start as int,
            end: self.end as int,
            rule_id: self.rule_id@,
            replacement: self.replacement@,
        }
    }
}

pub open spec fn spans_view(v: Seq<Span>) -> Seq<MatchView> {
    v.map_values(|m: Span| m@)
}

/// A place in the sentence where a rule applies: the bytes `start..end` of
/// the sentence's UTF-8 text are to be replaced by `replacement`.
pub struct Match {
    pub start: usize,
    pub end: usize,
    pub rule_id: String,
    pub replacement: String,
}

impl View for Match {
    type V = MatchView;

    open spec fn view(&self) -> MatchView {
        MatchView {
            start: self.start as int,
            end: self.end as int,
            rule_id: self.rule_id@,
            replacement: self.replacement@,
        }
    }
}

pub open spec fn matches_view(v: Seq<Match>) -> Seq<MatchView> {
    v.map_values(|m: Match| m@)
}

/// The length in bytes of the UTF-8 encoding of `s`, as `str::len` gives it.
pub open spec fn utf8_len(s: Seq<char>) -> int {
    (encode_utf8(s).len() as usize) as int
}

/// The match with its character positions turned into byte offsets in the
/// UTF-8 text of `s`.
pub open spec fn in_bytes(s: Seq<char>, m: MatchView) -> MatchView {
    MatchView {
        start: utf8_len(s.take(m.start)),
        end: utf8_len(s.take(m.end)),
        rule_id: m.rule_id,
        replacement: m.replacement,
    }
}

// ---------------------------------------------------------------------------
// Word boundaries
// ---------------------------------------------------------------------------

/// Whether `char::is_alphanumeric` holds of `c` (Unicode's Alphabetic or
/// Numeric property).
pub uninterp spec fn char_is_alphanumeric(c: char) -> bool;

/// Calls `char::is_alphanumeric`. The contract gives the result the name
/// `char_is_alphanumeric(c)`; which characters are alphanumeric is left
/// unsaid.
#[verifier::external_body]
fn is_alphanumeric(c: char) -> (r: bool)
    ensures
        r == char_is_alphanumeric(c),
{
    c.is_alphanumeric()
}

/// Position `start` begins a word: nothing alphanumeric stands just before it.
pub open spec fn spec_leading_boundary(s: Seq<char>, start: int) -> bool {
    start <= 0 || !char_is_alphanumeric(s[start - 1])
}

/// Position `end` ends a word: nothing alphanumeric stands just after it.
pub open spec fn spec_trailing_boundary(s: Seq<char>, end: int) -> bool {
    end >= s.len() || !char_is_alphanumeric(s[end])
}

fn has_leading_word_boundary(sentence: &Vec<char>, start: usize) -> (r: bool)
    requires
        start <= sentence@.len(),
    ensures
        r == spec_leading_boundary(sentence@, start as int),
{
    start == 0 || !is_alphanumeric(sentence[start - 1])
}

fn has_word_boundaries(sentence: &Vec<char>, start: usize, end: usize) -> (r: bool)
    requires
        start <= end <= sentence@.len(),
    ensures
        r == (spec_leading_boundary(sentence@, start as int) && spec_trailing_boundary(sentence@, end as int)),
{
    let after_ok = end == sentence.len() || !is_alphanumeric(sentence[end]);
    has_leading_word_boundary(sentence, start) && after_ok
}

// ---------------------------------------------------------------------------
// Searching
// ---------------------------------------------------------------------------

/// `p` occurs in `s` at position `i`.
pub open spec fn occurs_at(s: Seq<char>, p: Seq<char>, i: int) -> bool {
    0 <= i && i + p.len() <= s.len() && s.subrange(i, i + p.len()) == p
}

/// The first position at or after `from` where `p` occurs in `s`.
pub open spec fn spec_find_from(s: Seq<char>, p: Seq<char>, from: int) -> Option<int>
    decreases s.len() + 1 - from,
{
    if from < 0 || from + p.len() > s.len() {
        None
    } else if occurs_at(s, p, from) {
        Some(from)
    } else {
        spec_find_from(s, p, from + 1)
    }
}

pub proof fn lemma_find_from(s: Seq<char>, p: Seq<char>, from: int)
    ensures
        spec_find_from(s, p, from) matches Some(i) ==> {
            &&& 0 <= from <= i
            &&& i + p.len() <= s.len()
            &&& occurs_at(s, p, i)
            &&& forall|k: int| from <= k < i ==> !occurs_at(s, p, k)
        },
        spec_find_from(s, p, from) is None ==> forall|k: int| 0 <= from <= k ==> !occurs_at(s, p, k),
    decreases s.len() + 1 - from,
{
    if !(from < 0 || from + p.len() > s.len()) && !occurs_at(s, p, from) {
        lemma_find_from(s, p, from + 1);
    }
}

fn occurs_at_exec(s: &Vec<char>, p: &Vec<char>, i: usize) -> (r: bool)
    requires
        i + p@.len() <= s@.len(),
    ensures
        r == occurs_at(s@, p@, i as int),
{
    let n = s.len();
    let mut k: usize = 0;
    while k < p.len()
        invariant
            n == s@.len(),
            i + p@.len() <= s@.len(),
            0 <= k <= p@.len(),
            forall|j: int| 0 <= j < k ==> s@[i + j] == p@[j],
        decreases p@.len() - k,
    {
        if s[i + k] != p[k] {
            assert(s@.subrange(i as int, i + p@.len())[k as int] != p@[k as int]);
            return false;
        }
        k = k + 1;
    }
    assert(s@.subrange(i as int, i + p@.len()) =~= p@);
    true
}

fn find_from(s: &Vec<char>, p: &Vec<char>, from: usize) -> (r: Option<usize>)
    ensures
        match r {
            Some(i) => spec_find_from(s@, p@, from as int) == Some(i as int),
            None => spec_find_from(s@, p@, from as int) is None,
        },
{
    if p.len() > s.len() {
        return None;
    }
    let last = s.len() - p.len();
    let mut i = from;
    while i <= last
        invariant
            last + p@.len() == s@.len(),
            from <= i,
            spec_find_from(s@, p@, from as int) == spec_find_from(s@, p@, i as int),
        decreases last + 1 - i,
    {
        if occurs_at_exec(s, p, i) {
            return Some(i);
        }
        if i == last {
            return None;
        }
        i = i + 1;
    }
    None
}

// ---------------------------------------------------------------------------
// Literal matches
// ---------------------------------------------------------------------------

/// The matches of one literal rule at or after `from`: the successive
/// non-overlapping occurrences of its pattern, left to right (an empty
/// pattern occurs at every position), kept where they stand on word
/// boundaries at both ends.
pub open spec fn spec_rule_matches(s: Seq<char>, rule: CompiledLiteralView, from: int) -> Seq<MatchView>
    decreases s.len() + 1 - from,
{
    let p = rule.pattern;
    if from < 0 {
        Seq::empty()
    } else if p.len() == 0 {
        if from > s.len() {
            Seq::empty()
        } else {
            let here = MatchView { start: from, end: from, rule_id: rule.id, replacement: rule.replacement };
            let rest = spec_rule_matches(s, rule, from + 1);
            if spec_leading_boundary(s, from) && spec_trailing_boundary(s, from) {
                seq![here] + rest
            } else {
                rest
            }
        }
    } else {
        match spec_find_from(s, p, from) {
            None => Seq::empty(),
            Some(i) => {
                proof {
                    lemma_find_from(s, p, from);
                }
                let here = MatchView { start: i, end: i + p.len(), rule_id: rule.id, replacement: rule.replacement };
                let rest = spec_rule_matches(s, rule, i + p.len());
                if spec_leading_boundary(s, i) && spec_trailing_boundary(s, i + p.len()) {
                    seq![here] + rest
                } else {
                    rest
                }
            },
        }
    }
}

/// The matches of each literal rule in turn.
pub open spec fn spec_literal_matches(s: Seq<char>, rules: Seq<CompiledLiteralView>) -> Seq<MatchView>
    decreases rules.len(),
{
    if rules.len() == 0 {
        Seq::empty()
    } else {
        spec_literal_matches(s, rules.drop_last()) + spec_rule_matches(s, rules.last(), 0)
    }
}

fn rule_matches(s: &Vec<char>, rule: &CompiledLiteral, out: &mut Vec<Span>)
    ensures
        spans_view(final(out)@) == spans_view(old(out)@) + spec_rule_matches(s@, rule@, 0),
{
    let p = chars_of_string(&rule.pattern);
    let ghost start = spans_view(out@);
    let n = s.len();
    let mut from: usize = 0;
    if p.len() == 0 {
        loop
            invariant_except_break
                start + spec_rule_matches(s@, rule@, 0) == spans_view(out@) + spec_rule_matches(s@, rule@, from as int),
            invariant
                n == s@.len(),
                p@ == rule@.pattern,
                p@.len() == 0,
                from <= n,
            ensures
                start + spec_rule_matches(s@, rule@, 0) == spans_view(out@),
            decreases n - from,
        {
            let ghost before = spans_view(out@);
            let ghost rest = spec_rule_matches(s@, rule@, from + 1);
            let ghost here = MatchView { start: from as int, end: from as int, rule_id: rule@.id, replacement: rule@.replacement };
            if has_word_boundaries(s, from, from) {
                out.push(Span {
                    start: from,
                    end: from,
                    rule_id: copy_string(&rule.id),
                    replacement: copy_string(&rule.replacement),
                });
                assert(spans_view(out@) =~= before.push(here));
                assert(before + (seq![here] + rest) =~= spans_view(out@) + rest);
            }
            if from == n {
                assert(rest =~= Seq::<MatchView>::empty());
                assert(spans_view(out@) + rest =~= spans_view(out@));
                break;
            }
            from = from + 1;
        }
    } else {
        loop
            invariant
                n == s@.len(),
                p@ == rule@.pattern,
                p@.len() > 0,
                start + spec_rule_matches(s@, rule@, 0) == spans_view(out@) + spec_rule_matches(s@, rule@, from as int),
            ensures
                start + spec_rule_matches(s@, rule@, 0) == spans_view(out@),
            decreases n + 1 - from,
        {
            let ghost before = spans_view(out@);
            match find_from(s, &p, from) {
                None => {
                    assert(before + Seq::<MatchView>::empty() =~= before);
                    break;
                },
                Some(i) => {
                    proof {
                        lemma_find_from(s@, p@, from as int);
                    }
                    let end = i + p.len();
                    if has_word_boundaries(s, i, end) {
                        out.push(Span {
                            start: i,
                            end,
                            rule_id: copy_string(&rule.id),
                            replacement: copy_string(&rule.replacement),
                        });
                        assert(spans_view(out@) =~= before.push(out@.last()@));
                    }
                    from = end;
                },
            }
        }
    }
}

fn literal_matches_in(s: &Vec<char>, rules: &[CompiledLiteral]) -> (matches: Vec<Span>)
    ensures
        spans_view(matches@) == spec_literal_matches(s@, compiled_literals_view(rules@)),
{
    let ghost rv = compiled_literals_view(rules@);
    let mut matches: Vec<Span> = Vec::new();
    let mut k: usize = 0;
    while k < rules.len()
        invariant
            0 <= k <= rules@.len(),
            rv == compiled_literals_view(rules@),
            spans_view(matches@) == spec_literal_matches(s@, rv.take(k as int)),
        decreases rules@.len() - k,
    {
        rule_matches(s, &rules[k], &mut matches);
        assert(rv.take(k + 1).drop_last() =~= rv.take(k as int));
        k = k + 1;
    }
    assert(rv.take(k as int) =~= rv);
    matches
}

/// The matches of every literal rule, rule by rule, each rule's matches
/// left to right, with their positions as byte offsets in the sentence.
pub fn find_literal_matches(sentence: &str, rules: &[CompiledLiteral]) -> (matches: Vec<Match>)
    ensures
        matches_view(matches@) == spec_literal_matches(sentence@, compiled_literals_view(rules@)).map_values(
            |m: MatchView| in_bytes(sentence@, m),
        ),
{
    let s = chars_of(sentence);
    let spans = literal_matches_in(&s, rules);
    proof {
        lemma_literal_matches_within(s@, compiled_literals_view(rules@));
    }
    to_byte_positions(sentence, &spans)
}

// ---------------------------------------------------------------------------
// Template matches
// ---------------------------------------------------------------------------

/// Scans the (hole, following text) pairs of a template from `cursor`:
/// each hole captures the text up to the first occurrence of its following
/// text. Gives the captures in order, each with its hole's name, and the
/// position after the last following text; `None` where some following
/// text does not occur.
pub open spec fn spec_scan_pairs(s: Seq<char>, pairs: Seq<(Seq<char>, Seq<char>)>, cursor: int) -> Option<(Seq<(Seq<char>, Seq<char>)>, int)>
    decreases pairs.len(),
{
    if pairs.len() == 0 {
        Some((Seq::empty(), cursor))
    } else {
        match spec_scan_pairs(s, pairs.drop_last(), cursor) {
            None => None,
            Some((binds, c)) => {
                let (name, text) = pairs.last();
                match spec_find_from(s, text, c) {
                    None => None,
                    Some(f) => Some((binds.push((name, s.subrange(c, f))), f + text.len())),
                }
            },
        }
    }
}

/// The text most recently captured under `name`.
pub open spec fn spec_lookup(binds: Seq<(Seq<char>, Seq<char>)>, name: Seq<char>) -> Option<Seq<char>>
    decreases binds.len(),
{
    if binds.len() == 0 {
        None
    } else if binds.last().0 == name {
        Some(binds.last().1)
    } else {
        spec_lookup(binds.drop_last(), name)
    }
}

/// The replacement text: fixed text as written, each hole by what it captured.
pub open spec fn spec_fill(parts: Seq<Piece>, binds: Seq<(Seq<char>, Seq<char>)>) -> Seq<char>
    decreases parts.len(),
{
    if parts.len() == 0 {
        Seq::empty()
    } else {
        spec_fill(parts.drop_last(), binds) + match parts.last() {
            Piece::Text(t) => t,
            Piece::Hole(n) => match spec_lookup(binds, n) {
                Some(c) => c,
                None => Seq::empty(),
            },
        }
    }
}

/// The match of template `t` whose lead starts at `lead_idx`, if any: the
/// lead must start a word and every following text must be found; a final
/// hole captures the rest of the sentence.
pub open spec fn spec_template_attempt(s: Seq<char>, t: CompiledTemplateView, lead_idx: int) -> Option<MatchView> {
    if !spec_leading_boundary(s, lead_idx) {
        None
    } else {
        match spec_scan_pairs(s, t.rule.pairs, lead_idx + t.rule.lead.len()) {
            None => None,
            Some((binds, c)) => {
                let all = match t.rule.tail {
                    Some(n) => binds.push((n, s.subrange(c, s.len() as int))),
                    None => binds,
                };
                let end = if t.rule.tail is Some { s.len() as int } else { c };
                Some(
                    MatchView {
                        start: lead_idx,
                        end,
                        rule_id: t.id,
                        replacement: spec_fill(t.rule.replacement, all),
                    },
                )
            },
        }
    }
}

/// The matches of one template at or after `from`, one for each successive
/// non-overlapping occurrence of its lead where the template matches.
pub open spec fn spec_template_matches_from(s: Seq<char>, t: CompiledTemplateView, from: int) -> Seq<MatchView>
    decreases s.len() + 1 - from,
{
    let lead = t.rule.lead;
    if from < 0 {
        Seq::empty()
    } else if lead.len() == 0 {
        if from > s.len() {
            Seq::empty()
        } else {
            let rest = spec_template_matches_from(s, t, from + 1);
            match spec_template_attempt(s, t, from) {
                Some(m) => seq![m] + rest,
                None => rest,
            }
        }
    } else {
        match spec_find_from(s, lead, from) {
            None => Seq::empty(),
            Some(i) => {
                proof {
                    lemma_find_from(s, lead, from);
                }
                let rest = spec_template_matches_from(s, t, i + lead.len());
                match spec_template_attempt(s, t, i) {
                    Some(m) => seq![m] + rest,
                    None => rest,
                }
            },
        }
    }
}

/// The matches of each template in turn.
pub open spec fn spec_template_matches(s: Seq<char>, templates: Seq<CompiledTemplateView>) -> Seq<MatchView>
    decreases templates.len(),
{
    if templates.len() == 0 {
        Seq::empty()
    } else {
        spec_template_matches(s, templates.drop_last()) + spec_template_matches_from(s, templates.last(), 0)
    }
}

pub open spec fn binds_view(v: Seq<(String, Vec<char>)>) -> Seq<(Seq<char>, Seq<char>)> {
    v.map_values(|b: (String, Vec<char>)| (b.0@, b.1@))
}

proof fn lemma_scan_prefix_none(s: Seq<char>, pairs: Seq<(Seq<char>, Seq<char>)>, cursor: int, j: int)
    requires
        0 <= j <= pairs.len(),
        spec_scan_pairs(s, pairs.take(j), cursor) is None,
    ensures
        spec_scan_pairs(s, pairs, cursor) is None,
    decreases pairs.len(),
{
    if j < pairs.len() {
        assert(pairs.drop_last().take(j) =~= pairs.take(j));
        lemma_scan_prefix_none(s, pairs.drop_last(), cursor, j);
    } else {
        assert(pairs.take(j) =~= pairs);
    }
}

fn lookup(binds: &Vec<(String, Vec<char>)>, name: &String) -> (r: Option<Vec<char>>)
    ensures
        match r {
            Some(c) => spec_lookup(binds_view(binds@), name@) == Some(c@),
            None => spec_lookup(binds_view(binds@), name@) is None,
        },
{
    let ghost bv = binds_view(binds@);
    let mut k = binds.len();
    assert(bv.take(k as int) =~= bv);
    while k > 0
        invariant
            k <= binds@.len(),
            bv == binds_view(binds@),
            spec_lookup(bv, name@) == spec_lookup(bv.take(k as int), name@),
        decreases k,
    {
        assert(bv.take(k as int).drop_last() =~= bv.take(k - 1));
        if binds[k - 1].0 == *name {
            let c = binds[k - 1].1.clone();
            assert(c@ =~= binds@[k - 1].1@);
            return Some(c);
        }
        k = k - 1;
    }
    None
}

fn fill(parts: &Vec<ReplacementPart>, binds: &Vec<(String, Vec<char>)>) -> (r: Vec<char>)
    ensures
        r@ == spec_fill(parts_view(parts@), binds_view(binds@)),
{
    let ghost pv = parts_view(parts@);
    let mut out: Vec<char> = Vec::new();
    let mut j: usize = 0;
    while j < parts.len()
        invariant
            0 <= j <= parts@.len(),
            pv == parts_view(parts@),
            out@ == spec_fill(pv.take(j as int), binds_view(binds@)),
        decreases parts@.len() - j,
    {
        assert(pv.take(j + 1).drop_last() =~= pv.take(j as int));
        assert(pv.take(j + 1).last() == parts@[j as int]@);
        match &parts[j] {
            ReplacementPart::Text(t) => {
                let tc = chars_of_string(t);
                push_chars(&mut out, &tc);
            },
            ReplacementPart::Hole(h) => {
                match lookup(binds, &h.name) {
                    Some(c) => push_chars(&mut out, &c),
                    None => {
                        assert(out@ + Seq::<char>::empty() =~= out@);
                    },
                }
            },
        }
        j = j + 1;
    }
    assert(pv.take(j as int) =~= pv);
    out
}

fn try_template(s: &Vec<char>, t: &CompiledTemplate, lead_idx: usize, lead_len: usize) -> (r: Option<Span>)
    requires
        lead_len == t@.rule.lead.len(),
        lead_idx + lead_len <= s@.len(),
    ensures
        match r {
            Some(m) => spec_template_attempt(s@, t@, lead_idx as int) == Some(m@),
            None => spec_template_attempt(s@, t@, lead_idx as int) is None,
        },
{
    if !has_leading_word_boundary(s, lead_idx) {
        return None;
    }
    let n = s.len();
    let ghost pv = pairs_view(t.rule.pairs@);
    let mut cursor: usize = lead_idx + lead_len;
    let mut binds: Vec<(String, Vec<char>)> = Vec::new();
    let mut k: usize = 0;
    while k < t.rule.pairs.len()
        invariant
            n == s@.len(),
            cursor <= n,
            spec_leading_boundary(s@, lead_idx as int),
            lead_len == t@.rule.lead.len(),
            0 <= k <= t.rule.pairs@.len(),
            pv == pairs_view(t.rule.pairs@),
            spec_scan_pairs(s@, pv.take(k as int), lead_idx + lead_len) == Some((binds_view(binds@), cursor as int)),
        decreases t.rule.pairs@.len() - k,
    {
        let following = chars_of_string(&t.rule.pairs[k].1);
        assert(pv.take(k + 1).drop_last() =~= pv.take(k as int));
        assert(pv.take(k + 1).last() == pv[k as int]);
        assert(pv[k as int].1 == following@);
        match find_from(s, &following, cursor) {
            None => {
                proof {
                    lemma_scan_prefix_none(s@, pv, lead_idx + lead_len, k + 1);
                }
                return None;
            },
            Some(found) => {
                proof {
                    lemma_find_from(s@, following@, cursor as int);
                }
                let captured = slice_chars(s, cursor, found);
                let ghost before = binds_view(binds@);
                binds.push((copy_string(&t.rule.pairs[k].0.name), captured));
                assert(binds_view(binds@) =~= before.push((pv[k as int].0, s@.subrange(cursor as int, found as int))));
                cursor = found + following.len();
            },
        }
        k = k + 1;
    }
    assert(pv.take(k as int) =~= pv);
    let end = match &t.rule.tail {
        Some(tail) => {
            let ghost before = binds_view(binds@);
            let captured = slice_chars(s, cursor, n);
            binds.push((copy_string(&tail.name), captured));
            assert(binds_view(binds@) =~= before.push((tail.name@, s@.subrange(cursor as int, n as int))));
            n
        },
        None => cursor,
    };
    let replacement = fill(&t.rule.replacement, &binds);
    Some(Span { start: lead_idx, end, rule_id: copy_string(&t.id), replacement: string_of(replacement) })
}

fn template_matches(s: &Vec<char>, t: &CompiledTemplate, out: &mut Vec<Span>)
    ensures
        spans_view(final(out)@) == spans_view(old(out)@) + spec_template_matches_from(s@, t@, 0),
{
    let lead = chars_of_string(&t.rule.lead);
    let ghost start = spans_view(out@);
    let n = s.len();
    let mut from: usize = 0;
    if lead.len() == 0 {
        loop
            invariant_except_break
                start + spec_template_matches_from(s@, t@, 0) == spans_view(out@) + spec_template_matches_from(s@, t@, from as int),
            invariant
                n == s@.len(),
                lead@ == t@.rule.lead,
                lead@.len() == 0,
                from <= n,
            ensures
                start + spec_template_matches_from(s@, t@, 0) == spans_view(out@),
            decreases n - from,
        {
            let ghost before = spans_view(out@);
            let ghost rest = spec_template_matches_from(s@, t@, from + 1);
            match try_template(s, t, from, 0) {
                Some(m) => {
                    let ghost mv = m@;
                    out.push(m);
                    assert(spans_view(out@) =~= before.push(mv));
                    assert(before + (seq![mv] + rest) =~= spans_view(out@) + rest);
                },
                None => {},
            }
            if from == n {
                assert(rest =~= Seq::<MatchView>::empty());
                assert(spans_view(out@) + rest =~= spans_view(out@));
                break;
            }
            from = from + 1;
        }
    } else {
        loop
            invariant
                n == s@.len(),
                lead@ == t@.rule.lead,
                lead@.len() > 0,
                start + spec_template_matches_from(s@, t@, 0) == spans_view(out@) + spec_template_matches_from(s@, t@, from as int),
            ensures
                start + spec_template_matches_from(s@, t@, 0) == spans_view(out@),
            decreases n + 1 - from,
        {
            let ghost before = spans_view(out@);
            match find_from(s, &lead, from) {
                None => {
                    assert(before + Seq::<MatchView>::empty() =~= before);
                    break;
                },
                Some(i) => {
                    proof {
                        lemma_find_from(s@, lead@, from as int);
                    }
                    let ghost rest = spec_template_matches_from(s@, t@, i + lead@.len());
                    match try_template(s, t, i, lead.len()) {
                        Some(m) => {
                            let ghost mv = m@;
                            out.push(m);
                            assert(spans_view(out@) =~= before.push(mv));
                            assert(before + (seq![mv] + rest) =~= spans_view(out@) + rest);
                        },
                        None => {},
                    }
                    from = i + lead.len();
                },
            }
        }
    }
}

fn template_matches_in(s: &Vec<char>, templates: &[CompiledTemplate]) -> (matches: Vec<Span>)
    ensures
        spans_view(matches@) == spec_template_matches(s@, compiled_templates_view(templates@)),
{
    let ghost tv = compiled_templates_view(templates@);
    let mut matches: Vec<Span> = Vec::new();
    let mut k: usize = 0;
    while k < templates.len()
        invariant
            0 <= k <= templates@.len(),
            tv == compiled_templates_view(templates@),
            spans_view(matches@) == spec_template_matches(s@, tv.take(k as int)),
        decreases templates@.len() - k,
    {
        template_matches(s, &templates[k], &mut matches);
        assert(tv.take(k + 1).drop_last() =~= tv.take(k as int));
        k = k + 1;
    }
    assert(tv.take(k as int) =~= tv);
    matches
}

/// Every template's replacement names only holes of its pattern.
pub open spec fn templates_well_formed(templates: Seq<CompiledTemplateView>) -> bool {
    forall|i: int| 0 <= i < templates.len() ==> crate::rules::template_well_formed(#[trigger] templates[i].rule)
}

/// The matches of every template, template by template, each template's
/// matches left to right, with their positions as byte offsets in the
/// sentence.
pub fn find_template_matches(sentence: &str, templates: &[CompiledTemplate]) -> (matches: Vec<Match>)
    requires
        templates_well_formed(compiled_templates_view(templates@)),
    ensures
        matches_view(matches@) == spec_template_matches(sentence@, compiled_templates_view(templates@)).map_values(
            |m: MatchView| in_bytes(sentence@, m),
        ),
{
    let s = chars_of(sentence);
    let spans = template_matches_in(&s, templates);
    proof {
        lemma_templates_within(s@, compiled_templates_view(templates@));
    }
    to_byte_positions(sentence, &spans)
}

// ---------------------------------------------------------------------------
// Where matches lie
// ---------------------------------------------------------------------------

/// Every match lies within `from..len`, and each ends no later than it starts.
pub open spec fn within(ms: Seq<MatchView>, from: int, len: int) -> bool {
    forall|i: int| 0 <= i < ms.len() ==> from <= #[trigger] ms[i].start <= ms[i].end <= len
}

pub proof fn lemma_rule_matches_within(s: Seq<char>, rule: CompiledLiteralView, from: int)
    requires
        0 <= from,
    ensures
        within(spec_rule_matches(s, rule, from), from, s.len() as int),
    decreases s.len() + 1 - from,
{
    let p = rule.pattern;
    if p.len() == 0 {
        if from <= s.len() {
            lemma_rule_matches_within(s, rule, from + 1);
        }
    } else {
        lemma_find_from(s, p, from);
        if let Some(i) = spec_find_from(s, p, from) {
            lemma_rule_matches_within(s, rule, i + p.len());
        }
    }
}

pub proof fn lemma_literal_matches_within(s: Seq<char>, rules: Seq<CompiledLiteralView>)
    ensures
        within(spec_literal_matches(s, rules), 0, s.len() as int),
    decreases rules.len(),
{
    if rules.len() > 0 {
        lemma_literal_matches_within(s, rules.drop_last());
        lemma_rule_matches_within(s, rules.last(), 0);
    }
}

pub proof fn lemma_scan_within(s: Seq<char>, pairs: Seq<(Seq<char>, Seq<char>)>, cursor: int)
    requires
        0 <= cursor <= s.len(),
    ensures
        spec_scan_pairs(s, pairs, cursor) matches Some((_, c)) ==> cursor <= c <= s.len(),
    decreases pairs.len(),
{
    if pairs.len() > 0 {
        lemma_scan_within(s, pairs.drop_last(), cursor);
        if let Some((b, c)) = spec_scan_pairs(s, pairs.drop_last(), cursor) {
            lemma_find_from(s, pairs.last().1, c);
        }
    }
}

/// The captures in order, each followed by the fixed text of its pair.
pub open spec fn spelled(binds: Seq<(Seq<char>, Seq<char>)>, pairs: Seq<(Seq<char>, Seq<char>)>) -> Seq<char>
    decreases pairs.len(),
{
    if pairs.len() == 0 || binds.len() == 0 {
        Seq::empty()
    } else {
        spelled(binds.drop_last(), pairs.drop_last()) + binds.last().1 + pairs.last().1
    }
}

/// `text` occurs nowhere in `cap` followed by `text` before the end of `cap`:
/// `cap` runs up to the first occurrence of `text`.
pub open spec fn ends_at_first(cap: Seq<char>, text: Seq<char>) -> bool {
    forall|j: int| 0 <= j < cap.len() ==> !#[trigger] occurs_at(cap + text, text, j)
}

/// Law: scanning the (hole, fixed text) pairs from `cursor` gives one
/// capture per pair, under its hole's name, each running up to the first
/// occurrence of its pair's fixed text; the captures, each followed by its
/// fixed text, spell out exactly the text from `cursor` to where the scan
/// stops.
pub proof fn lemma_scan_spells(s: Seq<char>, pairs: Seq<(Seq<char>, Seq<char>)>, cursor: int)
    requires
        0 <= cursor <= s.len(),
    ensures
        spec_scan_pairs(s, pairs, cursor) matches Some((b, c)) ==> {
            &&& b.len() == pairs.len()
            &&& forall|k: int| 0 <= k < b.len() ==> (#[trigger] b[k]).0 == pairs[k].0 && ends_at_first(b[k].1, pairs[k].1)
            &&& cursor <= c <= s.len()
            &&& spelled(b, pairs) == s.subrange(cursor, c)
        },
    decreases pairs.len(),
{
    if pairs.len() == 0 {
        assert(s.subrange(cursor, cursor) =~= Seq::<char>::empty());
    } else {
        lemma_scan_spells(s, pairs.drop_last(), cursor);
        if let Some((b0, c0)) = spec_scan_pairs(s, pairs.drop_last(), cursor) {
            let name = pairs.last().0;
            let text = pairs.last().1;
            lemma_find_from(s, text, c0);
            if let Some(f) = spec_find_from(s, text, c0) {
                let cap = s.subrange(c0, f);
                let b = b0.push((name, cap));
                lemma_capture_ends_at_first(s, text, c0);
                assert(spec_scan_pairs(s, pairs, cursor) == Some((b, f + text.len())));
                assert(b.drop_last() =~= b0);
                assert(b.last() == (name, cap));
                assert(spelled(b, pairs) == spelled(b0, pairs.drop_last()) + cap + text);
                assert(s.subrange(cursor, f + text.len()) =~= s.subrange(cursor, c0) + s.subrange(c0, f + text.len()));
                assert forall|k: int| 0 <= k < b.len() implies (#[trigger] b[k]).0 == pairs[k].0 && ends_at_first(
                    b[k].1,
                    pairs[k].1,
                ) by {
                    if k < b0.len() {
                        assert(b[k] == b0[k]);
                        assert(pairs[k] == pairs.drop_last()[k]);
                    }
                }
            }
        }
    }
}

/// What the first occurrence of `text` at or after `c0` leaves between:
/// a capture that runs up to that first occurrence.
proof fn lemma_capture_ends_at_first(s: Seq<char>, text: Seq<char>, c0: int)
    requires
        0 <= c0,
    ensures
        spec_find_from(s, text, c0) matches Some(f) ==> {
            &&& c0 <= f
            &&& f + text.len() <= s.len()
            &&& s.subrange(c0, f + text.len()) == s.subrange(c0, f) + text
            &&& ends_at_first(s.subrange(c0, f), text)
        },
{
    lemma_find_from(s, text, c0);
    if let Some(f) = spec_find_from(s, text, c0) {
        let cap = s.subrange(c0, f);
        let tl = text.len() as int;
        assert(s.subrange(f, f + tl) == text);
        assert(cap + text =~= s.subrange(c0, f + tl));
        assert forall|j: int| 0 <= j < cap.len() implies !#[trigger] occurs_at(cap + text, text, j) by {
            lemma_occurs_in_window(s, text, c0, f + tl, j);
        }
    }
}

proof fn lemma_occurs_in_window(s: Seq<char>, text: Seq<char>, a: int, b: int, j: int)
    requires
        0 <= a <= b <= s.len(),
        0 <= j,
    ensures
        occurs_at(s.subrange(a, b), text, j) ==> occurs_at(s, text, a + j),
{
    if occurs_at(s.subrange(a, b), text, j) {
        assert(s.subrange(a, b).subrange(j, j + text.len()) =~= s.subrange(a + j, a + j + text.len()));
    }
}

/// Law: a template match spells out the matched text: the lead, then each
/// capture followed by its pair's fixed text, then, where the pattern ends
/// in a hole, the rest of the sentence.
pub proof fn lemma_template_attempt_spells(s: Seq<char>, t: CompiledTemplateView, lead_idx: int)
    requires
        occurs_at(s, t.rule.lead, lead_idx),
    ensures
        spec_template_attempt(s, t, lead_idx) matches Some(m) ==> {
            &&& spec_scan_pairs(s, t.rule.pairs, lead_idx + t.rule.lead.len()) matches Some((b, c))
            &&& m.start == lead_idx
            &&& s.subrange(m.start, m.end) == t.rule.lead + spelled(b, t.rule.pairs) + if t.rule.tail is Some {
                s.subrange(c, s.len() as int)
            } else {
                Seq::empty()
            }
            &&& m.replacement == spec_fill(
                t.rule.replacement,
                match t.rule.tail {
                    Some(n) => b.push((n, s.subrange(c, s.len() as int))),
                    None => b,
                },
            )
        },
{
    let from = lead_idx + t.rule.lead.len();
    lemma_scan_spells(s, t.rule.pairs, from);
    if let Some((b, c)) = spec_scan_pairs(s, t.rule.pairs, from) {
        assert(s.subrange(lead_idx, from) == t.rule.lead);
        if t.rule.tail is Some {
            assert(s.subrange(lead_idx, s.len() as int) =~= s.subrange(lead_idx, from) + s.subrange(from, c) + s.subrange(
                c,
                s.len() as int,
            ));
        } else {
            assert(s.subrange(lead_idx, c) =~= s.subrange(lead_idx, from) + s.subrange(from, c) + Seq::<char>::empty());
        }
    }
}

/// Each template match is the attempt of the template at the match's start.
proof fn lemma_template_matches_are_attempts(s: Seq<char>, t: CompiledTemplateView, from: int)
    requires
        0 <= from,
    ensures
        forall|i: int| 0 <= i < spec_template_matches_from(s, t, from).len() ==> spec_template_attempt(
            s,
            t,
            (#[trigger] spec_template_matches_from(s, t, from)[i]).start,
        ) == Some(spec_template_matches_from(s, t, from)[i]),
    decreases s.len() + 1 - from,
{
    let lead = t.rule.lead;
    let all = spec_template_matches_from(s, t, from);
    if lead.len() == 0 {
        if from <= s.len() {
            lemma_template_matches_are_attempts(s, t, from + 1);
            let rest = spec_template_matches_from(s, t, from + 1);
            assert forall|i: int| 0 <= i < all.len() implies spec_template_attempt(s, t, (#[trigger] all[i]).start) == Some(
                all[i],
            ) by {
                if all.len() > rest.len() && i > 0 {
                    assert(all[i] == rest[i - 1]);
                } else if all.len() == rest.len() {
                    assert(all[i] == rest[i]);
                }
            }
        }
    } else {
        lemma_find_from(s, lead, from);
        if let Some(j) = spec_find_from(s, lead, from) {
            lemma_template_matches_are_attempts(s, t, j + lead.len());
            let rest = spec_template_matches_from(s, t, j + lead.len());
            assert forall|i: int| 0 <= i < all.len() implies spec_template_attempt(s, t, (#[trigger] all[i]).start) == Some(
                all[i],
            ) by {
                if all.len() > rest.len() && i > 0 {
                    assert(all[i] == rest[i - 1]);
                } else if all.len() == rest.len() {
                    assert(all[i] == rest[i]);
                }
            }
        }
    }
}

/// Law: every match of a template spells out the text it covers: the
/// lead, then each capture followed by its pair's fixed text, then, where
/// the pattern ends in a hole, the rest of the sentence; each capture runs
/// up to the first occurrence of the fixed text after it.
pub proof fn lemma_template_matches_spell_their_text(s: Seq<char>, t: CompiledTemplateView, from: int)
    requires
        0 <= from,
    ensures
        forall|i: int| 0 <= i < spec_template_matches_from(s, t, from).len() ==> {
            let m = #[trigger] spec_template_matches_from(s, t, from)[i];
            &&& spec_scan_pairs(s, t.rule.pairs, m.start + t.rule.lead.len()) matches Some((b, c))
            &&& forall|k: int| 0 <= k < b.len() ==> ends_at_first((#[trigger] b[k]).1, t.rule.pairs[k].1)
            &&& s.subrange(m.start, m.end) == t.rule.lead + spelled(b, t.rule.pairs) + if t.rule.tail is Some {
                s.subrange(c, s.len() as int)
            } else {
                Seq::empty()
            }
        },
{
    lemma_template_matches_are_attempts(s, t, from);
    lemma_template_matches_start_at_lead(s, t, from);
    let all = spec_template_matches_from(s, t, from);
    assert forall|i: int| 0 <= i < all.len() implies {
        let m = #[trigger] all[i];
        &&& spec_scan_pairs(s, t.rule.pairs, m.start + t.rule.lead.len()) matches Some((b, c))
        &&& forall|k: int| 0 <= k < b.len() ==> ends_at_first((#[trigger] b[k]).1, t.rule.pairs[k].1)
        &&& s.subrange(m.start, m.end) == t.rule.lead + spelled(b, t.rule.pairs) + if t.rule.tail is Some {
            s.subrange(c, s.len() as int)
        } else {
            Seq::empty()
        }
    } by {
        let m = all[i];
        lemma_template_attempt_spells(s, t, m.start);
        lemma_scan_spells(s, t.rule.pairs, m.start + t.rule.lead.len());
    }
}


/// Law: looking a name up gives what the last capture under that name
/// holds, and nothing where no capture has that name.
pub proof fn lemma_lookup_latest(binds: Seq<(Seq<char>, Seq<char>)>, name: Seq<char>)
    ensures
        forall|k: int|
            0 <= k < binds.len() && (#[trigger] binds[k]).0 == name && (forall|j: int| k < j < binds.len() ==> binds[j].0 != name)
                ==> spec_lookup(binds, name) == Some(binds[k].1),
        (forall|k: int| 0 <= k < binds.len() ==> (#[trigger] binds[k]).0 != name) ==> spec_lookup(binds, name) is None,
    decreases binds.len(),
{
    if binds.len() > 0 {
        let d = binds.drop_last();
        lemma_lookup_latest(d, name);
        let n = binds.len() - 1;
        assert forall|k: int|
            0 <= k < binds.len() && (#[trigger] binds[k]).0 == name && (forall|j: int| k < j < binds.len() ==> binds[j].0 != name)
                implies spec_lookup(binds, name) == Some(binds[k].1) by {
            if k < n {
                assert(binds[n].0 != name);
                assert(binds[k] == d[k]);
                assert forall|j: int| k < j < d.len() implies d[j].0 != name by {
                    assert(d[j] == binds[j]);
                }
            }
        }
        if forall|k: int| 0 <= k < binds.len() ==> (#[trigger] binds[k]).0 != name {
            assert(binds[n].0 != name);
            assert forall|k: int| 0 <= k < d.len() implies (#[trigger] d[k]).0 != name by {
                assert(d[k] == binds[k]);
            }
        }
    }
}

/// Law: the replacement of a sequence of pieces is the replacement of its
/// first part followed by that of its second.
pub proof fn lemma_fill_concat(a: Seq<Piece>, b: Seq<Piece>, binds: Seq<(Seq<char>, Seq<char>)>)
    ensures
        spec_fill(a + b, binds) == spec_fill(a, binds) + spec_fill(b, binds),
    decreases b.len(),
{
    if b.len() == 0 {
        assert(a + b =~= a);
        assert(spec_fill(a, binds) + spec_fill(b, binds) =~= spec_fill(a, binds));
    } else {
        lemma_fill_concat(a, b.drop_last(), binds);
        assert((a + b).drop_last() =~= a + b.drop_last());
        assert((a + b).last() == b.last());
    }
}

/// Law: a fixed-text piece is replaced by its text, and a hole by what was
/// captured under its name.
pub proof fn lemma_fill_one(p: Piece, binds: Seq<(Seq<char>, Seq<char>)>)
    ensures
        p matches Piece::Text(t) ==> spec_fill(seq![p], binds) == t,
        p matches Piece::Hole(n) ==> (spec_lookup(binds, n) matches Some(c) ==> spec_fill(seq![p], binds) == c),
{
    assert(seq![p].drop_last() =~= Seq::<Piece>::empty());
    assert(seq![p].last() == p);
    assert(spec_fill(Seq::<Piece>::empty(), binds) == Seq::<char>::empty());
    match p {
        Piece::Text(t) => assert(Seq::<char>::empty() + t =~= t),
        Piece::Hole(n) => {
            if let Some(c) = spec_lookup(binds, n) {
                assert(Seq::<char>::empty() + c =~= c);
            }
        },
    }
}

pub proof fn lemma_template_matches_within(s: Seq<char>, t: CompiledTemplateView, from: int)
    requires
        0 <= from,
    ensures
        within(spec_template_matches_from(s, t, from), from, s.len() as int),
    decreases s.len() + 1 - from,
{
    let lead = t.rule.lead;
    if lead.len() == 0 {
        if from <= s.len() {
            lemma_scan_within(s, t.rule.pairs, from + lead.len());
            lemma_template_matches_within(s, t, from + 1);
        }
    } else {
        lemma_find_from(s, lead, from);
        if let Some(i) = spec_find_from(s, lead, from) {
            lemma_scan_within(s, t.rule.pairs, i + lead.len());
            lemma_template_matches_within(s, t, i + lead.len());
        }
    }
}

pub proof fn lemma_templates_within(s: Seq<char>, templates: Seq<CompiledTemplateView>)
    ensures
        within(spec_template_matches(s, templates), 0, s.len() as int),
    decreases templates.len(),
{
    if templates.len() > 0 {
        lemma_templates_within(s, templates.drop_last());
        lemma_template_matches_within(s, templates.last(), 0);
    }
}

// ---------------------------------------------------------------------------
// Choosing among overlapping matches
// ---------------------------------------------------------------------------

pub open spec fn match_len(m: MatchView) -> int {
    m.end - m.start
}

/// Match `i` comes before match `j` in the order of choice: earlier start
/// first, then the longer first, then the earlier found first.
pub open spec fn key_before(ms: Seq<MatchView>, i: int, j: int) -> bool {
    ||| ms[i].start < ms[j].start
    ||| ms[i].start == ms[j].start && match_len(ms[i]) > match_len(ms[j])
    ||| ms[i].start == ms[j].start && match_len(ms[i]) == match_len(ms[j]) && i < j
}

/// Match `j` may be chosen next: it starts at or after `cursor` and comes
/// after the last choice in the order of choice.
pub open spec fn is_candidate(ms: Seq<MatchView>, cursor: int, last: Option<int>, j: int) -> bool {
    &&& 0 <= j < ms.len()
    &&& ms[j].start >= cursor
    &&& match last {
        Some(l) => key_before(ms, l, j),
        None => true,
    }
}

/// Match `j` is the first candidate in the order of choice.
pub open spec fn is_next(ms: Seq<MatchView>, cursor: int, last: Option<int>, j: int) -> bool {
    &&& is_candidate(ms, cursor, last, j)
    &&& forall|k: int| #[trigger] is_candidate(ms, cursor, last, k) ==> !key_before(ms, k, j)
}

pub open spec fn spec_next(ms: Seq<MatchView>, cursor: int, last: Option<int>) -> Option<int> {
    if exists|j: int| is_next(ms, cursor, last, j) {
        Some(choose|j: int| is_next(ms, cursor, last, j))
    } else {
        None
    }
}

/// How many matches come after `l` among the first `k`.
pub open spec fn count_after(ms: Seq<MatchView>, l: int, k: int) -> nat
    decreases k,
{
    if k <= 0 {
        0
    } else {
        count_after(ms, l, k - 1) + if key_before(ms, l, k - 1) { 1nat } else { 0nat }
    }
}

pub open spec fn choice_measure(ms: Seq<MatchView>, last: Option<int>) -> nat {
    match last {
        None => ms.len() + 1,
        Some(l) => count_after(ms, l, ms.len() as int),
    }
}

pub proof fn lemma_count_after_bound(ms: Seq<MatchView>, l: int, k: int)
    requires
        0 <= k,
    ensures
        count_after(ms, l, k) <= k,
    decreases k,
{
    if k > 0 {
        lemma_count_after_bound(ms, l, k - 1);
    }
}

pub proof fn lemma_key_before_transitive(ms: Seq<MatchView>, a: int, b: int, c: int)
    requires
        key_before(ms, a, b),
        key_before(ms, b, c),
    ensures
        key_before(ms, a, c),
{
}

pub proof fn lemma_count_after_shrinks(ms: Seq<MatchView>, l: int, j: int, k: int)
    requires
        0 <= k,
        0 <= j,
        key_before(ms, l, j),
    ensures
        count_after(ms, j, k) + (if j < k { 1int } else { 0int }) <= count_after(ms, l, k),
    decreases k,
{
    if k > 0 {
        lemma_count_after_shrinks(ms, l, j, k - 1);
        let x = k - 1;
        if key_before(ms, j, x) {
            lemma_key_before_transitive(ms, l, j, x);
        }
        assert(!key_before(ms, j, j));
    }
}

pub proof fn lemma_next_is_next(ms: Seq<MatchView>, cursor: int, last: Option<int>)
    ensures
        spec_next(ms, cursor, last) matches Some(j) ==> is_next(ms, cursor, last, j),
{
}

pub proof fn lemma_choice_measure_decreases(ms: Seq<MatchView>, cursor: int, last: Option<int>, j: int)
    requires
        is_next(ms, cursor, last, j),
    ensures
        choice_measure(ms, Some(j)) < choice_measure(ms, last),
{
    match last {
        None => lemma_count_after_bound(ms, j, ms.len() as int),
        Some(l) => lemma_count_after_shrinks(ms, l, j, ms.len() as int),
    }
}

/// The matches chosen, as positions in `ms`: the first in the order of
/// choice, then repeatedly the first later one that starts no earlier than
/// where the previous choice ends.
pub open spec fn spec_greedy(ms: Seq<MatchView>, cursor: int, last: Option<int>) -> Seq<int>
    decreases choice_measure(ms, last),
{
    match spec_next(ms, cursor, last) {
        None => Seq::empty(),
        Some(j) => {
            proof {
                lemma_next_is_next(ms, cursor, last);
                lemma_choice_measure_decreases(ms, cursor, last, j);
            }
            seq![j] + spec_greedy(ms, ms[j].end, Some(j))
        },
    }
}

/// The matches that are applied: leftmost first, the longest of those
/// that start together, and none that overlaps one already chosen.
pub open spec fn spec_select(ms: Seq<MatchView>) -> Seq<MatchView> {
    spec_greedy(ms, 0, None).map_values(|i: int| ms[i])
}

proof fn lemma_next_unique(ms: Seq<MatchView>, cursor: int, last: Option<int>, j: int)
    requires
        is_next(ms, cursor, last, j),
    ensures
        spec_next(ms, cursor, last) == Some(j),
{
    let c = choose|x: int| is_next(ms, cursor, last, x);
    assert(is_next(ms, cursor, last, c));
    assert(is_candidate(ms, cursor, last, c));
    assert(is_candidate(ms, cursor, last, j));
    if c != j {
        assert(key_before(ms, c, j) || key_before(ms, j, c));
    }
}

fn key_before_exec(ms: &Vec<Span>, i: usize, j: usize) -> (r: bool)
    requires
        i < ms@.len(),
        j < ms@.len(),
        ms@[i as int].start <= ms@[i as int].end,
        ms@[j as int].start <= ms@[j as int].end,
    ensures
        r == key_before(spans_view(ms@), i as int, j as int),
{
    let a = &ms[i];
    let b = &ms[j];
    let la = a.end - a.start;
    let lb = b.end - b.start;
    a.start < b.start || (a.start == b.start && la > lb) || (a.start == b.start && la == lb && i < j)
}

fn find_next(ms: &Vec<Span>, cursor: usize, last: Option<usize>) -> (r: Option<usize>)
    requires
        forall|i: int| 0 <= i < ms@.len() ==> (#[trigger] ms@[i]).start <= ms@[i].end,
        last matches Some(l) ==> l < ms@.len(),
    ensures
        match r {
            Some(j) => spec_next(spans_view(ms@), cursor as int, match last { Some(l) => Some(l as int), None => None }) == Some(j as int),
            None => spec_next(spans_view(ms@), cursor as int, match last { Some(l) => Some(l as int), None => None }) is None,
        },
{
    let ghost mv = spans_view(ms@);
    let ghost gl: Option<int> = match last { Some(l) => Some(l as int), None => None };
    let mut best: Option<usize> = None;
    let mut k: usize = 0;
    while k < ms.len()
        invariant
            0 <= k <= ms@.len(),
            mv == spans_view(ms@),
            forall|i: int| 0 <= i < ms@.len() ==> (#[trigger] ms@[i]).start <= ms@[i].end,
            last matches Some(l) ==> l < ms@.len(),
            gl == match last { Some(l) => Some(l as int), None => None::<int> },
            best is None ==> forall|x: int| 0 <= x < k ==> !is_candidate(mv, cursor as int, gl, x),
            best matches Some(b) ==> b < k && is_candidate(mv, cursor as int, gl, b as int)
                && forall|x: int| 0 <= x < k && is_candidate(mv, cursor as int, gl, x) ==> !key_before(mv, x, b as int),
        decreases ms@.len() - k,
    {
        let cand = ms[k].start >= cursor && match last {
            Some(l) => key_before_exec(ms, l, k),
            None => true,
        };
        if cand {
            let better = match best {
                None => true,
                Some(b) => key_before_exec(ms, k, b),
            };
            if better {
                proof {
                    assert forall|x: int| 0 <= x < k + 1 && is_candidate(mv, cursor as int, gl, x) implies !key_before(mv, x, k as int) by {
                        if x < k && key_before(mv, x, k as int) {
                            if let Some(b) = best {
                                lemma_key_before_transitive(mv, x, k as int, b as int);
                            }
                        }
                    }
                }
                best = Some(k);
            }
        }
        k = k + 1;
    }
    match best {
        Some(b) => {
            proof {
                assert forall|x: int| #[trigger] is_candidate(mv, cursor as int, gl, x) implies !key_before(mv, x, b as int) by {}
                lemma_next_unique(mv, cursor as int, gl, b as int);
            }
        },
        None => {
            assert(!exists|j: int| is_next(mv, cursor as int, gl, j));
        },
    }
    best
}

fn clone_match(m: &Span) -> (r: Span)
    ensures
        r@ == m@,
{
    Span { start: m.start, end: m.end, rule_id: copy_string(&m.rule_id), replacement: copy_string(&m.replacement) }
}

/// Chooses the matches to apply: the first in the order of choice, then
/// repeatedly the first later one that starts at or after the previous
/// choice's end.
pub fn select(matches: Vec<Span>) -> (kept: Vec<Span>)
    requires
        forall|i: int| 0 <= i < matches@.len() ==> (#[trigger] matches@[i]).start <= matches@[i].end,
    ensures
        spans_view(kept@) == spec_select(spans_view(matches@)),
{
    let ghost mv = spans_view(matches@);
    let mut kept: Vec<Span> = Vec::new();
    let ghost mut chosen: Seq<int> = Seq::empty();
    let mut cursor: usize = 0;
    let mut last: Option<usize> = None;
    loop
        invariant_except_break
            spec_greedy(mv, 0, None) == chosen + spec_greedy(mv, cursor as int, match last { Some(l) => Some(l as int), None => None }),
        invariant
            mv == spans_view(matches@),
            forall|i: int| 0 <= i < matches@.len() ==> (#[trigger] matches@[i]).start <= matches@[i].end,
            last matches Some(l) ==> l < matches@.len(),
            forall|i: int| 0 <= i < chosen.len() ==> 0 <= #[trigger] chosen[i] < mv.len(),
            spans_view(kept@) == chosen.map_values(|i: int| mv[i]),
        ensures
            spec_greedy(mv, 0, None) == chosen,
        decreases choice_measure(mv, match last { Some(l) => Some(l as int), None => None }),
    {
        let ghost gl: Option<int> = match last { Some(l) => Some(l as int), None => None };
        match find_next(&matches, cursor, last) {
            None => {
                assert(chosen + Seq::<int>::empty() =~= chosen);
                break;
            },
            Some(j) => {
                proof {
                    lemma_next_is_next(mv, cursor as int, gl);
                    lemma_choice_measure_decreases(mv, cursor as int, gl, j as int);
                }
                let ghost before = spans_view(kept@);
                kept.push(clone_match(&matches[j]));
                assert(spans_view(kept@) =~= before.push(mv[j as int]));
                proof {
                    let rest = spec_greedy(mv, mv[j as int].end, Some(j as int));
                    assert(chosen + (seq![j as int] + rest) =~= chosen.push(j as int) + rest);
                    chosen = chosen.push(j as int);
                    assert(spans_view(kept@) =~= chosen.map_values(|i: int| mv[i]));
                }
                cursor = matches[j].end;
                last = Some(j);
            },
        }
    }
    kept
}

/// The matches lie within `from..len` in order, none overlapping the next.
pub open spec fn well_placed(ms: Seq<MatchView>, from: int, len: int) -> bool {
    &&& within(ms, from, len)
    &&& forall|i: int| 0 <= i < ms.len() - 1 ==> (#[trigger] ms[i]).end <= ms[i + 1].start
}

pub proof fn lemma_greedy_well_placed(ms: Seq<MatchView>, cursor: int, last: Option<int>, len: int)
    requires
        within(ms, 0, len),
    ensures
        well_placed(spec_greedy(ms, cursor, last).map_values(|i: int| ms[i]), cursor, len),
    decreases choice_measure(ms, last),
{
    lemma_next_is_next(ms, cursor, last);
    match spec_next(ms, cursor, last) {
        None => {},
        Some(j) => {
            lemma_choice_measure_decreases(ms, cursor, last, j);
            lemma_greedy_well_placed(ms, ms[j].end, Some(j), len);
            let rest = spec_greedy(ms, ms[j].end, Some(j));
            let sel = spec_greedy(ms, cursor, last).map_values(|i: int| ms[i]);
            let rsel = rest.map_values(|i: int| ms[i]);
            assert(sel =~= seq![ms[j]] + rsel);
            assert forall|i: int| 0 <= i < sel.len() - 1 implies (#[trigger] sel[i]).end <= sel[i + 1].start by {
                if i > 0 {
                    assert(sel[i] == rsel[i - 1]);
                    assert(sel[i + 1] == rsel[i]);
                } else if rsel.len() > 0 {
                    assert(sel[1] == rsel[0]);
                }
            }
            assert forall|i: int| 0 <= i < sel.len() implies cursor <= #[trigger] sel[i].start <= sel[i].end <= len by {
                if i > 0 {
                    assert(sel[i] == rsel[i - 1]);
                }
            }
        },
    }
}

// ---------------------------------------------------------------------------
// Applying matches
// ---------------------------------------------------------------------------

/// The sentence from `copied` on, with each match's span replaced by its
/// replacement.
pub open spec fn spec_apply(s: Seq<char>, ms: Seq<MatchView>, copied: int) -> Seq<char>
    decreases ms.len(),
{
    if ms.len() == 0 {
        s.subrange(copied, s.len() as int)
    } else {
        s.subrange(copied, ms[0].start) + ms[0].replacement + spec_apply(s, ms.drop_first(), ms[0].end)
    }
}

/// Law: replacing each of a run of non-overlapping matches by the very
/// text it covers gives back the text from `copied` on unchanged: whatever
/// lies outside the matches is copied as it stands.
pub proof fn lemma_apply_own_text(s: Seq<char>, ms: Seq<MatchView>, copied: int)
    requires
        0 <= copied <= s.len(),
        well_placed(ms, copied, s.len() as int),
        forall|i: int| 0 <= i < ms.len() ==> (#[trigger] ms[i]).replacement == s.subrange(ms[i].start, ms[i].end),
    ensures
        spec_apply(s, ms, copied) == s.subrange(copied, s.len() as int),
    decreases ms.len(),
{
    if ms.len() > 0 {
        let m = ms[0];
        let r = ms.drop_first();
        assert(within(ms, copied, s.len() as int));
        assert(copied <= m.start <= m.end <= s.len());
        assert forall|i: int| 0 <= i < r.len() implies #[trigger] r[i].replacement == s.subrange(r[i].start, r[i].end) by {
            assert(r[i] == ms[i + 1]);
        }
        assert forall|i: int| 0 <= i < r.len() implies m.end <= #[trigger] r[i].start <= r[i].end <= s.len() by {
            assert(r[i] == ms[i + 1]);
            lemma_well_placed_ordered(ms, copied, s.len() as int, 0, i + 1);
        }
        assert forall|i: int| 0 <= i < r.len() - 1 implies (#[trigger] r[i]).end <= r[i + 1].start by {
            assert(r[i] == ms[i + 1]);
            assert(r[i + 1] == ms[i + 2]);
        }
        lemma_apply_own_text(s, r, m.end);
        assert(s.subrange(copied, s.len() as int) =~= s.subrange(copied, m.start) + s.subrange(m.start, m.end) + s.subrange(
            m.end,
            s.len() as int,
        ));
    }
}

/// Law: a single match is applied by putting its replacement in place of
/// the text it covers.
pub proof fn lemma_apply_single(s: Seq<char>, m: MatchView)
    requires
        0 <= m.start <= m.end <= s.len(),
    ensures
        spec_apply(s, seq![m], 0) == s.subrange(0, m.start) + m.replacement + s.subrange(m.end, s.len() as int),
{
    assert(seq![m].drop_first() =~= Seq::<MatchView>::empty());
    assert(seq![m][0] == m);
    assert(spec_apply(s, Seq::<MatchView>::empty(), m.end) == s.subrange(m.end, s.len() as int));
}

proof fn lemma_well_placed_ordered(ms: Seq<MatchView>, from: int, len: int, i: int, j: int)
    requires
        well_placed(ms, from, len),
        0 <= i < j < ms.len(),
    ensures
        ms[i].end <= ms[j].start,
    decreases j - i,
{
    assert(within(ms, from, len));
    if j > i + 1 {
        lemma_well_placed_ordered(ms, from, len, i, j - 1);
        assert(ms[j - 1].end <= ms[j].start);
        assert(ms[j - 1].start <= ms[j - 1].end);
    }
}

fn apply(sentence: &Vec<char>, matches: &Vec<Span>) -> (r: Vec<char>)
    requires
        well_placed(spans_view(matches@), 0, sentence@.len() as int),
    ensures
        r@ == spec_apply(sentence@, spans_view(matches@), 0),
{
    let ghost mv = spans_view(matches@);
    let mut rewritten: Vec<char> = Vec::new();
    let mut copied: usize = 0;
    let mut k: usize = 0;
    assert(mv.skip(0) =~= mv);
    assert(rewritten@ + spec_apply(sentence@, mv, 0) =~= spec_apply(sentence@, mv, 0));
    while k < matches.len()
        invariant
            0 <= k <= matches@.len(),
            mv == spans_view(matches@),
            well_placed(mv, 0, sentence@.len() as int),
            k == 0 ==> copied == 0,
            k > 0 ==> copied as int == mv[k - 1].end,
            copied <= sentence@.len(),
            rewritten@ + spec_apply(sentence@, mv.skip(k as int), copied as int) == spec_apply(sentence@, mv, 0),
        decreases matches@.len() - k,
    {
        let m = &matches[k];
        assert(mv[k as int] == m@);
        assert(copied <= m.start) by {
            if k > 0 {
                assert(mv[k - 1].end <= mv[k as int].start);
            }
        }
        assert(mv.skip(k as int)[0] == m@);
        assert(mv.skip(k as int).drop_first() =~= mv.skip(k + 1));
        let ghost before = rewritten@;
        let gap = slice_chars(sentence, copied, m.start);
        push_chars(&mut rewritten, &gap);
        let rep = chars_of_string(&m.replacement);
        push_chars(&mut rewritten, &rep);
        assert(before + (gap@ + rep@ + spec_apply(sentence@, mv.skip(k + 1), m.end as int))
            =~= rewritten@ + spec_apply(sentence@, mv.skip(k + 1), m.end as int));
        copied = m.end;
        k = k + 1;
    }
    let tail = slice_chars(sentence, copied, sentence.len());
    push_chars(&mut rewritten, &tail);
    assert(mv.skip(k as int) =~= Seq::<MatchView>::empty());
    rewritten
}

// ---------------------------------------------------------------------------
// Rewriting
// ---------------------------------------------------------------------------

/// Every match of every rule: the literal rules' matches, then the templates'.
pub open spec fn spec_candidates(s: Seq<char>, rules: CompiledRulesView) -> Seq<MatchView> {
    spec_literal_matches(s, rules.literals) + spec_template_matches(s, rules.templates)
}

/// The sentence rewritten: the chosen matches applied, the rest kept as it is.
pub open spec fn spec_rewrite(s: Seq<char>, rules: CompiledRulesView) -> Seq<char> {
    spec_apply(s, spec_select(spec_candidates(s, rules)), 0)
}

/// Rewrites a sentence with the compiled rules (whether or not the book
/// is enabled: that switch is for the caller).
pub fn rewrite(sentence: &str, rules: &CompiledRules) -> (r: String)
    requires
        compiled_well_formed(rules@),
    ensures
        r@ == spec_rewrite(sentence@, rules@),
{
    let s = chars_of(sentence);
    let mut literal_matches = literal_matches_in(&s, rules.literals.as_slice());
    let mut template_matches = template_matches_in(&s, rules.templates.as_slice());
    let ghost lv = spans_view(literal_matches@);
    let ghost tv = spans_view(template_matches@);
    literal_matches.append(&mut template_matches);
    let ghost all = spans_view(literal_matches@);
    assert(all =~= lv + tv);
    proof {
        lemma_literal_matches_within(s@, rules@.literals);
        lemma_templates_within(s@, rules@.templates);
        assert forall|i: int| 0 <= i < all.len() implies 0 <= #[trigger] all[i].start <= all[i].end <= s@.len() by {
            if i >= lv.len() {
                assert(all[i] == tv[i - lv.len()]);
                assert(tv[i - lv.len()].start <= tv[i - lv.len()].end);
            } else {
                assert(all[i] == lv[i]);
                assert(lv[i].start <= lv[i].end);
            }
        }
        assert forall|i: int| 0 <= i < literal_matches@.len() implies (#[trigger] literal_matches@[i]).start <= literal_matches@[i].end by {
            assert(all[i] == literal_matches@[i]@);
            assert(all[i].start <= all[i].end);
        }
    }
    let sorted_matches = select(literal_matches);
    proof {
        lemma_greedy_well_placed(all, 0, None, s@.len() as int);
    }
    string_of(apply(&s, &sorted_matches))
}

// ---------------------------------------------------------------------------
// Laws
// ---------------------------------------------------------------------------

/// `b` comes first in the order of choice among the candidates below `k`.
spec fn first_below(ms: Seq<MatchView>, cursor: int, last: Option<int>, k: int, b: int) -> bool {
    &&& 0 <= b < k
    &&& is_candidate(ms, cursor, last, b)
    &&& forall|x: int| 0 <= x < k && #[trigger] is_candidate(ms, cursor, last, x) ==> !key_before(ms, x, b)
}

proof fn lemma_min_upto(ms: Seq<MatchView>, cursor: int, last: Option<int>, k: int, c: int) -> (b: int)
    requires
        0 <= c < k <= ms.len(),
        is_candidate(ms, cursor, last, c),
    ensures
        first_below(ms, cursor, last, k, b),
    decreases k,
{
    let y = k - 1;
    if exists|x: int| 0 <= x < y && is_candidate(ms, cursor, last, x) {
        let x0 = choose|x: int| 0 <= x < y && is_candidate(ms, cursor, last, x);
        let b0 = lemma_min_upto(ms, cursor, last, y, x0);
        if is_candidate(ms, cursor, last, y) && key_before(ms, y, b0) {
            assert forall|x: int| 0 <= x < k && #[trigger] is_candidate(ms, cursor, last, x) implies !key_before(ms, x, y) by {
                if x < y && key_before(ms, x, y) {
                    lemma_key_before_transitive(ms, x, y, b0);
                }
            }
            y
        } else {
            assert forall|x: int| 0 <= x < k && #[trigger] is_candidate(ms, cursor, last, x) implies !key_before(ms, x, b0) by {
                if x < y {
                    assert(first_below(ms, cursor, last, y, b0));
                }
            }
            b0
        }
    } else {
        assert(c == y);
        assert forall|x: int| 0 <= x < k && #[trigger] is_candidate(ms, cursor, last, x) implies !key_before(ms, x, y) by {
            assert(x == y);
        }
        y
    }
}

/// Whenever some match may be chosen, one is.
proof fn lemma_next_exists(ms: Seq<MatchView>, cursor: int, last: Option<int>, c: int)
    requires
        is_candidate(ms, cursor, last, c),
    ensures
        spec_next(ms, cursor, last) is Some,
{
    let b = lemma_min_upto(ms, cursor, last, ms.len() as int, c);
    assert(is_next(ms, cursor, last, b));
}

proof fn lemma_greedy_covers(ms: Seq<MatchView>, cursor: int, last: Option<int>, c: int)
    requires
        is_candidate(ms, cursor, last, c),
        !spec_greedy(ms, cursor, last).contains(c),
    ensures
        exists|k: int|
            spec_greedy(ms, cursor, last).contains(k) && key_before(ms, k, c) && ms[c].start < #[trigger] ms[k].end,
    decreases choice_measure(ms, last),
{
    lemma_next_exists(ms, cursor, last, c);
    lemma_next_is_next(ms, cursor, last);
    let j = spec_next(ms, cursor, last)->0;
    lemma_choice_measure_decreases(ms, cursor, last, j);
    let rest = spec_greedy(ms, ms[j].end, Some(j));
    let all = spec_greedy(ms, cursor, last);
    assert(all == seq![j] + rest);
    assert(all[0] == j);
    assert(c != j);
    assert(key_before(ms, j, c) || key_before(ms, c, j));
    assert(key_before(ms, j, c));
    if ms[c].start < ms[j].end {
        assert(all.contains(j));
    } else {
        assert(is_candidate(ms, ms[j].end, Some(j), c));
        if rest.contains(c) {
            let i = choose|i: int| 0 <= i < rest.len() && rest[i] == c;
            assert(all[i + 1] == c);
        }
        lemma_greedy_covers(ms, ms[j].end, Some(j), c);
        let k = choose|k: int|
            rest.contains(k) && key_before(ms, k, c) && ms[c].start < #[trigger] ms[k].end;
        let i = choose|i: int| 0 <= i < rest.len() && rest[i] == k;
        assert(all[i + 1] == k);
    }
}

/// Law (leftmost-longest): a match of some rule that is not applied
/// starts inside an applied match that comes before it in the order of
/// choice, so starts no later than it and, when both start together, is at
/// least as long.
pub proof fn lemma_unapplied_match_overlaps_an_applied_one(s: Seq<char>, rules: CompiledRulesView, c: int)
    requires
        0 <= c < spec_candidates(s, rules).len(),
        !spec_greedy(spec_candidates(s, rules), 0, None).contains(c),
    ensures
        ({
            let ms = spec_candidates(s, rules);
            exists|k: int|
                spec_greedy(ms, 0, None).contains(k) && key_before(ms, k, c) && ms[c].start < #[trigger] ms[k].end
        }),
{
    let ms = spec_candidates(s, rules);
    let lv = spec_literal_matches(s, rules.literals);
    let tv = spec_template_matches(s, rules.templates);
    lemma_literal_matches_within(s, rules.literals);
    lemma_templates_within(s, rules.templates);
    if c >= lv.len() {
        assert(ms[c] == tv[c - lv.len()]);
        assert(0 <= tv[c - lv.len()].start);
    } else {
        assert(ms[c] == lv[c]);
        assert(0 <= lv[c].start);
    }
    lemma_greedy_covers(ms, 0, None, c);
}

/// Law: the applied matches lie in the sentence in order and do not
/// overlap.
pub proof fn lemma_chosen_matches_do_not_overlap(s: Seq<char>, rules: CompiledRulesView)
    ensures
        well_placed(spec_select(spec_candidates(s, rules)), 0, s.len() as int),
{
    let all = spec_candidates(s, rules);
    let lv = spec_literal_matches(s, rules.literals);
    let tv = spec_template_matches(s, rules.templates);
    lemma_literal_matches_within(s, rules.literals);
    lemma_templates_within(s, rules.templates);
    assert forall|i: int| 0 <= i < all.len() implies 0 <= #[trigger] all[i].start <= all[i].end <= s.len() by {
        if i >= lv.len() {
            assert(all[i] == tv[i - lv.len()]);
            assert(tv[i - lv.len()].start <= tv[i - lv.len()].end);
        } else {
            assert(all[i] == lv[i]);
            assert(lv[i].start <= lv[i].end);
        }
    }
    lemma_greedy_well_placed(all, 0, None, s.len() as int);
}

/// Law: where no rule matches, the sentence comes back unchanged.
pub proof fn lemma_no_match_no_change(s: Seq<char>, rules: CompiledRulesView)
    requires
        spec_candidates(s, rules).len() == 0,
    ensures
        spec_rewrite(s, rules) == s,
{
    let ms = spec_candidates(s, rules);
    assert(spec_next(ms, 0, None) is None) by {
        if exists|j: int| is_next(ms, 0, None, j) {
            let j = choose|j: int| is_next(ms, 0, None, j);
            assert(is_candidate(ms, 0, None, j));
        }
    }
    assert(spec_select(ms) =~= Seq::<MatchView>::empty());
    assert(s.subrange(0, s.len() as int) =~= s);
}

/// Law: every literal match stands on word boundaries at both ends.
pub proof fn lemma_literal_matches_on_word_boundaries(s: Seq<char>, rule: CompiledLiteralView, from: int)
    requires
        0 <= from,
    ensures
        forall|i: int| 0 <= i < spec_rule_matches(s, rule, from).len() ==> {
            let m = #[trigger] spec_rule_matches(s, rule, from)[i];
            &&& spec_leading_boundary(s, m.start)
            &&& spec_trailing_boundary(s, m.end)
            &&& m.end - m.start == rule.pattern.len()
            &&& s.subrange(m.start, m.end) == rule.pattern
        },
    decreases s.len() + 1 - from,
{
    let p = rule.pattern;
    let all = spec_rule_matches(s, rule, from);
    if p.len() == 0 {
        if from <= s.len() {
            lemma_literal_matches_on_word_boundaries(s, rule, from + 1);
            let rest = spec_rule_matches(s, rule, from + 1);
            assert forall|i: int| 0 <= i < all.len() implies {
                let m = #[trigger] all[i];
                &&& spec_leading_boundary(s, m.start)
                &&& spec_trailing_boundary(s, m.end)
                &&& m.end - m.start == rule.pattern.len()
                &&& s.subrange(m.start, m.end) == rule.pattern
            } by {
                if all.len() > rest.len() && i > 0 {
                    assert(all[i] == rest[i - 1]);
                } else if all.len() == rest.len() {
                    assert(all[i] == rest[i]);
                } else {
                    assert(s.subrange(from, from) =~= p);
                }
            }
        }
    } else {
        lemma_find_from(s, p, from);
        if let Some(j) = spec_find_from(s, p, from) {
            lemma_literal_matches_on_word_boundaries(s, rule, j + p.len());
            let rest = spec_rule_matches(s, rule, j + p.len());
            assert forall|i: int| 0 <= i < all.len() implies {
                let m = #[trigger] all[i];
                &&& spec_leading_boundary(s, m.start)
                &&& spec_trailing_boundary(s, m.end)
                &&& m.end - m.start == rule.pattern.len()
                &&& s.subrange(m.start, m.end) == rule.pattern
            } by {
                if all.len() > rest.len() && i > 0 {
                    assert(all[i] == rest[i - 1]);
                } else if all.len() == rest.len() {
                    assert(all[i] == rest[i]);
                }
            }
        }
    }
}

/// Law: every template match starts where the template's lead occurs at
/// the start of a word, and a template ending in a hole matches up to the
/// end of the sentence.
pub proof fn lemma_template_matches_start_at_lead(s: Seq<char>, t: CompiledTemplateView, from: int)
    requires
        0 <= from,
    ensures
        forall|i: int| 0 <= i < spec_template_matches_from(s, t, from).len() ==> {
            let m = #[trigger] spec_template_matches_from(s, t, from)[i];
            &&& spec_leading_boundary(s, m.start)
            &&& occurs_at(s, t.rule.lead, m.start)
            &&& t.rule.tail is Some ==> m.end == s.len()
            &&& m.rule_id == t.id
        },
    decreases s.len() + 1 - from,
{
    let lead = t.rule.lead;
    let all = spec_template_matches_from(s, t, from);
    if lead.len() == 0 {
        if from <= s.len() {
            lemma_template_matches_start_at_lead(s, t, from + 1);
            let rest = spec_template_matches_from(s, t, from + 1);
            assert forall|i: int| 0 <= i < all.len() implies {
                let m = #[trigger] all[i];
                &&& spec_leading_boundary(s, m.start)
                &&& occurs_at(s, t.rule.lead, m.start)
                &&& t.rule.tail is Some ==> m.end == s.len()
                &&& m.rule_id == t.id
            } by {
                if all.len() > rest.len() && i > 0 {
                    assert(all[i] == rest[i - 1]);
                } else if all.len() == rest.len() {
                    assert(all[i] == rest[i]);
                } else {
                    assert(s.subrange(from, from) =~= lead);
                }
            }
        }
    } else {
        lemma_find_from(s, lead, from);
        if let Some(j) = spec_find_from(s, lead, from) {
            lemma_template_matches_start_at_lead(s, t, j + lead.len());
            let rest = spec_template_matches_from(s, t, j + lead.len());
            assert forall|i: int| 0 <= i < all.len() implies {
                let m = #[trigger] all[i];
                &&& spec_leading_boundary(s, m.start)
                &&& occurs_at(s, t.rule.lead, m.start)
                &&& t.rule.tail is Some ==> m.end == s.len()
                &&& m.rule_id == t.id
            } by {
                if all.len() > rest.len() && i > 0 {
                    assert(all[i] == rest[i - 1]);
                } else if all.len() == rest.len() {
                    assert(all[i] == rest[i]);
                }
            }
        }
    }
}

// ---------------------------------------------------------------------------
// The order of the rules
// ---------------------------------------------------------------------------

proof fn lemma_literal_matches_concat(s: Seq<char>, a: Seq<CompiledLiteralView>, b: Seq<CompiledLiteralView>)
    ensures
        spec_literal_matches(s, a + b) == spec_literal_matches(s, a) + spec_literal_matches(s, b),
    decreases b.len(),
{
    if b.len() == 0 {
        assert(a + b =~= a);
        assert(spec_literal_matches(s, a) + Seq::<MatchView>::empty() =~= spec_literal_matches(s, a));
    } else {
        lemma_literal_matches_concat(s, a, b.drop_last());
        assert((a + b).drop_last() =~= a + b.drop_last());
        assert((a + b).last() == b.last());
        assert(spec_literal_matches(s, a) + spec_literal_matches(s, b.drop_last()) + spec_rule_matches(s, b.last(), 0)
            =~= spec_literal_matches(s, a) + (spec_literal_matches(s, b.drop_last()) + spec_rule_matches(s, b.last(), 0)));
    }
}

/// The literal rules' matches, counted with repetition, do not depend on
/// the order of the rules.
proof fn lemma_literal_matches_multiset(s: Seq<char>, l1: Seq<CompiledLiteralView>, l2: Seq<CompiledLiteralView>)
    requires
        l1.to_multiset() == l2.to_multiset(),
    ensures
        spec_literal_matches(s, l1).to_multiset() == spec_literal_matches(s, l2).to_multiset(),
    decreases l1.len(),
{
    broadcast use vstd::seq_lib::group_to_multiset_ensures, vstd::multiset::group_multiset_axioms;

    if l1.len() == 0 {
        assert(l1.to_multiset().len() == 0);
        assert(l2.to_multiset().len() == l2.len());
        assert(l2.len() == 0);
        assert(l1 =~= l2);
    } else {
        let x = l1.last();
        let l1p = l1.drop_last();
        assert(l1 =~= l1p.push(x));
        assert(l1.to_multiset().count(x) > 0);
        assert(l2.contains(x));
        let k = choose|k: int| 0 <= k < l2.len() && l2[k] == x;
        let l2p = l2.remove(k);
        assert(l2p.to_multiset() == l2.to_multiset().remove(x));
        assert(l1p.to_multiset() =~= l2p.to_multiset());
        lemma_literal_matches_multiset(s, l1p, l2p);
        let front = l2.take(k);
        let back = l2.skip(k + 1);
        assert(l2 =~= front + seq![x] + back);
        assert(l2p =~= front + back);
        lemma_literal_matches_concat(s, front + seq![x], back);
        lemma_literal_matches_concat(s, front, seq![x]);
        lemma_literal_matches_concat(s, front, back);
        assert(seq![x].drop_last() =~= Seq::<CompiledLiteralView>::empty());
        assert(seq![x].last() == x);
        assert(spec_literal_matches(s, seq![x].drop_last()) =~= Seq::<MatchView>::empty());
        assert(spec_literal_matches(s, seq![x]) =~= spec_rule_matches(s, x, 0));
        let mf = spec_literal_matches(s, front);
        let mx = spec_rule_matches(s, x, 0);
        let mb = spec_literal_matches(s, back);
        vstd::seq_lib::lemma_multiset_commutative(mf + mx, mb);
        vstd::seq_lib::lemma_multiset_commutative(mf, mx);
        vstd::seq_lib::lemma_multiset_commutative(mf, mb);
        vstd::seq_lib::lemma_multiset_commutative(spec_literal_matches(s, l1p), mx);
        assert(spec_literal_matches(s, l1) == spec_literal_matches(s, l1p) + mx);
        assert(spec_literal_matches(s, l1).to_multiset() =~= spec_literal_matches(s, l2).to_multiset());
    }
}

/// Match `a` comes before match `b` in the order of choice, judged by their spans.
pub open spec fn span_before(a: MatchView, b: MatchView) -> bool {
    a.start < b.start || (a.start == b.start && match_len(a) > match_len(b))
}

pub open spec fn span_of(m: MatchView) -> (int, int) {
    (m.start, m.end)
}

/// What applying a match depends on: its span and its replacement.
pub open spec fn applied(m: MatchView) -> (int, int, Seq<char>) {
    (m.start, m.end, m.replacement)
}

/// Matches that cover the same span carry the same replacement.
pub open spec fn same_span_same_replacement(ms: Seq<MatchView>) -> bool {
    forall|i: int, j: int|
        0 <= i < ms.len() && 0 <= j < ms.len() && span_of(#[trigger] ms[i]) == span_of(#[trigger] ms[j])
            ==> ms[i].replacement == ms[j].replacement
}

/// How many positions below `n` satisfy `p`.
pub open spec fn count_where(n: int, p: spec_fn(int) -> bool) -> nat
    decreases n,
{
    if n <= 0 {
        0
    } else {
        count_where(n - 1, p) + if p(n - 1) { 1nat } else { 0nat }
    }
}

proof fn lemma_count_ext(n: int, p: spec_fn(int) -> bool, q: spec_fn(int) -> bool)
    requires
        forall|x: int| 0 <= x < n ==> #[trigger] p(x) == q(x),
    ensures
        count_where(n, p) == count_where(n, q),
    decreases n,
{
    if n > 0 {
        lemma_count_ext(n - 1, p, q);
    }
}

proof fn lemma_count_positive(n: int, p: spec_fn(int) -> bool)
    ensures
        count_where(n, p) > 0 <==> exists|x: int| 0 <= x < n && #[trigger] p(x),
    decreases n,
{
    if n > 0 {
        lemma_count_positive(n - 1, p);
        if p(n - 1) {
            assert(0 <= n - 1 < n && p(n - 1));
        } else if exists|x: int| 0 <= x < n && #[trigger] p(x) {
            let x = choose|x: int| 0 <= x < n && #[trigger] p(x);
            assert(0 <= x < n - 1 && p(x));
        }
    }
}

spec fn without(p: spec_fn(int) -> bool, j: int) -> spec_fn(int) -> bool {
    |x: int| p(x) && x != j
}

proof fn lemma_count_without(n: int, p: spec_fn(int) -> bool, j: int)
    requires
        0 <= j < n,
    ensures
        count_where(n, without(p, j)) + (if p(j) { 1int } else { 0int }) == count_where(n, p),
    decreases n,
{
    if n - 1 == j {
        lemma_count_ext(n - 1, without(p, j), p);
    } else {
        lemma_count_without(n - 1, p, j);
    }
}

proof fn lemma_count_none(n: int, p: spec_fn(int) -> bool)
    requires
        forall|x: int| 0 <= x < n ==> !#[trigger] p(x),
    ensures
        count_where(n, p) == 0,
    decreases n,
{
    if n > 0 {
        lemma_count_none(n - 1, p);
    }
}

/// The candidates of the span `sp`.
spec fn cand_pred(ms: Seq<MatchView>, cursor: int, last: Option<int>, sp: (int, int)) -> spec_fn(int) -> bool {
    |x: int| is_candidate(ms, cursor, last, x) && span_of(ms[x]) == sp
}

spec fn cand_count(ms: Seq<MatchView>, cursor: int, last: Option<int>, sp: (int, int)) -> nat {
    count_where(ms.len() as int, cand_pred(ms, cursor, last, sp))
}

proof fn lemma_key_total(ms: Seq<MatchView>, a: int, b: int)
    requires
        a != b,
    ensures
        key_before(ms, a, b) || key_before(ms, b, a),
        !(key_before(ms, a, b) && key_before(ms, b, a)),
{
}

/// After choosing `j`, the candidates of each span are those that were
/// candidates before, other than `j`, and start at or after `j`'s end.
proof fn lemma_cand_count_after(ms: Seq<MatchView>, cursor: int, last: Option<int>, j: int, sp: (int, int))
    requires
        forall|i: int| 0 <= i < ms.len() ==> (#[trigger] ms[i]).start <= ms[i].end,
        is_next(ms, cursor, last, j),
    ensures
        cand_count(ms, ms[j].end, Some(j), sp) == if sp.0 >= ms[j].end {
            cand_count(ms, cursor, last, sp) - (if span_of(ms[j]) == sp { 1int } else { 0int })
        } else {
            0int
        },
{
    let n = ms.len() as int;
    let e = ms[j].end;
    let p = cand_pred(ms, cursor, last, sp);
    let q = cand_pred(ms, e, Some(j), sp);
    assert forall|x: int| 0 <= x < n implies #[trigger] q(x) == (sp.0 >= e && without(p, j)(x)) by {
        if q(x) {
            if let Some(l) = last {
                lemma_key_before_transitive(ms, l, j, x);
            }
            assert(x != j);
        }
        if sp.0 >= e && without(p, j)(x) {
            lemma_key_total(ms, x, j);
        }
    }
    if sp.0 >= e {
        lemma_count_ext(n, q, without(p, j));
        lemma_count_without(n, p, j);
    } else {
        lemma_count_none(n, q);
    }
}

/// `j` comes first in the order of choice among the candidates, so no
/// candidate's span comes before `j`'s.
proof fn lemma_next_span_first(ms: Seq<MatchView>, cursor: int, last: Option<int>, j: int, k: int)
    requires
        is_next(ms, cursor, last, j),
        is_candidate(ms, cursor, last, k),
    ensures
        !span_before(ms[k], ms[j]),
{
}

proof fn lemma_candidate_of_span(ms: Seq<MatchView>, cursor: int, last: Option<int>, sp: (int, int))
    requires
        cand_count(ms, cursor, last, sp) > 0,
    ensures
        exists|k: int| is_candidate(ms, cursor, last, k) && span_of(ms[k]) == sp,
{
    lemma_count_positive(ms.len() as int, cand_pred(ms, cursor, last, sp));
    let k = choose|k: int| 0 <= k < ms.len() && #[trigger] cand_pred(ms, cursor, last, sp)(k);
    assert(is_candidate(ms, cursor, last, k) && span_of(ms[k]) == sp);
}

proof fn lemma_count_of_candidate(ms: Seq<MatchView>, cursor: int, last: Option<int>, k: int)
    requires
        is_candidate(ms, cursor, last, k),
    ensures
        cand_count(ms, cursor, last, span_of(ms[k])) > 0,
{
    lemma_count_positive(ms.len() as int, cand_pred(ms, cursor, last, span_of(ms[k])));
    assert(cand_pred(ms, cursor, last, span_of(ms[k]))(k));
}

/// Two lists of matches whose candidates agree span by span, and whose
/// matches of one span carry one replacement, apply the same choices.
proof fn lemma_greedy_by_counts(
    m1: Seq<MatchView>,
    m2: Seq<MatchView>,
    cursor: int,
    l1: Option<int>,
    l2: Option<int>,
)
    requires
        forall|i: int| 0 <= i < m1.len() ==> (#[trigger] m1[i]).start <= m1[i].end,
        forall|i: int| 0 <= i < m2.len() ==> (#[trigger] m2[i]).start <= m2[i].end,
        forall|x: int, y: int|
            0 <= x < m1.len() && 0 <= y < m2.len() && span_of(#[trigger] m1[x]) == span_of(#[trigger] m2[y])
                ==> m1[x].replacement == m2[y].replacement,
        forall|sp: (int, int)| cand_count(m1, cursor, l1, sp) == cand_count(m2, cursor, l2, sp),
    ensures
        spec_greedy(m1, cursor, l1).map_values(|i: int| applied(m1[i])) == spec_greedy(m2, cursor, l2).map_values(
            |i: int| applied(m2[i]),
        ),
    decreases choice_measure(m1, l1),
{
    lemma_next_is_next(m1, cursor, l1);
    lemma_next_is_next(m2, cursor, l2);
    match spec_next(m1, cursor, l1) {
        Some(j1) => {
            lemma_count_of_candidate(m1, cursor, l1, j1);
            assert(cand_count(m2, cursor, l2, span_of(m1[j1])) > 0);
            lemma_candidate_of_span(m2, cursor, l2, span_of(m1[j1]));
            let k2 = choose|k: int| is_candidate(m2, cursor, l2, k) && span_of(m2[k]) == span_of(m1[j1]);
            lemma_next_exists(m2, cursor, l2, k2);
            let j2 = spec_next(m2, cursor, l2)->0;
            lemma_next_span_first(m2, cursor, l2, j2, k2);
            lemma_count_of_candidate(m2, cursor, l2, j2);
            assert(cand_count(m1, cursor, l1, span_of(m2[j2])) > 0);
            lemma_candidate_of_span(m1, cursor, l1, span_of(m2[j2]));
            let k1 = choose|k: int| is_candidate(m1, cursor, l1, k) && span_of(m1[k]) == span_of(m2[j2]);
            lemma_next_span_first(m1, cursor, l1, j1, k1);
            assert(span_of(m1[j1]) == span_of(m2[j2]));
            let e = m1[j1].end;
            assert forall|sp: (int, int)| cand_count(m1, e, Some(j1), sp) == cand_count(m2, e, Some(j2), sp) by {
                lemma_cand_count_after(m1, cursor, l1, j1, sp);
                lemma_cand_count_after(m2, cursor, l2, j2, sp);
            }
            lemma_choice_measure_decreases(m1, cursor, l1, j1);
            lemma_greedy_by_counts(m1, m2, e, Some(j1), Some(j2));
            let r1 = spec_greedy(m1, e, Some(j1));
            let r2 = spec_greedy(m2, e, Some(j2));
            assert(spec_greedy(m1, cursor, l1) == seq![j1] + r1);
            assert(spec_greedy(m2, cursor, l2) == seq![j2] + r2);
            assert(applied(m1[j1]) == applied(m2[j2]));
            assert(spec_greedy(m1, cursor, l1).map_values(|i: int| applied(m1[i])) =~= seq![applied(m1[j1])]
                + r1.map_values(|i: int| applied(m1[i])));
            assert(spec_greedy(m2, cursor, l2).map_values(|i: int| applied(m2[i])) =~= seq![applied(m2[j2])]
                + r2.map_values(|i: int| applied(m2[i])));
        },
        None => {
            if let Some(j2) = spec_next(m2, cursor, l2) {
                lemma_count_of_candidate(m2, cursor, l2, j2);
                assert(cand_count(m1, cursor, l1, span_of(m2[j2])) > 0);
                lemma_candidate_of_span(m1, cursor, l1, span_of(m2[j2]));
                let k1 = choose|k: int| is_candidate(m1, cursor, l1, k) && span_of(m1[k]) == span_of(m2[j2]);
                lemma_next_exists(m1, cursor, l1, k1);
            }
        },
    }
}

proof fn lemma_template_matches_concat(s: Seq<char>, a: Seq<CompiledTemplateView>, b: Seq<CompiledTemplateView>)
    ensures
        spec_template_matches(s, a + b) == spec_template_matches(s, a) + spec_template_matches(s, b),
    decreases b.len(),
{
    if b.len() == 0 {
        assert(a + b =~= a);
        assert(spec_template_matches(s, a) + Seq::<MatchView>::empty() =~= spec_template_matches(s, a));
    } else {
        lemma_template_matches_concat(s, a, b.drop_last());
        assert((a + b).drop_last() =~= a + b.drop_last());
        assert((a + b).last() == b.last());
        assert(spec_template_matches(s, a) + spec_template_matches(s, b.drop_last()) + spec_template_matches_from(s, b.last(), 0)
            =~= spec_template_matches(s, a) + (spec_template_matches(s, b.drop_last()) + spec_template_matches_from(s, b.last(), 0)));
    }
}

/// The templates' matches, counted with repetition, do not depend on the
/// order of the templates.
proof fn lemma_template_matches_multiset(s: Seq<char>, l1: Seq<CompiledTemplateView>, l2: Seq<CompiledTemplateView>)
    requires
        l1.to_multiset() == l2.to_multiset(),
    ensures
        spec_template_matches(s, l1).to_multiset() == spec_template_matches(s, l2).to_multiset(),
    decreases l1.len(),
{
    broadcast use vstd::seq_lib::group_to_multiset_ensures, vstd::multiset::group_multiset_axioms;

    if l1.len() == 0 {
        assert(l1.to_multiset().len() == 0);
        assert(l2.to_multiset().len() == l2.len());
        assert(l2.len() == 0);
        assert(l1 =~= l2);
    } else {
        let x = l1.last();
        let l1p = l1.drop_last();
        assert(l1 =~= l1p.push(x));
        assert(l1.to_multiset().count(x) > 0);
        assert(l2.contains(x));
        let k = choose|k: int| 0 <= k < l2.len() && l2[k] == x;
        let l2p = l2.remove(k);
        assert(l2p.to_multiset() == l2.to_multiset().remove(x));
        assert(l1p.to_multiset() =~= l2p.to_multiset());
        lemma_template_matches_multiset(s, l1p, l2p);
        let front = l2.take(k);
        let back = l2.skip(k + 1);
        assert(l2 =~= front + seq![x] + back);
        assert(l2p =~= front + back);
        lemma_template_matches_concat(s, front + seq![x], back);
        lemma_template_matches_concat(s, front, seq![x]);
        lemma_template_matches_concat(s, front, back);
        assert(seq![x].last() == x);
        assert(spec_template_matches(s, seq![x].drop_last()) =~= Seq::<MatchView>::empty());
        assert(spec_template_matches(s, seq![x]) =~= spec_template_matches_from(s, x, 0));
        let mf = spec_template_matches(s, front);
        let mx = spec_template_matches_from(s, x, 0);
        let mb = spec_template_matches(s, back);
        vstd::seq_lib::lemma_multiset_commutative(mf + mx, mb);
        vstd::seq_lib::lemma_multiset_commutative(mf, mx);
        vstd::seq_lib::lemma_multiset_commutative(mf, mb);
        vstd::seq_lib::lemma_multiset_commutative(spec_template_matches(s, l1p), mx);
        assert(spec_template_matches(s, l1) == spec_template_matches(s, l1p) + mx);
        assert(spec_template_matches(s, l1).to_multiset() =~= spec_template_matches(s, l2).to_multiset());
    }
}

/// How many matches of `ms` satisfy `q`.
pub open spec fn seq_count(ms: Seq<MatchView>, q: spec_fn(MatchView) -> bool) -> nat
    decreases ms.len(),
{
    if ms.len() == 0 {
        0
    } else {
        seq_count(ms.drop_last(), q) + if q(ms.last()) { 1nat } else { 0nat }
    }
}

spec fn at_pred(ms: Seq<MatchView>, q: spec_fn(MatchView) -> bool) -> spec_fn(int) -> bool {
    |x: int| q(ms[x])
}

spec fn span_is(sp: (int, int)) -> spec_fn(MatchView) -> bool {
    |v: MatchView| span_of(v) == sp
}

proof fn lemma_seq_count_positions(ms: Seq<MatchView>, q: spec_fn(MatchView) -> bool)
    ensures
        count_where(ms.len() as int, at_pred(ms, q)) == seq_count(ms, q),
    decreases ms.len(),
{
    if ms.len() > 0 {
        let n = ms.len() as int;
        lemma_seq_count_positions(ms.drop_last(), q);
        assert forall|x: int| 0 <= x < n - 1 implies #[trigger] at_pred(ms, q)(x) == at_pred(ms.drop_last(), q)(x) by {
            assert(ms[x] == ms.drop_last()[x]);
        }
        lemma_count_ext(n - 1, at_pred(ms, q), at_pred(ms.drop_last(), q));
    }
}

proof fn lemma_seq_count_concat(a: Seq<MatchView>, b: Seq<MatchView>, q: spec_fn(MatchView) -> bool)
    ensures
        seq_count(a + b, q) == seq_count(a, q) + seq_count(b, q),
    decreases b.len(),
{
    if b.len() == 0 {
        assert(a + b =~= a);
    } else {
        lemma_seq_count_concat(a, b.drop_last(), q);
        assert((a + b).drop_last() =~= a + b.drop_last());
        assert((a + b).last() == b.last());
    }
}

proof fn lemma_seq_count_multiset(m1: Seq<MatchView>, m2: Seq<MatchView>, q: spec_fn(MatchView) -> bool)
    requires
        m1.to_multiset() == m2.to_multiset(),
    ensures
        seq_count(m1, q) == seq_count(m2, q),
    decreases m1.len(),
{
    broadcast use vstd::seq_lib::group_to_multiset_ensures, vstd::multiset::group_multiset_axioms;

    if m1.len() == 0 {
        assert(m1.to_multiset().len() == 0);
        assert(m2.to_multiset().len() == m2.len());
        assert(m2.len() == 0);
        assert(m1 =~= m2);
    } else {
        let x = m1.last();
        let m1p = m1.drop_last();
        assert(m1 =~= m1p.push(x));
        assert(m1.to_multiset().count(x) > 0);
        assert(m2.contains(x));
        let k = choose|k: int| 0 <= k < m2.len() && m2[k] == x;
        let m2p = m2.remove(k);
        assert(m2p.to_multiset() == m2.to_multiset().remove(x));
        assert(m1p.to_multiset() =~= m2p.to_multiset());
        lemma_seq_count_multiset(m1p, m2p, q);
        let front = m2.take(k);
        let back = m2.skip(k + 1);
        assert(m2 =~= front + seq![x] + back);
        assert(m2p =~= front + back);
        lemma_seq_count_concat(front + seq![x], back, q);
        lemma_seq_count_concat(front, seq![x], q);
        lemma_seq_count_concat(front, back, q);
        assert(seq![x].drop_last() =~= Seq::<MatchView>::empty());
        assert(seq![x].last() == x);
        let c = if q(x) { 1nat } else { 0nat };
        assert(seq_count(seq![x].drop_last(), q) == 0);
        assert(seq_count(seq![x], q) == c);
        assert(m1.drop_last() == m1p && m1.last() == x);
        assert(seq_count(m1, q) == seq_count(m1p, q) + c);
        assert(seq_count(m2, q) == seq_count(front, q) + c + seq_count(back, q));
        assert(seq_count(m2p, q) == seq_count(front, q) + seq_count(back, q));
    }
}

/// With every match starting at or after 0, the first candidates of a span
/// are all the matches of that span.
proof fn lemma_initial_counts(ms: Seq<MatchView>, sp: (int, int))
    requires
        forall|i: int| 0 <= i < ms.len() ==> 0 <= #[trigger] ms[i].start,
    ensures
        cand_count(ms, 0, None, sp) == seq_count(ms, span_is(sp)),
{
    let n = ms.len() as int;
    assert forall|x: int| 0 <= x < n implies #[trigger] cand_pred(ms, 0, None, sp)(x) == at_pred(ms, span_is(sp))(x) by {}
    lemma_count_ext(n, cand_pred(ms, 0, None, sp), at_pred(ms, span_is(sp)));
    lemma_seq_count_positions(ms, span_is(sp));
}

proof fn lemma_apply_by_applied(s: Seq<char>, a: Seq<MatchView>, b: Seq<MatchView>, copied: int)
    requires
        a.map_values(|m: MatchView| applied(m)) == b.map_values(|m: MatchView| applied(m)),
    ensures
        spec_apply(s, a, copied) == spec_apply(s, b, copied),
    decreases a.len(),
{
    let pa = a.map_values(|m: MatchView| applied(m));
    let pb = b.map_values(|m: MatchView| applied(m));
    assert(a.len() == pa.len() && b.len() == pb.len());
    if a.len() > 0 {
        assert(pa[0] == applied(a[0]));
        assert(pb[0] == applied(b[0]));
        let a1 = a.drop_first();
        let b1 = b.drop_first();
        assert forall|i: int| 0 <= i < a1.len() implies #[trigger] applied(a1[i]) == applied(b1[i]) by {
            assert(pa[i + 1] == applied(a[i + 1]));
            assert(pb[i + 1] == applied(b[i + 1]));
        }
        assert(a1.map_values(|m: MatchView| applied(m)) =~= b1.map_values(|m: MatchView| applied(m)));
        lemma_apply_by_applied(s, a1, b1, a[0].end);
    }
}

/// Law: the order of the literal rules and of the templates does not
/// matter, as long as matches that cover the same span carry the same
/// replacement (the order only breaks ties between such matches).
pub proof fn lemma_rule_order_does_not_matter(
    s: Seq<char>,
    rules: CompiledRulesView,
    literals: Seq<CompiledLiteralView>,
    templates: Seq<CompiledTemplateView>,
)
    requires
        literals.to_multiset() == rules.literals.to_multiset(),
        templates.to_multiset() == rules.templates.to_multiset(),
        same_span_same_replacement(spec_candidates(s, rules)),
    ensures
        spec_rewrite(s, CompiledRulesView { literals, templates, enabled: rules.enabled }) == spec_rewrite(s, rules),
{
    broadcast use vstd::seq_lib::group_to_multiset_ensures;

    let other = CompiledRulesView { literals, templates, enabled: rules.enabled };
    let m1 = spec_candidates(s, rules);
    let m2 = spec_candidates(s, other);
    lemma_literal_matches_multiset(s, rules.literals, literals);
    lemma_template_matches_multiset(s, rules.templates, templates);
    let l1 = spec_literal_matches(s, rules.literals);
    let t1 = spec_template_matches(s, rules.templates);
    let l2 = spec_literal_matches(s, literals);
    let t2 = spec_template_matches(s, templates);
    vstd::seq_lib::lemma_multiset_commutative(l1, t1);
    vstd::seq_lib::lemma_multiset_commutative(l2, t2);
    assert(m1.to_multiset() == m2.to_multiset());
    lemma_literal_matches_within(s, rules.literals);
    lemma_templates_within(s, rules.templates);
    lemma_literal_matches_within(s, literals);
    lemma_templates_within(s, templates);
    assert forall|i: int| 0 <= i < m1.len() implies 0 <= #[trigger] m1[i].start <= m1[i].end by {
        if i < l1.len() {
            assert(m1[i] == l1[i]);
        } else {
            assert(m1[i] == t1[i - l1.len()]);
        }
    }
    assert forall|i: int| 0 <= i < m2.len() implies 0 <= #[trigger] m2[i].start <= m2[i].end by {
        if i < l2.len() {
            assert(m2[i] == l2[i]);
        } else {
            assert(m2[i] == t2[i - l2.len()]);
        }
    }
    assert forall|x: int, y: int|
        0 <= x < m1.len() && 0 <= y < m2.len() && span_of(#[trigger] m1[x]) == span_of(#[trigger] m2[y])
        implies m1[x].replacement == m2[y].replacement by {
        assert(m2.contains(m2[y]));
        assert(m1.to_multiset().count(m2[y]) > 0);
        let z = choose|z: int| 0 <= z < m1.len() && m1[z] == m2[y];
        assert(span_of(m1[x]) == span_of(m1[z]));
    }
    assert forall|sp: (int, int)| cand_count(m1, 0, None, sp) == cand_count(m2, 0, None, sp) by {
        lemma_initial_counts(m1, sp);
        lemma_initial_counts(m2, sp);
        lemma_seq_count_multiset(m1, m2, span_is(sp));
    }
    lemma_greedy_by_counts(m1, m2, 0, None, None);
    let g1 = spec_greedy(m1, 0, None);
    let g2 = spec_greedy(m2, 0, None);
    assert(spec_select(m1).map_values(|m: MatchView| applied(m)) =~= g1.map_values(|i: int| applied(m1[i])));
    assert(spec_select(m2).map_values(|m: MatchView| applied(m)) =~= g2.map_values(|i: int| applied(m2[i])));
    lemma_apply_by_applied(s, spec_select(m2), spec_select(m1), 0);
}

// ---------------------------------------------------------------------------
// Byte positions
// ---------------------------------------------------------------------------

fn to_byte_positions(sentence: &str, spans: &Vec<Span>) -> (r: Vec<Match>)
    requires
        within(spans_view(spans@), 0, sentence@.len() as int),
    ensures
        matches_view(r@) == spans_view(spans@).map_values(|m: MatchView| in_bytes(sentence@, m)),
{
    let ghost sv = spans_view(spans@);
    let mut out: Vec<Match> = Vec::new();
    let mut k: usize = 0;
    while k < spans.len()
        invariant
            0 <= k <= spans@.len(),
            sv == spans_view(spans@),
            within(sv, 0, sentence@.len() as int),
            matches_view(out@) == sv.take(k as int).map_values(|m: MatchView| in_bytes(sentence@, m)),
        decreases spans@.len() - k,
    {
        let sp = &spans[k];
        assert(sv[k as int] == sp@);
        assert(0 <= sv[k as int].start <= sv[k as int].end <= sentence@.len());
        let before = sentence.substring_char(0, sp.start);
        let upto = sentence.substring_char(0, sp.end);
        assert(before@ =~= sentence@.take(sp.start as int));
        assert(upto@ =~= sentence@.take(sp.end as int));
        let ghost old_out = matches_view(out@);
        out.push(Match {
            start: before.len(),
            end: upto.len(),
            rule_id: copy_string(&sp.rule_id),
            replacement: copy_string(&sp.replacement),
        });
        assert(matches_view(out@) =~= old_out.push(in_bytes(sentence@, sv[k as int])));
        k = k + 1;
        assert(sv.take(k as int) =~= sv.take(k - 1).push(sv[k - 1]));
        assert(sv.take(k as int).map_values(|m: MatchView| in_bytes(sentence@, m)) =~= sv.take(k - 1).map_values(
            |m: MatchView| in_bytes(sentence@, m),
        ).push(in_bytes(sentence@, sv[k - 1])));
    }
    assert(sv.take(k as int) =~= sv);
    out
}

// ---------------------------------------------------------------------------
// Choosing twice
// ---------------------------------------------------------------------------

/// The chosen positions come in the order of choice, each after the last
/// choice, each starting at or after the cursor and where the previous one ends.
pub open spec fn greedy_chain(ms: Seq<MatchView>, cursor: int, last: Option<int>, r: Seq<int>) -> bool {
    &&& forall|i: int| 0 <= i < r.len() ==> 0 <= #[trigger] r[i] < ms.len() && ms[r[i]].start >= cursor
    &&& forall|i: int| 0 <= i < r.len() ==> (last matches Some(l) ==> key_before(ms, l, #[trigger] r[i]))
    &&& forall|i: int, j: int| 0 <= i < j < r.len() ==> key_before(ms, #[trigger] r[i], #[trigger] r[j])
    &&& forall|i: int| 0 <= i < r.len() - 1 ==> ms[#[trigger] r[i]].end <= ms[r[i + 1]].start
}

proof fn lemma_greedy_chain(ms: Seq<MatchView>, cursor: int, last: Option<int>)
    requires
        forall|i: int| 0 <= i < ms.len() ==> (#[trigger] ms[i]).start <= ms[i].end,
    ensures
        greedy_chain(ms, cursor, last, spec_greedy(ms, cursor, last)),
    decreases choice_measure(ms, last),
{
    lemma_next_is_next(ms, cursor, last);
    if let Some(j) = spec_next(ms, cursor, last) {
        lemma_choice_measure_decreases(ms, cursor, last, j);
        lemma_greedy_chain(ms, ms[j].end, Some(j));
        let rest = spec_greedy(ms, ms[j].end, Some(j));
        let r = spec_greedy(ms, cursor, last);
        assert(r == seq![j] + rest);
        assert forall|i: int| 0 <= i < r.len() implies 0 <= #[trigger] r[i] < ms.len() && ms[r[i]].start >= cursor by {
            if i > 0 {
                assert(r[i] == rest[i - 1]);
            }
        }
        assert forall|i: int| 0 <= i < r.len() implies (last matches Some(l) ==> key_before(ms, l, #[trigger] r[i])) by {
            if i > 0 {
                assert(r[i] == rest[i - 1]);
                if let Some(l) = last {
                    lemma_key_before_transitive(ms, l, j, rest[i - 1]);
                }
            }
        }
        assert forall|a: int, b: int| 0 <= a < b < r.len() implies key_before(ms, #[trigger] r[a], #[trigger] r[b]) by {
            assert(r[b] == rest[b - 1]);
            if a > 0 {
                assert(r[a] == rest[a - 1]);
            }
        }
        assert forall|i: int| 0 <= i < r.len() - 1 implies ms[#[trigger] r[i]].end <= ms[r[i + 1]].start by {
            assert(r[i + 1] == rest[i]);
            if i > 0 {
                assert(r[i] == rest[i - 1]);
            }
        }
    }
}

/// In `sel` the order of choice is the order of positions.
spec fn choice_is_position_order(sel: Seq<MatchView>) -> bool {
    forall|i: int, j: int| 0 <= i < sel.len() && 0 <= j < sel.len() ==> (key_before(sel, i, j) <==> i < j)
}

proof fn lemma_greedy_identity(sel: Seq<MatchView>, k: int)
    requires
        0 <= k <= sel.len(),
        choice_is_position_order(sel),
        forall|i: int| 0 <= i < sel.len() ==> 0 <= #[trigger] sel[i].start,
        forall|i: int| 0 <= i < sel.len() - 1 ==> (#[trigger] sel[i]).end <= sel[i + 1].start,
    ensures
        ({
            let cursor = if k == 0 { 0 } else { sel[k - 1].end };
            let last = if k == 0 { None } else { Some(k - 1) };
            spec_greedy(sel, cursor, last) == Seq::new((sel.len() - k) as nat, |i: int| i + k)
        }),
    decreases sel.len() - k,
{
    let cursor = if k == 0 { 0 } else { sel[k - 1].end };
    let last: Option<int> = if k == 0 { None } else { Some(k - 1) };
    if k < sel.len() {
        assert(is_candidate(sel, cursor, last, k));
        assert forall|x: int| #[trigger] is_candidate(sel, cursor, last, x) implies !key_before(sel, x, k) by {
            if k > 0 {
                assert(key_before(sel, k - 1, x));
            }
        }
        lemma_next_unique(sel, cursor, last, k);
        lemma_greedy_identity(sel, k + 1);
        assert(spec_greedy(sel, cursor, last) =~= Seq::new((sel.len() - k) as nat, |i: int| i + k));
    } else {
        if exists|j: int| is_next(sel, cursor, last, j) {
            let j = choose|j: int| is_next(sel, cursor, last, j);
            if k > 0 {
                assert(key_before(sel, k - 1, j));
            }
        }
        assert(spec_greedy(sel, cursor, last) =~= Seq::<int>::empty());
    }
}

/// Law: choosing again among the matches already chosen keeps them all, in
/// the same order.
pub proof fn lemma_select_idempotent(ms: Seq<MatchView>)
    requires
        forall|i: int| 0 <= i < ms.len() ==> 0 <= #[trigger] ms[i].start <= ms[i].end,
    ensures
        spec_select(spec_select(ms)) == spec_select(ms),
{
    let r = spec_greedy(ms, 0, None);
    let sel = spec_select(ms);
    lemma_greedy_chain(ms, 0, None);
    assert forall|i: int, j: int| 0 <= i < sel.len() && 0 <= j < sel.len() implies (key_before(sel, i, j) <==> i < j) by {
        assert(sel[i] == ms[r[i]]);
        assert(sel[j] == ms[r[j]]);
        if i < j {
            assert(key_before(ms, r[i], r[j]));
        } else if j < i {
            assert(key_before(ms, r[j], r[i]));
        }
    }
    assert forall|i: int| 0 <= i < sel.len() - 1 implies (#[trigger] sel[i]).end <= sel[i + 1].start by {
        assert(sel[i] == ms[r[i]]);
        assert(sel[i + 1] == ms[r[i + 1]]);
    }
    assert forall|i: int| 0 <= i < sel.len() implies 0 <= #[trigger] sel[i].start by {
        assert(sel[i] == ms[r[i]]);
    }
    lemma_greedy_identity(sel, 0);
    assert(spec_select(sel) =~= sel);
}

} // verus!
