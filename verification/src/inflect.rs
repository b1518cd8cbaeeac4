//! Regular English inflection of verbs and nouns, with a small table of
//! irregular verbs.
use vstd::prelude::*;
use crate::text::{chars_eq_str, chars_of, ends_with, has_suffix, push_str, slice_chars, string_of};

verus! {

broadcast use vstd::string::group_string_axioms;

/// The five forms of an English verb.
pub struct VerbForms {
    pub base: String,
    pub third_person: String,
    pub past: String,
    pub past_participle: String,
    pub present_participle: String,
}

/// The forms of a verb as character sequences.
pub struct VerbFormsView {
    pub base: Seq<char>,
    pub third_person: Seq<char>,
    pub past: Seq<char>,
    pub past_participle: Seq<char>,
    pub present_participle: Seq<char>,
}

impl View for VerbForms {
    type V = VerbFormsView;

    open spec fn view(&self) -> VerbFormsView {
        VerbFormsView {
            base: self.base@,
            third_person: self.third_person@,
            past: self.past@,
            past_participle: self.past_participle@,
            present_participle: self.present_participle@,
        }
    }
}

/// The singular and plural of an English noun.
pub struct NounForms {
    pub singular: String,
    pub plural: String,
}

// ---------------------------------------------------------------------------
// Specification
// ---------------------------------------------------------------------------

pub open spec fn spec_is_vowel(c: char) -> bool {
    c == 'a' || c == 'e' || c == 'i' || c == 'o' || c == 'u'
}

/// The word ends in `y` after a letter that is not a vowel (`carry`, `try`).
pub open spec fn spec_ends_in_consonant_then_y(s: Seq<char>) -> bool {
    s.len() >= 2 && s[s.len() - 1] == 'y' && !spec_is_vowel(s[s.len() - 2])
}

/// Consonant-vowel-consonant ending, where the final consonant is not
/// `w`, `x` or `y`: the final consonant doubles before `-ed` and `-ing`.
pub open spec fn spec_doubles(s: Seq<char>) -> bool {
    s.len() >= 3 && {
        let last = s[s.len() - 1];
        let mid = s[s.len() - 2];
        let first = s[s.len() - 3];
        &&& !spec_is_vowel(last)
        &&& last != 'w' && last != 'x' && last != 'y'
        &&& spec_is_vowel(mid)
        &&& !spec_is_vowel(first)
    }
}

/// The sibilant (and `-o`) endings that take `-es`.
pub open spec fn spec_takes_es(s: Seq<char>) -> bool {
    ||| has_suffix(s, "o"@)
    ||| has_suffix(s, "s"@)
    ||| has_suffix(s, "x"@)
    ||| has_suffix(s, "z"@)
    ||| has_suffix(s, "ch"@)
    ||| has_suffix(s, "sh"@)
}

/// `-s` form: `go → goes`, `carry → carries`, `use → uses`.
pub open spec fn spec_third_person(s: Seq<char>) -> Seq<char> {
    if spec_takes_es(s) {
        s + "es"@
    } else if spec_ends_in_consonant_then_y(s) {
        s.drop_last() + "ies"@
    } else {
        s + "s"@
    }
}

/// `-ed` form: `use → used`, `carry → carried`, `stop → stopped`, `walk → walked`.
pub open spec fn spec_past(s: Seq<char>) -> Seq<char> {
    if has_suffix(s, "e"@) {
        s + "d"@
    } else if spec_ends_in_consonant_then_y(s) {
        s.drop_last() + "ied"@
    } else if spec_doubles(s) {
        s + seq![s[s.len() - 1]] + "ed"@
    } else {
        s + "ed"@
    }
}

/// `-ing` form: `die → dying`, `see → seeing`, `use → using`, `stop → stopping`.
pub open spec fn spec_present_participle(s: Seq<char>) -> Seq<char> {
    if has_suffix(s, "ie"@) {
        s.subrange(0, s.len() - 2) + "ying"@
    } else if has_suffix(s, "ee"@) || has_suffix(s, "ye"@) || has_suffix(s, "oe"@) {
        s + "ing"@
    } else if has_suffix(s, "e"@) {
        s.drop_last() + "ing"@
    } else if spec_doubles(s) {
        s + seq![s[s.len() - 1]] + "ing"@
    } else {
        s + "ing"@
    }
}

/// The verbs whose forms are listed rather than derived, with their
/// third-person, past, past-participle and present-participle forms.
pub open spec fn spec_irregular(base: Seq<char>) -> Option<(Seq<char>, Seq<char>, Seq<char>, Seq<char>)> {
    if base == "be"@ {
        Some(("is"@, "was"@, "been"@, "being"@))
    } else if base == "have"@ {
        Some(("has"@, "had"@, "had"@, "having"@))
    } else if base == "run"@ {
        Some(("runs"@, "ran"@, "run"@, "running"@))
    } else {
        None
    }
}

/// All forms of the verb `base`.
pub open spec fn spec_verb_forms(base: Seq<char>) -> VerbFormsView {
    match spec_irregular(base) {
        Some((third, past, pp, ing)) => VerbFormsView {
            base,
            third_person: third,
            past,
            past_participle: pp,
            present_participle: ing,
        },
        None => VerbFormsView {
            base,
            third_person: spec_third_person(base),
            past: spec_past(base),
            past_participle: spec_past(base),
            present_participle: spec_present_participle(base),
        },
    }
}

/// The plural of a noun. This rule is the library's own choice: noun
/// lemmas take their plural by the spelling rule of the verb's `-s` form
/// (`box → boxes`, `city → cities`, `tool → tools`), with no table of
/// irregular nouns.
pub open spec fn spec_plural(s: Seq<char>) -> Seq<char> {
    spec_third_person(s)
}

// ---------------------------------------------------------------------------
// Implementation
// ---------------------------------------------------------------------------

fn irregular(base: &Vec<char>) -> (r: Option<VerbForms>)
    ensures
        r is Some <==> spec_irregular(base@) is Some,
        r matches Some(f) ==> f@ == spec_verb_forms(base@),
{
    let (third, past, pp, ing) = if chars_eq_str(base, "be") {
        ("is", "was", "been", "being")
    } else if chars_eq_str(base, "have") {
        ("has", "had", "had", "having")
    } else if chars_eq_str(base, "run") {
        ("runs", "ran", "run", "running")
    } else {
        return None;
    };
    Some(VerbForms {
        base: string_of(base.clone()),
        third_person: third.to_string(),
        past: past.to_string(),
        past_participle: pp.to_string(),
        present_participle: ing.to_string(),
    })
}

fn is_vowel(letter: char) -> (r: bool)
    ensures
        r == spec_is_vowel(letter),
{
    letter == 'a' || letter == 'e' || letter == 'i' || letter == 'o' || letter == 'u'
}

fn is_consonant(letter: char) -> (r: bool)
    ensures
        r == !spec_is_vowel(letter),
{
    !is_vowel(letter)
}

fn ends_in_consonant_then_y(base: &Vec<char>) -> (r: bool)
    ensures
        r == spec_ends_in_consonant_then_y(base@),
{
    let n = base.len();
    n >= 2 && base[n - 1] == 'y' && is_consonant(base[n - 2])
}

fn doubles(base: &Vec<char>) -> (r: bool)
    ensures
        r == spec_doubles(base@),
{
    let n = base.len();
    if n < 3 {
        return false;
    }
    let last = base[n - 1];
    let mid = base[n - 2];
    let first = base[n - 3];
    is_consonant(last) && last != 'w' && last != 'x' && last != 'y' && is_vowel(mid)
        && is_consonant(first)
}

fn drop_last(base: &Vec<char>) -> (r: Vec<char>)
    requires
        base@.len() >= 1,
    ensures
        r@ == base@.drop_last(),
{
    slice_chars(base, 0, base.len() - 1)
}

fn with_suffix(base: &Vec<char>, suffix: &str) -> (r: Vec<char>)
    ensures
        r@ == base@ + suffix@,
{
    let mut r = base.clone();
    assert(r@ =~= base@);
    push_str(&mut r, suffix);
    r
}

fn third_person(base: &Vec<char>) -> (r: Vec<char>)
    ensures
        r@ == spec_third_person(base@),
{
    if ends_with(base, "o") || ends_with(base, "s") || ends_with(base, "x") || ends_with(base, "z")
        || ends_with(base, "ch") || ends_with(base, "sh")
    {
        with_suffix(base, "es")
    } else if ends_in_consonant_then_y(base) {
        let stem = drop_last(base);
        with_suffix(&stem, "ies")
    } else {
        with_suffix(base, "s")
    }
}

/// `base` followed by its own last character and then `suffix`.
fn doubled_with_suffix(base: &Vec<char>, suffix: &str) -> (r: Vec<char>)
    requires
        base@.len() >= 1,
    ensures
        r@ == base@ + seq![base@[base@.len() - 1]] + suffix@,
{
    let mut r = base.clone();
    assert(r@ =~= base@);
    let last = base[base.len() - 1];
    r.push(last);
    push_str(&mut r, suffix);
    r
}

fn past(base: &Vec<char>) -> (r: Vec<char>)
    ensures
        r@ == spec_past(base@),
{
    if ends_with(base, "e") {
        with_suffix(base, "d")
    } else if ends_in_consonant_then_y(base) {
        let stem = drop_last(base);
        with_suffix(&stem, "ied")
    } else if doubles(base) {
        doubled_with_suffix(base, "ed")
    } else {
        with_suffix(base, "ed")
    }
}

fn present_participle(base: &Vec<char>) -> (r: Vec<char>)
    ensures
        r@ == spec_present_participle(base@),
{
    proof {
        reveal_strlit("ie");
        reveal_strlit("e");
    }
    if ends_with(base, "ie") {
        let stem = slice_chars(base, 0, base.len() - 2);
        with_suffix(&stem, "ying")
    } else if ends_with(base, "ee") || ends_with(base, "ye") || ends_with(base, "oe") {
        with_suffix(base, "ing")
    } else if ends_with(base, "e") {
        let stem = drop_last(base);
        with_suffix(&stem, "ing")
    } else if doubles(base) {
        doubled_with_suffix(base, "ing")
    } else {
        with_suffix(base, "ing")
    }
}

/// All forms of a verb: the irregular table first, then the regular rules.
pub fn verb_forms(base: &str) -> (forms: VerbForms)
    ensures
        forms@ == spec_verb_forms(base@),
{
    let b = chars_of(base);
    if let Some(forms) = irregular(&b) {
        return forms;
    }
    VerbForms {
        base: string_of(b.clone()),
        third_person: string_of(third_person(&b)),
        past: string_of(past(&b)),
        past_participle: string_of(past(&b)),
        present_participle: string_of(present_participle(&b)),
    }
}

/// The singular and plural of a noun; the plural follows the library's own
/// rule, `spec_plural`.
pub fn noun_forms(base: &str) -> (forms: NounForms)
    ensures
        forms.singular@ == base@,
        forms.plural@ == spec_plural(base@),
{
    let b = chars_of(base);
    NounForms { singular: string_of(b.clone()), plural: string_of(third_person(&b)) }
}

// ---------------------------------------------------------------------------
// Laws
// ---------------------------------------------------------------------------

/// The verb is not one of the listed irregular verbs `be`, `have`, `run`.
pub open spec fn not_listed(base: Seq<char>) -> bool {
    base != seq!['b', 'e'] && base != seq!['h', 'a', 'v', 'e'] && base != seq!['r', 'u', 'n']
}

proof fn lemma_literals()
    ensures
        "be"@ == seq!['b', 'e'],
        "have"@ == seq!['h', 'a', 'v', 'e'],
        "run"@ == seq!['r', 'u', 'n'],
        "o"@ == seq!['o'],
        "s"@ == seq!['s'],
        "x"@ == seq!['x'],
        "z"@ == seq!['z'],
        "ch"@ == seq!['c', 'h'],
        "sh"@ == seq!['s', 'h'],
        "es"@ == seq!['e', 's'],
        "e"@ == seq!['e'],
        "d"@ == seq!['d'],
        "ed"@ == seq!['e', 'd'],
        "ie"@ == seq!['i', 'e'],
        "ee"@ == seq!['e', 'e'],
        "ye"@ == seq!['y', 'e'],
        "oe"@ == seq!['o', 'e'],
        "ing"@ == seq!['i', 'n', 'g'],
{
    reveal_strlit("be");
    assert("be"@ =~= seq!['b', 'e']);
    reveal_strlit("have");
    assert("have"@ =~= seq!['h', 'a', 'v', 'e']);
    reveal_strlit("run");
    assert("run"@ =~= seq!['r', 'u', 'n']);
    reveal_strlit("o");
    assert("o"@ =~= seq!['o']);
    reveal_strlit("s");
    assert("s"@ =~= seq!['s']);
    reveal_strlit("x");
    assert("x"@ =~= seq!['x']);
    reveal_strlit("z");
    assert("z"@ =~= seq!['z']);
    reveal_strlit("ch");
    assert("ch"@ =~= seq!['c', 'h']);
    reveal_strlit("sh");
    assert("sh"@ =~= seq!['s', 'h']);
    reveal_strlit("es");
    assert("es"@ =~= seq!['e', 's']);
    reveal_strlit("e");
    assert("e"@ =~= seq!['e']);
    reveal_strlit("d");
    assert("d"@ =~= seq!['d']);
    reveal_strlit("ed");
    assert("ed"@ =~= seq!['e', 'd']);
    reveal_strlit("ie");
    assert("ie"@ =~= seq!['i', 'e']);
    reveal_strlit("ee");
    assert("ee"@ =~= seq!['e', 'e']);
    reveal_strlit("ye");
    assert("ye"@ =~= seq!['y', 'e']);
    reveal_strlit("oe");
    assert("oe"@ =~= seq!['o', 'e']);
    reveal_strlit("ing");
    assert("ing"@ =~= seq!['i', 'n', 'g']);
}

/// Whether `s` ends with the single character `c`.
proof fn lemma_suffix_1(s: Seq<char>, c: char, lit: Seq<char>)
    requires
        lit == seq![c],
    ensures
        has_suffix(s, lit) == (s.len() >= 1 && s[s.len() - 1] == c),
{
    if s.len() >= 1 && s[s.len() - 1] == c {
        assert(s.subrange(s.len() - 1, s.len() as int) =~= lit);
    }
    if has_suffix(s, lit) {
        assert(s.subrange(s.len() - 1, s.len() as int)[0] == s[s.len() - 1]);
    }
}

/// Whether `s` ends with the two characters `a`, `b`.
proof fn lemma_suffix_2(s: Seq<char>, a: char, b: char, lit: Seq<char>)
    requires
        lit == seq![a, b],
    ensures
        has_suffix(s, lit) == (s.len() >= 2 && s[s.len() - 2] == a && s[s.len() - 1] == b),
{
    if s.len() >= 2 && s[s.len() - 2] == a && s[s.len() - 1] == b {
        assert(s.subrange(s.len() - 2, s.len() as int) =~= lit);
    }
    if has_suffix(s, lit) {
        assert(s.subrange(s.len() - 2, s.len() as int)[0] == s[s.len() - 2]);
        assert(s.subrange(s.len() - 2, s.len() as int)[1] == s[s.len() - 1]);
    }
}

/// Law: a regular verb ending in `o`, `s`, `x`, `z`, `ch` or `sh` takes
/// `-es` in the third person (`go → goes`, `finish → finishes`).
pub proof fn lemma_third_person_after_sibilant(base: Seq<char>)
    requires
        not_listed(base),
        base.len() >= 1,
        ({
            let n = base.len() as int;
            let last = base[n - 1];
            ||| last == 'o' || last == 's' || last == 'x' || last == 'z'
            ||| n >= 2 && (base[n - 2] == 'c' || base[n - 2] == 's') && last == 'h'
        }),
    ensures
        spec_verb_forms(base).third_person == base + seq!['e', 's'],
{
    lemma_literals();
    lemma_suffix_1(base, 'o', "o"@);
    lemma_suffix_1(base, 's', "s"@);
    lemma_suffix_1(base, 'x', "x"@);
    lemma_suffix_1(base, 'z', "z"@);
    lemma_suffix_2(base, 'c', 'h', "ch"@);
    lemma_suffix_2(base, 's', 'h', "sh"@);
    assert(spec_takes_es(base));
}

/// Law: a regular verb ending in `w`, `x`, or `y` after a vowel never
/// doubles its last letter: its past and past participle add `-ed` and its
/// `-ing` form adds `-ing` (`follow → followed, following`).
pub proof fn lemma_no_doubling_after_w_x_y(base: Seq<char>)
    requires
        not_listed(base),
        base.len() >= 1,
        ({
            let n = base.len() as int;
            let last = base[n - 1];
            ||| last == 'w' || last == 'x'
            ||| last == 'y' && n >= 2 && spec_is_vowel(base[n - 2])
        }),
    ensures
        spec_verb_forms(base).past == base + seq!['e', 'd'],
        spec_verb_forms(base).past_participle == base + seq!['e', 'd'],
        spec_verb_forms(base).present_participle == base + seq!['i', 'n', 'g'],
{
    lemma_literals();
    lemma_suffix_1(base, 'e', "e"@);
    lemma_suffix_2(base, 'i', 'e', "ie"@);
    lemma_suffix_2(base, 'e', 'e', "ee"@);
    lemma_suffix_2(base, 'y', 'e', "ye"@);
    lemma_suffix_2(base, 'o', 'e', "oe"@);
    assert(!spec_doubles(base));
    assert(!spec_ends_in_consonant_then_y(base));
}

/// Law: every verb keeps its base, and a regular verb's past participle is
/// its past.
pub proof fn lemma_participle_is_past(base: Seq<char>)
    ensures
        spec_verb_forms(base).base == base,
        not_listed(base) ==> spec_verb_forms(base).past_participle == spec_verb_forms(base).past,
{
    lemma_literals();
}

/// Law: a regular verb ending in `y` after a consonant turns the `y` into
/// `i` before `-es` and `-ed`, and keeps it before `-ing`
/// (`carry → carries, carried, carrying`).
pub proof fn lemma_consonant_y(base: Seq<char>)
    requires
        not_listed(base),
        base.len() >= 2,
        base[base.len() - 1] == 'y',
        !spec_is_vowel(base[base.len() - 2]),
    ensures
        spec_verb_forms(base).third_person == base.drop_last() + seq!['i', 'e', 's'],
        spec_verb_forms(base).past == base.drop_last() + seq!['i', 'e', 'd'],
        spec_verb_forms(base).present_participle == base + seq!['i', 'n', 'g'],
{
    lemma_literals();
    reveal_strlit("ies");
    reveal_strlit("ied");
    assert("ies"@ =~= seq!['i', 'e', 's']);
    assert("ied"@ =~= seq!['i', 'e', 'd']);
    lemma_suffix_1(base, 'o', "o"@);
    lemma_suffix_1(base, 's', "s"@);
    lemma_suffix_1(base, 'x', "x"@);
    lemma_suffix_1(base, 'z', "z"@);
    lemma_suffix_2(base, 'c', 'h', "ch"@);
    lemma_suffix_2(base, 's', 'h', "sh"@);
    lemma_suffix_1(base, 'e', "e"@);
    lemma_suffix_2(base, 'i', 'e', "ie"@);
    lemma_suffix_2(base, 'e', 'e', "ee"@);
    lemma_suffix_2(base, 'y', 'e', "ye"@);
    lemma_suffix_2(base, 'o', 'e', "oe"@);
    assert(!spec_doubles(base));
}

/// Law: a regular verb ending in `e` adds only `-d` in the past and `-s`
/// in the third person; before `-ing` it turns `ie` into `y`, keeps `ee`,
/// `ye` and `oe`, and otherwise drops the `e`
/// (`use → uses, used, using`; `die → dying`; `see → seeing`).
pub proof fn lemma_final_e(base: Seq<char>)
    requires
        not_listed(base),
        base.len() >= 1,
        base[base.len() - 1] == 'e',
    ensures
        spec_verb_forms(base).third_person == base + seq!['s'],
        spec_verb_forms(base).past == base + seq!['d'],
        ({
            let n = base.len() as int;
            let before = if n >= 2 { Some(base[n - 2]) } else { None::<char> };
            spec_verb_forms(base).present_participle == if before == Some('i') {
                base.subrange(0, n - 2) + seq!['y', 'i', 'n', 'g']
            } else if before == Some('e') || before == Some('y') || before == Some('o') {
                base + seq!['i', 'n', 'g']
            } else {
                base.drop_last() + seq!['i', 'n', 'g']
            }
        }),
{
    lemma_literals();
    reveal_strlit("ying");
    assert("ying"@ =~= seq!['y', 'i', 'n', 'g']);
    lemma_suffix_1(base, 'o', "o"@);
    lemma_suffix_1(base, 's', "s"@);
    lemma_suffix_1(base, 'x', "x"@);
    lemma_suffix_1(base, 'z', "z"@);
    lemma_suffix_2(base, 'c', 'h', "ch"@);
    lemma_suffix_2(base, 's', 'h', "sh"@);
    lemma_suffix_1(base, 'e', "e"@);
    lemma_suffix_2(base, 'i', 'e', "ie"@);
    lemma_suffix_2(base, 'e', 'e', "ee"@);
    lemma_suffix_2(base, 'y', 'e', "ye"@);
    lemma_suffix_2(base, 'o', 'e', "oe"@);
    assert(!spec_takes_es(base));
    assert(!spec_ends_in_consonant_then_y(base));
}

/// Law: a regular verb that ends consonant, vowel, consonant, the last not
/// `w`, `x` or `y`, doubles its last letter before `-ed` and `-ing`
/// (`stop → stopped, stopping`).
pub proof fn lemma_doubling(base: Seq<char>)
    requires
        not_listed(base),
        base.len() >= 3,
        ({
            let n = base.len() as int;
            let last = base[n - 1];
            &&& !spec_is_vowel(last) && last != 'w' && last != 'x' && last != 'y'
            &&& spec_is_vowel(base[n - 2])
            &&& !spec_is_vowel(base[n - 3])
        }),
    ensures
        spec_verb_forms(base).past == base + seq![base[base.len() - 1], 'e', 'd'],
        spec_verb_forms(base).present_participle == base + seq![base[base.len() - 1], 'i', 'n', 'g'],
{
    lemma_literals();
    lemma_suffix_1(base, 'e', "e"@);
    lemma_suffix_2(base, 'i', 'e', "ie"@);
    lemma_suffix_2(base, 'e', 'e', "ee"@);
    lemma_suffix_2(base, 'y', 'e', "ye"@);
    lemma_suffix_2(base, 'o', 'e', "oe"@);
    assert(spec_doubles(base));
    assert(base + seq![base[base.len() - 1]] + seq!['e', 'd'] =~= base + seq![base[base.len() - 1], 'e', 'd']);
    assert(base + seq![base[base.len() - 1]] + seq!['i', 'n', 'g'] =~= base + seq![base[base.len() - 1], 'i', 'n', 'g']);
}

/// Law: a regular verb with none of the special endings (`o`, `s`, `x`,
/// `z`, `ch`, `sh`, `y` after a consonant) adds `-s` in the third person
/// (`walk → walks`, `play → plays`).
pub proof fn lemma_plain_third_person(base: Seq<char>)
    requires
        not_listed(base),
        ({
            let n = base.len() as int;
            &&& n >= 1 ==> {
                let last = base[n - 1];
                &&& last != 'o' && last != 's' && last != 'x' && last != 'z'
                &&& last == 'h' ==> n < 2 || (base[n - 2] != 'c' && base[n - 2] != 's')
                &&& last == 'y' ==> n >= 2 && spec_is_vowel(base[n - 2])
            }
        }),
    ensures
        spec_verb_forms(base).third_person == base + seq!['s'],
{
    lemma_literals();
    lemma_suffix_1(base, 'o', "o"@);
    lemma_suffix_1(base, 's', "s"@);
    lemma_suffix_1(base, 'x', "x"@);
    lemma_suffix_1(base, 'z', "z"@);
    lemma_suffix_2(base, 'c', 'h', "ch"@);
    lemma_suffix_2(base, 's', 'h', "sh"@);
}

} // verus!
