//! The loaded rule book and the rewriting it drives.
use vstd::prelude::*;
use crate::book::{
    deserialise_book, lemma_book_rules_well_formed, rule_errors_view, serialisable_rules_view,
    spec_book_errors, spec_book_rules, RuleError, SerialisableBook,
};
use crate::compile::{compile, compiled_well_formed, lemma_compile_well_formed, spec_compile, CompiledRules, CompiledRulesView};
use crate::rewrite::{lemma_no_match_no_change, rewrite, spec_candidates, spec_rewrite};

verus! {

broadcast use vstd::string::group_string_axioms;

/// What loading a book reports: how many rules were read, and the rules
/// that could not be.
pub struct RuleParseReport {
    pub loaded: usize,
    pub errors: Vec<RuleError>,
}

/// Holds the compiled rules of the last book that was loaded, if any.
pub struct Engine {
    rules: Option<CompiledRules>,
}

/// What `declank` gives for `input` with these rules: the input rewritten
/// when a book is loaded and switched on, the input unchanged otherwise.
pub open spec fn spec_declank(rules: Option<CompiledRulesView>, input: Seq<char>) -> Seq<char> {
    match rules {
        Some(c) => if c.enabled {
            spec_rewrite(input, c)
        } else {
            input
        },
        None => input,
    }
}

/// The rules that loading `book` puts in place.
pub open spec fn spec_loaded_rules(book: SerialisableBook) -> CompiledRulesView {
    spec_compile(spec_book_rules(serialisable_rules_view(book.rules@)), book.enabled)
}

impl View for Engine {
    type V = Option<CompiledRulesView>;

    closed spec fn view(&self) -> Option<CompiledRulesView> {
        match self.rules {
            Some(c) => Some(c@),
            None => None,
        }
    }
}

impl Engine {
    #[verifier::type_invariant]
    spec fn rules_usable(self) -> bool {
        self.rules matches Some(c) ==> compiled_well_formed(c@)
    }

    /// An engine with no book loaded.
    pub fn new() -> (e: Engine)
        ensures
            e@ is None,
    {
        Engine { rules: None }
    }

    /// Loads a book that was read, or keeps the rules in place when reading
    /// failed. A loaded book replaces the rules wholesale, and the report
    /// counts the rules read and lists those refused.
    pub fn set_rules(&mut self, parsed: Result<SerialisableBook, String>) -> (r: Result<RuleParseReport, String>)
        ensures
            match parsed {
                Err(message) => {
                    &&& r matches Err(m) && m@ == message@
                    &&& final(self)@ == old(self)@
                },
                Ok(book) => {
                    &&& final(self)@ == Some(spec_loaded_rules(book))
                    &&& r matches Ok(report) && {
                        &&& report.loaded == spec_book_rules(serialisable_rules_view(book.rules@)).len()
                        &&& rule_errors_view(report.errors@) == spec_book_errors(serialisable_rules_view(book.rules@))
                    }
                },
            },
    {
        let book = match parsed {
            Err(message) => {
                return Err(message);
            },
            Ok(book) => book,
        };
        let ghost written = serialisable_rules_view(book.rules@);
        let ghost enabled = book.enabled;
        let read = deserialise_book(book);
        let success_count = read.rules.len();
        proof {
            lemma_book_rules_well_formed(written);
            lemma_compile_well_formed(spec_book_rules(written), enabled);
        }
        let compiled = compile(read.rules, read.enabled);
        self.rules = Some(compiled);
        Ok(RuleParseReport { loaded: success_count, errors: read.errors })
    }

    /// Rewrites `input` with the loaded rules, when there are any and the
    /// book is switched on.
    pub fn declank(&self, input: &str) -> (out: String)
        ensures
            out@ == spec_declank(self@, input@),
    {
        proof {
            use_type_invariant(self);
        }
        match &self.rules {
            Some(compiled) => {
                if compiled.enabled {
                    rewrite(input, compiled)
                } else {
                    input.to_string()
                }
            },
            None => input.to_string(),
        }
    }
}

/// Law: with no book loaded, or with the book switched off, the input comes
/// back unchanged; the switch gates rewriting only.
pub proof fn lemma_switched_off_changes_nothing(rules: Option<CompiledRulesView>, input: Seq<char>)
    requires
        rules matches Some(c) ==> !c.enabled,
    ensures
        spec_declank(rules, input) == input,
{
}

/// Law: a book with no rules rewrites nothing.
pub proof fn lemma_empty_book_changes_nothing(book: SerialisableBook, input: Seq<char>)
    requires
        book.rules@.len() == 0,
    ensures
        spec_declank(Some(spec_loaded_rules(book)), input) == input,
{
    let written = serialisable_rules_view(book.rules@);
    assert(written.len() == 0);
    let rules = spec_loaded_rules(book);
    assert(spec_book_rules(written).len() == 0);
    assert(rules.literals.len() == 0);
    assert(rules.templates.len() == 0);
    assert(spec_candidates(input, rules) =~= Seq::empty());
    lemma_no_match_no_change(input, rules);
}

} // verus!
