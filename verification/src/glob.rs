//! Glob patterns: compiled and matched by the `wax` crate behind trusted
//! wrappers, with the match relation given a name so that contracts can
//! speak of which names a pattern selects.

use vstd::prelude::*;

use crate::helpers;

verus! {

/// Declares wax's compiled glob so it can stand in a field.
#[verifier::external_type_specification]
#[verifier::external_body]
pub struct ExGlob<'t>(wax::Glob<'t>);

/// Whether `pattern` is a well-formed glob expression, as `wax::Glob::new`
/// accepts it.
pub uninterp spec fn glob_ok(pattern: Seq<char>) -> bool;

/// Whether the glob `pattern` matches the candidate path `value`, as wax
/// defines matching.  The result depends on the two strings alone.
pub uninterp spec fn glob_match(pattern: Seq<char>, value: Seq<char>) -> bool;

/// A compiled glob pattern, kept together with its source text; the fields
/// stay private so the pair can only be built by the constructor.
#[derive(Debug)]
pub struct Pattern {
    text: String,
    glob: wax::Glob<'static>,
}

impl Pattern {
    /// The pattern text this glob was compiled from.
    pub closed spec fn pattern(&self) -> Seq<char> {
        self.text@
    }

    /// Relies on `wax::Glob::new`: compiling succeeds exactly on well-formed
    /// glob expressions, and `into_owned` only detaches the compiled glob
    /// from the pattern text's lifetime.
    #[verifier::external_body]
    pub fn new(text: &str) -> (r: Result<Pattern, String>)
        ensures
            r is Ok <==> glob_ok(text@),
            r is Ok ==> r->Ok_0.pattern() == text@,
    {
        match wax::Glob::new(text) {
            Ok(g) => Ok(Pattern { text: text.to_string(), glob: g.into_owned() }),
            Err(e) => Err(e.to_string()),
        }
    }

    /// Relies on `wax::Program::is_match`: the compiled glob matches the
    /// candidate path exactly when its pattern does.
    #[verifier::external_body]
    pub fn is_match(&self, value: &str) -> (r: bool)
        ensures
            r == glob_match(self.pattern(), value@),
    {
        wax::Program::is_match(&self.glob, wax::CandidatePath::from(value))
    }
}

/// Some pattern of the set matches `value`.
pub open spec fn set_matches(patterns: Seq<Seq<char>>, value: Seq<char>) -> bool {
    exists|i: int| 0 <= i < patterns.len() && glob_match(#[trigger] patterns[i], value)
}

/// A set of compiled glob patterns, matched as their union.
#[derive(Debug)]
pub struct PatternSet {
    pub patterns: Vec<Pattern>,
}

impl View for PatternSet {
    type V = Seq<Seq<char>>;

    open spec fn view(&self) -> Seq<Seq<char>> {
        self.patterns@.map_values(|p: Pattern| p.pattern())
    }
}

impl PatternSet {
    /// Whether any pattern of the set matches `value`.
    pub fn is_match(&self, value: &str) -> (r: bool)
        ensures
            r == set_matches(self@, value@),
    {
        let mut i: usize = 0;
        while i < self.patterns.len()
            invariant
                i <= self.patterns@.len(),
                forall|j: int| 0 <= j < i ==> !glob_match(#[trigger] self@[j], value@),
            decreases self.patterns@.len() - i,
        {
            if self.patterns[i].is_match(value) {
                proof {
                    assert(glob_match(self@[i as int], value@));
                }
                return true;
            }
            i = i + 1;
        }
        false
    }
}

/// The pattern text a selection glob denotes: the glob itself, with the
/// postfix appended when one is given.
pub open spec fn spec_glob_text(g: Seq<char>, postfix: Option<Seq<char>>) -> Seq<char> {
    match postfix {
        None => g,
        Some(p) => g + p,
    }
}

/// Compiles one glob per entry of `from`, each with the optional postfix
/// appended; entries that fail to compile are reported together.
pub fn glob_from_vec(from: &Vec<String>, postfix: Option<&str>) -> (r: Result<
    PatternSet,
    helpers::MultipleErrors<String>,
>)
    ensures
        r is Ok <==> (forall|i: int|
            0 <= i < from@.len() ==> glob_ok(
                spec_glob_text((#[trigger] from@[i])@, match postfix {
                    None => None,
                    Some(p) => Some(p@),
                }),
            )),
        r is Ok ==> r->Ok_0@.len() == from@.len() && (forall|i: int|
            0 <= i < from@.len() ==> (#[trigger] r->Ok_0@[i]) == spec_glob_text(
                from@[i]@,
                match postfix {
                    None => None,
                    Some(p) => Some(p@),
                },
            )),
        r is Err ==> r->Err_0.0@.len() >= 1,
{
    let ghost pf: Option<Seq<char>> = match postfix {
        None => None,
        Some(p) => Some(p@),
    };
    let mut patterns: Vec<Pattern> = Vec::new();
    let mut errors: Vec<String> = Vec::new();
    let mut i: usize = 0;
    while i < from.len()
        invariant
            i <= from@.len(),
            pf == (match postfix {
                None => None::<Seq<char>>,
                Some(p) => Some(p@),
            }),
            errors@.len() == 0 ==> {
                &&& patterns@.len() == i
                &&& forall|j: int| 0 <= j < i ==> glob_ok(spec_glob_text((#[trigger] from@[j])@, pf))
                &&& forall|j: int|
                    0 <= j < i ==> (#[trigger] patterns@[j]).pattern() == spec_glob_text(
                        from@[j]@,
                        pf,
                    )
            },
            errors@.len() >= 1 ==> (exists|j: int|
                0 <= j < i && !glob_ok(spec_glob_text((#[trigger] from@[j])@, pf))),
            forall|j: int|
                0 <= j < i && !glob_ok(spec_glob_text((#[trigger] from@[j])@, pf))
                    ==> errors@.len() >= 1,
        decreases from@.len() - i,
    {
        let text = match postfix {
            None => from[i].clone(),
            Some(p) => helpers::str_concat(from[i].as_str(), p),
        };
        proof {
            assert(text@ == spec_glob_text(from@[i as int]@, pf));
        }
        match Pattern::new(text.as_str()) {
            Ok(p) => {
                patterns.push(p);
            },
            Err(e) => {
                errors.push(e);
            },
        }
        i = i + 1;
    }
    if errors.len() > 0 {
        Err(helpers::MultipleErrors(errors))
    } else {
        Ok(PatternSet { patterns })
    }
}

} // verus!
