//! The selector grammar: pipe-separated operating-system alternatives, each
//! guarded by attribute predicates, e.g. `linux[whoami.distro^="deb"]|windows`.
//! A verified recursive-descent parser recognizes the grammar, and predicate
//! evaluation compares rendered attribute values under the five operators.
//!
//! Grammar (whitespace permitted between tokens, never inside them):
//!
//! ```text
//! selectors := selector ('|' selector)*
//! selector  := os block*
//! block     := '[' ']' | '[' attribute (',' attribute)* ']'
//! attribute := path operator string
//! path      := ident ('.' ident)*
//! operator  := '=' | '^=' | '$=' | '*=' | '!='
//! os        := 'global' | 'windows' | 'linux' | 'darwin'
//! string    := '"' (escape | [^"\])* '"'
//! ```
//!
//! String escapes: `\\ \/ \" \b \f \n \r \t \uXXXX`; a `\u` code that is no
//! Unicode scalar value becomes the replacement character, not an error.

use vstd::prelude::*;

use crate::helpers::{self, Os};

verus! {

/// Comparison operator of an attribute predicate.
#[derive(Debug, Clone, Copy, PartialEq, Eq, Structural)]
pub enum Operator {
    Equal,
    StartsWith,
    EndsWith,
    Contains,
    NotEqual,
}

/// One attribute predicate: the rendered value of `key` is compared to
/// `value` under `operator`.
#[derive(Debug, Clone, PartialEq)]
pub struct Attribute {
    pub key: String,
    pub operator: Operator,
    pub value: String,
}

/// One selector alternative: an operating-system tag plus its predicates.
#[derive(Debug, Clone, PartialEq)]
pub struct Selector {
    pub os: Os,
    pub attributes: Vec<Attribute>,
}

/// A non-empty list of pipe-separated selector alternatives.
#[derive(Debug, Clone, PartialEq)]
pub struct Selectors(pub Vec<Selector>);

/// Model of an attribute predicate.
#[verifier::ext_equal]
pub struct AttributeModel {
    pub key: Seq<char>,
    pub operator: Operator,
    pub value: Seq<char>,
}

/// Model of a selector alternative.
#[verifier::ext_equal]
pub struct SelectorModel {
    pub os: Os,
    pub attributes: Seq<AttributeModel>,
}

impl View for Attribute {
    type V = AttributeModel;

    open spec fn view(&self) -> AttributeModel {
        AttributeModel { key: self.key@, operator: self.operator, value: self.value@ }
    }
}

impl View for Selector {
    type V = SelectorModel;

    open spec fn view(&self) -> SelectorModel {
        SelectorModel {
            os: self.os,
            attributes: self.attributes@.map_values(|a: Attribute| a@),
        }
    }
}

impl View for Selectors {
    type V = Seq<SelectorModel>;

    open spec fn view(&self) -> Seq<SelectorModel> {
        self.0@.map_values(|s: Selector| s@)
    }
}

/// A rejected selector string: either a syntax error with its position and
/// expectation set, or `global` mixed with a named operating system.
#[derive(Debug, Clone, PartialEq)]
pub enum SelectorError {
    Syntax { at: usize, found: Option<char>, expected: Vec<String> },
    GlobalMixed,
}

// ---------------------------------------------------------------------------
// Character classes
// ---------------------------------------------------------------------------

/// Whitespace the grammar permits between tokens.
pub open spec fn is_ws(c: char) -> bool {
    c == ' ' || c == '\t' || c == '\n' || c == '\r'
}

/// Characters an identifier may start with.
pub open spec fn is_ident_start(c: char) -> bool {
    ||| ('a' as u32) <= (c as u32) <= ('z' as u32)
    ||| ('A' as u32) <= (c as u32) <= ('Z' as u32)
    ||| c == '_'
}

/// Decimal digits.
pub open spec fn is_digit(c: char) -> bool {
    ('0' as u32) <= (c as u32) <= ('9' as u32)
}

/// Characters an identifier may continue with.
pub open spec fn is_ident_char(c: char) -> bool {
    is_ident_start(c) || is_digit(c)
}

/// Hexadecimal digits, either case.
pub open spec fn is_hex_digit(c: char) -> bool {
    ||| is_digit(c)
    ||| ('a' as u32) <= (c as u32) <= ('f' as u32)
    ||| ('A' as u32) <= (c as u32) <= ('F' as u32)
}

/// Numeric value of a hexadecimal digit.
pub open spec fn hex_val(c: char) -> int {
    if is_digit(c) {
        (c as u32) - ('0' as u32)
    } else if ('a' as u32) <= (c as u32) <= ('f' as u32) {
        (c as u32) - ('a' as u32) + 10
    } else {
        (c as u32) - ('A' as u32) + 10
    }
}

fn ws_char(c: char) -> (r: bool)
    ensures
        r == is_ws(c),
{
    c == ' ' || c == '\t' || c == '\n' || c == '\r'
}

fn ident_start_char(c: char) -> (r: bool)
    ensures
        r == is_ident_start(c),
{
    let u = c as u32;
    (('a' as u32) <= u && u <= ('z' as u32)) || (('A' as u32) <= u && u <= ('Z' as u32)) || c == '_'
}

fn digit_char(c: char) -> (r: bool)
    ensures
        r == is_digit(c),
{
    let u = c as u32;
    ('0' as u32) <= u && u <= ('9' as u32)
}

fn ident_char(c: char) -> (r: bool)
    ensures
        r == is_ident_char(c),
{
    ident_start_char(c) || digit_char(c)
}

fn hex_digit_char(c: char) -> (r: bool)
    ensures
        r == is_hex_digit(c),
{
    let u = c as u32;
    digit_char(c) || (('a' as u32) <= u && u <= ('f' as u32)) || (('A' as u32) <= u && u <= (
    'F' as u32))
}

fn hex_digit_val(c: char) -> (r: u32)
    requires
        is_hex_digit(c),
    ensures
        r == hex_val(c),
{
    let u = c as u32;
    if digit_char(c) {
        u - ('0' as u32)
    } else if ('a' as u32) <= u && u <= ('f' as u32) {
        u - ('a' as u32) + 10
    } else {
        u - ('A' as u32) + 10
    }
}

// ---------------------------------------------------------------------------
// Scanning: whitespace and identifiers
// ---------------------------------------------------------------------------

/// The first position at or after `i` holding no whitespace.
pub open spec fn spec_skip_ws(s: Seq<char>, i: int) -> int
    decreases s.len() - i
        when 0 <= i <= s.len()
{
    if i < s.len() && is_ws(s[i]) {
        spec_skip_ws(s, i + 1)
    } else {
        i
    }
}

proof fn lemma_skip_ws_bounds(s: Seq<char>, i: int)
    requires
        0 <= i <= s.len(),
    ensures
        i <= spec_skip_ws(s, i) <= s.len(),
        spec_skip_ws(s, i) < s.len() ==> !is_ws(s[spec_skip_ws(s, i)]),
    decreases s.len() - i,
{
    if i < s.len() && is_ws(s[i]) {
        lemma_skip_ws_bounds(s, i + 1);
    }
}

/// Walks the cursor past whitespace.
fn skip_ws(s: &Vec<char>, i: usize) -> (r: usize)
    requires
        i <= s@.len(),
    ensures
        r == spec_skip_ws(s@, i as int),
        i <= r <= s@.len(),
        r < s@.len() ==> !is_ws(s@[r as int]),
{
    let mut j = i;
    while j < s.len() && ws_char(s[j])
        invariant
            i <= j <= s@.len(),
            spec_skip_ws(s@, i as int) == spec_skip_ws(s@, j as int),
        decreases s@.len() - j,
    {
        j = j + 1;
    }
    j
}

/// The end of the identifier run starting at `i`.
pub open spec fn spec_ident_end(s: Seq<char>, i: int) -> int
    decreases s.len() - i
        when 0 <= i <= s.len()
{
    if i < s.len() && is_ident_char(s[i]) {
        spec_ident_end(s, i + 1)
    } else {
        i
    }
}

proof fn lemma_ident_end_bounds(s: Seq<char>, i: int)
    requires
        0 <= i <= s.len(),
    ensures
        i <= spec_ident_end(s, i) <= s.len(),
    decreases s.len() - i,
{
    if i < s.len() && is_ident_char(s[i]) {
        lemma_ident_end_bounds(s, i + 1);
    }
}

/// An identifier: an identifier-start character followed by identifier
/// characters, taken as far as they reach.
pub open spec fn spec_parse_ident(s: Seq<char>, i: int) -> Option<(Seq<char>, int)> {
    if 0 <= i < s.len() && is_ident_start(s[i]) {
        let e = spec_ident_end(s, i);
        Some((s.subrange(i, e), e))
    } else {
        None
    }
}

proof fn lemma_parse_ident_advances(s: Seq<char>, i: int)
    requires
        0 <= i <= s.len(),
        spec_parse_ident(s, i) is Some,
    ensures
        i < (spec_parse_ident(s, i)->0).1 <= s.len(),
{
    lemma_ident_end_bounds(s, i);
    assert(spec_ident_end(s, i) == spec_ident_end(s, i + 1) || !(i < s.len() && is_ident_char(
        s[i],
    )));
    lemma_ident_end_bounds(s, i + 1);
}

/// Scans an identifier at `i`, handing back its characters and the position
/// after it.
fn parse_ident(s: &Vec<char>, i: usize) -> (r: Option<(Vec<char>, usize)>)
    requires
        i <= s@.len(),
    ensures
        r is Some ==> spec_parse_ident(s@, i as int) == Some(((r->0).0@, (r->0).1 as int)),
        r is Some ==> i < (r->0).1 <= s@.len(),
        r is None ==> spec_parse_ident(s@, i as int) is None,
{
    if i < s.len() && ident_start_char(s[i]) {
        let mut j = i;
        while j < s.len() && ident_char(s[j])
            invariant
                i <= j <= s@.len(),
                spec_ident_end(s@, i as int) == spec_ident_end(s@, j as int),
            decreases s@.len() - j,
        {
            j = j + 1;
        }
        let mut v: Vec<char> = Vec::new();
        let mut k = i;
        while k < j
            invariant
                i <= k <= j <= s@.len(),
                v@ == s@.subrange(i as int, k as int),
            decreases j - k,
        {
            v.push(s[k]);
            proof {
                assert(v@ =~= s@.subrange(i as int, k + 1));
            }
            k = k + 1;
        }
        proof {
            lemma_parse_ident_advances(s@, i as int);
        }
        Some((v, j))
    } else {
        None
    }
}

// ---------------------------------------------------------------------------
// Operating-system tags and operators
// ---------------------------------------------------------------------------

/// The operating system a keyword names, if any.
pub open spec fn spec_os_of(w: Seq<char>) -> Option<Os> {
    if w == "global"@ {
        Some(Os::Global)
    } else if w == "windows"@ {
        Some(Os::Windows)
    } else if w == "linux"@ {
        Some(Os::Linux)
    } else if w == "darwin"@ {
        Some(Os::Darwin)
    } else {
        None
    }
}

/// An operating-system tag: an identifier that is one of the four keywords.
pub open spec fn spec_parse_os(s: Seq<char>, i: int) -> Option<(Os, int)> {
    match spec_parse_ident(s, i) {
        None => None,
        Some((w, e)) => match spec_os_of(w) {
            None => None,
            Some(os) => Some((os, e)),
        },
    }
}

fn os_of(w: &Vec<char>) -> (r: Option<Os>)
    ensures
        r == spec_os_of(w@),
{
    let global = helpers::str_to_chars("global");
    if helpers::chars_eq(w, &global) {
        return Some(Os::Global);
    }
    let windows = helpers::str_to_chars("windows");
    if helpers::chars_eq(w, &windows) {
        return Some(Os::Windows);
    }
    let linux = helpers::str_to_chars("linux");
    if helpers::chars_eq(w, &linux) {
        return Some(Os::Linux);
    }
    let darwin = helpers::str_to_chars("darwin");
    if helpers::chars_eq(w, &darwin) {
        return Some(Os::Darwin);
    }
    None
}

/// A comparison operator: `=`, `^=`, `$=`, `*=` or `!=`.
pub open spec fn spec_parse_operator(s: Seq<char>, i: int) -> Option<(Operator, int)> {
    if 0 <= i < s.len() && s[i] == '=' {
        Some((Operator::Equal, i + 1))
    } else if 0 <= i && i + 2 <= s.len() && s[i + 1] == '=' {
        if s[i] == '^' {
            Some((Operator::StartsWith, i + 2))
        } else if s[i] == '$' {
            Some((Operator::EndsWith, i + 2))
        } else if s[i] == '*' {
            Some((Operator::Contains, i + 2))
        } else if s[i] == '!' {
            Some((Operator::NotEqual, i + 2))
        } else {
            None
        }
    } else {
        None
    }
}

// ---------------------------------------------------------------------------
// String literals
// ---------------------------------------------------------------------------

/// A Unicode scalar value: what `char::from_u32` accepts.
pub open spec fn valid_scalar(code: int) -> bool {
    (0 <= code < 0xD800) || (0xE000 <= code <= 0x10FFFF)
}

/// Relies on `char::from_u32`: it returns the character with the given code
/// exactly on Unicode scalar values, and `None` otherwise.
#[verifier::external_body]
fn char_from_code(code: u32) -> (r: Option<char>)
    ensures
        r is Some <==> valid_scalar(code as int),
        valid_scalar(code as int) ==> r == Some(code as char),
{
    char::from_u32(code)
}

/// The character a single-letter escape denotes, if it is a legal escape.
pub open spec fn spec_escape_char(c: char) -> Option<char> {
    if c == '\\' {
        Some('\\')
    } else if c == '/' {
        Some('/')
    } else if c == '"' {
        Some('"')
    } else if c == 'b' {
        Some('\u{8}')
    } else if c == 'f' {
        Some('\u{c}')
    } else if c == 'n' {
        Some('\n')
    } else if c == 'r' {
        Some('\r')
    } else if c == 't' {
        Some('\t')
    } else {
        None
    }
}

fn escape_char(c: char) -> (r: Option<char>)
    ensures
        r == spec_escape_char(c),
{
    if c == '\\' {
        Some('\\')
    } else if c == '/' {
        Some('/')
    } else if c == '"' {
        Some('"')
    } else if c == 'b' {
        Some('\u{8}')
    } else if c == 'f' {
        Some('\u{c}')
    } else if c == 'n' {
        Some('\n')
    } else if c == 'r' {
        Some('\r')
    } else if c == 't' {
        Some('\t')
    } else {
        None
    }
}

/// The code a four-digit hexadecimal escape denotes, read at `i`.
pub open spec fn spec_hex4(s: Seq<char>, i: int) -> int {
    hex_val(s[i]) * 0x1000 + hex_val(s[i + 1]) * 0x100 + hex_val(s[i + 2]) * 0x10 + hex_val(
        s[i + 3],
    )
}

/// The character a four-digit code denotes: the scalar value itself, or the
/// replacement character for codes outside the scalar range.
pub open spec fn spec_unicode_escape(code: int) -> char {
    if valid_scalar(code) {
        code as char
    } else {
        '\u{FFFD}'
    }
}

/// The remainder of a string literal starting after the opening quote at
/// position `i`: its decoded characters and the position after the closing
/// quote.
pub open spec fn spec_string_body(s: Seq<char>, i: int) -> Option<(Seq<char>, int)>
    decreases s.len() - i
        when 0 <= i <= s.len()
{
    if i >= s.len() {
        None
    } else if s[i] == '"' {
        Some((Seq::empty(), i + 1))
    } else if s[i] == '\\' {
        if i + 1 >= s.len() {
            None
        } else if s[i + 1] == 'u' {
            if i + 6 <= s.len() && is_hex_digit(s[i + 2]) && is_hex_digit(s[i + 3]) && is_hex_digit(
                s[i + 4],
            ) && is_hex_digit(s[i + 5]) {
                let ch = spec_unicode_escape(spec_hex4(s, i + 2));
                match spec_string_body(s, i + 6) {
                    None => None,
                    Some((t, e)) => Some((seq![ch] + t, e)),
                }
            } else {
                None
            }
        } else {
            match spec_escape_char(s[i + 1]) {
                None => None,
                Some(ch) => match spec_string_body(s, i + 2) {
                    None => None,
                    Some((t, e)) => Some((seq![ch] + t, e)),
                },
            }
        }
    } else {
        match spec_string_body(s, i + 1) {
            None => None,
            Some((t, e)) => Some((seq![s[i]] + t, e)),
        }
    }
}

/// A string literal at `i`: opening quote, decoded body, closing quote.
pub open spec fn spec_parse_string(s: Seq<char>, i: int) -> Option<(Seq<char>, int)> {
    if 0 <= i < s.len() && s[i] == '"' {
        spec_string_body(s, i + 1)
    } else {
        None
    }
}

/// Prefixes the decoded characters of a partial parse.
pub open spec fn spec_append_body(prefix: Seq<char>, r: Option<(Seq<char>, int)>) -> Option<
    (Seq<char>, int),
> {
    match r {
        None => None,
        Some((t, e)) => Some((prefix + t, e)),
    }
}

fn expected1(a: &str) -> Vec<String> {
    let mut v: Vec<String> = Vec::new();
    v.push(String::from_str(a));
    v
}

fn expected2(a: &str, b: &str) -> Vec<String> {
    let mut v: Vec<String> = Vec::new();
    v.push(String::from_str(a));
    v.push(String::from_str(b));
    v
}

/// Scans a string literal at `i`, handing back its decoded characters and
/// the position after the closing quote.
#[verifier::rlimit(60)]
fn parse_string(s: &Vec<char>, i: usize) -> (r: Result<(Vec<char>, usize), SelectorError>)
    requires
        i <= s@.len(),
    ensures
        r is Ok ==> spec_parse_string(s@, i as int) == Some(((r->Ok_0).0@, (r->Ok_0).1 as int)),
        r is Ok ==> i < (r->Ok_0).1 <= s@.len(),
        r is Err ==> spec_parse_string(s@, i as int) is None,
        r is Err ==> r->Err_0 is Syntax,
{
    if !(i < s.len() && s[i] == '"') {
        let found = if i < s.len() {
            Some(s[i])
        } else {
            None
        };
        return Err(SelectorError::Syntax { at: i, found, expected: expected1("\"") });
    }
    let mut out: Vec<char> = Vec::new();
    let mut j = i + 1;
    proof {
        assert(out@ + (spec_string_body(s@, i + 1)->0).0 =~= (spec_string_body(s@, i + 1)->0).0);
        assert(spec_parse_string(s@, i as int) == spec_append_body(out@, spec_string_body(
            s@,
            j as int,
        )));
    }
    while j < s.len()
        invariant
            i < j <= s@.len(),
            spec_parse_string(s@, i as int) == spec_append_body(out@, spec_string_body(
                s@,
                j as int,
            )),
        decreases s@.len() - j,
    {
        let c = s[j];
        if c == '"' {
            proof {
                assert((out@ + Seq::<char>::empty()) =~= out@);
            }
            return Ok((out, j + 1));
        }
        let ghost old_out = out@;
        let ghost old_j = j as int;
        if c == '\\' {
            if j + 1 >= s.len() {
                return Err(
                    SelectorError::Syntax {
                        at: j + 1,
                        found: None,
                        expected: expected1("escape character"),
                    },
                );
            }
            let e = s[j + 1];
            if e == 'u' {
                if !(s.len() - j >= 6 && hex_digit_char(s[j + 2]) && hex_digit_char(s[j + 3])
                    && hex_digit_char(s[j + 4]) && hex_digit_char(s[j + 5])) {
                    let at = j + 2;
                    let found = if at < s.len() {
                        Some(s[at])
                    } else {
                        None
                    };
                    return Err(
                        SelectorError::Syntax { at, found, expected: expected1("hex digit") },
                    );
                }
                let code = hex_digit_val(s[j + 2]) * 0x1000 + hex_digit_val(s[j + 3]) * 0x100
                    + hex_digit_val(s[j + 4]) * 0x10 + hex_digit_val(s[j + 5]);
                proof {
                    assert(code == spec_hex4(s@, j + 2));
                }
                let ch = match char_from_code(code) {
                    Some(ch) => ch,
                    None => '\u{FFFD}',
                };
                proof {
                    assert(ch == spec_unicode_escape(spec_hex4(s@, j + 2)));
                }
                out.push(ch);
                j = j + 6;
                proof {
                    assert(spec_string_body(s@, old_j) == spec_append_body(
                        seq![ch],
                        spec_string_body(s@, j as int),
                    ));
                    assert(spec_append_body(old_out, spec_string_body(s@, old_j))
                        == spec_append_body(out@, spec_string_body(s@, j as int))) by {
                        match spec_string_body(s@, j as int) {
                            None => {},
                            Some((t, e2)) => {
                                assert(old_out + (seq![ch] + t) =~= (old_out.push(ch)) + t);
                            },
                        }
                    }
                }
            } else {
                match escape_char(e) {
                    None => {
                        return Err(
                            SelectorError::Syntax {
                                at: j + 1,
                                found: Some(e),
                                expected: expected1("escape character"),
                            },
                        );
                    },
                    Some(ch) => {
                        out.push(ch);
                        j = j + 2;
                        proof {
                            assert(spec_string_body(s@, old_j) == spec_append_body(
                                seq![ch],
                                spec_string_body(s@, j as int),
                            ));
                            assert(spec_append_body(old_out, spec_string_body(s@, old_j))
                                == spec_append_body(out@, spec_string_body(s@, j as int))) by {
                                match spec_string_body(s@, j as int) {
                                    None => {},
                                    Some((t, e2)) => {
                                        assert(old_out + (seq![ch] + t) =~= (old_out.push(ch)) + t);
                                    },
                                }
                            }
                        }
                    },
                }
            }
        } else {
            out.push(c);
            j = j + 1;
            proof {
                assert(spec_string_body(s@, old_j) == spec_append_body(
                    seq![c],
                    spec_string_body(s@, j as int),
                ));
                assert(spec_append_body(old_out, spec_string_body(s@, old_j)) == spec_append_body(
                    out@,
                    spec_string_body(s@, j as int),
                )) by {
                    match spec_string_body(s@, j as int) {
                        None => {},
                        Some((t, e2)) => {
                            assert(old_out + (seq![c] + t) =~= (old_out.push(c)) + t);
                        },
                    }
                }
            }
        }
    }
    Err(SelectorError::Syntax { at: j, found: None, expected: expected1("\"") })
}

fn parse_operator(s: &Vec<char>, i: usize) -> (r: Option<(Operator, usize)>)
    requires
        i <= s@.len(),
    ensures
        r is Some ==> spec_parse_operator(s@, i as int) == Some(((r->0).0, (r->0).1 as int)),
        r is Some ==> i < (r->0).1 <= s@.len(),
        r is None ==> spec_parse_operator(s@, i as int) is None,
{
    if i < s.len() && s[i] == '=' {
        Some((Operator::Equal, i + 1))
    } else if i < s.len() && i + 1 < s.len() && s[i + 1] == '=' {
        if s[i] == '^' {
            Some((Operator::StartsWith, i + 2))
        } else if s[i] == '$' {
            Some((Operator::EndsWith, i + 2))
        } else if s[i] == '*' {
            Some((Operator::Contains, i + 2))
        } else if s[i] == '!' {
            Some((Operator::NotEqual, i + 2))
        } else {
            None
        }
    } else {
        None
    }
}

// ---------------------------------------------------------------------------
// Paths and attributes
// ---------------------------------------------------------------------------

/// A dotted path: identifiers joined by `.`, with no whitespace around the
/// dots.
pub open spec fn spec_parse_path(s: Seq<char>, i: int) -> Option<(Seq<char>, int)>
    decreases s.len() - i
        when 0 <= i <= s.len()
{
    match spec_parse_ident(s, i) {
        None => None,
        Some((w, e)) => {
            if !(i < e <= s.len()) {
                None
            } else if e < s.len() && s[e] == '.' {
                match spec_parse_path(s, e + 1) {
                    None => None,
                    Some((rest, e2)) => Some((w + seq!['.'] + rest, e2)),
                }
            } else {
                Some((w, e))
            }
        },
    }
}

/// Prefixes the already-consumed part of a dotted path.
pub open spec fn spec_append_path(prefix: Seq<char>, r: Option<(Seq<char>, int)>) -> Option<
    (Seq<char>, int),
> {
    match r {
        None => None,
        Some((t, e)) => Some((prefix + t, e)),
    }
}

/// Scans a dotted path at `i`.
fn parse_path(s: &Vec<char>, i: usize) -> (r: Result<(Vec<char>, usize), SelectorError>)
    requires
        i <= s@.len(),
    ensures
        r is Ok ==> spec_parse_path(s@, i as int) == Some(((r->Ok_0).0@, (r->Ok_0).1 as int)),
        r is Ok ==> i < (r->Ok_0).1 <= s@.len(),
        r is Err ==> spec_parse_path(s@, i as int) is None,
        r is Err ==> r->Err_0 is Syntax,
{
    let mut acc: Vec<char> = Vec::new();
    let mut cur = i;
    proof {
        assert(spec_append_path(acc@, spec_parse_path(s@, i as int)) == spec_parse_path(
            s@,
            i as int,
        )) by {
            match spec_parse_path(s@, i as int) {
                None => {},
                Some((t, e)) => {
                    assert(acc@ + t =~= t);
                },
            }
        }
    }
    loop
        invariant
            i <= cur <= s@.len(),
            spec_parse_path(s@, i as int) == spec_append_path(acc@, spec_parse_path(
                s@,
                cur as int,
            )),
        decreases s@.len() - cur,
    {
        let ghost old_acc = acc@;
        let ghost old_cur = cur as int;
        match parse_ident(s, cur) {
            None => {
                let found = if cur < s.len() {
                    Some(s[cur])
                } else {
                    None
                };
                return Err(
                    SelectorError::Syntax { at: cur, found, expected: expected1("identifier") },
                );
            },
            Some((mut w, e)) => {
                if e < s.len() && s[e] == '.' {
                    let ghost wv = w@;
                    proof {
                        assert(spec_parse_path(s@, old_cur) == spec_append_path(
                            wv + seq!['.'],
                            spec_parse_path(s@, e + 1),
                        ));
                    }
                    acc.append(&mut w);
                    acc.push('.');
                    cur = e + 1;
                    proof {
                        assert(acc@ == old_acc + wv + seq!['.']) by {
                            assert(acc@ =~= old_acc + wv + seq!['.']);
                        }
                        assert(spec_append_path(old_acc, spec_append_path(
                            wv + seq!['.'],
                            spec_parse_path(s@, cur as int),
                        )) == spec_append_path(acc@, spec_parse_path(s@, cur as int))) by {
                            match spec_parse_path(s@, cur as int) {
                                None => {},
                                Some((t, e2)) => {
                                    assert(old_acc + ((wv + seq!['.']) + t) =~= acc@ + t);
                                },
                            }
                        }
                    }
                } else {
                    proof {
                        assert(spec_parse_path(s@, old_cur) == Some((w@, e as int)));
                        assert(old_acc + w@ =~= old_acc + w@);
                    }
                    let ghost wv = w@;
                    acc.append(&mut w);
                    proof {
                        assert(acc@ == old_acc + wv);
                    }
                    return Ok((acc, e));
                }
            },
        }
    }
}

/// One attribute predicate: path, operator, string, with whitespace allowed
/// around the operator.
pub open spec fn spec_parse_attribute(s: Seq<char>, i: int) -> Option<(AttributeModel, int)> {
    match spec_parse_path(s, i) {
        None => None,
        Some((key, e)) => {
            if !(i < e <= s.len()) {
                None
            } else {
                let j = spec_skip_ws(s, e);
                if !(e <= j <= s.len()) {
                    None
                } else {
                    match spec_parse_operator(s, j) {
                        None => None,
                        Some((op, e2)) => {
                            if !(j < e2 <= s.len()) {
                                None
                            } else {
                                let j2 = spec_skip_ws(s, e2);
                                if !(e2 <= j2 <= s.len()) {
                                    None
                                } else {
                                    match spec_parse_string(s, j2) {
                                        None => None,
                                        Some((value, e3)) => Some(
                                            (AttributeModel { key, operator: op, value }, e3),
                                        ),
                                    }
                                }
                            }
                        },
                    }
                }
            }
        },
    }
}

/// Scans one attribute predicate at `i`.
fn parse_attribute(s: &Vec<char>, i: usize) -> (r: Result<(Attribute, usize), SelectorError>)
    requires
        i <= s@.len(),
    ensures
        r is Ok ==> spec_parse_attribute(s@, i as int) == Some(
            ((r->Ok_0).0@, (r->Ok_0).1 as int),
        ),
        r is Ok ==> i < (r->Ok_0).1 <= s@.len(),
        r is Err ==> spec_parse_attribute(s@, i as int) is None,
        r is Err ==> r->Err_0 is Syntax,
{
    let (key, e) = match parse_path(s, i) {
        Ok(p) => p,
        Err(err) => {
            return Err(err);
        },
    };
    let j = skip_ws(s, e);
    let (op, e2) = match parse_operator(s, j) {
        Some(p) => p,
        None => {
            let found = if j < s.len() {
                Some(s[j])
            } else {
                None
            };
            return Err(SelectorError::Syntax { at: j, found, expected: expected1("operator") });
        },
    };
    let j2 = skip_ws(s, e2);
    let (value, e3) = match parse_string(s, j2) {
        Ok(p) => p,
        Err(err) => {
            return Err(err);
        },
    };
    let key_s = helpers::chars_to_string(&key);
    let value_s = helpers::chars_to_string(&value);
    Ok((Attribute { key: key_s, operator: op, value: value_s }, e3))
}

// ---------------------------------------------------------------------------
// Attribute lists and blocks
// ---------------------------------------------------------------------------

/// Prefixes already-parsed attributes of a partial list.
pub open spec fn spec_append_attrs(
    prefix: Seq<AttributeModel>,
    r: Option<(Seq<AttributeModel>, int)>,
) -> Option<(Seq<AttributeModel>, int)> {
    match r {
        None => None,
        Some((t, e)) => Some((prefix + t, e)),
    }
}

/// A comma-separated attribute list, at least one attribute, commas padded.
pub open spec fn spec_parse_attr_list(s: Seq<char>, i: int) -> Option<(Seq<AttributeModel>, int)>
    decreases s.len() - i
        when 0 <= i <= s.len()
{
    match spec_parse_attribute(s, i) {
        None => None,
        Some((a, e)) => {
            if !(i < e <= s.len()) {
                None
            } else {
                let j = spec_skip_ws(s, e);
                if !(e <= j <= s.len()) {
                    None
                } else if j < s.len() && s[j] == ',' {
                    let j2 = spec_skip_ws(s, j + 1);
                    if !(j + 1 <= j2 <= s.len()) {
                        None
                    } else {
                        match spec_parse_attr_list(s, j2) {
                            None => None,
                            Some((rest, e2)) => Some((seq![a] + rest, e2)),
                        }
                    }
                } else {
                    Some((seq![a], e))
                }
            }
        },
    }
}

/// Scans a comma-separated attribute list at `i`.
fn parse_attr_list(s: &Vec<char>, i: usize) -> (r: Result<(Vec<Attribute>, usize), SelectorError>)
    requires
        i <= s@.len(),
    ensures
        r is Ok ==> spec_parse_attr_list(s@, i as int) == Some(
            ((r->Ok_0).0@.map_values(|a: Attribute| a@), (r->Ok_0).1 as int),
        ),
        r is Ok ==> i < (r->Ok_0).1 <= s@.len(),
        r is Err ==> spec_parse_attr_list(s@, i as int) is None,
        r is Err ==> r->Err_0 is Syntax,
{
    broadcast use vstd::prelude::Seq::lemma_push_map_commute;

    let mut acc: Vec<Attribute> = Vec::new();
    let mut cur = i;
    proof {
        assert(acc@.map_values(|a: Attribute| a@) =~= Seq::<AttributeModel>::empty());
        assert(spec_append_attrs(
            acc@.map_values(|a: Attribute| a@),
            spec_parse_attr_list(s@, i as int),
        ) == spec_parse_attr_list(s@, i as int)) by {
            match spec_parse_attr_list(s@, i as int) {
                None => {},
                Some((t, e)) => {
                    assert(Seq::<AttributeModel>::empty() + t =~= t);
                },
            }
        }
    }
    loop
        invariant
            i <= cur <= s@.len(),
            spec_parse_attr_list(s@, i as int) == spec_append_attrs(
                acc@.map_values(|a: Attribute| a@),
                spec_parse_attr_list(s@, cur as int),
            ),
        decreases s@.len() - cur,
    {
        let ghost old_models = acc@.map_values(|a: Attribute| a@);
        let ghost old_cur = cur as int;
        let (a, e) = match parse_attribute(s, cur) {
            Ok(p) => p,
            Err(err) => {
                return Err(err);
            },
        };
        let j = skip_ws(s, e);
        if j < s.len() && s[j] == ',' {
            let j2 = skip_ws(s, j + 1);
            proof {
                assert(spec_parse_attr_list(s@, old_cur) == spec_append_attrs(
                    seq![a@],
                    spec_parse_attr_list(s@, j2 as int),
                ));
            }
            acc.push(a);
            cur = j2;
            proof {
                assert(acc@.map_values(|x: Attribute| x@) =~= old_models.push(a@));
                assert(spec_append_attrs(old_models, spec_append_attrs(
                    seq![a@],
                    spec_parse_attr_list(s@, cur as int),
                )) == spec_append_attrs(
                    acc@.map_values(|x: Attribute| x@),
                    spec_parse_attr_list(s@, cur as int),
                )) by {
                    match spec_parse_attr_list(s@, cur as int) {
                        None => {},
                        Some((t, e2)) => {
                            assert(old_models + (seq![a@] + t) =~= old_models.push(a@) + t);
                        },
                    }
                }
            }
        } else {
            proof {
                assert(spec_parse_attr_list(s@, old_cur) == Some((seq![a@], e as int)));
            }
            acc.push(a);
            proof {
                assert(acc@.map_values(|x: Attribute| x@) =~= old_models.push(a@));
                assert(old_models + seq![a@] =~= old_models.push(a@));
            }
            return Ok((acc, e));
        }
    }
}

/// Zero or more bracketed attribute blocks, each padded, `[]` allowed and
/// contributing nothing; the attributes of all blocks are chained.
pub open spec fn spec_parse_blocks(s: Seq<char>, i: int) -> Option<(Seq<AttributeModel>, int)>
    decreases s.len() - i
        when 0 <= i <= s.len()
{
    let j = spec_skip_ws(s, i);
    if !(i <= j <= s.len()) {
        None
    } else if j < s.len() && s[j] == '[' {
        let j2 = spec_skip_ws(s, j + 1);
        if !(j + 1 <= j2 <= s.len()) {
            None
        } else if j2 < s.len() && s[j2] == ']' {
            spec_parse_blocks(s, j2 + 1)
        } else {
            match spec_parse_attr_list(s, j2) {
                None => None,
                Some((attrs, e)) => {
                    if !(j2 < e <= s.len()) {
                        None
                    } else {
                        let j3 = spec_skip_ws(s, e);
                        if !(e <= j3 <= s.len()) {
                            None
                        } else if j3 < s.len() && s[j3] == ']' {
                            match spec_parse_blocks(s, j3 + 1) {
                                None => None,
                                Some((rest, e2)) => Some((attrs + rest, e2)),
                            }
                        } else {
                            None
                        }
                    }
                },
            }
        }
    } else {
        Some((Seq::empty(), i))
    }
}

/// Scans attribute blocks at `i`.
fn parse_blocks(s: &Vec<char>, i: usize) -> (r: Result<(Vec<Attribute>, usize), SelectorError>)
    requires
        i <= s@.len(),
    ensures
        r is Ok ==> spec_parse_blocks(s@, i as int) == Some(
            ((r->Ok_0).0@.map_values(|a: Attribute| a@), (r->Ok_0).1 as int),
        ),
        r is Ok ==> i <= (r->Ok_0).1 <= s@.len(),
        r is Err ==> spec_parse_blocks(s@, i as int) is None,
        r is Err ==> r->Err_0 is Syntax,
{
    let mut acc: Vec<Attribute> = Vec::new();
    let mut cur = i;
    proof {
        assert(acc@.map_values(|a: Attribute| a@) =~= Seq::<AttributeModel>::empty());
        assert(spec_append_attrs(
            acc@.map_values(|a: Attribute| a@),
            spec_parse_blocks(s@, i as int),
        ) == spec_parse_blocks(s@, i as int)) by {
            match spec_parse_blocks(s@, i as int) {
                None => {},
                Some((t, e)) => {
                    assert(Seq::<AttributeModel>::empty() + t =~= t);
                },
            }
        }
    }
    loop
        invariant
            i <= cur <= s@.len(),
            spec_parse_blocks(s@, i as int) == spec_append_attrs(
                acc@.map_values(|a: Attribute| a@),
                spec_parse_blocks(s@, cur as int),
            ),
        decreases s@.len() - cur,
    {
        let ghost old_models = acc@.map_values(|a: Attribute| a@);
        let ghost old_cur = cur as int;
        let j = skip_ws(s, cur);
        if j < s.len() && s[j] == '[' {
            let j2 = skip_ws(s, j + 1);
            if j2 < s.len() && s[j2] == ']' {
                cur = j2 + 1;
                proof {
                    assert(spec_parse_blocks(s@, old_cur) == spec_parse_blocks(s@, cur as int));
                }
            } else {
                let (mut attrs, e) = match parse_attr_list(s, j2) {
                    Ok(p) => p,
                    Err(err) => {
                        return Err(err);
                    },
                };
                let j3 = skip_ws(s, e);
                if j3 < s.len() && s[j3] == ']' {
                    let ghost attr_models = attrs@.map_values(|a: Attribute| a@);
                    proof {
                        assert(spec_parse_blocks(s@, old_cur) == spec_append_attrs(
                            attr_models,
                            spec_parse_blocks(s@, j3 + 1),
                        ));
                    }
                    acc.append(&mut attrs);
                    cur = j3 + 1;
                    proof {
                        assert(acc@.map_values(|x: Attribute| x@) =~= old_models + attr_models) by {
                            assert(forall|n: int|
                                0 <= n < acc@.len() ==> acc@.map_values(|x: Attribute| x@)[n]
                                    == (#[trigger] acc@[n])@);
                            assert(forall|n: int|
                                0 <= n < old_models.len() ==> old_models[n] == (
                                #[trigger] (old_models + attr_models)[n]));
                        }
                        assert(spec_append_attrs(old_models, spec_append_attrs(
                            attr_models,
                            spec_parse_blocks(s@, cur as int),
                        )) == spec_append_attrs(
                            old_models + attr_models,
                            spec_parse_blocks(s@, cur as int),
                        )) by {
                            match spec_parse_blocks(s@, cur as int) {
                                None => {},
                                Some((t, e2)) => {
                                    assert(old_models + (attr_models + t) =~= (old_models
                                        + attr_models) + t);
                                },
                            }
                        }
                    }
                } else {
                    let found = if j3 < s.len() {
                        Some(s[j3])
                    } else {
                        None
                    };
                    return Err(
                        SelectorError::Syntax { at: j3, found, expected: expected2(",", "]") },
                    );
                }
            }
        } else {
            proof {
                assert(spec_parse_blocks(s@, old_cur) == Some(
                    (Seq::<AttributeModel>::empty(), old_cur),
                ));
                assert(old_models + Seq::<AttributeModel>::empty() =~= old_models);
            }
            return Ok((acc, cur));
        }
    }
}

// ---------------------------------------------------------------------------
// Selectors
// ---------------------------------------------------------------------------

/// One selector alternative: an operating-system keyword followed by its
/// attribute blocks.
pub open spec fn spec_parse_selector(s: Seq<char>, i: int) -> Option<(SelectorModel, int)> {
    match spec_parse_os(s, i) {
        None => None,
        Some((os, e)) => {
            if !(i < e <= s.len()) {
                None
            } else {
                match spec_parse_blocks(s, e) {
                    None => None,
                    Some((attrs, e2)) => Some((SelectorModel { os, attributes: attrs }, e2)),
                }
            }
        },
    }
}

/// Scans one selector alternative at `i`.
fn parse_selector(s: &Vec<char>, i: usize) -> (r: Result<(Selector, usize), SelectorError>)
    requires
        i <= s@.len(),
    ensures
        r is Ok ==> spec_parse_selector(s@, i as int) == Some(
            ((r->Ok_0).0@, (r->Ok_0).1 as int),
        ),
        r is Ok ==> i < (r->Ok_0).1 <= s@.len(),
        r is Err ==> spec_parse_selector(s@, i as int) is None,
        r is Err ==> r->Err_0 is Syntax,
{
    let (w, e) = match parse_ident(s, i) {
        Some(p) => p,
        None => {
            let found = if i < s.len() {
                Some(s[i])
            } else {
                None
            };
            return Err(
                SelectorError::Syntax { at: i, found, expected: expected1("operating system") },
            );
        },
    };
    let os = match os_of(&w) {
        Some(os) => os,
        None => {
            let found = if i < s.len() {
                Some(s[i])
            } else {
                None
            };
            return Err(
                SelectorError::Syntax { at: i, found, expected: expected1("operating system") },
            );
        },
    };
    let (attributes, e2) = match parse_blocks(s, e) {
        Ok(p) => p,
        Err(err) => {
            return Err(err);
        },
    };
    Ok((Selector { os, attributes }, e2))
}

/// Prefixes already-parsed alternatives of a partial selector list.
pub open spec fn spec_append_selectors(
    prefix: Seq<SelectorModel>,
    r: Option<(Seq<SelectorModel>, int)>,
) -> Option<(Seq<SelectorModel>, int)> {
    match r {
        None => None,
        Some((t, e)) => Some((prefix + t, e)),
    }
}

/// Pipe-separated selector alternatives, at least one, pipes padded.
pub open spec fn spec_parse_selectors_list(s: Seq<char>, i: int) -> Option<
    (Seq<SelectorModel>, int),
>
    decreases s.len() - i
        when 0 <= i <= s.len()
{
    match spec_parse_selector(s, i) {
        None => None,
        Some((sel, e)) => {
            if !(i < e <= s.len()) {
                None
            } else {
                let j = spec_skip_ws(s, e);
                if !(e <= j <= s.len()) {
                    None
                } else if j < s.len() && s[j] == '|' {
                    let j2 = spec_skip_ws(s, j + 1);
                    if !(j + 1 <= j2 <= s.len()) {
                        None
                    } else {
                        match spec_parse_selectors_list(s, j2) {
                            None => None,
                            Some((rest, e2)) => Some((seq![sel] + rest, e2)),
                        }
                    }
                } else {
                    Some((seq![sel], e))
                }
            }
        },
    }
}

/// Scans a pipe-separated selector list at `i`.
fn parse_selectors_list(s: &Vec<char>, i: usize) -> (r: Result<
    (Vec<Selector>, usize),
    SelectorError,
>)
    requires
        i <= s@.len(),
    ensures
        r is Ok ==> spec_parse_selectors_list(s@, i as int) == Some(
            ((r->Ok_0).0@.map_values(|x: Selector| x@), (r->Ok_0).1 as int),
        ),
        r is Ok ==> i < (r->Ok_0).1 <= s@.len() && (r->Ok_0).0@.len() >= 1,
        r is Err ==> spec_parse_selectors_list(s@, i as int) is None,
        r is Err ==> r->Err_0 is Syntax,
{
    let mut acc: Vec<Selector> = Vec::new();
    let mut cur = i;
    proof {
        assert(acc@.map_values(|x: Selector| x@) =~= Seq::<SelectorModel>::empty());
        assert(spec_append_selectors(
            acc@.map_values(|x: Selector| x@),
            spec_parse_selectors_list(s@, i as int),
        ) == spec_parse_selectors_list(s@, i as int)) by {
            match spec_parse_selectors_list(s@, i as int) {
                None => {},
                Some((t, e)) => {
                    assert(Seq::<SelectorModel>::empty() + t =~= t);
                },
            }
        }
    }
    loop
        invariant
            i <= cur <= s@.len(),
            spec_parse_selectors_list(s@, i as int) == spec_append_selectors(
                acc@.map_values(|x: Selector| x@),
                spec_parse_selectors_list(s@, cur as int),
            ),
        decreases s@.len() - cur,
    {
        let ghost old_models = acc@.map_values(|x: Selector| x@);
        let ghost old_cur = cur as int;
        let (sel, e) = match parse_selector(s, cur) {
            Ok(p) => p,
            Err(err) => {
                return Err(err);
            },
        };
        let j = skip_ws(s, e);
        if j < s.len() && s[j] == '|' {
            let j2 = skip_ws(s, j + 1);
            proof {
                assert(spec_parse_selectors_list(s@, old_cur) == spec_append_selectors(
                    seq![sel@],
                    spec_parse_selectors_list(s@, j2 as int),
                ));
            }
            acc.push(sel);
            cur = j2;
            proof {
                assert(acc@.map_values(|x: Selector| x@) =~= old_models.push(sel@));
                assert(spec_append_selectors(old_models, spec_append_selectors(
                    seq![sel@],
                    spec_parse_selectors_list(s@, cur as int),
                )) == spec_append_selectors(
                    acc@.map_values(|x: Selector| x@),
                    spec_parse_selectors_list(s@, cur as int),
                )) by {
                    match spec_parse_selectors_list(s@, cur as int) {
                        None => {},
                        Some((t, e2)) => {
                            assert(old_models + (seq![sel@] + t) =~= old_models.push(sel@) + t);
                        },
                    }
                }
            }
        } else {
            proof {
                assert(spec_parse_selectors_list(s@, old_cur) == Some((seq![sel@], e as int)));
            }
            acc.push(sel);
            proof {
                assert(acc@.map_values(|x: Selector| x@) =~= old_models.push(sel@));
                assert(old_models + seq![sel@] =~= old_models.push(sel@));
            }
            return Ok((acc, e));
        }
    }
}

/// Whether any alternative carries the `global` tag.
pub open spec fn has_global(sels: Seq<SelectorModel>) -> bool {
    exists|i: int| 0 <= i < sels.len() && (#[trigger] sels[i]).os == Os::Global
}

/// The post-parse validation: `global` cannot be mixed with a named
/// operating system within one selector group.
pub open spec fn valid_selectors(sels: Seq<SelectorModel>) -> bool {
    has_global(sels) ==> sels.len() == 1
}

/// The whole selector string: padded alternatives up to the end of input.
pub open spec fn spec_parse_selectors(s: Seq<char>) -> Option<Seq<SelectorModel>> {
    let j = spec_skip_ws(s, 0);
    if !(0 <= j <= s.len()) {
        None
    } else {
        match spec_parse_selectors_list(s, j) {
            None => None,
            Some((sels, e)) => {
                if !(0 <= e <= s.len()) {
                    None
                } else {
                    let j2 = spec_skip_ws(s, e);
                    if j2 == s.len() {
                        Some(sels)
                    } else {
                        None
                    }
                }
            },
        }
    }
}

/// Parsing is deterministic: the parse of a selector string is a function of
/// its characters alone, so re-parsing an equal string yields a structurally
/// equal result.
pub proof fn lemma_parse_deterministic(s1: Seq<char>, s2: Seq<char>)
    requires
        s1 == s2,
    ensures
        spec_parse_selectors(s1) == spec_parse_selectors(s2),
{
}

/// A selector group that holds a `global` alternative beside any other
/// alternative is never valid, whatever the ordering, so parsing such a
/// group always fails.
pub proof fn lemma_global_mixed_never_valid(sels: Seq<SelectorModel>, i: int, j: int)
    requires
        0 <= i < sels.len(),
        0 <= j < sels.len(),
        i != j,
        sels[i].os == crate::helpers::Os::Global,
    ensures
        !valid_selectors(sels),
{
    assert(has_global(sels));
}

impl Selectors {
    /// Whether any alternative of this group is `global`.
    pub fn is_global(&self) -> (r: bool)
        ensures
            r == has_global(self@),
    {
        let mut i: usize = 0;
        while i < self.0.len()
            invariant
                i <= self.0@.len(),
                forall|j: int| 0 <= j < i ==> (#[trigger] self.0@[j]).os != Os::Global,
            decreases self.0@.len() - i,
        {
            if self.0[i].os.is_global() {
                proof {
                    assert(self@[i as int].os == Os::Global);
                }
                return true;
            }
            i = i + 1;
        }
        proof {
            assert(forall|j: int|
                0 <= j < self@.len() ==> (#[trigger] self@[j]).os == self.0@[j].os);
        }
        false
    }

    /// Parses a selector-group string.  Succeeds exactly on strings the
    /// grammar accepts whose alternatives do not mix `global` with a named
    /// operating system; a syntax error reports the offending position and
    /// an expectation set.
    pub fn from_str(s: &str) -> (r: Result<Selectors, Vec<SelectorError>>)
        ensures
            r is Ok ==> spec_parse_selectors(s@) == Some(r->Ok_0@) && valid_selectors(r->Ok_0@),
            r is Err ==> (spec_parse_selectors(s@) matches Some(sels) ==> !valid_selectors(sels)),
            r is Err ==> r->Err_0@.len() == 1,
            r is Err && spec_parse_selectors(s@) is Some ==> r->Err_0@[0] is GlobalMixed,
            r is Err && spec_parse_selectors(s@) is None ==> r->Err_0@[0] is Syntax,
    {
        let chars = helpers::str_to_chars(s);
        let j = skip_ws(&chars, 0);
        let (sels, e) = match parse_selectors_list(&chars, j) {
            Ok(p) => p,
            Err(err) => {
                let mut errs: Vec<SelectorError> = Vec::new();
                errs.push(err);
                return Err(errs);
            },
        };
        let j2 = skip_ws(&chars, e);
        if j2 != chars.len() {
            let mut errs: Vec<SelectorError> = Vec::new();
            errs.push(
                SelectorError::Syntax {
                    at: j2,
                    found: Some(chars[j2]),
                    expected: expected2("|", "end of input"),
                },
            );
            return Err(errs);
        }
        let group = Selectors(sels);
        if group.is_global() && group.0.len() > 1 {
            let mut errs: Vec<SelectorError> = Vec::new();
            errs.push(SelectorError::GlobalMixed);
            return Err(errs);
        }
        Ok(group)
    }
}

// ---------------------------------------------------------------------------
// Predicate evaluation against rendered attribute values
// ---------------------------------------------------------------------------

/// Rendered attribute values: each key of a selector's attributes mapped to
/// the string the template engine rendered for it.  Keeping this a plain
/// table lets evaluation be deterministic and checkable; the caller renders.
#[derive(Debug, Clone, PartialEq, Default)]
pub struct AttributeValues {
    pub entries: Vec<(String, String)>,
}

impl View for AttributeValues {
    type V = Seq<(Seq<char>, Seq<char>)>;

    open spec fn view(&self) -> Seq<(Seq<char>, Seq<char>)> {
        self.entries@.map_values(|p: (String, String)| (p.0@, p.1@))
    }
}

/// The first value recorded for `k`, if any.
pub open spec fn spec_lookup(entries: Seq<(Seq<char>, Seq<char>)>, k: Seq<char>) -> Option<
    Seq<char>,
>
    decreases entries.len(),
{
    if entries.len() == 0 {
        None
    } else if entries[0].0 == k {
        Some(entries[0].1)
    } else {
        spec_lookup(entries.drop_first(), k)
    }
}

impl AttributeValues {
    /// Builds the table from key/value pairs.
    pub fn new(entries: Vec<(String, String)>) -> (r: AttributeValues)
        ensures
            r.entries == entries,
    {
        AttributeValues { entries }
    }

    /// Looks `key` up, handing back the first recorded value.
    pub fn lookup(&self, key: &str) -> (r: Option<String>)
        ensures
            r is Some <==> spec_lookup(self@, key@) is Some,
            r is Some ==> Some(r->0@) == spec_lookup(self@, key@),
    {
        let mut i: usize = 0;
        proof {
            assert(self@.skip(0) =~= self@);
        }
        while i < self.entries.len()
            invariant
                i <= self.entries@.len(),
                spec_lookup(self@, key@) == spec_lookup(self@.skip(i as int), key@),
            decreases self.entries@.len() - i,
        {
            proof {
                assert(self@.skip(i as int)[0] == (self.entries@[i as int].0@, self.entries@[
                    i as int].1@));
                assert(self@.skip(i as int).drop_first() =~= self@.skip(i + 1));
            }
            if helpers::str_eq(self.entries[i].0.as_str(), key) {
                return Some(self.entries[i].1.clone());
            }
            i = i + 1;
        }
        proof {
            assert(self@.skip(self.entries@.len() as int) =~= Seq::<(Seq<char>, Seq<char>)>::empty());
        }
        None
    }
}

/// Whether the rendered value satisfies the predicate's operator.
pub open spec fn attr_holds(a: AttributeModel, rendered: Seq<char>) -> bool {
    match a.operator {
        Operator::Equal => rendered == a.value,
        Operator::StartsWith => helpers::is_prefix_of(a.value, rendered),
        Operator::EndsWith => helpers::is_suffix_of(a.value, rendered),
        Operator::Contains => helpers::seq_contains(rendered, a.value),
        Operator::NotEqual => rendered != a.value,
    }
}

/// Whether an alternative's tag applies on the current system.
pub open spec fn os_matches(sel_os: Os, current: Os) -> bool {
    sel_os == Os::Global || sel_os == current
}

/// Keys of `attrs` with no rendered value, in order.
pub open spec fn alt_missing(attrs: Seq<AttributeModel>, vals: Seq<(Seq<char>, Seq<char>)>) -> Seq<
    Seq<char>,
>
    decreases attrs.len(),
{
    if attrs.len() == 0 {
        Seq::empty()
    } else {
        let head: Seq<Seq<char>> = if spec_lookup(vals, attrs[0].key) is None {
            seq![attrs[0].key]
        } else {
            Seq::empty()
        };
        head + alt_missing(attrs.drop_first(), vals)
    }
}

/// Every predicate whose key has a rendered value holds; keys without one
/// are reported separately as errors, never treated as a failed predicate.
pub open spec fn alt_holds(attrs: Seq<AttributeModel>, vals: Seq<(Seq<char>, Seq<char>)>) -> bool {
    forall|i: int|
        0 <= i < attrs.len() ==> (match spec_lookup(vals, (#[trigger] attrs[i]).key) {
            Some(rv) => attr_holds(attrs[i], rv),
            None => true,
        })
}

/// All missing keys across the alternatives whose tag applies, in document
/// order.
pub open spec fn selectors_missing(
    sels: Seq<SelectorModel>,
    os: Os,
    vals: Seq<(Seq<char>, Seq<char>)>,
) -> Seq<Seq<char>>
    decreases sels.len(),
{
    if sels.len() == 0 {
        Seq::empty()
    } else {
        let head: Seq<Seq<char>> = if os_matches(sels[0].os, os) {
            alt_missing(sels[0].attributes, vals)
        } else {
            Seq::empty()
        };
        head + selectors_missing(sels.drop_first(), os, vals)
    }
}

/// The group applies when some alternative's tag matches the current system
/// and all of its evaluated predicates hold.
pub open spec fn spec_applies(
    sels: Seq<SelectorModel>,
    os: Os,
    vals: Seq<(Seq<char>, Seq<char>)>,
) -> bool {
    exists|i: int|
        0 <= i < sels.len() && os_matches((#[trigger] sels[i]).os, os) && alt_holds(
            sels[i].attributes,
            vals,
        )
}

proof fn lemma_alt_missing_push(
    attrs: Seq<AttributeModel>,
    x: AttributeModel,
    vals: Seq<(Seq<char>, Seq<char>)>,
)
    ensures
        alt_missing(attrs.push(x), vals) == alt_missing(attrs, vals) + (if spec_lookup(
            vals,
            x.key,
        ) is None {
            seq![x.key]
        } else {
            Seq::<Seq<char>>::empty()
        }),
    decreases attrs.len(),
{
    let tail: Seq<Seq<char>> = if spec_lookup(vals, x.key) is None {
        seq![x.key]
    } else {
        Seq::empty()
    };
    if attrs.len() == 0 {
        assert(attrs.push(x)[0] == x);
        assert(attrs.push(x).drop_first() =~= Seq::<AttributeModel>::empty());
        assert(alt_missing(attrs, vals) == Seq::<Seq<char>>::empty());
        assert(alt_missing(Seq::<AttributeModel>::empty(), vals) == Seq::<Seq<char>>::empty());
        assert(alt_missing(attrs.push(x), vals) == tail + Seq::<Seq<char>>::empty());
        assert(alt_missing(attrs.push(x), vals) =~= alt_missing(attrs, vals) + tail);
    } else {
        assert(attrs.push(x)[0] == attrs[0]);
        assert(attrs.push(x).drop_first() =~= attrs.drop_first().push(x));
        lemma_alt_missing_push(attrs.drop_first(), x, vals);
        let head: Seq<Seq<char>> = if spec_lookup(vals, attrs[0].key) is None {
            seq![attrs[0].key]
        } else {
            Seq::empty()
        };
        assert(alt_missing(attrs.push(x), vals) == head + alt_missing(attrs.drop_first().push(x), vals));
        assert(alt_missing(attrs, vals) == head + alt_missing(attrs.drop_first(), vals));
        assert(alt_missing(attrs.push(x), vals) =~= alt_missing(attrs, vals) + tail);
    }
}

proof fn lemma_selectors_missing_push(
    sels: Seq<SelectorModel>,
    x: SelectorModel,
    os: Os,
    vals: Seq<(Seq<char>, Seq<char>)>,
)
    ensures
        selectors_missing(sels.push(x), os, vals) == selectors_missing(sels, os, vals) + (
        if os_matches(x.os, os) {
            alt_missing(x.attributes, vals)
        } else {
            Seq::<Seq<char>>::empty()
        }),
    decreases sels.len(),
{
    let tail: Seq<Seq<char>> = if os_matches(x.os, os) {
        alt_missing(x.attributes, vals)
    } else {
        Seq::empty()
    };
    if sels.len() == 0 {
        assert(sels.push(x)[0] == x);
        assert(sels.push(x).drop_first() =~= Seq::<SelectorModel>::empty());
        assert(selectors_missing(sels, os, vals) == Seq::<Seq<char>>::empty());
        assert(selectors_missing(Seq::<SelectorModel>::empty(), os, vals) == Seq::<Seq<char>>::empty());
        assert(selectors_missing(sels.push(x), os, vals) == tail + Seq::<Seq<char>>::empty());
        assert(selectors_missing(sels.push(x), os, vals) =~= selectors_missing(sels, os, vals)
            + tail);
    } else {
        assert(sels.push(x)[0] == sels[0]);
        assert(sels.push(x).drop_first() =~= sels.drop_first().push(x));
        lemma_selectors_missing_push(sels.drop_first(), x, os, vals);
        let head: Seq<Seq<char>> = if os_matches(sels[0].os, os) {
            alt_missing(sels[0].attributes, vals)
        } else {
            Seq::empty()
        };
        assert(selectors_missing(sels.push(x), os, vals) == head + selectors_missing(
            sels.drop_first().push(x),
            os,
            vals,
        ));
        assert(selectors_missing(sels, os, vals) == head + selectors_missing(
            sels.drop_first(),
            os,
            vals,
        ));
        assert(selectors_missing(sels.push(x), os, vals) =~= selectors_missing(sels, os, vals)
            + tail);
    }
}

/// Evaluates one predicate against its rendered value.
fn attr_eval(a: &Attribute, rendered: &String) -> (r: bool)
    ensures
        r == attr_holds(a@, rendered@),
{
    let rv = helpers::str_to_chars(rendered.as_str());
    let pv = helpers::str_to_chars(a.value.as_str());
    match a.operator {
        Operator::Equal => helpers::chars_eq(&rv, &pv),
        Operator::StartsWith => helpers::chars_starts_with(&rv, &pv),
        Operator::EndsWith => helpers::chars_ends_with(&rv, &pv),
        Operator::Contains => helpers::chars_contains(&rv, &pv),
        Operator::NotEqual => !helpers::chars_eq(&rv, &pv),
    }
}

impl Selectors {
    /// Whether this group applies on `current_os` under the rendered
    /// `values`.  A key without a rendered value in an alternative whose tag
    /// matches is a hard error carrying every such key, never a predicate
    /// that silently evaluates false.
    pub fn applies(&self, current_os: Os, values: &AttributeValues) -> (r: Result<
        bool,
        Vec<String>,
    >)
        ensures
            selectors_missing(self@, current_os, values@).len() == 0 ==> r == Ok::<
                bool,
                Vec<String>,
            >(spec_applies(self@, current_os, values@)),
            selectors_missing(self@, current_os, values@).len() > 0 ==> r is Err
                && r->Err_0.deep_view() == selectors_missing(self@, current_os, values@),
    {
        let ghost sv = self@;
        let ghost vv = values@;
        let mut errors: Vec<String> = Vec::new();
        let mut applies = false;
        let mut i: usize = 0;
        proof {
            assert(sv.take(0) =~= Seq::<SelectorModel>::empty());
            assert(errors.deep_view() =~~= selectors_missing(sv.take(0), current_os, vv));
            assert(!spec_applies(sv.take(0), current_os, vv));
        }
        while i < self.0.len()
            invariant
                i <= self.0@.len(),
                sv == self@,
                vv == values@,
                errors.deep_view() == selectors_missing(sv.take(i as int), current_os, vv),
                applies == spec_applies(sv.take(i as int), current_os, vv),
            decreases self.0@.len() - i,
        {
            let ghost old_errors = errors.deep_view();
            let sel = &self.0[i];
            proof {
                assert(sv[i as int] == sel@);
                assert(sv.take(i + 1) =~= sv.take(i as int).push(sv[i as int]));
                lemma_selectors_missing_push(sv.take(i as int), sv[i as int], current_os, vv);
            }
            let os_ok = sel.os.is_global() || sel.os == current_os;
            proof {
                assert(os_ok == os_matches(sel@.os, current_os));
            }
            let mut all = true;
            if os_ok {
                let ghost av = sel@.attributes;
                let mut j: usize = 0;
                proof {
                    assert(av.take(0) =~= Seq::<AttributeModel>::empty());
                    assert(alt_missing(av.take(0), vv) =~~= Seq::<Seq<char>>::empty());
                    assert(errors.deep_view() =~~= old_errors + alt_missing(av.take(0), vv));
                    assert(alt_holds(av.take(0), vv));
                }
                while j < sel.attributes.len()
                    invariant
                        j <= sel.attributes@.len(),
                        av == sel@.attributes,
                        vv == values@,
                        av.len() == sel.attributes@.len(),
                        forall|m: int|
                            0 <= m < av.len() ==> av[m] == (#[trigger] sel.attributes@[m])@,
                        errors.deep_view() == old_errors + alt_missing(av.take(j as int), vv),
                        all == alt_holds(av.take(j as int), vv),
                    decreases sel.attributes@.len() - j,
                {
                    let a = &sel.attributes[j];
                    proof {
                        assert(av[j as int] == a@);
                        assert(av.take(j + 1) =~= av.take(j as int).push(av[j as int]));
                        lemma_alt_missing_push(av.take(j as int), av[j as int], vv);
                    }
                    match values.lookup(a.key.as_str()) {
                        None => {
                            let ghost pre = errors.deep_view();
                            errors.push(a.key.clone());
                            proof {
                                assert(errors.deep_view() =~~= pre.push(a@.key));
                                assert(errors.deep_view() =~~= old_errors + alt_missing(
                                    av.take(j + 1),
                                    vv,
                                ));
                                assert(alt_holds(av.take(j + 1), vv) == alt_holds(
                                    av.take(j as int),
                                    vv,
                                )) by {
                                    assert(forall|m: int|
                                        0 <= m < j ==> av.take(j + 1)[m] == (#[trigger] av.take(
                                            j as int,
                                        )[m]));
                                    assert(av.take(j + 1)[j as int] == av[j as int]);
                                }
                            }
                        },
                        Some(rendered) => {
                            let ok = attr_eval(a, &rendered);
                            if !ok {
                                all = false;
                            }
                            proof {
                                assert(errors.deep_view() =~~= old_errors + alt_missing(
                                    av.take(j + 1),
                                    vv,
                                ));
                                assert(alt_holds(av.take(j + 1), vv) == (alt_holds(
                                    av.take(j as int),
                                    vv,
                                ) && attr_holds(av[j as int], rendered@))) by {
                                    assert(forall|m: int|
                                        0 <= m < j ==> av.take(j + 1)[m] == (#[trigger] av.take(
                                            j as int,
                                        )[m]));
                                    assert(av.take(j + 1)[j as int] == av[j as int]);
                                }
                            }
                        },
                    }
                    j = j + 1;
                }
                proof {
                    assert(av.take(av.len() as int) =~= av);
                }
            } else {
                proof {
                    assert(errors.deep_view() =~~= old_errors + Seq::<Seq<char>>::empty());
                }
            }
            if os_ok && all {
                applies = true;
            }
            proof {
                assert(spec_applies(sv.take(i + 1), current_os, vv) == (spec_applies(
                    sv.take(i as int),
                    current_os,
                    vv,
                ) || (os_matches(sv[i as int].os, current_os) && alt_holds(
                    sv[i as int].attributes,
                    vv,
                )))) by {
                    if spec_applies(sv.take(i + 1), current_os, vv) {
                        let m = choose|m: int|
                            0 <= m < sv.take(i + 1).len() && os_matches(
                                (#[trigger] sv.take(i + 1)[m]).os,
                                current_os,
                            ) && alt_holds(sv.take(i + 1)[m].attributes, vv);
                        if m < i {
                            assert(sv.take(i as int)[m] == sv.take(i + 1)[m]);
                            assert(spec_applies(sv.take(i as int), current_os, vv));
                        } else {
                            assert(sv.take(i + 1)[m] == sv[i as int]);
                        }
                    }
                    if spec_applies(sv.take(i as int), current_os, vv) {
                        let m = choose|m: int|
                            0 <= m < sv.take(i as int).len() && os_matches(
                                (#[trigger] sv.take(i as int)[m]).os,
                                current_os,
                            ) && alt_holds(sv.take(i as int)[m].attributes, vv);
                        assert(sv.take(i + 1)[m] == sv.take(i as int)[m]);
                        assert(spec_applies(sv.take(i + 1), current_os, vv));
                    }
                    if os_matches(sv[i as int].os, current_os) && alt_holds(
                        sv[i as int].attributes,
                        vv,
                    ) {
                        assert(sv.take(i + 1)[i as int] == sv[i as int]);
                        assert(spec_applies(sv.take(i + 1), current_os, vv));
                    }
                }
            }
            i = i + 1;
        }
        proof {
            assert(sv.take(sv.len() as int) =~= sv);
        }
        if errors.len() > 0 {
            Err(errors)
        } else {
            Ok(applies)
        }
    }
}

} // verus!
