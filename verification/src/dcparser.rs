//! Grammar engine: a recursive-descent parser from a token stream to a
//! schema model.
//!
//! The grammar's disambiguation rules are explicit lookahead checks
//! here: an optional trailing name never collapses to absent when the
//! lookahead is an identifier; a bracketed range never collapses to a
//! single value when the lookahead is the range separator; a struct-type
//! parameter is not chosen while an array bracket follows; and parameter
//! lists accept an optional trailing separator.  The model is built
//! incrementally and discarded on failure.

use vstd::prelude::*;
use crate::dclexer::DCToken;
use crate::dclexer::LexError;
use crate::dclexer::Span;
use crate::dclexer::lex;
use crate::dclexer::lex_rel;
use crate::dclexer::text_scans;
use crate::dcfile::ArrayParameter;
use crate::dcfile::AtomicField;
use crate::dcfile::BaseType;
use crate::dcfile::CharParameter;
use crate::dcfile::DCFile;
use crate::dcfile::DCImport;
use crate::dcfile::DCImportRecord;
use crate::dcfile::DataType;
use crate::dcfile::DistributedClassType;
use crate::dcfile::FieldDecl;
use crate::dcfile::FieldDecl_;
use crate::dcfile::FieldType;
use crate::dcfile::FloatParameter;
use crate::dcfile::FloatRange;
use crate::dcfile::IntParameter;
use crate::dcfile::IntRange;
use crate::dcfile::IntTransform;
use crate::dcfile::KeywordType;
use crate::dcfile::KeywordType_;
use crate::dcfile::MolecularField;
use crate::dcfile::Parameter;
use crate::dcfile::ParameterField;
use crate::dcfile::SizedParameter;
use crate::dcfile::StructParameter;
use crate::dcfile::StructType;
use crate::dcfile::TypeDecl;
use crate::dcfile::TypeDecl_;
use crate::dcfile::TypeDefinition;
use crate::dcfile::class_symbols;
use crate::dcfile::decl_import_count;
use crate::dcfile::import_count;
use crate::dcfile::imports_match;
use crate::dcfile::is_expansion;
use crate::dcfile::joined_modules;
use crate::dcfile::lemma_imports_match_push;

verus! {

/// A terminal syntax error: the offending token with its span where one
/// was present (`None` means the input ended too early), and a message
/// naming what was expected instead.
#[derive(Clone, Debug, PartialEq)]
pub struct ParseError {
    pub token: Option<(DCToken, Span)>,
    pub message: String,
}

/// Why a schema text could not be compiled.
#[derive(Clone, Debug, PartialEq)]
pub enum DCReadError {
    /// The token stream does not derive the grammar.
    Syntax(ParseError),
    /// The text could not be tokenized (non-text input or a malformed
    /// literal).
    Text(LexError),
}

/// The tokens as a stream with spans.
pub type TokenStream = Vec<(DCToken, Span)>;

/// What a reported error may carry: either the offending token, whose
/// span is one of the input's, or nothing, for a failure at the end of
/// the input.
pub open spec fn error_from_input(t: Seq<(DCToken, Span)>, e: ParseError) -> bool {
    match e.token {
        Some(ts) => exists|i: int| 0 <= i < t.len() && (#[trigger] t[i].1) == ts.1,
        None => true,
    }
}

/// A syntax error at token `pos`, or at end of input.
fn err_at(toks: &TokenStream, pos: usize, msg: &str) -> (r: ParseError)
    ensures
        r.message@ == msg@,
        pos < toks@.len() ==> (r.token matches Some(ts) && ts.1 == toks@[pos as int].1),
        pos >= toks@.len() ==> r.token is None,
        error_from_input(toks@, r),
{
    let token: Option<(DCToken, Span)> = if pos < toks.len() {
        let t: &(DCToken, Span) = &toks[pos];
        Some((t.0.clone(), t.1))
    } else {
        None
    };
    ParseError { token, message: msg.to_owned() }
}

/// The span of the tokens `[start, end)`, combined; `end` is exclusive
/// and must lie past `start`.
fn span_of(toks: &TokenStream, start: usize, end: usize) -> (r: Span)
    requires
        start < end <= toks@.len(),
{
    toks[start].1.combine(&toks[end - 1].1)
}

/// Consumes one semicolon.
fn expect_semicolon(toks: &TokenStream, pos: usize) -> (r: Result<usize, ParseError>)
    requires
        pos <= toks@.len(),
    ensures
        r matches Err(e) ==> error_from_input(toks@, e),
        r matches Ok(np) ==> rec_semicolon(toks@, pos as int) == Some(np as int),
        r is Err ==> rec_semicolon(toks@, pos as int) is None,
        r matches Ok(np) ==> np == pos + 1 && pos < toks@.len() && toks@[pos as int].0
            is Semicolon,
        r is Err <==> !(pos < toks@.len() && toks@[pos as int].0 is Semicolon),
{
    if pos < toks.len() {
        match &toks[pos].0 {
            DCToken::Semicolon => Ok(pos + 1),
            _ => Err(err_at(toks, pos, "expected ';'")),
        }
    } else {
        Err(err_at(toks, pos, "expected ';'"))
    }
}

/// Consumes one identifier and returns its text.
fn expect_identifier(toks: &TokenStream, pos: usize) -> (r: Result<(String, usize), ParseError>)
    requires
        pos <= toks@.len(),
    ensures
        r matches Err(e) ==> error_from_input(toks@, e),
        r matches Ok((id, np)) ==> rec_identifier(toks@, pos as int) == Some(np as int),
        r is Err ==> rec_identifier(toks@, pos as int) is None,
        r matches Ok((id, np)) ==> np == pos + 1 && pos < toks@.len() && (toks@[pos as int].0
            matches DCToken::Identifier(s) && id@ == s@),
        r is Err <==> !(pos < toks@.len() && toks@[pos as int].0 is Identifier),
{
    if pos < toks.len() {
        match &toks[pos].0 {
            DCToken::Identifier(s) => Ok((s.clone(), pos + 1)),
            _ => Err(err_at(toks, pos, "expected an identifier")),
        }
    } else {
        Err(err_at(toks, pos, "expected an identifier"))
    }
}

/// An optional trailing name.  The rule that keeps the grammar
/// deterministic: when the lookahead is itself an identifier, it is
/// taken as the name, never left absent.
fn parse_optional_name(toks: &TokenStream, pos: usize) -> (r: (Option<String>, usize))
    requires
        pos <= toks@.len(),
    ensures
        r.1 == rec_optional_name(toks@, pos as int),
        pos < toks@.len() && toks@[pos as int].0 is Identifier ==> r.1 == pos + 1 && (
        toks@[pos as int].0 matches DCToken::Identifier(s) && r.0 matches Some(o) && o@ == s@),
        !(pos < toks@.len() && toks@[pos as int].0 is Identifier) ==> r.1 == pos && r.0 is None,
{
    if pos < toks.len() {
        match &toks[pos].0 {
            DCToken::Identifier(s) => (Some(s.clone()), pos + 1),
            _ => (None, pos),
        }
    } else {
        (None, pos)
    }
}

/// A possibly empty run of field keywords, collected in order.
fn parse_dc_keyword_list(toks: &TokenStream, pos: usize) -> (r: (Vec<String>, usize))
    requires
        pos <= toks@.len(),
    ensures
        r.1 == rec_keywords(toks@, pos as int),
        pos <= r.1 <= toks@.len(),
        r.0@.len() == r.1 - pos,
        forall|k: int|
            pos <= k < r.1 ==> (#[trigger] toks@[k].0 matches DCToken::DCKeyword(s) && r.0@[k
                - pos]@ == s@),
        r.1 < toks@.len() ==> !(toks@[r.1 as int].0 is DCKeyword),
{
    let mut words: Vec<String> = Vec::new();
    let mut p: usize = pos;
    loop
        invariant
            pos <= p <= toks@.len(),
            words@.len() == p - pos,
            rec_keywords(toks@, pos as int) == rec_keywords(toks@, p as int),
            forall|k: int|
                pos <= k < p ==> (#[trigger] toks@[k].0 matches DCToken::DCKeyword(s) && words@[k
                    - pos]@ == s@),
        decreases toks@.len() - p,
    {
        if p >= toks.len() {
            return (words, p);
        }
        match &toks[p].0 {
            DCToken::DCKeyword(s) => {
                words.push(s.clone());
                p = p + 1;
            },
            _ => {
                return (words, p);
            },
        }
    }
}

/// Wraps a keyword run as the keyword list of a field: `None` when the
/// run is empty.
fn keywords_to_node(toks: &TokenStream, start: usize, end: usize, words: Vec<String>) -> (r:
    Option<KeywordType>)
    requires
        start <= end <= toks@.len(),
        words@.len() == end - start,
{
    if start < end {
        let span: Span = span_of(toks, start, end);
        Some(KeywordType { span, node: KeywordType_::KeywordList(words) })
    } else {
        None
    }
}

/// A bracketed array range.  An empty range stands for `[0, 0]`,
/// unbounded; a single value `a` for `[a, a]`.  The rule that keeps
/// ranges whole: after the first value, when the lookahead is the range
/// separator, `a-b` is one range, never two values.
fn parse_array_range(toks: &TokenStream, pos: usize) -> (r: Result<(IntRange, usize), ParseError>)
    requires
        pos < toks@.len(),
        toks@[pos as int].0 is OpenBrackets,
    ensures
        r matches Err(e) ==> error_from_input(toks@, e),
        r matches Ok((range, np)) ==> rec_array_range(toks@, pos as int) == Some(np as int),
        r is Err ==> rec_array_range(toks@, pos as int) is None,
        r matches Ok((range, np)) ==> pos + 2 <= np <= toks@.len() && toks@[np - 1].0
            is CloseBrackets && ({
            ||| (np == pos + 2 && range == (IntRange { min: 0, max: 0 }))
            ||| (np == pos + 3 && (toks@[pos + 1].0 matches DCToken::DecimalLiteral(a) && range
                == (IntRange { min: a, max: a })))
            ||| (np == pos + 5 && (toks@[pos + 1].0 matches DCToken::DecimalLiteral(a) && (toks@[
            pos + 2].0 is Hyphen && (toks@[pos + 3].0 matches DCToken::DecimalLiteral(b) && range
                == (IntRange { min: a, max: b })))))
        }),
        (r is Ok && pos + 2 < toks@.len() && toks@[pos + 1].0 is DecimalLiteral && toks@[pos
            + 2].0 is Hyphen) ==> (r matches Ok((range, np)) && np == pos + 5),
{
    if toks.len() - pos < 2 {
        return Err(err_at(toks, pos + 1, "expected ']' or an array range"));
    }
    match &toks[pos + 1].0 {
        DCToken::CloseBrackets => Ok((IntRange { min: 0, max: 0 }, pos + 2)),
        DCToken::DecimalLiteral(a) => {
            let lo: i64 = *a;
            if toks.len() - pos > 2 {
                match &toks[pos + 2].0 {
                    DCToken::CloseBrackets => Ok((IntRange { min: lo, max: lo }, pos + 3)),
                    DCToken::Hyphen => {
                        if toks.len() - pos > 4 {
                            match (&toks[pos + 3].0, &toks[pos + 4].0) {
                                (DCToken::DecimalLiteral(b), DCToken::CloseBrackets) => Ok(
                                    (IntRange { min: lo, max: *b }, pos + 5),
                                ),
                                (DCToken::DecimalLiteral(_), _) => Err(
                                    err_at(toks, pos + 4, "expected ']'"),
                                ),
                                _ => Err(err_at(toks, pos + 3, "expected a decimal literal")),
                            }
                        } else {
                            Err(err_at(toks, pos + 3, "expected a decimal literal"))
                        }
                    },
                    _ => Err(err_at(toks, pos + 2, "expected ']' or '-'")),
                }
            } else {
                Err(err_at(toks, pos + 2, "expected ']' or '-'"))
            }
        },
        _ => Err(err_at(toks, pos + 1, "expected ']' or an array range")),
    }
}

/// A parenthesized numeric range `(a-b)`, or nothing.
fn parse_int_range(toks: &TokenStream, pos: usize) -> (r: Result<
    (Option<IntRange>, usize),
    ParseError,
>)
    requires
        pos <= toks@.len(),
    ensures
        r matches Ok((range, np)) ==> (range matches Some(rg) ==> (toks@[pos + 1].0 matches
            DCToken::DecimalLiteral(a) && (toks@[pos + 3].0 matches DCToken::DecimalLiteral(b)
            && rg == (IntRange { min: a, max: b })))),
        r matches Err(e) ==> error_from_input(toks@, e),
        r matches Ok((range, np)) ==> rec_int_range(toks@, pos as int) == Some(np as int),
        r is Err ==> rec_int_range(toks@, pos as int) is None,
        r matches Ok((range, np)) ==> pos <= np <= toks@.len() && (range is Some ==> np == pos + 5)
            && (range is None ==> np == pos),
        !(pos < toks@.len() && toks@[pos as int].0 is OpenParenthesis) ==> (r matches Ok(
            (range, np),
        ) && range is None && np == pos),
{
    if pos < toks.len() {
        match &toks[pos].0 {
            DCToken::OpenParenthesis => {
                if toks.len() - pos > 4 {
                    match (&toks[pos + 1].0, &toks[pos + 2].0, &toks[pos + 3].0, &toks[pos + 4].0) {
                        (
                            DCToken::DecimalLiteral(a),
                            DCToken::Hyphen,
                            DCToken::DecimalLiteral(b),
                            DCToken::CloseParenthesis,
                        ) => Ok((Some(IntRange { min: *a, max: *b }), pos + 5)),
                        _ => Err(err_at(toks, pos + 1, "expected a numeric range")),
                    }
                } else {
                    Err(err_at(toks, pos + 1, "expected a numeric range"))
                }
            },
            _ => Ok((None, pos)),
        }
    } else {
        Ok((None, pos))
    }
}

/// A parenthesized floating-point range `(a-b)`, or nothing.
fn parse_float_range(toks: &TokenStream, pos: usize) -> (r: Result<
    (Option<FloatRange>, usize),
    ParseError,
>)
    requires
        pos <= toks@.len(),
    ensures
        r matches Ok((range, np)) ==> (range matches Some(fr) ==> (toks@[pos + 1].0 matches
            DCToken::FloatLiteral(a) && fr.min@ == a@) && (toks@[pos + 3].0 matches
            DCToken::FloatLiteral(b) && fr.max@ == b@)),
        r matches Err(e) ==> error_from_input(toks@, e),
        r matches Ok((range, np)) ==> rec_float_range(toks@, pos as int) == Some(np as int),
        r is Err ==> rec_float_range(toks@, pos as int) is None,
        r matches Ok((range, np)) ==> pos <= np <= toks@.len() && (range is Some ==> np == pos + 5)
            && (range is None ==> np == pos),
{
    if pos < toks.len() {
        match &toks[pos].0 {
            DCToken::OpenParenthesis => {
                if toks.len() - pos > 4 {
                    match (&toks[pos + 1].0, &toks[pos + 2].0, &toks[pos + 3].0, &toks[pos + 4].0) {
                        (
                            DCToken::FloatLiteral(a),
                            DCToken::Hyphen,
                            DCToken::FloatLiteral(b),
                            DCToken::CloseParenthesis,
                        ) => Ok(
                            (Some(FloatRange { min: a.clone(), max: b.clone() }), pos + 5),
                        ),
                        _ => Err(err_at(toks, pos + 1, "expected a floating-point range")),
                    }
                } else {
                    Err(err_at(toks, pos + 1, "expected a floating-point range"))
                }
            },
            _ => Ok((None, pos)),
        }
    } else {
        Ok((None, pos))
    }
}

/// A parenthesized size constraint `(n)`, or nothing.
fn parse_size_constraint(toks: &TokenStream, pos: usize) -> (r: Result<
    (Option<i64>, usize),
    ParseError,
>)
    requires
        pos <= toks@.len(),
    ensures
        r matches Ok((sc, np)) ==> (sc matches Some(v) ==> (toks@[pos + 1].0 matches
            DCToken::DecimalLiteral(d) && v == d)),
        r matches Err(e) ==> error_from_input(toks@, e),
        r matches Ok((sc, np)) ==> rec_size_constraint(toks@, pos as int) == Some(np as int),
        r is Err ==> rec_size_constraint(toks@, pos as int) is None,
        r matches Ok((sc, np)) ==> pos <= np <= toks@.len() && (sc is Some ==> np == pos + 3) && (sc
            is None ==> np == pos),
{
    if pos < toks.len() {
        match &toks[pos].0 {
            DCToken::OpenParenthesis => {
                if toks.len() - pos > 2 {
                    match (&toks[pos + 1].0, &toks[pos + 2].0) {
                        (DCToken::DecimalLiteral(n), DCToken::CloseParenthesis) => Ok(
                            (Some(*n), pos + 3),
                        ),
                        _ => Err(err_at(toks, pos + 1, "expected a size constraint")),
                    }
                } else {
                    Err(err_at(toks, pos + 1, "expected a size constraint"))
                }
            },
            _ => Ok((None, pos)),
        }
    } else {
        Ok((None, pos))
    }
}

/// An arithmetic transform `% n`, `/ n`, `* n`, `- n` or `+ n`, or
/// nothing.
fn parse_int_transform(toks: &TokenStream, pos: usize) -> (r: Result<
    (Option<IntTransform>, usize),
    ParseError,
>)
    requires
        pos <= toks@.len(),
    ensures
        r matches Ok((tr, np)) ==> (tr matches Some(it) ==> (it matches
            IntTransform::OperatorIntLiteral { operator, int_literal } && (toks@[pos + 1].0 matches
            DCToken::DecimalLiteral(d) && int_literal == d) && ({
            &&& toks@[pos as int].0 is Percent ==> operator is Percent
            &&& toks@[pos as int].0 is ForwardSlash ==> operator is ForwardSlash
            &&& toks@[pos as int].0 is Star ==> operator is Star
            &&& toks@[pos as int].0 is Hyphen ==> operator is Hyphen
            &&& toks@[pos as int].0 is Plus ==> operator is Plus
        }))),
        r matches Err(e) ==> error_from_input(toks@, e),
        r matches Ok((tr, np)) ==> rec_int_transform(toks@, pos as int) == Some(np as int),
        r is Err ==> rec_int_transform(toks@, pos as int) is None,
        r matches Ok((tr, np)) ==> pos <= np <= toks@.len() && (tr is Some ==> np == pos + 2) && (tr
            is None ==> np == pos),
{
    if pos >= toks.len() {
        return Ok((None, pos));
    }
    let op: Option<DCToken> = match &toks[pos].0 {
        DCToken::Percent => Some(DCToken::Percent),
        DCToken::ForwardSlash => Some(DCToken::ForwardSlash),
        DCToken::Star => Some(DCToken::Star),
        DCToken::Hyphen => Some(DCToken::Hyphen),
        DCToken::Plus => Some(DCToken::Plus),
        _ => None,
    };
    match op {
        Some(operator) => {
            if pos + 1 < toks.len() {
                match &toks[pos + 1].0 {
                    DCToken::DecimalLiteral(n) => Ok(
                        (
                            Some(IntTransform::OperatorIntLiteral { operator, int_literal: *n }),
                            pos + 2,
                        ),
                    ),
                    _ => Err(err_at(toks, pos + 1, "expected a decimal literal")),
                }
            } else {
                Err(err_at(toks, pos + 1, "expected a decimal literal"))
            }
        },
        None => Ok((None, pos)),
    }
}

/// A literal default `= <literal>` of the given kind, or nothing.
/// `kind` distinguishes which literal token is accepted.
fn parse_char_init(toks: &TokenStream, pos: usize) -> (r: Result<(Option<char>, usize), ParseError>)
    requires
        pos <= toks@.len(),
    ensures
        r matches Ok((c, np)) ==> (c matches Some(lit) ==> (toks@[pos + 1].0 matches
            DCToken::CharacterLiteral(x) && lit == x)),
        r matches Err(e) ==> error_from_input(toks@, e),
        r matches Ok((c, np)) ==> rec_char_init(toks@, pos as int) == Some(np as int),
        r is Err ==> rec_char_init(toks@, pos as int) is None,
        r matches Ok((c, np)) ==> pos <= np <= toks@.len() && (c is Some ==> np == pos + 2) && (c
            is None ==> np == pos),
{
    if pos < toks.len() {
        match &toks[pos].0 {
            DCToken::Equals => {
                if pos + 1 < toks.len() {
                    match &toks[pos + 1].0 {
                        DCToken::CharacterLiteral(c) => Ok((Some(*c), pos + 2)),
                        _ => Err(err_at(toks, pos + 1, "expected a character literal")),
                    }
                } else {
                    Err(err_at(toks, pos + 1, "expected a character literal"))
                }
            },
            _ => Ok((None, pos)),
        }
    } else {
        Ok((None, pos))
    }
}

/// A literal default `= n`, or nothing.
fn parse_dec_const(toks: &TokenStream, pos: usize) -> (r: Result<(Option<i64>, usize), ParseError>)
    requires
        pos <= toks@.len(),
    ensures
        r matches Ok((c, np)) ==> (c matches Some(v) ==> (toks@[pos + 1].0 matches
            DCToken::DecimalLiteral(d) && v == d)),
        r matches Err(e) ==> error_from_input(toks@, e),
        r matches Ok((c, np)) ==> rec_dec_const(toks@, pos as int) == Some(np as int),
        r is Err ==> rec_dec_const(toks@, pos as int) is None,
        r matches Ok((c, np)) ==> pos <= np <= toks@.len() && (c is Some ==> np == pos + 2) && (c
            is None ==> np == pos),
{
    if pos < toks.len() {
        match &toks[pos].0 {
            DCToken::Equals => {
                if pos + 1 < toks.len() {
                    match &toks[pos + 1].0 {
                        DCToken::DecimalLiteral(n) => Ok((Some(*n), pos + 2)),
                        _ => Err(err_at(toks, pos + 1, "expected a decimal literal")),
                    }
                } else {
                    Err(err_at(toks, pos + 1, "expected a decimal literal"))
                }
            },
            _ => Ok((None, pos)),
        }
    } else {
        Ok((None, pos))
    }
}

/// A literal default `= <float>`, or nothing.
fn parse_float_const(toks: &TokenStream, pos: usize) -> (r: Result<
    (Option<String>, usize),
    ParseError,
>)
    requires
        pos <= toks@.len(),
    ensures
        r matches Ok((c, np)) ==> (c matches Some(v) ==> (toks@[pos + 1].0 matches
            DCToken::FloatLiteral(x) && v@ == x@)),
        r matches Err(e) ==> error_from_input(toks@, e),
        r matches Ok((c, np)) ==> rec_float_const(toks@, pos as int) == Some(np as int),
        r is Err ==> rec_float_const(toks@, pos as int) is None,
        r matches Ok((c, np)) ==> pos <= np <= toks@.len() && (c is Some ==> np == pos + 2) && (c
            is None ==> np == pos),
{
    if pos < toks.len() {
        match &toks[pos].0 {
            DCToken::Equals => {
                if pos + 1 < toks.len() {
                    match &toks[pos + 1].0 {
                        DCToken::FloatLiteral(t) => Ok((Some(t.clone()), pos + 2)),
                        _ => Err(err_at(toks, pos + 1, "expected a floating-point literal")),
                    }
                } else {
                    Err(err_at(toks, pos + 1, "expected a floating-point literal"))
                }
            },
            _ => Ok((None, pos)),
        }
    } else {
        Ok((None, pos))
    }
}

/// A literal default `= "text"`, or nothing.
fn parse_str_init(toks: &TokenStream, pos: usize) -> (r: Result<
    (Option<String>, usize),
    ParseError,
>)
    requires
        pos <= toks@.len(),
    ensures
        r matches Ok((c, np)) ==> (c matches Some(v) ==> (toks@[pos + 1].0 matches
            DCToken::StringLiteral(x) && v@ == x@)),
        r matches Err(e) ==> error_from_input(toks@, e),
        r matches Ok((c, np)) ==> rec_str_init(toks@, pos as int) == Some(np as int),
        r is Err ==> rec_str_init(toks@, pos as int) is None,
        r matches Ok((c, np)) ==> pos <= np <= toks@.len() && (c is Some ==> np == pos + 2) && (c
            is None ==> np == pos),
{
    if pos < toks.len() {
        match &toks[pos].0 {
            DCToken::Equals => {
                if pos + 1 < toks.len() {
                    match &toks[pos + 1].0 {
                        DCToken::StringLiteral(t) => Ok((Some(t.clone()), pos + 2)),
                        _ => Err(err_at(toks, pos + 1, "expected a string literal")),
                    }
                } else {
                    Err(err_at(toks, pos + 1, "expected a string literal"))
                }
            },
            _ => Ok((None, pos)),
        }
    } else {
        Ok((None, pos))
    }
}

/// A literal default `= <binary>`, or nothing.
fn parse_bin_init(toks: &TokenStream, pos: usize) -> (r: Result<
    (Option<String>, usize),
    ParseError,
>)
    requires
        pos <= toks@.len(),
    ensures
        r matches Ok((c, np)) ==> (c matches Some(v) ==> (toks@[pos + 1].0 matches
            DCToken::BinaryLiteral(x) && v@ == x@)),
        r matches Err(e) ==> error_from_input(toks@, e),
        r matches Ok((c, np)) ==> rec_bin_init(toks@, pos as int) == Some(np as int),
        r is Err ==> rec_bin_init(toks@, pos as int) is None,
        r matches Ok((c, np)) ==> pos <= np <= toks@.len() && (c is Some ==> np == pos + 2) && (c
            is None ==> np == pos),
{
    if pos < toks.len() {
        match &toks[pos].0 {
            DCToken::Equals => {
                if pos + 1 < toks.len() {
                    match &toks[pos + 1].0 {
                        DCToken::BinaryLiteral(t) => Ok((Some(t.clone()), pos + 2)),
                        _ => Err(err_at(toks, pos + 1, "expected a binary literal")),
                    }
                } else {
                    Err(err_at(toks, pos + 1, "expected a binary literal"))
                }
            },
            _ => Ok((None, pos)),
        }
    } else {
        Ok((None, pos))
    }
}

/// The spelled-out type word of an integer or array type token, where
/// one starts a parameter; `None` otherwise.
fn int_type_word(t: &DCToken) -> (r: Option<&'static str>)
    ensures
        r is Some <==> (t is Int8T || t is Int16T || t is Int32T || t is Int64T || t is UInt8T || t
            is UInt16T || t is UInt32T || t is UInt64T),
        t is Int8T ==> (r matches Some(w) && w@ == "int8"@),
        t is Int16T ==> (r matches Some(w) && w@ == "int16"@),
        t is Int32T ==> (r matches Some(w) && w@ == "int32"@),
        t is Int64T ==> (r matches Some(w) && w@ == "int64"@),
        t is UInt8T ==> (r matches Some(w) && w@ == "uint8"@),
        t is UInt16T ==> (r matches Some(w) && w@ == "uint16"@),
        t is UInt32T ==> (r matches Some(w) && w@ == "uint32"@),
        t is UInt64T ==> (r matches Some(w) && w@ == "uint64"@),
{
    match t {
        DCToken::Int8T => Some("int8"),
        DCToken::Int16T => Some("int16"),
        DCToken::Int32T => Some("int32"),
        DCToken::Int64T => Some("int64"),
        DCToken::UInt8T => Some("uint8"),
        DCToken::UInt16T => Some("uint16"),
        DCToken::UInt32T => Some("uint32"),
        DCToken::UInt64T => Some("uint64"),
        _ => None,
    }
}

/// The spelled-out type word of an array-of-integers type token, or
/// `None`.
fn array_type_word(t: &DCToken) -> (r: Option<&'static str>)
    ensures
        r is Some <==> (t is Int8ArrayT || t is Int16ArrayT || t is Int32ArrayT || t is UInt8ArrayT
            || t is UInt16ArrayT || t is UInt32ArrayT || t is UInt32UInt8ArrayT),
        t is Int8ArrayT ==> (r matches Some(w) && w@ == "int8array"@),
        t is Int16ArrayT ==> (r matches Some(w) && w@ == "int16array"@),
        t is Int32ArrayT ==> (r matches Some(w) && w@ == "int32array"@),
        t is UInt8ArrayT ==> (r matches Some(w) && w@ == "uint8array"@),
        t is UInt16ArrayT ==> (r matches Some(w) && w@ == "uint16array"@),
        t is UInt32ArrayT ==> (r matches Some(w) && w@ == "uint32array"@),
        t is UInt32UInt8ArrayT ==> (r matches Some(w) && w@ == "uint32uint8array"@),
{
    match t {
        DCToken::Int8ArrayT => Some("int8array"),
        DCToken::Int16ArrayT => Some("int16array"),
        DCToken::Int32ArrayT => Some("int32array"),
        DCToken::UInt8ArrayT => Some("uint8array"),
        DCToken::UInt16ArrayT => Some("uint16array"),
        DCToken::UInt32ArrayT => Some("uint32array"),
        DCToken::UInt32UInt8ArrayT => Some("uint32uint8array"),
        _ => None,
    }
}

/// Whether a token is one of the array-of-integers type words.
pub open spec fn is_array_type_token(t: DCToken) -> bool {
    ||| t is Int8ArrayT
    ||| t is Int16ArrayT
    ||| t is Int32ArrayT
    ||| t is UInt8ArrayT
    ||| t is UInt16ArrayT
    ||| t is UInt32ArrayT
    ||| t is UInt32UInt8ArrayT
}

/// Whether a token may follow `typedef` as the aliased type.
pub open spec fn is_typedef_type_token(t: DCToken) -> bool {
    ||| t is CharT
    ||| t is Float64T
    ||| t is StringT
    ||| t is BlobT
    ||| t is Blob32T
    ||| is_int_type_token(t)
    ||| is_array_type_token(t)
}

/// Whether the token at `i` is a module path segment, spelling `s`.
pub open spec fn module_seg_at(t: Seq<(DCToken, Span)>, i: int, s: Seq<char>) -> bool {
    ||| (t[i].0 matches DCToken::Identifier(w) && s == w@)
    ||| (t[i].0 matches DCToken::Module(w) && s == w@)
}

/// Whether the token at `i` is an identifier spelling `s`.
pub open spec fn ident_at(t: Seq<(DCToken, Span)>, i: int, s: Seq<char>) -> bool {
    t[i].0 matches DCToken::Identifier(w) && s == w@
}

// --- Grammar recognition --------------------------------------------
//
// The grammar is deterministic: every choice is decided by bounded
// lookahead, so which token streams it derives, and where each
// construct ends, is a function of the stream.  The `rec_` functions
// state that function construct by construct; `Some(q)` means the
// construct starting at `p` is derived and ends right before `q`.
// The parser proves its own outcome equal to them, which makes its
// success condition exact.

/// One semicolon.
pub open spec fn rec_semicolon(t: Seq<(DCToken, Span)>, p: int) -> Option<int> {
    if 0 <= p < t.len() && t[p].0 is Semicolon {
        Some(p + 1)
    } else {
        None
    }
}

/// One identifier.
pub open spec fn rec_identifier(t: Seq<(DCToken, Span)>, p: int) -> Option<int> {
    if 0 <= p < t.len() && t[p].0 is Identifier {
        Some(p + 1)
    } else {
        None
    }
}

/// An optional trailing name: taken exactly when the lookahead is an
/// identifier.
pub open spec fn rec_optional_name(t: Seq<(DCToken, Span)>, p: int) -> int {
    if 0 <= p < t.len() && t[p].0 is Identifier {
        p + 1
    } else {
        p
    }
}

/// A possibly empty run of field keywords.
pub open spec fn rec_keywords(t: Seq<(DCToken, Span)>, p: int) -> int
    decreases t.len() - p,
{
    if 0 <= p < t.len() && t[p].0 is DCKeyword {
        rec_keywords(t, p + 1)
    } else {
        p
    }
}

/// A bracketed array range (the opening bracket stands at `p`).
pub open spec fn rec_array_range(t: Seq<(DCToken, Span)>, p: int) -> Option<int> {
    if !(0 <= p && p + 1 < t.len()) {
        None
    } else if t[p + 1].0 is CloseBrackets {
        Some(p + 2)
    } else if t[p + 1].0 is DecimalLiteral {
        if p + 2 < t.len() && t[p + 2].0 is CloseBrackets {
            Some(p + 3)
        } else if p + 2 < t.len() && t[p + 2].0 is Hyphen {
            if p + 4 < t.len() && t[p + 3].0 is DecimalLiteral && t[p + 4].0 is CloseBrackets {
                Some(p + 5)
            } else {
                None
            }
        } else {
            None
        }
    } else {
        None
    }
}

/// A parenthesized numeric range, or nothing.
pub open spec fn rec_int_range(t: Seq<(DCToken, Span)>, p: int) -> Option<int> {
    if 0 <= p < t.len() && t[p].0 is OpenParenthesis {
        if p + 4 < t.len() && t[p + 1].0 is DecimalLiteral && t[p + 2].0 is Hyphen && t[p + 3].0
            is DecimalLiteral && t[p + 4].0 is CloseParenthesis {
            Some(p + 5)
        } else {
            None
        }
    } else {
        Some(p)
    }
}

/// A parenthesized floating-point range, or nothing.
pub open spec fn rec_float_range(t: Seq<(DCToken, Span)>, p: int) -> Option<int> {
    if 0 <= p < t.len() && t[p].0 is OpenParenthesis {
        if p + 4 < t.len() && t[p + 1].0 is FloatLiteral && t[p + 2].0 is Hyphen && t[p + 3].0
            is FloatLiteral && t[p + 4].0 is CloseParenthesis {
            Some(p + 5)
        } else {
            None
        }
    } else {
        Some(p)
    }
}

/// A parenthesized size constraint, or nothing.
pub open spec fn rec_size_constraint(t: Seq<(DCToken, Span)>, p: int) -> Option<int> {
    if 0 <= p < t.len() && t[p].0 is OpenParenthesis {
        if p + 2 < t.len() && t[p + 1].0 is DecimalLiteral && t[p + 2].0 is CloseParenthesis {
            Some(p + 3)
        } else {
            None
        }
    } else {
        Some(p)
    }
}

/// An arithmetic transform, or nothing.
pub open spec fn rec_int_transform(t: Seq<(DCToken, Span)>, p: int) -> Option<int> {
    if 0 <= p < t.len() && (t[p].0 is Percent || t[p].0 is ForwardSlash || t[p].0 is Star || t[p].0
        is Hyphen || t[p].0 is Plus) {
        if p + 1 < t.len() && t[p + 1].0 is DecimalLiteral {
            Some(p + 2)
        } else {
            None
        }
    } else {
        Some(p)
    }
}

/// A literal default `= <character>`, or nothing.
pub open spec fn rec_char_init(t: Seq<(DCToken, Span)>, p: int) -> Option<int> {
    if 0 <= p < t.len() && t[p].0 is Equals {
        if p + 1 < t.len() && t[p + 1].0 is CharacterLiteral {
            Some(p + 2)
        } else {
            None
        }
    } else {
        Some(p)
    }
}

/// A literal default `= <decimal>`, or nothing.
pub open spec fn rec_dec_const(t: Seq<(DCToken, Span)>, p: int) -> Option<int> {
    if 0 <= p < t.len() && t[p].0 is Equals {
        if p + 1 < t.len() && t[p + 1].0 is DecimalLiteral {
            Some(p + 2)
        } else {
            None
        }
    } else {
        Some(p)
    }
}

/// A literal default `= <float>`, or nothing.
pub open spec fn rec_float_const(t: Seq<(DCToken, Span)>, p: int) -> Option<int> {
    if 0 <= p < t.len() && t[p].0 is Equals {
        if p + 1 < t.len() && t[p + 1].0 is FloatLiteral {
            Some(p + 2)
        } else {
            None
        }
    } else {
        Some(p)
    }
}

/// A literal default `= <string>`, or nothing.
pub open spec fn rec_str_init(t: Seq<(DCToken, Span)>, p: int) -> Option<int> {
    if 0 <= p < t.len() && t[p].0 is Equals {
        if p + 1 < t.len() && t[p + 1].0 is StringLiteral {
            Some(p + 2)
        } else {
            None
        }
    } else {
        Some(p)
    }
}

/// A literal default `= <binary>`, or nothing.
pub open spec fn rec_bin_init(t: Seq<(DCToken, Span)>, p: int) -> Option<int> {
    if 0 <= p < t.len() && t[p].0 is Equals {
        if p + 1 < t.len() && t[p + 1].0 is BinaryLiteral {
            Some(p + 2)
        } else {
            None
        }
    } else {
        Some(p)
    }
}

/// A struct-typed or array parameter opened by the identifier at `p`.
pub open spec fn rec_struct_or_array(t: Seq<(DCToken, Span)>, p: int) -> Option<int> {
    let q = rec_optional_name(t, p + 1);
    if q < t.len() && t[q].0 is OpenBrackets {
        rec_array_range(t, q)
    } else {
        Some(q)
    }
}

/// One parameter of any kind, decided by its first token.
pub open spec fn rec_parameter(t: Seq<(DCToken, Span)>, p: int) -> Option<int> {
    if !(0 <= p < t.len()) {
        None
    } else {
        let head = t[p].0;
        if head is CharT {
            rec_char_init(t, rec_optional_name(t, p + 1))
        } else if head is Float64T {
            match rec_float_range(t, p + 1) {
                Some(q) => rec_float_const(t, rec_optional_name(t, q)),
                None => None,
            }
        } else if head is StringT {
            match rec_size_constraint(t, p + 1) {
                Some(q) => rec_str_init(t, rec_optional_name(t, q)),
                None => None,
            }
        } else if head is BlobT {
            match rec_size_constraint(t, p + 1) {
                Some(q) => rec_bin_init(t, rec_optional_name(t, q)),
                None => None,
            }
        } else if head is Identifier {
            rec_struct_or_array(t, p)
        } else if is_int_type_token(head) {
            if p + 1 < t.len() && t[p + 1].0 is OpenBrackets {
                match rec_array_range(t, p + 1) {
                    Some(q) => Some(rec_optional_name(t, q)),
                    None => None,
                }
            } else {
                match rec_int_range(t, p + 1) {
                    Some(q) => match rec_int_transform(t, q) {
                        Some(q2) => rec_dec_const(t, rec_optional_name(t, q2)),
                        None => None,
                    },
                    None => None,
                }
            }
        } else if is_array_type_token(head) {
            if p + 1 < t.len() && t[p + 1].0 is OpenBrackets {
                match rec_array_range(t, p + 1) {
                    Some(q) => Some(rec_optional_name(t, q)),
                    None => None,
                }
            } else {
                None
            }
        } else {
            None
        }
    }
}

/// The parameters of an atomic field up to and including the closing
/// parenthesis, with optional separating and trailing commas.
pub open spec fn rec_parameters(t: Seq<(DCToken, Span)>, p: int) -> Option<int>
    decreases t.len() - p,
{
    if !(0 <= p < t.len()) {
        None
    } else if t[p].0 is CloseParenthesis {
        Some(p + 1)
    } else {
        match rec_parameter(t, p) {
            Some(q) => if p < q <= t.len() {
                let q2 = if q < t.len() && t[q].0 is Comma {
                    q + 1
                } else {
                    q
                };
                rec_parameters(t, q2)
            } else {
                None
            },
            None => None,
        }
    }
}

/// An atomic field: name, parenthesized parameters, keywords,
/// semicolon.
pub open spec fn rec_atomic_field(t: Seq<(DCToken, Span)>, p: int) -> Option<int> {
    if !(0 <= p < t.len() && t[p].0 is Identifier) {
        None
    } else if !(p + 1 < t.len() && t[p + 1].0 is OpenParenthesis) {
        None
    } else {
        match rec_parameters(t, p + 2) {
            Some(q) => rec_semicolon(t, rec_keywords(t, q)),
            None => None,
        }
    }
}

/// A parameter field: one parameter with its keyword run.
pub open spec fn rec_parameter_field(t: Seq<(DCToken, Span)>, p: int) -> Option<int> {
    match rec_parameter(t, p) {
        Some(q) => Some(rec_keywords(t, q)),
        None => None,
    }
}

/// The members of a molecular field after the first, each preceded by a
/// comma, then the final semicolon.
pub open spec fn rec_molecular_rest(t: Seq<(DCToken, Span)>, p: int, atomic: bool) -> Option<int>
    decreases t.len() - p,
{
    if 0 <= p < t.len() && t[p].0 is Comma {
        let next = if atomic {
            rec_atomic_field(t, p + 1)
        } else {
            rec_parameter_field(t, p + 1)
        };
        match next {
            Some(q) => if p < q <= t.len() {
                rec_molecular_rest(t, q, atomic)
            } else {
                None
            },
            None => None,
        }
    } else {
        rec_semicolon(t, p)
    }
}

/// A molecular field: a name, a colon, one or more members of one kind.
pub open spec fn rec_molecular_field(t: Seq<(DCToken, Span)>, p: int) -> Option<int> {
    if !(0 <= p < t.len() && t[p].0 is Identifier) {
        None
    } else if !(p + 1 < t.len() && t[p + 1].0 is Colon) {
        None
    } else {
        let atomic = p + 3 < t.len() && t[p + 2].0 is Identifier && t[p + 3].0
            is OpenParenthesis;
        let first = if atomic {
            rec_atomic_field(t, p + 2)
        } else {
            rec_parameter_field(t, p + 2)
        };
        match first {
            Some(q) => if p < q <= t.len() {
                rec_molecular_rest(t, q, atomic)
            } else {
                None
            },
            None => None,
        }
    }
}

/// One field declaration, decided by lookahead.
pub open spec fn rec_field_declaration(t: Seq<(DCToken, Span)>, p: int) -> Option<int> {
    if 0 <= p && p + 1 < t.len() && t[p].0 is Identifier && t[p + 1].0 is Colon {
        rec_molecular_field(t, p)
    } else if 0 <= p && p + 1 < t.len() && t[p].0 is Identifier && t[p + 1].0
        is OpenParenthesis {
        rec_atomic_field(t, p)
    } else {
        rec_parameter_field(t, p)
    }
}

/// The body of a distributed class from inside the braces: field
/// declarations until the closing brace, then a semicolon.
pub open spec fn rec_fields_rest(t: Seq<(DCToken, Span)>, p: int) -> Option<int>
    decreases t.len() - p,
{
    if !(0 <= p < t.len()) {
        None
    } else if t[p].0 is CloseBraces {
        rec_semicolon(t, p + 1)
    } else {
        match rec_field_declaration(t, p) {
            Some(q) => if p < q <= t.len() {
                rec_fields_rest(t, q)
            } else {
                None
            },
            None => None,
        }
    }
}

/// The parents after the first of an inheritance list.
pub open spec fn rec_inherit_rest(t: Seq<(DCToken, Span)>, p: int) -> Option<int>
    decreases t.len() - p,
{
    if 0 <= p < t.len() && t[p].0 is Comma {
        if p + 1 < t.len() && t[p + 1].0 is Identifier {
            rec_inherit_rest(t, p + 2)
        } else {
            None
        }
    } else {
        Some(p)
    }
}

/// An optional inheritance list: a colon and comma-separated parents,
/// or nothing.
pub open spec fn rec_optional_inheritance(t: Seq<(DCToken, Span)>, p: int) -> Option<int> {
    if 0 <= p < t.len() && t[p].0 is Colon {
        if p + 1 < t.len() && t[p + 1].0 is Identifier {
            rec_inherit_rest(t, p + 2)
        } else {
            None
        }
    } else {
        Some(p)
    }
}

/// A distributed class declaration (`dclass` stands at `p`).
pub open spec fn rec_distributed_class(t: Seq<(DCToken, Span)>, p: int) -> Option<int> {
    if !(0 <= p && p + 1 < t.len() && t[p + 1].0 is Identifier) {
        None
    } else {
        match rec_optional_inheritance(t, p + 2) {
            Some(q) => if q < t.len() && t[q].0 is OpenBraces {
                rec_fields_rest(t, q + 1)
            } else {
                None
            },
            None => None,
        }
    }
}

/// The members of a struct from inside the braces: semicolon-terminated
/// parameters until the closing brace, then a semicolon.
pub open spec fn rec_struct_members(t: Seq<(DCToken, Span)>, p: int) -> Option<int>
    decreases t.len() - p,
{
    if !(0 <= p < t.len()) {
        None
    } else if t[p].0 is CloseBraces {
        rec_semicolon(t, p + 1)
    } else {
        match rec_parameter(t, p) {
            Some(q) => if p < q <= t.len() {
                match rec_semicolon(t, q) {
                    Some(q2) => rec_struct_members(t, q2),
                    None => None,
                }
            } else {
                None
            },
            None => None,
        }
    }
}

/// A struct declaration (`struct` stands at `p`).
pub open spec fn rec_struct_type(t: Seq<(DCToken, Span)>, p: int) -> Option<int> {
    if !(0 <= p && p + 1 < t.len() && t[p + 1].0 is Identifier) {
        None
    } else if !(p + 2 < t.len() && t[p + 2].0 is OpenBraces) {
        None
    } else {
        rec_struct_members(t, p + 3)
    }
}

/// A keyword declaration (`keyword` stands at `p`).
pub open spec fn rec_keyword_type(t: Seq<(DCToken, Span)>, p: int) -> Option<int> {
    if 0 <= p && p + 1 < t.len() && t[p + 1].0 is Identifier {
        rec_semicolon(t, p + 2)
    } else {
        None
    }
}

/// A type definition (`typedef` stands at `p`).
pub open spec fn rec_type_definition(t: Seq<(DCToken, Span)>, p: int) -> Option<int> {
    if !(0 <= p && p + 1 < t.len() && is_typedef_type_token(t[p + 1].0)) {
        None
    } else if !(p + 2 < t.len() && t[p + 2].0 is Identifier) {
        None
    } else {
        let q = if p + 3 < t.len() && t[p + 3].0 is OpenBrackets {
            rec_array_range(t, p + 3)
        } else {
            Some(p + 3)
        };
        match q {
            Some(q2) => rec_semicolon(t, q2),
            None => None,
        }
    }
}

/// The module path segments after the first, each preceded by a period.
pub open spec fn rec_modules_rest(t: Seq<(DCToken, Span)>, p: int) -> Option<int>
    decreases t.len() - p,
{
    if 0 <= p < t.len() && t[p].0 is Period {
        if p + 1 < t.len() && (t[p + 1].0 is Identifier || t[p + 1].0 is Module) {
            rec_modules_rest(t, p + 2)
        } else {
            None
        }
    } else {
        Some(p)
    }
}

/// A possibly empty run of `/Name` view suffixes.
pub open spec fn rec_slash_identifier(t: Seq<(DCToken, Span)>, p: int) -> Option<int>
    decreases t.len() - p,
{
    if 0 <= p < t.len() && t[p].0 is ForwardSlash {
        if p + 1 < t.len() && t[p + 1].0 is Identifier {
            rec_slash_identifier(t, p + 2)
        } else {
            None
        }
    } else {
        Some(p)
    }
}

/// A Python import declaration (`from` stands at `p`), including the
/// demand that module view suffixes, when present, pair 1:1 with the
/// class view suffixes.
pub open spec fn rec_python_import(t: Seq<(DCToken, Span)>, p: int) -> Option<int> {
    if !(0 <= p && p + 1 < t.len() && (t[p + 1].0 is Identifier || t[p + 1].0 is Module)) {
        None
    } else {
        match rec_modules_rest(t, p + 2) {
            Some(mod_end) => match rec_slash_identifier(t, mod_end) {
                Some(slash_end) => {
                    let nms = (slash_end - mod_end) / 2;
                    if !(slash_end < t.len() && t[slash_end].0 is Import) {
                        None
                    } else if slash_end + 1 < t.len() && t[slash_end + 1].0 is Star {
                        if nms == 0 {
                            Some(slash_end + 2)
                        } else {
                            None
                        }
                    } else if slash_end + 1 < t.len() && t[slash_end + 1].0 is Identifier {
                        match rec_slash_identifier(t, slash_end + 2) {
                            Some(cs_end) => {
                                let ncs = (cs_end - (slash_end + 2)) / 2;
                                if nms == 0 || nms == ncs {
                                    Some(cs_end)
                                } else {
                                    None
                                }
                            },
                            None => None,
                        }
                    } else {
                        None
                    }
                },
                None => None,
            },
            None => None,
        }
    }
}

/// One top-level declaration, decided by its first token.
pub open spec fn rec_type_decl(t: Seq<(DCToken, Span)>, p: int) -> Option<int> {
    if !(0 <= p < t.len()) {
        None
    } else {
        let head = t[p].0;
        if head is Keyword {
            rec_keyword_type(t, p)
        } else if head is Struct {
            rec_struct_type(t, p)
        } else if head is DClass {
            rec_distributed_class(t, p)
        } else if head is From {
            rec_python_import(t, p)
        } else if head is Typedef {
            rec_type_definition(t, p)
        } else {
            None
        }
    }
}

/// Whether the whole stream from `p` on derives a sequence of
/// declarations.
pub open spec fn rec_schema(t: Seq<(DCToken, Span)>, p: int) -> bool
    decreases t.len() - p,
{
    if p == t.len() {
        true
    } else if !(0 <= p < t.len()) {
        false
    } else {
        match rec_type_decl(t, p) {
            Some(np) => if p < np <= t.len() {
                rec_schema(t, np)
            } else {
                false
            },
            None => false,
        }
    }
}

/// The stored fields of an import declaration against its tokens: the
/// module path segments, module view suffixes, class name and class
/// view suffixes are exactly the spelled ones, in order, and the
/// declaration spans `[p, np)`.
pub open spec fn import_matches(t: Seq<(DCToken, Span)>, p: int, np: int, im: DCImport) -> bool {
    let nseg = im.module@.len() as int;
    let nms = im.module_views@.len() as int;
    let ncs = im.class_views@.len() as int;
    let mod_end = p + 2 * nseg;
    let slash_end = mod_end + 2 * nms;
    &&& nseg >= 1
    &&& t[p].0 is From
    &&& forall|i: int| 0 <= i < nseg ==> module_seg_at(t, p + 1 + 2 * i, #[trigger] im.module@[i]@)
    &&& forall|i: int| 0 <= i < nseg - 1 ==> (#[trigger] t[p + 2 + 2 * i].0) is Period
    &&& forall|j: int|
        0 <= j < nms ==> t[mod_end + 2 * j].0 is ForwardSlash && ident_at(
            t,
            mod_end + 2 * j + 1,
            #[trigger] im.module_views@[j]@,
        )
    &&& t[slash_end].0 is Import
    &&& {
        ||| (t[slash_end + 1].0 is Star && im.class@ == "*"@ && ncs == 0 && np == slash_end + 2)
        ||| (ident_at(t, slash_end + 1, im.class@) && (forall|j: int|
            0 <= j < ncs ==> t[slash_end + 2 + 2 * j].0 is ForwardSlash && ident_at(
                t,
                slash_end + 2 + 2 * j + 1,
                #[trigger] im.class_views@[j]@,
            )) && np == slash_end + 2 + 2 * ncs)
    }
    &&& (nms == 0 || nms == ncs)
}

/// A token against the data type a `typedef` stores for it.
pub open spec fn typedef_type_matches(tok: DCToken, dt: DataType) -> bool {
    &&& tok is CharT ==> dt.base_type is CharType && dt.identifier is None
    &&& tok is Float64T ==> dt.base_type is FloatType && dt.identifier is None
    &&& tok is StringT ==> dt.base_type is StringType && dt.identifier is None
    &&& tok is BlobT ==> dt.base_type is BlobType && dt.identifier is None
    &&& tok is Blob32T ==> dt.base_type is BlobType && (dt.identifier matches Some(x) && x@
        == "blob32"@)
    &&& (is_int_type_token(tok) || is_array_type_token(tok)) ==> dt.base_type is IntType
        && int_word_matches(tok, dt.identifier)
}

/// A stored parent list against the tokens after the class name: absent
/// exactly when no colon follows; present ones are the spelled,
/// comma-separated parents in order.
pub open spec fn parents_match(t: Seq<(DCToken, Span)>, p: int, parents: Option<Vec<String>>) -> bool {
    match parents {
        None => !(0 <= p < t.len() && t[p].0 is Colon),
        Some(v) => {
            &&& 0 <= p < t.len() && t[p].0 is Colon
            &&& v@.len() >= 1
            &&& forall|k: int| 0 <= k < v@.len() ==> ident_at(t, p + 1 + 2 * k, #[trigger] v@[k]@)
            &&& forall|k: int| 0 <= k < v@.len() - 1 ==> (#[trigger] t[p + 2 + 2 * k].0) is Comma
        },
    }
}

/// How many tokens a parent list occupies.
pub open spec fn inherit_extra(parents: Option<Vec<String>>) -> int {
    match parents {
        None => 0,
        Some(v) => 2 * v@.len() as int,
    }
}

/// A stored field declaration against the token opening it: the right
/// form for the lookahead, carrying the spelled field name or the
/// parameter's head-token facts.
pub open spec fn field_matches(t: Seq<(DCToken, Span)>, p: int, fd: FieldDecl) -> bool {
    match fd.node {
        FieldDecl_::MolecularField(mf) => 0 <= p && p + 1 < t.len() && t[p + 1].0 is Colon
            && ident_at(t, p, mf.identifier@),
        FieldDecl_::AtomicField(af) => 0 <= p && p + 1 < t.len() && t[p + 1].0 is OpenParenthesis
            && ident_at(t, p, af.identifier@),
        FieldDecl_::ParameterField(pf) => param_matches(t, p, pf.parameter),
    }
}

/// A class body's stored field declarations against its tokens: each
/// consecutive field is derived where the recognizer says and matches
/// its tokens, and the closing brace follows the last.
pub open spec fn fields_match(t: Seq<(DCToken, Span)>, p: int, fields: Seq<FieldDecl>) -> bool
    decreases fields.len(),
{
    if fields.len() == 0 {
        0 <= p < t.len() && t[p].0 is CloseBraces
    } else {
        match rec_field_declaration(t, p) {
            Some(np) => p < np <= t.len() && field_matches(t, p, fields[0]) && fields_match(
                t,
                np,
                fields.drop_first(),
            ),
            None => false,
        }
    }
}

/// A struct's stored members against its tokens: each consecutive
/// member is a derived, semicolon-terminated parameter matching its
/// tokens, and the closing brace follows the last.
pub open spec fn members_match(t: Seq<(DCToken, Span)>, p: int, members: Seq<ParameterField>) -> bool
    decreases members.len(),
{
    if members.len() == 0 {
        0 <= p < t.len() && t[p].0 is CloseBraces
    } else {
        match rec_parameter(t, p) {
            Some(q) => p < q <= t.len() && param_matches(t, p, members[0].parameter) && (match
                rec_semicolon(t, q) {
                Some(q2) => members_match(t, q2, members.drop_first()),
                None => false,
            }),
            None => false,
        }
    }
}

/// The stored declaration against its tokens `[p, np)`: the right
/// declaration form for the leading token, carrying the spelled name;
/// an import declaration carries all its spelled parts.
pub open spec fn decl_matches(t: Seq<(DCToken, Span)>, p: int, np: int, d: TypeDecl) -> bool {
    match d.node {
        TypeDecl_::KeywordType(k) => t[p].0 is Keyword && (k.node matches
            KeywordType_::KeywordType(id) && (t[p + 1].0 matches DCToken::Identifier(s) && id@
            == s@)),
        TypeDecl_::StructType(st) => t[p].0 is Struct && (t[p + 1].0 matches DCToken::Identifier(
            s,
        ) && st.identifier@ == s@) && members_match(t, p + 3, st.parameters@),
        TypeDecl_::DistributedClassType(dc) => t[p].0 is DClass && (t[p + 1].0 matches
            DCToken::Identifier(s) && dc.identifier@ == s@) && parents_match(t, p + 2, dc.parents)
            && fields_match(t, p + 3 + inherit_extra(dc.parents), dc.field_declarations@),
        TypeDecl_::PythonImport(im) => import_matches(t, p, np, im),
        TypeDecl_::TypeDefinition(td) => t[p].0 is Typedef && (t[p + 2].0 matches
            DCToken::Identifier(s) && td.alias@ == s@) && typedef_type_matches(
            t[p + 1].0,
            td.dc_type,
        ),
    }
}

/// The declarations of a model against the tokens from `p` to the end:
/// each consecutive declaration is derived where the recognizer says
/// and matches its tokens.
pub open spec fn decls_match_from(t: Seq<(DCToken, Span)>, p: int, decls: Seq<TypeDecl>) -> bool
    decreases decls.len(),
{
    if decls.len() == 0 {
        p == t.len()
    } else {
        match rec_type_decl(t, p) {
            Some(np) => p < np <= t.len() && decl_matches(t, p, np, decls[0])
                && decls_match_from(t, np, decls.drop_first()),
            None => false,
        }
    }
}

/// The whole model against the whole token stream.
pub open spec fn decls_match(t: Seq<(DCToken, Span)>, decls: Seq<TypeDecl>) -> bool {
    decls_match_from(t, 0, decls)
}

/// Whether a token stream compiles to the schema model `f`: the stream
/// derives the grammar, the stored declarations are the derived ones in
/// input order, and the import records are exactly their expansions.
pub open spec fn parses_to(t: Seq<(DCToken, Span)>, f: DCFile) -> bool {
    &&& rec_schema(t, 0)
    &&& decls_match(t, f.type_decl@)
    &&& imports_match(f.type_decl@, f.imports@)
}

/// Whether a token is one of the integer type words.
pub open spec fn is_int_type_token(t: DCToken) -> bool {
    ||| t is Int8T
    ||| t is Int16T
    ||| t is Int32T
    ||| t is Int64T
    ||| t is UInt8T
    ||| t is UInt16T
    ||| t is UInt32T
    ||| t is UInt64T
}

/// An integer or array type token against the stored spelled-out type
/// word.
pub open spec fn int_word_matches(tok: DCToken, w: Option<String>) -> bool {
    &&& tok is Int8T ==> (w matches Some(x) && x@ == "int8"@)
    &&& tok is Int16T ==> (w matches Some(x) && x@ == "int16"@)
    &&& tok is Int32T ==> (w matches Some(x) && x@ == "int32"@)
    &&& tok is Int64T ==> (w matches Some(x) && x@ == "int64"@)
    &&& tok is UInt8T ==> (w matches Some(x) && x@ == "uint8"@)
    &&& tok is UInt16T ==> (w matches Some(x) && x@ == "uint16"@)
    &&& tok is UInt32T ==> (w matches Some(x) && x@ == "uint32"@)
    &&& tok is UInt64T ==> (w matches Some(x) && x@ == "uint64"@)
    &&& tok is Int8ArrayT ==> (w matches Some(x) && x@ == "int8array"@)
    &&& tok is Int16ArrayT ==> (w matches Some(x) && x@ == "int16array"@)
    &&& tok is Int32ArrayT ==> (w matches Some(x) && x@ == "int32array"@)
    &&& tok is UInt8ArrayT ==> (w matches Some(x) && x@ == "uint8array"@)
    &&& tok is UInt16ArrayT ==> (w matches Some(x) && x@ == "uint16array"@)
    &&& tok is UInt32ArrayT ==> (w matches Some(x) && x@ == "uint32array"@)
    &&& tok is UInt32UInt8ArrayT ==> (w matches Some(x) && x@ == "uint32uint8array"@)
}

/// A stored parameter against the token opening it: the right kind for
/// the head token, carrying the spelled type word or struct name.
pub open spec fn param_matches(t: Seq<(DCToken, Span)>, p: int, par: Parameter) -> bool {
    let head = t[p].0;
    match par {
        Parameter::Char(cp) => head is CharT,
        Parameter::Int(ip) => is_int_type_token(head) && int_word_matches(head, ip.int_type),
        Parameter::Float(fp) => head is Float64T && (fp.float_type matches Some(x) && x@
            == "float64"@),
        Parameter::Sized(sp) => (head is StringT || head is BlobT) && (head is StringT ==> (
        sp.sized_type matches Some(x) && x@ == "string"@)) && (head is BlobT ==> (sp.sized_type
            matches Some(x) && x@ == "blob"@)),
        Parameter::Struct(st) => head matches DCToken::Identifier(w) && st.identifier1@ == w@,
        Parameter::Array(ap) => {
            ||| (is_int_type_token(head) || is_array_type_token(head)) && ap.data_type.base_type
                is IntType && int_word_matches(head, ap.data_type.identifier)
            ||| ((head matches DCToken::Identifier(w) && (ap.data_type.identifier matches Some(x)
                && x@ == w@)) && ap.data_type.base_type is StructType)
        },
    }
}

/// Whether a token may start a parameter.
pub open spec fn starts_parameter(t: DCToken) -> bool {
    ||| t is CharT
    ||| t is Int8T
    ||| t is Int16T
    ||| t is Int32T
    ||| t is Int64T
    ||| t is UInt8T
    ||| t is UInt16T
    ||| t is UInt32T
    ||| t is UInt64T
    ||| t is Int8ArrayT
    ||| t is Int16ArrayT
    ||| t is Int32ArrayT
    ||| t is UInt8ArrayT
    ||| t is UInt16ArrayT
    ||| t is UInt32ArrayT
    ||| t is UInt32UInt8ArrayT
    ||| t is Float64T
    ||| t is StringT
    ||| t is BlobT
    ||| t is Identifier
}

/// A struct-typed or array parameter opened by a type identifier.  The
/// rule that tells them apart: after the optional name, a struct
/// reference is only chosen when no array bracket follows.
fn parse_struct_or_array(toks: &TokenStream, pos: usize) -> (r: Result<
    (Parameter, usize),
    ParseError,
>)
    requires
        pos < toks@.len(),
        toks@[pos as int].0 is Identifier,
    ensures
        r matches Ok((p, np)) ==> param_matches(toks@, pos as int, p),
        r matches Err(e) ==> error_from_input(toks@, e),
        r matches Ok((p, np)) ==> rec_struct_or_array(toks@, pos as int) == Some(np as int),
        r is Err ==> rec_struct_or_array(toks@, pos as int) is None,
        r matches Ok((p, np)) ==> pos < np <= toks@.len() && ({
            let has_name = pos + 1 < toks@.len() && toks@[pos + 1].0 is Identifier;
            let q = pos + 1 + if has_name {
                1int
            } else {
                0int
            };
            if q < toks@.len() && toks@[q].0 is OpenBrackets {
                p is Array && np > q
            } else {
                p is Struct && np == q
            }
        }),
{
    let (struct_name, p1): (String, usize) = match expect_identifier(toks, pos) {
        Ok(v) => v,
        Err(e) => {
            return Err(e);
        },
    };
    let (name, p2): (Option<String>, usize) = parse_optional_name(toks, p1);
    if p2 < toks.len() {
        match &toks[p2].0 {
            DCToken::OpenBrackets => {
                let (range, p3): (IntRange, usize) = match parse_array_range(toks, p2) {
                    Ok(v) => v,
                    Err(e) => {
                        return Err(e);
                    },
                };
                Ok(
                    (
                        Parameter::Array(
                            ArrayParameter {
                                data_type: DataType {
                                    base_type: BaseType::StructType,
                                    identifier: Some(struct_name),
                                },
                                identifier: name,
                                array_range: range,
                            },
                        ),
                        p3,
                    ),
                )
            },
            _ => Ok(
                (
                    Parameter::Struct(StructParameter { identifier1: struct_name, identifier2: name }),
                    p2,
                ),
            ),
        }
    } else {
        Ok(
            (
                Parameter::Struct(StructParameter { identifier1: struct_name, identifier2: name }),
                p2,
            ),
        )
    }
}

/// One parameter of any kind, dispatched on its first token.
fn parse_parameter(toks: &TokenStream, pos: usize) -> (r: Result<(Parameter, usize), ParseError>)
    requires
        pos <= toks@.len(),
    ensures
        r matches Ok((p, np)) ==> param_matches(toks@, pos as int, p),
        r matches Err(e) ==> error_from_input(toks@, e),
        r matches Ok((p, np)) ==> rec_parameter(toks@, pos as int) == Some(np as int),
        r is Err ==> rec_parameter(toks@, pos as int) is None,
        r matches Ok((p, np)) ==> pos < np <= toks@.len() && ({
            let head = toks@[pos as int].0;
            &&& head is CharT ==> p is Char
            &&& head is Float64T ==> p is Float
            &&& head is StringT || head is BlobT ==> p is Sized
            &&& head is Identifier ==> p is Struct || p is Array
            &&& is_int_type_token(head) && pos + 1 < toks@.len() && toks@[pos + 1].0
                is OpenBrackets ==> p is Array
            &&& is_int_type_token(head) && !(pos + 1 < toks@.len() && toks@[pos + 1].0
                is OpenBrackets) ==> p is Int
        }),
        pos < toks@.len() && !starts_parameter(toks@[pos as int].0) ==> r is Err,
        pos >= toks@.len() ==> r is Err,
{
    if pos >= toks.len() {
        return Err(err_at(toks, pos, "expected a parameter"));
    }
    let head: &DCToken = &toks[pos].0;
    match head {
        DCToken::CharT => {
            let (name, p1): (Option<String>, usize) = parse_optional_name(toks, pos + 1);
            let (lit, p2): (Option<char>, usize) = match parse_char_init(toks, p1) {
                Ok(v) => v,
                Err(e) => {
                    return Err(e);
                },
            };
            Ok((Parameter::Char(CharParameter { identifier: name, char_literal: lit }), p2))
        },
        DCToken::Float64T => {
            let (range, p1): (Option<FloatRange>, usize) = match parse_float_range(toks, pos + 1) {
                Ok(v) => v,
                Err(e) => {
                    return Err(e);
                },
            };
            let (name, p2): (Option<String>, usize) = parse_optional_name(toks, p1);
            let (lit, p3): (Option<String>, usize) = match parse_float_const(toks, p2) {
                Ok(v) => v,
                Err(e) => {
                    return Err(e);
                },
            };
            Ok(
                (
                    Parameter::Float(
                        FloatParameter {
                            identifier: name,
                            float_type: Some("float64".to_owned()),
                            float_range: range,
                            float_transform: None,
                            float_constant: lit,
                        },
                    ),
                    p3,
                ),
            )
        },
        DCToken::StringT => {
            let (sc, p1): (Option<i64>, usize) = match parse_size_constraint(toks, pos + 1) {
                Ok(v) => v,
                Err(e) => {
                    return Err(e);
                },
            };
            let (name, p2): (Option<String>, usize) = parse_optional_name(toks, p1);
            let (lit, p3): (Option<String>, usize) = match parse_str_init(toks, p2) {
                Ok(v) => v,
                Err(e) => {
                    return Err(e);
                },
            };
            Ok(
                (
                    Parameter::Sized(
                        SizedParameter {
                            sized_type: Some("string".to_owned()),
                            size_constraint: sc,
                            identifier: name,
                            string_literal: lit,
                        },
                    ),
                    p3,
                ),
            )
        },
        DCToken::BlobT => {
            let (sc, p1): (Option<i64>, usize) = match parse_size_constraint(toks, pos + 1) {
                Ok(v) => v,
                Err(e) => {
                    return Err(e);
                },
            };
            let (name, p2): (Option<String>, usize) = parse_optional_name(toks, p1);
            let (lit, p3): (Option<String>, usize) = match parse_bin_init(toks, p2) {
                Ok(v) => v,
                Err(e) => {
                    return Err(e);
                },
            };
            Ok(
                (
                    Parameter::Sized(
                        SizedParameter {
                            sized_type: Some("blob".to_owned()),
                            size_constraint: sc,
                            identifier: name,
                            string_literal: lit,
                        },
                    ),
                    p3,
                ),
            )
        },
        DCToken::Identifier(_) => parse_struct_or_array(toks, pos),
        _ => {
            let int_word: Option<&'static str> = int_type_word(head);
            match int_word {
                Some(word) => {
                    // an integer type: an array parameter when a bracket
                    // follows, else a plain integer parameter
                    if pos + 1 < toks.len() && matches!(&toks[pos + 1].0, DCToken::OpenBrackets) {
                        let (range, p1): (IntRange, usize) = match parse_array_range(
                            toks,
                            pos + 1,
                        ) {
                            Ok(v) => v,
                            Err(e) => {
                                return Err(e);
                            },
                        };
                        let (name, p2): (Option<String>, usize) = parse_optional_name(toks, p1);
                        Ok(
                            (
                                Parameter::Array(
                                    ArrayParameter {
                                        data_type: DataType {
                                            base_type: BaseType::IntType,
                                            identifier: Some(word.to_owned()),
                                        },
                                        identifier: name,
                                        array_range: range,
                                    },
                                ),
                                p2,
                            ),
                        )
                    } else {
                        let (range, p1): (Option<IntRange>, usize) = match parse_int_range(
                            toks,
                            pos + 1,
                        ) {
                            Ok(v) => v,
                            Err(e) => {
                                return Err(e);
                            },
                        };
                        let (tr, p2): (Option<IntTransform>, usize) = match parse_int_transform(
                            toks,
                            p1,
                        ) {
                            Ok(v) => v,
                            Err(e) => {
                                return Err(e);
                            },
                        };
                        let (name, p3): (Option<String>, usize) = parse_optional_name(toks, p2);
                        let (c, p4): (Option<i64>, usize) = match parse_dec_const(toks, p3) {
                            Ok(v) => v,
                            Err(e) => {
                                return Err(e);
                            },
                        };
                        Ok(
                            (
                                Parameter::Int(
                                    IntParameter {
                                        identifier: name,
                                        int_type: Some(word.to_owned()),
                                        int_range: range,
                                        int_transform: tr,
                                        int_constant: c,
                                    },
                                ),
                                p4,
                            ),
                        )
                    }
                },
                None => {
                    let arr_word: Option<&'static str> = array_type_word(head);
                    match arr_word {
                        Some(word) => {
                            if pos + 1 < toks.len() && matches!(
                                &toks[pos + 1].0,
                                DCToken::OpenBrackets,
                            ) {
                                let (range, p1): (IntRange, usize) = match parse_array_range(
                                    toks,
                                    pos + 1,
                                ) {
                                    Ok(v) => v,
                                    Err(e) => {
                                        return Err(e);
                                    },
                                };
                                let (name, p2): (Option<String>, usize) = parse_optional_name(
                                    toks,
                                    p1,
                                );
                                Ok(
                                    (
                                        Parameter::Array(
                                            ArrayParameter {
                                                data_type: DataType {
                                                    base_type: BaseType::IntType,
                                                    identifier: Some(word.to_owned()),
                                                },
                                                identifier: name,
                                                array_range: range,
                                            },
                                        ),
                                        p2,
                                    ),
                                )
                            } else {
                                Err(err_at(toks, pos + 1, "expected '['"))
                            }
                        },
                        None => Err(err_at(toks, pos, "expected a parameter")),
                    }
                },
            }
        },
    }
}

/// The parameters of an atomic field, up to and including the closing
/// parenthesis.  The separating comma is optional, and a trailing one
/// before the closing parenthesis is accepted.
fn parse_parameters(toks: &TokenStream, pos: usize) -> (r: Result<
    (Vec<Parameter>, usize),
    ParseError,
>)
    requires
        pos <= toks@.len(),
    ensures
        r matches Err(e) ==> error_from_input(toks@, e),
        r matches Ok((ps, np)) ==> rec_parameters(toks@, pos as int) == Some(np as int),
        r is Err ==> rec_parameters(toks@, pos as int) is None,
        r matches Ok((ps, np)) ==> pos < np <= toks@.len() && toks@[np - 1].0
            is CloseParenthesis,
{
    let mut ps: Vec<Parameter> = Vec::new();
    let mut p: usize = pos;
    loop
        invariant
            pos <= p <= toks@.len(),
            rec_parameters(toks@, pos as int) == rec_parameters(toks@, p as int),
        decreases toks@.len() - p,
    {
        if p >= toks.len() {
            return Err(err_at(toks, p, "expected ')' or a parameter"));
        }
        match &toks[p].0 {
            DCToken::CloseParenthesis => {
                return Ok((ps, p + 1));
            },
            _ => {
                let (param, p2): (Parameter, usize) = match parse_parameter(toks, p) {
                    Ok(v) => v,
                    Err(e) => {
                        return Err(e);
                    },
                };
                ps.push(param);
                p = p2;
                if p < toks.len() && matches!(&toks[p].0, DCToken::Comma) {
                    p = p + 1;
                }
            },
        }
    }
}

/// An atomic field: name, parenthesized parameters, keywords, semicolon.
fn parse_atomic_field(toks: &TokenStream, pos: usize) -> (r: Result<
    (AtomicField, usize),
    ParseError,
>)
    requires
        pos <= toks@.len(),
    ensures
        r matches Err(e) ==> error_from_input(toks@, e),
        r matches Ok((f, np)) ==> rec_atomic_field(toks@, pos as int) == Some(np as int),
        r is Err ==> rec_atomic_field(toks@, pos as int) is None,
        r matches Ok((f, np)) ==> pos < np <= toks@.len() && (toks@[pos as int].0 matches
            DCToken::Identifier(s) && f.identifier@ == s@),
{
    let (id, p1): (String, usize) = match expect_identifier(toks, pos) {
        Ok(v) => v,
        Err(e) => {
            return Err(e);
        },
    };
    if !(p1 < toks.len() && matches!(&toks[p1].0, DCToken::OpenParenthesis)) {
        return Err(err_at(toks, p1, "expected '('"));
    }
    let (params, p2): (Vec<Parameter>, usize) = match parse_parameters(toks, p1 + 1) {
        Ok(v) => v,
        Err(e) => {
            return Err(e);
        },
    };
    let (words, p3): (Vec<String>, usize) = parse_dc_keyword_list(toks, p2);
    let kw: Option<KeywordType> = keywords_to_node(toks, p2, p3, words);
    let p4: usize = match expect_semicolon(toks, p3) {
        Ok(v) => v,
        Err(e) => {
            return Err(e);
        },
    };
    Ok((AtomicField { identifier: id, parameters: params, keyword_list: kw }, p4))
}

/// A parameter field: one parameter with its keyword list.
fn parse_parameter_field(toks: &TokenStream, pos: usize) -> (r: Result<
    (ParameterField, usize),
    ParseError,
>)
    requires
        pos <= toks@.len(),
    ensures
        r matches Ok((f, np)) ==> param_matches(toks@, pos as int, f.parameter),
        r matches Err(e) ==> error_from_input(toks@, e),
        r matches Ok((f, np)) ==> rec_parameter_field(toks@, pos as int) == Some(np as int),
        r is Err ==> rec_parameter_field(toks@, pos as int) is None,
        r matches Ok((f, np)) ==> pos < np <= toks@.len(),
{
    let (param, p1): (Parameter, usize) = match parse_parameter(toks, pos) {
        Ok(v) => v,
        Err(e) => {
            return Err(e);
        },
    };
    let (words, p2): (Vec<String>, usize) = parse_dc_keyword_list(toks, p1);
    let kw: Option<KeywordType> = keywords_to_node(toks, p1, p2, words);
    Ok((ParameterField { parameter: param, keyword_list: kw }, p2))
}

/// A molecular field: a name, a colon, then either a comma-separated
/// run of atomic fields or one of parameter fields, and a final
/// semicolon.
fn parse_molecular_field(toks: &TokenStream, pos: usize) -> (r: Result<
    (MolecularField, usize),
    ParseError,
>)
    requires
        pos <= toks@.len(),
    ensures
        r matches Err(e) ==> error_from_input(toks@, e),
        r matches Ok((f, np)) ==> rec_molecular_field(toks@, pos as int) == Some(np as int),
        r is Err ==> rec_molecular_field(toks@, pos as int) is None,
        r matches Ok((f, np)) ==> pos < np <= toks@.len() && (toks@[pos as int].0 matches
            DCToken::Identifier(s) && f.identifier@ == s@),
{
    let (id, p1): (String, usize) = match expect_identifier(toks, pos) {
        Ok(v) => v,
        Err(e) => {
            return Err(e);
        },
    };
    if !(p1 < toks.len() && matches!(&toks[p1].0, DCToken::Colon)) {
        return Err(err_at(toks, p1, "expected ':'"));
    }
    let p2: usize = p1 + 1;
    let mut fields: Vec<FieldType> = Vec::new();
    let atomic: bool = toks.len() - p2 > 1 && matches!(&toks[p2].0, DCToken::Identifier(_))
        && matches!(&toks[p2 + 1].0, DCToken::OpenParenthesis);
    let mut p: usize;
    if atomic {
        let (af, q): (AtomicField, usize) = match parse_atomic_field(toks, p2) {
            Ok(v) => v,
            Err(e) => {
                return Err(e);
            },
        };
        fields.push(FieldType::Atomic(af));
        p = q;
    } else {
        let (pf, q): (ParameterField, usize) = match parse_parameter_field(toks, p2) {
            Ok(v) => v,
            Err(e) => {
                return Err(e);
            },
        };
        fields.push(FieldType::Parameter(pf));
        p = q;
    }
    loop
        invariant
            pos < p <= toks@.len(),
            toks@[pos as int].0 matches DCToken::Identifier(s) && id@ == s@,
            rec_molecular_field(toks@, pos as int) == rec_molecular_rest(toks@, p as int, atomic),
        decreases toks@.len() - p,
    {
        if p < toks.len() && matches!(&toks[p].0, DCToken::Comma) {
            if atomic {
                let (af, q): (AtomicField, usize) = match parse_atomic_field(toks, p + 1) {
                    Ok(v) => v,
                    Err(e) => {
                        return Err(e);
                    },
                };
                fields.push(FieldType::Atomic(af));
                p = q;
            } else {
                let (pf, q): (ParameterField, usize) = match parse_parameter_field(toks, p + 1) {
                    Ok(v) => v,
                    Err(e) => {
                        return Err(e);
                    },
                };
                fields.push(FieldType::Parameter(pf));
                p = q;
            }
        } else {
            let p3: usize = match expect_semicolon(toks, p) {
                Ok(v) => v,
                Err(e) => {
                    return Err(e);
                },
            };
            return Ok((MolecularField { identifier: id, fields }, p3));
        }
    }
}

/// One field declaration, dispatched on lookahead: a name followed by a
/// colon opens a molecular field, by a parenthesis an atomic field;
/// anything else is a parameter field.
fn parse_field_declaration(toks: &TokenStream, pos: usize) -> (r: Result<
    (FieldDecl, usize),
    ParseError,
>)
    requires
        pos < toks@.len(),
    ensures
        r matches Ok((f, np)) ==> field_matches(toks@, pos as int, f),
        r matches Err(e) ==> error_from_input(toks@, e),
        r matches Ok((f, np)) ==> rec_field_declaration(toks@, pos as int) == Some(np as int),
        r is Err ==> rec_field_declaration(toks@, pos as int) is None,
        r matches Ok((f, np)) ==> pos < np <= toks@.len(),
{
    let molecular: bool = toks.len() - pos > 1 && matches!(&toks[pos].0, DCToken::Identifier(_))
        && matches!(&toks[pos + 1].0, DCToken::Colon);
    let atomic: bool = toks.len() - pos > 1 && matches!(&toks[pos].0, DCToken::Identifier(_))
        && matches!(&toks[pos + 1].0, DCToken::OpenParenthesis);
    if molecular {
        let (mf, np): (MolecularField, usize) = match parse_molecular_field(toks, pos) {
            Ok(v) => v,
            Err(e) => {
                return Err(e);
            },
        };
        let span: Span = span_of(toks, pos, np);
        Ok((FieldDecl { span, node: FieldDecl_::MolecularField(mf) }, np))
    } else if atomic {
        let (af, np): (AtomicField, usize) = match parse_atomic_field(toks, pos) {
            Ok(v) => v,
            Err(e) => {
                return Err(e);
            },
        };
        let span: Span = span_of(toks, pos, np);
        Ok((FieldDecl { span, node: FieldDecl_::AtomicField(af) }, np))
    } else {
        let (pf, np): (ParameterField, usize) = match parse_parameter_field(toks, pos) {
            Ok(v) => v,
            Err(e) => {
                return Err(e);
            },
        };
        let span: Span = span_of(toks, pos, np);
        Ok((FieldDecl { span, node: FieldDecl_::ParameterField(pf) }, np))
    }
}

/// An optional parent list: a colon followed by one or more
/// comma-separated identifiers, or nothing.
fn parse_optional_inheritance(toks: &TokenStream, pos: usize) -> (r: Result<
    (Option<Vec<String>>, usize),
    ParseError,
>)
    requires
        pos <= toks@.len(),
    ensures
        r matches Ok((parents, np)) ==> parents_match(toks@, pos as int, parents) && np == pos
            + inherit_extra(parents),
        r matches Err(e) ==> error_from_input(toks@, e),
        r matches Ok((parents, np)) ==> rec_optional_inheritance(toks@, pos as int) == Some(
            np as int,
        ),
        r is Err ==> rec_optional_inheritance(toks@, pos as int) is None,
        r matches Ok((parents, np)) ==> pos <= np <= toks@.len() && (parents is None ==> np == pos),
{
    if !(pos < toks.len() && matches!(&toks[pos].0, DCToken::Colon)) {
        return Ok((None, pos));
    }
    let (first, p1): (String, usize) = match expect_identifier(toks, pos + 1) {
        Ok(v) => v,
        Err(e) => {
            return Err(e);
        },
    };
    let mut parents: Vec<String> = Vec::new();
    parents.push(first);
    let mut p: usize = p1;
    loop
        invariant
            pos < p <= toks@.len(),
            rec_optional_inheritance(toks@, pos as int) == rec_inherit_rest(toks@, p as int),
            toks@[pos as int].0 is Colon,
            parents@.len() >= 1,
            p == pos + 2 * parents@.len(),
            forall|k: int|
                0 <= k < parents@.len() ==> ident_at(toks@, pos + 1 + 2 * k, #[trigger] parents@[k]@),
            forall|k: int|
                0 <= k < parents@.len() - 1 ==> (#[trigger] toks@[pos + 2 + 2 * k].0) is Comma,
        decreases toks@.len() - p,
    {
        if p < toks.len() && matches!(&toks[p].0, DCToken::Comma) {
            let (next, q): (String, usize) = match expect_identifier(toks, p + 1) {
                Ok(v) => v,
                Err(e) => {
                    return Err(e);
                },
            };
            parents.push(next);
            p = q;
        } else {
            return Ok((Some(parents), p));
        }
    }
}

/// A distributed class declaration.  A body whose closing brace is
/// missing fails with a syntax error naming the expected closing token,
/// at the offending token or at end of input — never with a crash.
fn parse_distributed_class(toks: &TokenStream, pos: usize) -> (r: Result<
    (TypeDecl, usize),
    ParseError,
>)
    requires
        pos < toks@.len(),
        toks@[pos as int].0 is DClass,
    ensures
        r matches Ok((d, np)) ==> (d.node matches TypeDecl_::DistributedClassType(dc)
            && parents_match(toks@, pos + 2, dc.parents) && fields_match(
            toks@,
            pos + 3 + inherit_extra(dc.parents),
            dc.field_declarations@,
        )),
        r matches Err(e) ==> error_from_input(toks@, e),
        r matches Ok((d, np)) ==> rec_distributed_class(toks@, pos as int) == Some(np as int),
        r is Err ==> rec_distributed_class(toks@, pos as int) is None,
        r matches Ok((d, np)) ==> pos < np <= toks@.len() && (d.node matches
            TypeDecl_::DistributedClassType(dc) && (toks@[pos + 1].0 matches DCToken::Identifier(s)
            && dc.identifier@ == s@)),
{
    let nlen: usize = toks.len();
    let (id, p1): (String, usize) = match expect_identifier(toks, pos + 1) {
        Ok(v) => v,
        Err(e) => {
            return Err(e);
        },
    };
    let (parents, p2): (Option<Vec<String>>, usize) = match parse_optional_inheritance(toks, p1) {
        Ok(v) => v,
        Err(e) => {
            return Err(e);
        },
    };
    if !(p2 < nlen && matches!(&toks[p2].0, DCToken::OpenBraces)) {
        return Err(err_at(toks, p2, "expected '{'"));
    }
    let mut fields: Vec<FieldDecl> = Vec::new();
    let mut p: usize = p2 + 1;
    let ghost body0: int = p2 + 1;
    proof {
        assert forall|restf: Seq<FieldDecl>|
            #[trigger] fields_match(toks@, body0, restf) implies fields_match(
            toks@,
            body0,
            fields@ + restf,
        ) by {
            assert(fields@ + restf =~= restf);
        }
    }
    loop
        invariant
            pos < p <= toks@.len(),
            pos + 1 < toks@.len(),
            toks@[pos + 1].0 matches DCToken::Identifier(s) && id@ == s@,
            rec_distributed_class(toks@, pos as int) == rec_fields_rest(toks@, p as int),
            toks@[pos as int].0 is DClass,
            parents_match(toks@, pos + 2, parents),
            body0 == pos + 3 + inherit_extra(parents),
            forall|restf: Seq<FieldDecl>|
                #[trigger] fields_match(toks@, p as int, restf) ==> fields_match(
                    toks@,
                    body0,
                    fields@ + restf,
                ),
        decreases toks@.len() - p,
    {
        if p >= toks.len() {
            return Err(err_at(toks, p, "expected '}' or a field declaration"));
        }
        if matches!(&toks[p].0, DCToken::CloseBraces) {
            let p3: usize = p + 1;
            let p4: usize = match expect_semicolon(toks, p3) {
                Ok(v) => v,
                Err(e) => {
                    return Err(e);
                },
            };
            let span: Span = span_of(toks, pos, p4);
            proof {
                assert(fields_match(toks@, p as int, Seq::<FieldDecl>::empty()));
                assert(fields@ + Seq::<FieldDecl>::empty() =~= fields@);
            }
            return Ok(
                (
                    TypeDecl {
                        span,
                        node: TypeDecl_::DistributedClassType(
                            DistributedClassType {
                                span,
                                identifier: id,
                                parents,
                                field_declarations: fields,
                            },
                        ),
                    },
                    p4,
                ),
            );
        }
        let (fd, q): (FieldDecl, usize) = match parse_field_declaration(toks, p) {
            Ok(v) => v,
            Err(e) => {
                return Err(e);
            },
        };
        let ghost fd_g: FieldDecl = fd;
        let ghost prevf: Seq<FieldDecl> = fields@;
        let ghost p_old: int = p as int;
        fields.push(fd);
        proof {
            let t = toks@;
            assert forall|restf: Seq<FieldDecl>|
                #[trigger] fields_match(t, q as int, restf) implies fields_match(
                t,
                body0,
                fields@ + restf,
            ) by {
                let withf = seq![fd_g] + restf;
                assert(withf.drop_first() =~= restf);
                assert(withf[0] == fd_g);
                assert(fields_match(t, p_old, withf));
                assert(fields_match(t, body0, prevf + withf));
                assert(prevf + withf =~= fields@ + restf);
            }
        }
        p = q;
    }
}

/// A struct declaration: semicolon-terminated parameters between
/// braces.
fn parse_struct_type(toks: &TokenStream, pos: usize) -> (r: Result<(TypeDecl, usize), ParseError>)
    requires
        pos < toks@.len(),
        toks@[pos as int].0 is Struct,
    ensures
        r matches Ok((d, np)) ==> (d.node matches TypeDecl_::StructType(st) && members_match(
            toks@,
            pos + 3,
            st.parameters@,
        )),
        r matches Err(e) ==> error_from_input(toks@, e),
        r matches Ok((d, np)) ==> rec_struct_type(toks@, pos as int) == Some(np as int),
        r is Err ==> rec_struct_type(toks@, pos as int) is None,
        r matches Ok((d, np)) ==> pos < np <= toks@.len() && (d.node matches
            TypeDecl_::StructType(st) && (toks@[pos + 1].0 matches DCToken::Identifier(s)
            && st.identifier@ == s@)),
{
    let nlen: usize = toks.len();
    let (id, p1): (String, usize) = match expect_identifier(toks, pos + 1) {
        Ok(v) => v,
        Err(e) => {
            return Err(e);
        },
    };
    if !(p1 < nlen && matches!(&toks[p1].0, DCToken::OpenBraces)) {
        return Err(err_at(toks, p1, "expected '{'"));
    }
    let mut members: Vec<ParameterField> = Vec::new();
    let mut p: usize = p1 + 1;
    let ghost body0: int = p1 + 1;
    proof {
        assert forall|restm: Seq<ParameterField>|
            #[trigger] members_match(toks@, body0, restm) implies members_match(
            toks@,
            body0,
            members@ + restm,
        ) by {
            assert(members@ + restm =~= restm);
        }
    }
    loop
        invariant
            pos < p <= toks@.len(),
            pos + 1 < toks@.len(),
            toks@[pos + 1].0 matches DCToken::Identifier(s) && id@ == s@,
            rec_struct_type(toks@, pos as int) == rec_struct_members(toks@, p as int),
            body0 == pos + 3,
            forall|restm: Seq<ParameterField>|
                #[trigger] members_match(toks@, p as int, restm) ==> members_match(
                    toks@,
                    body0,
                    members@ + restm,
                ),
        decreases toks@.len() - p,
    {
        if p >= toks.len() {
            return Err(err_at(toks, p, "expected '}' or a parameter"));
        }
        if matches!(&toks[p].0, DCToken::CloseBraces) {
            let p3: usize = match expect_semicolon(toks, p + 1) {
                Ok(v) => v,
                Err(e) => {
                    return Err(e);
                },
            };
            let span: Span = span_of(toks, pos, p3);
            proof {
                assert(members_match(toks@, p as int, Seq::<ParameterField>::empty()));
                assert(members@ + Seq::<ParameterField>::empty() =~= members@);
            }
            return Ok(
                (
                    TypeDecl {
                        span,
                        node: TypeDecl_::StructType(
                            StructType { span, identifier: id, parameters: members },
                        ),
                    },
                    p3,
                ),
            );
        }
        let (param, q): (Parameter, usize) = match parse_parameter(toks, p) {
            Ok(v) => v,
            Err(e) => {
                return Err(e);
            },
        };
        let q2: usize = match expect_semicolon(toks, q) {
            Ok(v) => v,
            Err(e) => {
                return Err(e);
            },
        };
        let mem: ParameterField = ParameterField { parameter: param, keyword_list: None };
        let ghost mem_g: ParameterField = mem;
        let ghost prevm: Seq<ParameterField> = members@;
        let ghost p_old: int = p as int;
        members.push(mem);
        proof {
            let t = toks@;
            assert forall|restm: Seq<ParameterField>|
                #[trigger] members_match(t, q2 as int, restm) implies members_match(
                t,
                body0,
                members@ + restm,
            ) by {
                let withm = seq![mem_g] + restm;
                assert(withm.drop_first() =~= restm);
                assert(withm[0] == mem_g);
                assert(members_match(t, p_old, withm));
                assert(members_match(t, body0, prevm + withm));
                assert(prevm + withm =~= members@ + restm);
            }
        }
        p = q2;
    }
}

/// A keyword declaration: `keyword <identifier> ;`.
fn parse_keyword_type(toks: &TokenStream, pos: usize) -> (r: Result<(TypeDecl, usize), ParseError>)
    requires
        pos < toks@.len(),
        toks@[pos as int].0 is Keyword,
    ensures
        r matches Err(e) ==> error_from_input(toks@, e),
        r matches Ok((d, np)) ==> rec_keyword_type(toks@, pos as int) == Some(np as int),
        r is Err ==> rec_keyword_type(toks@, pos as int) is None,
        r matches Ok((d, np)) ==> pos < np <= toks@.len() && (d.node matches
            TypeDecl_::KeywordType(k) && (k.node matches KeywordType_::KeywordType(id) && (toks@[
        pos + 1].0 matches DCToken::Identifier(s) && id@ == s@))),
{
    let nlen: usize = toks.len();
    if nlen - pos < 2 {
        return Err(err_at(toks, nlen, "expected an identifier"));
    }
    let (id, p1): (String, usize) = match expect_identifier(toks, pos + 1) {
        Ok(v) => v,
        Err(e) => {
            return Err(e);
        },
    };
    let p2: usize = match expect_semicolon(toks, p1) {
        Ok(v) => v,
        Err(e) => {
            return Err(e);
        },
    };
    let span: Span = span_of(toks, pos, p2);
    Ok(
        (
            TypeDecl {
                span,
                node: TypeDecl_::KeywordType(
                    KeywordType { span, node: KeywordType_::KeywordType(id) },
                ),
            },
            p2,
        ),
    )
}

/// A type definition: `typedef <type> <alias> [range] ;`.
fn parse_type_definition(toks: &TokenStream, pos: usize) -> (r: Result<
    (TypeDecl, usize),
    ParseError,
>)
    requires
        pos < toks@.len(),
        toks@[pos as int].0 is Typedef,
    ensures
        r matches Ok((d, np)) ==> (d.node matches TypeDecl_::TypeDefinition(td)
            && typedef_type_matches(toks@[pos + 1].0, td.dc_type)),
        r matches Err(e) ==> error_from_input(toks@, e),
        r matches Ok((d, np)) ==> rec_type_definition(toks@, pos as int) == Some(np as int),
        r is Err ==> rec_type_definition(toks@, pos as int) is None,
        r matches Ok((d, np)) ==> pos < np <= toks@.len() && (d.node matches
            TypeDecl_::TypeDefinition(td) && (toks@[pos + 2].0 matches DCToken::Identifier(s)
            && td.alias@ == s@)),
{
    let nlen: usize = toks.len();
    if pos + 1 >= nlen {
        return Err(err_at(toks, pos + 1, "expected a type"));
    }
    let head: &DCToken = &toks[pos + 1].0;
    let dc_type: DataType = match head {
        DCToken::CharT => DataType { base_type: BaseType::CharType, identifier: None },
        DCToken::Float64T => DataType { base_type: BaseType::FloatType, identifier: None },
        DCToken::StringT => DataType { base_type: BaseType::StringType, identifier: None },
        DCToken::BlobT => DataType { base_type: BaseType::BlobType, identifier: None },
        DCToken::Blob32T => DataType {
            base_type: BaseType::BlobType,
            identifier: Some("blob32".to_owned()),
        },
        _ => {
            let int_word: Option<&'static str> = int_type_word(head);
            let arr_word: Option<&'static str> = array_type_word(head);
            match (int_word, arr_word) {
                (Some(w), _) => DataType {
                    base_type: BaseType::IntType,
                    identifier: Some(w.to_owned()),
                },
                (None, Some(w)) => DataType {
                    base_type: BaseType::IntType,
                    identifier: Some(w.to_owned()),
                },
                (None, None) => {
                    return Err(err_at(toks, pos + 1, "expected a type"));
                },
            }
        },
    };
    let (alias, p1): (String, usize) = match expect_identifier(toks, pos + 2) {
        Ok(v) => v,
        Err(e) => {
            return Err(e);
        },
    };
    let p2: usize = if p1 < nlen && matches!(&toks[p1].0, DCToken::OpenBrackets) {
        match parse_array_range(toks, p1) {
            Ok((_, q)) => q,
            Err(e) => {
                return Err(e);
            },
        }
    } else {
        p1
    };
    let p3: usize = match expect_semicolon(toks, p2) {
        Ok(v) => v,
        Err(e) => {
            return Err(e);
        },
    };
    let span: Span = span_of(toks, pos, p3);
    Ok((TypeDecl { span, node: TypeDecl_::TypeDefinition(TypeDefinition { span, dc_type, alias }) }, p3))
}

/// Consumes a module path segment: either a plain identifier or a
/// module-style one.
fn expect_module_identifier(toks: &TokenStream, pos: usize) -> (r: Result<
    (String, usize),
    ParseError,
>)
    requires
        pos <= toks@.len(),
    ensures
        r matches Err(e) ==> error_from_input(toks@, e),
        r matches Ok((seg, np)) ==> module_seg_at(toks@, pos as int, seg@),
        r is Err <==> !(pos < toks@.len() && (toks@[pos as int].0 is Identifier
            || toks@[pos as int].0 is Module)),
        r matches Ok((s, np)) ==> np == pos + 1 && pos < toks@.len(),
{
    if pos < toks.len() {
        match &toks[pos].0 {
            DCToken::Identifier(s) => Ok((s.clone(), pos + 1)),
            DCToken::Module(s) => Ok((s.clone(), pos + 1)),
            _ => Err(err_at(toks, pos, "expected a module name")),
        }
    } else {
        Err(err_at(toks, pos, "expected a module name"))
    }
}

/// A possibly empty run of view suffixes: `/Name` pairs, in order.
fn parse_slash_identifier(toks: &TokenStream, pos: usize) -> (r: Result<
    (Vec<String>, usize),
    ParseError,
>)
    requires
        pos <= toks@.len(),
    ensures
        r matches Err(e) ==> error_from_input(toks@, e),
        r matches Ok((v, np)) ==> rec_slash_identifier(toks@, pos as int) == Some(np as int)
            && np == pos + 2 * v@.len() && (forall|j: int|
            0 <= j < v@.len() ==> (#[trigger] toks@[pos + 2 * j].0) is ForwardSlash && (toks@[pos
                + 2 * j + 1].0 matches DCToken::Identifier(w) && v@[j]@ == w@)),
        r is Err ==> rec_slash_identifier(toks@, pos as int) is None,
        r matches Ok((v, np)) ==> pos <= np <= toks@.len(),
{
    let mut out: Vec<String> = Vec::new();
    let mut p: usize = pos;
    loop
        invariant
            pos <= p <= toks@.len(),
            p == pos + 2 * out@.len(),
            rec_slash_identifier(toks@, pos as int) == rec_slash_identifier(toks@, p as int),
            forall|j: int|
                0 <= j < out@.len() ==> (#[trigger] toks@[pos + 2 * j].0) is ForwardSlash && (
                toks@[pos + 2 * j + 1].0 matches DCToken::Identifier(w) && out@[j]@ == w@),
        decreases toks@.len() - p,
    {
        if p < toks.len() && matches!(&toks[p].0, DCToken::ForwardSlash) {
            let (id, q): (String, usize) = match expect_identifier(toks, p + 1) {
                Ok(v) => v,
                Err(e) => {
                    return Err(e);
                },
            };
            out.push(id);
            p = q;
        } else {
            return Ok((out, p));
        }
    }
}

/// Joins module path segments with `.` separators.
fn join_module_path(segs: &Vec<String>) -> (r: String)
    ensures
        r@ == joined_modules(segs.deep_view()),
{
    let mut s: String = String::new();
    let mut i: usize = 0;
    proof {
        assert(segs.deep_view().take(0) =~= Seq::<Seq<char>>::empty());
    }
    while i < segs.len()
        invariant
            i <= segs@.len(),
            segs.deep_view().len() == segs@.len(),
            s@ == joined_modules(segs.deep_view().take(i as int)),
        decreases segs@.len() - i,
    {
        if i != 0 {
            s.append(".");
            proof {
                reveal_strlit(".");
            }
        }
        s.append(segs[i].as_str());
        proof {
            let dv = segs.deep_view();
            assert(dv.take(i + 1).drop_last() =~= dv.take(i as int));
            assert(dv.take(i + 1)[i as int] == dv[i as int]);
            assert(dv[i as int] == segs@[i as int]@);
            if i == 0 {
                assert(joined_modules(dv.take(1)) == dv[0]);
            } else {
                assert(joined_modules(dv.take(i + 1)) == joined_modules(dv.take(i as int))
                    + seq!['.'] + dv[i as int]);
                assert("."@ =~= seq!['.']) by {
                    reveal_strlit(".");
                }
            }
            assert(s@ =~= joined_modules(dv.take(i + 1)));
        }
        i += 1;
    }
    proof {
        assert(segs.deep_view().take(segs@.len() as int) =~= segs.deep_view());
    }
    s
}

/// Builds the class symbols of an import without module suffixes: the
/// bare class name, then the name extended by each class view suffix.
fn build_class_symbols(class: &String, cs: &Vec<String>) -> (r: Vec<String>)
    ensures
        r.deep_view() == class_symbols(class@, cs.deep_view()),
{
    let mut out: Vec<String> = Vec::new();
    out.push(class.clone());
    let mut i: usize = 0;
    while i < cs.len()
        invariant
            i <= cs@.len(),
            out@.len() == i + 1,
            out@[0]@ == class@,
            forall|j: int| 1 <= j <= i ==> #[trigger] out@[j]@ == class@ + cs@[j - 1]@,
        decreases cs@.len() - i,
    {
        out.push(class.clone().concat(cs[i].as_str()));
        i += 1;
    }
    proof {
        assert(out.deep_view() =~~= class_symbols(class@, cs.deep_view()));
    }
    out
}

/// Builds the records of an import with module suffixes: the first
/// record binds the bare class name to the bare module path; the i-th
/// suffix extends the path and pairs with the i-th suffixed class name.
fn expand_with_suffixes(m: &String, ms: &Vec<String>, class: &String, cs: &Vec<String>) -> (r: Vec<
    DCImportRecord,
>)
    requires
        ms@.len() == cs@.len(),
    ensures
        r@.len() == ms@.len() + 1,
        r@[0].module@ == m@,
        r@[0].symbols.deep_view() == seq![class@],
        forall|i: int|
            1 <= i <= ms@.len() ==> (#[trigger] r@[i]).module@ == m@ + ms@[i - 1]@ && r@[i].symbols.deep_view()
                == seq![class@ + cs@[i - 1]@],
{
    let mut out: Vec<DCImportRecord> = Vec::new();
    let mut syms0: Vec<String> = Vec::new();
    syms0.push(class.clone());
    proof {
        assert(syms0.deep_view() =~~= seq![class@]);
    }
    out.push(DCImportRecord { module: m.clone(), symbols: syms0 });
    let mut i: usize = 0;
    while i < ms.len()
        invariant
            i <= ms@.len(),
            ms@.len() == cs@.len(),
            out@.len() == i + 1,
            out@[0].module@ == m@,
            out@[0].symbols.deep_view() == seq![class@],
            forall|j: int|
                1 <= j <= i ==> (#[trigger] out@[j]).module@ == m@ + ms@[j - 1]@ && out@[j].symbols.deep_view()
                    == seq![class@ + cs@[j - 1]@],
        decreases ms@.len() - i,
    {
        let module_i: String = m.clone().concat(ms[i].as_str());
        let sym: String = class.clone().concat(cs[i].as_str());
        let mut sv: Vec<String> = Vec::new();
        sv.push(sym);
        proof {
            assert(sv.deep_view() =~~= seq![class@ + cs@[i as int]@]);
        }
        out.push(DCImportRecord { module: module_i, symbols: sv });
        i += 1;
    }
    out
}

/// A Python import declaration, expanded to its import records.  When
/// module view suffixes are present but do not pair 1:1 with the class
/// view suffixes, the import fails with an explicit error — never a
/// silent truncation.
fn parse_python_import(toks: &TokenStream, pos: usize) -> (r: Result<
    (TypeDecl, Vec<DCImportRecord>, usize),
    ParseError,
>)
    requires
        pos < toks@.len(),
        toks@[pos as int].0 is From,
    ensures
        r matches Err(e) ==> error_from_input(toks@, e),
        r matches Ok((d, recs, np)) ==> rec_python_import(toks@, pos as int) == Some(np as int)
            && (d.node matches TypeDecl_::PythonImport(im) && import_matches(
            toks@,
            pos as int,
            np as int,
            im,
        )),
        r is Err ==> rec_python_import(toks@, pos as int) is None,
        r matches Ok((d, recs, np)) ==> pos < np <= toks@.len() && (d.node matches
            TypeDecl_::PythonImport(im) && is_expansion(recs@, im) && recs@.len() == import_count(
            im,
        )),
{
    let nlen: usize = toks.len();
    let (seg0, p1): (String, usize) = match expect_module_identifier(toks, pos + 1) {
        Ok(v) => v,
        Err(e) => {
            return Err(e);
        },
    };
    let mut segs: Vec<String> = Vec::new();
    segs.push(seg0);
    let mut p: usize = p1;
    loop
        invariant
            pos < p <= toks@.len(),
            segs@.len() >= 1,
            p == pos + 2 * segs@.len(),
            pos + 1 < toks@.len(),
            toks@[pos + 1].0 is Identifier || toks@[pos + 1].0 is Module,
            rec_modules_rest(toks@, pos + 2) == rec_modules_rest(toks@, p as int),
            forall|i: int|
                0 <= i < segs@.len() ==> module_seg_at(toks@, pos + 1 + 2 * i, #[trigger] segs@[i]@),
            forall|i: int|
                0 <= i < segs@.len() - 1 ==> (#[trigger] toks@[pos + 2 + 2 * i].0) is Period,
        ensures
            pos < p <= toks@.len(),
            segs@.len() >= 1,
            p == pos + 2 * segs@.len(),
            pos + 1 < toks@.len(),
            toks@[pos + 1].0 is Identifier || toks@[pos + 1].0 is Module,
            rec_modules_rest(toks@, pos + 2) == Some(p as int),
            forall|i: int|
                0 <= i < segs@.len() ==> module_seg_at(toks@, pos + 1 + 2 * i, #[trigger] segs@[i]@),
            forall|i: int|
                0 <= i < segs@.len() - 1 ==> (#[trigger] toks@[pos + 2 + 2 * i].0) is Period,
        decreases toks@.len() - p,
    {
        if p < toks.len() && matches!(&toks[p].0, DCToken::Period) {
            let (seg, q): (String, usize) = match expect_module_identifier(toks, p + 1) {
                Ok(v) => v,
                Err(e) => {
                    proof {
                        assert(rec_modules_rest(toks@, p as int) is None);
                        assert(rec_python_import(toks@, pos as int) is None);
                    }
                    return Err(e);
                },
            };
            segs.push(seg);
            p = q;
        } else {
            break ;
        }
    }
    let (ms, p2): (Vec<String>, usize) = match parse_slash_identifier(toks, p) {
        Ok(v) => v,
        Err(e) => {
            return Err(e);
        },
    };
    if !(p2 < nlen && matches!(&toks[p2].0, DCToken::Import)) {
        return Err(err_at(toks, p2, "expected 'import'"));
    }
    let p3: usize = p2 + 1;
    if p3 >= nlen {
        return Err(err_at(toks, p3, "expected an identifier or '*'"));
    }
    let (class, cs, p4): (String, Vec<String>, usize) = match &toks[p3].0 {
        DCToken::Star => ("*".to_owned(), Vec::new(), p3 + 1),
        DCToken::Identifier(s) => {
            let c: String = s.clone();
            let (v, q): (Vec<String>, usize) = match parse_slash_identifier(toks, p3 + 1) {
                Ok(v) => v,
                Err(e) => {
                    return Err(e);
                },
            };
            (c, v, q)
        },
        _ => {
            return Err(err_at(toks, p3, "expected an identifier or '*'"));
        },
    };
    if ms.len() != 0 && ms.len() != cs.len() {
        return Err(err_at(toks, pos, "mismatched module and class view suffixes"));
    }
    let m: String = join_module_path(&segs);
    let records: Vec<DCImportRecord> = if ms.len() == 0 {
        let symbols: Vec<String> = build_class_symbols(&class, &cs);
        let mut one: Vec<DCImportRecord> = Vec::new();
        one.push(DCImportRecord { module: m, symbols });
        one
    } else {
        expand_with_suffixes(&m, &ms, &class, &cs)
    };
    let ghost segs_v: Seq<String> = segs@;
    let ghost ms_v: Seq<String> = ms@;
    let ghost cs_v: Seq<String> = cs@;
    let ghost class_v: Seq<char> = class@;
    let span: Span = span_of(toks, pos, p4);
    let im: DCImport = DCImport {
        span,
        module: segs,
        module_views: ms,
        class,
        class_views: cs,
    };
    proof {
        assert(is_expansion(records@, im));
        let t = toks@;
        let nseg = im.module@.len() as int;
        let nms = im.module_views@.len() as int;
        let ncs = im.class_views@.len() as int;
        assert(im.module@ == segs_v && im.module_views@ == ms_v && im.class_views@ == cs_v
            && im.class@ == class_v);
        assert forall|i: int| 0 <= i < nseg implies module_seg_at(
            t,
            pos + 1 + 2 * i,
            #[trigger] im.module@[i]@,
        ) by {
            assert(module_seg_at(t, pos + 1 + 2 * i, segs_v[i]@));
        }
        assert forall|j: int|
            0 <= j < nms implies t[pos + 2 * nseg + 2 * j].0 is ForwardSlash && ident_at(
            t,
            pos + 2 * nseg + 2 * j + 1,
            #[trigger] im.module_views@[j]@,
        ) by {
            assert((t[p + 2 * j].0) is ForwardSlash && (t[p + 2 * j + 1].0 matches
                DCToken::Identifier(w) && ms_v[j]@ == w@));
        }
        assert forall|j: int|
            0 <= j < ncs implies t[pos + 2 * nseg + 2 * nms + 2 + 2 * j].0 is ForwardSlash
            && ident_at(
            t,
            pos + 2 * nseg + 2 * nms + 2 + 2 * j + 1,
            #[trigger] im.class_views@[j]@,
        ) by {
            assert((t[p2 + 2 + 2 * j].0) is ForwardSlash && (t[p2 + 2 + 2 * j + 1].0 matches
                DCToken::Identifier(w) && cs_v[j]@ == w@));
        }
        assert((p2 - p) as int / 2 == nms);
        assert(import_matches(t, pos as int, p4 as int, im));
        assert(rec_python_import(t, pos as int) == Some(p4 as int));
    }
    Ok((TypeDecl { span, node: TypeDecl_::PythonImport(im) }, records, p4))
}

/// One top-level declaration, dispatched on its first token, together
/// with the import records it contributes.
fn parse_type_decl(toks: &TokenStream, pos: usize) -> (r: Result<
    (TypeDecl, Vec<DCImportRecord>, usize),
    ParseError,
>)
    requires
        pos < toks@.len(),
    ensures
        r matches Err(e) ==> error_from_input(toks@, e),
        r matches Ok((d, recs, np)) ==> rec_type_decl(toks@, pos as int) == Some(np as int)
            && decl_matches(toks@, pos as int, np as int, d),
        r is Err ==> rec_type_decl(toks@, pos as int) is None,
        r matches Ok((d, recs, np)) ==> pos < np <= toks@.len() && recs@.len()
            == decl_import_count(d) && (d.node matches TypeDecl_::PythonImport(im) ==> is_expansion(
            recs@,
            im,
        )),
{
    match &toks[pos].0 {
        DCToken::Keyword => {
            match parse_keyword_type(toks, pos) {
                Ok((d, np)) => Ok((d, Vec::new(), np)),
                Err(e) => Err(e),
            }
        },
        DCToken::Struct => {
            match parse_struct_type(toks, pos) {
                Ok((d, np)) => Ok((d, Vec::new(), np)),
                Err(e) => Err(e),
            }
        },
        DCToken::DClass => {
            match parse_distributed_class(toks, pos) {
                Ok((d, np)) => Ok((d, Vec::new(), np)),
                Err(e) => Err(e),
            }
        },
        DCToken::From => parse_python_import(toks, pos),
        DCToken::Typedef => {
            match parse_type_definition(toks, pos) {
                Ok((d, np)) => Ok((d, Vec::new(), np)),
                Err(e) => Err(e),
            }
        },
        _ => Err(err_at(toks, pos, "expected a type declaration")),
    }
}

/// Parses a whole token stream into a schema model.  It succeeds
/// exactly when the stream derives the grammar ([`rec_schema`]); the
/// entire input is consumed.  On success the stored declarations are
/// the derived ones in input order, each matching its tokens
/// ([`decls_match`]), and the import records are exactly their
/// expansions; on failure the partial model is discarded and only the
/// error returned.
pub fn parse(tokens: &TokenStream) -> (r: Result<DCFile, ParseError>)
    ensures
        r matches Err(e) ==> error_from_input(tokens@, e),
        r is Ok <==> rec_schema(tokens@, 0),
        r matches Ok(f) ==> f.wf() && parses_to(tokens@, f),
{
    let mut dcf: DCFile = DCFile::new();
    let mut pos: usize = 0;
    proof {
        assert forall|rest: Seq<TypeDecl>|
            #[trigger] decls_match_from(tokens@, pos as int, rest) implies decls_match_from(
            tokens@,
            0,
            dcf.type_decl@ + rest,
        ) by {
            assert(dcf.type_decl@ + rest =~= rest);
        }
    }
    while pos < tokens.len()
        invariant
            pos <= tokens@.len(),
            dcf.wf(),
            rec_schema(tokens@, 0) <==> rec_schema(tokens@, pos as int),
            forall|rest: Seq<TypeDecl>|
                #[trigger] decls_match_from(tokens@, pos as int, rest) ==> decls_match_from(
                    tokens@,
                    0,
                    dcf.type_decl@ + rest,
                ),
        decreases tokens@.len() - pos,
    {
        match parse_type_decl(tokens, pos) {
            Ok((decl, recs, np)) => {
                proof {
                    lemma_imports_match_push(dcf.type_decl@, dcf.imports@, decl, recs@);
                    let t = tokens@;
                    let old_decls = dcf.type_decl@;
                    assert(rec_schema(t, pos as int) == rec_schema(t, np as int));
                    assert forall|rest: Seq<TypeDecl>|
                        #[trigger] decls_match_from(t, np as int, rest) implies decls_match_from(
                        t,
                        0,
                        old_decls.push(decl) + rest,
                    ) by {
                        let withd = seq![decl] + rest;
                        assert(withd.drop_first() =~= rest);
                        assert(withd[0] == decl);
                        assert(decls_match_from(t, pos as int, withd));
                        assert(decls_match_from(t, 0, old_decls + withd));
                        assert(old_decls + withd =~= old_decls.push(decl) + rest);
                    }
                }
                dcf.type_decl.push(decl);
                let mut moved: Vec<DCImportRecord> = recs;
                dcf.imports.append(&mut moved);
                pos = np;
            },
            Err(e) => {
                proof {
                    assert(!rec_schema(tokens@, pos as int));
                }
                return Err(e);
            },
        }
    }
    proof {
        assert(rec_schema(tokens@, pos as int));
        assert(decls_match_from(tokens@, pos as int, Seq::<TypeDecl>::empty()));
        assert(dcf.type_decl@ + Seq::<TypeDecl>::empty() =~= dcf.type_decl@);
    }
    Ok(dcf)
}

/// Compiles concatenated schema text: tokenizes it, then parses the
/// token stream.  A text that does not tokenize fails with a text
/// error, exactly; one that tokenizes yields its token stream
/// ([`lex_rel`]), and the result is then success exactly when that
/// stream derives the grammar, with the returned model tied to it —
/// otherwise a syntax error.  No error is absorbed.
pub fn read_dc_text(text: &str) -> (r: Result<DCFile, DCReadError>)
    ensures
        !text_scans(text@) ==> (r matches Err(e) && e is Text),
        r matches Err(e) ==> (e is Text <==> !text_scans(text@)),
        text_scans(text@) ==> (exists|toks: Seq<(DCToken, Span)>|
            #[trigger] lex_rel(text@, 0, 1, toks) && (r is Ok <==> rec_schema(toks, 0)) && (r
                matches Ok(f) ==> parses_to(toks, f))),
        r matches Ok(f) ==> f.wf(),
{
    match lex(text) {
        Ok(toks) => {
            match parse(&toks) {
                Ok(f) => {
                    proof {
                        assert(lex_rel(text@, 0, 1, toks@));
                        assert(rec_schema(toks@, 0));
                        assert(parses_to(toks@, f));
                    }
                    Ok(f)
                },
                Err(e) => {
                    proof {
                        assert(lex_rel(text@, 0, 1, toks@));
                        assert(!rec_schema(toks@, 0));
                    }
                    Err(DCReadError::Syntax(e))
                },
            }
        },
        Err(e) => Err(DCReadError::Text(e)),
    }
}

} // verus!
