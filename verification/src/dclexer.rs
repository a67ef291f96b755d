//! Tokens, source spans and the tokenizer for schema text.
//!
//! The parser consumes a stream of `(DCToken, Span)` pairs.  The
//! tokenizer here produces one from ASCII schema text; it is a plain
//! collaborator of the grammar engine, which is specified independently
//! of it.

use vstd::prelude::*;
use vstd::string::StrSliceExecFns;
use vstd::string::StringSliceAdditionalSpecFns;

verus! {

broadcast use vstd::string::is_ascii_spec_bytes;

/// A source range: byte offsets `min..max` on line `line` (1-based).
#[derive(Clone, Copy, Debug, PartialEq, Eq, Structural)]
pub struct Span {
    pub min: usize,
    pub max: usize,
    pub line: usize,
}

impl Span {
    /// Combining two spans keeps the first's line and runs from the
    /// first's start to the second's end.
    pub open spec fn spec_combine(self, b: Span) -> Span {
        Span { min: self.min, max: b.max, line: self.line }
    }

    /// Combines this span with a following one.
    pub fn combine(&self, b: &Span) -> (r: Span)
        ensures
            r == self.spec_combine(*b),
    {
        Span { min: self.min, max: b.max, line: self.line }
    }
}

/// The tokens of the schema language.
#[derive(Clone, Debug, PartialEq)]
pub enum DCToken {
    /// An unsigned decimal integer literal.
    DecimalLiteral(i64),
    /// A floating-point literal, kept as its source text.
    FloatLiteral(String),
    /// A single-quoted character literal.
    CharacterLiteral(char),
    /// A double-quoted string literal.
    StringLiteral(String),
    /// A binary (hex-string) literal, kept as its source text.
    BinaryLiteral(String),
    /// A plain identifier.
    Identifier(String),
    /// A module-style identifier: one holding a hyphen.
    Module(String),
    /// One of the declared network/access keywords of a field.
    DCKeyword(String),
    /// The word `keyword`, declaring a new keyword.
    Keyword,
    /// The word `dclass`.
    DClass,
    /// The word `struct`.
    Struct,
    /// The word `typedef`.
    Typedef,
    /// The word `from`.
    From,
    /// The word `import`.
    Import,
    /// The type word `char`.
    CharT,
    Int8T,
    Int16T,
    Int32T,
    Int64T,
    UInt8T,
    UInt16T,
    UInt32T,
    UInt64T,
    Float64T,
    StringT,
    BlobT,
    Blob32T,
    Int8ArrayT,
    Int16ArrayT,
    Int32ArrayT,
    UInt8ArrayT,
    UInt16ArrayT,
    UInt32ArrayT,
    UInt32UInt8ArrayT,
    OpenParenthesis,
    CloseParenthesis,
    OpenBraces,
    CloseBraces,
    OpenBrackets,
    CloseBrackets,
    Comma,
    Semicolon,
    Colon,
    Period,
    ForwardSlash,
    Star,
    Equals,
    Hyphen,
    Percent,
    Plus,
}

/// A tokenization failure: non-text input or an unrecognized, unfinished
/// or overlarge literal, at byte `offset` on `line`.
#[derive(Clone, Copy, Debug, PartialEq, Eq, Structural)]
pub struct LexError {
    pub line: usize,
    pub offset: usize,
}

// --- Text scanning specification --------------------------------------
//
// Which texts tokenize, and what tokens they carry, is a function of the
// characters: every branch below is decided by the character classes at
// the current position, mirroring one lexeme per step.  `scan_ok` states
// the success set; `lex_rel` additionally pins every produced token's
// kind, payload and span.  The tokenizer proves its outcome equal to
// them, and the text-level compiler entry builds its exact contract on
// top.

/// An ASCII letter or underscore opens a word.
pub open spec fn sc_word_start(c: char) -> bool {
    ||| 97 <= c as int <= 122
    ||| 65 <= c as int <= 90
    ||| c as int == 95
}

/// Letters, digits, underscore and hyphen continue a word.
pub open spec fn sc_word_char(c: char) -> bool {
    ||| sc_word_start(c)
    ||| 48 <= c as int <= 57
    ||| c as int == 45
}

/// An ASCII decimal digit.
pub open spec fn sc_digit(c: char) -> bool {
    48 <= c as int <= 57
}

/// An ASCII hexadecimal digit.
pub open spec fn sc_hex(c: char) -> bool {
    ||| sc_digit(c)
    ||| 97 <= c as int <= 102
    ||| 65 <= c as int <= 70
}

/// A single-character punctuation token.
pub open spec fn sc_punct(c: char) -> bool {
    ||| c as int == 40
    ||| c as int == 41
    ||| c as int == 123
    ||| c as int == 125
    ||| c as int == 91
    ||| c as int == 93
    ||| c as int == 44
    ||| c as int == 59
    ||| c as int == 58
    ||| c as int == 46
    ||| c as int == 47
    ||| c as int == 42
    ||| c as int == 61
    ||| c as int == 45
    ||| c as int == 37
    ||| c as int == 43
}

/// The token a punctuation character stands for.
pub open spec fn punct_token(c: char, t: DCToken) -> bool {
    &&& c as int == 40 ==> t is OpenParenthesis
    &&& c as int == 41 ==> t is CloseParenthesis
    &&& c as int == 123 ==> t is OpenBraces
    &&& c as int == 125 ==> t is CloseBraces
    &&& c as int == 91 ==> t is OpenBrackets
    &&& c as int == 93 ==> t is CloseBrackets
    &&& c as int == 44 ==> t is Comma
    &&& c as int == 59 ==> t is Semicolon
    &&& c as int == 58 ==> t is Colon
    &&& c as int == 46 ==> t is Period
    &&& c as int == 47 ==> t is ForwardSlash
    &&& c as int == 42 ==> t is Star
    &&& c as int == 61 ==> t is Equals
    &&& c as int == 45 ==> t is Hyphen
    &&& c as int == 37 ==> t is Percent
    &&& c as int == 43 ==> t is Plus
}

/// Where the word starting before `i` ends.
pub open spec fn word_end(s: Seq<char>, i: int) -> int
    decreases s.len() - i,
{
    if 0 <= i < s.len() && sc_word_char(s[i]) {
        word_end(s, i + 1)
    } else {
        i
    }
}

/// Where the digit run starting at `i` ends.
pub open spec fn digits_end(s: Seq<char>, i: int) -> int
    decreases s.len() - i,
{
    if 0 <= i < s.len() && sc_digit(s[i]) {
        digits_end(s, i + 1)
    } else {
        i
    }
}

/// Where the hexadecimal digit run starting at `i` ends.
pub open spec fn hex_end(s: Seq<char>, i: int) -> int
    decreases s.len() - i,
{
    if 0 <= i < s.len() && sc_hex(s[i]) {
        hex_end(s, i + 1)
    } else {
        i
    }
}

/// Where a line comment's body ends: the next newline or the end.
pub open spec fn line_comment_end(s: Seq<char>, i: int) -> int
    decreases s.len() - i,
{
    if 0 <= i < s.len() && s[i] as int != 10 {
        line_comment_end(s, i + 1)
    } else {
        i
    }
}

/// The position right after the quote closing a string whose content
/// starts at `i`, or nothing when a newline or the end comes first.
pub open spec fn string_close(s: Seq<char>, i: int) -> Option<int>
    decreases s.len() - i,
{
    if !(0 <= i < s.len()) {
        None
    } else if s[i] as int == 34 {
        Some(i + 1)
    } else if s[i] as int == 10 {
        None
    } else {
        string_close(s, i + 1)
    }
}

/// The position right after the `*/` closing a block comment whose body
/// starts at `i`, or nothing when the input ends first.
pub open spec fn block_close(s: Seq<char>, i: int) -> Option<int>
    decreases s.len() - i,
{
    if !(0 <= i < s.len()) {
        None
    } else if s[i] as int == 42 && i + 1 < s.len() && s[i + 1] as int == 47 {
        Some(i + 2)
    } else {
        block_close(s, i + 1)
    }
}

/// How many newlines `[a, b)` holds.
pub open spec fn count_newlines(s: Seq<char>, a: int, b: int) -> int
    decreases b - a,
{
    if b <= a {
        0
    } else {
        count_newlines(s, a, b - 1) + if s[b - 1] as int == 10 {
            1int
        } else {
            0int
        }
    }
}

/// The line counter after `k` more newlines: it saturates rather than
/// wrap.
pub open spec fn bump_line(line: int, k: int) -> int
    decreases k,
{
    if k <= 0 {
        line
    } else if bump_line(line, k - 1) < usize::MAX {
        bump_line(line, k - 1) + 1
    } else {
        bump_line(line, k - 1)
    }
}

/// The value of the digit run `[a, b)`.
pub open spec fn digits_value(s: Seq<char>, a: int, b: int) -> int
    decreases b - a,
{
    if b <= a {
        0
    } else {
        digits_value(s, a, b - 1) * 10 + (s[b - 1] as int - 48)
    }
}

/// The token a completed word `[a, b)` of `s` stands for: the spelled
/// keyword, type word or field keyword, else an identifier carrying the
/// word; a word holding a hyphen is a module-style identifier.
pub open spec fn word_token(s: Seq<char>, a: int, b: int, t: DCToken) -> bool {
    let w = s.subrange(a, b);
    if exists|k: int| a <= k < b && (#[trigger] s[k]) as int == 45 {
        t matches DCToken::Module(x) && x@ == w
    } else if w == "dclass"@ {
        t is DClass
    } else if w == "struct"@ {
        t is Struct
    } else if w == "keyword"@ {
        t is Keyword
    } else if w == "typedef"@ {
        t is Typedef
    } else if w == "from"@ {
        t is From
    } else if w == "import"@ {
        t is Import
    } else if w == "char"@ {
        t is CharT
    } else if w == "int8"@ {
        t is Int8T
    } else if w == "int16"@ {
        t is Int16T
    } else if w == "int32"@ {
        t is Int32T
    } else if w == "int64"@ {
        t is Int64T
    } else if w == "uint8"@ {
        t is UInt8T
    } else if w == "uint16"@ {
        t is UInt16T
    } else if w == "uint32"@ {
        t is UInt32T
    } else if w == "uint64"@ {
        t is UInt64T
    } else if w == "float64"@ {
        t is Float64T
    } else if w == "string"@ {
        t is StringT
    } else if w == "blob"@ {
        t is BlobT
    } else if w == "blob32"@ {
        t is Blob32T
    } else if w == "int8array"@ {
        t is Int8ArrayT
    } else if w == "int16array"@ {
        t is Int16ArrayT
    } else if w == "int32array"@ {
        t is Int32ArrayT
    } else if w == "uint8array"@ {
        t is UInt8ArrayT
    } else if w == "uint16array"@ {
        t is UInt16ArrayT
    } else if w == "uint32array"@ {
        t is UInt32ArrayT
    } else if w == "uint32uint8array"@ {
        t is UInt32UInt8ArrayT
    } else if w == "ram"@ || w == "required"@ || w == "db"@ || w == "airecv"@ || w == "ownrecv"@
        || w == "clsend"@ || w == "clrecv"@ || w == "ownsend"@ || w == "broadcast"@ {
        t matches DCToken::DCKeyword(x) && x@ == w
    } else {
        t matches DCToken::Identifier(x) && x@ == w
    }
}

/// Whether the text from `i` on tokenizes: one lexeme per step, decided
/// by the character classes at the front.
pub open spec fn scan_ok(s: Seq<char>, i: int) -> bool
    decreases s.len() - i,
{
    if !(0 <= i <= s.len()) {
        false
    } else if i == s.len() {
        true
    } else {
        let c = s[i] as int;
        if c == 32 || c == 9 || c == 13 || c == 10 {
            scan_ok(s, i + 1)
        } else if c == 47 && i + 1 < s.len() && s[i + 1] as int == 47 {
            let e = line_comment_end(s, i + 2);
            if i < e <= s.len() {
                scan_ok(s, e)
            } else {
                false
            }
        } else if c == 47 && i + 1 < s.len() && s[i + 1] as int == 42 {
            match block_close(s, i + 2) {
                Some(q) => if i < q <= s.len() {
                    scan_ok(s, q)
                } else {
                    false
                },
                None => false,
            }
        } else if sc_word_start(s[i]) {
            let e = word_end(s, i + 1);
            if i < e <= s.len() {
                scan_ok(s, e)
            } else {
                false
            }
        } else if c == 48 && i + 1 < s.len() && (s[i + 1] as int == 120 || s[i + 1] as int == 88) {
            let he = hex_end(s, i + 2);
            if he == i + 2 || !(i < he <= s.len()) {
                false
            } else {
                scan_ok(s, he)
            }
        } else if sc_digit(s[i]) {
            let de = digits_end(s, i + 1);
            if digits_value(s, i, de) > i64::MAX as int {
                false
            } else if s.len() - de > 1 && s[de] as int == 46 && sc_digit(s[de + 1]) {
                let fe = digits_end(s, de + 1);
                if i < fe <= s.len() {
                    scan_ok(s, fe)
                } else {
                    false
                }
            } else {
                if i < de <= s.len() {
                    scan_ok(s, de)
                } else {
                    false
                }
            }
        } else if c == 34 {
            match string_close(s, i + 1) {
                Some(q) => if i < q <= s.len() {
                    scan_ok(s, q)
                } else {
                    false
                },
                None => false,
            }
        } else if c == 39 {
            if s.len() - i > 2 && s[i + 1] as int != 39 && s[i + 2] as int == 39 {
                scan_ok(s, i + 3)
            } else {
                false
            }
        } else if sc_punct(s[i]) {
            scan_ok(s, i + 1)
        } else {
            false
        }
    }
}

/// Whether scanning the text from `i` at line `line` yields exactly the
/// tokens `toks`: [`scan_ok`]'s branches, with each produced token's
/// kind, payload and span pinned to the characters.
pub open spec fn lex_rel(s: Seq<char>, i: int, line: int, toks: Seq<(DCToken, Span)>) -> bool
    decreases s.len() - i,
{
    if !(0 <= i <= s.len()) {
        false
    } else if i == s.len() {
        toks.len() == 0
    } else {
        let c = s[i] as int;
        if c == 32 || c == 9 || c == 13 {
            lex_rel(s, i + 1, line, toks)
        } else if c == 10 {
            lex_rel(s, i + 1, bump_line(line, 1), toks)
        } else if c == 47 && i + 1 < s.len() && s[i + 1] as int == 47 {
            let e = line_comment_end(s, i + 2);
            if i < e <= s.len() {
                lex_rel(s, e, line, toks)
            } else {
                false
            }
        } else if c == 47 && i + 1 < s.len() && s[i + 1] as int == 42 {
            match block_close(s, i + 2) {
                Some(q) => if i < q <= s.len() {
                    lex_rel(s, q, bump_line(line, count_newlines(s, i + 2, q - 2)), toks)
                } else {
                    false
                },
                None => false,
            }
        } else if sc_word_start(s[i]) {
            let e = word_end(s, i + 1);
            if i < e <= s.len() {
                &&& toks.len() > 0
                &&& word_token(s, i, e, toks[0].0)
                &&& toks[0].1 == (Span { min: i as usize, max: e as usize, line: line as usize })
                &&& lex_rel(s, e, line, toks.drop_first())
            } else {
                false
            }
        } else if c == 48 && i + 1 < s.len() && (s[i + 1] as int == 120 || s[i + 1] as int == 88) {
            let he = hex_end(s, i + 2);
            if he == i + 2 || !(i < he <= s.len()) {
                false
            } else {
                &&& toks.len() > 0
                &&& (toks[0].0 matches DCToken::BinaryLiteral(x) && x@ == s.subrange(i, he))
                &&& toks[0].1 == (Span { min: i as usize, max: he as usize, line: line as usize })
                &&& lex_rel(s, he, line, toks.drop_first())
            }
        } else if sc_digit(s[i]) {
            let de = digits_end(s, i + 1);
            if digits_value(s, i, de) > i64::MAX as int || !(i < de <= s.len()) {
                false
            } else if s.len() - de > 1 && s[de] as int == 46 && sc_digit(s[de + 1]) {
                let fe = digits_end(s, de + 1);
                if i < fe <= s.len() {
                    &&& toks.len() > 0
                    &&& (toks[0].0 matches DCToken::FloatLiteral(x) && x@ == s.subrange(i, fe))
                    &&& toks[0].1 == (Span {
                        min: i as usize,
                        max: fe as usize,
                        line: line as usize,
                    })
                    &&& lex_rel(s, fe, line, toks.drop_first())
                } else {
                    false
                }
            } else {
                &&& toks.len() > 0
                &&& (toks[0].0 matches DCToken::DecimalLiteral(v) && v == digits_value(s, i, de))
                &&& toks[0].1 == (Span { min: i as usize, max: de as usize, line: line as usize })
                &&& lex_rel(s, de, line, toks.drop_first())
            }
        } else if c == 34 {
            match string_close(s, i + 1) {
                Some(q) => if i < q <= s.len() {
                    &&& toks.len() > 0
                    &&& (toks[0].0 matches DCToken::StringLiteral(x) && x@ == s.subrange(
                        i + 1,
                        q - 1,
                    ))
                    &&& toks[0].1 == (Span { min: i as usize, max: q as usize, line: line as usize })
                    &&& lex_rel(s, q, line, toks.drop_first())
                } else {
                    false
                },
                None => false,
            }
        } else if c == 39 {
            if s.len() - i > 2 && s[i + 1] as int != 39 && s[i + 2] as int == 39 {
                &&& toks.len() > 0
                &&& (toks[0].0 matches DCToken::CharacterLiteral(ch) && ch == s[i + 1])
                &&& toks[0].1 == (Span {
                    min: i as usize,
                    max: (i + 3) as usize,
                    line: line as usize,
                })
                &&& lex_rel(s, i + 3, line, toks.drop_first())
            } else {
                false
            }
        } else if sc_punct(s[i]) {
            &&& toks.len() > 0
            &&& punct_token(s[i], toks[0].0)
            &&& toks[0].1 == (Span { min: i as usize, max: (i + 1) as usize, line: line as usize })
            &&& lex_rel(s, i + 1, line, toks.drop_first())
        } else {
            false
        }
    }
}

/// Whether a whole text tokenizes: it is ASCII and scans to the end.
pub open spec fn text_scans(s: Seq<char>) -> bool {
    &&& vstd::utf8::is_ascii_chars(s)
    &&& scan_ok(s, 0)
}

/// Whether the window `[start, end)` of ASCII text `input` spells exactly
/// the word `w`.
fn word_is(input: &str, start: usize, end: usize, w: &str) -> (r: bool)
    requires
        input.is_ascii(),
        w.is_ascii(),
        start <= end <= input@.len(),
    ensures
        r <==> input@.subrange(start as int, end as int) == w@,
{
    let wb: &[u8] = w.as_bytes();
    proof {
        assert(wb@.len() == w@.len());
        assert(forall|j: int| 0 <= j < w@.len() ==> wb@[j] == (#[trigger] w@[j]) as u8);
    }
    if end - start != wb.len() {
        proof {
            assert(input@.subrange(start as int, end as int).len() != w@.len());
        }
        return false;
    }
    let mut i: usize = 0;
    while i < wb.len()
        invariant
            input.is_ascii(),
            w.is_ascii(),
            start + wb@.len() == end,
            end <= input@.len(),
            i <= wb@.len(),
            wb@.len() == w@.len(),
            forall|j: int| 0 <= j < w@.len() ==> wb@[j] == (#[trigger] w@[j]) as u8,
            forall|j: int| 0 <= j < i ==> input@[start + j] == #[trigger] w@[j],
        decreases wb@.len() - i,
    {
        if input.get_ascii(start + i) != wb[i] {
            proof {
                assert(input@[start + i] as u8 != w@[i as int] as u8);
                assert(input@.subrange(start as int, end as int)[i as int] == input@[start + i]);
                assert(input@.subrange(start as int, end as int) != w@);
            }
            return false;
        }
        proof {
            assert(input@[start + i] as int <= 127 && w@[i as int] as int <= 127);
            assert(input@[start + i] == w@[i as int]);
        }
        i += 1;
    }
    proof {
        assert(input@.subrange(start as int, end as int) =~= w@);
    }
    true
}

/// Classifies a completed word as a keyword, type word, field keyword or
/// plain identifier token.
fn classify_word(input: &str, start: usize, end: usize) -> (t: DCToken)
    requires
        input.is_ascii(),
        start <= end <= input@.len(),
        forall|k: int| start <= k < end ==> (#[trigger] input@[k]) as int != 45,
    ensures
        word_token(input@, start as int, end as int, t),
{
    proof {
        reveal_strlit("dclass");
        reveal_strlit("struct");
        reveal_strlit("keyword");
        reveal_strlit("typedef");
        reveal_strlit("from");
        reveal_strlit("import");
        reveal_strlit("char");
        reveal_strlit("int8");
        reveal_strlit("int16");
        reveal_strlit("int32");
        reveal_strlit("int64");
        reveal_strlit("uint8");
        reveal_strlit("uint16");
        reveal_strlit("uint32");
        reveal_strlit("uint64");
        reveal_strlit("float64");
        reveal_strlit("string");
        reveal_strlit("blob");
        reveal_strlit("blob32");
        reveal_strlit("int8array");
        reveal_strlit("int16array");
        reveal_strlit("int32array");
        reveal_strlit("uint8array");
        reveal_strlit("uint16array");
        reveal_strlit("uint32array");
        reveal_strlit("uint32uint8array");
        reveal_strlit("ram");
        reveal_strlit("required");
        reveal_strlit("db");
        reveal_strlit("airecv");
        reveal_strlit("ownrecv");
        reveal_strlit("clsend");
        reveal_strlit("clrecv");
        reveal_strlit("ownsend");
        reveal_strlit("broadcast");
    }
    if word_is(input, start, end, "dclass") {
        DCToken::DClass
    } else if word_is(input, start, end, "struct") {
        DCToken::Struct
    } else if word_is(input, start, end, "keyword") {
        DCToken::Keyword
    } else if word_is(input, start, end, "typedef") {
        DCToken::Typedef
    } else if word_is(input, start, end, "from") {
        DCToken::From
    } else if word_is(input, start, end, "import") {
        DCToken::Import
    } else if word_is(input, start, end, "char") {
        DCToken::CharT
    } else if word_is(input, start, end, "int8") {
        DCToken::Int8T
    } else if word_is(input, start, end, "int16") {
        DCToken::Int16T
    } else if word_is(input, start, end, "int32") {
        DCToken::Int32T
    } else if word_is(input, start, end, "int64") {
        DCToken::Int64T
    } else if word_is(input, start, end, "uint8") {
        DCToken::UInt8T
    } else if word_is(input, start, end, "uint16") {
        DCToken::UInt16T
    } else if word_is(input, start, end, "uint32") {
        DCToken::UInt32T
    } else if word_is(input, start, end, "uint64") {
        DCToken::UInt64T
    } else if word_is(input, start, end, "float64") {
        DCToken::Float64T
    } else if word_is(input, start, end, "string") {
        DCToken::StringT
    } else if word_is(input, start, end, "blob") {
        DCToken::BlobT
    } else if word_is(input, start, end, "blob32") {
        DCToken::Blob32T
    } else if word_is(input, start, end, "int8array") {
        DCToken::Int8ArrayT
    } else if word_is(input, start, end, "int16array") {
        DCToken::Int16ArrayT
    } else if word_is(input, start, end, "int32array") {
        DCToken::Int32ArrayT
    } else if word_is(input, start, end, "uint8array") {
        DCToken::UInt8ArrayT
    } else if word_is(input, start, end, "uint16array") {
        DCToken::UInt16ArrayT
    } else if word_is(input, start, end, "uint32array") {
        DCToken::UInt32ArrayT
    } else if word_is(input, start, end, "uint32uint8array") {
        DCToken::UInt32UInt8ArrayT
    } else if word_is(input, start, end, "ram") || word_is(input, start, end, "required")
        || word_is(input, start, end, "db") || word_is(input, start, end, "airecv") || word_is(
        input,
        start,
        end,
        "ownrecv",
    ) || word_is(input, start, end, "clsend") || word_is(input, start, end, "clrecv") || word_is(
        input,
        start,
        end,
        "ownsend",
    ) || word_is(input, start, end, "broadcast") {
        DCToken::DCKeyword(input.substring_ascii(start, end).to_owned())
    } else {
        DCToken::Identifier(input.substring_ascii(start, end).to_owned())
    }
}

/// Whether the byte is an ASCII letter or underscore.
fn is_word_start(c: u8) -> (r: bool)
    ensures
        r <==> (97 <= c <= 122 || 65 <= c <= 90 || c == 95),
{
    (c >= 97 && c <= 122) || (c >= 65 && c <= 90) || c == 95
}

/// Whether the byte may continue an identifier: letter, digit,
/// underscore, or the hyphen that marks module names.
fn is_word_char(c: u8) -> (r: bool)
    ensures
        r <==> (97 <= c <= 122 || 65 <= c <= 90 || c == 95 || 48 <= c <= 57 || c == 45),
{
    is_word_start(c) || (c >= 48 && c <= 57) || c == 45
}

/// Whether the byte is an ASCII digit.
fn is_digit(c: u8) -> (r: bool)
    ensures
        r <==> (48 <= c <= 57),
{
    c >= 48 && c <= 57
}

/// Whether the byte is an ASCII hexadecimal digit.
fn is_hex_digit(c: u8) -> (r: bool)
    ensures
        r <==> (48 <= c <= 57 || 97 <= c <= 102 || 65 <= c <= 70),
{
    (c >= 48 && c <= 57) || (c >= 97 && c <= 102) || (c >= 65 && c <= 70)
}

/// Newline counts are never negative.
proof fn lemma_count_newlines_nonneg(s: Seq<char>, a: int, b: int)
    ensures
        count_newlines(s, a, b) >= 0,
    decreases b - a,
{
    if b > a {
        lemma_count_newlines_nonneg(s, a, b - 1);
    }
}

/// An ASCII character's codepoint is its byte.
proof fn lemma_char_le(s: Seq<char>, i: int)
    requires
        vstd::utf8::is_ascii_chars(s),
        0 <= i < s.len(),
    ensures
        s[i] as int == (s[i] as u8) as int,
        0 <= s[i] as int <= 127,
{
    assert(s[i] <= '\u{7f}');
}

/// Turns ASCII schema text into a token stream with source spans.  It
/// succeeds exactly when the text tokenizes ([`text_scans`]); the
/// returned stream is then the text's scan ([`lex_rel`]): every token's
/// kind, payload and span pinned to the characters.  Non-text
/// (non-ASCII) input, an unknown character, an unterminated comment,
/// character or string literal, a bare hex prefix, or a decimal literal
/// too large for 64 bits all fail with the position of the offence.
pub fn lex(input: &str) -> (r: Result<Vec<(DCToken, Span)>, LexError>)
    ensures
        r is Ok <==> text_scans(input@),
        r matches Ok(toks) ==> lex_rel(input@, 0, 1, toks@),
        r matches Ok(toks) ==> forall|i: int|
            0 <= i < toks@.len() ==> ((#[trigger] toks@[i]).1.min < toks@[i].1.max <= input@.len()
                && 1 <= toks@[i].1.line),
{
    let ghost s: Seq<char> = input@;
    if !input.is_ascii() {
        return Err(LexError { line: 1, offset: 0 });
    }
    let bv: Vec<u8> = input.as_bytes_vec();
    let n: usize = bv.len();
    proof {
        assert(bv@ == input.spec_bytes());
        assert(input.spec_bytes().len() == input@.len());
    }
    let mut toks: Vec<(DCToken, Span)> = Vec::new();
    let mut pos: usize = 0;
    let mut line: usize = 1;
    proof {
        assert forall|rest: Seq<(DCToken, Span)>|
            #[trigger] lex_rel(s, 0, 1, rest) implies lex_rel(s, 0, 1, toks@ + rest) by {
            assert(toks@ + rest =~= rest);
        }
    }
    while pos < n
        invariant
            input.is_ascii(),
            s == input@,
            n == s.len(),
            pos <= n,
            1 <= line,
            scan_ok(s, 0) <==> scan_ok(s, pos as int),
            forall|rest: Seq<(DCToken, Span)>|
                #[trigger] lex_rel(s, pos as int, line as int, rest) ==> lex_rel(s, 0, 1, toks@ + rest),
            forall|i: int|
                0 <= i < toks@.len() ==> ((#[trigger] toks@[i]).1.min < toks@[i].1.max <= n && 1
                    <= toks@[i].1.line),
        decreases n - pos,
    {
        let ghost p0: int = pos as int;
        let ghost l0: int = line as int;
        let ghost prev: Seq<(DCToken, Span)> = toks@;
        let c: u8 = input.get_ascii(pos);
        proof {
            lemma_char_le(s, p0);
        }
        if c == 32 || c == 9 || c == 13 {
            // space, tab, carriage return
            pos = pos + 1;
            proof {
                assert forall|rest: Seq<(DCToken, Span)>|
                    #[trigger] lex_rel(s, pos as int, line as int, rest) implies lex_rel(
                    s,
                    0,
                    1,
                    toks@ + rest,
                ) by {
                    assert(lex_rel(s, p0, l0, rest));
                }
            }
        } else if c == 10 {
            // newline
            proof {
                assert(bump_line(l0, 0) == l0);
            }
            if line < usize::MAX {
                line = line + 1;
            }
            pos = pos + 1;
            proof {
                assert(line as int == bump_line(l0, 1));
                assert forall|rest: Seq<(DCToken, Span)>|
                    #[trigger] lex_rel(s, pos as int, line as int, rest) implies lex_rel(
                    s,
                    0,
                    1,
                    toks@ + rest,
                ) by {
                    assert(lex_rel(s, p0, l0, rest));
                }
            }
        } else if c == 47 && pos + 1 < n && input.get_ascii(pos + 1) == 47 {
            // line comment
            proof {
                lemma_char_le(s, p0 + 1);
            }
            let start: usize = pos;
            pos = pos + 2;
            while pos < n && input.get_ascii(pos) != 10
                invariant
                    input.is_ascii(),
                    s == input@,
                    n == s.len(),
                    start + 2 <= pos <= n,
                    line_comment_end(s, start + 2) == line_comment_end(s, pos as int),
                decreases n - pos,
            {
                proof {
                    lemma_char_le(s, pos as int);
                }
                pos = pos + 1;
            }
            proof {
                if pos < n {
                    lemma_char_le(s, pos as int);
                }
                assert(line_comment_end(s, pos as int) == pos as int);
                assert(scan_ok(s, p0) == scan_ok(s, pos as int));
                assert forall|rest: Seq<(DCToken, Span)>|
                    #[trigger] lex_rel(s, pos as int, line as int, rest) implies lex_rel(
                    s,
                    0,
                    1,
                    toks@ + rest,
                ) by {
                    assert(lex_rel(s, p0, l0, rest));
                }
            }
        } else if c == 47 && pos + 1 < n && input.get_ascii(pos + 1) == 42 {
            // block comment
            proof {
                lemma_char_le(s, p0 + 1);
            }
            let opened: usize = pos;
            let ghost line0: int = line as int;
            pos = pos + 2;
            let mut closed: bool = false;
            while !closed && pos < n
                invariant
                    input.is_ascii(),
                    s == input@,
                    n == s.len(),
                    opened + 2 <= pos <= n,
                    1 <= line,
                    !closed ==> block_close(s, opened + 2) == block_close(s, pos as int),
                    closed ==> opened + 4 <= pos && block_close(s, opened + 2) == Some(
                        pos as int,
                    ),
                    !closed ==> line as int == bump_line(
                        line0,
                        count_newlines(s, opened + 2, pos as int),
                    ),
                    closed ==> line as int == bump_line(
                        line0,
                        count_newlines(s, opened + 2, pos - 2),
                    ),
                decreases n - pos,
            {
                let d: u8 = input.get_ascii(pos);
                proof {
                    lemma_char_le(s, pos as int);
                }
                if d == 42 && pos + 1 < n && input.get_ascii(pos + 1) == 47 {
                    proof {
                        lemma_char_le(s, pos + 1);
                        assert(block_close(s, pos as int) == Some(pos + 2));
                    }
                    pos = pos + 2;
                    closed = true;
                } else {
                    proof {
                        if pos + 1 < n {
                            lemma_char_le(s, pos + 1);
                        }
                        lemma_count_newlines_nonneg(s, opened + 2, pos as int);
                        assert(block_close(s, pos as int) == block_close(s, pos + 1));
                        assert(count_newlines(s, opened + 2, pos + 1) == count_newlines(
                            s,
                            opened + 2,
                            pos as int,
                        ) + if s[pos as int] as int == 10 {
                            1int
                        } else {
                            0int
                        });
                        assert(bump_line(
                            line0,
                            count_newlines(s, opened + 2, pos as int) + 1,
                        ) == if bump_line(line0, count_newlines(s, opened + 2, pos as int))
                            < usize::MAX {
                            bump_line(line0, count_newlines(s, opened + 2, pos as int)) + 1
                        } else {
                            bump_line(line0, count_newlines(s, opened + 2, pos as int))
                        });
                    }
                    if d == 10 && line < usize::MAX {
                        line = line + 1;
                    }
                    pos = pos + 1;
                }
            }
            if !closed {
                proof {
                    assert(block_close(s, pos as int) is None);
                    assert(!scan_ok(s, p0));
                }
                return Err(LexError { line, offset: opened });
            }
            proof {
                assert(scan_ok(s, p0) == scan_ok(s, pos as int));
                assert forall|rest: Seq<(DCToken, Span)>|
                    #[trigger] lex_rel(s, pos as int, line as int, rest) implies lex_rel(
                    s,
                    0,
                    1,
                    toks@ + rest,
                ) by {
                    assert(lex_rel(s, p0, l0, rest));
                }
            }
        } else if is_word_start(c) {
            let start: usize = pos;
            let mut has_hyphen: bool = false;
            pos = pos + 1;
            while pos < n && is_word_char(input.get_ascii(pos))
                invariant
                    input.is_ascii(),
                    s == input@,
                    n == s.len(),
                    start < pos <= n,
                    sc_word_start(s[start as int]),
                    word_end(s, start + 1) == word_end(s, pos as int),
                    has_hyphen <==> exists|k: int|
                        start < k < pos && (#[trigger] s[k]) as int == 45,
                    !has_hyphen ==> forall|k: int|
                        start <= k < pos ==> (#[trigger] s[k]) as int != 45,
                decreases n - pos,
            {
                proof {
                    lemma_char_le(s, pos as int);
                }
                if input.get_ascii(pos) == 45 {
                    has_hyphen = true;
                }
                pos = pos + 1;
            }
            proof {
                if pos < n {
                    lemma_char_le(s, pos as int);
                }
                assert(word_end(s, pos as int) == pos as int);
            }
            let tok: DCToken = if has_hyphen {
                DCToken::Module(input.substring_ascii(start, pos).to_owned())
            } else {
                classify_word(input, start, pos)
            };
            proof {
                assert(word_token(s, p0, pos as int, tok));
            }
            let sp: Span = Span { min: start, max: pos, line };
            let ghost tk: (DCToken, Span) = (tok, sp);
            toks.push((tok, sp));
            proof {
                assert(scan_ok(s, p0) == scan_ok(s, pos as int));
                assert forall|rest: Seq<(DCToken, Span)>|
                    #[trigger] lex_rel(s, pos as int, line as int, rest) implies lex_rel(
                    s,
                    0,
                    1,
                    toks@ + rest,
                ) by {
                    let withtok = seq![tk] + rest;
                    assert(withtok.drop_first() =~= rest);
                    assert(lex_rel(s, p0, l0, withtok));
                    assert(lex_rel(s, 0, 1, prev + withtok));
                    assert(prev + withtok =~= toks@ + rest);
                }
            }
        } else if c == 48 && n - pos > 1 && (input.get_ascii(pos + 1) == 120 || input.get_ascii(
            pos + 1,
        ) == 88) {
            // binary (hex-string) literal: 0x followed by hex digits
            proof {
                lemma_char_le(s, p0 + 1);
            }
            let start: usize = pos;
            pos = pos + 2;
            while pos < n && is_hex_digit(input.get_ascii(pos))
                invariant
                    input.is_ascii(),
                    s == input@,
                    n == s.len(),
                    start + 2 <= pos <= n,
                    hex_end(s, start + 2) == hex_end(s, pos as int),
                decreases n - pos,
            {
                proof {
                    lemma_char_le(s, pos as int);
                }
                pos = pos + 1;
            }
            proof {
                if pos < n {
                    lemma_char_le(s, pos as int);
                }
                assert(hex_end(s, pos as int) == pos as int);
            }
            if pos == start + 2 {
                proof {
                    assert(!scan_ok(s, p0));
                }
                return Err(LexError { line, offset: start });
            }
            let text: String = input.substring_ascii(start, pos).to_owned();
            let sp: Span = Span { min: start, max: pos, line };
            let t: DCToken = DCToken::BinaryLiteral(text);
            let ghost tk: (DCToken, Span) = (t, sp);
            toks.push((t, sp));
            proof {
                assert(scan_ok(s, p0) == scan_ok(s, pos as int));
                assert forall|rest: Seq<(DCToken, Span)>|
                    #[trigger] lex_rel(s, pos as int, line as int, rest) implies lex_rel(
                    s,
                    0,
                    1,
                    toks@ + rest,
                ) by {
                    let withtok = seq![tk] + rest;
                    assert(withtok.drop_first() =~= rest);
                    assert(lex_rel(s, p0, l0, withtok));
                    assert(lex_rel(s, 0, 1, prev + withtok));
                    assert(prev + withtok =~= toks@ + rest);
                }
            }
        } else if is_digit(c) {
            let start: usize = pos;
            let mut value: u64 = (c - 48) as u64;
            let mut overflow: bool = false;
            pos = pos + 1;
            proof {
                assert(digits_value(s, start as int, start as int) == 0);
                assert(digits_value(s, start as int, start + 1) == s[start as int] as int - 48);
            }
            while pos < n && is_digit(input.get_ascii(pos))
                invariant
                    input.is_ascii(),
                    s == input@,
                    n == s.len(),
                    start < pos <= n,
                    value <= 0x7fffffffffffffff,
                    digits_end(s, start + 1) == digits_end(s, pos as int),
                    forall|k: int| start <= k < pos ==> sc_digit(#[trigger] s[k]),
                    !overflow ==> value as int == digits_value(s, start as int, pos as int),
                    overflow ==> digits_value(s, start as int, pos as int) > i64::MAX as int,
                decreases n - pos,
            {
                proof {
                    lemma_char_le(s, pos as int);
                    assert(digits_value(s, start as int, pos + 1) == digits_value(
                        s,
                        start as int,
                        pos as int,
                    ) * 10 + (s[pos as int] as int - 48));
                }
                let d: u64 = (input.get_ascii(pos) - 48) as u64;
                if value > 922337203685477580 || (value == 922337203685477580 && d > 7) {
                    overflow = true;
                } else {
                    value = value * 10 + d;
                }
                pos = pos + 1;
            }
            proof {
                if pos < n {
                    lemma_char_le(s, pos as int);
                }
                assert(digits_end(s, pos as int) == pos as int);
            }
            if overflow {
                proof {
                    assert(!scan_ok(s, p0));
                }
                return Err(LexError { line, offset: start });
            }
            if n - pos > 1 && input.get_ascii(pos) == 46 && is_digit(input.get_ascii(pos + 1)) {
                // a fraction part follows: a floating-point literal
                proof {
                    lemma_char_le(s, pos as int);
                    lemma_char_le(s, pos + 1);
                }
                let ghost deg: int = pos as int;
                pos = pos + 1;
                while pos < n && is_digit(input.get_ascii(pos))
                    invariant
                        input.is_ascii(),
                        s == input@,
                        n == s.len(),
                        start < pos <= n,
                        deg + 1 <= pos,
                        digits_end(s, deg + 1) == digits_end(s, pos as int),
                    decreases n - pos,
                {
                    proof {
                        lemma_char_le(s, pos as int);
                    }
                    pos = pos + 1;
                }
                proof {
                    if pos < n {
                        lemma_char_le(s, pos as int);
                    }
                    assert(digits_end(s, pos as int) == pos as int);
                }
                let text: String = input.substring_ascii(start, pos).to_owned();
                let sp: Span = Span { min: start, max: pos, line };
                let t: DCToken = DCToken::FloatLiteral(text);
                let ghost tk: (DCToken, Span) = (t, sp);
                toks.push((t, sp));
                proof {
                    assert(scan_ok(s, p0) == scan_ok(s, pos as int));
                    assert forall|rest: Seq<(DCToken, Span)>|
                        #[trigger] lex_rel(s, pos as int, line as int, rest) implies lex_rel(
                        s,
                        0,
                        1,
                        toks@ + rest,
                    ) by {
                        let withtok = seq![tk] + rest;
                        assert(withtok.drop_first() =~= rest);
                        assert(lex_rel(s, p0, l0, withtok));
                        assert(lex_rel(s, 0, 1, prev + withtok));
                        assert(prev + withtok =~= toks@ + rest);
                    }
                }
            } else {
                proof {
                    if pos < n {
                        lemma_char_le(s, pos as int);
                    }
                    if n - pos > 1 {
                        lemma_char_le(s, pos + 1);
                    }
                }
                let sp: Span = Span { min: start, max: pos, line };
                let ghost tk: (DCToken, Span) = (DCToken::DecimalLiteral(value as i64), sp);
                toks.push((DCToken::DecimalLiteral(value as i64), sp));
                proof {
                    assert(scan_ok(s, p0) == scan_ok(s, pos as int));
                    assert forall|rest: Seq<(DCToken, Span)>|
                        #[trigger] lex_rel(s, pos as int, line as int, rest) implies lex_rel(
                        s,
                        0,
                        1,
                        toks@ + rest,
                    ) by {
                        let withtok = seq![tk] + rest;
                        assert(withtok.drop_first() =~= rest);
                        assert(lex_rel(s, p0, l0, withtok));
                        assert(lex_rel(s, 0, 1, prev + withtok));
                        assert(prev + withtok =~= toks@ + rest);
                    }
                }
            }
        } else if c == 34 {
            // string literal
            let start: usize = pos;
            pos = pos + 1;
            let mut closed: bool = false;
            while !closed && pos < n && input.get_ascii(pos) != 10
                invariant
                    input.is_ascii(),
                    s == input@,
                    n == s.len(),
                    start < pos <= n,
                    closed ==> start + 1 < pos,
                    !closed ==> string_close(s, start + 1) == string_close(s, pos as int),
                    closed ==> string_close(s, start + 1) == Some(pos as int),
                decreases n - pos,
            {
                proof {
                    lemma_char_le(s, pos as int);
                }
                if input.get_ascii(pos) == 34 {
                    closed = true;
                }
                pos = pos + 1;
            }
            if !closed {
                proof {
                    if pos < n {
                        lemma_char_le(s, pos as int);
                    }
                    assert(string_close(s, pos as int) is None);
                    assert(!scan_ok(s, p0));
                }
                return Err(LexError { line, offset: start });
            }
            let text: String = input.substring_ascii(start + 1, pos - 1).to_owned();
            let sp: Span = Span { min: start, max: pos, line };
            let t: DCToken = DCToken::StringLiteral(text);
            let ghost tk: (DCToken, Span) = (t, sp);
            toks.push((t, sp));
            proof {
                assert(scan_ok(s, p0) == scan_ok(s, pos as int));
                assert forall|rest: Seq<(DCToken, Span)>|
                    #[trigger] lex_rel(s, pos as int, line as int, rest) implies lex_rel(
                    s,
                    0,
                    1,
                    toks@ + rest,
                ) by {
                    let withtok = seq![tk] + rest;
                    assert(withtok.drop_first() =~= rest);
                    assert(lex_rel(s, p0, l0, withtok));
                    assert(lex_rel(s, 0, 1, prev + withtok));
                    assert(prev + withtok =~= toks@ + rest);
                }
            }
        } else if c == 39 {
            // character literal
            if n - pos > 2 && input.get_ascii(pos + 1) != 39 && input.get_ascii(pos + 2) == 39 {
                proof {
                    lemma_char_le(s, p0 + 1);
                    lemma_char_le(s, p0 + 2);
                }
                let ch: char = input.get_char(pos + 1);
                let sp: Span = Span { min: pos, max: pos + 3, line };
                let ghost tk: (DCToken, Span) = (DCToken::CharacterLiteral(ch), sp);
                toks.push((DCToken::CharacterLiteral(ch), sp));
                pos = pos + 3;
                proof {
                    assert(scan_ok(s, p0) == scan_ok(s, pos as int));
                    assert forall|rest: Seq<(DCToken, Span)>|
                        #[trigger] lex_rel(s, pos as int, line as int, rest) implies lex_rel(
                        s,
                        0,
                        1,
                        toks@ + rest,
                    ) by {
                        let withtok = seq![tk] + rest;
                        assert(withtok.drop_first() =~= rest);
                        assert(lex_rel(s, p0, l0, withtok));
                        assert(lex_rel(s, 0, 1, prev + withtok));
                        assert(prev + withtok =~= toks@ + rest);
                    }
                }
            } else {
                proof {
                    if n - pos > 1 {
                        lemma_char_le(s, p0 + 1);
                    }
                    if n - pos > 2 {
                        lemma_char_le(s, p0 + 2);
                    }
                    assert(!scan_ok(s, p0));
                }
                return Err(LexError { line, offset: pos });
            }
        } else {
            let tok: Option<DCToken> = if c == 40 {
                Some(DCToken::OpenParenthesis)
            } else if c == 41 {
                Some(DCToken::CloseParenthesis)
            } else if c == 123 {
                Some(DCToken::OpenBraces)
            } else if c == 125 {
                Some(DCToken::CloseBraces)
            } else if c == 91 {
                Some(DCToken::OpenBrackets)
            } else if c == 93 {
                Some(DCToken::CloseBrackets)
            } else if c == 44 {
                Some(DCToken::Comma)
            } else if c == 59 {
                Some(DCToken::Semicolon)
            } else if c == 58 {
                Some(DCToken::Colon)
            } else if c == 46 {
                Some(DCToken::Period)
            } else if c == 47 {
                Some(DCToken::ForwardSlash)
            } else if c == 42 {
                Some(DCToken::Star)
            } else if c == 61 {
                Some(DCToken::Equals)
            } else if c == 45 {
                Some(DCToken::Hyphen)
            } else if c == 37 {
                Some(DCToken::Percent)
            } else if c == 43 {
                Some(DCToken::Plus)
            } else {
                None
            };
            match tok {
                Some(t) => {
                    let sp: Span = Span { min: pos, max: pos + 1, line };
                    let ghost tk: (DCToken, Span) = (t, sp);
                    proof {
                        assert(sc_punct(s[p0]) && punct_token(s[p0], tk.0));
                    }
                    toks.push((t, sp));
                    pos = pos + 1;
                    proof {
                        assert(scan_ok(s, p0) == scan_ok(s, pos as int));
                        assert forall|rest: Seq<(DCToken, Span)>|
                            #[trigger] lex_rel(s, pos as int, line as int, rest) implies lex_rel(
                            s,
                            0,
                            1,
                            toks@ + rest,
                        ) by {
                            let withtok = seq![tk] + rest;
                            assert(withtok.drop_first() =~= rest);
                            assert(lex_rel(s, p0, l0, withtok));
                            assert(lex_rel(s, 0, 1, prev + withtok));
                            assert(prev + withtok =~= toks@ + rest);
                        }
                    }
                },
                None => {
                    proof {
                        assert(!scan_ok(s, p0));
                    }
                    return Err(LexError { line, offset: pos });
                },
            }
        }
    }
    proof {
        assert(scan_ok(s, n as int));
        assert(lex_rel(s, pos as int, line as int, Seq::<(DCToken, Span)>::empty()));
        assert(lex_rel(s, 0, 1, toks@ + Seq::<(DCToken, Span)>::empty()));
        assert(toks@ + Seq::<(DCToken, Span)>::empty() =~= toks@);
    }
    Ok(toks)
}

} // verus!
