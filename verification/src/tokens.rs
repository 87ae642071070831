//! Source locations and the lexer: scans source text character by character,
//! with string and comment modes, `$` statement sugar and `//` line comments,
//! and classifies each flushed token as keyword, integer, float, `nil` or
//! identifier. The whole scan is specified by a spec-level state machine
//! (`lex_step`/`lex_run`), and `tokenize` is proved to produce exactly its
//! token sequence.
use crate::error::LispErrors;
use crate::numbers::dec_digits;
use crate::numbers::int_body;
use crate::numbers::int_value;
use crate::numbers::is_digit_char;
use crate::numbers::is_digit_seq;
use crate::numbers::is_int_token;
use crate::numbers::parse_i64;
use crate::numbers::push_usize;
use crate::text::chars_of;
use crate::text::string_from_chars;
use crate::types::value_eq_spec;
use crate::types::LispValue;
use crate::types::ValueV;
use vstd::prelude::*;

verus! {

/// A place in the source text, used only for diagnostics.
#[derive(Debug)]
pub struct Location {
    pub filename: String,
    pub line: usize,
    pub col: usize,
}

/// Mathematical image of a `Location`.
pub ghost struct LocV {
    pub filename: Seq<char>,
    pub line: nat,
    pub col: nat,
}

impl View for Location {
    type V = LocV;

    open spec fn view(&self) -> LocV {
        LocV { filename: self.filename@, line: self.line as nat, col: self.col as nat }
    }
}

impl Clone for Location {
    fn clone(&self) -> (r: Location)
        ensures
            r@ == self@,
    {
        Location { filename: self.filename.clone(), line: self.line, col: self.col }
    }
}

impl PartialEq for Location {
    fn eq(&self, other: &Location) -> (r: bool) {
        self.filename == other.filename && self.line == other.line && self.col == other.col
    }
}

impl vstd::std_specs::cmp::PartialEqSpecImpl for Location {
    open spec fn obeys_eq_spec() -> bool {
        true
    }

    open spec fn eq_spec(&self, other: &Location) -> bool {
        self@ == other@
    }
}

/// Text form of a location: `<file>:<line>:<col>`.
pub open spec fn loc_repr(l: LocV) -> Seq<char> {
    l.filename + seq![':'] + dec_digits(l.line) + seq![':'] + dec_digits(l.col)
}

/// Appends the text form of `loc` to `out`.
pub fn push_location(loc: &Location, out: &mut Vec<char>)
    ensures
        final(out)@ == old(out)@ + loc_repr(loc@),
{
    let mut name = chars_of(loc.filename.as_str());
    out.append(&mut name);
    out.push(':');
    push_usize(loc.line, out);
    out.push(':');
    push_usize(loc.col, out);
    assert(out@ =~= old(out)@ + loc_repr(loc@));
}

/// The two keywords of the surface grammar.
#[derive(Debug, Clone, Copy, PartialEq, Eq, Structural)]
pub enum KeyWord {
    Let,
    Lambda,
}

/// What one token carries.
#[derive(Debug)]
pub enum TokenType {
    /// Start of a parenthesized statement.
    StartStmt,
    /// End of a parenthesized statement.
    EndStmt,
    /// A keyword.
    KeyWord(KeyWord),
    /// A literal value recognized during classification.
    Recognizable(LispValue),
    /// An identifier name.
    Ident(String),
}

/// Mathematical image of a token's payload.
pub ghost enum TokV {
    Start,
    End,
    Key(KeyWord),
    Lit(ValueV),
    Ident(Seq<char>),
}

impl View for TokenType {
    type V = TokV;

    open spec fn view(&self) -> TokV {
        match self {
            TokenType::StartStmt => TokV::Start,
            TokenType::EndStmt => TokV::End,
            TokenType::KeyWord(k) => TokV::Key(*k),
            TokenType::Recognizable(v) => TokV::Lit(v@),
            TokenType::Ident(s) => TokV::Ident(s@),
        }
    }
}

/// One token: where it stands in the source, and what it carries.
#[derive(Debug)]
pub struct Token {
    pub loc: Location,
    pub dat: TokenType,
}

/// Mathematical image of a token.
#[verifier::ext_equal]
pub ghost struct TokenV {
    pub loc: LocV,
    pub dat: TokV,
}

impl View for Token {
    type V = TokenV;

    open spec fn view(&self) -> TokenV {
        TokenV { loc: self.loc@, dat: self.dat@ }
    }
}

/// What equality means for token payloads: literals compare as runtime
/// values do, everything else by structure.
pub open spec fn tok_eq_spec(a: TokV, b: TokV) -> bool {
    match (a, b) {
        (TokV::Start, TokV::Start) => true,
        (TokV::End, TokV::End) => true,
        (TokV::Key(x), TokV::Key(y)) => x == y,
        (TokV::Lit(x), TokV::Lit(y)) => value_eq_spec(x, y),
        (TokV::Ident(x), TokV::Ident(y)) => x == y,
        _ => false,
    }
}

impl PartialEq for TokenType {
    fn eq(&self, other: &TokenType) -> (r: bool) {
        match (self, other) {
            (TokenType::StartStmt, TokenType::StartStmt) => true,
            (TokenType::EndStmt, TokenType::EndStmt) => true,
            (TokenType::KeyWord(x), TokenType::KeyWord(y)) => *x == *y,
            (TokenType::Recognizable(x), TokenType::Recognizable(y)) => *x == *y,
            (TokenType::Ident(x), TokenType::Ident(y)) => *x == *y,
            _ => false,
        }
    }
}

impl vstd::std_specs::cmp::PartialEqSpecImpl for TokenType {
    open spec fn obeys_eq_spec() -> bool {
        true
    }

    open spec fn eq_spec(&self, other: &TokenType) -> bool {
        tok_eq_spec(self@, other@)
    }
}

/// An exponent marker.
pub open spec fn is_e(c: char) -> bool {
    c == 'e' || c == 'E'
}

/// A character allowed in a float mantissa.
pub open spec fn mantissa_char(c: char) -> bool {
    is_digit_char(c) || c == '.'
}

/// A float mantissa: digits with at most one point among them, and at least
/// one digit.
pub open spec fn mantissa_ok(s: Seq<char>) -> bool {
    (forall|k: int| 0 <= k < s.len() ==> mantissa_char(#[trigger] s[k])) && (forall|i: int, j: int|
        0 <= i < j < s.len() ==> !(s[i] == '.' && s[j] == '.')) && (exists|k: int|
        0 <= k < s.len() && is_digit_char(#[trigger] s[k]))
}

/// A float exponent: an optional sign, then one or more digits.
pub open spec fn exp_ok(s: Seq<char>) -> bool {
    is_digit_seq(int_body(s))
}

/// The word `inf`, in any letter case.
pub open spec fn is_inf_word(s: Seq<char>) -> bool {
    s.len() == 3 && (s[0] == 'i' || s[0] == 'I') && (s[1] == 'n' || s[1] == 'N') && (s[2] == 'f'
        || s[2] == 'F')
}

/// The word `infinity`, in any letter case.
pub open spec fn is_infinity_word(s: Seq<char>) -> bool {
    s.len() == 8 && (s[0] == 'i' || s[0] == 'I') && (s[1] == 'n' || s[1] == 'N') && (s[2] == 'f'
        || s[2] == 'F') && (s[3] == 'i' || s[3] == 'I') && (s[4] == 'n' || s[4] == 'N') && (s[5]
        == 'i' || s[5] == 'I') && (s[6] == 't' || s[6] == 'T') && (s[7] == 'y' || s[7] == 'Y')
}

/// The word `nan`, in any letter case.
pub open spec fn is_nan_word(s: Seq<char>) -> bool {
    s.len() == 3 && (s[0] == 'n' || s[0] == 'N') && (s[1] == 'a' || s[1] == 'A') && (s[2] == 'n'
        || s[2] == 'N')
}

/// A float token body, after the sign: one of the special words, a bare
/// mantissa, or a mantissa and an exponent split by a single marker.
pub open spec fn is_float_body(s: Seq<char>) -> bool {
    is_inf_word(s) || is_infinity_word(s) || is_nan_word(s) || mantissa_ok(s) || (exists|k: int|
        0 <= k < s.len() && is_e(#[trigger] s[k]) && mantissa_ok(s.take(k)) && exp_ok(
            s.skip(k + 1),
        ))
}

/// The strings that read as a decimal float.
pub open spec fn is_float_token(s: Seq<char>) -> bool {
    is_float_body(int_body(s))
}

/// Classification of a flushed token buffer, in priority order: exact
/// keyword, integer, float, the literal `nil`, otherwise an identifier.
pub open spec fn classify(buf: Seq<char>) -> TokV {
    if buf == "let"@ {
        TokV::Key(KeyWord::Let)
    } else if buf == "lambda"@ {
        TokV::Key(KeyWord::Lambda)
    } else if is_int_token(buf) {
        TokV::Lit(ValueV::Integer(int_value(buf)))
    } else if is_float_token(buf) {
        TokV::Lit(ValueV::Floating(buf))
    } else if buf == "nil"@ {
        TokV::Lit(ValueV::Nil)
    } else {
        TokV::Ident(buf)
    }
}

/// Whether the characters of `v` spell exactly the string `s`.
fn chars_is_lit(v: &Vec<char>, s: &str) -> (r: bool)
    ensures
        r == (v@ == s@),
{
    let n = s.unicode_len();
    if v.len() != n {
        return false;
    }
    let mut i: usize = 0;
    while i < n
        invariant
            0 <= i <= n,
            n == s@.len(),
            n == v.len(),
            forall|k: int| 0 <= k < i ==> v@[k] == s@[k],
        decreases n - i,
    {
        if v[i] != s.get_char(i) {
            return false;
        }
        i += 1;
    }
    assert(v@ =~= s@);
    true
}

/// With the first exponent marker at `e_at` and that split rejected, no
/// reading of the body as a float remains.
proof fn lemma_only_split(bufv: Seq<char>, body: Seq<char>, start: int, e_at: int)
    requires
        0 <= start <= e_at < bufv.len(),
        body == bufv.skip(start),
        is_e(bufv[e_at]),
        forall|k: int| start <= k < e_at ==> !is_e(#[trigger] bufv[k]),
        !(mantissa_ok(body.take(e_at - start)) && exp_ok(body.skip(e_at - start + 1))),
    ensures
        !is_float_body(body),
{
    let e = e_at - start;
    assert(forall|k: int| 0 <= k < body.len() ==> #[trigger] body[k] == bufv[start + k]);
    assert(body[e] == bufv[e_at]);
    assert(!mantissa_char(body[e]));
    assert(!mantissa_ok(body));
    assert forall|k: int|
        0 <= k < body.len() && is_e(#[trigger] body[k]) implies !(mantissa_ok(body.take(k))
        && exp_ok(body.skip(k + 1))) by {
        assert(body[k] == bufv[start + k]);
        if k < e {
            assert(!is_e(bufv[start + k]));
        } else if k > e {
            assert(body.take(k)[e] == body[e]);
            assert(!mantissa_char(body.take(k)[e]));
        }
    }
    if is_inf_word(body) {
        assert(0 <= e < 3);
        assert(false);
    }
    if is_nan_word(body) {
        assert(0 <= e < 3);
        assert(false);
    }
    if is_infinity_word(body) {
        assert(0 <= e < 8);
        assert(false);
    }
}

/// Whether the characters of `buf` from `start` to `end` form a valid
/// float mantissa.
fn mantissa_scan(buf: &Vec<char>, start: usize, end: usize) -> (r: bool)
    requires
        start <= end <= buf@.len(),
    ensures
        r == mantissa_ok(buf@.subrange(start as int, end as int)),
{
    let ghost mant = buf@.subrange(start as int, end as int);
    proof {
        assert(forall|k: int| 0 <= k < mant.len() ==> #[trigger] mant[k] == buf@[start + k]);
    }
    let mut dots: usize = 0;
    let mut digit_seen = false;
    let mut bad = false;
    let mut j = start;
    while j < end
        invariant
            start <= j <= end <= buf@.len(),
            mant == buf@.subrange(start as int, end as int),
            digit_seen == exists|k: int| start <= k < j && is_digit_char(#[trigger] buf@[k]),
            !bad ==> forall|k: int| start <= k < j ==> mantissa_char(#[trigger] buf@[k]),
            !bad ==> dots <= 1,
            !bad ==> (dots == 0 <==> forall|k: int| start <= k < j ==> #[trigger] buf@[k] != '.'),
            !bad ==> forall|k1: int, k2: int|
                start <= k1 < k2 < j ==> !(buf@[k1] == '.' && buf@[k2] == '.'),
            bad ==> !mantissa_ok(mant),
        decreases end - j,
    {
        let c = buf[j];
        let cu = c as u32;
        let is_dig = 48 <= cu && cu <= 57;
        if is_dig {
            digit_seen = true;
        }
        if !bad {
            if is_dig {
            } else if c == '.' {
                if dots >= 1 {
                    proof {
                        let k1 = choose|k1: int| start <= k1 < j && buf@[k1] == '.';
                        assert(mant[k1 - start] == '.' && mant[j - start] == '.');
                        assert(!mantissa_ok(mant));
                    }
                    bad = true;
                } else {
                    dots = 1;
                }
            } else {
                proof {
                    assert(mant[j - start] == buf@[j as int]);
                    assert(!mantissa_char(mant[j - start]));
                    assert(!mantissa_ok(mant));
                }
                bad = true;
            }
        }
        j += 1;
    }
    proof {
        if !bad && !digit_seen {
            assert forall|k: int| 0 <= k < mant.len() implies !is_digit_char(mant[k]) by {
                assert(mant[k] == buf@[start + k]);
            }
            assert(!mantissa_ok(mant));
        }
        if !bad && digit_seen {
            assert forall|k: int| 0 <= k < mant.len() implies mantissa_char(mant[k]) by {
                assert(mant[k] == buf@[start + k]);
            }
            assert forall|i1: int, j1: int|
                0 <= i1 < j1 < mant.len() implies !(mant[i1] == '.' && mant[j1] == '.') by {
                assert(mant[i1] == buf@[start + i1]);
                assert(mant[j1] == buf@[start + j1]);
            }
            let kw = choose|k: int| start <= k < end && is_digit_char(#[trigger] buf@[k]);
            assert(is_digit_char(mant[kw - start]));
            assert(mantissa_ok(mant));
        }
    }
    !bad && digit_seen
}

/// Whether the characters of `buf` from `from` on are one or more digits.
fn digits_from(buf: &Vec<char>, from: usize) -> (r: bool)
    requires
        from <= buf@.len(),
    ensures
        r == is_digit_seq(buf@.skip(from as int)),
{
    let ghost tail = buf@.skip(from as int);
    proof {
        assert(forall|k: int| 0 <= k < tail.len() ==> #[trigger] tail[k] == buf@[from + k]);
    }
    let n = buf.len();
    if from >= n {
        return false;
    }
    let mut p = from;
    while p < n
        invariant
            from <= p <= n,
            n == buf@.len(),
            tail == buf@.skip(from as int),
            forall|k: int| from <= k < p ==> is_digit_char(#[trigger] buf@[k]),
        decreases n - p,
    {
        let c = buf[p];
        let cu = c as u32;
        if !(48 <= cu && cu <= 57) {
            assert(tail[p - from] == buf@[p as int]);
            assert(!is_digit_char(tail[p - from]));
            return false;
        }
        p += 1;
    }
    proof {
        assert forall|k: int| 0 <= k < tail.len() implies is_digit_char(tail[k]) by {
            assert(tail[k] == buf@[from + k]);
        }
    }
    true
}

/// Whether the characters of `buf` from `start` on spell one of the three
/// special float words.
fn float_word(buf: &Vec<char>, start: usize) -> (r: bool)
    requires
        start <= buf@.len(),
    ensures
        r == {
            let body = buf@.skip(start as int);
            is_inf_word(body) || is_infinity_word(body) || is_nan_word(body)
        },
{
    let ghost body = buf@.skip(start as int);
    proof {
        assert(forall|k: int| 0 <= k < body.len() ==> #[trigger] body[k] == buf@[start + k]);
    }
    let n = buf.len();
    let m = n - start;
    if m == 3 {
        let a = buf[start];
        let b = buf[start + 1];
        let c = buf[start + 2];
        ((a == 'i' || a == 'I') && (b == 'n' || b == 'N') && (c == 'f' || c == 'F')) || ((a == 'n'
            || a == 'N') && (b == 'a' || b == 'A') && (c == 'n' || c == 'N'))
    } else if m == 8 {
        let a = buf[start];
        let b = buf[start + 1];
        let c = buf[start + 2];
        let d = buf[start + 3];
        let e = buf[start + 4];
        let f = buf[start + 5];
        let g = buf[start + 6];
        let h = buf[start + 7];
        (a == 'i' || a == 'I') && (b == 'n' || b == 'N') && (c == 'f' || c == 'F') && (d == 'i' || d
            == 'I') && (e == 'n' || e == 'N') && (f == 'i' || f == 'I') && (g == 't' || g == 'T')
            && (h == 'y' || h == 'Y')
    } else {
        false
    }
}

/// Whether `buf` reads as a decimal float.
#[verifier::rlimit(30)]
pub fn is_float(buf: &Vec<char>) -> (r: bool)
    ensures
        r == is_float_token(buf@),
{
    let n = buf.len();
    if n == 0 {
        return false;
    }
    let c0 = buf[0];
    let start: usize = if c0 == '-' || c0 == '+' {
        1
    } else {
        0
    };
    let ghost body = int_body(buf@);
    proof {
        assert(body =~= buf@.skip(start as int));
        assert(forall|k: int| 0 <= k < body.len() ==> #[trigger] body[k] == buf@[start + k]);
    }
    if float_word(buf, start) {
        return true;
    }
    // Find the first exponent marker, if any.
    let mut e_at: usize = n;
    let mut i = start;
    while i < n
        invariant
            start <= i <= n,
            n == buf@.len(),
            start <= e_at,
            e_at == n || (e_at < i && is_e(buf@[e_at as int]) && forall|k: int|
                start <= k < e_at ==> !is_e(#[trigger] buf@[k])),
            e_at == n ==> forall|k: int| start <= k < i ==> !is_e(#[trigger] buf@[k]),
        decreases n - i,
    {
        let c = buf[i];
        if e_at == n && (c == 'e' || c == 'E') {
            e_at = i;
        }
        i += 1;
    }
    if e_at == n {
        // No exponent: the whole body is the mantissa.
        let good = mantissa_scan(buf, start, n);
        proof {
            assert(buf@.subrange(start as int, n as int) =~= body);
            if !good {
                assert forall|k: int|
                    0 <= k < body.len() && is_e(#[trigger] body[k]) implies !(mantissa_ok(
                    body.take(k),
                ) && exp_ok(body.skip(k + 1))) by {
                    assert(body[k] == buf@[start + k]);
                    assert(!is_e(buf@[start + k]));
                }
                assert(!is_float_body(body));
            }
        }
        return good;
    }
    let mant_good = mantissa_scan(buf, start, e_at);
    proof {
        assert(body.take(e_at - start) =~= buf@.subrange(start as int, e_at as int));
    }
    if !mant_good {
        proof {
            lemma_only_split(buf@, body, start as int, e_at as int);
        }
        return false;
    }
    // Validate the exponent, the part after the marker.
    let ghost expo = buf@.skip(e_at + 1 as int);
    let exp_start: usize = if e_at + 1 < n && (buf[e_at + 1] == '+' || buf[e_at + 1] == '-') {
        e_at + 2
    } else {
        e_at + 1
    };
    proof {
        assert(int_body(expo) =~= buf@.skip(exp_start as int));
    }
    let good = digits_from(buf, exp_start);
    proof {
        if good {
            assert(exp_ok(expo));
            assert(body.skip(e_at - start + 1) =~= expo);
            assert(is_e(body[e_at - start]));
            assert(is_float_body(body));
        } else {
            assert(!exp_ok(expo));
            assert(body.skip(e_at - start + 1) =~= expo);
            lemma_only_split(buf@, body, start as int, e_at as int);
        }
    }
    good
}

/// Classifies a flushed token buffer.
fn classify_buf(buf: &Vec<char>) -> (t: TokenType)
    ensures
        t@ == classify(buf@),
{
    if chars_is_lit(buf, "let") {
        TokenType::KeyWord(KeyWord::Let)
    } else if chars_is_lit(buf, "lambda") {
        TokenType::KeyWord(KeyWord::Lambda)
    } else if let Some(v) = parse_i64(buf) {
        TokenType::Recognizable(LispValue::Integer(v))
    } else if is_float(buf) {
        TokenType::Recognizable(LispValue::Floating(string_from_chars(buf)))
    } else if chars_is_lit(buf, "nil") {
        TokenType::Recognizable(LispValue::Nil)
    } else {
        TokenType::Ident(string_from_chars(buf))
    }
}

/// The scanner's mode.
#[derive(Debug, Clone, Copy, PartialEq, Eq, Structural)]
pub enum LexMode {
    Normal,
    InString,
    InComment,
}

/// The full state of the scan: tokens already emitted, the buffered token
/// and where it began, the current position, the mode, the count of `$`
/// wraps still open, the previous character, and whether the rest of the
/// line is being discarded.
#[verifier::ext_equal]
pub ghost struct LexSt {
    pub toks: Seq<TokenV>,
    pub buf: Seq<char>,
    pub buf_line: nat,
    pub buf_col: nat,
    pub line: nat,
    pub col: nat,
    pub mode: LexMode,
    pub wraps: nat,
    pub last: char,
    pub skip: bool,
}

/// The state before any character is read.
pub open spec fn lex_init() -> LexSt {
    LexSt {
        toks: Seq::empty(),
        buf: Seq::empty(),
        buf_line: 0,
        buf_col: 0,
        line: 0,
        col: 0,
        mode: LexMode::Normal,
        wraps: 0,
        last: ' ',
        skip: false,
    }
}

/// A token at a position in the named source.
pub open spec fn tok_at(file: Seq<char>, line: nat, col: nat, dat: TokV) -> TokenV {
    TokenV { loc: LocV { filename: file, line, col }, dat }
}

/// Flushes the buffered characters as one classified token, if any are
/// buffered.
pub open spec fn flush_buf(st: LexSt, file: Seq<char>) -> LexSt {
    if st.buf.len() == 0 {
        st
    } else {
        LexSt {
            toks: st.toks.push(tok_at(file, st.buf_line, st.buf_col, classify(st.buf))),
            buf: Seq::empty(),
            ..st
        }
    }
}

/// `n` end-statement tokens at one position.
pub open spec fn end_toks(file: Seq<char>, line: nat, col: nat, n: nat) -> Seq<TokenV> {
    Seq::new(n, |i: int| tok_at(file, line, col, TokV::End))
}

/// One step of the scan: what reading `c` does to the state.
pub open spec fn lex_step(st: LexSt, c: char, file: Seq<char>) -> LexSt {
    if st.skip && c != '\n' {
        st
    } else if c == '\n' {
        LexSt { line: st.line + 1, col: 0, skip: false, ..st }
    } else {
        let st1 = match st.mode {
            LexMode::InString => {
                if c == '"' {
                    LexSt {
                        toks: st.toks.push(
                            tok_at(file, st.buf_line, st.buf_col, TokV::Lit(ValueV::Str(st.buf))),
                        ),
                        buf: Seq::empty(),
                        mode: LexMode::Normal,
                        ..st
                    }
                } else {
                    LexSt { buf: st.buf.push(c), ..st }
                }
            },
            LexMode::InComment => {
                if c == '}' && st.last == '*' {
                    LexSt { mode: LexMode::Normal, ..st }
                } else {
                    st
                }
            },
            LexMode::Normal => {
                if c == '"' {
                    if st.buf.len() == 0 {
                        LexSt {
                            mode: LexMode::InString,
                            buf_line: st.line,
                            buf_col: st.col,
                            ..st
                        }
                    } else {
                        LexSt { mode: LexMode::InString, ..st }
                    }
                } else if c == ' ' || c == '\t' || c == '\r' {
                    flush_buf(st, file)
                } else if c == '(' {
                    LexSt { toks: st.toks.push(tok_at(file, st.line, st.col, TokV::Start)), ..st }
                } else if c == ')' {
                    let f = flush_buf(st, file);
                    LexSt {
                        toks: f.toks + end_toks(file, st.line, st.col, f.wraps) + seq![
                            tok_at(file, st.line, st.col, TokV::End),
                        ],
                        wraps: 0,
                        ..f
                    }
                } else if c == '/' && st.last == '/' {
                    LexSt { skip: true, ..st }
                } else if c == '$' {
                    LexSt {
                        toks: st.toks.push(tok_at(file, st.line, st.col, TokV::Start)),
                        wraps: st.wraps + 1,
                        ..st
                    }
                } else if c == '*' && st.last == '{' {
                    LexSt { mode: LexMode::InComment, ..st }
                } else {
                    if st.buf.len() == 0 {
                        LexSt { buf: seq![c], buf_line: st.line, buf_col: st.col, ..st }
                    } else {
                        LexSt { buf: st.buf.push(c), ..st }
                    }
                }
            },
        };
        LexSt { last: c, col: st1.col + 1, ..st1 }
    }
}

/// The scan folded over a character sequence.
pub open spec fn lex_run(st: LexSt, s: Seq<char>, file: Seq<char>) -> LexSt
    decreases s.len(),
{
    if s.len() == 0 {
        st
    } else {
        lex_run(lex_step(st, s[0], file), s.skip(1), file)
    }
}

/// The diagnostics raised for a string literal still open at the end of the
/// input.
pub open spec fn unterminated_err(file: Seq<char>, line: nat, col: nat) -> Seq<
    crate::error::EntryV,
> {
    seq![
        crate::error::EntryV {
            msg: crate::error::entry_msg(
                LocV { filename: file, line, col },
                "Unterminated string literal!"@,
            ),
            notes: Seq::empty(),
        },
    ]
}

/// Finishing the scan: an open string is an error; otherwise any buffered
/// token is flushed and the still-open `$` wraps are closed.
pub open spec fn lex_finish(st: LexSt, file: Seq<char>) -> Result<
    Seq<TokenV>,
    Seq<crate::error::EntryV>,
> {
    if st.mode is InString {
        Err(unterminated_err(file, st.buf_line, st.buf_col))
    } else {
        let f = flush_buf(st, file);
        Ok(f.toks + end_toks(file, st.line, st.col, st.wraps))
    }
}

/// The mathematical images of a token vector, in order.
pub open spec fn token_views(ts: Seq<Token>) -> Seq<TokenV> {
    ts.map_values(|t: Token| t@)
}

/// The token sequence, or the diagnostics, of a whole source text.
pub open spec fn spec_tokenize(s: Seq<char>, file: Seq<char>) -> Result<
    Seq<TokenV>,
    Seq<crate::error::EntryV>,
> {
    lex_finish(lex_run(lex_init(), s, file), file)
}

proof fn lemma_lex_run_snoc(st: LexSt, s: Seq<char>, c: char, file: Seq<char>)
    ensures
        lex_run(st, s.push(c), file) == lex_step(lex_run(st, s, file), c, file),
    decreases s.len(),
{
    reveal_with_fuel(lex_run, 3);
    if s.len() == 0 {
        assert(s.push(c)[0] == c);
        assert(s.push(c).skip(1) =~= Seq::<char>::empty());
    } else {
        assert(s.push(c)[0] == s[0]);
        assert(s.push(c).skip(1) =~= s.skip(1).push(c));
        lemma_lex_run_snoc(lex_step(st, s[0], file), s.skip(1), c, file);
    }
}

/// The running scanner.
struct Tokenizer {
    tokens: Vec<Token>,
    buf: Vec<char>,
    buf_line: usize,
    buf_col: usize,
    line: usize,
    col: usize,
    mode: LexMode,
    wraps: usize,
    last: char,
    skip: bool,
    filename: String,
}

/// The scan state a scanner stands in.
spec fn st_of(t: Tokenizer) -> LexSt {
    LexSt {
        toks: t.tokens@.map_values(|x: Token| x@),
        buf: t.buf@,
        buf_line: t.buf_line as nat,
        buf_col: t.buf_col as nat,
        line: t.line as nat,
        col: t.col as nat,
        mode: t.mode,
        wraps: t.wraps as nat,
        last: t.last,
        skip: t.skip,
    }
}

impl Tokenizer {
    /// Flushes the buffered token, as `flush_buf` says.
    fn push_tok(&mut self)
        ensures
            st_of(*final(self)) == flush_buf(st_of(*old(self)), old(self).filename@),
            final(self).filename@ == old(self).filename@,
    {
        if self.buf.len() == 0 {
            return;
        }
        let mut b: Vec<char> = Vec::new();
        core::mem::swap(&mut self.buf, &mut b);
        let dat = classify_buf(&b);
        let tok = Token {
            loc: Location {
                filename: self.filename.clone(),
                line: self.buf_line,
                col: self.buf_col,
            },
            dat,
        };
        self.tokens.push(tok);
        proof {
            assert(st_of(*self) =~~= flush_buf(st_of(*old(self)), old(self).filename@));
        }
    }

    /// Emits one end-statement token at the current position.
    fn push_end(&mut self)
        ensures
            st_of(*final(self)) == (LexSt {
                toks: st_of(*old(self)).toks.push(
                    tok_at(
                        old(self).filename@,
                        old(self).line as nat,
                        old(self).col as nat,
                        TokV::End,
                    ),
                ),
                ..st_of(*old(self))
            }),
            final(self).filename@ == old(self).filename@,
    {
        let tok = Token {
            loc: Location { filename: self.filename.clone(), line: self.line, col: self.col },
            dat: TokenType::EndStmt,
        };
        self.tokens.push(tok);
        proof {
            assert(st_of(*self) =~~= LexSt {
                toks: st_of(*old(self)).toks.push(
                    tok_at(
                        old(self).filename@,
                        old(self).line as nat,
                        old(self).col as nat,
                        TokV::End,
                    ),
                ),
                ..st_of(*old(self))
            });
        }
    }

    /// Closes the still-open `$` wraps: one end token each, then resets the
    /// count.
    fn close_wraps(&mut self)
        ensures
            st_of(*final(self)) == (LexSt {
                toks: st_of(*old(self)).toks + end_toks(
                    old(self).filename@,
                    old(self).line as nat,
                    old(self).col as nat,
                    st_of(*old(self)).wraps,
                ),
                wraps: 0,
                ..st_of(*old(self))
            }),
            final(self).filename@ == old(self).filename@,
    {
        let w = self.wraps;
        let ghost file = self.filename@;
        let ghost base = st_of(*self);
        let mut k: usize = 0;
        while k < w
            invariant
                0 <= k <= w,
                self.wraps == w,
                self.buf@ == base.buf,
                self.buf_line == base.buf_line,
                self.buf_col == base.buf_col,
                self.line == base.line,
                self.col == base.col,
                self.mode == base.mode,
                self.last == base.last,
                self.skip == base.skip,
                self.filename@ == file,
                st_of(*self).toks == base.toks + end_toks(file, base.line, base.col, k as nat),
            decreases w - k,
        {
            proof {
                assert(end_toks(file, base.line, base.col, (k + 1) as nat) =~= end_toks(
                    file,
                    base.line,
                    base.col,
                    k as nat,
                ).push(tok_at(file, base.line, base.col, TokV::End)));
            }
            self.push_end();
            k += 1;
            proof {
                assert(st_of(*self).toks =~= base.toks + end_toks(
                    file,
                    base.line,
                    base.col,
                    k as nat,
                ));
            }
        }
        self.wraps = 0;
        proof {
            assert(st_of(*self) =~~= LexSt {
                toks: base.toks + end_toks(file, base.line, base.col, base.wraps),
                wraps: 0,
                ..base
            });
        }
    }

    /// Reads one character, as `lex_step` says.
    fn step(&mut self, c: char)
        requires
            old(self).line < usize::MAX,
            old(self).col < usize::MAX,
            old(self).wraps < usize::MAX,
        ensures
            st_of(*final(self)) == lex_step(st_of(*old(self)), c, old(self).filename@),
            final(self).filename@ == old(self).filename@,
    {
        let ghost st0 = st_of(*old(self));
        let ghost file = self.filename@;
        if self.skip && c != '\n' {
            return;
        }
        if c == '\n' {
            self.line = self.line + 1;
            self.col = 0;
            self.skip = false;
            proof {
                assert(st_of(*self) =~~= lex_step(st0, c, file));
            }
            return;
        }
        match self.mode {
            LexMode::InString => {
                if c == '"' {
                    let mut b: Vec<char> = Vec::new();
                    core::mem::swap(&mut self.buf, &mut b);
                    let tok = Token {
                        loc: Location {
                            filename: self.filename.clone(),
                            line: self.buf_line,
                            col: self.buf_col,
                        },
                        dat: TokenType::Recognizable(LispValue::Str(string_from_chars(&b))),
                    };
                    self.tokens.push(tok);
                    self.mode = LexMode::Normal;
                } else {
                    self.buf.push(c);
                }
            },
            LexMode::InComment => {
                if c == '}' && self.last == '*' {
                    self.mode = LexMode::Normal;
                }
            },
            LexMode::Normal => {
                if c == '"' {
                    if self.buf.len() == 0 {
                        self.buf_line = self.line;
                        self.buf_col = self.col;
                    }
                    self.mode = LexMode::InString;
                } else if c == ' ' || c == '\t' || c == '\r' {
                    self.push_tok();
                } else if c == '(' {
                    let tok = Token {
                        loc: Location {
                            filename: self.filename.clone(),
                            line: self.line,
                            col: self.col,
                        },
                        dat: TokenType::StartStmt,
                    };
                    self.tokens.push(tok);
                } else if c == ')' {
                    self.push_tok();
                    self.close_wraps();
                    self.push_end();
                    proof {
                        let f = flush_buf(st0, file);
                        assert(st_of(*self).toks =~= f.toks + end_toks(
                            file,
                            st0.line,
                            st0.col,
                            f.wraps,
                        ) + seq![tok_at(file, st0.line, st0.col, TokV::End)]);
                    }
                } else if c == '/' && self.last == '/' {
                    self.skip = true;
                } else if c == '$' {
                    let tok = Token {
                        loc: Location {
                            filename: self.filename.clone(),
                            line: self.line,
                            col: self.col,
                        },
                        dat: TokenType::StartStmt,
                    };
                    self.tokens.push(tok);
                    self.wraps = self.wraps + 1;
                } else if c == '*' && self.last == '{' {
                    self.mode = LexMode::InComment;
                } else {
                    if self.buf.len() == 0 {
                        self.buf_line = self.line;
                        self.buf_col = self.col;
                    }
                    self.buf.push(c);
                }
            },
        }
        self.last = c;
        self.col = self.col + 1;
        proof {
            assert(st_of(*self) =~~= lex_step(st0, c, file));
        }
    }
}

/// Converts source text into its flat token sequence: exactly the tokens of
/// the spec-level scan, or its diagnostics.
pub fn tokenize(source: &str, filename: String) -> (r: Result<Vec<Token>, LispErrors>)
    ensures
        match spec_tokenize(source@, filename@) {
            Ok(ts) => r matches Ok(v) && v@.map_values(|t: Token| t@) == ts,
            Err(es) => r matches Err(e) && e@ == es,
        },
{
    let chars = chars_of(source);
    let mut t = Tokenizer {
        tokens: Vec::new(),
        buf: Vec::new(),
        buf_line: 0,
        buf_col: 0,
        line: 0,
        col: 0,
        mode: LexMode::Normal,
        wraps: 0,
        last: ' ',
        skip: false,
        filename,
    };
    let ghost fv = t.filename@;
    proof {
        assert(st_of(t) =~~= lex_init());
    }
    let n = chars.len();
    let mut i: usize = 0;
    while i < n
        invariant
            0 <= i <= n,
            n == chars@.len(),
            chars@ == source@,
            t.filename@ == fv,
            st_of(t) == lex_run(lex_init(), chars@.take(i as int), fv),
            t.line <= i,
            t.col <= i,
            t.wraps <= i,
        decreases n - i,
    {
        let c = chars[i];
        let ghost pre = st_of(t);
        t.step(c);
        i += 1;
        proof {
            lemma_lex_run_snoc(lex_init(), chars@.take(i - 1), c, fv);
            assert(chars@.take(i as int) =~= chars@.take(i - 1).push(c));
            assert(st_of(t).line <= pre.line + 1);
            assert(st_of(t).col <= pre.col + 1);
            assert(st_of(t).wraps <= pre.wraps + 1);
        }
    }
    proof {
        assert(chars@.take(n as int) =~= chars@);
    }
    let is_in_string = match t.mode {
        LexMode::InString => true,
        _ => false,
    };
    if is_in_string {
        let loc = Location { filename: t.filename.clone(), line: t.buf_line, col: t.buf_col };
        let errs = LispErrors::new().error(&loc, "Unterminated string literal!");
        proof {
            assert(errs@ =~~= unterminated_err(fv, t.buf_line as nat, t.buf_col as nat));
        }
        return Err(errs);
    }
    t.push_tok();
    t.close_wraps();
    proof {
        let st = lex_run(lex_init(), source@, fv);
        let f = flush_buf(st, fv);
        assert(st_of(t).toks =~= f.toks + end_toks(fv, st.line, st.col, st.wraps));
    }
    Ok(t.tokens)
}

impl PartialEq for Token {
    fn eq(&self, other: &Token) -> (r: bool) {
        self.loc == other.loc && self.dat == other.dat
    }
}

impl vstd::std_specs::cmp::PartialEqSpecImpl for Token {
    open spec fn obeys_eq_spec() -> bool {
        true
    }

    open spec fn eq_spec(&self, other: &Token) -> bool {
        self@.loc == other@.loc && tok_eq_spec(self@.dat, other@.dat)
    }
}

} // verus!
