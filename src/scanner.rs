use vstd::prelude::*;
use crate::error::ScannerError;
use crate::text::{chars_of, spells, string_of};
use crate::token::{Span, Token, TokenKind};

verus! {

/// What one step of the scanner does at a lexeme's first character: the token
/// it emits, if any, how many characters it consumes, how many newlines those
/// hold, and the error it reports, if any.
pub struct Lexed {
    pub kind: Option<TokenKind>,
    pub len: nat,
    pub lines: nat,
    pub error: Option<Seq<char>>,
}

/// A token as the scanner's contract sees it: kind, lexeme and span.
pub type TokenView = (TokenKind, Seq<char>, Span);

/// A lexical error as the scanner's contract sees it: line and message.
pub type ErrorView = (nat, Seq<char>);

impl View for Token {
    type V = TokenView;

    open spec fn view(&self) -> TokenView {
        (self.kind, self.lexeme@, self.span)
    }
}

impl View for ScannerError {
    type V = ErrorView;

    open spec fn view(&self) -> ErrorView {
        (self.line as nat, self.message@)
    }
}

pub open spec fn token_views(ts: Seq<Token>) -> Seq<TokenView> {
    ts.map_values(|t: Token| t@)
}

pub open spec fn error_views(es: Seq<ScannerError>) -> Seq<ErrorView> {
    es.map_values(|e: ScannerError| e@)
}

pub open spec fn is_letter(c: char) -> bool {
    ('a' <= c && c <= 'z') || ('A' <= c && c <= 'Z')
}

/// The characters that may continue an identifier.
pub open spec fn is_alpha_spec(c: char) -> bool {
    is_letter(c) || c == '_'
}

pub open spec fn is_digit(c: char) -> bool {
    '0' <= c && c <= '9'
}

/// How many characters from `i` on continue an identifier.
pub open spec fn alpha_run(src: Seq<char>, i: int) -> nat
    decreases src.len() - i,
{
    if 0 <= i < src.len() && is_alpha_spec(src[i]) {
        1 + alpha_run(src, i + 1)
    } else {
        0
    }
}

/// How many decimal digits stand from `i` on.
pub open spec fn digit_run(src: Seq<char>, i: int) -> nat
    decreases src.len() - i,
{
    if 0 <= i < src.len() && is_digit(src[i]) {
        1 + digit_run(src, i + 1)
    } else {
        0
    }
}

/// How many characters from `i` on come before the next `c`, or before the end.
pub open spec fn run_until(src: Seq<char>, i: int, c: char) -> nat
    decreases src.len() - i,
{
    if 0 <= i < src.len() && src[i] != c {
        1 + run_until(src, i + 1, c)
    } else {
        0
    }
}

/// The rest of a numeral whose first digit stands just before `i`: more
/// digits, then a `.` and digits only where a digit follows the `.`.
pub open spec fn number_run(src: Seq<char>, i: int) -> nat {
    let d = digit_run(src, i);
    let dot = i + d;
    if dot + 1 < src.len() && src[dot] == '.' && is_digit(src[dot + 1]) {
        d + 1 + digit_run(src, dot + 1)
    } else {
        d
    }
}

/// The number of line breaks in `s`.
pub open spec fn newlines(s: Seq<char>) -> nat
    decreases s.len(),
{
    if s.len() == 0 {
        0
    } else {
        newlines(s.drop_last()) + newline_count(s.last())
    }
}

pub open spec fn newline_count(c: char) -> nat {
    if c == '\n' {
        1
    } else {
        0
    }
}

/// The token kind of each single-character punctuation mark.
pub open spec fn single_kind(c: char) -> Option<TokenKind> {
    if c == '(' {
        Some(TokenKind::LeftParen)
    } else if c == ')' {
        Some(TokenKind::RightParen)
    } else if c == '{' {
        Some(TokenKind::LeftBrace)
    } else if c == '}' {
        Some(TokenKind::RightBrace)
    } else if c == ',' {
        Some(TokenKind::Comma)
    } else if c == '.' {
        Some(TokenKind::Dot)
    } else if c == '-' {
        Some(TokenKind::Minus)
    } else if c == '+' {
        Some(TokenKind::Plus)
    } else if c == ';' {
        Some(TokenKind::Semicolon)
    } else if c == '*' {
        Some(TokenKind::Star)
    } else {
        None
    }
}

/// For `!`, `=`, `<` and `>`: the kind alone and the kind followed by `=`.
pub open spec fn pair_kinds(c: char) -> Option<(TokenKind, TokenKind)> {
    if c == '!' {
        Some((TokenKind::Bang, TokenKind::BangEqual))
    } else if c == '=' {
        Some((TokenKind::Equal, TokenKind::EqualEqual))
    } else if c == '<' {
        Some((TokenKind::Less, TokenKind::LessEqual))
    } else if c == '>' {
        Some((TokenKind::Greater, TokenKind::GreaterEqual))
    } else {
        None
    }
}

/// The reserved words and their kinds.
pub open spec fn keyword(w: Seq<char>) -> Option<TokenKind> {
    if w == "and"@ {
        Some(TokenKind::And)
    } else if w == "class"@ {
        Some(TokenKind::Class)
    } else if w == "else"@ {
        Some(TokenKind::Else)
    } else if w == "false"@ {
        Some(TokenKind::False)
    } else if w == "for"@ {
        Some(TokenKind::For)
    } else if w == "fn"@ {
        Some(TokenKind::Fn)
    } else if w == "if"@ {
        Some(TokenKind::If)
    } else if w == "nil"@ {
        Some(TokenKind::Nil)
    } else if w == "or"@ {
        Some(TokenKind::Or)
    } else if w == "print"@ {
        Some(TokenKind::Print)
    } else if w == "return"@ {
        Some(TokenKind::Return)
    } else if w == "super"@ {
        Some(TokenKind::Super)
    } else if w == "self"@ {
        Some(TokenKind::Self_)
    } else if w == "true"@ {
        Some(TokenKind::True)
    } else if w == "let"@ {
        Some(TokenKind::Let)
    } else if w == "while"@ {
        Some(TokenKind::While)
    } else {
        None
    }
}

pub open spec fn word_kind(w: Seq<char>) -> TokenKind {
    match keyword(w) {
        Some(k) => k,
        None => TokenKind::Identifier,
    }
}

pub open spec fn emit(kind: TokenKind, len: nat) -> Lexed {
    Lexed { kind: Some(kind), len, lines: 0, error: None }
}

pub open spec fn skip(len: nat, lines: nat) -> Lexed {
    Lexed { kind: None, len, lines, error: None }
}

pub open spec fn unexpected_message() -> Seq<char> {
    "Unexpected character"@
}

pub open spec fn unterminated_message() -> Seq<char> {
    "Unterminated string."@
}

/// The scanner's step at `pos`, which must be inside `src`.
pub open spec fn lex_step(src: Seq<char>, pos: int) -> Lexed {
    let c = src[pos];
    let next_is_eq = pos + 1 < src.len() && src[pos + 1] == '=';
    if single_kind(c) is Some {
        emit(single_kind(c)->0, 1)
    } else if let Some((alone, with_eq)) = pair_kinds(c) {
        if next_is_eq {
            emit(with_eq, 2)
        } else {
            emit(alone, 1)
        }
    } else if c == '/' {
        if pos + 1 < src.len() && src[pos + 1] == '/' {
            skip(2 + run_until(src, pos + 2, '\n'), 0)
        } else {
            emit(TokenKind::Slash, 1)
        }
    } else if c == ' ' || c == '\r' || c == '\t' {
        skip(1, 0)
    } else if c == '\n' {
        skip(1, 1)
    } else if c == '"' {
        let n = run_until(src, pos + 1, '"');
        let lines = newlines(src.subrange(pos + 1, pos + 1 + n));
        if pos + 1 + n < src.len() {
            Lexed { kind: Some(TokenKind::String), len: n + 2, lines, error: None }
        } else {
            Lexed { kind: None, len: n + 1, lines, error: Some(unterminated_message()) }
        }
    } else if is_digit(c) {
        emit(TokenKind::Number, 1 + number_run(src, pos + 1))
    } else if is_letter(c) {
        let n = 1 + alpha_run(src, pos + 1);
        emit(word_kind(src.subrange(pos, pos + n)), n)
    } else {
        Lexed { kind: None, len: 1, lines: 0, error: Some(unexpected_message()) }
    }
}

/// The tokens and errors that scanning `src` from `pos`, on line `line`, yields.
/// The end-of-input token comes last, with an empty span at the end.
pub open spec fn lex_from(src: Seq<char>, pos: int, line: nat) -> (Seq<TokenView>, Seq<ErrorView>)
    decreases if pos < src.len() { src.len() - pos } else { 0 },
{
    if pos < 0 || pos >= src.len() {
        (seq![(TokenKind::Eof, Seq::<char>::empty(), Span { offset: src.len() as usize, length: 0 })], seq![])
    } else {
        let st = lex_step(src, pos);
        proof {
            assert(st.len >= 1);
        }
        let rest = lex_from(src, pos + st.len, line + st.lines);
        let toks = match st.kind {
            Some(k) => seq![(k, src.subrange(pos, pos + st.len), Span { offset: pos as usize, length: st.len as usize })],
            None => seq![],
        };
        let errs = match st.error {
            Some(m) => seq![((line + st.lines) as nat, m)],
            None => seq![],
        };
        (toks + rest.0, errs + rest.1)
    }
}

/// The tokens and errors of a whole source text, scanned from line 1.
pub open spec fn lex(src: Seq<char>) -> (Seq<TokenView>, Seq<ErrorView>) {
    lex_from(src, 0, 1)
}

pub open spec fn all_digits(s: Seq<char>) -> bool {
    forall|i: int| 0 <= i < s.len() ==> is_digit(#[trigger] s[i])
}

/// A numeral as the language writes it: digits, then optionally a `.` and
/// more digits.
pub open spec fn is_numeral(s: Seq<char>) -> bool {
    exists|k: int|
        0 < k <= s.len() && #[trigger] all_digits(s.subrange(0, k)) && (k == s.len() || (k + 1 < s.len()
            && s[k] == '.' && all_digits(s.subrange(k + 1, s.len() as int))))
}

proof fn lemma_digit_run(src: Seq<char>, i: int, j: int)
    requires
        0 <= i <= j <= src.len(),
        forall|x: int| i <= x < j ==> is_digit(#[trigger] src[x]),
        j == src.len() || !is_digit(src[j]),
    ensures
        digit_run(src, i) == j - i,
    decreases j - i,
{
    if i < j {
        lemma_digit_run(src, i + 1, j);
    }
}

/// A numeral scans to exactly one number token, whose lexeme is the whole
/// numeral, then the end of input, and no error.
pub proof fn numeral_scans_to_one_number(src: Seq<char>)
    requires
        is_numeral(src),
    ensures
        lex(src).0 == seq![
            (TokenKind::Number, src, Span { offset: 0, length: src.len() as usize }),
            (TokenKind::Eof, Seq::<char>::empty(), Span { offset: src.len() as usize, length: 0 }),
        ],
        lex(src).1.len() == 0,
{
    let k = choose|k: int|
        0 < k <= src.len() && #[trigger] all_digits(src.subrange(0, k)) && (k == src.len() || (k + 1 < src.len()
            && src[k] == '.' && all_digits(src.subrange(k + 1, src.len() as int))));
    assert(forall|x: int| 0 <= x < k ==> is_digit(#[trigger] src[x])) by {
        assert forall|x: int| 0 <= x < k implies is_digit(#[trigger] src[x]) by {
            assert(src.subrange(0, k)[x] == src[x]);
        }
    }
    if k == src.len() {
        lemma_digit_run(src, 1, k);
    } else {
        assert(forall|x: int| k + 1 <= x < src.len() ==> is_digit(#[trigger] src[x])) by {
            assert forall|x: int| k + 1 <= x < src.len() implies is_digit(#[trigger] src[x]) by {
                assert(src.subrange(k + 1, src.len() as int)[x - (k + 1)] == src[x]);
            }
        }
        lemma_digit_run(src, 1, k);
        lemma_digit_run(src, k + 1, src.len() as int);
    }
    let st = lex_step(src, 0);
    assert(st == emit(TokenKind::Number, src.len() as nat));
    assert(src.subrange(0, src.len() as int) =~= src);
    let rest = lex_from(src, src.len() as int, 1);
    assert(lex(src).0 =~= seq![(TokenKind::Number, src, Span { offset: 0, length: src.len() as usize })] + rest.0);
    assert(lex(src).1 =~= rest.1);
}

/// Whether scanning from `pos` reaches `i` at the start of a lexeme.
pub open spec fn lexeme_starts_at(src: Seq<char>, pos: int, i: int) -> bool
    decreases if pos < src.len() { src.len() - pos } else { 0 },
{
    if pos == i {
        true
    } else if 0 <= pos < i && pos < src.len() {
        let st = lex_step(src, pos);
        if st.len >= 1 {
            lexeme_starts_at(src, pos + st.len, i)
        } else {
            false
        }
    } else {
        false
    }
}

pub open spec fn has_error(errs: Seq<ErrorView>, message: Seq<char>) -> bool {
    exists|k: int| 0 <= k < errs.len() && (#[trigger] errs[k]).1 == message
}

proof fn lemma_run_until_end(src: Seq<char>, i: int, c: char)
    requires
        0 <= i <= src.len(),
        forall|x: int| i <= x < src.len() ==> #[trigger] src[x] != c,
    ensures
        run_until(src, i, c) == src.len() - i,
    decreases src.len() - i,
{
    if i < src.len() {
        lemma_run_until_end(src, i + 1, c);
    }
}

proof fn lemma_unterminated_from(src: Seq<char>, pos: int, line: nat, i: int)
    requires
        0 <= pos,
        lexeme_starts_at(src, pos, i),
        0 <= i < src.len(),
        src[i] == '"',
        forall|x: int| i < x < src.len() ==> #[trigger] src[x] != '"',
    ensures
        has_error(lex_from(src, pos, line).1, unterminated_message()),
    decreases i - pos,
{
    let st = lex_step(src, pos);
    let rest = lex_from(src, pos + st.len, line + st.lines);
    let errs = match st.error {
        Some(m) => seq![((line + st.lines) as nat, m)],
        None => seq![],
    };
    assert(lex_from(src, pos, line).1 == errs + rest.1);
    if pos == i {
        lemma_run_until_end(src, i + 1, '"');
        assert(st.error == Some(unterminated_message()));
        assert((errs + rest.1)[0].1 == unterminated_message());
    } else {
        assert(st.len >= 1);
        assert(lexeme_starts_at(src, pos + st.len, i));
        assert(pos + st.len <= i);
        lemma_unterminated_from(src, pos + st.len, line + st.lines, i);
        let k = choose|k: int| 0 <= k < rest.1.len() && (#[trigger] rest.1[k]).1 == unterminated_message();
        assert((errs + rest.1)[errs.len() + k] == rest.1[k]);
    }
}

/// A string literal that no closing quote follows is reported, however the
/// source goes on.
pub proof fn unterminated_string_is_reported(src: Seq<char>, i: int)
    requires
        lexeme_starts_at(src, 0, i),
        0 <= i < src.len(),
        src[i] == '"',
        forall|x: int| i < x < src.len() ==> #[trigger] src[x] != '"',
    ensures
        has_error(lex(src).1, unterminated_message()),
{
    lemma_unterminated_from(src, 0, 1, i);
}

/// A line comment yields no token and no error, and leaves the line count
/// alone: scanning from its `//` is scanning from the line break (or end of
/// input) that ends it.
pub proof fn comment_is_skipped(src: Seq<char>, pos: int, line: nat, text: Seq<char>)
    requires
        0 <= pos,
        pos + 2 + text.len() <= src.len(),
        src[pos] == '/',
        src[pos + 1] == '/',
        src.subrange(pos + 2, pos + 2 + text.len()) == text,
        forall|i: int| 0 <= i < text.len() ==> #[trigger] text[i] != '\n',
        pos + 2 + text.len() == src.len() || src[pos + 2 + text.len()] == '\n',
    ensures
        lex_from(src, pos, line) == lex_from(src, pos + 2 + text.len(), line),
{
    let end = pos + 2 + text.len();
    assert forall|x: int| pos + 2 <= x < end implies #[trigger] src[x] != '\n' by {
        assert(src[x] == text[x - (pos + 2)]);
    }
    lemma_run_until_stops(src, pos + 2, end, '\n');
    let st = lex_step(src, pos);
    assert(st == skip((2 + text.len()) as nat, 0));
    assert(lex_from(src, pos, line).0 =~= lex_from(src, end, line).0);
    assert(lex_from(src, pos, line).1 =~= lex_from(src, end, line).1);
}

proof fn lemma_run_until_stops(src: Seq<char>, i: int, j: int, c: char)
    requires
        0 <= i <= j <= src.len(),
        forall|x: int| i <= x < j ==> #[trigger] src[x] != c,
        j == src.len() || src[j] == c,
    ensures
        run_until(src, i, c) == j - i,
    decreases j - i,
{
    if i < j {
        lemma_run_until_stops(src, i + 1, j, c);
    }
}

/// Tokens moved `by` characters further into the source.
pub open spec fn shift_tokens(ts: Seq<TokenView>, by: nat) -> Seq<TokenView> {
    ts.map_values(|t: TokenView| (t.0, t.1, Span { offset: (t.2.offset + by) as usize, length: t.2.length }))
}

/// Errors moved `lines` lines further down the source.
pub open spec fn shift_errors(es: Seq<ErrorView>, lines: nat) -> Seq<ErrorView> {
    es.map_values(|e: ErrorView| ((e.0 + lines) as nat, e.1))
}

proof fn lemma_runs_shift(p: Seq<char>, s: Seq<char>, x: int)
    requires
        0 <= x <= s.len(),
    ensures
        alpha_run(p + s, p.len() + x) == alpha_run(s, x),
        digit_run(p + s, p.len() + x) == digit_run(s, x),
        run_until(p + s, p.len() + x, '\n') == run_until(s, x, '\n'),
        run_until(p + s, p.len() + x, '"') == run_until(s, x, '"'),
    decreases s.len() - x,
{
    if x < s.len() {
        assert((p + s)[p.len() + x] == s[x]);
        lemma_runs_shift(p, s, x + 1);
    }
}

proof fn lemma_step_shift(p: Seq<char>, s: Seq<char>, i: int)
    requires
        0 <= i < s.len(),
    ensures
        lex_step(p + s, p.len() + i) == lex_step(s, i),
        (p + s).subrange(p.len() + i, p.len() + i + lex_step(s, i).len) == s.subrange(i, i + lex_step(s, i).len),
{
    let t = p + s;
    let j = p.len() + i;
    lemma_step_len(s, i);
    lemma_run_bounds(s, i + 1);
    assert(t.len() == p.len() + s.len());
    assert(t[j] == s[i]);
    if i + 1 < s.len() {
        assert(t[j + 1] == s[i + 1]);
    }
    lemma_runs_shift(p, s, i + 1);
    if i + 2 <= s.len() {
        lemma_runs_shift(p, s, i + 2);
    }
    let d = digit_run(s, i + 1);
    if i + 1 + d < s.len() {
        assert(t[j + 1 + d] == s[i + 1 + d]);
        if i + 2 + d < s.len() {
            assert(t[j + 2 + d] == s[i + 2 + d]);
            lemma_runs_shift(p, s, i + 2 + d);
        }
    }
    let st = lex_step(s, i);
    if i + st.len <= s.len() {
        assert(t.subrange(j, j + st.len) =~= s.subrange(i, i + st.len));
    }
    let n = run_until(s, i + 1, '"');
    if i + 1 + n <= s.len() {
        assert(t.subrange(j + 1, j + 1 + n) =~= s.subrange(i + 1, i + 1 + n));
    }
    let a = 1 + alpha_run(s, i + 1);
    if i + a <= s.len() {
        assert(t.subrange(j, j + a) =~= s.subrange(i, i + a));
    }
    assert(number_run(t, j + 1) == number_run(s, i + 1));
    assert(run_until(t, j + 1, '"') == n);
    assert(newlines(t.subrange(j + 1, j + 1 + n)) == newlines(s.subrange(i + 1, i + 1 + n)));
    assert(word_kind(t.subrange(j, j + a)) == word_kind(s.subrange(i, i + a)));
    assert(single_kind(t[j]) == single_kind(s[i]));
}

proof fn lemma_run_bounds(src: Seq<char>, x: int)
    requires
        0 <= x <= src.len(),
    ensures
        alpha_run(src, x) <= src.len() - x,
        digit_run(src, x) <= src.len() - x,
        run_until(src, x, '\n') <= src.len() - x,
        run_until(src, x, '"') <= src.len() - x,
    decreases src.len() - x,
{
    if x < src.len() {
        lemma_run_bounds(src, x + 1);
    }
}

proof fn lemma_step_len(src: Seq<char>, pos: int)
    requires
        0 <= pos < src.len(),
    ensures
        1 <= lex_step(src, pos).len <= src.len() - pos,
{
    lemma_run_bounds(src, pos + 1);
    if pos + 2 <= src.len() {
        lemma_run_bounds(src, pos + 2);
    }
    let d = digit_run(src, pos + 1);
    if pos + 2 + d <= src.len() {
        lemma_run_bounds(src, pos + 2 + d);
    }
}

/// Scanning a source that continues `p` from inside its continuation gives
/// what scanning the continuation alone gives, moved along by `p`: offsets
/// by its length, lines by however many lines are counted more.
proof fn lemma_lex_shift(p: Seq<char>, s: Seq<char>, i: int, line: nat, d: nat)
    requires
        0 <= i <= s.len(),
        p.len() + s.len() <= usize::MAX,
    ensures
        lex_from(p + s, p.len() + i, line + d) == (
            shift_tokens(lex_from(s, i, line).0, p.len()),
            shift_errors(lex_from(s, i, line).1, d),
        ),
    decreases s.len() - i,
{
    let t = p + s;
    let j = p.len() + i;
    let (ts, es) = lex_from(s, i, line);
    if i == s.len() {
        assert(shift_tokens(ts, p.len()) =~= lex_from(t, j, line + d).0);
        assert(shift_errors(es, d) =~= lex_from(t, j, line + d).1);
    } else {
        lemma_step_shift(p, s, i);
        lemma_step_len(s, i);
        let st = lex_step(s, i);
        lemma_lex_shift(p, s, i + st.len, line + st.lines, d);
        let rest = lex_from(s, i + st.len, line + st.lines);
        assert((line + d + st.lines) as nat == ((line + st.lines) as nat + d) as nat);
        let toks = match st.kind {
            Some(k) => seq![(k, s.subrange(i, i + st.len), Span { offset: i as usize, length: st.len as usize })],
            None => seq![],
        };
        let errs = match st.error {
            Some(m) => seq![((line + st.lines) as nat, m)],
            None => seq![],
        };
        assert(ts == toks + rest.0);
        assert(es == errs + rest.1);
        assert(shift_tokens(toks + rest.0, p.len()) =~= shift_tokens(toks, p.len()) + shift_tokens(rest.0, p.len()));
        assert(shift_errors(errs + rest.1, d) =~= shift_errors(errs, d) + shift_errors(rest.1, d));
        assert(lex_from(t, j, line + d).0 =~= shift_tokens(ts, p.len()));
        assert(lex_from(t, j, line + d).1 =~= shift_errors(es, d));
    }
}

/// A full-line comment scans as if it were absent: a source made of `//`,
/// text without a line break, a line break, and then `s` gives the tokens
/// and errors of `s`, each token further along by the comment line's length
/// and each error one line further down.
pub proof fn comment_line_is_as_if_absent(text: Seq<char>, s: Seq<char>)
    requires
        forall|i: int| 0 <= i < text.len() ==> #[trigger] text[i] != '\n',
        text.len() + s.len() + 3 <= usize::MAX,
    ensures
        lex(seq!['/', '/'] + text + seq!['\n'] + s) == (
            shift_tokens(lex(s).0, text.len() + 3),
            shift_errors(lex(s).1, 1),
        ),
{
    let p = seq!['/', '/'] + text + seq!['\n'];
    let src = p + s;
    assert(src =~= seq!['/', '/'] + text + seq!['\n'] + s);
    assert(src[0] == '/');
    assert(src[1] == '/');
    let nl: int = 2 + text.len() as int;
    assert(src.subrange(2, nl) =~= text);
    assert(src[nl] == '\n');
    comment_is_skipped(src, 0, 1, text);
    assert(lex_step(src, nl) == skip(1, 1));
    assert(lex_from(src, nl, 1).0 =~= lex_from(src, nl + 1, 2).0);
    assert(lex_from(src, nl, 1).1 =~= lex_from(src, nl + 1, 2).1);
    lemma_lex_shift(p, s, 0, 1, 1);
}

/// Scanning always ends with the end-of-input token.
pub proof fn lemma_lex_ends_with_eof(src: Seq<char>, pos: int, line: nat)
    ensures
        lex_from(src, pos, line).0.len() > 0,
        lex_from(src, pos, line).0.last().0 == TokenKind::Eof,
    decreases if pos < src.len() { src.len() - pos } else { 0 },
{
    if !(pos < 0 || pos >= src.len()) {
        let st = lex_step(src, pos);
        assert(st.len >= 1);
        lemma_lex_ends_with_eof(src, pos + st.len, line + st.lines);
    }
}

/// Converts source text into tokens, collecting the lexical errors on the way.
pub struct Scanner {
    source: Vec<char>,
    pub tokens: Vec<Token>,
    start_of_lexeme: usize,
    current: usize,
    line: usize,
    errors: Vec<ScannerError>,
}

pub fn is_alpha(c: char) -> (r: bool)
    ensures
        r == is_alpha_spec(c),
{
    ('a' <= c && c <= 'z') || ('A' <= c && c <= 'Z') || c == '_'
}

fn is_digit_exec(c: char) -> (r: bool)
    ensures
        r == is_digit(c),
{
    '0' <= c && c <= '9'
}

fn single(c: char) -> (r: Option<TokenKind>)
    ensures
        r == single_kind(c),
{
    match c {
        '(' => Some(TokenKind::LeftParen),
        ')' => Some(TokenKind::RightParen),
        '{' => Some(TokenKind::LeftBrace),
        '}' => Some(TokenKind::RightBrace),
        ',' => Some(TokenKind::Comma),
        '.' => Some(TokenKind::Dot),
        '-' => Some(TokenKind::Minus),
        '+' => Some(TokenKind::Plus),
        ';' => Some(TokenKind::Semicolon),
        '*' => Some(TokenKind::Star),
        _ => None,
    }
}

fn pair(c: char) -> (r: Option<(TokenKind, TokenKind)>)
    ensures
        r == pair_kinds(c),
{
    match c {
        '!' => Some((TokenKind::Bang, TokenKind::BangEqual)),
        '=' => Some((TokenKind::Equal, TokenKind::EqualEqual)),
        '<' => Some((TokenKind::Less, TokenKind::LessEqual)),
        '>' => Some((TokenKind::Greater, TokenKind::GreaterEqual)),
        _ => None,
    }
}

fn keyword_of(chars: &Vec<char>, start: usize, end: usize) -> (r: Option<TokenKind>)
    requires
        start <= end <= chars@.len(),
    ensures
        r == keyword(chars@.subrange(start as int, end as int)),
{
    if spells(chars, start, end, "and") {
        Some(TokenKind::And)
    } else if spells(chars, start, end, "class") {
        Some(TokenKind::Class)
    } else if spells(chars, start, end, "else") {
        Some(TokenKind::Else)
    } else if spells(chars, start, end, "false") {
        Some(TokenKind::False)
    } else if spells(chars, start, end, "for") {
        Some(TokenKind::For)
    } else if spells(chars, start, end, "fn") {
        Some(TokenKind::Fn)
    } else if spells(chars, start, end, "if") {
        Some(TokenKind::If)
    } else if spells(chars, start, end, "nil") {
        Some(TokenKind::Nil)
    } else if spells(chars, start, end, "or") {
        Some(TokenKind::Or)
    } else if spells(chars, start, end, "print") {
        Some(TokenKind::Print)
    } else if spells(chars, start, end, "return") {
        Some(TokenKind::Return)
    } else if spells(chars, start, end, "super") {
        Some(TokenKind::Super)
    } else if spells(chars, start, end, "self") {
        Some(TokenKind::Self_)
    } else if spells(chars, start, end, "true") {
        Some(TokenKind::True)
    } else if spells(chars, start, end, "let") {
        Some(TokenKind::Let)
    } else if spells(chars, start, end, "while") {
        Some(TokenKind::While)
    } else {
        None
    }
}

proof fn lemma_newlines_push(s: Seq<char>, c: char)
    ensures
        newlines(s.push(c)) == newlines(s) + newline_count(c),
{
    assert(s.push(c).drop_last() =~= s);
}

proof fn lemma_newlines_bound(s: Seq<char>)
    ensures
        newlines(s) <= s.len(),
    decreases s.len(),
{
    if s.len() > 0 {
        lemma_newlines_bound(s.drop_last());
    }
}

impl Scanner {
    /// The source text being scanned, as characters.
    pub closed spec fn source(&self) -> Seq<char> {
        self.source@
    }

    /// The scanner as `new` leaves it: at the start, on line 1, with nothing
    /// emitted.
    pub closed spec fn is_fresh(&self) -> bool {
        &&& self.current == 0
        &&& self.start_of_lexeme == 0
        &&& self.line == 1
        &&& self.tokens@.len() == 0
        &&& self.errors@.len() == 0
        &&& self.source@.len() < usize::MAX
    }

    /// The tokens emitted so far.
    pub closed spec fn token_log(&self) -> Seq<Token> {
        self.tokens@
    }

    /// The errors collected so far.
    pub closed spec fn error_log(&self) -> Seq<ScannerError> {
        self.errors@
    }

    spec fn inv(&self) -> bool {
        &&& self.current <= self.source@.len() < usize::MAX
        &&& self.line <= self.current + 1
    }

    pub fn new(source: &str) -> (r: Self)
        requires
            source@.len() < usize::MAX,
        ensures
            r.source() == source@,
            r.is_fresh(),
    {
        Scanner {
            source: chars_of(source),
            tokens: Vec::new(),
            start_of_lexeme: 0,
            current: 0,
            line: 1,
            errors: Vec::new(),
        }
    }

    /// Scans the whole source. The tokens, the last of them the end-of-input
    /// token, stay in `tokens` whether or not errors were found; the result is
    /// `Ok` exactly when no error was found, and `Err` holds all of them.
    pub fn scan_tokens(&mut self) -> (r: Result<&Vec<Token>, &Vec<ScannerError>>)
        requires
            old(self).is_fresh(),
        ensures
            token_views(final(self).token_log()) == lex(old(self).source()).0,
            error_views(final(self).error_log()) == lex(old(self).source()).1,
            r is Ok <==> lex(old(self).source()).1.len() == 0,
            r matches Ok(ts) ==> ts@ == final(self).token_log(),
            r matches Err(es) ==> es@ == final(self).error_log(),
    {
        let ghost src = self.source@;
        assert(token_views(self.tokens@) =~= seq![]);
        assert(error_views(self.errors@) =~= seq![]);
        while self.current < self.source.len()
            invariant
                self.inv(),
                self.source@ == src,
                lex(src) == (
                    token_views(self.tokens@) + lex_from(src, self.current as int, self.line as nat).0,
                    error_views(self.errors@) + lex_from(src, self.current as int, self.line as nat).1,
                ),
            decreases src.len() - self.current,
        {
            self.start_of_lexeme = self.current;
            let ghost toks0 = token_views(self.tokens@);
            let ghost errs0 = error_views(self.errors@);
            let ghost pos = self.current as int;
            let ghost line0 = self.line as nat;
            self.scan_token();
            proof {
                let st = lex_step(src, pos);
                let t = match st.kind {
                    Some(k) => seq![(k, src.subrange(pos, pos + st.len), Span { offset: pos as usize, length: st.len as usize })],
                    None => seq![],
                };
                let e = match st.error {
                    Some(m) => seq![((line0 + st.lines) as nat, m)],
                    None => seq![],
                };
                assert(token_views(self.tokens@) =~= toks0 + t);
                assert(error_views(self.errors@) =~= errs0 + e);
                assert(toks0 + (t + lex_from(src, self.current as int, self.line as nat).0)
                    =~= toks0 + t + lex_from(src, self.current as int, self.line as nat).0);
                assert(errs0 + (e + lex_from(src, self.current as int, self.line as nat).1)
                    =~= errs0 + e + lex_from(src, self.current as int, self.line as nat).1);
            }
        }
        self.start_of_lexeme = self.current;
        let ghost toks0 = token_views(self.tokens@);
        assert(lex_from(src, self.current as int, self.line as nat).0 =~= seq![
            (TokenKind::Eof, Seq::<char>::empty(), Span { offset: src.len() as usize, length: 0 }),
        ]);
        assert(lex_from(src, self.current as int, self.line as nat).1 =~= seq![]);
        self.add_token(TokenKind::Eof);
        assert(src.subrange(self.current as int, self.current as int) =~= Seq::<char>::empty());
        assert(token_views(self.tokens@) =~= lex(src).0);
        assert(error_views(self.errors@) =~= lex(src).1);
        if self.errors.len() == 0 {
            Ok(&self.tokens)
        } else {
            Err(&self.errors)
        }
    }

    /// Hands over the tokens and the errors.
    pub fn into_parts(self) -> (r: (Vec<Token>, Vec<ScannerError>))
        ensures
            r.0@ == self.token_log(),
            r.1@ == self.error_log(),
    {
        (self.tokens, self.errors)
    }

    /// Scans one lexeme, starting at the current character.
    fn scan_token(&mut self)
        requires
            old(self).inv(),
            old(self).start_of_lexeme == old(self).current < old(self).source@.len(),
        ensures
            final(self).inv(),
            final(self).source@ == old(self).source@,
            ({
                let st = lex_step(old(self).source@, old(self).current as int);
                let pos = old(self).current as int;
                &&& final(self).current == pos + st.len
                &&& final(self).line == old(self).line + st.lines
                &&& token_views(final(self).tokens@) == token_views(old(self).tokens@) + match st.kind {
                    Some(k) => seq![(k, old(self).source@.subrange(pos, pos + st.len), Span { offset: pos as usize, length: st.len as usize })],
                    None => seq![],
                }
                &&& error_views(final(self).errors@) == error_views(old(self).errors@) + match st.error {
                    Some(m) => seq![((old(self).line + st.lines) as nat, m)],
                    None => seq![],
                }
            }),
    {
        let ghost src = self.source@;
        let ghost pos = self.current as int;
        let c = self.advance();
        assert(token_views(self.tokens@) =~= token_views(old(self).tokens@) + seq![]);
        assert(error_views(self.errors@) =~= error_views(old(self).errors@) + seq![]);
        if let Some(k) = single(c) {
            self.add_token(k);
        } else if let Some((alone, with_eq)) = pair(c) {
            if self.match_advance('=') {
                self.add_token(with_eq);
            } else {
                self.add_token(alone);
            }
        } else if c == '/' {
            if self.match_advance('/') {
                // A comment runs to the end of the line.
                while self.peek() != '\n' && !self.eof()
                    invariant
                        self.inv(),
                        self.source@ == src,
                        self.tokens@ == old(self).tokens@,
                        self.errors@ == old(self).errors@,
                        self.line == old(self).line,
                        pos + 2 <= self.current,
                        run_until(src, pos + 2, '\n') == (self.current - (pos + 2)) + run_until(src, self.current as int, '\n'),
                    decreases src.len() - self.current,
                {
                    self.advance();
                }
            } else {
                self.add_token(TokenKind::Slash);
            }
        } else if c == ' ' || c == '\r' || c == '\t' {
        } else if c == '\n' {
            self.line = self.line + 1;
        } else if c == '"' {
            self.literal_string();
        } else if is_digit_exec(c) {
            self.literal_number();
        } else if is_alpha(c) && c != '_' {
            self.identifier();
        } else {
            self.push_error("Unexpected character");
        }
    }

    fn literal_string(&mut self)
        requires
            old(self).inv(),
            old(self).start_of_lexeme + 1 == old(self).current <= old(self).source@.len(),
            old(self).source@[old(self).start_of_lexeme as int] == '"',
        ensures
            final(self).inv(),
            final(self).source@ == old(self).source@,
            ({
                let src = old(self).source@;
                let pos = old(self).start_of_lexeme as int;
                let st = lex_step(src, pos);
                &&& final(self).current == pos + st.len
                &&& final(self).line == old(self).line + st.lines
                &&& token_views(final(self).tokens@) == token_views(old(self).tokens@) + match st.kind {
                    Some(k) => seq![(k, src.subrange(pos, pos + st.len), Span { offset: pos as usize, length: st.len as usize })],
                    None => seq![],
                }
                &&& error_views(final(self).errors@) == error_views(old(self).errors@) + match st.error {
                    Some(m) => seq![((old(self).line + st.lines) as nat, m)],
                    None => seq![],
                }
            }),
    {
        let ghost src = self.source@;
        let ghost pos = self.start_of_lexeme as int;
        while self.peek() != '"' && !self.eof()
            invariant
                self.inv(),
                self.source@ == src,
                self.tokens@ == old(self).tokens@,
                self.errors@ == old(self).errors@,
                self.start_of_lexeme == pos,
                pos + 1 <= self.current,
                run_until(src, pos + 1, '"') == (self.current - (pos + 1)) + run_until(src, self.current as int, '"'),
                self.line == old(self).line + newlines(src.subrange(pos + 1, self.current as int)),
            decreases src.len() - self.current,
        {
            proof {
                lemma_newlines_push(src.subrange(pos + 1, self.current as int), src[self.current as int]);
                assert(src.subrange(pos + 1, self.current + 1) =~= src.subrange(pos + 1, self.current as int).push(src[self.current as int]));
                lemma_newlines_bound(src.subrange(pos + 1, self.current as int));
            }
            let c = self.advance();
            if c == '\n' {
                self.line = self.line + 1;
            }
        }
        proof {
            lemma_newlines_bound(src.subrange(pos + 1, self.current as int));
        }
        if self.eof() {
            self.push_error("Unterminated string.");
            return;
        }
        // The closing quote.
        self.advance();
        self.add_token(TokenKind::String);
    }

    fn literal_number(&mut self)
        requires
            old(self).inv(),
            old(self).start_of_lexeme + 1 == old(self).current <= old(self).source@.len(),
            is_digit(old(self).source@[old(self).start_of_lexeme as int]),
        ensures
            final(self).inv(),
            final(self).source@ == old(self).source@,
            final(self).line == old(self).line,
            final(self).errors@ == old(self).errors@,
            final(self).current == old(self).current + number_run(old(self).source@, old(self).current as int),
            token_views(final(self).tokens@) == token_views(old(self).tokens@) + seq![(
                TokenKind::Number,
                old(self).source@.subrange(old(self).start_of_lexeme as int, final(self).current as int),
                Span { offset: old(self).start_of_lexeme, length: (final(self).current - old(self).start_of_lexeme) as usize },
            )],
    {
        let ghost src = self.source@;
        let ghost i = self.current as int;
        while is_digit_exec(self.peek())
            invariant
                self.inv(),
                self.source@ == src,
                self.tokens@ == old(self).tokens@,
                self.errors@ == old(self).errors@,
                self.line == old(self).line,
                self.start_of_lexeme == old(self).start_of_lexeme,
                i <= self.current,
                digit_run(src, i) == (self.current - i) + digit_run(src, self.current as int),
            decreases src.len() - self.current,
        {
            self.advance();
        }
        let ghost dot = self.current as int;
        if self.peek() == '.' && is_digit_exec(self.peek_next()) {
            self.advance();
            while is_digit_exec(self.peek())
                invariant
                    self.inv(),
                    self.source@ == src,
                    self.tokens@ == old(self).tokens@,
                    self.errors@ == old(self).errors@,
                    self.line == old(self).line,
                    self.start_of_lexeme == old(self).start_of_lexeme,
                    dot + 1 <= self.current,
                    digit_run(src, dot + 1) == (self.current - (dot + 1)) + digit_run(src, self.current as int),
                decreases src.len() - self.current,
            {
                self.advance();
            }
        }
        self.add_token(TokenKind::Number);
    }

    fn identifier(&mut self)
        requires
            old(self).inv(),
            old(self).start_of_lexeme + 1 == old(self).current <= old(self).source@.len(),
        ensures
            final(self).inv(),
            final(self).source@ == old(self).source@,
            final(self).line == old(self).line,
            final(self).errors@ == old(self).errors@,
            final(self).current == old(self).current + alpha_run(old(self).source@, old(self).current as int),
            token_views(final(self).tokens@) == token_views(old(self).tokens@) + seq![(
                word_kind(old(self).source@.subrange(old(self).start_of_lexeme as int, final(self).current as int)),
                old(self).source@.subrange(old(self).start_of_lexeme as int, final(self).current as int),
                Span { offset: old(self).start_of_lexeme, length: (final(self).current - old(self).start_of_lexeme) as usize },
            )],
    {
        let ghost src = self.source@;
        let ghost i = self.current as int;
        while is_alpha(self.peek())
            invariant
                self.inv(),
                self.source@ == src,
                self.tokens@ == old(self).tokens@,
                self.errors@ == old(self).errors@,
                self.line == old(self).line,
                self.start_of_lexeme == old(self).start_of_lexeme,
                i <= self.current,
                alpha_run(src, i) == (self.current - i) + alpha_run(src, self.current as int),
            decreases src.len() - self.current,
        {
            self.advance();
        }
        match keyword_of(&self.source, self.start_of_lexeme, self.current) {
            Some(k) => self.add_token(k),
            None => self.add_token(TokenKind::Identifier),
        }
    }

    /// Consumes the current character and returns it.
    fn advance(&mut self) -> (c: char)
        requires
            old(self).inv(),
            old(self).current < old(self).source@.len(),
        ensures
            c == old(self).source@[old(self).current as int],
            final(self).current == old(self).current + 1,
            final(self).source@ == old(self).source@,
            final(self).tokens@ == old(self).tokens@,
            final(self).errors@ == old(self).errors@,
            final(self).line == old(self).line,
            final(self).start_of_lexeme == old(self).start_of_lexeme,
            final(self).inv(),
    {
        let c = self.source[self.current];
        self.current = self.current + 1;
        c
    }

    /// Consumes the current character only where it is `expected`.
    fn match_advance(&mut self, expected: char) -> (r: bool)
        requires
            old(self).inv(),
        ensures
            r == (old(self).current < old(self).source@.len() && old(self).source@[old(self).current as int] == expected),
            final(self).current == old(self).current + if r { 1usize } else { 0usize },
            final(self).source@ == old(self).source@,
            final(self).tokens@ == old(self).tokens@,
            final(self).errors@ == old(self).errors@,
            final(self).line == old(self).line,
            final(self).start_of_lexeme == old(self).start_of_lexeme,
            final(self).inv(),
    {
        if self.eof() || self.source[self.current] != expected {
            false
        } else {
            self.current = self.current + 1;
            true
        }
    }

    /// The current character, or `'\0'` at the end.
    fn peek(&self) -> (c: char)
        requires
            self.inv(),
        ensures
            self.current < self.source@.len() ==> c == self.source@[self.current as int],
            self.current >= self.source@.len() ==> c == '\0',
    {
        self.char_at(self.current)
    }

    /// The character after the current one, or `'\0'` past the end.
    fn peek_next(&self) -> (c: char)
        requires
            self.inv(),
        ensures
            self.current + 1 < self.source@.len() ==> c == self.source@[self.current + 1],
            self.current + 1 >= self.source@.len() ==> c == '\0',
    {
        if self.current + 1 >= self.source.len() {
            '\0'
        } else {
            self.char_at(self.current + 1)
        }
    }

    fn char_at(&self, index: usize) -> (c: char)
        ensures
            index < self.source@.len() ==> c == self.source@[index as int],
            index >= self.source@.len() ==> c == '\0',
    {
        if index >= self.source.len() {
            '\0'
        } else {
            self.source[index]
        }
    }

    fn eof(&self) -> (r: bool)
        ensures
            r == (self.current >= self.source@.len()),
    {
        self.current >= self.source.len()
    }

    /// Emits a token of `kind` for the lexeme from its start to the current
    /// character.
    fn add_token(&mut self, kind: TokenKind)
        requires
            old(self).inv(),
            old(self).start_of_lexeme <= old(self).current,
        ensures
            final(self).inv(),
            final(self).source@ == old(self).source@,
            final(self).current == old(self).current,
            final(self).line == old(self).line,
            final(self).errors@ == old(self).errors@,
            final(self).start_of_lexeme == old(self).start_of_lexeme,
            token_views(final(self).tokens@) == token_views(old(self).tokens@) + seq![(
                kind,
                old(self).source@.subrange(old(self).start_of_lexeme as int, old(self).current as int),
                Span { offset: old(self).start_of_lexeme, length: (old(self).current - old(self).start_of_lexeme) as usize },
            )],
    {
        let lexeme = string_of(&self.source, self.start_of_lexeme, self.current);
        let span = Span::new(self.start_of_lexeme, self.current - self.start_of_lexeme);
        let ghost before = self.tokens@;
        self.tokens.push(Token::new(kind, lexeme.as_str(), span));
        assert(token_views(self.tokens@) =~= token_views(before) + seq![(
            kind,
            self.source@.subrange(self.start_of_lexeme as int, self.current as int),
            span,
        )]);
    }

    /// Records an error on the current line.
    fn push_error(&mut self, message: &str)
        requires
            old(self).inv(),
        ensures
            final(self).inv(),
            final(self).source@ == old(self).source@,
            final(self).current == old(self).current,
            final(self).line == old(self).line,
            final(self).tokens@ == old(self).tokens@,
            final(self).start_of_lexeme == old(self).start_of_lexeme,
            error_views(final(self).errors@) == error_views(old(self).errors@) + seq![(old(self).line as nat, message@)],
    {
        let ghost before = self.errors@;
        self.errors.push(ScannerError { line: self.line, message: message.to_owned() });
        assert(error_views(self.errors@) =~= error_views(before) + seq![(self.line as nat, message@)]);
    }
}

} // verus!
