//! The tokenizer. It scans a byte string once and produces a token list
//! that always ends in exactly one end-of-input token. Operators may be
//! written symbolically (`+ - * /`) or as English words or phrases
//! (`plus`, `minus`, `negative`, `times`, `x`, `multiplied by`, `over`,
//! `divided by`); unrecognised words become `Ident` tokens and any other
//! byte becomes a one-byte `Illegal` token, so tokenizing never fails.
use vstd::prelude::*;
use vstd::slice::slice_to_vec;

verus! {

/// The lexical classes. `Eof` terminates every token list; `Ident` and
/// `Illegal` carry no syntactic weight and are skipped by the parser.
#[derive(Clone, Copy, PartialEq, Eq, Structural, Debug)]
pub enum TokenKind {
    Ident,
    Integer,
    Float,
    Minus,
    Times,
    Over,
    Plus,
    Eof,
    Illegal,
}

/// A classified, positioned lexical unit: its text is the byte range
/// `start .. start + len` of the input it was scanned from.
#[derive(Clone, Copy, PartialEq, Eq, Structural, Debug)]
pub struct Token {
    pub start: usize,
    pub len: usize,
    pub kind: TokenKind,
}

impl Token {
    /// The token's text within the input it came from.
    pub open spec fn text(self, s: Seq<u8>) -> Seq<u8> {
        s.subrange(self.start as int, self.start + self.len)
    }
}

/// ASCII whitespace: space, tab, line feed, form feed, carriage return.
pub open spec fn is_space(b: u8) -> bool {
    b == 32 || b == 9 || b == 10 || b == 12 || b == 13
}

/// ASCII decimal digit.
pub open spec fn is_digit(b: u8) -> bool {
    48 <= b <= 57
}

/// ASCII letter.
pub open spec fn is_alpha(b: u8) -> bool {
    (65 <= b <= 90) || (97 <= b <= 122)
}

/// A byte that may continue a word run: a letter or an embedded space.
pub open spec fn is_wordish(b: u8) -> bool {
    is_alpha(b) || b == 32
}

/// `b - a` clamped to zero: the measure used by scanning recursions.
pub open spec fn span(a: int, b: int) -> int {
    if b - a >= 0 {
        b - a
    } else {
        0
    }
}

/// The number of consecutive whitespace bytes starting at `i`.
pub open spec fn space_run(s: Seq<u8>, i: int) -> nat
    decreases span(i, s.len() as int),
{
    if 0 <= i < s.len() && is_space(s[i]) {
        1 + space_run(s, i + 1)
    } else {
        0
    }
}

/// The number of consecutive digit bytes starting at `i`.
pub open spec fn digit_run(s: Seq<u8>, i: int) -> nat
    decreases span(i, s.len() as int),
{
    if 0 <= i < s.len() && is_digit(s[i]) {
        1 + digit_run(s, i + 1)
    } else {
        0
    }
}

/// The number of consecutive letter-or-space bytes starting at `i`.
pub open spec fn word_run(s: Seq<u8>, i: int) -> nat
    decreases span(i, s.len() as int),
{
    if 0 <= i < s.len() && is_wordish(s[i]) {
        1 + word_run(s, i + 1)
    } else {
        0
    }
}

/// The number of consecutive letter bytes starting at `i`.
pub open spec fn alpha_run(s: Seq<u8>, i: int) -> nat
    decreases span(i, s.len() as int),
{
    if 0 <= i < s.len() && is_alpha(s[i]) {
        1 + alpha_run(s, i + 1)
    } else {
        0
    }
}

/// Shorthand for building a token in specifications.
pub open spec fn tok(start: int, len: int, kind: TokenKind) -> Token {
    Token { start: start as usize, len: len as usize, kind }
}

/// "plus" in ASCII.
pub open spec fn word_plus() -> Seq<u8> {
    seq![112u8, 108u8, 117u8, 115u8]
}

/// "minus" in ASCII.
pub open spec fn word_minus() -> Seq<u8> {
    seq![109u8, 105u8, 110u8, 117u8, 115u8]
}

/// "negative" in ASCII.
pub open spec fn word_negative() -> Seq<u8> {
    seq![110u8, 101u8, 103u8, 97u8, 116u8, 105u8, 118u8, 101u8]
}

/// "times" in ASCII.
pub open spec fn word_times() -> Seq<u8> {
    seq![116u8, 105u8, 109u8, 101u8, 115u8]
}

/// "x" in ASCII.
pub open spec fn word_x() -> Seq<u8> {
    seq![120u8]
}

/// "multiplied by" in ASCII.
pub open spec fn phrase_multiplied_by() -> Seq<u8> {
    seq![109u8, 117u8, 108u8, 116u8, 105u8, 112u8, 108u8, 105u8, 101u8, 100u8, 32u8, 98u8, 121u8]
}

/// "over" in ASCII.
pub open spec fn word_over() -> Seq<u8> {
    seq![111u8, 118u8, 101u8, 114u8]
}

/// "divided by" in ASCII.
pub open spec fn phrase_divided_by() -> Seq<u8> {
    seq![100u8, 105u8, 118u8, 105u8, 100u8, 101u8, 100u8, 32u8, 98u8, 121u8]
}

/// Classifies one whitespace-free word against the single-word operator
/// table; anything unrecognised is an `Ident`.
pub open spec fn word_kind(w: Seq<u8>) -> TokenKind {
    if w == word_plus() {
        TokenKind::Plus
    } else if w == word_minus() || w == word_negative() {
        TokenKind::Minus
    } else if w == word_times() || w == word_x() {
        TokenKind::Times
    } else if w == word_over() {
        TokenKind::Over
    } else {
        TokenKind::Ident
    }
}

/// Classifies a whole trimmed word run against the phrase table, which
/// also holds the two-word phrases.
pub open spec fn phrase_kind(w: Seq<u8>) -> Option<TokenKind> {
    if w == word_plus() {
        Some(TokenKind::Plus)
    } else if w == word_minus() || w == word_negative() {
        Some(TokenKind::Minus)
    } else if w == word_times() || w == word_x() || w == phrase_multiplied_by() {
        Some(TokenKind::Times)
    } else if w == word_over() || w == phrase_divided_by() {
        Some(TokenKind::Over)
    } else {
        None
    }
}

/// Drops trailing spaces; word runs never start with one.
pub open spec fn trim_end(t: Seq<u8>) -> Seq<u8>
    decreases t.len(),
{
    if t.len() > 0 && t.last() == 32 {
        trim_end(t.drop_last())
    } else {
        t
    }
}

/// The tokens of a word run `s[i .. end]` that did not match a phrase as
/// a whole: one token per word, each at its own offset.
pub open spec fn word_tokens(s: Seq<u8>, i: int, end: int) -> Seq<Token>
    decreases span(i, end),
{
    if i < end && 0 <= i < s.len() {
        if is_alpha(s[i]) {
            let wlen = 1 + alpha_run(s, i + 1);
            seq![tok(i, wlen as int, word_kind(s.subrange(i, i + wlen)))] + word_tokens(
                s,
                i + wlen,
                end,
            )
        } else {
            word_tokens(s, i + 1, end)
        }
    } else {
        Seq::empty()
    }
}

/// The tokens that one scanning step emits at position `j`, which must
/// hold a non-whitespace byte. All steps emit at least one token; a word
/// run may emit several.
pub open spec fn step_tokens(s: Seq<u8>, j: int) -> Seq<Token> {
    let b = s[j];
    if b == 43 {
        seq![tok(j, 1, TokenKind::Plus)]
    } else if b == 45 {
        seq![tok(j, 1, TokenKind::Minus)]
    } else if b == 42 {
        seq![tok(j, 1, TokenKind::Times)]
    } else if b == 47 {
        seq![tok(j, 1, TokenKind::Over)]
    } else if is_digit(b) {
        let de = j + 1 + digit_run(s, j + 1);
        if de < s.len() && s[de] == 46 {
            let fe = de + 1 + digit_run(s, de + 1);
            seq![tok(j, fe - j, TokenKind::Float)]
        } else {
            seq![tok(j, de - j, TokenKind::Integer)]
        }
    } else if is_alpha(b) {
        let we = j + 1 + word_run(s, j + 1);
        let run = s.subrange(j, we);
        match phrase_kind(trim_end(run)) {
            Some(k) => seq![tok(j, we - j, k)],
            None => word_tokens(s, j, we),
        }
    } else {
        seq![tok(j, 1, TokenKind::Illegal)]
    }
}

/// Where scanning resumes after the step at position `j`.
pub open spec fn step_next(s: Seq<u8>, j: int) -> int {
    let b = s[j];
    if b == 43 || b == 45 || b == 42 || b == 47 {
        j + 1
    } else if is_digit(b) {
        let de = j + 1 + digit_run(s, j + 1);
        if de < s.len() && s[de] == 46 {
            de + 1 + digit_run(s, de + 1)
        } else {
            de
        }
    } else if is_alpha(b) {
        j + 1 + word_run(s, j + 1)
    } else {
        j + 1
    }
}

/// The token list produced from position `i` on: whitespace is skipped,
/// then either the end-of-input token closes the list or one step's
/// tokens are emitted and scanning resumes after them.
pub open spec fn spec_tokenize_at(s: Seq<u8>, i: int) -> Seq<Token>
    decreases span(i, s.len() as int),
{
    let j = i + space_run(s, i);
    if j >= s.len() {
        seq![tok(s.len() as int, 0, TokenKind::Eof)]
    } else {
        step_tokens(s, j) + spec_tokenize_at(s, step_next(s, j))
    }
}

/// The complete token list of an input.
pub open spec fn spec_tokenize(s: Seq<u8>) -> Seq<Token> {
    spec_tokenize_at(s, 0)
}

/// Every byte of a run satisfies its class, and a run stays inside the
/// input.
pub proof fn lemma_digit_run(s: Seq<u8>, i: int)
    requires
        0 <= i <= s.len(),
    ensures
        i + digit_run(s, i) <= s.len(),
        forall|k: int| i <= k < i + digit_run(s, i) ==> is_digit(s[k]),
        i + digit_run(s, i) < s.len() ==> !is_digit(s[i + digit_run(s, i)]),
    decreases s.len() - i,
{
    if i < s.len() && is_digit(s[i]) {
        lemma_digit_run(s, i + 1);
    }
}

pub proof fn lemma_word_run(s: Seq<u8>, i: int)
    requires
        0 <= i <= s.len(),
    ensures
        i + word_run(s, i) <= s.len(),
        forall|k: int| i <= k < i + word_run(s, i) ==> is_wordish(s[k]),
        i + word_run(s, i) < s.len() ==> !is_wordish(s[i + word_run(s, i)]),
    decreases s.len() - i,
{
    if i < s.len() && is_wordish(s[i]) {
        lemma_word_run(s, i + 1);
    }
}

pub proof fn lemma_alpha_run(s: Seq<u8>, i: int)
    requires
        0 <= i <= s.len(),
    ensures
        i + alpha_run(s, i) <= s.len(),
        forall|k: int| i <= k < i + alpha_run(s, i) ==> is_alpha(s[k]),
        i + alpha_run(s, i) < s.len() ==> !is_alpha(s[i + alpha_run(s, i)]),
    decreases s.len() - i,
{
    if i < s.len() && is_alpha(s[i]) {
        lemma_alpha_run(s, i + 1);
    }
}

/// The word tokens of a run are operators or identifiers, never `Eof`,
/// and a run that starts with a letter yields at least one of them.
pub proof fn lemma_word_tokens_no_eof(s: Seq<u8>, i: int, end: int)
    ensures
        forall|k: int|
            0 <= k < word_tokens(s, i, end).len() ==> (#[trigger] word_tokens(s, i, end)[k]).kind
                != TokenKind::Eof,
        i < end && 0 <= i < s.len() && is_alpha(s[i]) ==> word_tokens(s, i, end).len() > 0,
    decreases span(i, end),
{
    if i < end && 0 <= i < s.len() {
        if is_alpha(s[i]) {
            let wlen = 1 + alpha_run(s, i + 1);
            lemma_word_tokens_no_eof(s, i + wlen, end);
        } else {
            lemma_word_tokens_no_eof(s, i + 1, end);
        }
    }
}

/// One scanning step emits at least one token and never an `Eof`.
pub proof fn lemma_step_tokens_no_eof(s: Seq<u8>, j: int)
    requires
        0 <= j < s.len(),
    ensures
        step_tokens(s, j).len() > 0,
        forall|k: int|
            0 <= k < step_tokens(s, j).len() ==> (#[trigger] step_tokens(s, j)[k]).kind
                != TokenKind::Eof,
{
    lemma_word_tokens_no_eof(s, j, j + 1 + word_run(s, j + 1));
}


/// The text of an `Integer` token: one or more digits.
pub open spec fn is_int_text(t: Seq<u8>) -> bool {
    t.len() >= 1 && forall|k: int| 0 <= k < t.len() ==> is_digit(#[trigger] t[k])
}

/// The first index at or after `i` holding a dot, or the length.
pub open spec fn dot_at(t: Seq<u8>, i: int) -> int
    decreases span(i, t.len() as int),
{
    if 0 <= i < t.len() {
        if t[i] == 46 {
            i
        } else {
            dot_at(t, i + 1)
        }
    } else {
        t.len() as int
    }
}

/// The position of the first dot of a `Float` token's text.
pub open spec fn dot_pos(t: Seq<u8>) -> int {
    dot_at(t, 0)
}

/// The dot scan stays inside the text, lands on a dot when one exists,
/// and passes no dot on the way.
pub proof fn lemma_dot_at_found(t: Seq<u8>, i: int)
    requires
        0 <= i <= t.len(),
    ensures
        i <= dot_at(t, i) <= t.len(),
        dot_at(t, i) < t.len() ==> t[dot_at(t, i)] == 46,
        forall|k: int| i <= k < dot_at(t, i) ==> t[k] != 46,
    decreases t.len() - i,
{
    if i < t.len() && t[i] != 46 {
        lemma_dot_at_found(t, i + 1);
    }
}

/// The text of a `Float` token: digits, one dot, then digits (possibly
/// none).
pub open spec fn is_float_text(t: Seq<u8>) -> bool {
    &&& t.len() >= 2
    &&& 1 <= dot_pos(t) < t.len()
    &&& forall|k: int| 0 <= k < t.len() && k != dot_pos(t) ==> is_digit(#[trigger] t[k])
}

/// Every token points inside its input, and numeric tokens carry
/// numeric text.
pub open spec fn token_shape_ok(t: Token, s: Seq<u8>) -> bool {
    &&& t.start + t.len <= s.len()
    &&& (t.kind == TokenKind::Integer ==> is_int_text(t.text(s)))
    &&& (t.kind == TokenKind::Float ==> is_float_text(t.text(s)))
}

/// What the parser may assume of any tokenizer output: it is nonempty,
/// exactly its last token is `Eof` and sits at the input's length, and
/// every token is well shaped.
pub open spec fn wf_tokens(toks: Seq<Token>, s: Seq<u8>) -> bool {
    &&& toks.len() >= 1
    &&& toks.last().kind == TokenKind::Eof
    &&& toks.last().start == s.len()
    &&& forall|i: int| 0 <= i < toks.len() - 1 ==> (#[trigger] toks[i]).kind != TokenKind::Eof
    &&& forall|i: int| 0 <= i < toks.len() ==> token_shape_ok(#[trigger] toks[i], s)
}

/// Scanning for the dot lands on the first one.
pub proof fn lemma_dot_at(t: Seq<u8>, i: int, d: int)
    requires
        0 <= i <= d < t.len(),
        t[d] == 46,
        forall|k: int| i <= k < d ==> t[k] != 46,
    ensures
        dot_at(t, i) == d,
    decreases d - i,
{
    if i < d {
        lemma_dot_at(t, i + 1, d);
    }
}

/// Word tokens lie inside the input and are never numeric or `Eof`.
pub proof fn lemma_word_tokens_shape(s: Seq<u8>, i: int, end: int)
    requires
        0 <= i,
        end <= s.len(),
        s.len() <= usize::MAX,
    ensures
        forall|k: int|
            0 <= k < word_tokens(s, i, end).len() ==> token_shape_ok(
                #[trigger] word_tokens(s, i, end)[k],
                s,
            ),
    decreases span(i, end),
{
    if i < end && 0 <= i < s.len() {
        if is_alpha(s[i]) {
            let wlen = 1 + alpha_run(s, i + 1);
            lemma_alpha_run(s, i + 1);
            lemma_word_tokens_shape(s, i + wlen, end);
            let w = s.subrange(i, i + wlen);
            let head = tok(i, wlen as int, word_kind(w));
            let rest = word_tokens(s, i + wlen, end);
            assert(word_tokens(s, i, end) == seq![head] + rest);
            assert(word_kind(w) != TokenKind::Integer && word_kind(w) != TokenKind::Float);
            assert(token_shape_ok(head, s));
            assert forall|k: int| 0 <= k < word_tokens(s, i, end).len() implies token_shape_ok(
                word_tokens(s, i, end)[k],
                s,
            ) by {
                if k == 0 {
                    assert(word_tokens(s, i, end)[k] == head);
                } else {
                    assert(word_tokens(s, i, end)[k] == rest[k - 1]);
                }
            }
        } else {
            lemma_word_tokens_shape(s, i + 1, end);
            assert(word_tokens(s, i, end) == word_tokens(s, i + 1, end));
            assert forall|k: int| 0 <= k < word_tokens(s, i, end).len() implies token_shape_ok(
                word_tokens(s, i, end)[k],
                s,
            ) by {
                assert(word_tokens(s, i, end)[k] == word_tokens(s, i + 1, end)[k]);
            }
        }
    } else {
        assert(word_tokens(s, i, end) == Seq::<Token>::empty());
    }
}

/// One step's tokens are well shaped.
proof fn lemma_step_tokens_shape(s: Seq<u8>, j: int)
    requires
        0 <= j < s.len(),
        s.len() <= usize::MAX,
    ensures
        forall|k: int|
            0 <= k < step_tokens(s, j).len() ==> token_shape_ok(#[trigger] step_tokens(s, j)[k], s),
{
    let b = s[j];
    if b == 43 || b == 45 || b == 42 || b == 47 {
        assert(token_shape_ok(step_tokens(s, j)[0], s));
    } else if is_digit(b) {
        lemma_digit_run(s, j + 1);
        let de = j + 1 + digit_run(s, j + 1);
        if de < s.len() && s[de] == 46 {
            lemma_digit_run(s, de + 1);
            let fe = de + 1 + digit_run(s, de + 1);
            let t = s.subrange(j, fe);
            assert(forall|k: int| 0 <= k < t.len() ==> t[k] == s[j + k]);
            assert(t[de - j] == 46);
            assert(forall|k: int| 0 <= k < de - j ==> t[k] != 46);
            lemma_dot_at(t, 0, de - j);
            assert(is_float_text(t));
            assert(step_tokens(s, j) == seq![tok(j, fe - j, TokenKind::Float)]);
            assert(tok(j, fe - j, TokenKind::Float).text(s) == t);
            assert(token_shape_ok(step_tokens(s, j)[0], s));
        } else {
            let t = s.subrange(j, de);
            assert(forall|k: int| 0 <= k < t.len() ==> t[k] == s[j + k]);
            assert(is_int_text(t));
            assert(step_tokens(s, j) == seq![tok(j, de - j, TokenKind::Integer)]);
            assert(tok(j, de - j, TokenKind::Integer).text(s) == t);
            assert(token_shape_ok(step_tokens(s, j)[0], s));
        }
    } else if is_alpha(b) {
        lemma_word_run(s, j + 1);
        let we = j + 1 + word_run(s, j + 1);
        let run = s.subrange(j, we);
        match phrase_kind(trim_end(run)) {
            Some(k) => {
                assert(k != TokenKind::Integer && k != TokenKind::Float);
                assert(step_tokens(s, j) == seq![tok(j, we - j, k)]);
                assert(token_shape_ok(step_tokens(s, j)[0], s));
            },
            None => {
                lemma_word_tokens_shape(s, j, we);
                assert(step_tokens(s, j) == word_tokens(s, j, we));
            },
        }
    } else {
        assert(token_shape_ok(step_tokens(s, j)[0], s));
    }
}

proof fn lemma_tokenize_wf_at(s: Seq<u8>, i: int)
    requires
        0 <= i,
        s.len() <= usize::MAX,
    ensures
        wf_tokens(spec_tokenize_at(s, i), s),
    decreases span(i, s.len() as int),
{
    let j = i + space_run(s, i);
    if j >= s.len() {
    } else {
        lemma_tokenize_wf_at(s, step_next(s, j));
        lemma_step_tokens_no_eof(s, j);
        lemma_step_tokens_shape(s, j);
        let head = step_tokens(s, j);
        let rest = spec_tokenize_at(s, step_next(s, j));
        let all = spec_tokenize_at(s, i);
        assert(all == head + rest);
        assert(all.last() == rest[rest.len() - 1]);
        assert forall|k: int| 0 <= k < all.len() - 1 implies all[k].kind != TokenKind::Eof by {
            if k < head.len() {
                assert(all[k] == head[k]);
            } else {
                assert(all[k] == rest[k - head.len()]);
            }
        }
        assert forall|k: int| 0 <= k < all.len() implies token_shape_ok(all[k], s) by {
            if k < head.len() {
                assert(all[k] == head[k]);
            } else {
                assert(all[k] == rest[k - head.len()]);
            }
        }
    }
}

/// Tokenizer output is always well formed in the sense of `wf_tokens`.
pub proof fn lemma_tokenize_wf(s: Seq<u8>)
    requires
        s.len() <= usize::MAX,
    ensures
        wf_tokens(spec_tokenize(s), s),
{
    lemma_tokenize_wf_at(s, 0);
}

/// An executable mirror of each byte class.
fn is_space_b(b: u8) -> (r: bool)
    ensures
        r == is_space(b),
{
    b == 32 || b == 9 || b == 10 || b == 12 || b == 13
}

fn is_digit_b(b: u8) -> (r: bool)
    ensures
        r == is_digit(b),
{
    48 <= b && b <= 57
}

fn is_alpha_b(b: u8) -> (r: bool)
    ensures
        r == is_alpha(b),
{
    (65 <= b && b <= 90) || (97 <= b && b <= 122)
}

fn is_wordish_b(b: u8) -> (r: bool)
    ensures
        r == is_wordish(b),
{
    is_alpha_b(b) || b == 32
}

/// Whether `v[a .. b]` equals `w`, byte for byte.
fn bytes_eq(v: &Vec<u8>, a: usize, b: usize, w: &Vec<u8>) -> (r: bool)
    requires
        a <= b <= v@.len(),
    ensures
        r == (v@.subrange(a as int, b as int) == w@),
{
    let ghost sub = v@.subrange(a as int, b as int);
    let n = b - a;
    if n != w.len() {
        return false;
    }
    let mut i: usize = 0;
    while i < n
        invariant
            a <= b <= v@.len(),
            n == b - a == w@.len(),
            sub == v@.subrange(a as int, b as int),
            0 <= i <= n,
            forall|k: int| 0 <= k < i ==> sub[k] == w@[k],
        decreases n - i,
    {
        if v[a + i] != w[i] {
            proof {
                assert(sub[i as int] == v@[a + i]);
            }
            return false;
        }
        i = i + 1;
    }
    proof {
        assert(sub =~= w@);
    }
    true
}

/// Classifies `v[a .. b]` against the whole-run phrase table.
fn match_phrase(v: &Vec<u8>, a: usize, b: usize) -> (r: Option<TokenKind>)
    requires
        a <= b <= v@.len(),
    ensures
        r == phrase_kind(v@.subrange(a as int, b as int)),
{
    let plus: Vec<u8> = vec![112u8, 108u8, 117u8, 115u8];
    let minus: Vec<u8> = vec![109u8, 105u8, 110u8, 117u8, 115u8];
    let negative: Vec<u8> = vec![110u8, 101u8, 103u8, 97u8, 116u8, 105u8, 118u8, 101u8];
    let times: Vec<u8> = vec![116u8, 105u8, 109u8, 101u8, 115u8];
    let letter_x: Vec<u8> = vec![120u8];
    let multiplied_by: Vec<u8> = vec![
        109u8,
        117u8,
        108u8,
        116u8,
        105u8,
        112u8,
        108u8,
        105u8,
        101u8,
        100u8,
        32u8,
        98u8,
        121u8,
    ];
    let over: Vec<u8> = vec![111u8, 118u8, 101u8, 114u8];
    let divided_by: Vec<u8> = vec![
        100u8,
        105u8,
        118u8,
        105u8,
        100u8,
        101u8,
        100u8,
        32u8,
        98u8,
        121u8,
    ];
    proof {
        assert(plus@ =~= word_plus());
        assert(minus@ =~= word_minus());
        assert(negative@ =~= word_negative());
        assert(times@ =~= word_times());
        assert(letter_x@ =~= word_x());
        assert(multiplied_by@ =~= phrase_multiplied_by());
        assert(over@ =~= word_over());
        assert(divided_by@ =~= phrase_divided_by());
    }
    if bytes_eq(v, a, b, &plus) {
        Some(TokenKind::Plus)
    } else if bytes_eq(v, a, b, &minus) || bytes_eq(v, a, b, &negative) {
        Some(TokenKind::Minus)
    } else if bytes_eq(v, a, b, &times) || bytes_eq(v, a, b, &letter_x) || bytes_eq(
        v,
        a,
        b,
        &multiplied_by,
    ) {
        Some(TokenKind::Times)
    } else if bytes_eq(v, a, b, &over) || bytes_eq(v, a, b, &divided_by) {
        Some(TokenKind::Over)
    } else {
        None
    }
}

/// Classifies a single word against the single-word operator table.
fn match_word(v: &Vec<u8>, a: usize, b: usize) -> (r: TokenKind)
    requires
        a <= b <= v@.len(),
    ensures
        r == word_kind(v@.subrange(a as int, b as int)),
{
    let plus: Vec<u8> = vec![112u8, 108u8, 117u8, 115u8];
    let minus: Vec<u8> = vec![109u8, 105u8, 110u8, 117u8, 115u8];
    let negative: Vec<u8> = vec![110u8, 101u8, 103u8, 97u8, 116u8, 105u8, 118u8, 101u8];
    let times: Vec<u8> = vec![116u8, 105u8, 109u8, 101u8, 115u8];
    let letter_x: Vec<u8> = vec![120u8];
    let over: Vec<u8> = vec![111u8, 118u8, 101u8, 114u8];
    proof {
        assert(plus@ =~= word_plus());
        assert(minus@ =~= word_minus());
        assert(negative@ =~= word_negative());
        assert(times@ =~= word_times());
        assert(letter_x@ =~= word_x());
        assert(over@ =~= word_over());
    }
    if bytes_eq(v, a, b, &plus) {
        TokenKind::Plus
    } else if bytes_eq(v, a, b, &minus) || bytes_eq(v, a, b, &negative) {
        TokenKind::Minus
    } else if bytes_eq(v, a, b, &times) || bytes_eq(v, a, b, &letter_x) {
        TokenKind::Times
    } else if bytes_eq(v, a, b, &over) {
        TokenKind::Over
    } else {
        TokenKind::Ident
    }
}

/// The tokenizer's cursor state: the input, the scan position and the
/// tokens produced so far.
pub struct Lexer {
    input: Vec<u8>,
    position: usize,
    read_position: usize,
    tokens: Vec<Token>,
}

impl View for Lexer {
    type V = Seq<u8>;

    /// A lexer is viewed as the input it scans.
    closed spec fn view(&self) -> Seq<u8> {
        self.input@
    }
}

impl Lexer {
    /// The cursor keeps one-byte lookahead and never leaves the input.
    pub closed spec fn wf(self) -> bool {
        &&& self.read_position == self.position + 1
        &&& self.position <= self.input@.len()
        &&& self.input@.len() < usize::MAX
    }

    /// A lexer that has not scanned anything yet.
    pub closed spec fn fresh(self) -> bool {
        self.position == 0 && self.tokens@ =~= Seq::<Token>::empty()
    }

    pub fn new(input: &[u8]) -> (l: Lexer)
        requires
            input@.len() < usize::MAX,
        ensures
            l.wf(),
            l.fresh(),
            l@ == input@,
    {
        Lexer { input: slice_to_vec(input), position: 0, read_position: 1, tokens: Vec::new() }
    }

    /// The byte under the cursor, if any.
    fn char(&self) -> (r: Option<u8>)
        ensures
            r == if self.position < self@.len() {
                Some(self@[self.position as int])
            } else {
                None::<u8>
            },
    {
        if self.position < self.input.len() {
            Some(self.input[self.position])
        } else {
            None
        }
    }

    /// The byte after the cursor, if any.
    fn peek_char(&self) -> (r: Option<u8>)
        requires
            self.wf(),
        ensures
            r == if self.position + 1 < self@.len() {
                Some(self@[self.position + 1])
            } else {
                None::<u8>
            },
    {
        if self.read_position < self.input.len() {
            Some(self.input[self.read_position])
        } else {
            None
        }
    }

    /// Moves the cursor one byte forward.
    fn advance(&mut self)
        requires
            old(self).wf(),
            old(self).position < old(self)@.len(),
        ensures
            final(self).wf(),
            final(self)@ == old(self)@,
            final(self).tokens == old(self).tokens,
            final(self).position == old(self).position + 1,
    {
        self.position = self.read_position;
        self.read_position = self.read_position + 1;
    }

    /// Whether the cursor is on a whitespace byte.
    fn at_space(&self) -> (r: bool)
        ensures
            r == (self.position < self@.len() && is_space(self@[self.position as int])),
    {
        match self.char() {
            Some(b) => is_space_b(b),
            None => false,
        }
    }

    /// Whether the byte after the cursor is a digit.
    fn peek_is_digit(&self) -> (r: bool)
        requires
            self.wf(),
        ensures
            r == (self.position + 1 < self@.len() && is_digit(self@[self.position + 1])),
    {
        match self.peek_char() {
            Some(b) => is_digit_b(b),
            None => false,
        }
    }

    /// Whether the byte after the cursor may continue a word run.
    fn peek_is_wordish(&self) -> (r: bool)
        requires
            self.wf(),
        ensures
            r == (self.position + 1 < self@.len() && is_wordish(self@[self.position + 1])),
    {
        match self.peek_char() {
            Some(b) => is_wordish_b(b),
            None => false,
        }
    }

    /// Skips the whitespace run under the cursor.
    fn skip_whitespace(&mut self)
        requires
            old(self).wf(),
        ensures
            final(self).wf(),
            final(self)@ == old(self)@,
            final(self).tokens == old(self).tokens,
            final(self).position == old(self).position + space_run(
                old(self)@,
                old(self).position as int,
            ),
    {
        let ghost s = self@;
        let ghost p0 = old(self).position as int;
        while self.at_space()
            invariant
                self.wf(),
                self@ == s,
                self.tokens == old(self).tokens,
                p0 <= self.position,
                p0 + space_run(s, p0) == self.position + space_run(s, self.position as int),
            decreases s.len() - self.position,
        {
            self.advance();
        }
    }

    /// A one-byte token at the cursor (empty at end of input).
    fn char_token(&self, kind: TokenKind) -> (t: Token)
        ensures
            t == tok(
                self.position as int,
                if self.position < self@.len() {
                    1int
                } else {
                    0int
                },
                kind,
            ),
    {
        let len: usize = if self.position < self.input.len() {
            1
        } else {
            0
        };
        Token { start: self.position, len, kind }
    }

    /// Scans one token (or, for an unmatched word run, one token per
    /// word) and appends it to the token list; at end of input it
    /// appends the `Eof` token.
    fn next_token(&mut self)
        requires
            old(self).wf(),
        ensures
            final(self).wf(),
            final(self)@ == old(self)@,
            ({
                let s = old(self)@;
                let j = old(self).position + space_run(s, old(self).position as int);
                if j >= s.len() {
                    final(self).tokens@ == old(self).tokens@.push(
                        tok(s.len() as int, 0, TokenKind::Eof),
                    ) && final(self).position == j
                } else {
                    final(self).tokens@ == old(self).tokens@ + step_tokens(s, j)
                        && final(self).position == step_next(s, j)
                }
            }),
    {
        self.skip_whitespace();
        let ghost s = self@;
        let ghost j = self.position as int;
        let ghost base = self.tokens@;
        if self.position >= self.input.len() {
            let t = self.char_token(TokenKind::Eof);
            self.tokens.push(t);
            return ;
        }
        let c = self.input[self.position];
        if c == 43 || c == 45 || c == 42 || c == 47 {
            let kind = if c == 43 {
                TokenKind::Plus
            } else if c == 45 {
                TokenKind::Minus
            } else if c == 42 {
                TokenKind::Times
            } else {
                TokenKind::Over
            };
            let t = self.char_token(kind);
            self.tokens.push(t);
            self.advance();
            proof {
                assert(self.tokens@ =~= base + step_tokens(s, j));
            }
            return ;
        }
        if is_digit_b(c) {
            let start = self.position;
            while self.peek_is_digit()
                invariant
                    self.wf(),
                    self@ == s,
                    self.tokens == old(self).tokens,
                    start <= self.position < s.len(),
                    start + 1 + digit_run(s, start + 1) == self.position + 1 + digit_run(
                        s,
                        self.position + 1,
                    ),
                decreases s.len() - self.position,
            {
                self.advance();
            }
            let ghost de = start + 1 + digit_run(s, start + 1);
            proof {
                assert(digit_run(s, self.position + 1) == 0);
                assert(de == self.position + 1);
            }
            let mut is_float = false;
            match self.peek_char() {
                Some(b) => {
                    if b == 46 {
                        is_float = true;
                    }
                },
                None => {},
            }
            if is_float {
                self.advance();
                let ghost dot = self.position as int;
                while self.peek_is_digit()
                    invariant
                        self.wf(),
                        self@ == s,
                        self.tokens == old(self).tokens,
                        dot <= self.position < s.len(),
                        dot + 1 + digit_run(s, dot + 1) == self.position + 1 + digit_run(
                            s,
                            self.position + 1,
                        ),
                    decreases s.len() - self.position,
                {
                    self.advance();
                }
                proof {
                    assert(digit_run(s, self.position + 1) == 0);
                }
            }
            let kind = if is_float {
                TokenKind::Float
            } else {
                TokenKind::Integer
            };
            let t = Token { start, len: self.position + 1 - start, kind };
            self.tokens.push(t);
            self.advance();
            proof {
                assert(self.tokens@ =~= base + step_tokens(s, j));
            }
            return ;
        }
        if is_alpha_b(c) {
            let start = self.position;
            while self.peek_is_wordish()
                invariant
                    self.wf(),
                    self@ == s,
                    self.tokens == old(self).tokens,
                    start <= self.position < s.len(),
                    start + 1 + word_run(s, start + 1) == self.position + 1 + word_run(
                        s,
                        self.position + 1,
                    ),
                decreases s.len() - self.position,
            {
                self.advance();
            }
            let we = self.position + 1;
            proof {
                assert(word_run(s, we as int) == 0);
                assert(we == start + 1 + word_run(s, start + 1));
                lemma_word_run(s, start + 1);
            }
            let mut te = we;
            while te > start && self.input[te - 1] == 32
                invariant
                    self.wf(),
                    self@ == s,
                    start <= te <= we <= s.len(),
                    trim_end(s.subrange(start as int, we as int)) == trim_end(
                        s.subrange(start as int, te as int),
                    ),
                decreases te,
            {
                proof {
                    let cur = s.subrange(start as int, te as int);
                    assert(cur.last() == s[te - 1]);
                    assert(cur.drop_last() =~= s.subrange(start as int, te - 1));
                }
                te = te - 1;
            }
            proof {
                let cur = s.subrange(start as int, te as int);
                if te > start {
                    assert(cur.last() == s[te - 1]);
                }
                assert(trim_end(cur) == cur);
            }
            let pk = match_phrase(&self.input, start, te);
            match pk {
                Some(k) => {
                    let t = Token { start, len: we - start, kind: k };
                    self.tokens.push(t);
                    self.advance();
                    proof {
                        assert(self.tokens@ =~= base + step_tokens(s, j));
                    }
                },
                None => {
                    let ghost wend = we as int;
                    let mut p = start;
                    while p < we
                        invariant
                            self.wf(),
                            self@ == s,
                            wend == we as int,
                            start <= p <= we <= s.len(),
                            self.position + 1 == we,
                            forall|k: int| start <= k < we ==> is_wordish(s[k]),
                            we < s.len() ==> !is_wordish(s[wend]),
                            self.tokens@ + word_tokens(s, p as int, wend) == base + word_tokens(
                                s,
                                start as int,
                                wend,
                            ),
                        decreases we - p,
                    {
                        if self.input[p] == 32 {
                            p = p + 1;
                        } else {
                            let mut q = p + 1;
                            while q < we && is_alpha_b(self.input[q])
                                invariant
                                    self.wf(),
                                    self@ == s,
                                    wend == we as int,
                                    p < q <= we <= s.len(),
                                    forall|k: int| start <= k < we ==> is_wordish(s[k]),
                                    we < s.len() ==> !is_wordish(s[wend]),
                                    alpha_run(s, p + 1) == (q - p - 1) + alpha_run(s, q as int),
                                decreases we - q,
                            {
                                q = q + 1;
                            }
                            proof {
                                if q < we {
                                    assert(!is_alpha(s[q as int]));
                                } else {
                                    assert(q == we);
                                    if we < s.len() {
                                        assert(!is_alpha(s[q as int]));
                                    }
                                }
                                assert(alpha_run(s, q as int) == 0);
                                assert(q - p == 1 + alpha_run(s, p + 1));
                            }
                            let k = match_word(&self.input, p, q);
                            let t = Token { start: p, len: q - p, kind: k };
                            let ghost before = self.tokens@;
                            self.tokens.push(t);
                            proof {
                                assert(word_tokens(s, p as int, wend) == seq![
                                    tok(p as int, q - p, word_kind(s.subrange(p as int, q as int))),
                                ] + word_tokens(s, q as int, wend));
                                assert(self.tokens@ + word_tokens(s, q as int, wend) =~= before
                                    + word_tokens(s, p as int, wend));
                            }
                            p = q;
                        }
                    }
                    proof {
                        assert(word_tokens(s, p as int, wend) =~= Seq::<Token>::empty());
                        assert(self.tokens@ =~= base + word_tokens(s, start as int, wend));
                    }
                    self.advance();
                    proof {
                        assert(self.tokens@ =~= base + step_tokens(s, j));
                    }
                },
            }
            return ;
        }
        let t = self.char_token(TokenKind::Illegal);
        self.tokens.push(t);
        self.advance();
        proof {
            assert(self.tokens@ =~= base + step_tokens(s, j));
        }
    }

    /// Scans the whole input and returns its token list, which matches
    /// `spec_tokenize` exactly and therefore ends in the one `Eof`
    /// token.
    pub fn tokenize(self) -> (r: Vec<Token>)
        requires
            self.wf(),
            self.fresh(),
        ensures
            r@ == spec_tokenize(self@),
    {
        let mut lx = self;
        let ghost s = lx@;
        proof {
            assert(lx.tokens@ + spec_tokenize_at(s, 0) =~= spec_tokenize_at(s, 0));
        }
        loop
            invariant
                lx.wf(),
                lx@ == s,
                (lx.tokens@.len() > 0 && lx.tokens@.last().kind == TokenKind::Eof)
                    ==> lx.tokens@ == spec_tokenize(s),
                !(lx.tokens@.len() > 0 && lx.tokens@.last().kind == TokenKind::Eof)
                    ==> lx.tokens@ + spec_tokenize_at(s, lx.position as int) == spec_tokenize(s),
            ensures
                lx.tokens@ == spec_tokenize(s),
            decreases s.len() - lx.position + (if lx.tokens@.len() > 0 && lx.tokens@.last().kind
                == TokenKind::Eof {
                0int
            } else {
                1int
            }),
        {
            if lx.tokens.len() > 0 {
                let last = lx.tokens[lx.tokens.len() - 1];
                if last.kind == TokenKind::Eof {
                    proof {
                        assert(last == lx.tokens@.last());
                        assert(lx.tokens@.len() > 0 && lx.tokens@.last().kind == TokenKind::Eof);
                        assert(lx.tokens@ == spec_tokenize(s));
                    }
                    break ;
                }
            }
            let ghost p0 = lx.position as int;
            let ghost base = lx.tokens@;
            let ghost j = p0 + space_run(s, p0);
            lx.next_token();
            proof {
                if j >= s.len() {
                    assert(spec_tokenize_at(s, p0) == seq![tok(s.len() as int, 0, TokenKind::Eof)]);
                    assert(base + spec_tokenize_at(s, p0) == spec_tokenize(s));
                    assert(lx.tokens@ =~= base + seq![tok(s.len() as int, 0, TokenKind::Eof)]);
                    assert(lx.tokens@ == spec_tokenize(s));
                } else {
                    lemma_step_tokens_no_eof(s, j);
                    assert(spec_tokenize_at(s, p0) == step_tokens(s, j) + spec_tokenize_at(
                        s,
                        step_next(s, j),
                    ));
                    assert(lx.tokens@ + spec_tokenize_at(s, lx.position as int) =~= base
                        + spec_tokenize_at(s, p0));
                    assert(lx.tokens@.last().kind != TokenKind::Eof);
                }
            }
        }
        proof {
            assert(s == self@);
        }
        lx.tokens
    }
}

} // verus!
