//! Lexical analysis: turns a byte stream into a stream of tokens with one
//! token of lookahead.  The token stream of an input is defined by the spec
//! function [`spec_tokens`]; the `Tokenizer` is proved to deliver exactly
//! that stream, one token per call of `next`.

use vstd::prelude::*;
use vstd::string::StringExecFns;

verus! {

// ---------------------------------------------------------------------------
// Byte classification
// ---------------------------------------------------------------------------

/// Whitespace skipped between tokens: space, newline, tab.
pub open spec fn is_ws(b: u8) -> bool {
    b == 32 || b == 10 || b == 9
}

/// ASCII alphabetic: starts an identifier or keyword.
pub open spec fn is_alpha(b: u8) -> bool {
    (65 <= b && b <= 90) || (97 <= b && b <= 122)
}

/// ASCII decimal digit: starts a number.
pub open spec fn is_digit(b: u8) -> bool {
    48 <= b && b <= 57
}

/// Continues an identifier: alphabetic or digit.
pub open spec fn is_alnum(b: u8) -> bool {
    is_alpha(b) || is_digit(b)
}

/// Continues a number: digit or decimal point.  Placement of points is not
/// validated here; the scanned text is kept as it stands.
pub open spec fn is_numchar(b: u8) -> bool {
    is_digit(b) || b == 46
}

/// The bytes of a scanned word, read as characters.
pub open spec fn chars_of(s: Seq<u8>) -> Seq<char> {
    s.map_values(|b: u8| b as char)
}

// ---------------------------------------------------------------------------
// Tokens
// ---------------------------------------------------------------------------

/// Mathematical model of a token.
pub enum TokenV {
    Eof,
    Def,
    Extern,
    Identifier { id: Seq<char> },
    Number { text: Seq<char> },
}

/// A lexical token.  Single-character operators and punctuation are carried
/// as one-character `Identifier` tokens.  A `Number` carries the scanned
/// text of the literal; turning it into a machine float is left to callers.
#[derive(Debug, PartialEq, Eq)]
pub enum Token {
    Eof,
    Def,
    Extern,
    Identifier { id: String },
    Number { text: String },
}

impl View for Token {
    type V = TokenV;

    open spec fn view(&self) -> TokenV {
        match self {
            Token::Eof => TokenV::Eof,
            Token::Def => TokenV::Def,
            Token::Extern => TokenV::Extern,
            Token::Identifier { id } => TokenV::Identifier { id: id@ },
            Token::Number { text } => TokenV::Number { text: text@ },
        }
    }
}

/// True exactly of `Identifier` tokens.
pub fn is_identifier(tok: &Token) -> (r: bool)
    ensures
        r == (tok@ is Identifier),
{
    match tok {
        Token::Identifier { .. } => true,
        _ => false,
    }
}

/// The text of an `Identifier` token.  Calling it on any other kind of token
/// is an internal error, so that case is excluded outright.
pub fn get_id(tok: &Token) -> (r: String)
    requires
        tok@ is Identifier,
    ensures
        r@ == tok@->Identifier_id,
{
    match tok {
        Token::Identifier { id } => id.clone(),
        _ => {
            proof {
                assert(false);
            }
            String::new()
        },
    }
}

// ---------------------------------------------------------------------------
// The token stream of an input, as a mathematical function
// ---------------------------------------------------------------------------

/// Length of the run of identifier-continuation bytes starting at `i`.
pub open spec fn alnum_run(s: Seq<u8>, i: int) -> int
    decreases s.len() - i,
{
    if i < 0 || i >= s.len() || !is_alnum(s[i]) {
        0
    } else {
        1 + alnum_run(s, i + 1)
    }
}

/// Length of the run of number-continuation bytes starting at `i`.
pub open spec fn num_run(s: Seq<u8>, i: int) -> int
    decreases s.len() - i,
{
    if i < 0 || i >= s.len() || !is_numchar(s[i]) {
        0
    } else {
        1 + num_run(s, i + 1)
    }
}

/// Index just past the first newline at or after `i`, or the end of the
/// input if no newline follows: where scanning resumes after a `#` comment.
pub open spec fn comment_end(s: Seq<u8>, i: int) -> int
    decreases s.len() - i,
{
    if i < 0 || i >= s.len() {
        s.len() as int
    } else if s[i] == 10 {
        i + 1
    } else {
        comment_end(s, i + 1)
    }
}

/// The token an identifier-shaped word denotes: a keyword or an identifier.
pub open spec fn word_token(w: Seq<char>) -> TokenV {
    if w == seq!['d', 'e', 'f'] {
        TokenV::Def
    } else if w == seq!['e', 'x', 't', 'e', 'r', 'n'] {
        TokenV::Extern
    } else {
        TokenV::Identifier { id: w }
    }
}

/// The token stream of an input: whitespace separates tokens, `#` comments
/// run to the end of the line and are transparent, words are keywords or
/// identifiers, digit-led runs are numbers, and any other byte is a
/// one-character identifier.  The stream ends at the end of the input; no
/// `Eof` token is part of it.  (The inner length tests only keep the
/// recursion well founded; scanning always moves forward.)
pub open spec fn spec_tokens(s: Seq<u8>) -> Seq<TokenV>
    decreases s.len(),
{
    if s.len() == 0 {
        Seq::empty()
    } else if is_ws(s[0]) {
        spec_tokens(s.skip(1))
    } else if is_alpha(s[0]) {
        let n = 1 + alnum_run(s, 1);
        if 1 <= n && n <= s.len() {
            seq![word_token(chars_of(s.take(n)))] + spec_tokens(s.skip(n))
        } else {
            Seq::empty()
        }
    } else if is_digit(s[0]) {
        let n = 1 + num_run(s, 1);
        if 1 <= n && n <= s.len() {
            seq![TokenV::Number { text: chars_of(s.take(n)) }] + spec_tokens(s.skip(n))
        } else {
            Seq::empty()
        }
    } else if s[0] == 35 {
        let n = comment_end(s, 0);
        if 1 <= n && n <= s.len() {
            spec_tokens(s.skip(n))
        } else {
            Seq::empty()
        }
    } else {
        seq![TokenV::Identifier { id: chars_of(s.take(1)) }] + spec_tokens(s.skip(1))
    }
}

// ---------------------------------------------------------------------------
// Facts about the scanning helpers
// ---------------------------------------------------------------------------

proof fn lemma_alnum_run_is(s: Seq<u8>, i: int, k: int)
    requires
        0 <= i <= k <= s.len(),
        forall|j: int| i <= j < k ==> is_alnum(#[trigger] s[j]),
        k == s.len() || !is_alnum(s[k]),
    ensures
        alnum_run(s, i) == k - i,
    decreases k - i,
{
    if i < k {
        lemma_alnum_run_is(s, i + 1, k);
    }
}

proof fn lemma_num_run_is(s: Seq<u8>, i: int, k: int)
    requires
        0 <= i <= k <= s.len(),
        forall|j: int| i <= j < k ==> is_numchar(#[trigger] s[j]),
        k == s.len() || !is_numchar(s[k]),
    ensures
        num_run(s, i) == k - i,
    decreases k - i,
{
    if i < k {
        lemma_num_run_is(s, i + 1, k);
    }
}

proof fn lemma_comment_end_bounds(s: Seq<u8>, i: int)
    requires
        0 <= i <= s.len(),
    ensures
        i <= comment_end(s, i) <= s.len(),
        i < s.len() ==> i + 1 <= comment_end(s, i),
    decreases s.len() - i,
{
    if i < s.len() && s[i] != 10 {
        lemma_comment_end_bounds(s, i + 1);
    }
}

proof fn lemma_comment_end_is(s: Seq<u8>, i: int, k: int)
    requires
        0 <= i <= k <= s.len(),
        forall|j: int| i <= j < k ==> #[trigger] s[j] != 10,
        k == s.len() || s[k] == 10,
    ensures
        k < s.len() ==> comment_end(s, i) == k + 1,
        k == s.len() ==> comment_end(s, i) == s.len(),
    decreases k - i,
{
    if i < k {
        lemma_comment_end_is(s, i + 1, k);
    }
}

// ---------------------------------------------------------------------------
// The tokenizer
// ---------------------------------------------------------------------------

/// Appends one character to a string.
/// Relies on `String::push`: the string grows by exactly that character.
#[verifier::external_body]
fn push_char(s: &mut String, c: char)
    ensures
        final(s)@ == old(s)@.push(c),
{
    s.push(c);
}

/// The tokenizer owns a byte input and a cursor over it, holds the one
/// current token, and buffers the last byte read (primed with a space, so
/// that the leading-whitespace logic runs uniformly on the first token).
pub struct Tokenizer {
    input: Vec<u8>,
    pos: usize,
    last_char: u8,
    last_token: Token,
    eof_reached: bool,
}

impl Tokenizer {
    /// The bytes the scanner has not classified yet: the buffered byte
    /// followed by the unread part of the input.
    pub closed spec fn pending(self) -> Seq<u8> {
        if self.eof_reached {
            Seq::empty()
        } else {
            seq![self.last_char] + self.input@.skip(self.pos as int)
        }
    }

    /// The cursor sits inside the input; the end-of-stream flag is set only
    /// at its end.
    pub closed spec fn stream_inv(self) -> bool {
        &&& self.pos <= self.input@.len()
        &&& (self.eof_reached ==> self.pos == self.input@.len())
    }

    /// Well-formed: the cursor is in place, and once the current token is
    /// `Eof`, no further token is pending.
    pub closed spec fn wf(self) -> bool {
        &&& self.stream_inv()
        &&& (self.last_token@ is Eof ==> spec_tokens(self.pending()) == Seq::<TokenV>::empty())
    }

    /// The tokens still to be delivered, current token first.  The `Eof`
    /// token is not part of it: an exhausted stream has no tokens left.
    pub closed spec fn remaining(self) -> Seq<TokenV> {
        if self.last_token@ is Eof {
            Seq::empty()
        } else {
            seq![self.last_token@] + spec_tokens(self.pending())
        }
    }

    /// Creates a tokenizer over `input` and advances to the first token, so
    /// that the first call site already sees a valid current token.
    pub fn new(input: Vec<u8>) -> (t: Tokenizer)
        ensures
            t.wf(),
            t.remaining() == spec_tokens(input@),
    {
        let ghost input_view = input@;
        let mut result = Tokenizer {
            input,
            pos: 0,
            last_char: 32,
            last_token: Token::Eof,
            eof_reached: false,
        };
        proof {
            assert(result.pending() =~= seq![32u8] + input_view);
            assert(result.pending().skip(1) =~= input_view);
        }
        result.advance_core();
        result
    }

    /// Reads one byte into the buffer; reports whether the stream still had
    /// one.  Failure to read marks the end of the stream.
    fn next_char(&mut self) -> (r: bool)
        requires
            old(self).stream_inv(),
            !old(self).eof_reached,
        ensures
            final(self).stream_inv(),
            final(self).input == old(self).input,
            final(self).last_token == old(self).last_token,
            final(self).pending() == old(self).pending().drop_first(),
            r == !final(self).eof_reached,
            r ==> final(self).pending().len() == old(self).pending().len() - 1,
            !r ==> old(self).pending().len() == 1,
    {
        if self.pos < self.input.len() {
            self.last_char = self.input[self.pos];
            self.pos = self.pos + 1;
            proof {
                assert(final(self).pending() =~= old(self).pending().drop_first());
            }
            true
        } else {
            self.eof_reached = true;
            proof {
                assert(old(self).pending() =~= seq![old(self).last_char]);
                assert(final(self).pending() =~= old(self).pending().drop_first());
            }
            false
        }
    }

    /// True when the next unread byte exists and continues a word.
    fn peek_alnum(&self) -> (r: bool)
        ensures
            r == (self.pos < self.input@.len() && is_alnum(self.input@[self.pos as int])),
    {
        if self.pos < self.input.len() {
            let b = self.input[self.pos];
            (48 <= b && b <= 57) || (65 <= b && b <= 90) || (97 <= b && b <= 122)
        } else {
            false
        }
    }

    /// True when the next unread byte exists and continues a number.
    fn peek_numchar(&self) -> (r: bool)
        ensures
            r == (self.pos < self.input@.len() && is_numchar(self.input@[self.pos as int])),
    {
        if self.pos < self.input.len() {
            let b = self.input[self.pos];
            (48 <= b && b <= 57) || b == 46
        } else {
            false
        }
    }

    /// True when the next unread byte exists and is whitespace.
    fn peek_ws(&self) -> (r: bool)
        ensures
            r == (self.pos < self.input@.len() && is_ws(self.input@[self.pos as int])),
    {
        if self.pos < self.input.len() {
            let b = self.input[self.pos];
            b == 32 || b == 10 || b == 9
        } else {
            false
        }
    }

    /// True when the next unread byte exists and is not a newline.
    fn peek_not_newline(&self) -> (r: bool)
        ensures
            r == (self.pos < self.input@.len() && self.input@[self.pos as int] != 10),
    {
        if self.pos < self.input.len() {
            let b = self.input[self.pos];
            b != 10
        } else {
            false
        }
    }

    /// Skips the run of whitespace before the next token; reports whether
    /// the stream ended during the skip.
    #[verifier::loop_isolation(false)]
    fn skip_ws(&mut self) -> (ended: bool)
        requires
            old(self).stream_inv(),
            !old(self).eof_reached,
        ensures
            final(self).stream_inv(),
            final(self).input == old(self).input,
            final(self).last_token == old(self).last_token,
            spec_tokens(final(self).pending()) == spec_tokens(old(self).pending()),
            final(self).pending().len() <= old(self).pending().len(),
            ended == final(self).eof_reached,
            !ended ==> final(self).pending().len() >= 1 && !is_ws(final(self).pending()[0])
                && final(self).last_char == final(self).pending()[0],
    {
        if !(self.last_char == 32 || self.last_char == 10 || self.last_char == 9) {
            proof {
                assert(self.pending()[0] == self.last_char);
            }
            return false;
        }
        let ghost ph = self.pending();
        proof {
            assert(ph[0] == self.last_char);
            assert(ph.drop_first() =~= self.input@.skip(self.pos as int));
        }
        while self.peek_ws()
            invariant
                self.stream_inv(),
                !self.eof_reached,
                self.input == old(self).input,
                self.last_token == old(self).last_token,
                self.input@.skip(self.pos as int).len() <= ph.len() - 1,
                spec_tokens(self.input@.skip(self.pos as int)) == spec_tokens(ph),
            decreases self.input@.len() - self.pos,
        {
            proof {
                assert(self.input@.skip(self.pos as int).drop_first() =~= self.input@.skip(
                    self.pos as int + 1));
            }
            let len = self.input.len();
            self.pos = self.pos + 1;
        }
        let ghost unread = self.input@.skip(self.pos as int);
        if !self.next_char() {
            proof {
                assert(unread =~= Seq::<u8>::empty());
                assert(self.pending() =~= unread);
            }
            true
        } else {
            proof {
                assert(self.pending() =~= unread);
                assert(self.pending()[0] == self.last_char);
            }
            false
        }
    }

    /// Skips a `#` comment through the end of its line; reports whether the
    /// stream ended before anything followed the comment.
    #[verifier::loop_isolation(false)]
    fn skip_comment(&mut self, Ghost(p): Ghost<Seq<u8>>) -> (ended: bool)
        requires
            old(self).stream_inv(),
            !old(self).eof_reached,
            p == old(self).pending(),
            p.len() >= 1,
            p[0] == 35,
        ensures
            final(self).stream_inv(),
            final(self).input == old(self).input,
            final(self).last_token == old(self).last_token,
            final(self).pending() == p.skip(comment_end(p, 0)),
            1 <= comment_end(p, 0) <= p.len(),
            ended == final(self).eof_reached,
    {
        proof {
            lemma_comment_end_bounds(p, 0);
            assert(self.pending().drop_first() =~= self.input@.skip(self.pos as int));
        }
        while self.peek_not_newline()
            invariant
                self.stream_inv(),
                !self.eof_reached,
                self.input == old(self).input,
                self.last_token == old(self).last_token,
                ({
                    let k = p.len() - (self.input@.len() - self.pos);
                    &&& 1 <= k <= p.len()
                    &&& self.input@.skip(self.pos as int) =~= p.skip(k)
                    &&& forall|j: int| 0 <= j < k ==> #[trigger] p[j] != 10
                }),
            decreases self.input@.len() - self.pos,
        {
            proof {
                let k = p.len() - (self.input@.len() - self.pos);
                assert(p.skip(k)[0] == p[k]);
                assert(p.skip(k).drop_first() =~= p.skip(k + 1));
            }
            let len = self.input.len();
            self.pos = self.pos + 1;
        }
        let ghost k = p.len() - (self.input@.len() - self.pos as int);
        if self.pos == self.input.len() {
            // No newline follows: the comment runs to the end of the input.
            proof {
                assert(k == p.len());
                lemma_comment_end_is(p, 0, p.len() as int);
                assert(comment_end(p, 0) == p.len());
            }
            let ended = !self.next_char();
            proof {
                assert(self.pending() =~= p.skip(p.len() as int));
            }
            ended
        } else {
            // The unread byte is the newline; move past it, then buffer
            // whatever follows it.
            proof {
                assert(p.skip(k)[0] == p[k]);
                assert(p[k] == 10);
                lemma_comment_end_is(p, 0, k);
                assert(comment_end(p, 0) == k + 1);
                assert(p.skip(k).drop_first() =~= p.skip(k + 1));
            }
            let len = self.input.len();
            self.pos = self.pos + 1;
            let ended = !self.next_char();
            proof {
                assert(self.pending() =~= p.skip(k + 1));
            }
            ended
        }
    }

    /// Emits the buffered byte as a one-character identifier token.
    fn scan_single(&mut self, Ghost(p): Ghost<Seq<u8>>)
        requires
            old(self).stream_inv(),
            !old(self).eof_reached,
            p == old(self).pending(),
            p.len() >= 1,
            !is_ws(p[0]),
            !is_alpha(p[0]),
            !is_digit(p[0]),
            p[0] != 35,
        ensures
            final(self).wf(),
            final(self).input == old(self).input,
            final(self).remaining() == spec_tokens(p),
    {
        let mut s = String::new();
        push_char(&mut s, self.last_char as char);
        let _ = self.next_char();
        proof {
            assert(s@ =~= chars_of(p.take(1)));
            assert(self.pending() =~= p.skip(1));
        }
        self.last_token = Token::Identifier { id: s };
        proof {
            assert(final(self).remaining() =~= spec_tokens(p));
        }
    }

    /// Computes the next token of the pending bytes into `last_token`,
    /// leaving exactly the rest of the stream pending.
    #[verifier::loop_isolation(false)]
    fn advance_core(&mut self)
        requires
            old(self).stream_inv(),
        ensures
            final(self).wf(),
            final(self).input == old(self).input,
            final(self).remaining() == spec_tokens(old(self).pending()),
    {
        loop
            invariant
                self.stream_inv(),
                self.input == old(self).input,
                spec_tokens(self.pending()) == spec_tokens(old(self).pending()),
            decreases self.pending().len(),
        {
            let ghost ph = self.pending();
            if self.eof_reached {
                self.last_token = Token::Eof;
                return ;
            }
            if self.skip_ws() {
                // The input was nothing but whitespace: the stream is done.
                self.last_token = Token::Eof;
                return ;
            }
            let ghost p = self.pending();
            let c = self.last_char;
            if (65 <= c && c <= 90) || (97 <= c && c <= 122) {
                self.scan_word(Ghost(p));
                return ;
            } else if 48 <= c && c <= 57 {
                self.scan_number(Ghost(p));
                return ;
            } else if c == 35 {
                // A comment: skip it, then go round for the next real token.
                if self.skip_comment(Ghost(p)) {
                    self.last_token = Token::Eof;
                    proof {
                        assert(self.pending() =~= Seq::<u8>::empty());
                        assert(spec_tokens(p) == spec_tokens(p.skip(comment_end(p, 0))));
                    }
                    return ;
                }
                proof {
                    assert(spec_tokens(p) == spec_tokens(p.skip(comment_end(p, 0))));
                    assert(self.pending().len() < ph.len());
                }
            } else {
                self.scan_single(Ghost(p));
                return ;
            }
        }
    }

    /// Scans an identifier or keyword whose first byte is buffered.
    #[verifier::loop_isolation(false)]
    fn scan_word(&mut self, Ghost(p): Ghost<Seq<u8>>)
        requires
            old(self).stream_inv(),
            !old(self).eof_reached,
            p == old(self).pending(),
            p.len() >= 1,
            is_alpha(p[0]),
        ensures
            final(self).wf(),
            final(self).input == old(self).input,
            final(self).remaining() == spec_tokens(p),
    {
        let mut s = String::new();
        push_char(&mut s, self.last_char as char);
        proof {
            assert(s@ =~= chars_of(p.take(1)));
            assert(self.pending().drop_first() =~= self.input@.skip(self.pos as int));
        }
        while self.peek_alnum()
            invariant
                self.stream_inv(),
                !self.eof_reached,
                self.input == old(self).input,
                self.last_token == old(self).last_token,
                1 <= s@.len() <= p.len(),
                s@ =~= chars_of(p.take(s@.len() as int)),
                forall|j: int| 1 <= j < s@.len() ==> is_alnum(#[trigger] p[j]),
                self.input@.skip(self.pos as int) =~= p.skip(s@.len() as int),
            decreases self.input@.len() - self.pos,
        {
            let ghost j = s@.len() as int;
            proof {
                assert(p.skip(j)[0] == p[j]);
                assert(self.input@[self.pos as int] == p[j]);
            }
            let b = self.input[self.pos];
            push_char(&mut s, b as char);
            let len = self.input.len();
            self.pos = self.pos + 1;
            proof {
                assert(s@ =~= chars_of(p.take(j + 1)));
                assert(self.input@.skip(self.pos as int) =~= p.skip(j + 1));
            }
        }
        let ghost n = s@.len() as int;
        proof {
            if n < p.len() {
                assert(p.skip(n)[0] == p[n]);
                assert(!is_alnum(p[n]));
            }
            lemma_alnum_run_is(p, 1, n);
            assert(spec_tokens(p) =~= seq![word_token(chars_of(p.take(n)))] + spec_tokens(
                p.skip(n)));
        }
        let _ = self.next_char();
        proof {
            assert(self.pending() =~= p.skip(n));
        }
        let def_kw = String::from_str("def");
        let extern_kw = String::from_str("extern");
        proof {
            reveal_strlit("def");
            reveal_strlit("extern");
            assert(def_kw@ =~= seq!['d', 'e', 'f']);
            assert(extern_kw@ =~= seq!['e', 'x', 't', 'e', 'r', 'n']);
        }
        if s == def_kw {
            self.last_token = Token::Def;
        } else if s == extern_kw {
            self.last_token = Token::Extern;
        } else {
            self.last_token = Token::Identifier { id: s };
        }
        proof {
            assert(final(self).remaining() =~= spec_tokens(p));
        }
    }

    /// Scans a number literal whose first byte is buffered.  The scanned
    /// text (digits and decimal points, unvalidated) is the token's payload.
    #[verifier::loop_isolation(false)]
    fn scan_number(&mut self, Ghost(p): Ghost<Seq<u8>>)
        requires
            old(self).stream_inv(),
            !old(self).eof_reached,
            p == old(self).pending(),
            p.len() >= 1,
            is_digit(p[0]),
        ensures
            final(self).wf(),
            final(self).input == old(self).input,
            final(self).remaining() == spec_tokens(p),
    {
        let mut s = String::new();
        push_char(&mut s, self.last_char as char);
        proof {
            assert(s@ =~= chars_of(p.take(1)));
            assert(self.pending().drop_first() =~= self.input@.skip(self.pos as int));
        }
        while self.peek_numchar()
            invariant
                self.stream_inv(),
                !self.eof_reached,
                self.input == old(self).input,
                self.last_token == old(self).last_token,
                1 <= s@.len() <= p.len(),
                s@ =~= chars_of(p.take(s@.len() as int)),
                forall|j: int| 1 <= j < s@.len() ==> is_numchar(#[trigger] p[j]),
                self.input@.skip(self.pos as int) =~= p.skip(s@.len() as int),
            decreases self.input@.len() - self.pos,
        {
            let ghost j = s@.len() as int;
            proof {
                assert(p.skip(j)[0] == p[j]);
                assert(self.input@[self.pos as int] == p[j]);
            }
            let b = self.input[self.pos];
            push_char(&mut s, b as char);
            let len = self.input.len();
            self.pos = self.pos + 1;
            proof {
                assert(s@ =~= chars_of(p.take(j + 1)));
                assert(self.input@.skip(self.pos as int) =~= p.skip(j + 1));
            }
        }
        let ghost n = s@.len() as int;
        proof {
            if n < p.len() {
                assert(p.skip(n)[0] == p[n]);
                assert(!is_numchar(p[n]));
            }
            lemma_num_run_is(p, 1, n);
            assert(spec_tokens(p) =~= seq![TokenV::Number { text: chars_of(p.take(n)) }]
                + spec_tokens(p.skip(n)));
        }
        let _ = self.next_char();
        proof {
            assert(self.pending() =~= p.skip(n));
        }
        self.last_token = Token::Number { text: s };
        proof {
            assert(final(self).remaining() =~= spec_tokens(p));
        }
    }

    /// Advances to the next token, overwriting the current one.  Past the
    /// end of the stream the current token stays `Eof`.
    pub fn next(&mut self)
        requires
            old(self).wf(),
        ensures
            final(self).wf(),
            old(self).remaining().len() > 0 ==> final(self).remaining() == old(
                self,
            ).remaining().drop_first(),
            old(self).remaining().len() == 0 ==> final(self).remaining() == Seq::<TokenV>::empty(),
    {
        self.next_();
    }

    /// The body of `next`: one advance of the token stream.
    pub fn next_(&mut self)
        requires
            old(self).wf(),
        ensures
            final(self).wf(),
            old(self).remaining().len() > 0 ==> final(self).remaining() == old(
                self,
            ).remaining().drop_first(),
            old(self).remaining().len() == 0 ==> final(self).remaining() == Seq::<TokenV>::empty(),
    {
        proof {
            if old(self).remaining().len() > 0 {
                assert(old(self).remaining().drop_first() =~= spec_tokens(old(self).pending()));
            }
        }
        self.advance_core();
    }

    /// The current token (a read-only query; no side effect).
    pub fn last_token(&self) -> (t: Token)
        ensures
            t@ == (if self.remaining().len() > 0 {
                self.remaining()[0]
            } else {
                TokenV::Eof
            }),
            (t@ is Eof) == (self.remaining().len() == 0),
    {
        match &self.last_token {
            Token::Eof => Token::Eof,
            Token::Def => Token::Def,
            Token::Extern => Token::Extern,
            Token::Identifier { id } => Token::Identifier { id: id.clone() },
            Token::Number { text } => Token::Number { text: text.clone() },
        }
    }
}

} // verus!
