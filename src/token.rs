use vstd::prelude::*;

verus! {

/// A lexical unit of a query. A `Value` holds a position in the value table.
#[derive(Clone, Copy, Debug, PartialEq, Eq, Structural)]
pub enum Token {
    And,
    Or,
    Not,
    OpenParen,
    CloseParen,
    Split,
    Value(usize),
}

/// What the lexer is in the middle of reading.
#[derive(Clone, Copy, Debug, PartialEq, Eq, Structural)]
pub enum Mode {
    /// Bare text: operators and spaces have their meaning.
    Plain,
    /// Just after a backslash in bare text.
    Escape,
    /// Inside a quoted literal.
    Quoted,
    /// Inside a quoted literal, just after a backslash.
    QuotedEscape,
}

/// The state of the lexer between two characters.
pub struct LexState {
    pub tokens: Seq<Token>,
    pub values: Seq<Seq<char>>,
    pub buf: Seq<char>,
    pub mode: Mode,
}

pub open spec fn lex_init() -> LexState {
    LexState { tokens: seq![], values: seq![], buf: seq![], mode: Mode::Plain }
}

/// Moves a non-empty pending literal into the value table, with a token that refers to it.
pub open spec fn flush(st: LexState) -> LexState {
    if st.buf.len() == 0 {
        st
    } else {
        LexState {
            tokens: st.tokens.push(Token::Value(st.values.len() as usize)),
            values: st.values.push(st.buf),
            buf: seq![],
            mode: st.mode,
        }
    }
}

pub open spec fn emit(st: LexState, t: Token) -> LexState {
    let s = flush(st);
    LexState { tokens: s.tokens.push(t), ..s }
}

pub open spec fn with_buf(st: LexState, buf: Seq<char>, mode: Mode) -> LexState {
    LexState { buf, mode, ..st }
}

/// The operator token that a reserved character stands for in bare text.
pub open spec fn operator_of(c: char) -> Option<Token> {
    if c == '&' {
        Some(Token::And)
    } else if c == '|' {
        Some(Token::Or)
    } else if c == '-' {
        Some(Token::Not)
    } else if c == '(' {
        Some(Token::OpenParen)
    } else if c == ')' {
        Some(Token::CloseParen)
    } else if c == ':' {
        Some(Token::Split)
    } else {
        None
    }
}

pub open spec fn drop_last_char(s: Seq<char>) -> Seq<char> {
    if s.len() == 0 {
        s
    } else {
        s.drop_last()
    }
}

/// One character of input.
pub open spec fn lex_step(st: LexState, c: char) -> LexState {
    match st.mode {
        Mode::Escape => with_buf(st, st.buf.push(c), Mode::Plain),
        Mode::Quoted => if c == '"' {
            with_buf(st, st.buf, Mode::Plain)
        } else if c == '\\' {
            with_buf(st, st.buf.push(c), Mode::QuotedEscape)
        } else {
            with_buf(st, st.buf.push(c), Mode::Quoted)
        },
        Mode::QuotedEscape => if c == '"' {
            with_buf(st, drop_last_char(st.buf).push('"'), Mode::Quoted)
        } else if c == '\\' {
            with_buf(st, st.buf.push(c), Mode::QuotedEscape)
        } else {
            with_buf(st, st.buf.push(c), Mode::Quoted)
        },
        Mode::Plain => if c == ' ' {
            flush(st)
        } else if operator_of(c) is Some {
            emit(st, operator_of(c)->0)
        } else if c == '\\' {
            with_buf(st, st.buf, Mode::Escape)
        } else if c == '"' {
            with_buf(st, st.buf, Mode::Quoted)
        } else {
            with_buf(st, st.buf.push(c), Mode::Plain)
        },
    }
}

/// The state after reading all of `s`, left to right, from `st`.
pub open spec fn lex_from(st: LexState, s: Seq<char>) -> LexState
    decreases s.len(),
{
    if s.len() == 0 {
        st
    } else {
        lex_from(lex_step(st, s[0]), s.drop_first())
    }
}

/// Tokens and value table of a whole query: every character read, then the
/// pending literal flushed.
pub open spec fn lex(s: Seq<char>) -> LexState {
    flush(lex_from(lex_init(), s))
}

/// Every `Value` token refers to one of the first `n` values.
pub open spec fn values_below(ts: Seq<Token>, n: nat) -> bool {
    forall|p: int| 0 <= p < ts.len() && (#[trigger] ts[p]) is Value ==> ts[p]->0 < n
}

/// A query as a token sequence and a table of the literal texts that its
/// `Value` tokens refer to.
#[derive(Debug)]
pub struct Tokens {
    tokens: Vec<Token>,
    values: Vec<String>,
}

pub open spec fn texts(v: Seq<String>) -> Seq<Seq<char>> {
    v.map_values(|s: String| s@)
}

/// Relies on `String::from_iter`: the string holds the given characters in order.
#[verifier::external_body]
fn string_of(chars: &Vec<char>) -> (r: String)
    ensures
        r@ == chars@,
{
    String::from_iter(chars.iter())
}

struct Lexer {
    tokens: Vec<Token>,
    values: Vec<String>,
    buf: Vec<char>,
    mode: Mode,
}

impl Lexer {
    spec fn view(&self) -> LexState {
        LexState {
            tokens: self.tokens@,
            values: texts(self.values@),
            buf: self.buf@,
            mode: self.mode,
        }
    }

    fn add_value(&mut self)
        requires
            values_below(old(self).tokens@, old(self).values.len() as nat),
        ensures
            values_below(final(self).tokens@, final(self).values.len() as nat),
            final(self).view() == flush(old(self).view()),
            final(self).values.len() <= old(self).values.len() + 1,
    {
        if self.buf.len() > 0 {
            let ghost before = self.values@;
            self.tokens.push(Token::Value(self.values.len()));
            let s = string_of(&self.buf);
            self.values.push(s);
            self.buf = Vec::new();
            assert(texts(self.values@) =~= texts(before).push(old(self).buf@));
            assert(self.buf@ =~= seq![]);
        }
    }

    fn add_token(&mut self, t: Token)
        requires
            !(t is Value),
            values_below(old(self).tokens@, old(self).values.len() as nat),
        ensures
            values_below(final(self).tokens@, final(self).values.len() as nat),
            final(self).view() == emit(old(self).view(), t),
            final(self).values.len() <= old(self).values.len() + 1,
    {
        self.add_value();
        self.tokens.push(t);
    }

    fn operator_of(c: char) -> (r: Option<Token>)
        ensures
            r == operator_of(c),
    {
        match c {
            '&' => Some(Token::And),
            '|' => Some(Token::Or),
            '-' => Some(Token::Not),
            '(' => Some(Token::OpenParen),
            ')' => Some(Token::CloseParen),
            ':' => Some(Token::Split),
            _ => None,
        }
    }

    fn step(&mut self, c: char)
        requires
            values_below(old(self).tokens@, old(self).values.len() as nat),
        ensures
            values_below(final(self).tokens@, final(self).values.len() as nat),
            final(self).view() == lex_step(old(self).view(), c),
            final(self).values.len() <= old(self).values.len() + 1,
    {
        match self.mode {
            Mode::Escape => {
                self.buf.push(c);
                self.mode = Mode::Plain;
            },
            Mode::Quoted => {
                if c == '"' {
                    self.mode = Mode::Plain;
                } else {
                    self.buf.push(c);
                    if c == '\\' {
                        self.mode = Mode::QuotedEscape;
                    }
                }
            },
            Mode::QuotedEscape => {
                if c == '"' {
                    let ghost b = self.buf@;
                    self.buf.pop();
                    self.buf.push('"');
                    assert(self.buf@ =~= drop_last_char(b).push('"'));
                    self.mode = Mode::Quoted;
                } else {
                    self.buf.push(c);
                    if c != '\\' {
                        self.mode = Mode::Quoted;
                    }
                }
            },
            Mode::Plain => {
                if c == ' ' {
                    self.add_value();
                } else if let Some(t) = Self::operator_of(c) {
                    self.add_token(t);
                } else if c == '\\' {
                    self.mode = Mode::Escape;
                } else if c == '"' {
                    self.mode = Mode::Quoted;
                } else {
                    self.buf.push(c);
                }
            },
        }
    }
}

impl Tokens {
    pub closed spec fn token_seq(&self) -> Seq<Token> {
        self.tokens@
    }

    pub closed spec fn value_seq(&self) -> Seq<Seq<char>> {
        texts(self.values@)
    }

    /// Every `Value` token refers to an entry of the value table.
    #[verifier::type_invariant]
    pub closed spec fn wf(&self) -> bool {
        values_below(self.token_seq(), self.value_seq().len())
    }

    /// The tokens written out: operators as their characters and values as
    /// their text, each followed by a space.
    pub fn render(&self) -> (r: String)
        ensures
            r@ == render(self.token_seq(), self.value_seq()),
    {
        proof {
            use_type_invariant(self);
        }
        let mut out = String::new();
        let ghost ts = self.tokens@;
        let ghost vs = texts(self.values@);
        let mut i: usize = 0;
        assert(ts.subrange(0, 0) =~= seq![]);
        while i < self.tokens.len()
            invariant
                i <= self.tokens.len(),
                ts == self.tokens@,
                vs == texts(self.values@),
                values_below(ts, vs.len()),
                out@ == render(ts.subrange(0, i as int), vs),
            decreases self.tokens.len() - i,
        {
            let ghost before = out@;
            match self.tokens[i] {
                Token::Value(k) => out.append(self.values[k].as_str()),
                Token::And => out.append("&"),
                Token::Or => out.append("|"),
                Token::Not => out.append("-"),
                Token::OpenParen => out.append("("),
                Token::CloseParen => out.append(")"),
                Token::Split => out.append(":"),
            }
            out.append(" ");
            proof {
                reveal_strlit("&");
                reveal_strlit("|");
                reveal_strlit("-");
                reveal_strlit("(");
                reveal_strlit(")");
                reveal_strlit(":");
                reveal_strlit(" ");
                assert(ts.subrange(0, i + 1).drop_last() =~= ts.subrange(0, i as int));
                let piece = token_text(ts[i as int], vs);
                assert(out@ =~= before + piece + seq![' ']);
            }
            i = i + 1;
        }
        assert(ts.subrange(0, i as int) =~= ts);
        out
    }

    /// Splits `query` into tokens, left to right. Never fails: a backslash at
    /// the end is dropped, and an unterminated quote runs to the end.
    pub fn new(query: &str) -> (r: Tokens)
        ensures
            r.token_seq() == lex(query@).tokens,
            r.value_seq() == lex(query@).values,
            r.wf(),
    {
        let n = query.unicode_len();
        let mut lx = Lexer { tokens: Vec::new(), values: Vec::new(), buf: Vec::new(), mode: Mode::Plain };
        assert(texts(lx.values@) =~= seq![]);
        assert(query@.subrange(0, n as int) =~= query@);
        let mut i: usize = 0;
        while i < n
            invariant
                n == query@.len(),
                i <= n,
                lx.values.len() <= i,
                values_below(lx.tokens@, lx.values.len() as nat),
                lex_from(lx.view(), query@.subrange(i as int, n as int)) == lex_from(lex_init(), query@),
            decreases n - i,
        {
            let c = query.get_char(i);
            lx.step(c);
            assert(query@.subrange(i as int, n as int).drop_first() =~= query@.subrange(i + 1, n as int));
            i = i + 1;
        }
        lx.add_value();
        Tokens { tokens: lx.tokens, values: lx.values }
    }

    pub(crate) fn into_parts(self) -> (r: (Vec<Token>, Vec<String>))
        ensures
            values_below(r.0@, r.1.len() as nat),
            r.0@ == self.token_seq(),
            texts(r.1@) == self.value_seq(),
    {
        proof {
            use_type_invariant(&self);
        }
        (self.tokens, self.values)
    }

    /// The token sequence, in query order.
    pub fn tokens(&self) -> (r: &Vec<Token>)
        ensures
            r@ == self.token_seq(),
    {
        &self.tokens
    }

    /// The value table: the literal texts that `Value` tokens refer to.
    pub fn values(&self) -> (r: &Vec<String>)
        ensures
            texts(r@) == self.value_seq(),
    {
        &self.values
    }
}

/// The character that an operator token is written as.
pub open spec fn op_char(t: Token) -> char {
    match t {
        Token::And => '&',
        Token::Or => '|',
        Token::Not => '-',
        Token::OpenParen => '(',
        Token::CloseParen => ')',
        _ => ':',
    }
}

/// A character that bare text holds as it is.
pub open spec fn plain_char(c: char) -> bool {
    c != ' ' && c != '\\' && c != '"' && operator_of(c) is None
}

/// The text of one token: a value's literal text, or an operator's character.
pub open spec fn token_text(t: Token, values: Seq<Seq<char>>) -> Seq<char> {
    match t {
        Token::Value(i) => values[i as int],
        _ => seq![op_char(t)],
    }
}

/// A token sequence written out, each token followed by a space.
pub open spec fn render(ts: Seq<Token>, values: Seq<Seq<char>>) -> Seq<char>
    decreases ts.len(),
{
    if ts.len() == 0 {
        seq![]
    } else {
        render(ts.drop_last(), values) + token_text(ts.last(), values) + seq![' ']
    }
}

/// How many `Value` tokens a sequence holds.
pub open spec fn value_count(ts: Seq<Token>) -> nat
    decreases ts.len(),
{
    if ts.len() == 0 {
        0
    } else {
        value_count(ts.drop_last()) + if ts.last() is Value { 1nat } else { 0nat }
    }
}

/// Tokens and values as the lexer makes them, with literals that need no
/// escaping or quoting: values numbered in order of appearance, each one
/// non-empty and made of plain characters.
pub open spec fn plain_tokens(ts: Seq<Token>, values: Seq<Seq<char>>) -> bool {
    &&& values.len() == value_count(ts)
    &&& forall|p: int|
        0 <= p < ts.len() && (#[trigger] ts[p]) is Value ==> ts[p]->0 == value_count(ts.subrange(0, p))
    &&& forall|k: int| 0 <= k < values.len() ==> (#[trigger] values[k]).len() > 0
    &&& forall|k: int, j: int|
        0 <= k < values.len() && 0 <= j < values[k].len() ==> plain_char(#[trigger] values[k][j])
}

proof fn lemma_lex_concat(st: LexState, a: Seq<char>, b: Seq<char>)
    ensures
        lex_from(st, a + b) == lex_from(lex_from(st, a), b),
    decreases a.len(),
{
    if a.len() == 0 {
        assert(a + b =~= b);
    } else {
        assert((a + b).drop_first() =~= a.drop_first() + b);
        lemma_lex_concat(lex_step(st, a[0]), a.drop_first(), b);
    }
}

proof fn lemma_lex_plain(st: LexState, text: Seq<char>)
    requires
        st.mode == Mode::Plain,
        forall|j: int| 0 <= j < text.len() ==> plain_char(#[trigger] text[j]),
    ensures
        lex_from(st, text) == with_buf(st, st.buf + text, Mode::Plain),
    decreases text.len(),
{
    if text.len() == 0 {
        assert(st.buf + text =~= st.buf);
    } else {
        let next = lex_step(st, text[0]);
        assert(plain_char(text[0]));
        assert(next == with_buf(st, st.buf.push(text[0]), Mode::Plain));
        lemma_lex_plain(next, text.drop_first());
        assert(st.buf.push(text[0]) + text.drop_first() =~= st.buf + text);
    }
}

proof fn lemma_count_prefix(ts: Seq<Token>, n: int)
    requires
        0 <= n <= ts.len(),
    ensures
        value_count(ts.subrange(0, n)) <= value_count(ts),
    decreases ts.len() - n,
{
    if n < ts.len() {
        assert(ts.subrange(0, n + 1).drop_last() =~= ts.subrange(0, n));
        lemma_count_prefix(ts, n + 1);
    } else {
        assert(ts.subrange(0, n) =~= ts);
    }
}

proof fn lemma_render_prefix(ts: Seq<Token>, values: Seq<Seq<char>>, n: int)
    requires
        plain_tokens(ts, values),
        0 <= n <= ts.len(),
    ensures
        lex_from(lex_init(), render(ts.subrange(0, n), values)) == (LexState {
            tokens: ts.subrange(0, n),
            values: values.subrange(0, value_count(ts.subrange(0, n)) as int),
            buf: seq![],
            mode: Mode::Plain,
        }),
    decreases n,
{
    let pre = ts.subrange(0, n);
    if n == 0 {
        assert(pre =~= seq![]);
        assert(values.subrange(0, 0) =~= seq![]);
    } else {
        lemma_render_prefix(ts, values, n - 1);
        let prev = ts.subrange(0, n - 1);
        assert(pre.drop_last() =~= prev);
        let c = value_count(prev);
        lemma_count_prefix(ts, n);
        let st = LexState { tokens: prev, values: values.subrange(0, c as int), buf: seq![], mode: Mode::Plain };
        let t = ts[n - 1];
        let piece = token_text(t, values);
        lemma_lex_concat(lex_init(), render(prev, values) + piece, seq![' ']);
        lemma_lex_concat(lex_init(), render(prev, values), piece);
        let mid = lex_from(st, piece);
        assert(render(pre, values) == render(prev, values) + piece + seq![' ']);
        assert(lex_from(lex_init(), render(prev, values) + piece) == mid);
        assert(seq![' '].drop_first() =~= seq![]);
        assert(lex_from(lex_step(mid, ' '), seq![' '].drop_first()) == lex_step(mid, ' '));
        assert(lex_from(mid, seq![' ']) == lex_step(mid, ' '));
        match t {
            Token::Value(k) => {
                assert(k == c);
                lemma_lex_plain(st, values[k as int]);
                assert(seq![] + values[k as int] =~= values[k as int]);
                assert(values.subrange(0, c as int).push(values[k as int]) =~= values.subrange(0, (c + 1) as int));
                assert(prev.push(Token::Value(k)) =~= pre);
                assert(value_count(pre) == c + 1);
            },
            _ => {
                assert(piece.drop_first() =~= seq![]);
                assert(prev.push(t) =~= pre);
                assert(operator_of(op_char(t)) == Some(t));
                assert(lex_from(lex_step(st, op_char(t)), piece.drop_first()) == lex_step(st, op_char(t)));
                assert(mid == lex_step(st, op_char(t)));
                assert(value_count(pre) == c);
            },
        }
    }
}

/// Writing a token sequence out, operators as their characters and values
/// as their text, each followed by a space, and lexing it again gives back
/// the same tokens and values, wherever the values need no escaping or
/// quoting.
pub proof fn lemma_round_trip(ts: Seq<Token>, values: Seq<Seq<char>>)
    requires
        plain_tokens(ts, values),
    ensures
        lex(render(ts, values)).tokens == ts,
        lex(render(ts, values)).values == values,
{
    lemma_render_prefix(ts, values, ts.len() as int);
    assert(ts.subrange(0, ts.len() as int) =~= ts);
    assert(values.subrange(0, values.len() as int) =~= values);
}

/// A lexer state between two characters of text without quotes or
/// backslashes: bare text, with a pending literal of plain characters and
/// tokens and values as `plain_tokens` describes.
pub open spec fn plain_state(st: LexState) -> bool {
    &&& st.mode == Mode::Plain
    &&& plain_tokens(st.tokens, st.values)
    &&& forall|j: int| 0 <= j < st.buf.len() ==> plain_char(#[trigger] st.buf[j])
}

proof fn lemma_push_token(ts: Seq<Token>, values: Seq<Seq<char>>, t: Token, text: Seq<char>)
    requires
        plain_tokens(ts, values),
        t is Value ==> t->0 == values.len() && text.len() > 0
            && forall|j: int| 0 <= j < text.len() ==> plain_char(#[trigger] text[j]),
    ensures
        plain_tokens(ts.push(t), if t is Value { values.push(text) } else { values }),
{
    let ts2 = ts.push(t);
    let vs2 = if t is Value { values.push(text) } else { values };
    assert(ts2.drop_last() =~= ts);
    assert forall|p: int| 0 <= p < ts2.len() && (#[trigger] ts2[p]) is Value implies ts2[p]->0
        == value_count(ts2.subrange(0, p)) by {
        if p < ts.len() {
            assert(ts2.subrange(0, p) =~= ts.subrange(0, p));
        } else {
            assert(ts2.subrange(0, p) =~= ts);
        }
    }
    assert forall|k: int, j: int| 0 <= k < vs2.len() && 0 <= j < vs2[k].len() implies plain_char(
        #[trigger] vs2[k][j],
    ) by {
        if k < values.len() {
            assert(vs2[k] == values[k]);
        }
    }
    assert forall|k: int| 0 <= k < vs2.len() implies (#[trigger] vs2[k]).len() > 0 by {
        if k < values.len() {
            assert(vs2[k] == values[k]);
        }
    }
}

/// How many values the table holds once the pending literal is flushed.
pub open spec fn flushed_count(st: LexState) -> int {
    st.values.len() + if st.buf.len() > 0 { 1int } else { 0int }
}

proof fn lemma_flush_plain(st: LexState)
    requires
        plain_state(st),
        flushed_count(st) <= usize::MAX,
    ensures
        plain_state(flush(st)),
        flush(st).buf.len() == 0,
        flushed_count(flush(st)) == flushed_count(st),
{
    if st.buf.len() > 0 {
        lemma_push_token(st.tokens, st.values, Token::Value(st.values.len() as usize), st.buf);
    }
}

proof fn lemma_lex_from_plain(st: LexState, s: Seq<char>)
    requires
        plain_state(st),
        flushed_count(st) + s.len() <= usize::MAX,
        forall|j: int| 0 <= j < s.len() ==> #[trigger] s[j] != '"' && s[j] != '\\',
    ensures
        plain_state(lex_from(st, s)),
        flushed_count(lex_from(st, s)) <= usize::MAX,
    decreases s.len(),
{
    if s.len() > 0 {
        let c = s[0];
        let next = lex_step(st, c);
        if c == ' ' {
            lemma_flush_plain(st);
        } else if operator_of(c) is Some {
            lemma_flush_plain(st);
            let f = flush(st);
            lemma_push_token(f.tokens, f.values, operator_of(c)->0, seq![]);
        } else {
            assert(plain_char(c));
            assert forall|j: int| 0 <= j < next.buf.len() implies plain_char(#[trigger] next.buf[j]) by {
                if j < st.buf.len() {
                    assert(next.buf[j] == st.buf[j]);
                }
            }
        }
        assert forall|j: int| 0 <= j < s.drop_first().len() implies #[trigger] s.drop_first()[j] != '"'
            && s.drop_first()[j] != '\\' by {
            assert(s.drop_first()[j] == s[j + 1]);
        }
        lemma_lex_from_plain(next, s.drop_first());
    }
}

/// Lexing a query without quotes or backslashes, writing its tokens out,
/// operators as their characters and values as their text, each followed by
/// a space, and lexing that again gives back the same tokens and values.
pub proof fn lemma_query_round_trip(s: Seq<char>)
    requires
        s.len() <= usize::MAX,
        forall|j: int| 0 <= j < s.len() ==> #[trigger] s[j] != '"' && s[j] != '\\',
    ensures
        lex(render(lex(s).tokens, lex(s).values)).tokens == lex(s).tokens,
        lex(render(lex(s).tokens, lex(s).values)).values == lex(s).values,
{
    let init = lex_init();
    assert(value_count(init.tokens) == 0);
    assert(plain_state(init));
    lemma_lex_from_plain(init, s);
    lemma_flush_plain(lex_from(init, s));
    lemma_round_trip(lex(s).tokens, lex(s).values);
}

} // verus!
