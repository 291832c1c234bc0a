//! The structural formatter: walks a token stream, matches delimiters itself
//! and emits an indented multi-line rendering.
use vstd::prelude::*;
use crate::text::{decimal_of, indent, push_decimal, push_indent};
use crate::token::{closer_of, is_close, is_open, same_token, Error, NonRecoverableError, Ranged, Token};

verus! {

/// The outcome of formatting a stretch of tokens: the text, the tokens left
/// over and the diagnostics collected; or an aborted pass with its
/// diagnostics.
pub enum Pass {
    Done { text: Seq<char>, rest: Seq<Token>, errors: Seq<Error> },
    Failed { errors: Seq<Error> },
}

/// `p` preceded by `text` and `errors`.
pub open spec fn prepend(text: Seq<char>, errors: Seq<Error>, p: Pass) -> Pass {
    match p {
        Pass::Done { text: t, rest, errors: e } => Pass::Done {
            text: text + t,
            rest,
            errors: errors + e,
        },
        Pass::Failed { errors: e } => Pass::Failed { errors: errors + e },
    }
}

/// `p` with its text put between `open` and `close`.
pub open spec fn wrap(p: Pass, open: Seq<char>, close: Seq<char>) -> Pass {
    match p {
        Pass::Done { text, rest, errors } => Pass::Done { text: open + text + close, rest, errors },
        Pass::Failed { errors } => Pass::Failed { errors },
    }
}

/// The text of a token that is no delimiter.
pub open spec fn atom_text(t: Token) -> Seq<char> {
    match t {
        Token::Comment(s) => s@,
        Token::String(s) => seq!['"'] + s@ + seq!['"'],
        Token::Symbol(s) => s@,
        Token::Int(n) => decimal_of(n as int),
        Token::Float(s) => s@,
        Token::Annotation(s) => seq!['#'] + s@,
        Token::Quote => seq!['\''],
        _ => Seq::empty(),
    }
}

/// Formatting the token `t`, already taken from the stream, with `rest`
/// still to come, at nesting depth `depth`.
pub open spec fn expr_pass(rest: Seq<Token>, t: Token, depth: nat) -> Pass
    decreases rest.len(), 1nat,
{
    match t {
        Token::LeftParen => wrap(
            list_pass(rest, depth + 1, Token::RightParen),
            seq!['('],
            seq![')'],
        ),
        Token::LeftBracket => wrap(
            list_pass(rest, depth + 1, Token::RightBracket),
            seq!['[', '\n'],
            seq![']'],
        ),
        Token::LeftBrace => wrap(
            list_pass(rest, depth + 1, Token::RightBrace),
            seq!['{', '\n'],
            seq!['}', ')'],
        ),
        Token::RightParen | Token::RightBracket | Token::RightBrace => Pass::Done {
            text: Seq::empty(),
            rest,
            errors: seq![Error::UnexpectedToken(t)],
        },
        _ => Pass::Done { text: atom_text(t), rest, errors: Seq::empty() },
    }
}

/// Formatting the body of a list at depth `depth` up to and including
/// `delimiter`: one line per element, indented by the depth.
pub open spec fn list_pass(rest: Seq<Token>, depth: nat, delimiter: Token) -> Pass
    decreases rest.len(), 0nat,
{
    if rest.len() == 0 {
        Pass::Failed { errors: seq![Error::UnterminatedList] }
    } else if same_token(rest[0], delimiter) {
        Pass::Done { text: Seq::empty(), rest: rest.drop_first(), errors: Seq::empty() }
    } else {
        match expr_pass(rest.drop_first(), rest[0], depth) {
            Pass::Done { text, rest: after, errors } => {
                if after.len() < rest.len() {
                    prepend(
                        indent(depth) + text + seq!['\n'],
                        errors,
                        list_pass(after, depth, delimiter),
                    )
                } else {
                    Pass::Failed { errors }
                }
            },
            Pass::Failed { errors } => Pass::Failed { errors },
        }
    }
}

/// Formatting every token of `rest` at the top level, at depth `depth`.
pub open spec fn top_pass(rest: Seq<Token>, depth: nat) -> Pass
    decreases rest.len(),
{
    if rest.len() == 0 {
        Pass::Done { text: Seq::empty(), rest, errors: Seq::empty() }
    } else {
        match expr_pass(rest.drop_first(), rest[0], depth) {
            Pass::Done { text, rest: after, errors } => {
                if after.len() < rest.len() {
                    prepend(text, errors, top_pass(after, depth))
                } else {
                    Pass::Failed { errors }
                }
            },
            Pass::Failed { errors } => Pass::Failed { errors },
        }
    }
}

proof fn lemma_prepend_twice(a: Seq<char>, ea: Seq<Error>, b: Seq<char>, eb: Seq<Error>, p: Pass)
    ensures
        prepend(a, ea, prepend(b, eb, p)) == prepend(a + b, ea + eb, p),
{
    match p {
        Pass::Done { text, rest, errors } => {
            assert(a + (b + text) =~= (a + b) + text);
            assert(ea + (eb + errors) =~= (ea + eb) + errors);
        },
        Pass::Failed { errors } => {
            assert(ea + (eb + errors) =~= (ea + eb) + errors);
        },
    }
}

/// Whether reading `rest`, with `expected` the closing delimiters still owed
/// (innermost last), leaves a list open at the end. A token equal to the
/// innermost owed closer closes it, an opening delimiter owes its closer, and
/// anything else (a stray closer included) changes nothing.
pub open spec fn leaves_unclosed(rest: Seq<Token>, expected: Seq<Token>) -> bool
    decreases rest.len(),
{
    if rest.len() == 0 {
        expected.len() > 0
    } else if expected.len() > 0 && same_token(rest[0], expected.last()) {
        leaves_unclosed(rest.drop_first(), expected.drop_last())
    } else if is_open(rest[0]) {
        leaves_unclosed(rest.drop_first(), expected.push(closer_of(rest[0])))
    } else {
        leaves_unclosed(rest.drop_first(), expected)
    }
}

/// Whether `rest` closes every list it opens and the `expected` ones, in
/// nesting order, with no stray closing delimiter.
pub open spec fn well_nested(rest: Seq<Token>, expected: Seq<Token>) -> bool
    decreases rest.len(),
{
    if rest.len() == 0 {
        expected.len() == 0
    } else if is_open(rest[0]) {
        well_nested(rest.drop_first(), expected.push(closer_of(rest[0])))
    } else if is_close(rest[0]) {
        expected.len() > 0 && same_token(rest[0], expected.last())
            && well_nested(rest.drop_first(), expected.drop_last())
    } else {
        well_nested(rest.drop_first(), expected)
    }
}

/// A token stream whose delimiters all match, in nesting order.
pub open spec fn well_formed(tokens: Seq<Token>) -> bool {
    well_nested(tokens, Seq::empty())
}

/// Diagnostics that are all recoverable.
pub open spec fn all_recoverable(errors: Seq<Error>) -> bool {
    forall|i: int| 0 <= i < errors.len() ==> #[trigger] errors[i] is UnexpectedToken
}

/// Diagnostics of an aborted pass: recoverable ones, then exactly one
/// unterminated list, last.
pub open spec fn ends_unterminated(errors: Seq<Error>) -> bool {
    errors.len() > 0 && errors.last() is UnterminatedList && all_recoverable(errors.drop_last())
}

proof fn lemma_errors_concat(a: Seq<Error>, b: Seq<Error>)
    requires
        all_recoverable(a),
    ensures
        all_recoverable(b) ==> all_recoverable(a + b),
        ends_unterminated(b) ==> ends_unterminated(a + b),
{
    if ends_unterminated(b) {
        assert((a + b).drop_last() =~= a + b.drop_last());
    }
    assert forall|i: int| 0 <= i < (a + b).len() && all_recoverable(b) implies (a + b)[i] is UnexpectedToken by {
        if i >= a.len() {
            assert((a + b)[i] == b[i - a.len()]);
        }
    }
}

proof fn lemma_expr_pass(rest: Seq<Token>, t: Token, depth: nat, outer: Seq<Token>)
    ensures
        match expr_pass(rest, t, depth) {
            Pass::Done { text, rest: after, errors } => after.len() <= rest.len()
                && all_recoverable(errors)
                && (is_open(t) ==> leaves_unclosed(rest, outer.push(closer_of(t)))
                    == leaves_unclosed(after, outer))
                && (!is_open(t) ==> after == rest),
            Pass::Failed { errors } => is_open(t)
                && leaves_unclosed(rest, outer.push(closer_of(t)))
                && ends_unterminated(errors),
        },
    decreases rest.len(), 1nat,
{
    if is_open(t) {
        lemma_list_pass(rest, depth + 1, closer_of(t), outer);
    }
}

proof fn lemma_list_pass(rest: Seq<Token>, depth: nat, delimiter: Token, outer: Seq<Token>)
    ensures
        match list_pass(rest, depth, delimiter) {
            Pass::Done { text, rest: after, errors } => after.len() < rest.len()
                && all_recoverable(errors)
                && leaves_unclosed(rest, outer.push(delimiter)) == leaves_unclosed(after, outer),
            Pass::Failed { errors } => leaves_unclosed(rest, outer.push(delimiter))
                && ends_unterminated(errors),
        },
    decreases rest.len(), 0nat,
{
    let owed = outer.push(delimiter);
    if rest.len() == 0 {
        assert(ends_unterminated(seq![Error::UnterminatedList]));
    } else if same_token(rest[0], delimiter) {
        assert(owed.drop_last() =~= outer);
    } else {
        let t = rest[0];
        let r1 = rest.drop_first();
        lemma_expr_pass(r1, t, depth, owed);
        match expr_pass(r1, t, depth) {
            Pass::Done { text, rest: after, errors } => {
                lemma_list_pass(after, depth, delimiter, outer);
                match list_pass(after, depth, delimiter) {
                    Pass::Done { text: t2, rest: a2, errors: e2 } => {
                        lemma_errors_concat(errors, e2);
                    },
                    Pass::Failed { errors: e2 } => {
                        lemma_errors_concat(errors, e2);
                    },
                }
            },
            Pass::Failed { errors } => {},
        }
    }
}

proof fn lemma_top_pass(rest: Seq<Token>, depth: nat)
    ensures
        match top_pass(rest, depth) {
            Pass::Done { text, rest: after, errors } => !leaves_unclosed(rest, Seq::empty())
                && after.len() == 0 && all_recoverable(errors),
            Pass::Failed { errors } => leaves_unclosed(rest, Seq::empty())
                && ends_unterminated(errors),
        },
    decreases rest.len(),
{
    if rest.len() > 0 {
        let t = rest[0];
        let r1 = rest.drop_first();
        lemma_expr_pass(r1, t, depth, Seq::empty());
        match expr_pass(r1, t, depth) {
            Pass::Done { text, rest: after, errors } => {
                lemma_top_pass(after, depth);
                match top_pass(after, depth) {
                    Pass::Done { text: t2, rest: a2, errors: e2 } => {
                        lemma_errors_concat(errors, e2);
                    },
                    Pass::Failed { errors: e2 } => {
                        lemma_errors_concat(errors, e2);
                    },
                }
            },
            Pass::Failed { errors } => {},
        }
    }
}

proof fn lemma_well_nested_closes(rest: Seq<Token>, expected: Seq<Token>)
    requires
        well_nested(rest, expected),
        forall|i: int| 0 <= i < expected.len() ==> is_close(#[trigger] expected[i]),
    ensures
        !leaves_unclosed(rest, expected),
    decreases rest.len(),
{
    if rest.len() > 0 {
        let t = rest[0];
        if is_open(t) {
            let more = expected.push(closer_of(t));
            assert forall|i: int| 0 <= i < more.len() implies is_close(#[trigger] more[i]) by {
                if i < expected.len() {
                    assert(more[i] == expected[i]);
                }
            }
            lemma_well_nested_closes(rest.drop_first(), more);
        } else if is_close(t) {
            let fewer = expected.drop_last();
            assert forall|i: int| 0 <= i < fewer.len() implies is_close(#[trigger] fewer[i]) by {
                assert(fewer[i] == expected[i]);
            }
            lemma_well_nested_closes(rest.drop_first(), fewer);
        } else {
            lemma_well_nested_closes(rest.drop_first(), expected);
        }
    }
}

/// Formatting a stream whose delimiters all match succeeds, and by the
/// contract of `format` the nesting depth ends where it started; only
/// recoverable diagnostics can have been collected.
pub proof fn well_formed_stream_formats(tokens: Seq<Token>, depth: nat)
    requires
        well_formed(tokens),
    ensures
        top_pass(tokens, depth) is Done,
        all_recoverable(top_pass(tokens, depth)->Done_errors),
{
    lemma_well_nested_closes(tokens, Seq::empty());
    lemma_top_pass(tokens, depth);
}

/// Formatting fails exactly on a stream that leaves a list open, and then
/// its diagnostics end with the one unterminated-list diagnostic, all
/// earlier ones being recoverable.
pub proof fn unclosed_stream_fails(tokens: Seq<Token>, depth: nat)
    ensures
        (top_pass(tokens, depth) is Failed) == leaves_unclosed(tokens, Seq::empty()),
        top_pass(tokens, depth) is Failed ==> ends_unterminated(top_pass(tokens, depth)->Failed_errors),
{
    lemma_top_pass(tokens, depth);
}

/// A stray closing delimiter at the top level does not stop the pass: it
/// adds no text and one recoverable diagnostic, and the tokens after it are
/// formatted as if it were absent.
pub proof fn stray_close_is_swallowed(t: Token, rest: Seq<Token>, depth: nat)
    requires
        is_close(t),
    ensures
        top_pass(seq![t] + rest, depth) == prepend(
            Seq::empty(),
            seq![Error::UnexpectedToken(t)],
            top_pass(rest, depth),
        ),
{
    let all = seq![t] + rest;
    assert(all.drop_first() =~= rest);
    assert(all[0] == t);
}

/// Each line of a list body at depth `depth` starts with exactly four
/// spaces per level.
pub proof fn indentation_is_four_spaces_per_level(depth: nat)
    ensures
        indent(depth).len() == 4 * depth,
        forall|i: int| 0 <= i < 4 * depth ==> #[trigger] indent(depth)[i] == ' ',
{
}

/// A formatting pass over one token stream.
pub struct Formatter {
    /// The tokens not consumed yet, the next one last.
    tokens: Vec<Ranged>,
    nesting: usize,
    errors: Vec<Error>,
}

impl Formatter {
    /// The tokens not consumed yet, in stream order.
    pub closed spec fn pending(&self) -> Seq<Token> {
        Seq::new(self.tokens@.len(), |i: int| self.tokens@[self.tokens@.len() - 1 - i].0)
    }

    /// The current nesting depth.
    pub closed spec fn level(&self) -> nat {
        self.nesting as nat
    }

    /// The diagnostics collected so far.
    pub closed spec fn diagnostics(&self) -> Seq<Error> {
        self.errors@
    }

    /// The nesting counter can grow once for each pending token.
    pub open spec fn has_room(&self) -> bool {
        self.level() + self.pending().len() <= usize::MAX
    }

    /// Starts a pass over `tokens`, at depth 0 with no diagnostics.
    pub fn new(tokens: Vec<Ranged>) -> (f: Self)
        ensures
            f.pending() == tokens@.map_values(|r: Ranged| r.0),
            f.level() == 0,
            f.diagnostics() == Seq::<Error>::empty(),
            f.has_room(),
    {
        let mut tokens = tokens;
        let ghost all = tokens@;
        let mut stack: Vec<Ranged> = Vec::new();
        while tokens.len() > 0
            invariant
                tokens@ == all.subrange(0, tokens@.len() as int),
                stack@.len() + tokens@.len() == all.len(),
                forall|j: int|
                    0 <= j < stack@.len() ==> #[trigger] stack@[j] == all[all.len() - 1 - j],
            decreases tokens@.len(),
        {
            if let Some(t) = tokens.pop() {
                stack.push(t);
            }
        }
        // The length is a usize: so is every depth the tokens can reach.
        let count: usize = stack.len();
        assert(count == stack@.len());
        let f = Formatter { tokens: stack, nesting: 0, errors: Vec::new() };
        assert(f.pending() =~= all.map_values(|r: Ranged| r.0));
        f
    }

    /// Takes the next token off the stream.
    fn next_token(&mut self) -> (r: Option<Ranged>)
        ensures
            old(self).pending().len() == 0 ==> r is None && final(self).pending() == old(self).pending(),
            old(self).pending().len() > 0 ==> r is Some && r->Some_0.0 == old(self).pending()[0]
                && final(self).pending() == old(self).pending().drop_first(),
            final(self).level() == old(self).level(),
            final(self).diagnostics() == old(self).diagnostics(),
    {
        let r = self.tokens.pop();
        assert(self.pending() =~= old(self).pending().drop_first() || old(self).pending().len() == 0);
        r
    }
    /// Formats the body of a list whose end is `delimiter`, one indented
    /// line per element, and consumes the delimiter.
    pub fn format_list(&mut self, delimiter: Token) -> (r: Result<String, NonRecoverableError>)
        requires
            old(self).level() + old(self).pending().len() < usize::MAX,
        ensures
            match list_pass(old(self).pending(), old(self).level() + 1, delimiter) {
                Pass::Done { text, rest, errors } => r is Ok && r->Ok_0@ == text
                    && final(self).pending() == rest
                    && final(self).level() == old(self).level()
                    && final(self).diagnostics() == old(self).diagnostics() + errors,
                Pass::Failed { errors } => r is Err && final(self).pending().len() == 0
                    && final(self).diagnostics() == old(self).diagnostics() + errors,
            },
            final(self).pending().len() <= old(self).pending().len(),
            final(self).has_room(),
        decreases old(self).pending().len(), 0nat,
    {
        let ghost start = old(self).pending();
        let ghost depth = old(self).level() + 1;
        let ghost mut errs: Seq<Error> = Seq::empty();
        let mut output = String::new();
        self.nesting = self.nesting + 1;
        loop
            invariant
                self.level() == depth,
                depth == old(self).level() + 1,
                self.level() + self.pending().len() <= usize::MAX,
                self.pending().len() <= start.len(),
                start == old(self).pending(),
                self.diagnostics() == old(self).diagnostics() + errs,
                list_pass(start, depth, delimiter) == prepend(
                    output@,
                    errs,
                    list_pass(self.pending(), depth, delimiter),
                ),
            decreases self.pending().len(),
        {
            let ghost before = self.pending();
            let next = self.next_token();
            match next {
                None => {
                    self.errors.push(Error::UnterminatedList);
                    proof {
                        assert(self.diagnostics() =~= old(self).diagnostics() + (errs + seq![Error::UnterminatedList]));
                    }
                    return Err(NonRecoverableError {});
                },
                Some(token) => {
                    if token.0.same_as(&delimiter) {
                        self.nesting = self.nesting - 1;
                        proof {
                            assert(output@ + Seq::<char>::empty() =~= output@);
                            assert(errs + Seq::<Error>::empty() =~= errs);
                        }
                        return Ok(output);
                    }
                    let ghost t = token.0;
                    let s = match self.format_expr(token) {
                        Ok(s) => s,
                        Err(e) => {
                            return Err(e);
                        },
                    };
                    let ghost line_start = output@;
                    push_indent(&mut output, self.nesting);
                    output.append(s.as_str());
                    proof {
                        reveal_strlit("\n");
                    }
                    output.append("\n");
                    proof {
                        let line = indent(depth) + s@ + seq!['\n'];
                        let e = expr_pass(before.drop_first(), before[0], depth)->Done_errors;
                        assert(output@ =~= line_start + line);
                        assert(list_pass(before, depth, delimiter) == prepend(line, e, list_pass(self.pending(), depth, delimiter)));
                        lemma_prepend_twice(line_start, errs, line, e, list_pass(self.pending(), depth, delimiter));
                        errs = errs + e;
                        assert(self.diagnostics() =~= old(self).diagnostics() + errs);
                    }
                },
            }
        }
    }

    /// Formats one token taken from the stream; an opening delimiter
    /// formats the whole list it starts.
    pub fn format_expr(&mut self, token: Ranged) -> (r: Result<String, NonRecoverableError>)
        requires
            old(self).level() + old(self).pending().len() < usize::MAX,
        ensures
            match expr_pass(old(self).pending(), token.0, old(self).level()) {
                Pass::Done { text, rest, errors } => r is Ok && r->Ok_0@ == text
                    && final(self).pending() == rest
                    && final(self).level() == old(self).level()
                    && final(self).diagnostics() == old(self).diagnostics() + errors,
                Pass::Failed { errors } => r is Err && final(self).pending().len() == 0
                    && final(self).diagnostics() == old(self).diagnostics() + errors,
            },
            final(self).pending().len() <= old(self).pending().len(),
            final(self).has_room(),
        decreases old(self).pending().len(), 1nat,
    {
        let Ranged(t, _) = token;
        proof {
            reveal_strlit("\"");
            reveal_strlit("#");
            reveal_strlit("'");
            reveal_strlit("(");
            reveal_strlit(")");
            reveal_strlit("[\n");
            reveal_strlit("]");
            reveal_strlit("{\n");
            reveal_strlit("})");
        }
        match t {
            Token::Comment(s) => Ok(s),
            Token::String(s) => {
                let mut out = String::new();
                out.append("\"");
                out.append(s.as_str());
                out.append("\"");
                Ok(out)
            },
            Token::Symbol(s) => Ok(s),
            Token::Int(n) => {
                let mut out = String::new();
                push_decimal(&mut out, n);
                Ok(out)
            },
            Token::Float(s) => Ok(s),
            Token::Annotation(s) => {
                let mut out = String::new();
                out.append("#");
                out.append(s.as_str());
                Ok(out)
            },
            Token::Quote => {
                let mut out = String::new();
                out.append("'");
                Ok(out)
            },
            Token::LeftParen => {
                let s = self.format_list(Token::RightParen)?;
                let mut out = String::new();
                out.append("(");
                out.append(s.as_str());
                out.append(")");
                Ok(out)
            },
            Token::LeftBracket => {
                // Sugar for a sequence.
                let s = self.format_list(Token::RightBracket)?;
                let mut out = String::new();
                out.append("[\n");
                out.append(s.as_str());
                out.append("]");
                Ok(out)
            },
            Token::LeftBrace => {
                // Sugar for a mapping; the body is closed by `})`.
                let s = self.format_list(Token::RightBrace)?;
                let mut out = String::new();
                out.append("{\n");
                out.append(s.as_str());
                out.append("})");
                Ok(out)
            },
            Token::RightParen | Token::RightBracket | Token::RightBrace => {
                // A stray closing delimiter: note it and carry on.
                self.errors.push(Error::UnexpectedToken(t));
                Ok(String::new())
            },
        }
    }

    /// Formats the whole stream. On an unterminated list the pass stops and
    /// the collected diagnostics are handed out (and cleared); on success
    /// they stay collected.
    pub fn format(&mut self) -> (r: Result<String, Vec<Error>>)
        requires
            old(self).has_room(),
        ensures
            match top_pass(old(self).pending(), old(self).level()) {
                Pass::Done { text, rest, errors } => r is Ok && r->Ok_0@ == text
                    && final(self).level() == old(self).level()
                    && final(self).diagnostics() == old(self).diagnostics() + errors,
                Pass::Failed { errors } => r is Err
                    && r->Err_0@ == old(self).diagnostics() + errors
                    && final(self).diagnostics().len() == 0,
            },
            final(self).pending().len() == 0,
            final(self).has_room(),
    {
        let ghost start = old(self).pending();
        let ghost depth = old(self).level();
        let ghost mut errs: Seq<Error> = Seq::empty();
        let mut output = String::new();
        loop
            invariant
                self.level() == depth,
                depth == old(self).level(),
                self.has_room(),
                start == old(self).pending(),
                self.diagnostics() == old(self).diagnostics() + errs,
                top_pass(start, depth) == prepend(output@, errs, top_pass(self.pending(), depth)),
            decreases self.pending().len(),
        {
            let ghost before = self.pending();
            let next = self.next_token();
            match next {
                None => {
                    proof {
                        assert(output@ + Seq::<char>::empty() =~= output@);
                        assert(errs + Seq::<Error>::empty() =~= errs);
                    }
                    return Ok(output);
                },
                Some(token) => {
                    match self.format_expr(token) {
                        Ok(s) => {
                            let ghost prev = output@;
                            output.append(s.as_str());
                            proof {
                                let e = expr_pass(before.drop_first(), before[0], depth)->Done_errors;
                                assert(top_pass(before, depth) == prepend(s@, e, top_pass(self.pending(), depth)));
                                lemma_prepend_twice(prev, errs, s@, e, top_pass(self.pending(), depth));
                                errs = errs + e;
                                assert(self.diagnostics() =~= old(self).diagnostics() + errs);
                            }
                        },
                        Err(_) => {
                            let mut errors: Vec<Error> = Vec::new();
                            std::mem::swap(&mut errors, &mut self.errors);
                            return Err(errors);
                        },
                    }
                },
            }
        }
    }
    /// The current nesting depth.
    pub fn nesting(&self) -> (r: usize)
        ensures
            r == self.level(),
    {
        self.nesting
    }

    /// The diagnostics collected so far.
    pub fn errors(&self) -> (r: &Vec<Error>)
        ensures
            r@ == self.diagnostics(),
    {
        &self.errors
    }
}

} // verus!
