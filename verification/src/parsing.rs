//! The parser: a single left-to-right pass over the character stream,
//! driven by a stack of open frames, a token buffer and a literal flag.
use crate::expression::lemma_view_exprs;
use crate::expression::view_exprs;
use crate::expression::Expr;
use crate::expression::ExprV;
use vstd::prelude::*;
use vstd::string::StrSliceExecFns;

verus! {

/// Why a source text was rejected.
#[derive(Debug, PartialEq, Eq, Structural, Clone, Copy)]
pub enum ParseError {
    /// A `)` with no open `(` to match it.
    UnbalancedParentheses,
    /// An open `(` still unclosed at the end of the input.
    UnterminatedList,
    /// A digit-led token that is not a base-10 integer fitting the
    /// integer payload.
    MalformedNumber,
    /// A character other than `t` or `f` after `#`, or a `#` with
    /// nothing after it.
    MalformedLiteral,
}

/// The parser's abstract state: the open frames, innermost last; the
/// token being read; and whether a `#` awaits its selector character.
#[verifier::ext_equal]
pub struct PStateV {
    pub stack: Seq<Seq<ExprV>>,
    pub buf: Seq<char>,
    pub literal: bool,
}

/// A whitespace character, by its code point.
pub open spec fn is_space(c: char) -> bool {
    let u = c as u32;
    u == 0x9 || u == 0xA || u == 0xB || u == 0xC || u == 0xD || u == 0x20 || u == 0x85 || u
        == 0xA0 || u == 0x1680 || (0x2000 <= u && u <= 0x200A) || u == 0x2028 || u == 0x2029 || u
        == 0x202F || u == 0x205F || u == 0x3000
}

/// A decimal digit.
pub open spec fn is_digit_char(c: char) -> bool {
    48 <= c as u32 && c as u32 <= 57
}

/// Every character of `s` is a decimal digit.
pub open spec fn all_digits(s: Seq<char>) -> bool {
    forall|i: int| 0 <= i < s.len() ==> is_digit_char(#[trigger] s[i])
}

/// The base-10 value of a digit string.
pub open spec fn digits_val(s: Seq<char>) -> int
    decreases s.len(),
{
    if s.len() == 0 {
        0
    } else {
        digits_val(s.drop_last()) * 10 + (s.last() as u32 - 48)
    }
}

/// The state after appending a finished expression to the innermost
/// open frame.
pub open spec fn append_top(st: PStateV, e: ExprV) -> PStateV {
    PStateV {
        stack: st.stack.update(st.stack.len() - 1, st.stack.last().push(e)),
        ..st
    }
}

/// Token finalization: an empty buffer is a no-op; a digit-led buffer
/// must be a base-10 integer in range; anything else becomes a symbol.
pub open spec fn finish_token(st: PStateV) -> Result<PStateV, ParseError> {
    if st.buf.len() == 0 {
        Ok(st)
    } else if is_digit_char(st.buf[0]) {
        if all_digits(st.buf) && digits_val(st.buf) <= i32::MAX {
            Ok(append_top(PStateV { buf: Seq::empty(), ..st }, ExprV::Integer(digits_val(st.buf))))
        } else {
            Err(ParseError::MalformedNumber)
        }
    } else {
        Ok(append_top(PStateV { buf: Seq::empty(), ..st }, ExprV::Symbol(st.buf)))
    }
}

/// One step of the parser on one character.
pub open spec fn pstep(st: PStateV, c: char) -> Result<PStateV, ParseError> {
    if st.literal {
        if c == 't' {
            Ok(append_top(PStateV { literal: false, ..st }, ExprV::Bool(true)))
        } else if c == 'f' {
            Ok(append_top(PStateV { literal: false, ..st }, ExprV::Bool(false)))
        } else {
            Err(ParseError::MalformedLiteral)
        }
    } else if c == '(' {
        match finish_token(st) {
            Ok(st1) => Ok(PStateV { stack: st1.stack.push(Seq::empty()), ..st1 }),
            Err(e) => Err(e),
        }
    } else if c == ')' {
        match finish_token(st) {
            Ok(st1) => {
                if st1.stack.len() <= 1 {
                    Err(ParseError::UnbalancedParentheses)
                } else {
                    Ok(
                        append_top(
                            PStateV { stack: st1.stack.drop_last(), ..st1 },
                            ExprV::List(st1.stack.last()),
                        ),
                    )
                }
            },
            Err(e) => Err(e),
        }
    } else if c == '#' {
        match finish_token(st) {
            Ok(st1) => Ok(PStateV { literal: true, ..st1 }),
            Err(e) => Err(e),
        }
    } else if is_space(c) {
        finish_token(st)
    } else {
        Ok(PStateV { buf: st.buf.push(c), ..st })
    }
}

/// The parser's starting state: one open `Program` frame, nothing else.
pub open spec fn init_pstate() -> PStateV {
    PStateV { stack: seq![Seq::empty()], buf: Seq::empty(), literal: false }
}

/// The state after the whole character stream, or the first failure.
pub open spec fn pfold(s: Seq<char>) -> Result<PStateV, ParseError>
    decreases s.len(),
{
    if s.len() == 0 {
        Ok(init_pstate())
    } else {
        match pfold(s.drop_last()) {
            Ok(st) => pstep(st, s.last()),
            Err(e) => Err(e),
        }
    }
}

/// The end-of-input rule: finalize any pending token; a pending `#` is
/// an unfinished literal; exactly the bottom frame must remain.
pub open spec fn pfinish(st: PStateV) -> Result<ExprV, ParseError> {
    match finish_token(st) {
        Ok(st1) => {
            if st1.literal {
                Err(ParseError::MalformedLiteral)
            } else if st1.stack.len() == 1 {
                Ok(ExprV::Program(st1.stack[0]))
            } else {
                Err(ParseError::UnterminatedList)
            }
        },
        Err(e) => Err(e),
    }
}

/// What parsing a character stream yields: a `Program` of the forms
/// read, or the first failure.
pub open spec fn parse_spec(s: Seq<char>) -> Result<ExprV, ParseError> {
    match pfold(s) {
        Ok(st) => pfinish(st),
        Err(e) => Err(e),
    }
}

/// Once a prefix fails, the whole stream fails the same way.
pub proof fn lemma_pfold_prefix_err(s: Seq<char>, k: int)
    requires
        0 <= k <= s.len(),
        pfold(s.take(k)) is Err,
    ensures
        pfold(s) == pfold(s.take(k)),
    decreases s.len() - k,
{
    if k == s.len() {
        assert(s.take(k) =~= s);
    } else {
        assert(s.take(k + 1).drop_last() =~= s.take(k));
        assert(pfold(s.take(k + 1)) == pfold(s.take(k)));
        lemma_pfold_prefix_err(s, k + 1);
    }
}

/// Relies on `String::push`: it appends the given character to the end
/// of the string.
pub assume_specification[ String::push ](s: &mut String, ch: char)
    ensures
        final(s)@ == old(s)@.push(ch),
;

/// The views of a stack of frames, frame by frame.
pub open spec fn view_frames(s: Seq<Vec<Expr>>) -> Seq<Seq<ExprV>>
    decreases s,
{
    if s.len() == 0 {
        Seq::empty()
    } else {
        view_frames(s.drop_last()).push(view_exprs(s.last()@))
    }
}

/// `view_frames` indexes pointwise.
pub broadcast proof fn lemma_view_frames(s: Seq<Vec<Expr>>)
    ensures
        (#[trigger] view_frames(s)).len() == s.len(),
        forall|i: int| 0 <= i < s.len() ==> #[trigger] view_frames(s)[i] == view_exprs(s[i]@),
    decreases s.len(),
{
    if s.len() > 0 {
        lemma_view_frames(s.drop_last());
        assert(view_frames(s) == view_frames(s.drop_last()).push(view_exprs(s.last()@)));
        assert forall|i: int| 0 <= i < s.len() implies view_frames(s)[i] == view_exprs(s[i]@) by {
            if i < s.len() - 1 {
                assert(s.drop_last()[i] == s[i]);
                assert(view_frames(s)[i] == view_frames(s.drop_last())[i]);
            } else {
                assert(s[i] == s.last());
            }
        }
    }
}

/// The working state of one parse: the open frames, the token buffer,
/// and whether a `#` awaits its selector character.
struct ParseState {
    parse_stack: Vec<Vec<Expr>>,
    parse_buffer: Vec<char>,
    expecting_literal: bool,
}

impl View for ParseState {
    type V = PStateV;

    closed spec fn view(&self) -> PStateV {
        PStateV {
            stack: view_frames(self.parse_stack@),
            buf: self.parse_buffer@,
            literal: self.expecting_literal,
        }
    }
}

/// Whether `c` is whitespace, by the same table as [`is_space`].
fn is_whitespace_char(c: char) -> (r: bool)
    ensures
        r == is_space(c),
{
    let u = c as u32;
    u == 0x9 || u == 0xA || u == 0xB || u == 0xC || u == 0xD || u == 0x20 || u == 0x85 || u
        == 0xA0 || u == 0x1680 || (0x2000 <= u && u <= 0x200A) || u == 0x2028 || u == 0x2029 || u
        == 0x202F || u == 0x205F || u == 0x3000
}

/// Whether `c` is a decimal digit.
fn is_decimal_digit(c: char) -> (r: bool)
    ensures
        r == is_digit_char(c),
{
    let u = c as u32;
    48 <= u && u <= 57
}

/// A digit string's value only grows as more digits follow.
proof fn lemma_digits_val_nonneg(s: Seq<char>)
    requires
        all_digits(s),
    ensures
        digits_val(s) >= 0,
    decreases s.len(),
{
    if s.len() > 0 {
        assert(all_digits(s.drop_last())) by {
            assert(forall|i: int|
                0 <= i < s.len() - 1 ==> #[trigger] s.drop_last()[i] == s[i]);
        }
        lemma_digits_val_nonneg(s.drop_last());
    }
}

/// The value of a digit string bounds the value of each of its prefixes.
proof fn lemma_digits_val_prefix(s: Seq<char>, k: int)
    requires
        all_digits(s),
        0 <= k <= s.len(),
    ensures
        digits_val(s) >= digits_val(s.take(k)),
    decreases s.len() - k,
{
    if k == s.len() {
        assert(s.take(k) =~= s);
    } else {
        assert(s.take(k + 1).drop_last() =~= s.take(k));
        assert(s.take(k + 1).last() == s[k]);
        assert(all_digits(s.take(k))) by {
            assert(forall|i: int| 0 <= i < k ==> #[trigger] s.take(k)[i] == s[i]);
        }
        lemma_digits_val_nonneg(s.take(k));
        assert(digits_val(s.take(k + 1)) >= digits_val(s.take(k)));
        lemma_digits_val_prefix(s, k + 1);
    }
}

impl ParseState {
    /// A fresh parse: one open `Program` frame, an empty token buffer.
    fn new() -> (s: ParseState)
        ensures
            s@ == init_pstate(),
    {
        let mut stack: Vec<Vec<Expr>> = Vec::new();
        stack.push(Vec::new());
        let s = ParseState {
            parse_stack: stack,
            parse_buffer: Vec::new(),
            expecting_literal: false,
        };
        proof {
            broadcast use lemma_view_frames;

            assert(s@.stack =~= init_pstate().stack);
            assert(s@ =~= init_pstate());
        }
        s
    }

    /// Append a finished expression to the innermost open frame.
    fn push_top(&mut self, e: Expr)
        requires
            old(self)@.stack.len() >= 1,
        ensures
            final(self)@ == append_top(old(self)@, e@),
    {
        proof {
            broadcast use lemma_view_frames;

        }
        let ghost st0 = self@;
        match self.parse_stack.pop() {
            Some(mut top) => {
                let ghost topv = top@;
                top.push(e);
                self.parse_stack.push(top);
                proof {
                    broadcast use {lemma_view_frames, lemma_view_exprs};

                    assert(top@.drop_last() =~= topv);
                    assert(view_exprs(top@) == view_exprs(topv).push(e@));
                    assert(self@.stack =~= st0.stack.update(
                        st0.stack.len() - 1,
                        st0.stack.last().push(e@),
                    ));
                    assert(self@ =~= append_top(st0, e@));
                }
            },
            None => {
                proof {
                    broadcast use lemma_view_frames;

                    assert(false);
                }
            },
        }
    }

    /// Finalize any pending token, per the token finalization rule.
    #[verifier::loop_isolation(false)]
    fn complete_token(&mut self) -> (r: Result<(), ParseError>)
        requires
            old(self)@.stack.len() >= 1,
        ensures
            r matches Ok(_) ==> finish_token(old(self)@) == Ok::<PStateV, ParseError>(
                final(self)@,
            ),
            r matches Err(e) ==> finish_token(old(self)@) == Err::<PStateV, ParseError>(e),
    {
        let ghost st0 = self@;
        if self.parse_buffer.len() == 0 {
            return Ok(());
        }
        if is_decimal_digit(self.parse_buffer[0]) {
            let m = self.parse_buffer.len();
            let mut v: u64 = 0;
            let mut j: usize = 0;
            while j < m
                invariant
                    m == self.parse_buffer.len(),
                    j <= m,
                    self@ == st0,
                    all_digits(self.parse_buffer@.take(j as int)),
                    v as int == digits_val(self.parse_buffer@.take(j as int)),
                    v <= 2147483647,
                decreases m - j,
            {
                let c = self.parse_buffer[j];
                if !is_decimal_digit(c) {
                    proof {
                        assert(!is_digit_char(st0.buf[j as int]));
                        assert(!all_digits(st0.buf));
                    }
                    return Err(ParseError::MalformedNumber);
                }
                let d = (c as u32 - 48) as u64;
                v = v * 10 + d;
                proof {
                    let buf = self.parse_buffer@;
                    assert(buf.take(j + 1).drop_last() =~= buf.take(j as int));
                    assert(buf.take(j + 1).last() == buf[j as int]);
                    assert(v as int == digits_val(buf.take(j + 1)));
                    assert(all_digits(buf.take(j + 1))) by {
                        assert(forall|i: int|
                            0 <= i < j ==> #[trigger] buf.take(j + 1)[i] == buf.take(j as int)[i]);
                        assert(buf.take(j + 1)[j as int] == buf[j as int]);
                    }
                }
                if v > 2147483647 {
                    proof {
                        if all_digits(st0.buf) {
                            lemma_digits_val_prefix(st0.buf, j + 1);
                        }
                    }
                    return Err(ParseError::MalformedNumber);
                }
                j += 1;
            }
            proof {
                assert(self.parse_buffer@.take(m as int) =~= self.parse_buffer@);
            }
            let value = v as i32;
            self.push_top(Expr::Integer(value));
            self.parse_buffer.clear();
            proof {
                assert(self@ =~= append_top(
                    PStateV { buf: Seq::empty(), ..st0 },
                    ExprV::Integer(digits_val(st0.buf)),
                ));
            }
            Ok(())
        } else {
            let mut name = String::new();
            let m = self.parse_buffer.len();
            let mut j: usize = 0;
            while j < m
                invariant
                    m == self.parse_buffer.len(),
                    j <= m,
                    self@ == st0,
                    name@ =~= self.parse_buffer@.take(j as int),
                decreases m - j,
            {
                name.push(self.parse_buffer[j]);
                proof {
                    assert(name@ =~= self.parse_buffer@.take(j + 1));
                }
                j += 1;
            }
            proof {
                assert(self.parse_buffer@.take(m as int) =~= self.parse_buffer@);
                assert(name@ == st0.buf);
            }
            self.push_top(Expr::Symbol(name));
            self.parse_buffer.clear();
            proof {
                assert(self@ =~= append_top(
                    PStateV { buf: Seq::empty(), ..st0 },
                    ExprV::Symbol(st0.buf),
                ));
            }
            Ok(())
        }
    }

    /// Close the innermost open frame and append it, as a `List`, to
    /// the frame below it.
    fn complete_list(&mut self) -> (r: Result<(), ParseError>)
        requires
            old(self)@.stack.len() >= 1,
        ensures
            r matches Ok(_) ==> old(self)@.stack.len() > 1 && final(self)@ == append_top(
                PStateV { stack: old(self)@.stack.drop_last(), ..old(self)@ },
                ExprV::List(old(self)@.stack.last()),
            ),
            r matches Err(e) ==> old(self)@.stack.len() <= 1 && e
                == ParseError::UnbalancedParentheses,
    {
        proof {
            broadcast use lemma_view_frames;

        }
        let ghost st0 = self@;
        if self.parse_stack.len() <= 1 {
            return Err(ParseError::UnbalancedParentheses);
        }
        match self.parse_stack.pop() {
            Some(children) => {
                proof {
                    broadcast use lemma_view_frames;

                    assert(self@.stack =~= st0.stack.drop_last());
                    assert(view_exprs(children@) == st0.stack.last());
                }
                self.push_top(Expr::List(children));
                proof {
                    assert(self@ =~= append_top(
                        PStateV { stack: st0.stack.drop_last(), ..st0 },
                        ExprV::List(st0.stack.last()),
                    ));
                }
                Ok(())
            },
            None => {
                proof {
                    broadcast use lemma_view_frames;

                    assert(false);
                }
                Err(ParseError::UnbalancedParentheses)
            },
        }
    }

    /// Apply one character to the state, per the per-character rules.
    fn step(&mut self, c: char) -> (r: Result<(), ParseError>)
        requires
            old(self)@.stack.len() >= 1,
        ensures
            r matches Ok(_) ==> pstep(old(self)@, c) == Ok::<PStateV, ParseError>(final(self)@)
                && final(self)@.stack.len() >= 1,
            r matches Err(e) ==> pstep(old(self)@, c) == Err::<PStateV, ParseError>(e),
    {
        let ghost st0 = self@;
        if self.expecting_literal {
            if c == 't' {
                self.expecting_literal = false;
                self.push_top(Expr::Bool(true));
                Ok(())
            } else if c == 'f' {
                self.expecting_literal = false;
                self.push_top(Expr::Bool(false));
                Ok(())
            } else {
                Err(ParseError::MalformedLiteral)
            }
        } else if c == '(' {
            match self.complete_token() {
                Err(e) => Err(e),
                Ok(()) => {
                    proof {
                        broadcast use lemma_view_frames;

                    }
                    let ghost mid = self@;
                    let ghost stack_mid = self.parse_stack@;
                    self.parse_stack.push(Vec::new());
                    proof {
                        broadcast use {lemma_view_frames, lemma_view_exprs};

                        assert(self.parse_stack@.drop_last() =~= stack_mid);
                        assert(view_exprs(Seq::<Expr>::empty()) =~= Seq::<ExprV>::empty());
                        assert(self@.stack =~= mid.stack.push(Seq::empty()));
                        assert(self@ =~= PStateV { stack: mid.stack.push(Seq::empty()), ..mid });
                    }
                    Ok(())
                },
            }
        } else if c == ')' {
            match self.complete_token() {
                Err(e) => Err(e),
                Ok(()) => self.complete_list(),
            }
        } else if c == '#' {
            match self.complete_token() {
                Err(e) => Err(e),
                Ok(()) => {
                    self.expecting_literal = true;
                    Ok(())
                },
            }
        } else if is_whitespace_char(c) {
            self.complete_token()
        } else {
            self.parse_buffer.push(c);
            proof {
                assert(self@ =~= PStateV { buf: st0.buf.push(c), ..st0 });
            }
            Ok(())
        }
    }

    /// Apply the end-of-input rule and hand back the finished program.
    fn complete(self) -> (r: Result<Expr, ParseError>)
        requires
            self@.stack.len() >= 1,
        ensures
            parse_result_matches(r, pfinish(self@)),
    {
        let mut me = self;
        match me.complete_token() {
            Err(e) => Err(e),
            Ok(()) => {
                if me.expecting_literal {
                    Err(ParseError::MalformedLiteral)
                } else if me.parse_stack.len() == 1 {
                    proof {
                        broadcast use lemma_view_frames;

                    }
                    let ghost st1 = me@;
                    match me.parse_stack.pop() {
                        Some(children) => {
                            proof {
                                assert(view_exprs(children@) == st1.stack[0]);
                            }
                            Ok(Expr::Program(children))
                        },
                        None => {
                            proof {
                                assert(false);
                            }
                            Err(ParseError::UnterminatedList)
                        },
                    }
                } else {
                    proof {
                        broadcast use lemma_view_frames;

                    }
                    Err(ParseError::UnterminatedList)
                }
            },
        }
    }
}

/// What an executable parse result must say of the specified one.
pub open spec fn parse_result_matches(r: Result<Expr, ParseError>, s: Result<
    ExprV,
    ParseError,
>) -> bool {
    match r {
        Ok(e) => s == Ok::<ExprV, ParseError>(e@),
        Err(pe) => s == Err::<ExprV, ParseError>(pe),
    }
}

/// Parse a source text into a `Program` syntax tree.
pub fn parse(input: &str) -> (r: Result<Expr, ParseError>)
    ensures
        parse_result_matches(r, parse_spec(input@)),
{
    let mut st = ParseState::new();
    let n = input.unicode_len();
    proof {
        assert(input@.take(0) =~= Seq::<char>::empty());
    }
    let mut i: usize = 0;
    while i < n
        invariant
            n == input@.len(),
            i <= n,
            pfold(input@.take(i as int)) == Ok::<PStateV, ParseError>(st@),
            st@.stack.len() >= 1,
        decreases n - i,
    {
        let c = input.get_char(i);
        let ghost prev = st@;
        let res = st.step(c);
        proof {
            assert(input@.take(i + 1).drop_last() =~= input@.take(i as int));
            assert(input@.take(i + 1).last() == input@[i as int]);
            assert(pfold(input@.take(i + 1)) == pstep(prev, c));
        }
        match res {
            Ok(()) => {},
            Err(e) => {
                proof {
                    lemma_pfold_prefix_err(input@, i + 1);
                }
                return Err(e);
            },
        }
        i += 1;
    }
    proof {
        assert(input@.take(n as int) =~= input@);
    }
    st.complete()
}

} // verus!
