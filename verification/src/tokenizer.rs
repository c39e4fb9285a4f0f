//! The single-pass JSON scanner that allocates no memory.

use vstd::prelude::*;
use vstd::string::StringSliceAdditionalSpecFns;

use crate::escape_string::EscapeString;
use crate::laws::{law_error_offsets_within_input, law_scan_resumes, lemma_step_error_within};
use crate::json_error::{group_json_error, Error, ErrorKind};
use crate::text::{lemma_ascii_boundaries, lemma_str_bytes_valid, sub_str};
use crate::tokenizer_spec::{
    after_separator, at_offset, at_separator, closed_container, err_at, escape_end, exponent_end,
    fraction_end, initial_view, integer_part_end, is_digit, is_hex_digit, is_json_whitespace,
    lemma_advance_extend, lemma_first_tokens_extend, lemma_number_end, lemma_skip_ws, lemma_step_progress, lemma_string_end,
    literal_end, moved, number_end, scan_key_step, scan_value_step, skip_digits_spec, skip_ws,
    spec_advance, spec_complete, spec_first_tokens, spec_step, spec_tokens, state_after_value, string_end, word_false, word_null,
    word_true, ScanState, ScanView, StepView, TokenView, Walk, MAX_DEPTH,
};

verus! {

broadcast use group_json_error;

/// The number of `u64` words that hold the container stack.
const STACK_WORDS: usize = 4;

/// Receives one call for each JSON token during the scan.
///
/// Each method returns `Option<Self::Output>`. `None` continues the scan, and
/// `Some(value)` suspends it: [`Tokenizer::drive`] then returns that value,
/// and the next call to `drive` continues after the token.
///
/// Each method adds its call, the token and the value that it returns, to the
/// record [`seen`](Visitor::seen). That record is how the contract of
/// [`Tokenizer::drive`] says which calls a visitor receives. A visitor that is
/// verified defines `seen`; each method must then keep it, which the empty
/// default record cannot do. For that reason no method has a default body.
pub trait Visitor<'a> {
    /// The value that a visitor gives to its caller when it suspends the scan.
    type Output;

    /// The calls that this visitor received, in order: each token and the
    /// value that its call returned.
    closed spec fn seen(&self) -> Seq<(Token<'a>, Option<Self::Output>)> {
        Seq::empty()
    }

    /// Reports an object member name that contains at least one escape
    /// sequence. The tokenizer consumes the `:` that follows.
    fn escape_key(&mut self, name: EscapeString<'a>) -> (output: Option<Self::Output>)
        ensures
            final(self).seen() == old(self).seen().push((Token::EscapeKey(name), output)),
    ;

    /// Reports a string value that contains at least one escape sequence.
    fn escape_string(&mut self, value: EscapeString<'a>) -> (output: Option<Self::Output>)
        ensures
            final(self).seen() == old(self).seen().push((Token::EscapeString(value), output)),
    ;

    /// Reports `{`.
    fn object_start(&mut self) -> (output: Option<Self::Output>)
        ensures
            final(self).seen() == old(self).seen().push((Token::ObjectStart, output)),
    ;

    /// Reports `}`.
    fn object_end(&mut self) -> (output: Option<Self::Output>)
        ensures
            final(self).seen() == old(self).seen().push((Token::ObjectEnd, output)),
    ;

    /// Reports `[`.
    fn array_start(&mut self) -> (output: Option<Self::Output>)
        ensures
            final(self).seen() == old(self).seen().push((Token::ArrayStart, output)),
    ;

    /// Reports `]`.
    fn array_end(&mut self) -> (output: Option<Self::Output>)
        ensures
            final(self).seen() == old(self).seen().push((Token::ArrayEnd, output)),
    ;

    /// Reports an object member name that contains no escape sequence. The
    /// tokenizer consumes the `:` that follows.
    fn key(&mut self, name: &'a str) -> (output: Option<Self::Output>)
        ensures
            final(self).seen() == old(self).seen().push((Token::Key(name), output)),
    ;

    /// Reports a string value that contains no escape sequence.
    fn string(&mut self, value: &'a str) -> (output: Option<Self::Output>)
        ensures
            final(self).seen() == old(self).seen().push((Token::String(value), output)),
    ;

    /// Reports a number as the raw text from the input. The text always
    /// agrees with the JSON number grammar.
    fn number(&mut self, text: &'a str) -> (output: Option<Self::Output>)
        ensures
            final(self).seen() == old(self).seen().push((Token::Number(text), output)),
    ;

    /// Reports `true` or `false`.
    fn boolean(&mut self, value: bool) -> (output: Option<Self::Output>)
        ensures
            final(self).seen() == old(self).seen().push((Token::Boolean(value), output)),
    ;

    /// Reports `null`.
    fn null(&mut self) -> (output: Option<Self::Output>)
        ensures
            final(self).seen() == old(self).seen().push((Token::Null, output)),
    ;
}

/// Whether `calls` is `before` followed by one call for each of `tokens`, in
/// order, each through the method of the token's kind and with the text that
/// the token locates in `bytes`.
pub open spec fn reports<'a, O>(
    before: Seq<(Token<'a>, Option<O>)>,
    calls: Seq<(Token<'a>, Option<O>)>,
    bytes: Seq<u8>,
    tokens: Seq<TokenView>,
) -> bool {
    &&& calls.len() == before.len() + tokens.len()
    &&& calls.take(before.len() as int) == before
    &&& forall|k: int|
        0 <= k < tokens.len() ==> token_matches(calls[before.len() + k].0, bytes, #[trigger] tokens[k])
}

/// Whether each call from position `from` up to `to` returned `None`.
pub open spec fn continued<T, O>(calls: Seq<(T, Option<O>)>, from: int, to: int) -> bool {
    forall|k: int| from <= k < to ==> (#[trigger] calls[k]).1 is None
}

/// One token of the document. String bodies and numbers borrow from the
/// document.
pub enum Token<'a> {
    ObjectStart,
    ObjectEnd,
    ArrayStart,
    ArrayEnd,
    Key(&'a str),
    EscapeKey(EscapeString<'a>),
    String(&'a str),
    EscapeString(EscapeString<'a>),
    Number(&'a str),
    Boolean(bool),
    Null,
}

/// Whether `token` is the token that `view` locates in `bytes`: the same kind,
/// and for text, the bytes between its offsets.
pub open spec fn token_matches(token: Token, bytes: Seq<u8>, view: TokenView) -> bool {
    match view {
        TokenView::ObjectStart => token is ObjectStart,
        TokenView::ObjectEnd => token is ObjectEnd,
        TokenView::ArrayStart => token is ArrayStart,
        TokenView::ArrayEnd => token is ArrayEnd,
        TokenView::Key { start, end, escaped } => if escaped {
            token matches Token::EscapeKey(text) && text.raw_bytes() == bytes.subrange(start, end)
        } else {
            token matches Token::Key(text) && text.spec_bytes() == bytes.subrange(start, end)
        },
        TokenView::Str { start, end, escaped } => if escaped {
            token matches Token::EscapeString(text) && text.raw_bytes() == bytes.subrange(
                start,
                end,
            )
        } else {
            token matches Token::String(text) && text.spec_bytes() == bytes.subrange(start, end)
        },
        TokenView::Number { start, end } => token matches Token::Number(text)
            && text.spec_bytes() == bytes.subrange(start, end),
        TokenView::Boolean(value) => token == Token::Boolean(value),
        TokenView::Null => token is Null,
    }
}

/// The result of one scanner step.
pub enum Step<'a> {
    Emit(Token<'a>),
    Finish,
    Fail(Error),
}

/// Whether the exec step `step`, which left the scanner in `after`, is the
/// spec step `expected`.
pub open spec fn step_matches(step: Step, after: ScanView, expected: StepView, bytes: Seq<u8>) -> bool {
    match expected {
        StepView::Emit(next, token) => step matches Step::Emit(exec_token) && token_matches(
            exec_token,
            bytes,
            token,
        ) && after == next,
        StepView::Finish(next) => step is Finish && after == next,
        StepView::Fail(next, error) => step matches Step::Fail(e) && e == error && after == next,
    }
}

/// Whether the grammar state agrees with the open containers.
pub open spec fn view_consistent(view: ScanView) -> bool {
    match view.state {
        ScanState::Start | ScanState::Done => view.levels.len() == 0,
        ScanState::ObjectFirstKey
        | ScanState::ObjectNextKey
        | ScanState::ObjectValue
        | ScanState::ObjectComma => view.levels.len() > 0 && !view.levels.last(),
        ScanState::ArrayFirstValue
        | ScanState::ArrayNextValue
        | ScanState::ArrayComma => view.levels.len() > 0 && view.levels.last(),
    }
}

/// What a scan from `start` did, which ended in `end` with `result`, and which
/// took the visitor's record from `before` to `after`.
///
/// A complete or rejected document has had each of its tokens reported, and
/// each call returned `None`. A suspension reported the first tokens up to
/// the first call that returned a value, and returns that value; the scanner
/// stands after that token.
pub open spec fn scanned<'a, O>(
    bytes: Seq<u8>,
    start: ScanView,
    end: ScanView,
    before: Seq<(Token<'a>, Option<O>)>,
    after: Seq<(Token<'a>, Option<O>)>,
    result: Result<Option<O>, Error>,
) -> bool {
    match result {
        Ok(None) => {
            &&& spec_complete(bytes, start) == Walk::Complete(end)
            &&& reports(before, after, bytes, spec_tokens(bytes, start))
            &&& continued(after, before.len() as int, after.len() as int)
        },
        Ok(Some(value)) => {
            let count = (after.len() - before.len()) as nat;
            &&& after.len() >= before.len() + 1
            &&& spec_advance(bytes, start, count) == Walk::Paused(end)
            &&& reports(before, after, bytes, spec_first_tokens(bytes, start, count))
            &&& continued(after, before.len() as int, after.len() - 1)
            &&& after.last().1 == Some(value)
        },
        Err(error) => {
            &&& end.failure == Some(error)
            &&& spec_complete(bytes, start) == Walk::Rejected(ScanView { failure: None, ..end }, error)
            &&& reports(before, after, bytes, spec_tokens(bytes, start))
            &&& continued(after, before.len() as int, after.len() as int)
        },
    }
}

/// Adding a call for one more token keeps the record of the reported tokens.
proof fn lemma_reports_push<'a, O>(
    before: Seq<(Token<'a>, Option<O>)>,
    calls: Seq<(Token<'a>, Option<O>)>,
    bytes: Seq<u8>,
    tokens: Seq<TokenView>,
    token: Token<'a>,
    output: Option<O>,
    view: TokenView,
)
    requires
        reports(before, calls, bytes, tokens),
        token_matches(token, bytes, view),
    ensures
        reports(before, calls.push((token, output)), bytes, tokens.push(view)),
{
    let pushed = calls.push((token, output));
    assert(pushed.take(before.len() as int) =~= calls.take(before.len() as int));
    assert forall|k: int| 0 <= k < tokens.len() + 1 implies token_matches(
        pushed[before.len() + k].0,
        bytes,
        #[trigger] tokens.push(view)[k],
    ) by {
        if k < tokens.len() {
            assert(pushed[before.len() + k] == calls[before.len() + k]);
            assert(tokens.push(view)[k] == tokens[k]);
        }
    }
}

/// Adding one call keeps the calls before it, and keeps them all returning
/// `None` when the new call returned `None` too.
pub(crate) proof fn lemma_continued_push<T, O>(calls: Seq<(T, Option<O>)>, from: int, call: (T, Option<O>))
    requires
        0 <= from,
        continued(calls, from, calls.len() as int),
    ensures
        continued(calls.push(call), from, calls.len() as int),
        call.1 is None ==> continued(calls.push(call), from, calls.len() + 1int),
{
    assert forall|k: int| from <= k < calls.len() implies (#[trigger] calls.push(call)[k]).1 is None by {
        assert(calls.push(call)[k] == calls[k]);
    }
}

/// When the scan stops at a step that reports no token, the tokens reported so
/// far are all the tokens of the document.
proof fn lemma_all_tokens(bytes: Seq<u8>, start: ScanView, count: nat, current: ScanView)
    requires
        0 <= start.offset <= bytes.len(),
        0 <= current.offset <= bytes.len(),
        spec_advance(bytes, start, count) == Walk::Paused(current),
        !(spec_step(bytes, current) is Emit),
    ensures
        spec_tokens(bytes, start) == spec_first_tokens(bytes, start, count),
{
    law_scan_resumes(bytes, start, count);
    assert(spec_tokens(bytes, current) =~= Seq::<TokenView>::empty());
    assert(spec_first_tokens(bytes, start, count) + Seq::<TokenView>::empty()
        =~= spec_first_tokens(bytes, start, count));
}

/// The bit of the container stack that records whether the container at
/// `level` is an array.
pub open spec fn stack_bit(stack: [u64; 4], level: int) -> bool {
    (stack[level / 64] >> ((level % 64) as u64)) & 1u64 == 1u64
}

proof fn lemma_bit_update(word: u64, shift: u64, other: u64)
    by (bit_vector)
    requires
        shift < 64,
        other < 64,
    ensures
        ((word | (1u64 << shift)) >> shift) & 1u64 == 1u64,
        ((word & !(1u64 << shift)) >> shift) & 1u64 == 0u64,
        other != shift ==> ((word | (1u64 << shift)) >> other) & 1u64 == (word >> other) & 1u64,
        other != shift ==> ((word & !(1u64 << shift)) >> other) & 1u64 == (word >> other) & 1u64,
{
}

/// A forward-only JSON scanner. All of its output borrows from the input.
///
/// The tokenizer allocates no memory, copies no data, expands no escape
/// sequences, and converts no numbers. It does validate the full JSON grammar.
#[derive(Clone, Debug)]
pub struct Tokenizer<'a> {
    input: &'a str,
    offset: usize,
    state: ScanState,
    /// One bit per open container: `1` for an array, `0` for an object.
    stack: [u64; STACK_WORDS],
    depth: usize,
    failure: Option<Error>,
}

impl<'a> View for Tokenizer<'a> {
    type V = ScanView;

    closed spec fn view(&self) -> ScanView {
        ScanView {
            offset: self.offset as int,
            state: self.state,
            levels: Seq::new(self.depth as nat, |level: int| stack_bit(self.stack, level)),
            failure: self.failure,
        }
    }
}

impl<'a> Tokenizer<'a> {
    /// The bytes of the document.
    pub closed spec fn bytes(&self) -> Seq<u8> {
        self.input.spec_bytes()
    }

    /// The invariant of a tokenizer: the cursor stays inside the document,
    /// the nesting stays within [`MAX_DEPTH`], and the grammar state agrees
    /// with the open containers.
    pub closed spec fn wf(&self) -> bool {
        &&& self.offset <= self.input.spec_bytes().len()
        &&& self.input.spec_bytes().len() <= usize::MAX
        &&& self.depth <= MAX_DEPTH
        &&& view_consistent(self@)
        &&& self.failure matches Some(error) ==> error.spec_offset() <= self.input.spec_bytes().len()
    }

    /// The cursor of a well-formed tokenizer lies inside the document, and the
    /// document fits in memory.
    pub proof fn lemma_cursor(&self)
        requires
            self.wf(),
        ensures
            0 <= self@.offset <= self.bytes().len() <= usize::MAX,
    {
    }

    /// Makes a tokenizer for `input`.
    pub fn new(input: &'a str) -> (tokenizer: Self)
        ensures
            tokenizer.wf(),
            tokenizer.bytes() == input.spec_bytes(),
            tokenizer@ == initial_view(),
    {
        let _ = input.as_bytes().len();
        let tokenizer = Self {
            input,
            offset: 0,
            state: ScanState::Start,
            stack: [0u64; STACK_WORDS],
            depth: 0,
            failure: None,
        };
        assert(tokenizer@.levels =~= Seq::<bool>::empty());
        tokenizer
    }

    /// Returns the byte offset of the scanner cursor.
    pub fn offset(&self) -> (offset: usize)
        ensures
            offset == self@.offset,
    {
        self.offset
    }

    /// Returns the number of containers that are open.
    pub fn depth(&self) -> (depth: usize)
        ensures
            depth == self@.levels.len(),
    {
        self.depth
    }

    /// Runs the scanner and reports each token to `visitor`.
    ///
    /// Returns `Ok(None)` after the document is complete and fully consumed,
    /// `Ok(Some(value))` if the visitor suspended the scan with `Some(value)`
    /// (a later call continues after that token), and `Err(error)` for the
    /// first violation of the JSON grammar. A failure persists: after the
    /// tokenizer reports one, each later call reports the same failure.
    pub fn drive<V: Visitor<'a>>(&mut self, visitor: &mut V) -> (result: Result<
        Option<V::Output>,
        Error,
    >)
        requires
            old(self).wf(),
        ensures
            final(self).wf(),
            final(self).bytes() == old(self).bytes(),
            old(self)@.offset <= final(self)@.offset,
            old(self)@.failure matches Some(failure) ==> {
                &&& result == Err::<Option<V::Output>, Error>(failure)
                &&& final(self)@ == old(self)@
                &&& final(visitor).seen() == old(visitor).seen()
            },
            old(self)@.failure is None ==> scanned(
                old(self).bytes(),
                old(self)@,
                final(self)@,
                old(visitor).seen(),
                final(visitor).seen(),
                result,
            ),
            result matches Err(error) ==> error.spec_offset() <= old(self).bytes().len(),
    {
        if let Some(failure) = self.failure {
            return Err(failure);
        }
        proof {
            self.lemma_cursor();
            law_error_offsets_within_input(self.bytes(), self@);
        }
        match self.run(visitor) {
            Ok(output) => Ok(output),
            Err(failure) => {
                self.failure = Some(failure);
                assert(self@.levels =~= ScanView { failure: None, ..self@ }.levels);
                Err(failure)
            },
        }
    }

    /// Scans the next token and returns it, without a visitor: the pull form
    /// of [`Tokenizer::drive`]. Returns `Step::Finish` once the document is
    /// complete, and `Step::Fail` for a rejection; after a rejection, each
    /// later call returns the same rejection.
    pub fn next_token(&mut self) -> (step: Step<'a>)
        requires
            old(self).wf(),
        ensures
            final(self).wf(),
            final(self).bytes() == old(self).bytes(),
            old(self)@.failure matches Some(failure) ==> {
                &&& step matches Step::Fail(error) && error == failure
                &&& final(self)@ == old(self)@
            },
            old(self)@.failure is None ==> {
                &&& step_matches(
                    step,
                    ScanView { failure: None, ..final(self)@ },
                    spec_step(old(self).bytes(), old(self)@),
                    old(self).bytes(),
                )
                &&& final(self)@.failure == match step {
                    Step::Fail(error) => Some(error),
                    _ => None::<Error>,
                }
            },
    {
        if let Some(failure) = self.failure {
            return Step::Fail(failure);
        }
        proof {
            self.lemma_cursor();
            lemma_step_error_within(self.bytes(), self@);
        }
        let step = self.step();
        if let Step::Fail(failure) = step {
            self.failure = Some(failure);
            assert(self@.levels =~= ScanView { failure: None, ..self@ }.levels);
        } else {
            assert(ScanView { failure: None, ..self@ } == self@);
        }
        step
    }

    /// Scans until the visitor suspends the scan, the document ends, or the
    /// input violates the grammar.
    ///
    /// Each step commits the cursor and the grammar state for its token
    /// before the visitor receives the token. A suspension therefore needs no
    /// resume point: the next call only enters this loop again.
    fn run<V: Visitor<'a>>(&mut self, visitor: &mut V) -> (result: Result<Option<V::Output>, Error>)
        requires
            old(self).wf(),
            old(self)@.failure is None,
        ensures
            final(self).wf(),
            final(self).bytes() == old(self).bytes(),
            final(self)@.failure is None,
            old(self)@.offset <= final(self)@.offset,
            scanned(
                old(self).bytes(),
                old(self)@,
                match result {
                    Err(error) => ScanView { failure: Some(error), ..final(self)@ },
                    _ => final(self)@,
                },
                old(visitor).seen(),
                final(visitor).seen(),
                result,
            ),
    {
        let ghost bytes = self.bytes();
        let ghost start = self@;
        let ghost mut count: nat = 0;
        let ghost before = visitor.seen();
        proof {
            assert(before.take(before.len() as int) =~= before);
        }
        loop
            invariant
                self.wf(),
                self.bytes() == old(self).bytes(),
                self.bytes() == bytes,
                self@.failure is None,
                start == old(self)@,
                before == old(visitor).seen(),
                start.offset <= self@.offset,
                spec_advance(bytes, start, count) == Walk::Paused(self@),
                spec_complete(bytes, self@) == spec_complete(bytes, start),
                count >= 1 || self@ == start,
                reports(before, visitor.seen(), bytes, spec_first_tokens(bytes, start, count)),
                spec_first_tokens(bytes, start, count).len() == count,
                continued(visitor.seen(), before.len() as int, visitor.seen().len() as int),
            decreases bytes.len() - self@.offset,
        {
            let ghost current = self@;
            proof {
                self.lemma_cursor();
                lemma_step_progress(bytes, current);
            }
            match self.step() {
                Step::Emit(token) => {
                    let ghost view = spec_step(bytes, current)->Emit_1;
                    let ghost calls = visitor.seen();
                    proof {
                        lemma_advance_extend(bytes, start, count, current);
                        lemma_first_tokens_extend(bytes, start, count, current);
                        count = count + 1;
                    }
                    let suspended = deliver(visitor, token);
                    proof {
                        lemma_reports_push(
                            before,
                            calls,
                            bytes,
                            spec_first_tokens(bytes, start, (count - 1) as nat),
                            token,
                            suspended,
                            view,
                        );
                    }
                    proof {
                        lemma_continued_push(calls, before.len() as int, (token, suspended));
                    }
                    if suspended.is_some() {
                        return Ok(suspended);
                    }
                },
                Step::Finish => {
                    proof {
                        lemma_all_tokens(bytes, start, count, current);
                    }
                    return Ok(None);
                },
                Step::Fail(error) => {
                    proof {
                        lemma_all_tokens(bytes, start, count, current);
                    }
                    return Err(error);
                },
            }
        }
    }

    /// One step of the scanner: skips whitespace and a separating `,`, and
    /// then reports one token, completes the document, or rejects it.
    pub(crate) fn step(&mut self) -> (step: Step<'a>)
        requires
            old(self).wf(),
            old(self)@.failure is None,
        ensures
            final(self).wf(),
            final(self).bytes() == old(self).bytes(),
            final(self)@.failure is None,
            step_matches(step, final(self)@, spec_step(old(self).bytes(), old(self)@), old(self).bytes()),
    {
        let ghost bytes = self.bytes();
        proof {
            lemma_skip_ws(bytes, self.offset as int);
        }
        let mut next = self.skip_whitespace();
        let ghost skipped = self@;
        if let Some(byte) = next {
            if byte == 0x2c && (self.state == ScanState::ObjectComma || self.state
                == ScanState::ArrayComma) {
                self.offset = self.offset + 1;
                self.state = if self.state == ScanState::ObjectComma {
                    ScanState::ObjectNextKey
                } else {
                    ScanState::ArrayNextValue
                };
                proof {
                    lemma_skip_ws(bytes, self.offset as int);
                }
                next = self.skip_whitespace();
                assert(self@ == after_separator(bytes, skipped));
            }
        }
        assert(at_separator(bytes, skipped) ==> self@ == after_separator(bytes, skipped));
        assert(!at_separator(bytes, skipped) ==> self@ == skipped);
        let byte = match next {
            Some(byte) => byte,
            None => {
                return if self.state == ScanState::Done {
                    Step::Finish
                } else {
                    Step::Fail(self.error(ErrorKind::UnexpectedEof))
                };
            },
        };
        match self.state {
            ScanState::Done => Step::Fail(self.error(ErrorKind::TrailingData)),
            ScanState::Start | ScanState::ObjectValue | ScanState::ArrayNextValue => {
                self.value_step(byte)
            },
            ScanState::ArrayFirstValue => {
                if byte == 0x5d {
                    self.close_container();
                    Step::Emit(Token::ArrayEnd)
                } else {
                    self.value_step(byte)
                }
            },
            ScanState::ObjectFirstKey => {
                if byte == 0x7d {
                    self.close_container();
                    Step::Emit(Token::ObjectEnd)
                } else {
                    self.key_step(byte)
                }
            },
            ScanState::ObjectNextKey => self.key_step(byte),
            ScanState::ObjectComma => {
                if byte == 0x7d {
                    self.close_container();
                    Step::Emit(Token::ObjectEnd)
                } else {
                    Step::Fail(self.error(ErrorKind::UnexpectedByte))
                }
            },
            ScanState::ArrayComma => {
                if byte == 0x5d {
                    self.close_container();
                    Step::Emit(Token::ArrayEnd)
                } else {
                    Step::Fail(self.error(ErrorKind::UnexpectedByte))
                }
            },
        }
    }

    /// The step for a value at the cursor.
    fn value_step(&mut self, byte: u8) -> (step: Step<'a>)
        requires
            old(self).wf(),
            old(self)@.failure is None,
            old(self).offset < old(self).bytes().len(),
            old(self).bytes()[old(self)@.offset] == byte,
        ensures
            final(self).wf(),
            final(self).input == old(self).input,
            final(self)@.failure is None,
            step_matches(step, final(self)@, scan_value_step(old(self).bytes(), old(self)@), old(self).bytes()),
    {
        match self.scan_value(byte) {
            Ok(token) => Step::Emit(token),
            Err(error) => Step::Fail(error),
        }
    }

    /// The step for a member name at the cursor.
    fn key_step(&mut self, byte: u8) -> (step: Step<'a>)
        requires
            old(self).wf(),
            old(self)@.failure is None,
            old(self).offset < old(self).bytes().len(),
            old(self).bytes()[old(self)@.offset] == byte,
            old(self)@.levels.len() > 0,
            !old(self)@.levels.last(),
        ensures
            final(self).wf(),
            final(self).input == old(self).input,
            final(self)@.failure is None,
            step_matches(step, final(self)@, scan_key_step(old(self).bytes(), old(self)@), old(self).bytes()),
    {
        match self.scan_key(byte) {
            Ok(token) => Step::Emit(token),
            Err(error) => Step::Fail(error),
        }
    }

    /// Scans an object member name and the `:` that must follow it.
    fn scan_key(&mut self, byte: u8) -> (result: Result<Token<'a>, Error>)
        requires
            old(self).wf(),
            old(self).offset < old(self).bytes().len(),
            old(self).bytes()[old(self)@.offset] == byte,
            old(self)@.levels.len() > 0,
            !old(self)@.levels.last(),
        ensures
            final(self).wf(),
            final(self).input == old(self).input,
            final(self)@.failure == old(self)@.failure,
            match scan_key_step(old(self).bytes(), old(self)@) {
                StepView::Emit(next, token) => result matches Ok(exec_token) && token_matches(
                    exec_token,
                    old(self).bytes(),
                    token,
                ) && final(self)@ == next,
                StepView::Fail(next, error) => result == Err::<Token<'a>, Error>(error)
                    && final(self)@ == next,
                StepView::Finish(_) => false,
            },
    {
        let ghost bytes = self.bytes();
        if byte != 0x22 {
            return Err(self.error(ErrorKind::ExpectedKey));
        }
        let (name, escaped) = match self.scan_string() {
            Ok(found) => found,
            Err(error) => return Err(error),
        };
        proof {
            lemma_skip_ws(bytes, self.offset as int);
        }
        match self.skip_whitespace() {
            Some(0x3a) => {},
            _ => return Err(self.error(ErrorKind::ExpectedColon)),
        }
        self.offset = self.offset + 1;
        self.state = ScanState::ObjectValue;
        Ok(
            if escaped {
                Token::EscapeKey(EscapeString::new(name))
            } else {
                Token::Key(name)
            },
        )
    }

    /// Scans a value that starts with `byte`.
    fn scan_value(&mut self, byte: u8) -> (result: Result<Token<'a>, Error>)
        requires
            old(self).wf(),
            old(self).offset < old(self).bytes().len(),
            old(self).bytes()[old(self)@.offset] == byte,
        ensures
            final(self).wf(),
            final(self).input == old(self).input,
            final(self)@.failure == old(self)@.failure,
            match scan_value_step(old(self).bytes(), old(self)@) {
                StepView::Emit(next, token) => result matches Ok(exec_token) && token_matches(
                    exec_token,
                    old(self).bytes(),
                    token,
                ) && final(self)@ == next,
                StepView::Fail(next, error) => result == Err::<Token<'a>, Error>(error)
                    && final(self)@ == next,
                StepView::Finish(_) => false,
            },
    {
        if byte == 0x7b || byte == 0x5b {
            let is_array = byte == 0x5b;
            if let Err(error) = self.push(is_array) {
                return Err(error);
            }
            self.offset = self.offset + 1;
            if is_array {
                self.state = ScanState::ArrayFirstValue;
                Ok(Token::ArrayStart)
            } else {
                self.state = ScanState::ObjectFirstKey;
                Ok(Token::ObjectStart)
            }
        } else if byte == 0x22 {
            let (text, escaped) = match self.scan_string() {
                Ok(found) => found,
                Err(error) => return Err(error),
            };
            self.after_value();
            Ok(
                if escaped {
                    Token::EscapeString(EscapeString::new(text))
                } else {
                    Token::String(text)
                },
            )
        } else if byte == 0x74 {
            let word: [u8; 4] = [0x74, 0x72, 0x75, 0x65];
            assert(word@ =~= word_true());
            if let Err(error) = self.scan_literal(&word) {
                return Err(error);
            }
            self.after_value();
            Ok(Token::Boolean(true))
        } else if byte == 0x66 {
            let word: [u8; 5] = [0x66, 0x61, 0x6c, 0x73, 0x65];
            assert(word@ =~= word_false());
            if let Err(error) = self.scan_literal(&word) {
                return Err(error);
            }
            self.after_value();
            Ok(Token::Boolean(false))
        } else if byte == 0x6e {
            let word: [u8; 4] = [0x6e, 0x75, 0x6c, 0x6c];
            assert(word@ =~= word_null());
            if let Err(error) = self.scan_literal(&word) {
                return Err(error);
            }
            self.after_value();
            Ok(Token::Null)
        } else if byte == 0x2d || is_ascii_digit(byte) {
            let text = match self.scan_number() {
                Ok(text) => text,
                Err(error) => return Err(error),
            };
            self.after_value();
            Ok(Token::Number(text))
        } else {
            Err(self.error(ErrorKind::UnexpectedByte))
        }
    }

    /// Skips insignificant whitespace and returns the byte at the cursor.
    fn skip_whitespace(&mut self) -> (byte: Option<u8>)
        requires
            old(self).offset <= old(self).bytes().len(),
        ensures
            final(self)@ == at_offset(old(self)@, skip_ws(old(self).bytes(), old(self)@.offset)),
            final(self).input == old(self).input,
            final(self).stack == old(self).stack,
            final(self).depth == old(self).depth,
            final(self).offset <= final(self).bytes().len(),
            byte == (if final(self).offset < final(self).bytes().len() {
                Some(final(self).bytes()[final(self).offset as int])
            } else {
                None::<u8>
            }),
    {
        let bytes = self.input.as_bytes();
        let mut offset = self.offset;
        while offset < bytes.len() && is_whitespace_byte(bytes[offset])
            invariant
                bytes@ == old(self).bytes(),
                old(self).offset <= offset <= bytes@.len(),
                skip_ws(bytes@, offset as int) == skip_ws(bytes@, old(self).offset as int),
            decreases bytes@.len() - offset,
        {
            offset = offset + 1;
        }
        self.offset = offset;
        assert(self@.levels =~= old(self)@.levels);
        if offset < bytes.len() {
            Some(bytes[offset])
        } else {
            None
        }
    }

    /// Makes an error of `kind` at the current cursor.
    fn error(&self, kind: ErrorKind) -> (error: Error)
        ensures
            error == err_at(kind, self@.offset),
    {
        Error::new(kind, self.offset)
    }

    /// Opens a container and records if the container is an array.
    fn push(&mut self, is_array: bool) -> (result: Result<(), Error>)
        requires
            old(self).depth <= MAX_DEPTH,
        ensures
            final(self).input == old(self).input,
            final(self).offset == old(self).offset,
            final(self).state == old(self).state,
            final(self).failure == old(self).failure,
            final(self).depth <= MAX_DEPTH,
            old(self).depth >= MAX_DEPTH ==> result == Err::<(), Error>(
                err_at(ErrorKind::DepthExceeded, old(self)@.offset),
            ) && final(self)@ == old(self)@,
            old(self).depth < MAX_DEPTH ==> result is Ok && final(self)@.levels == old(self)@.levels.push(is_array),
    {
        if self.depth >= MAX_DEPTH {
            return Err(self.error(ErrorKind::DepthExceeded));
        }
        let ghost before = self.stack;
        let word = self.depth / 64;
        let shift = (self.depth % 64) as u64;
        let bit = 1u64 << shift;
        if is_array {
            self.stack[word] = self.stack[word] | bit;
        } else {
            self.stack[word] = self.stack[word] & !bit;
        }
        self.depth = self.depth + 1;
        proof {
            let depth = self.depth - 1;
            assert forall|level: int| 0 <= level < depth implies stack_bit(self.stack, level)
                == stack_bit(before, level) by {
                let other = (level % 64) as u64;
                lemma_bit_update(before[word as int], shift, other);
                if level / 64 != word as int {
                    assert(self.stack[level / 64] == before[level / 64]);
                }
            }
            lemma_bit_update(before[word as int], shift, shift);
            assert(self@.levels =~= old(self)@.levels.push(is_array));
        }
        Ok(())
    }

    /// Returns `true` if the innermost open container is an array.
    fn in_array(&self) -> (is_array: bool)
        requires
            self.depth <= MAX_DEPTH,
        ensures
            is_array == (self@.levels.len() > 0 && self@.levels.last()),
    {
        if self.depth == 0 {
            false
        } else {
            let level = self.depth - 1;
            let word = self.stack[level / 64];
            (word >> ((level % 64) as u64)) & 1u64 == 1u64
        }
    }

    /// Moves to the state that follows a completed value.
    fn after_value(&mut self)
        requires
            old(self).depth <= MAX_DEPTH,
        ensures
            final(self)@ == moved(
                old(self)@,
                old(self)@.offset,
                state_after_value(old(self)@.levels),
            ),
            final(self).input == old(self).input,
            final(self).depth == old(self).depth,
            view_consistent(final(self)@),
    {
        let is_array = self.in_array();
        self.state = if self.depth == 0 {
            ScanState::Done
        } else if is_array {
            ScanState::ArrayComma
        } else {
            ScanState::ObjectComma
        };
        assert(self@.levels =~= old(self)@.levels);
    }

    /// Closes the innermost container and moves the cursor after it.
    fn close_container(&mut self)
        requires
            0 < old(self).depth <= MAX_DEPTH,
            old(self).offset < old(self).bytes().len(),
            old(self).bytes().len() <= usize::MAX,
        ensures
            final(self)@ == closed_container(old(self)@),
            final(self).input == old(self).input,
            final(self).depth < MAX_DEPTH,
            view_consistent(final(self)@),
            final(self).offset <= final(self).bytes().len(),
    {
        self.offset = self.offset + 1;
        self.depth = self.depth - 1;
        assert(self@.levels =~= old(self)@.levels.drop_last());
        self.after_value();
    }

    /// Consumes the keyword `word`.
    fn scan_literal(&mut self, word: &[u8]) -> (result: Result<(), Error>)
        requires
            old(self).offset <= old(self).bytes().len(),
        ensures
            final(self).input == old(self).input,
            final(self).stack == old(self).stack,
            final(self).depth == old(self).depth,
            match literal_end(old(self).bytes(), old(self)@.offset, word@) {
                Ok(end) => result is Ok && final(self)@ == at_offset(old(self)@, end),
                Err(error) => result == Err::<(), Error>(error) && final(self)@ == old(self)@,
            },
    {
        let bytes = self.input.as_bytes();
        let length = bytes.len();
        if word.len() > length - self.offset {
            return Err(self.error(ErrorKind::UnexpectedEof));
        }
        let mut index: usize = 0;
        while index < word.len()
            invariant
                bytes@ == old(self).bytes(),
                *self == *old(self),
                length == bytes@.len(),
                self.offset + word@.len() <= bytes@.len(),
                index <= word@.len(),
                forall|k: int| 0 <= k < index ==> bytes@[self.offset + k] == #[trigger] word@[k],
            decreases word@.len() - index,
        {
            if bytes[self.offset + index] != word[index] {
                proof {
                    let end = self.offset + word@.len();
                    assert(bytes@.subrange(self.offset as int, end)[index as int] != word@[index as int]);
                }
                return Err(self.error(ErrorKind::UnexpectedByte));
            }
            index = index + 1;
        }
        proof {
            let end = self.offset + word@.len();
            assert(bytes@.subrange(self.offset as int, end) =~= word@);
        }
        self.offset = self.offset + word.len();
        assert(self@.levels =~= old(self)@.levels);
        Ok(())
    }

    /// Scans a string body and leaves the cursor after the closing quote.
    /// The flag reports if the body contains an escape sequence.
    fn scan_string(&mut self) -> (result: Result<(&'a str, bool), Error>)
        requires
            old(self).offset < old(self).bytes().len(),
            old(self).bytes()[old(self)@.offset] == 0x22,
        ensures
            final(self).input == old(self).input,
            final(self).stack == old(self).stack,
            final(self).depth == old(self).depth,
            final(self).offset <= final(self).bytes().len(),
            match string_end(old(self).bytes(), old(self)@.offset + 1, false) {
                Ok((end, escaped)) => result matches Ok((body, flag)) && flag == escaped
                    && body.spec_bytes() == old(self).bytes().subrange(old(self)@.offset + 1, end)
                    && final(self)@ == at_offset(old(self)@, end + 1),
                Err(error) => result == Err::<(&'a str, bool), Error>(error) && final(self)@ == old(self)@,
            },
    {
        let bytes = self.input.as_bytes();
        let ghost all = bytes@;
        let length = bytes.len();
        let start = self.offset + 1;
        let mut cursor = start;
        let mut escaped = false;
        assert(all[self.offset as int] == 0x22);
        proof {
            lemma_string_end(all, start as int, false);
        }
        loop
            invariant
                bytes@ == all,
                all == old(self).bytes(),
                *self == *old(self),
                all[self.offset as int] == 0x22,
                start == self.offset + 1,
                start <= cursor <= all.len(),
                string_end(all, cursor as int, escaped) == string_end(all, start as int, false),
            decreases all.len() - cursor,
        {
            let ghost entry = cursor;
            while cursor < bytes.len() && is_plain_string_byte(bytes[cursor])
                invariant
                    bytes@ == all,
                    start <= entry <= cursor <= all.len(),
                    string_end(all, cursor as int, escaped) == string_end(all, start as int, false),
                decreases all.len() - cursor,
            {
                cursor = cursor + 1;
            }
            if cursor >= bytes.len() {
                return Err(Error::new(ErrorKind::UnterminatedString, cursor));
            }
            let byte = bytes[cursor];
            if byte == 0x22 {
                proof {
                    assert(all[self.offset as int] == 0x22);
                    lemma_str_bytes_valid(self.input);
                    lemma_ascii_boundaries(all, self.offset as int);
                    lemma_ascii_boundaries(all, cursor as int);
                }
                let body = sub_str(self.input, start, cursor);
                self.offset = cursor + 1;
                assert(self@.levels =~= old(self)@.levels);
                return Ok((body, escaped));
            } else if byte == 0x5c {
                match validate_escape(bytes, cursor) {
                    Ok(next) => {
                        escaped = true;
                        cursor = next;
                    },
                    Err(error) => {
                        return Err(error);
                    },
                }
            } else {
                return Err(Error::new(ErrorKind::ControlCharacter, cursor));
            }
        }
    }

    /// Scans a number and leaves the cursor after its last byte.
    fn scan_number(&mut self) -> (result: Result<&'a str, Error>)
        requires
            old(self).offset < old(self).bytes().len(),
            old(self).bytes()[old(self)@.offset] == 0x2d || is_digit(
                old(self).bytes()[old(self)@.offset],
            ),
        ensures
            final(self).input == old(self).input,
            final(self).stack == old(self).stack,
            final(self).depth == old(self).depth,
            final(self).offset <= final(self).bytes().len(),
            match number_end(old(self).bytes(), old(self)@.offset) {
                Ok(end) => {
                    &&& result matches Ok(text)
                    &&& text.spec_bytes() == old(self).bytes().subrange(old(self)@.offset, end)
                    &&& final(self)@ == at_offset(old(self)@, end)
                },
                Err(error) => result == Err::<&'a str, Error>(error) && final(self)@ == old(self)@,
            },
    {
        let bytes = self.input.as_bytes();
        let ghost all = bytes@;
        let start = self.offset;
        let digits = if bytes[start] == 0x2d {
            start + 1
        } else {
            start
        };
        proof {
            lemma_number_end(all, start as int);
        }
        let integer = match number_integer(bytes, digits) {
            Ok(end) => end,
            Err(error) => return Err(error),
        };
        let fraction = match number_fraction(bytes, integer) {
            Ok(end) => end,
            Err(error) => return Err(error),
        };
        let end = match number_exponent(bytes, fraction) {
            Ok(end) => end,
            Err(error) => return Err(error),
        };
        proof {
                        lemma_str_bytes_valid(self.input);
            lemma_ascii_boundaries(all, start as int);
            lemma_ascii_boundaries(all, end - 1);
        }
        let text = sub_str(self.input, start, end);
        self.offset = end;
        assert(self@.levels =~= old(self)@.levels);
        Ok(text)
    }
}

/// Scans the integer part of a number, whose first digit is at `at`.
fn number_integer(bytes: &[u8], at: usize) -> (result: Result<usize, Error>)
    requires
        at <= bytes@.len(),
    ensures
        match integer_part_end(bytes@, at as int) {
            Ok(end) => result == Ok::<usize, Error>(end as usize) && at <= end <= bytes@.len(),
            Err(error) => result == Err::<usize, Error>(error),
        },
{
    let length = bytes.len();
    if at >= length {
        return Err(Error::new(ErrorKind::UnexpectedEof, at));
    }
    let lead = bytes[at];
    if lead == 0x30 {
        // More digits must not follow a leading zero.
        if at + 1 < length && is_ascii_digit(bytes[at + 1]) {
            return Err(Error::new(ErrorKind::InvalidNumber, at + 1));
        }
        Ok(at + 1)
    } else if is_ascii_digit(lead) {
        Ok(skip_digits(bytes, at))
    } else {
        Err(Error::new(ErrorKind::InvalidNumber, at))
    }
}

/// Scans the optional fraction of a number, which starts at `at`.
fn number_fraction(bytes: &[u8], at: usize) -> (result: Result<usize, Error>)
    requires
        at <= bytes@.len(),
    ensures
        match fraction_end(bytes@, at as int) {
            Ok(end) => result == Ok::<usize, Error>(end as usize) && at <= end <= bytes@.len(),
            Err(error) => result == Err::<usize, Error>(error),
        },
{
    let length = bytes.len();
    if at < length && bytes[at] == 0x2e {
        let after = skip_digits(bytes, at + 1);
        if after == at + 1 {
            return Err(Error::new(ErrorKind::InvalidNumber, at + 1));
        }
        Ok(after)
    } else {
        Ok(at)
    }
}

/// Scans the optional exponent of a number, which starts at `at`.
fn number_exponent(bytes: &[u8], at: usize) -> (result: Result<usize, Error>)
    requires
        at <= bytes@.len(),
    ensures
        match exponent_end(bytes@, at as int) {
            Ok(end) => result == Ok::<usize, Error>(end as usize) && at <= end <= bytes@.len(),
            Err(error) => result == Err::<usize, Error>(error),
        },
{
    let length = bytes.len();
    if at < length && (bytes[at] == 0x65 || bytes[at] == 0x45) {
        let sign = at + 1;
        let digits = if sign < length && (bytes[sign] == 0x2b || bytes[sign] == 0x2d) {
            sign + 1
        } else {
            sign
        };
        let after = skip_digits(bytes, digits);
        if after == digits {
            return Err(Error::new(ErrorKind::InvalidNumber, digits));
        }
        Ok(after)
    } else {
        Ok(at)
    }
}

/// Gives `token` to the visitor method for its kind.
fn deliver<'a, V: Visitor<'a>>(visitor: &mut V, token: Token<'a>) -> (output: Option<V::Output>)
    ensures
        final(visitor).seen() == old(visitor).seen().push((token, output)),
{
    match token {
        Token::ObjectStart => visitor.object_start(),
        Token::ObjectEnd => visitor.object_end(),
        Token::ArrayStart => visitor.array_start(),
        Token::ArrayEnd => visitor.array_end(),
        Token::Key(name) => visitor.key(name),
        Token::EscapeKey(name) => visitor.escape_key(name),
        Token::String(value) => visitor.string(value),
        Token::EscapeString(value) => visitor.escape_string(value),
        Token::Number(text) => visitor.number(text),
        Token::Boolean(value) => visitor.boolean(value),
        Token::Null => visitor.null(),
    }
}

/// Whether `byte` is JSON whitespace.
fn is_whitespace_byte(byte: u8) -> (whitespace: bool)
    ensures
        whitespace == is_json_whitespace(byte),
{
    // Each whitespace byte is at most `b' '`, and almost each byte of a
    // document is greater, thus one comparison settles the usual case.
    byte <= 0x20 && (byte == 0x20 || byte == 0x09 || byte == 0x0a || byte == 0x0d)
}

/// Whether `byte` can stand in a string body without a change to the scan.
fn is_plain_string_byte(byte: u8) -> (plain: bool)
    ensures
        plain == (byte != 0x22 && byte != 0x5c && byte >= 0x20),
{
    byte != 0x22 && byte != 0x5c && byte >= 0x20
}

fn is_ascii_digit(byte: u8) -> (digit: bool)
    ensures
        digit == is_digit(byte),
{
    0x30 <= byte && byte <= 0x39
}

fn is_ascii_hex_digit(byte: u8) -> (digit: bool)
    ensures
        digit == is_hex_digit(byte),
{
    (0x30 <= byte && byte <= 0x39) || (0x41 <= byte && byte <= 0x46) || (0x61 <= byte && byte
        <= 0x66)
}

/// Moves the cursor after a sequence of ASCII digits.
fn skip_digits(bytes: &[u8], cursor: usize) -> (end: usize)
    requires
        cursor <= bytes@.len(),
    ensures
        end == skip_digits_spec(bytes@, cursor as int),
        cursor <= end <= bytes@.len(),
{
    let mut end = cursor;
    while end < bytes.len() && is_ascii_digit(bytes[end])
        invariant
            cursor <= end <= bytes@.len(),
            skip_digits_spec(bytes@, end as int) == skip_digits_spec(bytes@, cursor as int),
        decreases bytes@.len() - end,
    {
        end = end + 1;
    }
    end
}

/// Validates the escape sequence at `cursor` and returns the index of the byte
/// after the sequence.
fn validate_escape(bytes: &[u8], cursor: usize) -> (result: Result<usize, Error>)
    requires
        cursor < bytes@.len(),
    ensures
        match escape_end(bytes@, cursor as int) {
            Ok(end) => result == Ok::<usize, Error>(end as usize),
            Err(error) => result == Err::<usize, Error>(error),
        },
{
    let length = bytes.len();
    let next = cursor + 1;
    if next >= length {
        return Err(Error::new(ErrorKind::UnterminatedString, next));
    }
    let escape = bytes[next];
    if escape == 0x22 || escape == 0x5c || escape == 0x2f || escape == 0x62 || escape == 0x66
        || escape == 0x6e || escape == 0x72 || escape == 0x74 {
        Ok(cursor + 2)
    } else if escape == 0x75 {
        if bytes.len() - cursor < 6 {
            return Err(Error::new(ErrorKind::InvalidEscape, cursor));
        }
        let mut index = cursor + 2;
        while index < cursor + 6
            invariant
                length == bytes@.len(),
                cursor + 6 <= bytes@.len(),
                bytes@[cursor + 1] == 0x75,
                cursor + 2 <= index <= cursor + 6,
                forall|k: int| cursor + 2 <= k < index ==> is_hex_digit(#[trigger] bytes@[k]),
            decreases cursor + 6 - index,
        {
            if !is_ascii_hex_digit(bytes[index]) {
                assert(!is_hex_digit(bytes@[index as int]));
                return Err(Error::new(ErrorKind::InvalidEscape, cursor));
            }
            index = index + 1;
        }
        Ok(cursor + 6)
    } else {
        Err(Error::new(ErrorKind::InvalidEscape, cursor))
    }
}

} // verus!
