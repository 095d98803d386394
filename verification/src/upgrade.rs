use vstd::prelude::*;
use crate::buffer::{
    buffer_bytes, buffer_clear, buffer_extend, buffer_freeze, buffer_new, buffer_split_off,
    buffered, frozen, frozen_copy, frozen_empty,
};
use crate::error::UpgradeError;
use crate::headers::{
    parse_response, parsed_view, response_of, tokenized, ResponseView, UpgradeResponse,
    MAX_HEADERS,
};
use crate::search::{
    ends_with, find_newline, find_terminator, first_newline, has_newline,
    lemma_suffix_of_suffix, starts_with, terminator_in, Terminator, CR, LF,
};

verus! {

/// How far the parser has come with the response.
#[derive(Clone, Copy, Debug, PartialEq, Eq, Structural)]
pub enum WebSocketUpgradeState {
    /// No byte has been taken yet.
    Initial,
    /// A part of the status line is buffered; its line feed is awaited.
    StatusLine,
    /// The status line was accepted; header bytes are buffered until the
    /// header block ends.
    Headers,
    /// The response was handed out or given up; nothing more is taken.
    Complete,
}

impl Default for WebSocketUpgradeState {
    fn default() -> (state: Self)
        ensures
            state == WebSocketUpgradeState::Initial,
    {
        WebSocketUpgradeState::Initial
    }
}

/// The mathematical value of a parser: its state, the bytes it holds back,
/// and the failure with which it gave the response up, if it did.
pub struct ParserView {
    pub state: WebSocketUpgradeState,
    pub buffer: Seq<u8>,
    pub failure: Option<UpgradeError>,
}

impl ParserView {
    /// The parser that has taken nothing yet.
    pub open spec fn fresh() -> ParserView {
        ParserView {
            state: WebSocketUpgradeState::Initial,
            buffer: Seq::empty(),
            failure: None,
        }
    }

    /// The parser that has handed out the response.
    pub open spec fn done() -> ParserView {
        ParserView {
            state: WebSocketUpgradeState::Complete,
            buffer: Seq::empty(),
            failure: None,
        }
    }

    /// The parser that has given the response up for the reason `e`. It
    /// holds nothing back and takes nothing more.
    pub open spec fn gave_up(e: UpgradeError) -> ParserView {
        ParserView {
            state: WebSocketUpgradeState::Complete,
            buffer: Seq::empty(),
            failure: Some(e),
        }
    }

    /// What holds of every parser: it holds bytes back only while it awaits
    /// the end of the status line or of the header block, and once it has
    /// failed it is complete.
    pub open spec fn wf(self) -> bool {
        &&& self.state is Initial || self.state is Complete ==> self.buffer.len() == 0
        &&& self.failure is Some ==> self.state is Complete
    }
}

/// What one call of `write` answers: `Ok(None)` while more bytes are
/// needed, the response with the bytes that followed it, or a failure.
pub type Outcome = Result<Option<(ResponseView, Seq<u8>)>, UpgradeError>;

/// What `write` hands back.
pub type WriteResult = Result<Option<(UpgradeResponse, bytes::Bytes)>, UpgradeError>;

/// The value of a `write` result, with the response and the leftover bytes
/// taken by their views.
pub open spec fn outcome_view(result: WriteResult) -> Outcome {
    match result {
        Ok(Some((response, leftover))) => Ok(Some((response@, frozen(&leftover)))),
        Ok(None) => Ok(None),
        Err(e) => Err(e),
    }
}

/// The bytes with which an accepted status line begins: `HTTP/1.1 101 `.
pub open spec fn status_prefix() -> Seq<u8> {
    seq![72u8, 84, 84, 80, 47, 49, 46, 49, 32, 49, 48, 49, 32]
}

/// The status line announces a switch of protocols.
pub open spec fn valid_status(line: Seq<u8>) -> bool {
    status_prefix().is_prefix_of(line)
}

/// The part of `chunk` up to and with its first line feed.
pub open spec fn line_of(chunk: Seq<u8>) -> Seq<u8> {
    chunk.subrange(0, first_newline(chunk) + 1)
}

/// The part of `chunk` behind its first line feed.
pub open spec fn after_line(chunk: Seq<u8>) -> Seq<u8> {
    chunk.subrange(first_newline(chunk) + 1, chunk.len() as int)
}

/// The end of an attempt that fails for the reason `e`: the parser records
/// the failure and holds nothing, and the answer is the failure.
pub open spec fn given_up(e: UpgradeError) -> (ParserView, Outcome) {
    (ParserView::gave_up(e), Err(e))
}

/// The end of the parse, for what the header block in `block` was read as:
/// the response is handed out with the bytes behind the block, or the
/// response is given up. Either way the parser is complete and holds
/// nothing.
pub open spec fn concluded(
    block: Seq<u8>,
    parsed: Result<(usize, ResponseView), UpgradeError>,
) -> (ParserView, Outcome) {
    match parsed {
        Ok((consumed, response)) => (
            ParserView::done(),
            Ok(Some((response, block.subrange(consumed as int, block.len() as int)))),
        ),
        Err(e) => given_up(e),
    }
}

/// What the header block in `block` is read as.
pub open spec fn parsed(block: Seq<u8>) -> Result<(usize, ResponseView), UpgradeError> {
    response_of(tokenized(block, MAX_HEADERS as nat))
}

/// The step of a parser that awaits the end of the header block, holds
/// `buffer` and is given `chunk`.
pub open spec fn headers_step(buffer: Seq<u8>, chunk: Seq<u8>) -> (ParserView, Outcome) {
    let block = buffer + chunk;
    if terminator_in(block) is Some {
        concluded(block, parsed(block))
    } else {
        (
            ParserView { state: WebSocketUpgradeState::Headers, buffer: block, failure: None },
            Ok(None),
        )
    }
}

/// The step of a parser that has taken nothing yet, for a chunk that holds
/// a line feed.
pub open spec fn initial_step(before: ParserView, chunk: Seq<u8>) -> (ParserView, Outcome) {
    let rest = after_line(chunk);
    if !valid_status(line_of(chunk)) {
        given_up(UpgradeError::InvalidStatusLine)
    } else if Terminator::Strict.pattern().is_suffix_of(rest) {
        concluded(rest, parsed(rest))
    } else {
        headers_step(before.buffer, rest)
    }
}

/// The step of a parser that holds a part of the status line, for a chunk
/// that holds a line feed.
pub open spec fn status_line_step(before: ParserView, chunk: Seq<u8>) -> (ParserView, Outcome) {
    let line = before.buffer + line_of(chunk);
    if !valid_status(line) {
        given_up(UpgradeError::InvalidStatusLine)
    } else {
        headers_step(Seq::empty(), after_line(chunk))
    }
}

/// One call of `write`: the parser afterwards and the answer, from the
/// parser before and the chunk. A parser that has failed repeats its
/// failure and one that has handed out the response answers
/// `UseAfterComplete`; neither looks at the chunk or changes.
pub open spec fn step(before: ParserView, chunk: Seq<u8>) -> (ParserView, Outcome) {
    let buffering = ParserView {
        state: WebSocketUpgradeState::StatusLine,
        buffer: before.buffer + chunk,
        failure: None,
    };
    match before.failure {
        Some(e) => (before, Err(e)),
        None => match before.state {
            WebSocketUpgradeState::Initial => if has_newline(chunk) {
                initial_step(before, chunk)
            } else {
                (buffering, Ok(None))
            },
            WebSocketUpgradeState::StatusLine => if has_newline(chunk) {
                status_line_step(before, chunk)
            } else {
                (buffering, Ok(None))
            },
            WebSocketUpgradeState::Headers => headers_step(before.buffer, chunk),
            WebSocketUpgradeState::Complete => (before, Err(UpgradeError::UseAfterComplete)),
        },
    }
}

/// The number of states that may still follow `state`.
pub open spec fn remaining(state: WebSocketUpgradeState) -> nat {
    match state {
        WebSocketUpgradeState::Initial => 3,
        WebSocketUpgradeState::StatusLine => 2,
        WebSocketUpgradeState::Headers => 1,
        WebSocketUpgradeState::Complete => 0,
    }
}

/// An incremental parser for the response to a WebSocket upgrade request.
/// One parser serves one response.
pub struct WebSocketUpgrade {
    state: WebSocketUpgradeState,
    buf: bytes::BytesMut,
    failure: Option<UpgradeError>,
}

impl View for WebSocketUpgrade {
    type V = ParserView;

    closed spec fn view(&self) -> ParserView {
        ParserView { state: self.state, buffer: buffered(&self.buf), failure: self.failure }
    }
}

impl Default for WebSocketUpgrade {
    fn default() -> (parser: Self)
        ensures
            parser@ == ParserView::fresh(),
    {
        WebSocketUpgrade {
            state: WebSocketUpgradeState::default(),
            buf: buffer_new(),
            failure: None,
        }
    }
}

impl WebSocketUpgrade {
    /// Accepts a status line that begins with `HTTP/1.1 101 `, whatever
    /// text follows.
    pub fn validate_status(&self, status: &[u8]) -> (checked: Result<(), UpgradeError>)
        ensures
            checked is Ok <==> valid_status(status@),
            checked is Err ==> checked == Err::<(), _>(UpgradeError::InvalidStatusLine),
    {
        let prefix: [u8; 13] = [72, 84, 84, 80, 47, 49, 46, 49, 32, 49, 48, 49, 32];
        assert(prefix@ =~= status_prefix());
        if starts_with(status, prefix.as_slice()) {
            Ok(())
        } else {
            Err(UpgradeError::InvalidStatusLine)
        }
    }

    /// The state that the parser is in.
    pub fn state(&self) -> (state: WebSocketUpgradeState)
        ensures
            state == self@.state,
    {
        self.state
    }

    /// The number of bytes that the parser holds back.
    pub fn buffered_len(&self) -> (len: usize)
        ensures
            len == self@.buffer.len(),
    {
        buffer_bytes(&self.buf).len()
    }

    /// The failure with which the parser gave the response up, if it did.
    pub fn failure(&self) -> (failure: Option<UpgradeError>)
        ensures
            failure == self@.failure,
    {
        self.failure
    }

    /// Gives the response up for the reason `e`: the parser lets go of what
    /// it holds and answers every further call with `e`.
    pub fn fail(&mut self, e: UpgradeError) -> (result: WriteResult)
        ensures
            (final(self)@, outcome_view(result)) == given_up(e),
    {
        buffer_clear(&mut self.buf);
        self.state = WebSocketUpgradeState::Complete;
        self.failure = Some(e);
        Err(e)
    }

    /// Ends the parse with what the buffered header block was read as: a
    /// response is handed out with the buffered bytes behind the block, a
    /// failure is recorded; either way the buffer is given up.
    pub fn complete(
        &mut self,
        parsed: Result<(usize, UpgradeResponse), UpgradeError>,
    ) -> (result: WriteResult)
        requires
            parsed matches Ok((consumed, _)) ==> consumed <= old(self)@.buffer.len(),
        ensures
            (final(self)@, outcome_view(result)) == concluded(
                old(self)@.buffer,
                parsed_view(parsed),
            ),
            outcome_view(result) matches Ok(Some((_, leftover))) ==> leftover.is_suffix_of(
                old(self)@.buffer,
            ),
    {
        match parsed {
            Ok((consumed, response)) => {
                let mut block = buffer_new();
                core::mem::swap(&mut self.buf, &mut block);
                self.state = WebSocketUpgradeState::Complete;
                self.failure = None;
                let leftover = buffer_freeze(buffer_split_off(&mut block, consumed));
                Ok(Some((response, leftover)))
            },
            Err(e) => self.fail(e),
        }
    }

    /// Ends the parse of a response that arrived whole, with what the header
    /// block in `block` was read as: a response is handed out with a copy of
    /// the bytes behind the block, a failure is recorded.
    pub fn complete_unbuffered(
        &mut self,
        block: &[u8],
        parsed: Result<(usize, UpgradeResponse), UpgradeError>,
    ) -> (result: WriteResult)
        requires
            parsed matches Ok((consumed, _)) ==> consumed <= block.len(),
        ensures
            (final(self)@, outcome_view(result)) == concluded(block@, parsed_view(parsed)),
            outcome_view(result) matches Ok(Some((_, leftover))) ==> leftover.is_suffix_of(block@),
    {
        match parsed {
            Ok((consumed, response)) => {
                let leftover = if consumed == block.len() {
                    frozen_empty()
                } else {
                    frozen_copy(&block[consumed..block.len()])
                };
                assert(frozen(&leftover) =~= block@.subrange(consumed as int, block@.len() as int));
                buffer_clear(&mut self.buf);
                self.state = WebSocketUpgradeState::Complete;
                self.failure = None;
                Ok(Some((response, leftover)))
            },
            Err(e) => self.fail(e),
        }
    }

    /// Takes the next chunk of the response, in the order of arrival.
    /// Answers `Ok(None)` while more bytes are needed, the response and the
    /// bytes that followed its header block once that block is complete,
    /// or the failure. A failure is final: every further call repeats it
    /// without looking at the bytes. After the response was handed out
    /// every further call fails with `UseAfterComplete`.
    pub fn write(&mut self, bytes: &[u8]) -> (result: WriteResult)
        requires
            old(self)@.buffer.len() + bytes.len() <= usize::MAX,
        ensures
            (final(self)@, outcome_view(result)) == step(old(self)@, bytes@),
            old(self)@.wf() ==> final(self)@.wf(),
            old(self)@.wf() ==> (outcome_view(result) matches Ok(Some((_, leftover)))
                ==> leftover.is_suffix_of(old(self)@.buffer + bytes@)),
    {
        let ghost goal = step(self@, bytes@);
        if let Some(e) = self.failure {
            return Err(e);
        }
        let strict: [u8; 4] = [CR, LF, CR, LF];
        assert(strict@ =~= Terminator::Strict.pattern());
        let mut input: &[u8] = bytes;
        loop
            invariant
                goal == step(old(self)@, bytes@),
                step(self@, input@) == goal,
                self@.failure is None,
                old(self)@.wf() ==> self@.wf(),
                old(self)@.wf() ==> (self@.buffer + input@).is_suffix_of(
                    old(self)@.buffer + bytes@,
                ),
                self@.buffer.len() + input@.len() <= usize::MAX,
                strict@ == Terminator::Strict.pattern(),
            decreases remaining(self@.state),
        {
            match self.state {
                WebSocketUpgradeState::Initial => match find_newline(input) {
                    Some(index) => {
                        let (status, rest) = input.split_at(index + 1);
                        if let Err(e) = self.validate_status(status) {
                            return self.fail(e);
                        }
                        // A response that arrived whole and ends with the strict
                        // terminator is read without buffering it.
                        if ends_with(rest, strict.as_slice()) {
                            let parsed = parse_response(rest);
                            return self.complete_unbuffered(rest, parsed);
                        }
                        proof {
                            if old(self)@.wf() {
                                assert(rest@.is_suffix_of(self@.buffer + input@));
                                assert(self@.buffer + rest@ =~= rest@);
                                lemma_suffix_of_suffix(
                                    rest@,
                                    self@.buffer + input@,
                                    old(self)@.buffer + bytes@,
                                );
                            }
                        }
                        self.state = WebSocketUpgradeState::Headers;
                        input = rest;
                    },
                    None => {
                        self.state = WebSocketUpgradeState::StatusLine;
                        buffer_extend(&mut self.buf, input);
                        return Ok(None);
                    },
                },
                WebSocketUpgradeState::StatusLine => match find_newline(input) {
                    Some(index) => {
                        let (status, rest) = input.split_at(index + 1);
                        proof {
                            if old(self)@.wf() {
                                assert(rest@.is_suffix_of(self@.buffer + input@));
                                lemma_suffix_of_suffix(
                                    rest@,
                                    self@.buffer + input@,
                                    old(self)@.buffer + bytes@,
                                );
                            }
                        }
                        buffer_extend(&mut self.buf, status);
                        if let Err(e) = self.validate_status(buffer_bytes(&self.buf)) {
                            return self.fail(e);
                        }
                        buffer_clear(&mut self.buf);
                        self.state = WebSocketUpgradeState::Headers;
                        input = rest;
                        assert(Seq::<u8>::empty() + input@ =~= input@);
                    },
                    None => {
                        buffer_extend(&mut self.buf, input);
                        return Ok(None);
                    },
                },
                WebSocketUpgradeState::Headers => {
                    buffer_extend(&mut self.buf, input);
                    if find_terminator(buffer_bytes(&self.buf)).is_none() {
                        return Ok(None);
                    }
                    let parsed = parse_response(buffer_bytes(&self.buf));
                    return self.complete(parsed);
                },
                WebSocketUpgradeState::Complete => {
                    return Err(UpgradeError::UseAfterComplete);
                },
            }
        }
    }
}

} // verus!
