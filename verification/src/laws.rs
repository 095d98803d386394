use vstd::prelude::*;
use crate::error::UpgradeError;
use crate::headers::{tokenized, ResponseView, MAX_HEADERS};
use crate::search::{
    first_newline, has_newline, is_first_newline, lemma_first_newline, lemma_suffix_occurs,
    occurs, occurs_at, terminator_in, Terminator, CR, LF,
};
use crate::upgrade::{
    after_line, line_of, parsed, remaining, status_prefix, step, valid_status, Outcome,
    ParserView, WebSocketUpgradeState,
};

verus! {

/// The answer that asks for more bytes.
pub open spec fn pending() -> Outcome {
    Ok(None)
}

/// The answer that gives the attempt up for the reason `e`.
pub open spec fn failed(e: UpgradeError) -> Outcome {
    Err(e)
}

/// The answer that hands out `response` with the bytes `leftover` behind it.
pub open spec fn handed_out(response: ResponseView, leftover: Seq<u8>) -> Outcome {
    Ok(Some((response, leftover)))
}

/// The chunks laid end to end.
pub open spec fn joined(chunks: Seq<Seq<u8>>) -> Seq<u8>
    decreases chunks.len(),
{
    if chunks.len() == 0 {
        Seq::empty()
    } else {
        joined(chunks.drop_last()) + chunks.last()
    }
}

/// The parser after the chunks were written to it one by one.
pub open spec fn fed(start: ParserView, chunks: Seq<Seq<u8>>) -> ParserView
    decreases chunks.len(),
{
    if chunks.len() == 0 {
        start
    } else {
        step(fed(start, chunks.drop_last()), chunks.last()).0
    }
}

/// Every one of the chunks, written in turn, was answered with a request
/// for more bytes.
pub open spec fn all_pending(start: ParserView, chunks: Seq<Seq<u8>>) -> bool
    decreases chunks.len(),
{
    chunks.len() == 0 || (all_pending(start, chunks.drop_last()) && step(
        fed(start, chunks.drop_last()),
        chunks.last(),
    ).1 == pending())
}

/// Where the first line feed of two chunks laid end to end stands.
pub proof fn lemma_newline_joined(a: Seq<u8>, b: Seq<u8>)
    ensures
        has_newline(a + b) <==> has_newline(a) || has_newline(b),
        has_newline(a) ==> line_of(a + b) == line_of(a) && after_line(a + b) == after_line(a) + b,
        !has_newline(a) && has_newline(b) ==> line_of(a + b) == a + line_of(b) && after_line(
            a + b,
        ) == after_line(b),
{
    let ab = a + b;
    if has_newline(a) {
        lemma_first_newline(a);
        let i = first_newline(a);
        assert(ab[i] == LF);
        assert(is_first_newline(ab, i)) by {
            assert forall|j: int| 0 <= j < i implies ab[j] != LF by {
                assert(ab[j] == a[j]);
            }
        }
        lemma_first_newline(ab);
        assert(line_of(ab) =~= line_of(a));
        assert(after_line(ab) =~= after_line(a) + b);
    } else if has_newline(b) {
        lemma_first_newline(b);
        let i = first_newline(b);
        assert(ab[a.len() + i] == b[i]);
        assert(is_first_newline(ab, a.len() + i)) by {
            assert forall|j: int| 0 <= j < a.len() + i implies ab[j] != LF by {
                if j < a.len() {
                    assert(ab[j] == a[j]);
                } else {
                    assert(ab[j] == b[j - a.len()]);
                }
            }
        }
        lemma_first_newline(ab);
        assert(line_of(ab) =~= a + line_of(b));
        assert(after_line(ab) =~= after_line(b));
    } else {
        if has_newline(ab) {
            let j = choose|j: int| 0 <= j < ab.len() && ab[j] == LF;
            if j < a.len() {
                assert(a[j] == LF);
            } else {
                assert(b[j - a.len()] == LF);
            }
        }
    }
}

/// Two chunks in a row, the first of which was answered with a request for
/// more bytes, are answered like the two laid end to end and written at
/// once, and they leave the parser the same.
pub proof fn lemma_two_chunks(start: ParserView, a: Seq<u8>, b: Seq<u8>)
    requires
        start.wf(),
        step(start, a).1 == pending(),
    ensures
        step(step(start, a).0, b) == step(start, a + b),
{
    let ab = a + b;
    let empty = Seq::<u8>::empty();
    lemma_newline_joined(a, b);
    match start.state {
        WebSocketUpgradeState::Initial => {
            assert(start.buffer =~= empty);
            if has_newline(a) {
                let rest = after_line(a);
                if Terminator::Strict.pattern().is_suffix_of(rest) {
                    assert(false);
                }
                assert((empty + rest) + b =~= empty + (rest + b));
                if Terminator::Strict.pattern().is_suffix_of(rest + b) {
                    lemma_suffix_occurs(rest + b, Terminator::Strict.pattern());
                    assert(empty + (rest + b) =~= rest + b);
                }
            } else {
                assert(empty + a =~= a);
                assert(empty + ab =~= ab);
                if has_newline(b) {
                    let rest = after_line(b);
                    assert(empty + rest =~= rest);
                    if Terminator::Strict.pattern().is_suffix_of(rest) {
                        lemma_suffix_occurs(rest, Terminator::Strict.pattern());
                    }
                }
            }
        },
        WebSocketUpgradeState::StatusLine => {
            if has_newline(a) {
                let rest = after_line(a);
                assert((empty + rest) + b =~= empty + (rest + b));
            } else {
                assert((start.buffer + a) + b =~= start.buffer + ab);
                if has_newline(b) {
                    assert((start.buffer + a) + line_of(b) =~= start.buffer + (a + line_of(b)));
                }
            }
        },
        WebSocketUpgradeState::Headers => {
            assert((start.buffer + a) + b =~= start.buffer + ab);
        },
        WebSocketUpgradeState::Complete => {},
    }
}

/// While every chunk is answered with a request for more bytes, the parser
/// is left as if the chunks had been laid end to end and written at once.
pub proof fn lemma_pending_chunks(start: ParserView, chunks: Seq<Seq<u8>>)
    requires
        start.wf(),
        chunks.len() > 0,
        all_pending(start, chunks),
    ensures
        fed(start, chunks) == step(start, joined(chunks)).0,
        step(start, joined(chunks)).1 == pending(),
    decreases chunks.len(),
{
    let earlier = chunks.drop_last();
    if earlier.len() == 0 {
        assert(joined(chunks) =~= chunks.last());
    } else {
        lemma_pending_chunks(start, earlier);
        lemma_two_chunks(start, joined(earlier), chunks.last());
    }
}

/// Chunking does not matter: where every chunk before the last was answered
/// with a request for more bytes, the last chunk is answered like all the
/// chunks laid end to end and written in a single call, with the same
/// response and the same leftover bytes, or the same failure, and the
/// parser is left the same.
pub proof fn lemma_chunking_invariance(start: ParserView, chunks: Seq<Seq<u8>>, last: Seq<u8>)
    requires
        start.wf(),
        all_pending(start, chunks),
    ensures
        step(fed(start, chunks), last) == step(start, joined(chunks) + last),
{
    if chunks.len() == 0 {
        assert(joined(chunks) + last =~= last);
    } else {
        lemma_pending_chunks(start, chunks);
        lemma_two_chunks(start, joined(chunks), last);
    }
}

/// A status line is rejected exactly when it does not begin with
/// `HTTP/1.1 101 `, however it is chunked: the chunks before the one that
/// brings the first line feed are answered with a request for more bytes,
/// and that one with `InvalidStatusLine` if and only if the line does not
/// begin so.
pub proof fn lemma_invalid_status_line(chunks: Seq<Seq<u8>>, last: Seq<u8>)
    requires
        forall|k: int| 0 <= k < chunks.len() ==> !has_newline(#[trigger] chunks[k]),
        has_newline(last),
    ensures
        all_pending(ParserView::fresh(), chunks),
        step(fed(ParserView::fresh(), chunks), last).1 == failed(UpgradeError::InvalidStatusLine)
            <==> !valid_status(line_of(joined(chunks) + last)),
{
    lemma_open_status_line(chunks);
    lemma_chunking_invariance(ParserView::fresh(), chunks, last);
    lemma_newline_joined(joined(chunks), last);
}

/// Chunks without a line feed are all answered with a request for more
/// bytes, and laid end to end they hold no line feed.
proof fn lemma_open_status_line(chunks: Seq<Seq<u8>>)
    requires
        forall|k: int| 0 <= k < chunks.len() ==> !has_newline(#[trigger] chunks[k]),
    ensures
        all_pending(ParserView::fresh(), chunks),
        !has_newline(joined(chunks)),
    decreases chunks.len(),
{
    if chunks.len() > 0 {
        let earlier = chunks.drop_last();
        assert forall|k: int| 0 <= k < earlier.len() implies !has_newline(
            #[trigger] earlier[k],
        ) by {
            assert(earlier[k] == chunks[k]);
        }
        lemma_open_status_line(earlier);
        lemma_newline_joined(joined(earlier), chunks.last());
        lemma_fed_state(earlier);
    }
}

/// A fresh parser that was given chunks without a line feed has taken
/// nothing yet or awaits the end of the status line.
proof fn lemma_fed_state(chunks: Seq<Seq<u8>>)
    requires
        forall|k: int| 0 <= k < chunks.len() ==> !has_newline(#[trigger] chunks[k]),
    ensures
        fed(ParserView::fresh(), chunks).state is Initial || fed(
            ParserView::fresh(),
            chunks,
        ).state is StatusLine,
    decreases chunks.len(),
{
    if chunks.len() > 0 {
        let earlier = chunks.drop_last();
        assert forall|k: int| 0 <= k < earlier.len() implies !has_newline(
            #[trigger] earlier[k],
        ) by {
            assert(earlier[k] == chunks[k]);
        }
        lemma_fed_state(earlier);
    }
}

/// Once a call has handed out the response, every further call fails with
/// `UseAfterComplete` and leaves the parser as it is.
pub proof fn lemma_write_after_done(before: ParserView, chunk: Seq<u8>, next: Seq<u8>)
    requires
        step(before, chunk).1 matches Ok(Some(_)),
    ensures
        step(step(before, chunk).0, next) == (
            step(before, chunk).0,
            failed(UpgradeError::UseAfterComplete),
        ),
{
}

/// A failure is final: once a call has failed, every further call fails
/// for the same reason, whatever bytes it is given, and leaves the parser
/// as it is.
pub proof fn lemma_write_after_failure(before: ParserView, chunk: Seq<u8>, next: Seq<u8>)
    ensures
        step(before, chunk).1 matches Err(e) ==> step(step(before, chunk).0, next) == (
            step(before, chunk).0,
            failed(e),
        ),
{
}

/// A parser becomes complete exactly in the call that does not ask for more
/// bytes: it has then handed out the response, or given it up and recorded
/// why.
pub proof fn lemma_complete_when_finished(before: ParserView, chunk: Seq<u8>)
    requires
        before.wf(),
        !(before.state is Complete),
    ensures
        step(before, chunk).0.state is Complete <==> step(before, chunk).1 != pending(),
        step(before, chunk).1 matches Ok(Some(_)) ==> step(before, chunk).0 == ParserView::done(),
        step(before, chunk).1 matches Err(e) ==> step(before, chunk).0 == ParserView::gave_up(e),
{
}

/// A status line is accepted or rejected alike whether a bare line feed or
/// a carriage return and a line feed end it.
pub proof fn lemma_status_line_endings(text: Seq<u8>)
    ensures
        valid_status(text + seq![LF]) <==> valid_status(text + seq![CR, LF]),
{
    let prefix = status_prefix();
    let bare = text + seq![LF];
    let full = text + seq![CR, LF];
    if text.len() >= prefix.len() {
        assert(bare.subrange(0, prefix.len() as int) =~= full.subrange(0, prefix.len() as int));
    } else {
        if valid_status(bare) {
            assert(bare.subrange(0, prefix.len() as int)[text.len() as int] == LF);
        }
        if valid_status(full) {
            assert(full.subrange(0, prefix.len() as int)[text.len() as int] == CR);
        }
    }
}

/// The header block that a call reads when it does not ask for more bytes:
/// what a parser that awaits the end of the block holds, with the chunk
/// behind it, and else the part of the chunk behind the status line.
pub open spec fn block_read(before: ParserView, chunk: Seq<u8>) -> Seq<u8> {
    if before.state is Headers {
        before.buffer + chunk
    } else {
        after_line(chunk)
    }
}

/// The tokenizer reads `block` alike with `more` behind it: it gives the
/// same answer, and where that answer is complete, the count of bytes read
/// is an offset into `block`. Nothing here says of which blocks this holds;
/// it is what the laws on bytes that follow a response take for granted.
pub open spec fn reads_alike(block: Seq<u8>, more: Seq<u8>) -> bool {
    &&& tokenized(block + more, MAX_HEADERS as nat) == tokenized(block, MAX_HEADERS as nat)
    &&& tokenized(block, MAX_HEADERS as nat) matches Ok(Some((consumed, _))) ==> consumed
        <= block.len()
}

/// A pattern that stands in a sequence stands in it with more behind it.
pub proof fn lemma_occurs_with_more(hay: Seq<u8>, more: Seq<u8>, needle: Seq<u8>)
    requires
        occurs(hay, needle),
    ensures
        occurs(hay + more, needle),
{
    let at = choose|at: int| occurs_at(hay, needle, at);
    assert((hay + more).subrange(at, at + needle.len()) =~= hay.subrange(at, at + needle.len()));
    assert(occurs_at(hay + more, needle, at));
}

/// More bytes behind a response only lengthen the leftover: where a call
/// hands out a response and the tokenizer reads the block alike with `more`
/// behind it, the same call with `more` behind the chunk hands out the same
/// response, and the leftover is the one before with `more` behind it.
pub proof fn lemma_more_behind(before: ParserView, chunk: Seq<u8>, more: Seq<u8>)
    requires
        before.wf(),
        step(before, chunk).1 matches Ok(Some(_)),
        reads_alike(block_read(before, chunk), more),
    ensures
        step(before, chunk + more).0 == ParserView::done(),
        step(before, chunk).1 matches Ok(Some((response, leftover))) ==> step(
            before,
            chunk + more,
        ).1 == handed_out(response, leftover + more),
{
    let empty = Seq::<u8>::empty();
    let strict = Terminator::Strict.pattern();
    let lenient = Terminator::Lenient.pattern();
    lemma_newline_joined(chunk, more);
    if before.state is Headers {
        let block = before.buffer + chunk;
        assert(before.buffer + (chunk + more) =~= block + more);
        lemma_terminator_with_more(block, more);
        lemma_leftover_with_more(block, more);
    } else {
        let rest = after_line(chunk);
        assert(empty + rest =~= rest);
        assert(empty + (rest + more) =~= rest + more);
        assert(before.state is Initial ==> before.buffer =~= empty);
        if strict.is_suffix_of(rest) {
            lemma_suffix_occurs(rest, strict);
        }
        if strict.is_suffix_of(rest + more) {
            lemma_suffix_occurs(rest + more, strict);
        }
        lemma_terminator_with_more(rest, more);
        lemma_leftover_with_more(rest, more);
    }
}

/// A block that holds a terminator holds one with more behind it.
proof fn lemma_terminator_with_more(block: Seq<u8>, more: Seq<u8>)
    ensures
        terminator_in(block) is Some ==> terminator_in(block + more) is Some,
{
    if occurs(block, Terminator::Strict.pattern()) {
        lemma_occurs_with_more(block, more, Terminator::Strict.pattern());
    }
    if occurs(block, Terminator::Lenient.pattern()) {
        lemma_occurs_with_more(block, more, Terminator::Lenient.pattern());
    }
}

/// What lies behind an offset into a block lies behind it with more behind
/// the block.
proof fn lemma_leftover_with_more(block: Seq<u8>, more: Seq<u8>)
    ensures
        forall|consumed: int|
            0 <= consumed <= block.len() ==> #[trigger] (block + more).subrange(
                consumed,
                (block + more).len() as int,
            ) == block.subrange(consumed, block.len() as int) + more,
{
    assert forall|consumed: int| 0 <= consumed <= block.len() implies #[trigger] (block
        + more).subrange(consumed, (block + more).len() as int) == block.subrange(
        consumed,
        block.len() as int,
    ) + more by {
        assert((block + more).subrange(consumed, (block + more).len() as int) =~= block.subrange(
            consumed,
            block.len() as int,
        ) + more);
    }
}

/// Chunking with bytes left unwritten: where the chunks before the last
/// were answered with a request for more bytes, the last chunk is answered
/// with a response, and the tokenizer reads the header block alike with
/// `rest` behind it, all the bytes written in a single call are answered
/// with the same response, and the leftover of that call is the leftover of
/// the last chunk with `rest` behind it. No byte is lost and none comes
/// twice.
pub proof fn lemma_chunks_and_rest(chunks: Seq<Seq<u8>>, last: Seq<u8>, rest: Seq<u8>)
    requires
        all_pending(ParserView::fresh(), chunks),
        step(fed(ParserView::fresh(), chunks), last).1 matches Ok(Some(_)),
        reads_alike(after_line(joined(chunks) + last), rest),
    ensures
        step(fed(ParserView::fresh(), chunks), last).1 matches Ok(Some((response, leftover)))
            ==> step(ParserView::fresh(), joined(chunks) + last + rest).1 == handed_out(
            response,
            leftover + rest,
        ),
{
    lemma_chunking_invariance(ParserView::fresh(), chunks, last);
    lemma_more_behind(ParserView::fresh(), joined(chunks) + last, rest);
}

/// The failure `TooManyHeaders` is the tokenizer's own: a header block is
/// answered with it exactly when the tokenizer, given room for
/// `MAX_HEADERS` headers, gives up for want of room.
pub proof fn lemma_too_many_headers(block: Seq<u8>)
    ensures
        (parsed(block) matches Err(UpgradeError::TooManyHeaders)) <==> (tokenized(
            block,
            MAX_HEADERS as nat,
        ) matches Err(httparse::Error::TooManyHeaders)),
{
}

/// The length of the last of the chunks of `size` bytes into which `len`
/// bytes are cut.
pub open spec fn last_chunk_len(len: nat, size: nat) -> nat {
    if len % size == 0 {
        size
    } else {
        len % size
    }
}

/// The bytes of `whole` cut into chunks of `size` bytes each, the last of
/// which holds what is left.
pub open spec fn chunks_of(whole: Seq<u8>, size: nat) -> Seq<Seq<u8>>
    decreases whole.len(),
{
    if whole.len() == 0 {
        Seq::empty()
    } else if size == 0 || whole.len() <= size {
        seq![whole]
    } else {
        let cut = whole.len() - last_chunk_len(whole.len(), size);
        chunks_of(whole.subrange(0, cut), size).push(whole.subrange(cut, whole.len() as int))
    }
}

/// The chunks into which bytes are cut, laid end to end, give the bytes
/// back.
pub proof fn lemma_chunks_joined(whole: Seq<u8>, size: nat)
    ensures
        joined(chunks_of(whole, size)) == whole,
    decreases whole.len(),
{
    let chunks = chunks_of(whole, size);
    if whole.len() == 0 {
        assert(joined(chunks) =~= whole);
    } else if size == 0 || whole.len() <= size {
        assert(chunks.drop_last() =~= Seq::<Seq<u8>>::empty());
        assert(joined(chunks.drop_last()) =~= Seq::<u8>::empty());
        assert(chunks.last() == whole);
        assert(joined(chunks) =~= whole);
    } else {
        let cut = whole.len() - last_chunk_len(whole.len(), size);
        assert(0 < cut < whole.len()) by {
            vstd::arithmetic::div_mod::lemma_mod_bound(whole.len() as int, size as int);
        }
        let front = whole.subrange(0, cut);
        let back = whole.subrange(cut, whole.len() as int);
        lemma_chunks_joined(front, size);
        assert(chunks == chunks_of(front, size).push(back));
        assert(chunks.drop_last() =~= chunks_of(front, size));
        assert(chunks.last() == back);
        assert(front + back =~= whole);
    }
}

/// Chunks of a fixed size: where every chunk of `whole` before the last was
/// answered with a request for more bytes, the last chunk is answered like
/// `whole` written in a single call.
pub proof fn lemma_fixed_size_chunks(whole: Seq<u8>, size: nat)
    requires
        size >= 1,
        whole.len() > 0,
        all_pending(ParserView::fresh(), chunks_of(whole, size).drop_last()),
    ensures
        step(
            fed(ParserView::fresh(), chunks_of(whole, size).drop_last()),
            chunks_of(whole, size).last(),
        ) == step(ParserView::fresh(), whole),
{
    let chunks = chunks_of(whole, size);
    lemma_chunks_joined(whole, size);
    assert(chunks.len() > 0);
    lemma_chunking_invariance(ParserView::fresh(), chunks.drop_last(), chunks.last());
}

/// A response that arrives in one chunk which ends with `\r\n\r\n` is
/// answered like the same bytes written one by one, where every byte before
/// the last was answered with a request for more bytes.
pub proof fn lemma_whole_matches_bytewise(whole: Seq<u8>)
    requires
        Terminator::Strict.pattern().is_suffix_of(whole),
        all_pending(ParserView::fresh(), chunks_of(whole, 1).drop_last()),
    ensures
        step(
            fed(ParserView::fresh(), chunks_of(whole, 1).drop_last()),
            chunks_of(whole, 1).last(),
        ) == step(ParserView::fresh(), whole),
        forall|i: int|
            0 <= i < whole.len() ==> (#[trigger] chunks_of(whole, 1)[i]) == seq![whole[i]],
{
    lemma_fixed_size_chunks(whole, 1);
    lemma_single_bytes(whole);
}

/// Cut into chunks of one byte, every byte is a chunk of its own.
pub proof fn lemma_single_bytes(whole: Seq<u8>)
    ensures
        chunks_of(whole, 1).len() == whole.len(),
        forall|i: int|
            0 <= i < whole.len() ==> (#[trigger] chunks_of(whole, 1)[i]) == seq![whole[i]],
    decreases whole.len(),
{
    if whole.len() > 1 {
        let front = whole.subrange(0, whole.len() - 1);
        lemma_single_bytes(front);
        assert forall|i: int| 0 <= i < whole.len() implies (#[trigger] chunks_of(whole, 1)[i])
            == seq![whole[i]] by {
            if i < whole.len() - 1 {
                assert(chunks_of(whole, 1)[i] == chunks_of(front, 1)[i]);
                assert(front[i] == whole[i]);
            } else {
                assert(whole.subrange(whole.len() - 1, whole.len() as int) =~= seq![whole[i]]);
            }
        }
    } else if whole.len() == 1 {
        assert(whole =~= seq![whole[0]]);
    }
}

/// A step leaves a well-formed parser well formed, and never leads back to
/// an earlier state.
pub proof fn lemma_step_forward(before: ParserView, chunk: Seq<u8>)
    requires
        before.wf(),
    ensures
        step(before, chunk).0.wf(),
        remaining(step(before, chunk).0.state) <= remaining(before.state),
{
}

} // verus!
