//! Decoding a streamed chat reply: server-sent event lines `data: {json}`,
//! ended by `data: [DONE]`, whose JSON carries the reply piece by piece.

use vstd::prelude::*;
use crate::text::{chars_of, string_from_range, trim, trim_range};
use crate::trusted::{spec_string_at, spec_utf8_lossy, string_at, utf8_lossy};
use vstd::utf8::{decode_utf8, pop_first_scalar, valid_utf8, valid_utf8_concat};

verus! {

/// What starts a line that carries data.
pub const DATA_PREFIX: &'static str = "data: ";

/// The data that ends the stream.
pub const DONE_MARKER: &'static str = "[DONE]";

/// A data line's JSON holds the answers under this key...
pub const CHOICES_KEY: &'static str = "choices";

/// ...the first answer...
pub const FIRST_CHOICE: usize = 0;

/// ...its change since the previous line under this key...
pub const DELTA_KEY: &'static str = "delta";

/// ...and the next piece of the reply under this key.
pub const CONTENT_KEY: &'static str = "content";

/// What reading the next piece of the reply out of a data line's JSON gives.
pub open spec fn delta_of(data: Seq<char>) -> Option<Option<Seq<char>>> {
    spec_string_at(data, CHOICES_KEY@, FIRST_CHOICE as nat, DELTA_KEY@, CONTENT_KEY@)
}

/// Why a streamed reply could not be decoded.
#[derive(Debug)]
pub enum StreamError {
    /// A data line did not hold JSON.
    Json(serde_json::Error),
}

/// What a (trimmed) line of the stream means.
pub enum LineEvent {
    /// Nothing: an empty line, a line without data, or data without text.
    Ignored,
    /// The end of the stream.
    Done,
    /// The next piece of the reply.
    Delta(Seq<char>),
    /// Data that is not JSON.
    Invalid,
}

/// The meaning of the trimmed line `line`.
pub open spec fn line_event(line: Seq<char>) -> LineEvent {
    if line.len() == 0 || !DATA_PREFIX@.is_prefix_of(line) {
        LineEvent::Ignored
    } else {
        let data = line.skip(DATA_PREFIX@.len() as int);
        if data == DONE_MARKER@ {
            LineEvent::Done
        } else {
            match delta_of(data) {
                None => LineEvent::Invalid,
                Some(None) => LineEvent::Ignored,
                Some(Some(content)) => LineEvent::Delta(content),
            }
        }
    }
}

/// The text a chunk of the body decodes to: its characters when it is valid
/// UTF-8, otherwise what lossy decoding makes of it.
pub open spec fn chunk_text(bytes: Seq<u8>) -> Seq<char> {
    if valid_utf8(bytes) {
        decode_utf8(bytes)
    } else {
        spec_utf8_lossy(bytes)
    }
}

/// How decoding stopped.
pub enum StreamEnd {
    /// Every complete line was read; more text may follow.
    Open,
    /// A line ended the stream.
    Done,
    /// A line held data that is not JSON.
    Failed,
}

/// The state after reading the complete lines of some text.
pub struct Drained {
    /// The text after the last line read.
    pub rest: Seq<char>,
    /// The reply so far.
    pub reply: Seq<char>,
    /// How reading stopped.
    pub end: StreamEnd,
}

/// The index of the first line feed in `s` at or after `i`, or `s.len()`.
pub open spec fn newline_from(s: Seq<char>, i: nat) -> nat
    decreases s.len() - i,
{
    if i >= s.len() {
        s.len()
    } else if s[i as int] == '\n' {
        i
    } else {
        newline_from(s, i + 1)
    }
}

/// Reads the complete lines of `pending`, one after the other, adding the
/// pieces they carry to `reply`, until no line feed is left, a line ends
/// the stream or a line is not JSON.
pub open spec fn drain_lines(pending: Seq<char>, reply: Seq<char>) -> Drained
    decreases pending.len(),
{
    let k = newline_from(pending, 0);
    if k >= pending.len() {
        Drained { rest: pending, reply, end: StreamEnd::Open }
    } else {
        let rest = pending.skip(k + 1int);
        match line_event(trim(pending.take(k + 1int))) {
            LineEvent::Done => Drained { rest, reply, end: StreamEnd::Done },
            LineEvent::Invalid => Drained { rest, reply, end: StreamEnd::Failed },
            LineEvent::Delta(content) => drain_lines(rest, reply + content),
            LineEvent::Ignored => drain_lines(rest, reply),
        }
    }
}

/// The chunks put together, in order.
pub open spec fn concat_chunks<A>(chunks: Seq<Seq<A>>) -> Seq<A>
    decreases chunks.len(),
{
    if chunks.len() == 0 {
        Seq::empty()
    } else {
        chunks[0] + concat_chunks(chunks.drop_first())
    }
}

/// Reads chunks of text one after the other from the state `d`, stopping
/// once a line ends the stream or holds data that is not JSON.
pub open spec fn feed_chunks(d: Drained, chunks: Seq<Seq<char>>) -> Drained
    decreases chunks.len(),
{
    if chunks.len() == 0 || !(d.end is Open) {
        d
    } else {
        feed_chunks(drain_lines(d.rest + chunks[0], d.reply), chunks.drop_first())
    }
}

/// The reply a stream gives once its body has ended in the state `d`:
/// the reply so far when a line ended the stream, nothing when a line was
/// not JSON, and otherwise the reply after reading the leftover text as a
/// last line.
pub open spec fn stream_reply(d: Drained) -> Option<Seq<char>> {
    match d.end {
        StreamEnd::Done => Some(d.reply),
        StreamEnd::Failed => None,
        StreamEnd::Open => {
            let t = trim(d.rest);
            if t.len() == 0 {
                Some(d.reply)
            } else {
                match line_event(t) {
                    LineEvent::Invalid => None,
                    LineEvent::Delta(content) => Some(d.reply + content),
                    _ => Some(d.reply),
                }
            }
        },
    }
}

/// The state before anything is read, with reply `reply`.
pub open spec fn fresh(reply: Seq<char>) -> Drained {
    Drained { rest: Seq::empty(), reply, end: StreamEnd::Open }
}

/// Two states give the same reply and stop the same way, and an open state
/// has the same leftover text.
pub open spec fn same_outcome(d1: Drained, d2: Drained) -> bool {
    &&& d1.reply == d2.reply
    &&& d1.end == d2.end
    &&& d1.end is Open ==> d1.rest == d2.rest
}

// ---------------------------------------------------------------------------
// Lemmas and laws
// ---------------------------------------------------------------------------

proof fn lemma_newline_from_bounds(s: Seq<char>, i: nat)
    ensures
        i <= s.len() ==> i <= newline_from(s, i) <= s.len(),
        newline_from(s, i) < s.len() ==> s[newline_from(s, i) as int] == '\n',
        forall|x: int| i <= x < newline_from(s, i) ==> #[trigger] s[x] != '\n',
    decreases s.len() - i,
{
    if i < s.len() && s[i as int] != '\n' {
        lemma_newline_from_bounds(s, i + 1);
    }
}

proof fn lemma_newline_from_found(s: Seq<char>, i: nat, j: nat)
    requires
        i <= j <= s.len(),
        forall|x: int| i <= x < j ==> s[x] != '\n',
        j < s.len() ==> s[j as int] == '\n',
    ensures
        newline_from(s, i) == j,
    decreases j - i,
{
    if i < j {
        lemma_newline_from_found(s, i + 1, j);
    }
}

/// Where the first line feed of a text lies does not change when more text
/// follows it.
proof fn lemma_newline_extend(p: Seq<char>, a: Seq<char>)
    ensures
        newline_from(p, 0) < p.len() ==> newline_from(p + a, 0) == newline_from(p, 0),
        newline_from(p, 0) >= p.len() ==> newline_from(p + a, 0) == p.len() + newline_from(a, 0),
{
    lemma_newline_from_bounds(p, 0);
    lemma_newline_from_bounds(a, 0);
    let k = newline_from(p, 0);
    if k < p.len() {
        lemma_newline_from_found(p + a, 0, k);
    } else {
        let j = p.len() + newline_from(a, 0);
        assert forall|x: int| 0 <= x < j implies (p + a)[x] != '\n' by {
            if x >= p.len() {
                assert((p + a)[x] == a[x - p.len()]);
            }
        }
        lemma_newline_from_found(p + a, 0, j);
    }
}

/// Reading never takes anything back from the reply: the reply before
/// reading begins the reply after it.
pub proof fn lemma_reply_grows(pending: Seq<char>, reply: Seq<char>)
    ensures
        reply.is_prefix_of(drain_lines(pending, reply).reply),
    decreases pending.len(),
{
    lemma_newline_from_bounds(pending, 0);
    let k = newline_from(pending, 0);
    if k < pending.len() {
        let rest = pending.skip(k + 1int);
        match line_event(trim(pending.take(k + 1int))) {
            LineEvent::Delta(content) => {
                lemma_reply_grows(rest, reply + content);
                let r = drain_lines(rest, reply + content).reply;
                assert(r.subrange(0, reply.len() as int) =~= (reply + content).subrange(
                    0,
                    reply.len() as int,
                ));
                assert((reply + content).subrange(0, reply.len() as int) =~= reply);
            },
            LineEvent::Ignored => {
                lemma_reply_grows(rest, reply);
            },
            _ => {
                assert(reply.subrange(0, reply.len() as int) =~= reply);
            },
        }
    } else {
        assert(reply.subrange(0, reply.len() as int) =~= reply);
    }
}

/// How the text is cut into chunks does not matter: reading `pending` and
/// then, if the stream is still open, the leftover text followed by `more`,
/// is the same as reading `pending + more` at once.
pub proof fn lemma_drain_chunking(pending: Seq<char>, more: Seq<char>, reply: Seq<char>)
    requires
        drain_lines(pending, reply).end is Open,
    ensures
        drain_lines(pending + more, reply) == ({
            let first = drain_lines(pending, reply);
            drain_lines(first.rest + more, first.reply)
        }),
    decreases pending.len(),
{
    lemma_newline_from_bounds(pending, 0);
    lemma_newline_extend(pending, more);
    let k = newline_from(pending, 0);
    if k < pending.len() {
        let rest = pending.skip(k + 1int);
        assert((pending + more).take(k + 1int) =~= pending.take(k + 1int));
        assert((pending + more).skip(k + 1int) =~= rest + more);
        match line_event(trim(pending.take(k + 1int))) {
            LineEvent::Delta(content) => {
                lemma_drain_chunking(rest, more, reply + content);
            },
            LineEvent::Ignored => {
                lemma_drain_chunking(rest, more, reply);
            },
            _ => {},
        }
    }
}

/// Decoding two valid UTF-8 byte sequences one after the other is decoding
/// them put together.
pub proof fn lemma_decode_concat(b1: Seq<u8>, b2: Seq<u8>)
    requires
        valid_utf8(b1),
        valid_utf8(b2),
    ensures
        valid_utf8(b1 + b2),
        decode_utf8(b1 + b2) == decode_utf8(b1) + decode_utf8(b2),
    decreases b1.len(),
{
    valid_utf8_concat(b1, b2);
    if b1.len() == 0 {
        assert(b1 + b2 =~= b2);
        assert(decode_utf8(b1) =~= Seq::<char>::empty());
        assert(decode_utf8(b1) + decode_utf8(b2) =~= decode_utf8(b2));
    } else {
        let rest = pop_first_scalar(b1);
        assert(rest.len() < b1.len());
        lemma_decode_concat(rest, b2);
        assert(pop_first_scalar(b1 + b2) =~= rest + b2);
        assert(decode_utf8(b1 + b2) =~= decode_utf8(b1) + decode_utf8(b2));
    }
}

/// Where a valid UTF-8 body is cut into chunks does not matter, as long as
/// each chunk is valid UTF-8 on its own: reading `b1` and then, if the
/// stream is still open, `b2`, gives what reading `b1 + b2` at once gives.
pub proof fn lemma_byte_chunking(pending: Seq<char>, b1: Seq<u8>, b2: Seq<u8>, reply: Seq<char>)
    requires
        valid_utf8(b1),
        valid_utf8(b2),
        drain_lines(pending + chunk_text(b1), reply).end is Open,
    ensures
        drain_lines(pending + chunk_text(b1 + b2), reply) == ({
            let first = drain_lines(pending + chunk_text(b1), reply);
            drain_lines(first.rest + chunk_text(b2), first.reply)
        }),
{
    lemma_decode_concat(b1, b2);
    assert(pending + chunk_text(b1 + b2) =~= (pending + chunk_text(b1)) + chunk_text(b2));
    lemma_drain_chunking(pending + chunk_text(b1), chunk_text(b2), reply);
}

/// Once reading has stopped, more text changes neither the reply nor how
/// reading stopped.
proof fn lemma_drain_closed(pending: Seq<char>, more: Seq<char>, reply: Seq<char>)
    requires
        !(drain_lines(pending, reply).end is Open),
    ensures
        drain_lines(pending + more, reply).reply == drain_lines(pending, reply).reply,
        drain_lines(pending + more, reply).end == drain_lines(pending, reply).end,
    decreases pending.len(),
{
    lemma_newline_from_bounds(pending, 0);
    lemma_newline_extend(pending, more);
    let k = newline_from(pending, 0);
    if k < pending.len() {
        let rest = pending.skip(k + 1int);
        assert((pending + more).take(k + 1int) =~= pending.take(k + 1int));
        assert((pending + more).skip(k + 1int) =~= rest + more);
        match line_event(trim(pending.take(k + 1int))) {
            LineEvent::Delta(content) => {
                lemma_drain_closed(rest, more, reply + content);
            },
            LineEvent::Ignored => {
                lemma_drain_closed(rest, more, reply);
            },
            _ => {},
        }
    }
}

proof fn lemma_feed_chunks(x: Seq<char>, chunks: Seq<Seq<char>>, reply: Seq<char>)
    ensures
        same_outcome(
            feed_chunks(drain_lines(x, reply), chunks),
            drain_lines(x + concat_chunks(chunks), reply),
        ),
    decreases chunks.len(),
{
    let d = drain_lines(x, reply);
    if chunks.len() == 0 {
        assert(x + concat_chunks(chunks) =~= x);
    } else if d.end is Open {
        lemma_drain_chunking(x, chunks[0], reply);
        lemma_feed_chunks(x + chunks[0], chunks.drop_first(), reply);
        assert(x + chunks[0] + concat_chunks(chunks.drop_first()) =~= x + concat_chunks(chunks));
    } else {
        lemma_drain_closed(x, concat_chunks(chunks), reply);
    }
}

/// However the text of a stream is cut into chunks, even in the middle of a
/// line and even when the stream ends inside an early chunk, reading the
/// chunks one after the other and then the leftover text gives the reply
/// that reading the whole text at once gives.
pub proof fn lemma_text_chunking(chunks: Seq<Seq<char>>, reply: Seq<char>)
    ensures
        stream_reply(feed_chunks(fresh(reply), chunks)) == stream_reply(
            drain_lines(concat_chunks(chunks), reply),
        ),
{
    assert(drain_lines(Seq::empty(), reply) == fresh(reply));
    lemma_feed_chunks(Seq::empty(), chunks, reply);
    assert(Seq::<char>::empty() + concat_chunks(chunks) =~= concat_chunks(chunks));
}

proof fn lemma_concat_chunk_texts(chunks: Seq<Seq<u8>>)
    requires
        forall|i: int| 0 <= i < chunks.len() ==> valid_utf8(#[trigger] chunks[i]),
    ensures
        valid_utf8(concat_chunks(chunks)),
        concat_chunks(chunks.map_values(|b: Seq<u8>| chunk_text(b))) == decode_utf8(
            concat_chunks(chunks),
        ),
    decreases chunks.len(),
{
    let texts = chunks.map_values(|b: Seq<u8>| chunk_text(b));
    if chunks.len() == 0 {
        assert(valid_utf8(Seq::<u8>::empty()));
        assert(decode_utf8(Seq::<u8>::empty()) =~= Seq::<char>::empty());
    } else {
        let rest = chunks.drop_first();
        assert forall|i: int| 0 <= i < rest.len() implies valid_utf8(#[trigger] rest[i]) by {
            assert(rest[i] == chunks[i + 1]);
        }
        lemma_concat_chunk_texts(rest);
        assert(valid_utf8(chunks[0]));
        lemma_decode_concat(chunks[0], concat_chunks(rest));
        assert(texts.drop_first() =~= rest.map_values(|b: Seq<u8>| chunk_text(b)));
        assert(texts[0] == decode_utf8(chunks[0]));
    }
}

/// However a body is cut into chunks that are each valid UTF-8, even in the
/// middle of a line and even when the stream ends inside an early chunk,
/// reading the chunks one after the other and then the leftover text gives
/// the reply that reading the whole body at once gives.
pub proof fn lemma_stream_chunking(chunks: Seq<Seq<u8>>, reply: Seq<char>)
    requires
        forall|i: int| 0 <= i < chunks.len() ==> valid_utf8(#[trigger] chunks[i]),
    ensures
        stream_reply(feed_chunks(fresh(reply), chunks.map_values(|b: Seq<u8>| chunk_text(b))))
            == stream_reply(drain_lines(chunk_text(concat_chunks(chunks)), reply)),
{
    lemma_concat_chunk_texts(chunks);
    lemma_text_chunking(chunks.map_values(|b: Seq<u8>| chunk_text(b)), reply);
}

/// What a line means, in terms of the JSON it carries: a line that does not
/// start with `data: ` is ignored; `data: [DONE]` ends the stream; any other
/// `data: ` line adds exactly the string at `choices[0].delta.content`, is
/// ignored when there is no string there, and fails when it is not JSON.
pub proof fn lemma_data_line_meaning(data: Seq<char>, line: Seq<char>)
    ensures
        !"data: "@.is_prefix_of(line) ==> line_event(line) is Ignored,
        line_event("data: "@ + "[DONE]"@) is Done,
        data != "[DONE]"@ ==> match spec_string_at(data, "choices"@, 0, "delta"@, "content"@) {
            None => line_event("data: "@ + data) is Invalid,
            Some(None) => line_event("data: "@ + data) is Ignored,
            Some(Some(c)) => line_event("data: "@ + data) == LineEvent::Delta(c),
        },
{
    reveal_strlit("data: ");
    let prefixed = "data: "@ + data;
    assert(prefixed.subrange(0, 6) =~= "data: "@);
    assert(prefixed.skip(6) =~= data);
    let done = "data: "@ + "[DONE]"@;
    assert(done.subrange(0, 6) =~= "data: "@);
    assert(done.skip(6) =~= "[DONE]"@);
}

// ---------------------------------------------------------------------------
// Executable functions
// ---------------------------------------------------------------------------

/// Whether `prefix` begins `cs[from..to]`.
fn starts_with_at(cs: &Vec<char>, from: usize, to: usize, prefix: &Vec<char>) -> (r: bool)
    requires
        from <= to <= cs.len(),
    ensures
        r == prefix@.is_prefix_of(cs@.subrange(from as int, to as int)),
{
    if prefix.len() > to - from {
        return false;
    }
    let mut i: usize = 0;
    while i < prefix.len()
        invariant
            i <= prefix.len() <= to - from,
            from <= to <= cs.len(),
            forall|k: int| 0 <= k < i ==> prefix@[k] == cs@[from + k],
        decreases prefix.len() - i,
    {
        if cs[from + i] != prefix[i] {
            assert(cs@.subrange(from as int, to as int)[i as int] == cs@[from + i]);
            return false;
        }
        i = i + 1;
    }
    assert(cs@.subrange(from as int, to as int).subrange(0, prefix@.len() as int) =~= prefix@);
    true
}

/// Whether `cs[from..to]` is `target`.
fn equals_at(cs: &Vec<char>, from: usize, to: usize, target: &Vec<char>) -> (r: bool)
    requires
        from <= to <= cs.len(),
    ensures
        r == (cs@.subrange(from as int, to as int) == target@),
{
    if target.len() != to - from {
        return false;
    }
    let mut i: usize = 0;
    while i < target.len()
        invariant
            i <= target.len() == to - from,
            from <= to <= cs.len(),
            forall|k: int| 0 <= k < i ==> target@[k] == cs@[from + k],
        decreases target.len() - i,
    {
        if cs[from + i] != target[i] {
            assert(cs@.subrange(from as int, to as int)[i as int] == cs@[from + i]);
            return false;
        }
        i = i + 1;
    }
    assert(cs@.subrange(from as int, to as int) =~= target@);
    true
}

/// Reads one trimmed line of the stream.  A data line with a piece of the
/// reply adds it to `assistant_reply`.  Returns whether the line ends the
/// stream, or an error when its data is not JSON.
pub fn handle_stream_line(line: &str, assistant_reply: &mut String) -> (r: Result<bool, StreamError>)
    ensures
        match line_event(line@) {
            LineEvent::Ignored => r matches Ok(false) && final(assistant_reply)@ == old(
                assistant_reply,
            )@,
            LineEvent::Done => r matches Ok(true) && final(assistant_reply)@ == old(
                assistant_reply,
            )@,
            LineEvent::Delta(content) => r matches Ok(false) && final(assistant_reply)@ == old(
                assistant_reply,
            )@ + content,
            LineEvent::Invalid => r is Err && final(assistant_reply)@ == old(assistant_reply)@,
        },
{
    let cs = chars_of(line);
    let prefix = chars_of(DATA_PREFIX);
    if cs.len() == 0 || !starts_with_at(&cs, 0, cs.len(), &prefix) {
        assert(cs@.subrange(0, cs@.len() as int) =~= cs@);
        return Ok(false);
    }
    assert(cs@.subrange(0, cs@.len() as int) =~= cs@);
    let done = chars_of(DONE_MARKER);
    let start = prefix.len();
    assert(cs@.subrange(start as int, cs@.len() as int) =~= cs@.skip(start as int));
    if equals_at(&cs, start, cs.len(), &done) {
        return Ok(true);
    }
    let data = string_from_range(&cs, start, cs.len());
    let content = string_at(data.as_str(), CHOICES_KEY, FIRST_CHOICE, DELTA_KEY, CONTENT_KEY);
    apply_delta(content, assistant_reply)
}

/// Applies what was read out of a data line's JSON: a piece of the reply is
/// added to `assistant_reply`; a parse error becomes a [`StreamError`].
/// Returns that the line does not end the stream.
pub fn apply_delta(
    content: Result<Option<String>, serde_json::Error>,
    assistant_reply: &mut String,
) -> (r: Result<bool, StreamError>)
    ensures
        match content {
            Ok(Some(c)) => r matches Ok(false) && final(assistant_reply)@ == old(assistant_reply)@ + c@,
            Ok(None) => r matches Ok(false) && final(assistant_reply)@ == old(assistant_reply)@,
            Err(_) => r is Err && final(assistant_reply)@ == old(assistant_reply)@,
        },
{
    match content {
        Ok(Some(c)) => {
            assistant_reply.append(c.as_str());
            Ok(false)
        },
        Ok(None) => Ok(false),
        Err(e) => Err(StreamError::Json(e)),
    }
}

/// The decoder of a streamed reply: the text not yet ended by a line feed,
/// and the reply so far.
pub struct StreamDecoder {
    /// The text after the last complete line.
    pub pending: Vec<char>,
    /// The reply read so far.
    pub reply: String,
}

impl StreamDecoder {
    /// A decoder that has read nothing.
    pub fn new() -> (r: StreamDecoder)
        ensures
            r.pending@.len() == 0,
            r.reply@.len() == 0,
    {
        StreamDecoder { pending: Vec::new(), reply: String::new() }
    }

    /// Reads a chunk of the response body: its bytes are decoded (invalid
    /// UTF-8 becomes replacement characters) and added to the pending text,
    /// whose complete lines are then read.  Returns whether a line ended the
    /// stream, or an error when a line's data is not JSON.
    pub fn push_chunk(&mut self, chunk: &[u8]) -> (r: Result<bool, StreamError>)
        ensures
            ({
                let d = drain_lines(old(self).pending@ + chunk_text(chunk@), old(self).reply@);
                &&& final(self).pending@ == d.rest
                &&& final(self).reply@ == d.reply
                &&& match d.end {
                    StreamEnd::Open => r matches Ok(false),
                    StreamEnd::Done => r matches Ok(true),
                    StreamEnd::Failed => r is Err,
                }
            }),
    {
        let text = utf8_lossy(chunk);
        let mut added = chars_of(text.as_str());
        self.pending.append(&mut added);
        let ghost whole = self.pending@;
        let ghost reply0 = self.reply@;
        assert(whole =~= old(self).pending@ + chunk_text(chunk@));
        assert(whole.skip(0) =~= whole);
        let mut start: usize = 0;
        let mut j: usize = 0;
        while j < self.pending.len()
            invariant
                start <= j <= self.pending.len(),
                self.pending@ == whole,
                whole == old(self).pending@ + chunk_text(chunk@),
                reply0 == old(self).reply@,
                forall|x: int| start <= x < j ==> #[trigger] whole[x] != '\n',
                drain_lines(whole, reply0) == drain_lines(whole.skip(start as int), self.reply@),
            decreases self.pending.len() - j,
        {
            if self.pending[j] == '\n' {
                let ghost s = whole.skip(start as int);
                proof {
                    assert forall|x: int| 0 <= x < j - start implies s[x] != '\n' by {
                        assert(s[x] == whole[start + x]);
                    }
                    lemma_newline_from_found(s, 0, (j - start) as nat);
                    assert(s.take(j - start + 1) =~= whole.subrange(start as int, j + 1));
                    assert(s.skip(j - start + 1) =~= whole.skip(j + 1));
                }
                let ghost reply_before = self.reply@;
                let (a, b) = trim_range(&self.pending, start, j + 1);
                let line = string_from_range(&self.pending, a, b);
                assert(line@ == trim(s.take(j - start + 1)));
                let outcome = handle_stream_line(line.as_str(), &mut self.reply);
                match outcome {
                    Ok(false) => {
                        start = j + 1;
                    },
                    Ok(true) => {
                        let rest = self.pending.split_off(j + 1);
                        self.pending = rest;
                        proof {
                            assert(line_event(line@) is Done);
                            assert(self.pending@ =~= s.skip(j - start + 1));
                            assert(self.reply@ == reply_before);
                            assert(drain_lines(s, reply_before) == Drained {
                                rest: s.skip(j - start + 1),
                                reply: reply_before,
                                end: StreamEnd::Done,
                            });
                            assert(drain_lines(whole, reply0) == drain_lines(s, reply_before));
                        }
                        return Ok(true);
                    },
                    Err(e) => {
                        let rest = self.pending.split_off(j + 1);
                        self.pending = rest;
                        proof {
                            assert(line_event(line@) is Invalid);
                            assert(self.pending@ =~= s.skip(j - start + 1));
                            assert(drain_lines(s, reply_before) == Drained {
                                rest: s.skip(j - start + 1),
                                reply: reply_before,
                                end: StreamEnd::Failed,
                            });
                            assert(drain_lines(whole, reply0) == drain_lines(s, reply_before));
                        }
                        return Err(e);
                    },
                }
            }
            j = j + 1;
        }
        let ghost s = whole.skip(start as int);
        proof {
            assert forall|x: int| 0 <= x < s.len() implies s[x] != '\n' by {
                assert(s[x] == whole[start + x]);
            }
            lemma_newline_from_found(s, 0, s.len());
        }
        let rest = self.pending.split_off(start);
        self.pending = rest;
        Ok(false)
    }

    /// Reads what is left after the last line feed once the body has ended:
    /// if anything but whitespace is left, it is read as one last line.
    pub fn finish(&mut self) -> (r: Result<(), StreamError>)
        ensures
            final(self).pending@.len() == 0,
            match stream_reply(Drained { rest: old(self).pending@, reply: old(self).reply@, end: StreamEnd::Open }) {
                Some(t) => r is Ok && final(self).reply@ == t,
                None => r is Err,
            },
            ({
                let t = trim(old(self).pending@);
                if t.len() == 0 {
                    r is Ok && final(self).reply@ == old(self).reply@
                } else {
                    match line_event(t) {
                        LineEvent::Invalid => r is Err && final(self).reply@ == old(self).reply@,
                        LineEvent::Delta(content) => r is Ok && final(self).reply@ == old(
                            self,
                        ).reply@ + content,
                        _ => r is Ok && final(self).reply@ == old(self).reply@,
                    }
                }
            }),
    {
        let (a, b) = trim_range(&self.pending, 0, self.pending.len());
        assert(self.pending@.subrange(0, self.pending@.len() as int) =~= self.pending@);
        let line = string_from_range(&self.pending, a, b);
        self.pending.clear();
        if a == b {
            return Ok(());
        }
        match handle_stream_line(line.as_str(), &mut self.reply) {
            Ok(_) => Ok(()),
            Err(e) => Err(e),
        }
    }
}

} // verus!
