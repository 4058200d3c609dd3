//! Server-sent events: an incremental decoder from bytes to events.
//!
//! Accepted shapes: `data: x` and `data:x`; `\n`, `\r\n` and a lone `\r`
//! as line ends; a blank line ends an event; comment lines (`:`) and other
//! fields (`event:`, `id:`, `retry:`) are ignored; several `data:` lines are
//! joined with `\n`; a lone `[DONE]` payload is the end marker.
//!
//! A data payload is then read as a chat-completion chunk: first as the
//! protocol's structure (async-openai's types); gateways that send fewer
//! fields are read leniently around this module.

use async_openai::types::chat::{CreateChatCompletionStreamResponse, FinishReason};
use vstd::prelude::*;
use crate::error::AppError;
use crate::text::{
    chars_of, join_with, starts_with, string_of, trim, trim_chars,
};

verus! {

/// Bytes a line may reach without a line end before a checked push fails.
pub const MAX_LINE_BYTES: usize = 1048576;

/// Bytes the data lines of one event may reach before a checked push fails.
pub const MAX_EVENT_BYTES: usize = 4194304;

/// What `String::from_utf8_lossy` makes of some bytes.
pub uninterp spec fn utf8_lossy(b: Seq<u8>) -> Seq<char>;

/// The text of a line's bytes: their characters when they are valid UTF-8,
/// else what lossy decoding makes of them (invalid sequences become
/// U+FFFD).
pub open spec fn line_text(b: Seq<u8>) -> Seq<char> {
    if vstd::utf8::valid_utf8(b) {
        vstd::utf8::decode_utf8(b)
    } else {
        utf8_lossy(b)
    }
}

/// `String::from_utf8_lossy(..).into_owned()`: valid UTF-8 decodes to its
/// characters; other bytes give the named lossy result (invalid sequences
/// become U+FFFD).
#[verifier::external_body]
fn decode_lossy(b: &[u8]) -> (r: String)
    ensures
        r@ == utf8_lossy(b@),
        vstd::utf8::valid_utf8(b@) ==> r@ == vstd::utf8::decode_utf8(b@),
{
    String::from_utf8_lossy(b).into_owned()
}

/// One decoded event.
#[derive(Debug, Clone, PartialEq, Eq)]
pub enum SseEvent {
    /// The payload of an event (several data lines joined by `\n`).
    Data(String),
    /// The server's `[DONE]` marker.
    Done,
}

pub enum SseModel {
    Data(Seq<char>),
    Done,
}

impl View for SseEvent {
    type V = SseModel;

    open spec fn view(&self) -> SseModel {
        match self {
            SseEvent::Data(s) => SseModel::Data(s@),
            SseEvent::Done => SseModel::Done,
        }
    }
}

pub open spec fn events_view(v: Seq<SseEvent>) -> Seq<SseModel> {
    v.map_values(|e: SseEvent| e@)
}

pub open spec fn opt_seq(e: Option<SseModel>) -> Seq<SseModel> {
    match e {
        Some(x) => seq![x],
        None => Seq::empty(),
    }
}

/// First index `>= k` holding `\n` or `\r`.
pub open spec fn eol_index(b: Seq<u8>, k: int) -> Option<int>
    decreases b.len() - k,
{
    if k < 0 || k >= b.len() {
        None
    } else if b[k] == 0x0a || b[k] == 0x0d {
        Some(k)
    } else {
        eol_index(b, k + 1)
    }
}

pub proof fn lemma_eol_index(b: Seq<u8>, k: int)
    ensures
        eol_index(b, k) matches Some(i) ==> k <= i < b.len() && (b[i] == 0x0a || b[i] == 0x0d),
    decreases b.len() - k,
{
    if 0 <= k < b.len() && !(b[k] == 0x0a || b[k] == 0x0d) {
        lemma_eol_index(b, k + 1);
    }
}

/// The first complete line of the buffer and how many bytes it takes with
/// its line end (`\n`, `\r\n` or `\r`). A final lone `\r` may be half of a
/// `\r\n`, so it does not end a line yet.
pub open spec fn take_line(b: Seq<u8>) -> Option<(Seq<u8>, int)> {
    match eol_index(b, 0) {
        None => None,
        Some(i) => if b[i] == 0x0a {
            Some((b.take(i), i + 1))
        } else if i + 1 < b.len() {
            if b[i + 1] == 0x0a {
                Some((b.take(i), i + 2))
            } else {
                Some((b.take(i), i + 1))
            }
        } else {
            None
        },
    }
}

/// Closing the pending event: nothing without data lines; `Done` for a lone
/// `[DONE]` line (surrounding whitespace allowed); else the joined payload.
pub open spec fn dispatch(lines: Seq<Seq<char>>) -> (Seq<Seq<char>>, Option<SseModel>) {
    if lines.len() == 0 {
        (lines, None)
    } else if lines.len() == 1 && trim(lines[0]) == "[DONE]"@ {
        (Seq::empty(), Some(SseModel::Done))
    } else {
        (Seq::empty(), Some(SseModel::Data(join_with(lines, seq!['\n']))))
    }
}

/// One line (without its line end): blank dispatches, `:` is a comment,
/// `data:` adds its value (one leading space dropped), a bare `data` adds an
/// empty value, anything else is ignored.
pub open spec fn handle_line(lines: Seq<Seq<char>>, line: Seq<char>) -> (Seq<Seq<char>>, Option<SseModel>) {
    if line.len() == 0 {
        dispatch(lines)
    } else if line[0] == ':' {
        (lines, None)
    } else if starts_with(line, "data:"@) {
        let v = line.skip(5);
        let v2 = if v.len() > 0 && v[0] == ' ' {
            v.skip(1)
        } else {
            v
        };
        (lines.push(v2), None)
    } else if line == "data"@ {
        (lines.push(Seq::empty()), None)
    } else {
        (lines, None)
    }
}

/// Decoding every complete line of the buffer: the remaining buffer, the
/// pending data lines and the events, in order.
pub open spec fn drain(b: Seq<u8>, lines: Seq<Seq<char>>) -> (Seq<u8>, Seq<Seq<char>>, Seq<SseModel>)
    decreases b.len(),
{
    match take_line(b) {
        None => (b, lines, Seq::empty()),
        Some((lb, consumed)) => if 0 < consumed <= b.len() {
            let h = handle_line(lines, line_text(lb));
            let d = drain(b.skip(consumed), h.0);
            (d.0, d.1, opt_seq(h.1) + d.2)
        } else {
            (b, lines, Seq::empty())
        },
    }
}

/// A character that `trim_end_matches(['\r', '\n'])` removes.
pub open spec fn is_eol_char(c: char) -> bool {
    c == '\r' || c == '\n'
}

pub open spec fn trim_eol_end(s: Seq<char>) -> Seq<char>
    decreases s.len(),
{
    if s.len() > 0 && is_eol_char(s.last()) {
        trim_eol_end(s.drop_last())
    } else {
        s
    }
}

/// Ending the stream: a non-empty remainder is handled as a last line
/// (trailing line-end characters removed), then the pending event closes.
pub open spec fn finish_stream(b: Seq<u8>, lines: Seq<Seq<char>>) -> (Seq<Seq<char>>, Seq<SseModel>) {
    let h = if b.len() > 0 {
        handle_line(lines, trim_eol_end(line_text(b)))
    } else {
        (lines, None)
    };
    let d = dispatch(h.0);
    (d.0, opt_seq(h.1) + opt_seq(d.1))
}

/// Total UTF-8 bytes of the pending data lines.
pub open spec fn pending_bytes(lines: Seq<Seq<char>>) -> nat
    decreases lines.len(),
{
    if lines.len() == 0 {
        0
    } else {
        pending_bytes(lines.drop_last()) + crate::text::utf8_len(lines.last())
    }
}

/// Incremental decoder: bytes in, events out.
pub struct SseDecoder {
    /// Bytes not yet forming a complete line (kept as bytes so that a
    /// character split across chunks is reassembled).
    buffer: Vec<u8>,
    /// Data lines of the event being read.
    data_lines: Vec<String>,
}

pub open spec fn strings_view(v: Seq<String>) -> Seq<Seq<char>> {
    v.map_values(|s: String| s@)
}

fn take_line_exec(b: &Vec<u8>) -> (r: Option<(Vec<u8>, usize)>)
    ensures
        match take_line(b@) {
            Some((lb, c)) => r matches Some((x, n)) && x@ == lb && n == c && 0 < c <= b@.len(),
            None => r is None,
        },
{
    proof {
        lemma_eol_index(b@, 0);
    }
    let mut i: usize = 0;
    while i < b.len() && b[i] != 0x0a && b[i] != 0x0d
        invariant
            i <= b@.len(),
            eol_index(b@, 0) == eol_index(b@, i as int),
        decreases b@.len() - i,
    {
        i = i + 1;
    }
    if i == b.len() {
        return None;
    }
    let line = slice_bytes(b, i);
    if b[i] == 0x0a {
        Some((line, i + 1))
    } else if i + 1 < b.len() {
        if b[i + 1] == 0x0a {
            Some((line, i + 2))
        } else {
            Some((line, i + 1))
        }
    } else {
        None
    }
}

fn slice_bytes(b: &Vec<u8>, n: usize) -> (r: Vec<u8>)
    requires
        n <= b@.len(),
    ensures
        r@ == b@.take(n as int),
{
    let mut r: Vec<u8> = Vec::new();
    let mut i: usize = 0;
    while i < n
        invariant
            i <= n <= b@.len(),
            r@ == b@.take(i as int),
        decreases n - i,
    {
        r.push(b[i]);
        assert(b@.take(i + 1) =~= b@.take(i as int).push(b@[i as int]));
        i = i + 1;
    }
    r
}

fn skip_bytes(b: &Vec<u8>, n: usize) -> (r: Vec<u8>)
    requires
        n <= b@.len(),
    ensures
        r@ == b@.skip(n as int),
{
    let mut r: Vec<u8> = Vec::new();
    let mut i: usize = n;
    while i < b.len()
        invariant
            n <= i <= b@.len(),
            r@ == b@.subrange(n as int, i as int),
        decreases b@.len() - i,
    {
        r.push(b[i]);
        assert(b@.subrange(n as int, i + 1) =~= b@.subrange(n as int, i as int).push(b@[i as int]));
        i = i + 1;
    }
    assert(b@.subrange(n as int, b@.len() as int) =~= b@.skip(n as int));
    r
}

fn done_marker(v: &[char]) -> (r: bool)
    ensures
        r == (trim(v@) == "[DONE]"@),
{
    let t = trim_chars(v);
    crate::text::chars_eq_str(t.as_slice(), "[DONE]")
}

fn join_lines(lines: &Vec<String>) -> (r: String)
    ensures
        r@ == join_with(strings_view(lines@), seq!['\n']),
{
    let ghost ps = strings_view(lines@);
    let mut out = String::new();
    let mut i: usize = 0;
    assert(ps.take(0) =~= Seq::<Seq<char>>::empty());
    while i < lines.len()
        invariant
            i <= lines@.len(),
            ps == strings_view(lines@),
            out@ == join_with(ps.take(i as int), seq!['\n']),
        decreases lines@.len() - i,
    {
        if i > 0 {
            crate::text::string_push(&mut out, '\n');
        }
        out.append(lines[i].as_str());
        proof {
            let t = ps.take(i + 1);
            assert(t.drop_last() =~= ps.take(i as int));
            assert(t.last() == lines@[i as int]@);
            if i == 0 {
                assert(out@ =~= t[0]);
            } else {
                assert(out@ =~= join_with(ps.take(i as int), seq!['\n']) + seq!['\n'] + t.last());
            }
        }
        i = i + 1;
    }
    assert(ps.take(lines@.len() as int) =~= ps);
    out
}

fn trim_eol_end_exec(v: &[char]) -> (r: Vec<char>)
    ensures
        r@ == trim_eol_end(v@),
{
    let mut b: usize = v.len();
    assert(v@.subrange(0, v@.len() as int) =~= v@);
    while b > 0 && (v[b - 1] == '\r' || v[b - 1] == '\n')
        invariant
            b <= v@.len(),
            trim_eol_end(v@) == trim_eol_end(v@.subrange(0, b as int)),
        decreases b,
    {
        assert(v@.subrange(0, b as int).drop_last() =~= v@.subrange(0, b - 1));
        b = b - 1;
    }
    proof {
        let u = v@.subrange(0, b as int);
        if u.len() > 0 {
            assert(u.last() == v@[b - 1]);
        }
    }
    crate::text::copy_range(v, 0, b)
}

impl SseDecoder {
    pub closed spec fn pending_buffer(&self) -> Seq<u8> {
        self.buffer@
    }

    pub closed spec fn pending_lines(&self) -> Seq<Seq<char>> {
        strings_view(self.data_lines@)
    }

    /// A decoder with nothing buffered.
    pub fn new() -> (r: Self)
        ensures
            r.pending_buffer().len() == 0,
            r.pending_lines().len() == 0,
    {
        let r = SseDecoder { buffer: Vec::new(), data_lines: Vec::new() };
        assert(strings_view(r.data_lines@) =~= Seq::<Seq<char>>::empty());
        r
    }

    fn dispatch_exec(&mut self) -> (r: Option<SseEvent>)
        ensures
            final(self).buffer@ == old(self).buffer@,
            strings_view(final(self).data_lines@) == dispatch(strings_view(old(self).data_lines@)).0,
            match dispatch(strings_view(old(self).data_lines@)).1 {
                Some(e) => r matches Some(x) && x@ == e,
                None => r is None,
            },
    {
        if self.data_lines.len() == 0 {
            return None;
        }
        let mut lines: Vec<String> = Vec::new();
        std::mem::swap(&mut lines, &mut self.data_lines);
        assert(strings_view(self.data_lines@) =~= Seq::<Seq<char>>::empty());
        if lines.len() == 1 {
            let v = chars_of(lines[0].as_str());
            if done_marker(v.as_slice()) {
                return Some(SseEvent::Done);
            }
        }
        Some(SseEvent::Data(join_lines(&lines)))
    }

    fn handle_line_exec(&mut self, line: &[char]) -> (r: Option<SseEvent>)
        ensures
            final(self).buffer@ == old(self).buffer@,
            strings_view(final(self).data_lines@) == handle_line(strings_view(old(self).data_lines@), line@).0,
            match handle_line(strings_view(old(self).data_lines@), line@).1 {
                Some(e) => r matches Some(x) && x@ == e,
                None => r is None,
            },
    {
        if line.len() == 0 {
            return self.dispatch_exec();
        }
        if line[0] == ':' {
            return None;
        }
        let prefix = chars_of("data:");
        if crate::text::starts_with_chars(line, prefix.as_slice()) {
            let ghost p = prefix@;
            proof {
                reveal_strlit("data:");
            }
            let start: usize = if line.len() > 5 && line[5] == ' ' {
                6
            } else {
                5
            };
            let value = crate::text::copy_range(line, start, line.len());
            proof {
                let v = line@.skip(5);
                if v.len() > 0 && v[0] == ' ' {
                    assert(value@ =~= v.skip(1));
                } else {
                    assert(value@ =~= v);
                }
            }
            let ghost before = strings_view(self.data_lines@);
            let s = string_of(value.as_slice());
            let ghost sv = s@;
            self.data_lines.push(s);
            assert(strings_view(self.data_lines@) =~= before.push(sv));
            return None;
        }
        if crate::text::chars_eq_str(line, "data") {
            let ghost before = strings_view(self.data_lines@);
            self.data_lines.push(String::new());
            assert(strings_view(self.data_lines@) =~= before.push(Seq::<char>::empty()));
            return None;
        }
        None
    }

    fn drain_lines(&mut self) -> (r: Vec<SseEvent>)
        ensures
            final(self).buffer@ == drain(old(self).buffer@, strings_view(old(self).data_lines@)).0,
            strings_view(final(self).data_lines@) == drain(old(self).buffer@, strings_view(old(self).data_lines@)).1,
            events_view(r@) == drain(old(self).buffer@, strings_view(old(self).data_lines@)).2,
    {
        let ghost d0 = drain(self.buffer@, strings_view(self.data_lines@));
        let mut events: Vec<SseEvent> = Vec::new();
        assert(events_view(events@) =~= Seq::<SseModel>::empty());
        loop
            invariant
                d0 == drain(old(self).buffer@, strings_view(old(self).data_lines@)),
                drain(self.buffer@, strings_view(self.data_lines@)).0 == d0.0,
                drain(self.buffer@, strings_view(self.data_lines@)).1 == d0.1,
                events_view(events@) + drain(self.buffer@, strings_view(self.data_lines@)).2 == d0.2,
            decreases self.buffer@.len(),
        {
            match take_line_exec(&self.buffer) {
                None => {
                    assert(events_view(events@) + Seq::<SseModel>::empty() =~= events_view(events@));
                    return events;
                },
                Some((line_bytes, consumed)) => {
                    let ghost b = self.buffer@;
                    let ghost ls = strings_view(self.data_lines@);
                    let line = decode_lossy(line_bytes.as_slice());
                    let lv = chars_of(line.as_str());
                    let rest = skip_bytes(&self.buffer, consumed);
                    self.buffer = rest;
                    let ev = self.handle_line_exec(lv.as_slice());
                    let ghost before = events_view(events@);
                    match ev {
                        Some(e) => {
                            let ghost ev_view = e@;
                            events.push(e);
                            assert(events_view(events@) =~= before.push(ev_view));
                            assert(before.push(ev_view) + drain(self.buffer@, strings_view(self.data_lines@)).2 =~= before + (seq![ev_view] + drain(self.buffer@, strings_view(self.data_lines@)).2));
                        },
                        None => {
                            assert(before + (Seq::<SseModel>::empty() + drain(self.buffer@, strings_view(self.data_lines@)).2) =~= before + drain(self.buffer@, strings_view(self.data_lines@)).2);
                        },
                    }
                },
            }
        }
    }

    /// Feeds bytes and returns every event they complete.
    pub fn push(&mut self, chunk: &[u8]) -> (r: Vec<SseEvent>)
        ensures
            final(self).pending_buffer() == drain(old(self).pending_buffer() + chunk@, old(self).pending_lines()).0,
            final(self).pending_lines() == drain(old(self).pending_buffer() + chunk@, old(self).pending_lines()).1,
            events_view(r@) == drain(old(self).pending_buffer() + chunk@, old(self).pending_lines()).2,
    {
        let mut i: usize = 0;
        let ghost b0 = self.buffer@;
        while i < chunk.len()
            invariant
                i <= chunk@.len(),
                self.buffer@ == b0 + chunk@.take(i as int),
                strings_view(self.data_lines@) == strings_view(old(self).data_lines@),
                b0 == old(self).buffer@,
            decreases chunk@.len() - i,
        {
            self.buffer.push(chunk[i]);
            assert(b0 + chunk@.take(i + 1) =~= (b0 + chunk@.take(i as int)).push(chunk@[i as int]));
            i = i + 1;
        }
        assert(chunk@.take(chunk@.len() as int) =~= chunk@);
        self.drain_lines()
    }

    /// Ends the stream: the remaining bytes form a last line and the pending
    /// event is closed. The decoder is left empty.
    pub fn finish(&mut self) -> (r: Vec<SseEvent>)
        ensures
            final(self).pending_buffer().len() == 0,
            final(self).pending_lines() == finish_stream(old(self).pending_buffer(), old(self).pending_lines()).0,
            events_view(r@) == finish_stream(old(self).pending_buffer(), old(self).pending_lines()).1,
    {
        let mut events: Vec<SseEvent> = Vec::new();
        let mut rest: Vec<u8> = Vec::new();
        std::mem::swap(&mut rest, &mut self.buffer);
        let ghost ls = strings_view(self.data_lines@);
        if rest.len() > 0 {
            let line = decode_lossy(rest.as_slice());
            let lv = chars_of(line.as_str());
            let t = trim_eol_end_exec(lv.as_slice());
            match self.handle_line_exec(t.as_slice()) {
                Some(e) => events.push(e),
                None => {},
            }
        }
        let ghost mid = events_view(events@);
        match self.dispatch_exec() {
            Some(e) => {
                let ghost ev = e@;
                events.push(e);
                assert(events_view(events@) =~= mid.push(ev));
            },
            None => {},
        }
        proof {
            let h = if rest@.len() > 0 {
                handle_line(ls, trim_eol_end(line_text(rest@)))
            } else {
                (ls, None)
            };
            assert(mid =~= opt_seq(h.1));
            let d = dispatch(h.0);
            assert(events_view(events@) =~= opt_seq(h.1) + opt_seq(d.1));
        }
        events
    }

    fn pending_too_large(&self) -> (r: bool)
        ensures
            r == (pending_bytes(strings_view(self.data_lines@)) > MAX_EVENT_BYTES),
    {
        let ghost ls = strings_view(self.data_lines@);
        let mut total: u128 = 0;
        let mut i: usize = 0;
        assert(ls.take(0) =~= Seq::<Seq<char>>::empty());
        while i < self.data_lines.len()
            invariant
                i <= self.data_lines@.len(),
                ls == strings_view(self.data_lines@),
                total == pending_bytes(ls.take(i as int)),
                total <= MAX_EVENT_BYTES,
            decreases self.data_lines@.len() - i,
        {
            let v = chars_of(self.data_lines[i].as_str());
            let n = utf8_len_wide(v.as_slice());
            assert(ls.take(i + 1).drop_last() =~= ls.take(i as int));
            assert(ls.take(i + 1).last() == self.data_lines@[i as int]@);
            total = total + n;
            if total > MAX_EVENT_BYTES as u128 {
                proof {
                    lemma_pending_prefix(ls, i + 1);
                }
                return true;
            }
            i = i + 1;
        }
        assert(ls.take(self.data_lines@.len() as int) =~= ls);
        false
    }

    /// [`Self::push`] with memory limits: a line that passes the line limit
    /// without a line end, or pending data lines that pass the event limit,
    /// give an error instead.
    pub fn push_checked(&mut self, chunk: &[u8]) -> (r: Result<Vec<SseEvent>, AppError>)
        ensures
            ({
                let b = old(self).pending_buffer() + chunk@;
                let d = drain(b, old(self).pending_lines());
                if take_line(b) is None && b.len() > MAX_LINE_BYTES {
                    r matches Err(AppError::Llm(m)) && m@ == "SSE 数据行已超过 1048576 字节仍没有换行（服务端可能没有按 SSE 返回），已中止本次请求"@
                } else if pending_bytes(d.1) > MAX_EVENT_BYTES {
                    r matches Err(AppError::Llm(m)) && m@ == "SSE 单个事件已超过 4194304 字节，已中止本次请求"@
                } else {
                    r matches Ok(v) && events_view(v@) == d.2 && final(self).pending_buffer() == d.0 && final(self).pending_lines() == d.1
                }
            }),
    {
        let mut i: usize = 0;
        let ghost b0 = self.buffer@;
        while i < chunk.len()
            invariant
                i <= chunk@.len(),
                self.buffer@ == b0 + chunk@.take(i as int),
                strings_view(self.data_lines@) == strings_view(old(self).data_lines@),
                b0 == old(self).buffer@,
            decreases chunk@.len() - i,
        {
            self.buffer.push(chunk[i]);
            assert(b0 + chunk@.take(i + 1) =~= (b0 + chunk@.take(i as int)).push(chunk@[i as int]));
            i = i + 1;
        }
        assert(chunk@.take(chunk@.len() as int) =~= chunk@);
        if take_line_exec(&self.buffer).is_none() && self.buffer.len() > MAX_LINE_BYTES {
            return Err(AppError::Llm(String::from_str("SSE 数据行已超过 1048576 字节仍没有换行（服务端可能没有按 SSE 返回），已中止本次请求")));
        }
        let events = self.drain_lines();
        if self.pending_too_large() {
            return Err(AppError::Llm(String::from_str("SSE 单个事件已超过 4194304 字节，已中止本次请求")));
        }
        Ok(events)
    }

    /// [`Self::finish`] that first fails when the remaining bytes pass the
    /// line limit.
    pub fn finish_checked(&mut self) -> (r: Result<Vec<SseEvent>, AppError>)
        ensures
            if old(self).pending_buffer().len() > MAX_LINE_BYTES {
                r matches Err(AppError::Llm(m)) && m@ == "SSE 数据行已超过 1048576 字节仍没有换行，已中止本次请求"@
            } else {
                r matches Ok(v) && events_view(v@) == finish_stream(old(self).pending_buffer(), old(self).pending_lines()).1
                    && final(self).pending_buffer().len() == 0
                    && final(self).pending_lines() == finish_stream(old(self).pending_buffer(), old(self).pending_lines()).0
            },
    {
        if self.buffer.len() > MAX_LINE_BYTES {
            return Err(AppError::Llm(String::from_str("SSE 数据行已超过 1048576 字节仍没有换行，已中止本次请求")));
        }
        Ok(self.finish())
    }
}

proof fn lemma_pending_prefix(ls: Seq<Seq<char>>, k: int)
    requires
        0 <= k <= ls.len(),
    ensures
        pending_bytes(ls.take(k)) <= pending_bytes(ls),
    decreases ls.len() - k,
{
    if k < ls.len() {
        lemma_pending_prefix(ls, k + 1);
        assert(ls.take(k + 1).drop_last() =~= ls.take(k));
    } else {
        assert(ls.take(k) =~= ls);
    }
}

/// UTF-8 byte length of characters, in a type wide enough for any text.
fn utf8_len_wide(v: &[char]) -> (n: u128)
    ensures
        n == crate::text::utf8_len(v@),
        n <= 4 * (usize::MAX as int),
{
    let mut n: u128 = 0;
    let mut i: usize = 0;
    while i < v.len()
        invariant
            i <= v@.len(),
            n == crate::text::utf8_len(v@.take(i as int)),
            n <= 4 * i,
        decreases v@.len() - i,
    {
        proof {
            crate::text::lemma_utf8_len_push(v@.take(i as int), v@[i as int]);
            assert(v@.take(i as int + 1) =~= v@.take(i as int).push(v@[i as int]));
        }
        n = n + crate::text::char_len_utf8(v[i]) as u128;
        i = i + 1;
    }
    assert(v@.take(v@.len() as int) =~= v@);
    n
}

proof fn lemma_eol_index_extend(x: Seq<u8>, y: Seq<u8>, k: int)
    requires
        eol_index(x, k) is Some,
    ensures
        eol_index(x + y, k) == eol_index(x, k),
    decreases x.len() - k,
{
    if 0 <= k < x.len() && !(x[k] == 0x0a || x[k] == 0x0d) {
        lemma_eol_index_extend(x, y, k + 1);
    }
}

/// A complete line stays the same complete line when more bytes arrive.
proof fn lemma_take_line_extend(x: Seq<u8>, y: Seq<u8>)
    requires
        take_line(x) is Some,
    ensures
        take_line(x + y) == take_line(x),
{
    lemma_eol_index_extend(x, y, 0);
    lemma_eol_index(x, 0);
    let i = eol_index(x, 0)->0;
    assert((x + y).take(i) =~= x.take(i));
    assert((x + y)[i] == x[i]);
    if x[i] != 0x0a {
        assert((x + y)[i + 1] == x[i + 1]);
    }
}

/// Draining `x + y` is draining `x` and then draining what is left of it
/// followed by `y`.
proof fn lemma_drain_append(x: Seq<u8>, y: Seq<u8>, ls: Seq<Seq<char>>)
    ensures
        ({
            let d = drain(x, ls);
            let e = drain(d.0 + y, d.1);
            drain(x + y, ls) == (e.0, e.1, d.2 + e.2)
        }),
    decreases x.len(),
{
    match take_line(x) {
        None => {
            assert(drain(x, ls).2 =~= Seq::<SseModel>::empty());
            assert(Seq::<SseModel>::empty() + drain(x + y, ls).2 =~= drain(x + y, ls).2);
        },
        Some((lb, consumed)) => {
            lemma_take_line_extend(x, y);
            if 0 < consumed <= x.len() {
                let h = handle_line(ls, line_text(lb));
                assert((x + y).skip(consumed) =~= x.skip(consumed) + y);
                lemma_drain_append(x.skip(consumed), y, h.0);
                let d = drain(x.skip(consumed), h.0);
                let e = drain(d.0 + y, d.1);
                assert(opt_seq(h.1) + (d.2 + e.2) =~= (opt_seq(h.1) + d.2) + e.2);
            }
        },
    }
}

/// Feeding bytes in two chunks gives the same events, and leaves the same
/// buffered bytes and pending data lines, as feeding them at once: however
/// the network splits a stream, the decoded events are the same.
pub proof fn law_push_split(b: Seq<u8>, ls: Seq<Seq<char>>, c1: Seq<u8>, c2: Seq<u8>)
    ensures
        ({
            let d1 = drain(b + c1, ls);
            let d2 = drain(d1.0 + c2, d1.1);
            let d = drain(b + c1 + c2, ls);
            d2.0 == d.0 && d2.1 == d.1 && d1.2 + d2.2 == d.2
        }),
{
    lemma_drain_append(b + c1, c2, ls);
}

// ─────────────────────────────────────────────────────────────
// Chat-completion chunks
// ─────────────────────────────────────────────────────────────

/// A `finish_reason` of the chat protocol.
#[derive(Debug, Clone, Copy, PartialEq, Eq, Structural)]
pub enum FinishKind {
    Stop,
    Length,
    ToolCalls,
    ContentFilter,
    FunctionCall,
}

/// The wire form of a finish reason (the protocol's `snake_case` name).
pub open spec fn finish_wire(k: FinishKind) -> Seq<char> {
    match k {
        FinishKind::Stop => "stop"@,
        FinishKind::Length => "length"@,
        FinishKind::ToolCalls => "tool_calls"@,
        FinishKind::ContentFilter => "content_filter"@,
        FinishKind::FunctionCall => "function_call"@,
    }
}

/// The wire form of a finish reason.
pub fn finish_reason_text(k: FinishKind) -> (r: String)
    ensures
        r@ == finish_wire(k),
{
    match k {
        FinishKind::Stop => String::from_str("stop"),
        FinishKind::Length => String::from_str("length"),
        FinishKind::ToolCalls => String::from_str("tool_calls"),
        FinishKind::ContentFilter => String::from_str("content_filter"),
        FinishKind::FunctionCall => String::from_str("function_call"),
    }
}

/// One choice of a streamed chunk: `delta.content`, and `finish_reason` in
/// its wire form (`stop`, `length`, ...).
#[derive(Debug, Clone, PartialEq, Eq)]
pub struct ChatStreamChunk {
    pub content: Option<String>,
    pub finish_reason: Option<String>,
}

pub open spec fn opt_text(o: Option<String>) -> Option<Seq<char>> {
    match o {
        Some(s) => Some(s@),
        None => None,
    }
}

/// The text and finish reason of a chunk.
pub open spec fn chunk_model(c: ChatStreamChunk) -> (Option<Seq<char>>, Option<Seq<char>>) {
    (opt_text(c.content), opt_text(c.finish_reason))
}

impl ChatStreamChunk {
    /// The finish reason when it says the response is incomplete (`length`,
    /// `content_filter`); `None` when the server reports a normal end or
    /// no end at all.
    pub fn truncation_reason(&self) -> (r: Option<&'static str>)
        ensures
            match crate::translation::translator::truncation_of(opt_text(self.finish_reason)) {
                Some(t) => r matches Some(x) && x@ == t,
                None => r is None,
            },
    {
        match &self.finish_reason {
            Some(f) => crate::translation::translator::truncation_reason(Some(f.as_str())),
            None => crate::translation::translator::truncation_reason(None),
        }
    }
}

/// What `serde_json::from_str` reads from a payload as the protocol's
/// streamed chunk (async-openai's `CreateChatCompletionStreamResponse`):
/// `None` when it does not deserialize, else `delta.content` and
/// `finish_reason` of each choice, in order.
pub uninterp spec fn protocol_chunk(data: Seq<char>) -> Option<Seq<(Option<Seq<char>>, Option<FinishKind>)>>;

pub open spec fn choices_model(v: Seq<(Option<String>, Option<FinishKind>)>) -> Seq<(Option<Seq<char>>, Option<FinishKind>)> {
    v.map_values(|c: (Option<String>, Option<FinishKind>)| (opt_text(c.0), c.1))
}

/// `serde_json::from_str::<CreateChatCompletionStreamResponse>`, reduced to
/// the content and finish reason of each choice. Which payloads deserialize
/// (the protocol's required fields and their types) is named, not spelled
/// out.
#[verifier::external_body]
fn protocol_choices(data: &str) -> (r: Option<Vec<(Option<String>, Option<FinishKind>)>>)
    ensures
        protocol_chunk(data@) == match r {
            Some(v) => Some(choices_model(v@)),
            None => None,
        },
{
    let chunk = serde_json::from_str::<CreateChatCompletionStreamResponse>(data).ok()?;
    Some(chunk.choices.into_iter().map(|c| (c.delta.content, c.finish_reason.map(|f| match f {
        FinishReason::Stop => FinishKind::Stop,
        FinishReason::Length => FinishKind::Length,
        FinishReason::ToolCalls => FinishKind::ToolCalls,
        FinishReason::ContentFilter => FinishKind::ContentFilter,
        FinishReason::FunctionCall => FinishKind::FunctionCall,
    }))).collect())
}

/// A protocol choice as a chunk: the finish reason in wire form.
pub open spec fn protocol_choice_model(c: (Option<Seq<char>>, Option<FinishKind>)) -> (Option<Seq<char>>, Option<Seq<char>>) {
    (c.0, match c.1 {
        Some(k) => Some(finish_wire(k)),
        None => None,
    })
}

/// The choices of a payload read as the protocol's streamed chunk, with
/// finish reasons in wire form; `None` when the payload is not such a chunk.
pub fn protocol_chunk_choices(data: &str) -> (r: Option<Vec<ChatStreamChunk>>)
    ensures
        match protocol_chunk(data@) {
            None => r is None,
            Some(cs) => r matches Some(v) && v@.len() == cs.len()
                && forall|i: int| 0 <= i < cs.len() ==> chunk_model(#[trigger] v@[i]) == protocol_choice_model(cs[i]),
        },
{
    let choices = match protocol_choices(data) {
        Some(c) => c,
        None => return None,
    };
    let ghost cs = choices_model(choices@);
    let mut out: Vec<ChatStreamChunk> = Vec::new();
    let mut i: usize = 0;
    while i < choices.len()
        invariant
            i <= choices@.len(),
            cs == choices_model(choices@),
            out@.len() == i,
            forall|k: int| 0 <= k < i ==> chunk_model(#[trigger] out@[k]) == protocol_choice_model(cs[k]),
        decreases choices@.len() - i,
    {
        let content = match &choices[i].0 {
            Some(t) => Some(t.clone()),
            None => None,
        };
        let finish_reason = match choices[i].1 {
            Some(k) => Some(finish_reason_text(k)),
            None => None,
        };
        out.push(ChatStreamChunk { content, finish_reason });
        i = i + 1;
    }
    Some(out)
}

/// The chunk that counts: the first choice (`None` when there is none).
pub fn first_choice(choices: &[ChatStreamChunk]) -> (r: Option<ChatStreamChunk>)
    ensures
        choices@.len() == 0 ==> r is None,
        choices@.len() > 0 ==> (r matches Some(c) && chunk_model(c) == chunk_model(choices@[0])),
{
    if choices.len() == 0 {
        return None;
    }
    let c = &choices[0];
    let content = match &c.content {
        Some(t) => Some(t.clone()),
        None => None,
    };
    let finish_reason = match &c.finish_reason {
        Some(t) => Some(t.clone()),
        None => None,
    };
    Some(ChatStreamChunk { content, finish_reason })
}

} // verus!
