//! The decisions of one streamed translation request: the prompt sent, the
//! error of a failed HTTP status, how streamed chunks are assembled, and
//! whether the finished stream is a complete translation. Sending the
//! request and reading the stream happen around this module.

use vstd::prelude::*;
use crate::error::{error_message, AppError};
use crate::glossary::matcher::MatchedTerm;
use crate::text::{chars_of, is_blank, is_blank_str, string_of, trim, trim_chars};
use crate::translation::prompt::{build_user_prompt, user_prompt};
use crate::translation::series::ConsistencyTerm;

verus! {

/// Prefix of the error of an HTTP status; the retry policy reads the status
/// back from it.
pub const API_STATUS_PREFIX: &'static str = "API 返回 ";

/// Characters of an error body kept in the message.
pub const ERROR_BODY_LIMIT: usize = 500;

/// The first `limit` characters of a text.
pub open spec fn truncated(text: Seq<char>, limit: nat) -> Seq<char> {
    if text.len() <= limit {
        text
    } else {
        text.take(limit as int)
    }
}

/// Truncates by characters (never inside a multi-byte character).
pub fn truncate_chars(text: &str, limit: usize) -> (r: String)
    ensures
        r@ == truncated(text@, limit as nat),
{
    let v = chars_of(text);
    if v.len() <= limit {
        String::from_str(text)
    } else {
        let t = crate::text::copy_range(v.as_slice(), 0, limit);
        assert(t@ =~= text@.take(limit as int));
        string_of(t.as_slice())
    }
}

/// The error of a failed HTTP status (`status` as the client renders it,
/// e.g. `401 Unauthorized`), with at most [`ERROR_BODY_LIMIT`] characters
/// of the body.
pub fn api_status_error(status: &str, body: &str) -> (r: AppError)
    ensures
        r matches AppError::Llm(m) && m@ == API_STATUS_PREFIX@ + status@ + ": "@ + truncated(body@, ERROR_BODY_LIMIT as nat),
{
    let mut m = String::from_str(API_STATUS_PREFIX);
    m.append(status);
    m.append(": ");
    m.append(truncate_chars(body, ERROR_BODY_LIMIT).as_str());
    AppError::Llm(m)
}

/// Message when a finished stream carried no text for a non-blank source.
pub open spec fn empty_stream_message() -> Seq<char> {
    "流式响应结束但没有任何文本（网关可能把错误包成了 200，或服务端未按 SSE 返回）"@
}

/// A finished stream without any text is a failure, unless the source
/// itself is blank.
pub fn ensure_stream_produced_text(source: &str, text: &str) -> (r: Result<(), AppError>)
    ensures
        text@.len() == 0 && !is_blank(source@) ==> (r matches Err(AppError::Llm(m)) && m@ == empty_stream_message()),
        !(text@.len() == 0 && !is_blank(source@)) ==> r is Ok,
{
    if text.unicode_len() == 0 && !is_blank_str(source) {
        return Err(AppError::Llm(String::from_str(
            "流式响应结束但没有任何文本（网关可能把错误包成了 200，或服务端未按 SSE 返回）",
        )));
    }
    Ok(())
}

/// Message when the server reports an incomplete response.
pub open spec fn truncated_message(reason: Seq<char>) -> Seq<char> {
    "模型输出不完整（finish_reason="@ + reason
        + "），已丢弃这次半截译文；可减小单条文本长度或改用输出上限更高的模型后重试"@
}

/// Message when a stream ends with no sign of a proper end.
pub open spec fn unterminated_message() -> Seq<char> {
    "流式响应结束，但既没有收到 [DONE] 也没有 finish_reason，无法确认输出完整（连接可能被中途掐断）；若在自定义网关上出现，请确认它按 OpenAI 协议发送 [DONE] 或 finish_reason，否则换用标准端点后重试"@
}

/// A stream must show a proper end: a truncation reason reported by the
/// server fails it, and so does the absence of both `[DONE]` and any
/// `finish_reason`.
pub fn ensure_stream_complete(truncation: Option<&str>, saw_done: bool, saw_finish_reason: bool) -> (r: Result<(), AppError>)
    ensures
        truncation matches Some(t) ==> (r matches Err(AppError::Llm(m)) && m@ == truncated_message(t@)),
        truncation is None && !saw_done && !saw_finish_reason ==> (r matches Err(AppError::Llm(m)) && m@ == unterminated_message()),
        truncation is None && (saw_done || saw_finish_reason) ==> r is Ok,
{
    match truncation {
        Some(reason) => {
            let mut m = String::from_str("模型输出不完整（finish_reason=");
            m.append(reason);
            m.append("），已丢弃这次半截译文；可减小单条文本长度或改用输出上限更高的模型后重试");
            return Err(AppError::Llm(m));
        },
        None => {},
    }
    if !saw_done && !saw_finish_reason {
        return Err(AppError::Llm(String::from_str(
            "流式响应结束，但既没有收到 [DONE] 也没有 finish_reason，无法确认输出完整（连接可能被中途掐断）；若在自定义网关上出现，请确认它按 OpenAI 协议发送 [DONE] 或 finish_reason，否则换用标准端点后重试",
        )));
    }
    Ok(())
}

/// The finish reasons that mean the response is incomplete: `length` (the
/// output limit was hit) and `content_filter`.
pub open spec fn truncation_of(reason: Option<Seq<char>>) -> Option<Seq<char>> {
    match reason {
        Some(r) => if r == "length"@ || r == "content_filter"@ {
            Some(r)
        } else {
            None
        },
        None => None,
    }
}

/// The truncation reason of a chunk's finish reason (see [`truncation_of`]).
pub fn truncation_reason(finish_reason: Option<&str>) -> (r: Option<&'static str>)
    ensures
        match truncation_of(match finish_reason {
            Some(f) => Some(f@),
            None => None,
        }) {
            Some(t) => r matches Some(x) && x@ == t,
            None => r is None,
        },
{
    match finish_reason {
        Some(f) => {
            let v = chars_of(f);
            if crate::text::chars_eq_str(v.as_slice(), "length") {
                Some("length")
            } else if crate::text::chars_eq_str(v.as_slice(), "content_filter") {
                Some("content_filter")
            } else {
                None
            }
        },
        None => None,
    }
}

/// The user message of a request: the user prompt, and a non-blank
/// correction hint (trimmed) after it.
pub open spec fn request_prompt(base: Seq<char>, correction: Option<Seq<char>>) -> Seq<char> {
    match correction {
        Some(h) => if trim(h).len() > 0 {
            base + "\n\n【结构校验未通过，请修正】"@ + trim(h)
        } else {
            base
        },
        None => base,
    }
}

/// Builds the user message of a request (see [`request_prompt`]).
pub fn build_request_prompt(
    source: &str,
    matches: &[MatchedTerm],
    consistency_terms: &[ConsistencyTerm],
    style_hint: Option<&str>,
    correction: Option<&str>,
) -> (r: String)
    ensures
        r@ == request_prompt(
            user_prompt(
                source@,
                crate::translation::prompt::matched_view(matches@),
                crate::translation::prompt::consistency_view(consistency_terms@),
                match style_hint {
                    Some(h) => Some(h@),
                    None => None,
                },
            ),
            match correction {
                Some(c) => Some(c@),
                None => None,
            },
        ),
{
    let mut prompt = build_user_prompt(source, matches, consistency_terms, style_hint);
    match correction {
        Some(c) => {
            let cv = chars_of(c);
            let t = trim_chars(cv.as_slice());
            if t.len() > 0 {
                prompt.append("\n\n【结构校验未通过，请修正】");
                prompt.append(string_of(t.as_slice()).as_str());
            }
            prompt
        },
        None => prompt,
    }
}

// ─────────────────────────────────────────────────────────────
// Assembling a stream
// ─────────────────────────────────────────────────────────────

/// What a stream has shown so far.
pub struct StreamModel {
    pub text: Seq<char>,
    pub truncation: Option<Seq<char>>,
    pub saw_done: bool,
    pub saw_finish_reason: bool,
}

/// The assembly of one streamed response.
pub struct StreamAssembler {
    full: String,
    truncation: Option<String>,
    saw_done: bool,
    saw_finish_reason: bool,
}

impl StreamAssembler {
    pub closed spec fn model(&self) -> StreamModel {
        StreamModel {
            text: self.full@,
            truncation: match self.truncation {
                Some(t) => Some(t@),
                None => None,
            },
            saw_done: self.saw_done,
            saw_finish_reason: self.saw_finish_reason,
        }
    }

    /// Nothing received yet.
    pub fn new() -> (r: Self)
        ensures
            r.model() == (StreamModel { text: Seq::empty(), truncation: None, saw_done: false, saw_finish_reason: false }),
    {
        StreamAssembler { full: String::new(), truncation: None, saw_done: false, saw_finish_reason: false }
    }

    /// The `[DONE]` marker: the stream ends here.
    pub fn on_done(&mut self)
        ensures
            final(self).model() == (StreamModel { saw_done: true, ..old(self).model() }),
    {
        self.saw_done = true;
    }

    /// A parsed chunk: its finish reason is noted (a truncation reason is
    /// kept, the latest one winning), and its non-empty text is appended and
    /// returned, to be streamed to the entries.
    pub fn on_chunk(&mut self, content: Option<String>, finish_reason: Option<String>) -> (r: Option<String>)
        ensures
            final(self).model().saw_done == old(self).model().saw_done,
            final(self).model().saw_finish_reason == (old(self).model().saw_finish_reason || finish_reason is Some),
            final(self).model().truncation == match truncation_of(match finish_reason {
                Some(f) => Some(f@),
                None => None,
            }) {
                Some(t) => Some(t),
                None => old(self).model().truncation,
            },
            match content {
                Some(c) => if c@.len() > 0 {
                    r matches Some(d) && d@ == c@ && final(self).model().text == old(self).model().text + c@
                } else {
                    r is None && final(self).model().text == old(self).model().text
                },
                None => r is None && final(self).model().text == old(self).model().text,
            },
    {
        if finish_reason.is_some() {
            self.saw_finish_reason = true;
        }
        let reason = match &finish_reason {
            Some(f) => truncation_reason(Some(f.as_str())),
            None => truncation_reason(None),
        };
        match reason {
            Some(t) => {
                self.truncation = Some(String::from_str(t));
            },
            None => {},
        }
        match content {
            Some(c) => {
                if c.unicode_len() > 0 {
                    self.full.append(c.as_str());
                    Some(c)
                } else {
                    None
                }
            },
            None => None,
        }
    }

    /// The finished translation: the trimmed text, once the stream showed
    /// a proper end and produced text for a non-blank source.
    pub fn finish(&self, source: &str) -> (r: Result<String, AppError>)
        ensures
            ({
                let m = self.model();
                let t = trim(m.text);
                match m.truncation {
                    Some(reason) => r matches Err(AppError::Llm(e)) && e@ == truncated_message(reason),
                    None => if !m.saw_done && !m.saw_finish_reason {
                        r matches Err(AppError::Llm(e)) && e@ == unterminated_message()
                    } else if t.len() == 0 && !is_blank(source@) {
                        r matches Err(AppError::Llm(e)) && e@ == empty_stream_message()
                    } else {
                        r matches Ok(x) && x@ == t
                    },
                }
            }),
    {
        let v = chars_of(self.full.as_str());
        let text = string_of(trim_chars(v.as_slice()).as_slice());
        let check = match &self.truncation {
            Some(t) => ensure_stream_complete(Some(t.as_str()), self.saw_done, self.saw_finish_reason),
            None => ensure_stream_complete(None, self.saw_done, self.saw_finish_reason),
        };
        match check {
            Err(e) => return Err(e),
            Ok(()) => {},
        }
        match ensure_stream_produced_text(source, text.as_str()) {
            Err(e) => Err(e),
            Ok(()) => Ok(text),
        }
    }
}

} // verus!
