//! Decoding a completion answer from the fragments in which it arrives.
//!
//! Fragments are cut at arbitrary bytes. Complete lines are read as an event
//! stream: a line `data: <json>` carries a piece of the answer. Where no line of
//! the input is such an event, the whole input is taken instead: a single JSON
//! document yields the text at `candidates[0].content.parts[0].text`, and any
//! other text is the answer as it stands.
use vstd::prelude::*;
use vstd::string::StringSliceAdditionalSpecFns;
use vstd::utf8::{decode_utf8, valid_utf8};
use crate::json::{
    deref, first, get_first, get_member, json_document_of, lookup, member, parse_json, text_of,
    JsonValue,
};
use crate::text::{
    chars_of, has_chars_at, same_text, string_of_range, trim, trim_range, utf8_text,
};

verus! {

broadcast use vstd::utf8::encode_utf8_decode_utf8;

pub open spec fn data_prefix() -> Seq<char> {
    seq!['d', 'a', 't', 'a', ':', ' ']
}

pub open spec fn done_marker() -> Seq<char> {
    data_prefix() + seq!['[', 'D', 'O', 'N', 'E', ']']
}

/// The lines that a newline has closed, and the partial line after the last newline.
pub open spec fn split_lines(s: Seq<u8>) -> (Seq<Seq<u8>>, Seq<u8>)
    decreases s.len(),
{
    if s.len() == 0 {
        (seq![], seq![])
    } else {
        let (ls, r) = split_lines(s.drop_last());
        if s.last() == 10 {
            (ls.push(r), seq![])
        } else {
            (ls, r.push(s.last()))
        }
    }
}

pub open spec fn complete_lines(s: Seq<u8>) -> Seq<Seq<u8>> {
    split_lines(s).0
}

pub open spec fn partial_line(s: Seq<u8>) -> Seq<u8> {
    split_lines(s).1
}

/// The lines of a text that is known to be complete: the last one needs no newline.
pub open spec fn all_lines(s: Seq<u8>) -> Seq<Seq<u8>> {
    complete_lines(s).push(partial_line(s))
}

/// A line as text, trimmed; nothing where its bytes are not UTF-8.
pub open spec fn line_chars(l: Seq<u8>) -> Option<Seq<char>> {
    if valid_utf8(l) {
        Some(trim(decode_utf8(l)))
    } else {
        None
    }
}

pub open spec fn starts_with(t: Seq<char>, p: Seq<char>) -> bool {
    p.len() <= t.len() && t.subrange(0, p.len() as int) == p
}

/// A line of the event stream, the end marker included.
pub open spec fn is_event_line(l: Seq<u8>) -> bool {
    match line_chars(l) {
        Some(t) => starts_with(t, data_prefix()),
        None => false,
    }
}

/// How a value other than null is shown in a marker.
pub open spec fn render(v: JsonValue) -> Seq<char> {
    match v {
        JsonValue::Null => "null"@,
        JsonValue::Bool(b) => if b {
            "true"@
        } else {
            "false"@
        },
        JsonValue::Number(t) => t@,
        JsonValue::Str(s) => s@,
        JsonValue::Array(_, t) => t@,
        JsonValue::Object(_, t) => t@,
    }
}

pub open spec fn content_part(o: Option<JsonValue>) -> Seq<char> {
    match text_of(o) {
        Some(t) => t,
        None => seq![],
    }
}

pub open spec fn refusal_part(o: Option<JsonValue>) -> Seq<char> {
    match o {
        Some(JsonValue::Null) => seq![],
        Some(x) => "[refusal: "@ + render(x) + "]"@,
        None => seq![],
    }
}

pub open spec fn role_part(o: Option<JsonValue>) -> Seq<char> {
    match text_of(o) {
        Some(t) => "[role: "@ + t + "]"@,
        None => seq![],
    }
}

/// The text that one event carries: from `choices[0]`, unless it finished with
/// `stop`, the delta's content, then a refusal marker, then a role marker.
pub open spec fn event_text_of(v: JsonValue) -> Seq<char> {
    let choice = first(member(Some(v), "choices"@));
    if choice is None {
        seq![]
    } else if text_of(member(choice, "finish_reason"@)) == Some("stop"@) {
        seq![]
    } else {
        let delta = member(choice, "delta"@);
        match delta {
            Some(JsonValue::Object(..)) => content_part(member(delta, "content"@)) + refusal_part(
                member(delta, "refusal"@),
            ) + role_part(member(delta, "role"@)),
            _ => seq![],
        }
    }
}

/// The text at `candidates[0].content.parts[0].text`, if there is one.
pub open spec fn candidate_text_of(v: JsonValue) -> Option<Seq<char>> {
    let candidate = first(member(Some(v), "candidates"@));
    let part = first(member(member(candidate, "content"@), "parts"@));
    text_of(member(part, "text"@))
}

/// The text that one line contributes.
pub open spec fn line_text(l: Seq<u8>) -> Seq<char> {
    match line_chars(l) {
        Some(t) => if starts_with(t, data_prefix()) && t != done_marker() {
            match json_document_of(trim(t.subrange(6, t.len() as int))) {
                Some(v) => event_text_of(v),
                None => seq![],
            }
        } else {
            seq![]
        },
        None => seq![],
    }
}

pub open spec fn lines_text(ls: Seq<Seq<u8>>) -> Seq<char>
    decreases ls.len(),
{
    if ls.len() == 0 {
        seq![]
    } else {
        lines_text(ls.drop_last()) + line_text(ls.last())
    }
}

pub open spec fn any_event(ls: Seq<Seq<u8>>) -> bool {
    exists|i: int| 0 <= i < ls.len() && is_event_line(#[trigger] ls[i])
}

/// The whole input where no line of it is an event.
pub open spec fn fallback_text(s: Seq<u8>) -> Seq<char> {
    if valid_utf8(s) {
        match json_document_of(decode_utf8(s)) {
            Some(JsonValue::Object(es, t)) => match candidate_text_of(JsonValue::Object(es, t)) {
                Some(t) => t,
                None => seq![],
            },
            _ => decode_utf8(s),
        }
    } else {
        seq![]
    }
}

/// What is left to say when the input ends, after the text of the given lines.
pub open spec fn closing_text(ls: Seq<Seq<u8>>, s: Seq<u8>) -> Seq<char> {
    if any_event(ls) {
        seq![]
    } else {
        fallback_text(s)
    }
}

/// The answer of a stream that closed after `s`: a partial last line is dropped.
pub open spec fn stream_text(s: Seq<u8>) -> Seq<char> {
    lines_text(complete_lines(s)) + closing_text(complete_lines(s), s)
}

/// The answer held by a complete response body `s`.
pub open spec fn response_text(s: Seq<u8>) -> Seq<char> {
    lines_text(all_lines(s)) + closing_text(all_lines(s), s)
}

proof fn lemma_lines_text_push(ls: Seq<Seq<u8>>, l: Seq<u8>)
    ensures
        lines_text(ls.push(l)) == lines_text(ls) + line_text(l),
{
    assert(ls.push(l).drop_last() =~= ls);
}

proof fn lemma_any_event_push(ls: Seq<Seq<u8>>, l: Seq<u8>)
    ensures
        any_event(ls.push(l)) == (any_event(ls) || is_event_line(l)),
{
    let p = ls.push(l);
    if any_event(ls) {
        let i = choose|i: int| 0 <= i < ls.len() && is_event_line(#[trigger] ls[i]);
        assert(p[i] == ls[i]);
    }
    if is_event_line(l) {
        assert(p[ls.len() as int] == l);
    }
    if any_event(p) {
        let i = choose|i: int| 0 <= i < p.len() && is_event_line(#[trigger] p[i]);
        if i < ls.len() {
            assert(p[i] == ls[i]);
        }
    }
}

proof fn lemma_quiet_lines(ls: Seq<Seq<u8>>)
    requires
        !any_event(ls),
    ensures
        lines_text(ls) == Seq::<char>::empty(),
    decreases ls.len(),
{
    if ls.len() > 0 {
        assert(ls.drop_last() =~= ls.subrange(0, ls.len() - 1));
        assert(!any_event(ls.drop_last())) by {
            if any_event(ls.drop_last()) {
                let i = choose|i: int| 0 <= i < ls.len() - 1 && is_event_line(#[trigger] ls.drop_last()[i]);
                assert(ls[i] == ls.drop_last()[i]);
            }
        }
        lemma_quiet_lines(ls.drop_last());
        assert(!is_event_line(ls[ls.len() - 1]));
        assert(lines_text(ls) =~= Seq::<char>::empty());
    }
}

/// Plain text in which no line is an event comes back unchanged, whether it is
/// read as a complete body or as a stream; a JSON object is read as a document instead.
pub proof fn lemma_plain_text_unchanged(s: Seq<u8>)
    requires
        valid_utf8(s),
        !any_event(all_lines(s)),
        !(json_document_of(decode_utf8(s)) matches Some(JsonValue::Object(..))),
    ensures
        response_text(s) == decode_utf8(s),
        stream_text(s) == decode_utf8(s),
{
    let ls = complete_lines(s);
    assert(!any_event(ls)) by {
        if any_event(ls) {
            let i = choose|i: int| 0 <= i < ls.len() && is_event_line(#[trigger] ls[i]);
            assert(all_lines(s)[i] == ls[i]);
        }
    }
    lemma_quiet_lines(ls);
    lemma_quiet_lines(all_lines(s));
    assert(response_text(s) =~= decode_utf8(s));
    assert(stream_text(s) =~= decode_utf8(s));
}

/// How a value other than null is shown in a marker.
pub fn render_value(v: &JsonValue) -> (r: String)
    ensures
        r@ == render(*v),
{
    match v {
        JsonValue::Null => "null".to_owned(),
        JsonValue::Bool(b) => if *b {
            "true".to_owned()
        } else {
            "false".to_owned()
        },
        JsonValue::Number(t) => t.clone(),
        JsonValue::Str(s) => s.clone(),
        JsonValue::Array(_, t) => t.clone(),
        JsonValue::Object(_, t) => t.clone(),
    }
}

/// The text that one parsed event carries.
pub fn event_text(v: &JsonValue) -> (r: String)
    ensures
        r@ == event_text_of(*v),
{
    let choice = get_first(get_member(Some(v), "choices"));
    if choice.is_none() {
        return String::new();
    }
    if let Some(JsonValue::Str(reason)) = get_member(choice, "finish_reason") {
        if same_text(reason.as_str(), "stop") {
            return String::new();
        }
    }
    let delta = get_member(choice, "delta");
    match delta {
        Some(JsonValue::Object(..)) => {},
        _ => {
            return String::new();
        },
    }
    let mut out = String::new();
    if let Some(JsonValue::Str(c)) = get_member(delta, "content") {
        out.append(c.as_str());
    }
    let ghost after_content = out@;
    match get_member(delta, "refusal") {
        Some(JsonValue::Null) => {},
        Some(x) => {
            out.append("[refusal: ");
            let t = render_value(x);
            out.append(t.as_str());
            out.append("]");
        },
        None => {},
    }
    assert(out@ =~= after_content + refusal_part(member(deref(delta), "refusal"@)));
    let ghost after_refusal = out@;
    if let Some(JsonValue::Str(role)) = get_member(delta, "role") {
        out.append("[role: ");
        out.append(role.as_str());
        out.append("]");
    }
    assert(out@ =~= after_refusal + role_part(member(deref(delta), "role"@)));
    out
}

/// The text at `candidates[0].content.parts[0].text` of a document, if there is one.
pub fn candidate_text(v: &JsonValue) -> (r: Option<String>)
    ensures
        match candidate_text_of(*v) {
            Some(t) => r matches Some(s) && s@ == t,
            None => r is None,
        },
{
    let candidate = get_first(get_member(Some(v), "candidates"));
    let part = get_first(get_member(get_member(candidate, "content"), "parts"));
    match get_member(part, "text") {
        Some(JsonValue::Str(t)) => Some(t.clone()),
        _ => None,
    }
}

/// Reads one complete line: whether it belongs to the event stream, and the text it carries.
fn line_event(line: &[u8]) -> (r: (bool, String))
    ensures
        r.0 == is_event_line(line@),
        r.1@ == line_text(line@),
{
    let text = match utf8_text(line) {
        Some(t) => t,
        None => return (false, String::new()),
    };
    assert(decode_utf8(line@) == text@);
    let cs = chars_of(text);
    let n = cs.len();
    let (lo, hi) = trim_range(&cs, 0, n);
    assert(cs@.subrange(0, n as int) =~= cs@);
    let ghost t = cs@.subrange(lo as int, hi as int);
    assert(line_chars(line@) == Some(t));
    let prefix: [char; 6] = ['d', 'a', 't', 'a', ':', ' '];
    assert(prefix@ =~= data_prefix());
    let is_event = has_chars_at(&cs, lo, hi, prefix.as_slice());
    if is_event {
        assert(t.subrange(0, 6) =~= cs@.subrange(lo as int, lo + 6));
    } else {
        proof {
            if starts_with(t, data_prefix()) {
                assert(t.subrange(0, 6) =~= cs@.subrange(lo as int, lo + 6));
            }
        }
        return (false, String::new());
    }
    let done: [char; 12] = ['d', 'a', 't', 'a', ':', ' ', '[', 'D', 'O', 'N', 'E', ']'];
    assert(done@ =~= done_marker());
    if hi - lo == 12 && has_chars_at(&cs, lo, hi, done.as_slice()) {
        assert(t =~= done_marker());
        return (true, String::new());
    }
    assert(t != done_marker()) by {
        if t == done_marker() {
            assert(cs@.subrange(lo as int, lo + 12) =~= t);
        }
    }
    let (a, b) = trim_range(&cs, lo + 6, hi);
    assert(t.subrange(6, t.len() as int) =~= cs@.subrange(lo + 6, hi as int));
    let body = string_of_range(&cs, a, b);
    match parse_json(body.as_str()) {
        Some(v) => (true, event_text(&v)),
        None => (true, String::new()),
    }
}

/// The answer taken from the whole input, where no line of it is an event.
fn fallback(raw: &[u8]) -> (r: String)
    ensures
        r@ == fallback_text(raw@),
{
    let text = match utf8_text(raw) {
        Some(t) => t,
        None => return String::new(),
    };
    assert(decode_utf8(raw@) == text@);
    match parse_json(text) {
        Some(JsonValue::Object(es, t)) => {
            let doc = JsonValue::Object(es, t);
            match candidate_text(&doc) {
                Some(t) => t,
                None => String::new(),
            }
        },
        _ => text.to_owned(),
    }
}

/// Decodes an answer fed in fragments. It keeps the partial line that the last
/// fragment left, and the whole input for as long as no event line has come.
pub struct StreamDecoder {
    line: Vec<u8>,
    raw: Vec<u8>,
    events: bool,
    seen: Ghost<Seq<u8>>,
}

impl View for StreamDecoder {
    type V = Seq<u8>;

    /// All bytes fed so far.
    closed spec fn view(&self) -> Seq<u8> {
        self.seen@
    }
}

impl StreamDecoder {
    pub closed spec fn wf(&self) -> bool {
        &&& self.line@ == partial_line(self.seen@)
        &&& self.events == any_event(complete_lines(self.seen@))
        &&& !self.events ==> self.raw@ == self.seen@
    }

    pub fn new() -> (r: Self)
        ensures
            r.wf(),
            r@ == Seq::<u8>::empty(),
    {
        StreamDecoder { line: Vec::new(), raw: Vec::new(), events: false, seen: Ghost(Seq::empty()) }
    }

    /// Takes the next fragment and returns the text of the lines it completes.
    pub fn feed(&mut self, chunk: &[u8]) -> (r: String)
        requires
            old(self).wf(),
        ensures
            final(self).wf(),
            final(self)@ == old(self)@ + chunk@,
            lines_text(complete_lines(old(self)@)) + r@ == lines_text(complete_lines(final(self)@)),
    {
        let ghost start = self.seen@;
        let mut out = String::new();
        let mut i: usize = 0;
        assert(start + chunk@.subrange(0, 0) =~= start);
        while i < chunk.len()
            invariant
                self.wf(),
                i <= chunk@.len(),
                self.seen@ == start + chunk@.subrange(0, i as int),
                lines_text(complete_lines(start)) + out@ == lines_text(complete_lines(self.seen@)),
            decreases chunk@.len() - i,
        {
            let b = chunk[i];
            let ghost prev = self.seen@;
            let ghost prev_out = out@;
            self.seen = Ghost(prev.push(b));
            assert(prev.push(b).drop_last() =~= prev);
            assert(start + chunk@.subrange(0, i + 1) =~= prev.push(b));
            if b == 10 {
                let (ev, t) = line_event(self.line.as_slice());
                proof {
                    lemma_lines_text_push(complete_lines(prev), partial_line(prev));
                    lemma_any_event_push(complete_lines(prev), partial_line(prev));
                }
                out.append(t.as_str());
                assert(lines_text(complete_lines(start)) + out@ =~= (lines_text(complete_lines(start)) + prev_out) + t@);
                self.events = self.events || ev;
                self.line.clear();
                if self.events {
                    self.raw.clear();
                } else {
                    self.raw.push(b);
                }
            } else {
                self.line.push(b);
                if !self.events {
                    self.raw.push(b);
                }
            }
            i = i + 1;
        }
        assert(chunk@.subrange(0, chunk@.len() as int) =~= chunk@);
        out
    }

    /// Ends the input where the transport closed: a partial last line is dropped.
    pub fn finish(self) -> (r: String)
        requires
            self.wf(),
        ensures
            r@ == closing_text(complete_lines(self@), self@),
    {
        if self.events {
            String::new()
        } else {
            fallback(self.raw.as_slice())
        }
    }

    /// Ends an input that is known to be complete: a last line without newline counts.
    pub fn finish_complete(self) -> (r: String)
        requires
            self.wf(),
        ensures
            r@ == line_text(partial_line(self@)) + closing_text(all_lines(self@), self@),
    {
        let (ev, t) = line_event(self.line.as_slice());
        proof {
            lemma_any_event_push(complete_lines(self.seen@), partial_line(self.seen@));
        }
        if self.events || ev {
            assert(t@ =~= t@ + Seq::<char>::empty());
            t
        } else {
            let mut out = t;
            let rest = fallback(self.raw.as_slice());
            out.append(rest.as_str());
            out
        }
    }
}

/// Decodes a complete response body, whether an event stream, a JSON document,
/// or plain text.
pub fn parse_google_api_response(data: &str) -> (r: String)
    ensures
        r@ == response_text(data.spec_bytes()),
{
    let mut d = StreamDecoder::new();
    let mut out = d.feed(data.as_bytes());
    assert(Seq::<u8>::empty() + data.spec_bytes() =~= data.spec_bytes());
    let ghost s = data.spec_bytes();
    let rest = d.finish_complete();
    out.append(rest.as_str());
    proof {
        lemma_lines_text_push(complete_lines(s), partial_line(s));
        assert(lines_text(complete_lines(Seq::<u8>::empty())) =~= Seq::<char>::empty());
    }
    assert(out@ =~= lines_text(all_lines(s)) + closing_text(all_lines(s), s));
    out
}

} // verus!
