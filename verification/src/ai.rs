//! The AI chat: an OpenAI-compatible `chat/completions` endpoint, streamed
//! back as server-sent events. Here: the system prompt with the notes the
//! user attached, the checks before a request, and turning the stream's
//! bytes into events for the view.

use vstd::prelude::*;
use crate::text::{
    chars_eq, chars_of, is_prefix, push_all, slice_chars, string_of, trim, trim_end_chars,
    trim_end_chars_exec, trim_exec,
};

verus! {

/// One message of the conversation.
#[derive(Clone, Debug)]
pub struct ChatMessage {
    pub role: String,
    pub content: String,
}

/// What the chat tells the view while a reply streams in.
#[derive(Clone, Debug)]
pub enum AiEvent {
    /// a piece of the reply
    Delta { text: String },
    /// a piece of a reasoning model's thinking
    Reasoning { text: String },
    /// the reply is complete; `chars` characters of it came in
    Done { chars: usize },
    Error { message: String },
}

pub enum AiEventSpec {
    Delta { text: Seq<char> },
    Reasoning { text: Seq<char> },
    Done { chars: nat },
    Error { message: Seq<char> },
}

impl View for AiEvent {
    type V = AiEventSpec;

    open spec fn view(&self) -> AiEventSpec {
        match self {
            AiEvent::Delta { text } => AiEventSpec::Delta { text: text@ },
            AiEvent::Reasoning { text } => AiEventSpec::Reasoning { text: text@ },
            AiEvent::Done { chars } => AiEventSpec::Done { chars: *chars as nat },
            AiEvent::Error { message } => AiEventSpec::Error { message: message@ },
        }
    }
}

pub open spec fn events_view(v: Seq<AiEvent>) -> Seq<AiEventSpec> {
    v.map_values(|e: AiEvent| e@)
}

/// How much of one attached note goes into the prompt, in characters.
pub const REF_CHAR_BUDGET: usize = 6000;

// ───────────────────────── text helpers ─────────────────────────

/// The first `n` characters, with `…` after them if there were more.
pub open spec fn truncate_spec(s: Seq<char>, n: nat) -> Seq<char> {
    if s.len() > n {
        s.take(n as int) + "…"@
    } else {
        s
    }
}

/// The first `n` characters of `s`, with `…` after them if there were more.
pub fn truncate(s: &str, n: usize) -> (r: String)
    ensures
        r@ == truncate_spec(s@, n as nat),
{
    let c = chars_of(s);
    if c.len() > n {
        let mut t = slice_chars(&c, 0, n);
        push_all(&mut t, &chars_of("…"));
        assert(t@ =~= s@.take(n as int) + "…"@);
        string_of(&t)
    } else {
        s.to_owned()
    }
}

// ───────────────────────── before a request ─────────────────────────

/// Why a chat cannot start with these settings, if it cannot: no API key,
/// or no `base_url`.
pub open spec fn preflight_spec(key: Seq<char>, base_url: Seq<char>) -> Option<Seq<char>> {
    if trim(key).len() == 0 {
        Some("还没有配置 API Key。打开「设置 → AI」填入后重试。"@)
    } else if trim(base_url).len() == 0 {
        Some("base_url 不能为空。"@)
    } else {
        None
    }
}

/// Why a chat cannot start with these settings, if it cannot.
pub fn chat_preflight(key: &str, base_url: &str) -> (r: Option<String>)
    ensures
        match r {
            Some(m) => preflight_spec(key@, base_url@) == Some(m@),
            None => preflight_spec(key@, base_url@) is None,
        },
{
    if trim_exec(&chars_of(key)).len() == 0 {
        Some("还没有配置 API Key。打开「设置 → AI」填入后重试。".to_owned())
    } else if trim_exec(&chars_of(base_url)).len() == 0 {
        Some("base_url 不能为空。".to_owned())
    } else {
        None
    }
}

/// The endpoint: `base_url` trimmed, without trailing slashes, then
/// `/chat/completions`.
pub open spec fn chat_url_spec(base_url: Seq<char>) -> Seq<char> {
    trim_end_chars(trim(base_url), seq!['/']) + "/chat/completions"@
}

pub fn chat_url(base_url: &str) -> (r: String)
    ensures
        r@ == chat_url_spec(base_url@),
{
    let mut slash: Vec<char> = Vec::new();
    slash.push('/');
    assert(slash@ =~= seq!['/']);
    let mut u = trim_end_chars_exec(&trim_exec(&chars_of(base_url)), &slash);
    push_all(&mut u, &chars_of("/chat/completions"));
    string_of(&u)
}

/// What the view is told when the endpoint refuses the request: the
/// status, a hint for the common refusals, and the start of the body.
pub open spec fn reject_spec(status: Seq<char>, code: u16, body: Seq<char>) -> Seq<char> {
    let hint = if code == 401 || code == 403 {
        "\n（看起来是 API Key 不对或者没权限）"@
    } else if code == 404 {
        "\n（模型名或 base_url 可能写错了）"@
    } else if code == 429 {
        "\n（触发限流了，缓一缓）"@
    } else {
        ""@
    };
    "请求被拒绝 "@ + status + hint + "\n"@ + truncate_spec(body, 600)
}

/// What the view is told when the endpoint refuses the request; `status`
/// is the status as HTTP writes it (`404 Not Found`), `code` its number.
pub fn reject_message(status: &str, code: u16, body: &str) -> (r: String)
    ensures
        r@ == reject_spec(status@, code, body@),
{
    let hint: &str = if code == 401 || code == 403 {
        "\n（看起来是 API Key 不对或者没权限）"
    } else if code == 404 {
        "\n（模型名或 base_url 可能写错了）"
    } else if code == 429 {
        "\n（触发限流了，缓一缓）"
    } else {
        ""
    };
    let mut out = chars_of("请求被拒绝 ");
    push_all(&mut out, &chars_of(status));
    push_all(&mut out, &chars_of(hint));
    push_all(&mut out, &chars_of("\n"));
    push_all(&mut out, &chars_of(truncate(body, 600).as_str()));
    string_of(&out)
}

// ───────────────────────── the system prompt ─────────────────────────

/// What goes into the prompt for one attached note.
pub open spec fn ref_section(name: Seq<char>, text: Seq<char>) -> Seq<char> {
    let trimmed = if text.len() > REF_CHAR_BUDGET {
        text.take(REF_CHAR_BUDGET as int)
    } else {
        text
    };
    let more = if text.len() > REF_CHAR_BUDGET {
        "\n…（已截断）"@
    } else {
        ""@
    };
    "\n--- 笔记「"@ + name + "」开始 ---\n"@ + trimmed + more + "\n--- 笔记「"@ + name
        + "」结束 ---\n"@
}

pub open spec fn refs_header() -> Seq<char> {
    "\n\n# 上下文笔记\n下面是用户挂载过来的笔记原文，请把它当作事实依据，不要凭空编造其中没有的内容。\n"@
}

/// The sections for the attached notes that could be read, in order, up
/// to `max` of them, and the names of those used.
pub open spec fn ref_sections(
    refs: Seq<Seq<char>>,
    texts: Seq<Option<Seq<char>>>,
    max: nat,
) -> (Seq<char>, Seq<Seq<char>>)
    decreases refs.len(),
{
    if refs.len() == 0 || texts.len() == 0 {
        (seq![], seq![])
    } else {
        let (body, used) = ref_sections(refs.drop_last(), texts.drop_last(), max);
        if used.len() >= max {
            (body, used)
        } else {
            match texts.last() {
                Some(t) => (body + ref_section(refs.last(), t), used.push(refs.last())),
                None => (body, used),
            }
        }
    }
}

pub open spec fn opt_texts(v: Seq<Option<String>>) -> Seq<Option<Seq<char>>> {
    v.map_values(
        |o: Option<String>|
            match o {
                Some(s) => Some(s@),
                None => None,
            },
    )
}

/// The system prompt: the configured one, then, when notes are attached,
/// a header and a section for each note that could be read (`texts[i]` is
/// the text of `refs[i]`, `None` if it could not be read), no more than
/// `max_refs`; and the names of the notes used.
pub fn build_system_prompt(
    base: &str,
    max_refs: usize,
    refs: &Vec<String>,
    texts: &Vec<Option<String>>,
) -> (r: (String, Vec<String>))
    requires
        texts@.len() == refs@.len(),
    ensures
        ({
            let (body, used) = ref_sections(crate::text::strs(refs@), opt_texts(texts@), max_refs as nat);
            &&& r.0@ == (if refs@.len() == 0 {
                base@
            } else {
                base@ + refs_header() + body
            })
            &&& crate::text::strs(r.1@) == used
        }),
{
    let mut sys = chars_of(base);
    let mut used: Vec<String> = Vec::new();
    if refs.len() == 0 {
        assert(crate::text::strs(used@) =~= Seq::<Seq<char>>::empty());
        return (string_of(&sys), used);
    }
    push_all(&mut sys, &chars_of("\n\n# 上下文笔记\n下面是用户挂载过来的笔记原文，请把它当作事实依据，不要凭空编造其中没有的内容。\n"));
    let ghost top = sys@;
    let ghost rv = crate::text::strs(refs@);
    let ghost tv = opt_texts(texts@);
    let mut i: usize = 0;
    assert(rv.take(0) =~= Seq::<Seq<char>>::empty());
    assert(tv.take(0) =~= Seq::<Option<Seq<char>>>::empty());
    assert(sys@ =~= top + Seq::<char>::empty());
    assert(crate::text::strs(used@) =~= Seq::<Seq<char>>::empty());
    while i < refs.len()
        invariant
            0 <= i <= refs@.len(),
            texts@.len() == refs@.len(),
            rv == crate::text::strs(refs@),
            tv == opt_texts(texts@),
            sys@ == top + ref_sections(rv.take(i as int), tv.take(i as int), max_refs as nat).0,
            crate::text::strs(used@) == ref_sections(rv.take(i as int), tv.take(i as int), max_refs as nat).1,
        decreases refs.len() - i,
    {
        assert(rv.take(i + 1).drop_last() =~= rv.take(i as int));
        assert(tv.take(i + 1).drop_last() =~= tv.take(i as int));
        assert(rv.take(i + 1).last() == refs@[i as int]@);
        assert(tv.take(i + 1).last() == opt_texts(texts@)[i as int]);
        if used.len() < max_refs {
            match &texts[i] {
                Some(t) => {
                    let tc = chars_of(t.as_str());
                    let name = chars_of(refs[i].as_str());
                    let ghost before = sys@;
                    push_all(&mut sys, &chars_of("\n--- 笔记「"));
                    push_all(&mut sys, &name);
                    push_all(&mut sys, &chars_of("」开始 ---\n"));
                    if tc.len() > REF_CHAR_BUDGET {
                        push_all(&mut sys, &slice_chars(&tc, 0, REF_CHAR_BUDGET));
                        push_all(&mut sys, &chars_of("\n…（已截断）"));
                    } else {
                        push_all(&mut sys, &tc);
                        proof {
                            reveal_strlit("");
                        }
                        push_all(&mut sys, &chars_of(""));
                    }
                    push_all(&mut sys, &chars_of("\n--- 笔记「"));
                    push_all(&mut sys, &name);
                    push_all(&mut sys, &chars_of("」结束 ---\n"));
                    assert(sys@ =~= before + ref_section(refs@[i as int]@, t@));
                    let ghost ub = crate::text::strs(used@);
                    used.push(refs[i].clone());
                    assert(crate::text::strs(used@) =~= ub.push(refs@[i as int]@));
                },
                None => {},
            }
        }
        i += 1;
    }
    assert(rv.take(rv.len() as int) =~= rv);
    assert(tv.take(tv.len() as int) =~= tv);
    (string_of(&sys), used)
}


// ───────────────────────── the stream ─────────────────────────

/// What `String::from_utf8_lossy` gives for a byte string.
pub uninterp spec fn utf8_lossy(bytes: Seq<u8>) -> Seq<char>;

/// std's `String::from_utf8_lossy`; claims only that the result is the
/// named function of the bytes.
#[verifier::external_body]
fn decode_lossy(bytes: &[u8]) -> (r: String)
    ensures
        r@ == utf8_lossy(bytes@),
{
    String::from_utf8_lossy(bytes).into_owned()
}

/// What serde_json reads of one streamed object: whether it has an
/// `error` (with its `message` where that is a string), and the
/// `reasoning_content` and `content` of `choices[0].delta` where they are
/// strings; `None` where the text is not JSON.
pub uninterp spec fn sse_fields(data: Seq<char>) -> Option<
    (Option<Option<Seq<char>>>, Option<Seq<char>>, Option<Seq<char>>),
>;

pub open spec fn opt_str(o: Option<String>) -> Option<Seq<char>> {
    match o {
        Some(s) => Some(s@),
        None => None,
    }
}

/// Reads one streamed object with `serde_json::from_str` and picks out the
/// fields above with `Value::get`, indexing and `Value::as_str`; claims
/// only that the result is the named function of the text.
#[verifier::external_body]
fn read_sse_fields(data: &str) -> (r: Option<(Option<Option<String>>, Option<String>, Option<String>)>)
    ensures
        match r {
            Some((e, rc, c)) => sse_fields(data@) == Some(
                ((match e {
                    Some(m) => Some(opt_str(m)),
                    None => None,
                }), opt_str(rc), opt_str(c)),
            ),
            None => sse_fields(data@) is None,
        },
{
    let v: serde_json::Value = match serde_json::from_str(data) {
        Ok(v) => v,
        Err(_) => return None,
    };
    let e = v.get("error").map(|x| x.get("message").and_then(serde_json::Value::as_str).map(str::to_string));
    let d = &v["choices"][0]["delta"];
    let rc = d.get("reasoning_content").and_then(serde_json::Value::as_str).map(str::to_string);
    let c = d.get("content").and_then(serde_json::Value::as_str).map(str::to_string);
    Some((e, rc, c))
}

/// `evs` before what `t` gives.
pub open spec fn prepend(
    evs: Seq<AiEventSpec>,
    t: (Seq<AiEventSpec>, Seq<u8>, nat, bool, bool),
) -> (Seq<AiEventSpec>, Seq<u8>, nat, bool, bool) {
    (evs + t.0, t.1, t.2, t.3, t.4)
}

/// What one line of the stream gives, with `chars` characters of the
/// reply counted so far: its events, the new count, whether it said the
/// reply is done, and whether the stream must stop (an error).
///
/// Blank lines and comments (`:`) give nothing, and so does any line that
/// is not `data:`; `data: [DONE]` says the reply is done; an object with
/// an `error` stops the stream; otherwise its non-empty reasoning and
/// content come out, the content counted.
#[verifier::opaque]
pub open spec fn line_step(text: Seq<char>, chars: nat) -> (Seq<AiEventSpec>, nat, bool, bool) {
    let t = trim(text);
    if t.len() == 0 || t[0] == ':' || !is_prefix("data:"@, t) {
        (seq![], chars, false, false)
    } else {
        let data = trim(t.skip(5));
        if data == "[DONE]"@ {
            (seq![AiEventSpec::Done { chars }], chars, true, false)
        } else {
            match sse_fields(data) {
                None => (seq![], chars, false, false),
                Some((err, rc, c)) => match err {
                    Some(m) => (
                        seq![
                            AiEventSpec::Error {
                                message: match m {
                                    Some(x) => x,
                                    None => "未知错误"@,
                                },
                            },
                        ],
                        chars,
                        false,
                        true,
                    ),
                    None => {
                        let r = match rc {
                            Some(x) => if x.len() > 0 {
                                seq![AiEventSpec::Reasoning { text: x }]
                            } else {
                                seq![]
                            },
                            None => seq![],
                        };
                        match c {
                            Some(x) => if x.len() > 0 {
                                let n = chars + x.len();
                                (
                                    r + seq![AiEventSpec::Delta { text: x }],
                                    if n > usize::MAX { usize::MAX as nat } else { n },
                                    false,
                                    false,
                                )
                            } else {
                                (r, chars, false, false)
                            },
                            None => (r, chars, false, false),
                        }
                    },
                },
            }
        }
    }
}

/// The position of the first line break.
pub open spec fn first_newline(b: Seq<u8>) -> Option<int> {
    if exists|i: int| 0 <= i < b.len() && b[i] == 10u8 {
        Some(choose|i: int| 0 <= i < b.len() && b[i] == 10u8 && forall|j: int| 0 <= j < i ==> b[j] != 10u8)
    } else {
        None
    }
}

/// Every complete line of `raw`, in order, until one stops the stream:
/// the events, the bytes left over, the count, whether the reply was said
/// to be done, and whether the stream must stop.
#[verifier::opaque]
pub open spec fn drain_lines(raw: Seq<u8>, chars: nat, done: bool) -> (Seq<AiEventSpec>, Seq<u8>, nat, bool, bool)
    decreases raw.len(),
{
    match first_newline(raw) {
        None => (seq![], raw, chars, done, false),
        Some(p) => if 0 <= p < raw.len() {
            let (evs, c2, d, stop) = line_step(utf8_lossy(raw.take(p + 1)), chars);
            if stop {
                (evs, raw.skip(p + 1), c2, done || d, true)
            } else {
                prepend(evs, drain_lines(raw.skip(p + 1), c2, done || d))
            }
        } else {
            (seq![], raw, chars, done, false)
        },
    }
}

pub proof fn lemma_drain_none(raw: Seq<u8>, chars: nat, done: bool)
    requires
        first_newline(raw) is None,
    ensures
        drain_lines(raw, chars, done) == (Seq::<AiEventSpec>::empty(), raw, chars, done, false),
{
    reveal(drain_lines);
}

pub proof fn lemma_drain_line(raw: Seq<u8>, chars: nat, done: bool, p: int)
    requires
        first_newline(raw) == Some(p),
        0 <= p < raw.len(),
    ensures
        ({
            let (evs, c2, d, stop) = line_step(utf8_lossy(raw.take(p + 1)), chars);
            drain_lines(raw, chars, done) == if stop {
                (evs, raw.skip(p + 1), c2, done || d, true)
            } else {
                prepend(evs, drain_lines(raw.skip(p + 1), c2, done || d))
            }
        }),
{
    reveal(drain_lines);
}

/// Turns the stream's bytes into events, a chunk at a time; only complete
/// lines are read, so that a character split between chunks is not lost.
pub struct SseDecoder {
    raw: Vec<u8>,
    chars: usize,
    done_sent: bool,
}

impl View for SseDecoder {
    type V = (Seq<u8>, nat, bool);

    closed spec fn view(&self) -> (Seq<u8>, nat, bool) {
        (self.raw@, self.chars as nat, self.done_sent)
    }
}

fn line_step_exec(text: &str, chars: usize) -> (r: (Vec<AiEvent>, usize, bool, bool))
    ensures
        ({
            let (evs, c, d, stop) = line_step(text@, chars as nat);
            events_view(r.0@) == evs && r.1 as nat == c && r.2 == d && r.3 == stop
        }),
{
    reveal(line_step);
    let mut out: Vec<AiEvent> = Vec::new();
    let t = trim_exec(&chars_of(text));
    if t.len() == 0 || t[0] == ':' || !crate::text::starts_with(&t, &chars_of("data:")) {
        assert(events_view(out@) =~= Seq::<AiEventSpec>::empty());
        return (out, chars, false, false);
    }
    proof {
        reveal_strlit("data:");
    }
    let tail = slice_chars(&t, 5, t.len());
    assert(tail@ =~= t@.skip(5));
    let data = trim_exec(&tail);
    let data_s = string_of(&data);
    if chars_eq(&data, &chars_of("[DONE]")) {
        out.push(AiEvent::Done { chars });
        assert(events_view(out@) =~= seq![AiEventSpec::Done { chars: chars as nat }]);
        return (out, chars, true, false);
    }
    match read_sse_fields(data_s.as_str()) {
        None => {
            assert(events_view(out@) =~= Seq::<AiEventSpec>::empty());
            (out, chars, false, false)
        },
        Some((err, rc, c)) => match err {
            Some(m) => {
                let message = match m {
                    Some(x) => x,
                    None => "未知错误".to_owned(),
                };
                out.push(AiEvent::Error { message });
                assert(events_view(out@) =~= seq![AiEvent::Error { message: out@[0]->Error_message }@]);
                (out, chars, false, true)
            },
            None => {
                match rc {
                    Some(x) => {
                        if chars_of(x.as_str()).len() > 0 {
                            out.push(AiEvent::Reasoning { text: x });
                        }
                    },
                    None => {},
                }
                let ghost r = events_view(out@);
                match c {
                    Some(x) => {
                        let n = chars_of(x.as_str()).len();
                        if n > 0 {
                            let nc = chars.saturating_add(n);
                            out.push(AiEvent::Delta { text: x });
                            assert(events_view(out@) =~= r + seq![out@[out@.len() - 1]@]);
                            (out, nc, false, false)
                        } else {
                            (out, chars, false, false)
                        }
                    },
                    None => (out, chars, false, false),
                }
            },
        },
    }
}

/// The first complete line of `raw` (with its line break) and what
/// follows it.
fn take_line(raw: &Vec<u8>) -> (r: Option<(Vec<u8>, Vec<u8>)>)
    ensures
        match first_newline(raw@) {
            None => r is None,
            Some(p) => 0 <= p < raw@.len() && r is Some && r->Some_0.0@ == raw@.take(p + 1) && r->Some_0.1@ == raw@.skip(p + 1),
        },
{
    let mut p: usize = 0;
    while p < raw.len() && raw[p] != 10u8
        invariant
            0 <= p <= raw@.len(),
            forall|j: int| 0 <= j < p ==> raw@[j] != 10u8,
        decreases raw.len() - p,
    {
        p += 1;
    }
    if p == raw.len() {
        return None;
    }
    proof {
        let q = choose|i: int| 0 <= i < raw@.len() && raw@[i] == 10u8 && forall|j: int| 0 <= j < i ==> raw@[j] != 10u8;
        assert(raw@[p as int] == 10u8);
        if q < p {
            assert(raw@[q] != 10u8);
        } else if q > p {
            assert(raw@[p as int] != 10u8);
        }
        assert(first_newline(raw@) == Some(p as int));
    }
    let mut line: Vec<u8> = Vec::new();
    let mut rest: Vec<u8> = Vec::new();
    let mut k: usize = 0;
    while k < raw.len()
        invariant
            0 <= k <= raw@.len(),
            p < raw@.len(),
            line@ == raw@.take(if k <= p + 1 { k as int } else { p + 1 }),
            rest@ == raw@.subrange(p + 1, if k <= p + 1 { p + 1 } else { k as int }),
        decreases raw.len() - k,
    {
        if k <= p {
            line.push(raw[k]);
            assert(raw@.take(k + 1) =~= raw@.take(k as int).push(raw@[k as int]));
        } else {
            rest.push(raw[k]);
            assert(raw@.subrange(p + 1, k + 1) =~= raw@.subrange(p + 1, k as int).push(raw@[k as int]));
        }
        k += 1;
    }
    assert(rest@ =~= raw@.skip(p + 1));
    Some((line, rest))
}

fn append_bytes(raw: &mut Vec<u8>, chunk: &[u8])
    ensures
        final(raw)@ == old(raw)@ + chunk@,
{
    let ghost start = raw@;
    let mut i: usize = 0;
    while i < chunk.len()
        invariant
            0 <= i <= chunk@.len(),
            raw@ == start + chunk@.take(i as int),
        decreases chunk.len() - i,
    {
        raw.push(chunk[i]);
        assert(chunk@.take(i + 1) =~= chunk@.take(i as int).push(chunk@[i as int]));
        i += 1;
    }
    assert(chunk@.take(chunk@.len() as int) =~= chunk@);
}

fn append_events(events: &mut Vec<AiEvent>, evs: &Vec<AiEvent>)
    ensures
        events_view(final(events)@) == events_view(old(events)@) + events_view(evs@),
{
    let ghost before = events_view(events@);
    let ghost evv = events_view(evs@);
    let mut j: usize = 0;
    assert(before + evv.take(0) =~= before);
    while j < evs.len()
        invariant
            0 <= j <= evs@.len(),
            evv == events_view(evs@),
            events_view(events@) == before + evv.take(j as int),
        decreases evs.len() - j,
    {
        let e = evs[j].clone_event();
        let ghost mid = events_view(events@);
        events.push(e);
        assert(events_view(events@) =~= mid.push(evv[j as int]));
        assert(evv.take(j + 1) =~= evv.take(j as int).push(evv[j as int]));
        j += 1;
    }
    assert(evv.take(evv.len() as int) =~= evv);
}

impl SseDecoder {
    pub fn new() -> (d: SseDecoder)
        ensures
            d@ == (Seq::<u8>::empty(), 0nat, false),
    {
        SseDecoder { raw: Vec::new(), chars: 0, done_sent: false }
    }

    /// Reads the complete lines that `chunk` finishes: their events, and
    /// whether the stream must stop.
    pub fn feed(&mut self, chunk: &[u8]) -> (r: (Vec<AiEvent>, bool))
        ensures
            ({
                let (evs, rest, c, d, stop) = drain_lines(
                    old(self)@.0 + chunk@,
                    old(self)@.1,
                    old(self)@.2,
                );
                &&& events_view(r.0@) == evs
                &&& r.1 == stop
                &&& final(self)@ == (rest, c, d)
            }),
    {
        append_bytes(&mut self.raw, chunk);
        let ghost all = drain_lines(self.raw@, self.chars as nat, self.done_sent);
        let mut events: Vec<AiEvent> = Vec::new();
        assert(events_view(events@) + all.0 =~= all.0);
        assert(all == prepend(events_view(events@), all));
        loop
            invariant
                all == prepend(events_view(events@), drain_lines(self.raw@, self.chars as nat, self.done_sent)),
                all == drain_lines(old(self)@.0 + chunk@, old(self)@.1, old(self)@.2),
            decreases self.raw@.len(),
        {
            let ghost cur = self.raw@;
            match take_line(&self.raw) {
                None => {
                    proof {
                        lemma_drain_none(cur, self.chars as nat, self.done_sent);
                    }
                    assert(events_view(events@) + Seq::<AiEventSpec>::empty() =~= events_view(events@));
                    return (events, false);
                },
                Some((line, rest)) => {
                    let ghost p = first_newline(cur)->Some_0;
                    proof {
                        lemma_drain_line(cur, self.chars as nat, self.done_sent, p);
                    }
                    let text = decode_lossy(&line);
                    let (evs, c2, d, stop) = line_step_exec(text.as_str(), self.chars);
                    let ghost before = events_view(events@);
                    append_events(&mut events, &evs);
                    self.raw = rest;
                    self.chars = c2;
                    self.done_sent = self.done_sent || d;
                    if stop {
                        return (events, true);
                    }
                    proof {
                        let tail = drain_lines(self.raw@, self.chars as nat, self.done_sent);
                        assert(events_view(events@) + tail.0 =~= before + (events_view(evs@) + tail.0));
                    }
                },
            }
        }
    }

    /// What ends the reply when the stream closes: `Done`, unless it was
    /// already sent.
    pub fn finish(&self) -> (r: Option<AiEvent>)
        ensures
            match r {
                Some(e) => !self@.2 && e@ == AiEventSpec::Done { chars: self@.1 },
                None => self@.2,
            },
    {
        if self.done_sent {
            None
        } else {
            Some(AiEvent::Done { chars: self.chars })
        }
    }
}

impl AiEvent {
    /// A copy of the event.
    pub fn clone_event(&self) -> (r: AiEvent)
        ensures
            r@ == self@,
    {
        match self {
            AiEvent::Delta { text } => AiEvent::Delta { text: text.clone() },
            AiEvent::Reasoning { text } => AiEvent::Reasoning { text: text.clone() },
            AiEvent::Done { chars } => AiEvent::Done { chars: *chars },
            AiEvent::Error { message } => AiEvent::Error { message: message.clone() },
        }
    }
}

// ───────────────────────── the connection test ─────────────────────────

/// What serde_json reads of a non-streamed reply: the text of
/// `choices[0].message.content` where it is a string, or serde_json's
/// message where the reply is not JSON.
pub uninterp spec fn reply_content(body: Seq<char>) -> Result<Option<Seq<char>>, Seq<char>>;

/// Reads a reply with `serde_json::from_str` and picks
/// `choices[0].message.content` with indexing and `Value::as_str`; claims
/// only that the result is the named function of the text.
#[verifier::external_body]
fn read_reply_content(body: &str) -> (r: Result<Option<String>, String>)
    ensures
        match r {
            Ok(c) => reply_content(body@) == Ok::<Option<Seq<char>>, Seq<char>>(opt_str(c)),
            Err(e) => reply_content(body@) == Err::<Option<Seq<char>>, Seq<char>>(e@),
        },
{
    match serde_json::from_str::<serde_json::Value>(body) {
        Ok(v) => Ok(v["choices"][0]["message"]["content"].as_str().map(str::to_string)),
        Err(e) => Err(e.to_string()),
    }
}

/// What the connection test reports: the refusal with the start of the
/// body, a reply that does not read, or the model's (trimmed) answer.
pub open spec fn test_outcome_spec(model: Seq<char>, ok: bool, status: Seq<char>, body: Seq<char>) -> Result<
    Seq<char>,
    Seq<char>,
> {
    if !ok {
        Err(status + ": "@ + truncate_spec(body, 400))
    } else {
        match reply_content(body) {
            Err(e) => Err("响应解析失败："@ + e),
            Ok(c) => {
                let reply = trim(
                    match c {
                        Some(t) => t,
                        None => "(无内容)"@,
                    },
                );
                Ok("模型 "@ + model + " 响应正常："@ + reply)
            },
        }
    }
}

/// What the connection test reports for a reply with status `status`
/// (`ok` when it is a success) and body `body`.
pub fn test_outcome(model: &str, ok: bool, status: &str, body: &str) -> (r: Result<String, String>)
    ensures
        match r {
            Ok(m) => test_outcome_spec(model@, ok, status@, body@) == Ok::<Seq<char>, Seq<char>>(m@),
            Err(e) => test_outcome_spec(model@, ok, status@, body@) == Err::<Seq<char>, Seq<char>>(e@),
        },
{
    if !ok {
        let mut m = chars_of(status);
        push_all(&mut m, &chars_of(": "));
        push_all(&mut m, &chars_of(truncate(body, 400).as_str()));
        return Err(string_of(&m));
    }
    match read_reply_content(body) {
        Err(e) => {
            let mut m = chars_of("响应解析失败：");
            push_all(&mut m, &chars_of(e.as_str()));
            Err(string_of(&m))
        },
        Ok(c) => {
            let text = match c {
                Some(t) => t,
                None => "(无内容)".to_owned(),
            };
            let reply = trim_exec(&chars_of(text.as_str()));
            let mut m = chars_of("模型 ");
            push_all(&mut m, &chars_of(model));
            push_all(&mut m, &chars_of(" 响应正常："));
            push_all(&mut m, &reply);
            Ok(string_of(&m))
        },
    }
}

// ───────────────────────── laws ─────────────────────────

proof fn lemma_first_newline_prefix(x: Seq<u8>, y: Seq<u8>, p: int)
    requires
        first_newline(x) == Some(p),
    ensures
        first_newline(x + y) == Some(p),
        0 <= p < x.len(),
{
    let s = x + y;
    let q0 = choose|i: int| 0 <= i < x.len() && x[i] == 10u8 && forall|j: int| 0 <= j < i ==> x[j] != 10u8;
    assert(0 <= p < x.len() && x[p] == 10u8 && forall|j: int| 0 <= j < p ==> x[j] != 10u8) by {
        assert(exists|i: int| 0 <= i < x.len() && x[i] == 10u8);
        let i0 = choose|i: int| 0 <= i < x.len() && x[i] == 10u8;
        assert(exists|i: int| 0 <= i < x.len() && x[i] == 10u8 && forall|j: int| 0 <= j < i ==> x[j] != 10u8) by {
            lemma_least_newline(x, i0);
        }
    }
    assert(s[p] == 10u8);
    assert(exists|i: int| 0 <= i < s.len() && s[i] == 10u8);
    let q = choose|i: int| 0 <= i < s.len() && s[i] == 10u8 && forall|j: int| 0 <= j < i ==> s[j] != 10u8;
    assert(exists|i: int| 0 <= i < s.len() && s[i] == 10u8 && forall|j: int| 0 <= j < i ==> s[j] != 10u8) by {
        assert forall|j: int| 0 <= j < p implies s[j] != 10u8 by {
            assert(s[j] == x[j]);
        }
    }
    if q < p {
        assert(s[q] == x[q]);
    } else if q > p {
        assert(s[p] != 10u8);
    }
}

/// Where a line break occurs, there is a first one.
proof fn lemma_least_newline(x: Seq<u8>, i0: int)
    requires
        0 <= i0 < x.len(),
        x[i0] == 10u8,
    ensures
        exists|i: int| 0 <= i < x.len() && x[i] == 10u8 && forall|j: int| 0 <= j < i ==> x[j] != 10u8,
    decreases i0,
{
    if exists|j: int| 0 <= j < i0 && x[j] == 10u8 {
        let j = choose|j: int| 0 <= j < i0 && x[j] == 10u8;
        lemma_least_newline(x, j);
    } else {
        assert(forall|j: int| 0 <= j < i0 ==> x[j] != 10u8);
    }
}

/// Feeding the stream's bytes in two pieces gives what feeding them at
/// once gives, unless the first piece already stopped the stream: the
/// first piece's events, then those of the leftover with the second
/// piece, and the same leftover bytes, count and state.
pub proof fn law_chunks_do_not_matter(x: Seq<u8>, y: Seq<u8>, chars: nat, done: bool)
    ensures
        ({
            let (e1, r1, c1, d1, s1) = drain_lines(x, chars, done);
            let (e2, r2, c2, d2, s2) = drain_lines(r1 + y, c1, d1);
            !s1 ==> drain_lines(x + y, chars, done) == (e1 + e2, r2, c2, d2, s2)
        }),
    decreases x.len(),
{
    match first_newline(x) {
        None => {
            lemma_drain_none(x, chars, done);
            let (e2, r2, c2, d2, s2) = drain_lines(x + y, chars, done);
            assert(Seq::<AiEventSpec>::empty() + e2 =~= e2);
        },
        Some(p) => {
            lemma_first_newline_prefix(x, y, p);
            lemma_drain_line(x, chars, done, p);
            lemma_drain_line(x + y, chars, done, p);
            assert((x + y).take(p + 1) =~= x.take(p + 1));
            let (evs, c2, d, stop) = line_step(utf8_lossy(x.take(p + 1)), chars);
            if !stop {
                let rest = x.skip(p + 1);
                assert((x + y).skip(p + 1) =~= rest + y);
                law_chunks_do_not_matter(rest, y, c2, done || d);
                let (e1, r1, c1, d1, s1) = drain_lines(rest, c2, done || d);
                let (e2, r2, c22, d2, s2) = drain_lines(r1 + y, c1, d1);
                assert(evs + (e1 + e2) =~= (evs + e1) + e2);
            }
        },
    }
}
} // verus!
