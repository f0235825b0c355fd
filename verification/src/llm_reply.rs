//! The exchange with the language model's service: the address, what its reply
//! says, and the report of the call.
use vstd::prelude::*;
use vstd::string::*;

use crate::json::{
    is_json, json_document, json_integer, json_integer_at, json_length, json_length_at, json_string,
    json_string_at,
};
use crate::text::{
    begins_with, chars_of, contains_text, copied, dec, dec_text, ends_with, int_dec, int_text,
    law_parts_are_found, opt_text, same_text, string_between,
};

verus! {

// ---------------------------------------------------------------------------
// Addresses
// ---------------------------------------------------------------------------
/// `s` without slashes at its end.
pub open spec fn without_slashes(s: Seq<char>) -> Seq<char>
    decreases s.len(),
{
    if s.len() > 0 && s.last() == '/' {
        without_slashes(s.drop_last())
    } else {
        s
    }
}

/// `s` without slashes at its end.
pub fn trim_slashes(s: &str) -> (r: String)
    ensures
        r@ == without_slashes(s@),
{
    let v = chars_of(s);
    let mut n: usize = v.len();
    assert(v@.take(n as int) =~= v@);
    while n > 0 && v[n - 1] == '/'
        invariant
            n <= v@.len(),
            without_slashes(v@) == without_slashes(v@.take(n as int)),
        decreases n,
    {
        assert(v@.take(n as int).drop_last() =~= v@.take(n - 1));
        n = n - 1;
    }
    assert(v@.subrange(0, n as int) =~= v@.take(n as int));
    string_between(&v, 0, n)
}

/// The address of the message endpoint under a base address.
pub fn messages_url(api_url: &str) -> (r: String)
    ensures
        r@ == without_slashes(api_url@) + "/v1/messages"@,
{
    let mut s: String = trim_slashes(api_url);
    s.append("/v1/messages");
    s
}

// ---------------------------------------------------------------------------
// Replies
// ---------------------------------------------------------------------------
/// One block of a reply's content.
#[derive(Debug)]
pub struct ReplyBlock {
    pub kind: Option<String>,
    pub text: Option<String>,
    pub thinking: Option<String>,
}

/// What a `ReplyBlock` holds.
pub struct BlockView {
    pub kind: Option<Seq<char>>,
    pub text: Option<Seq<char>>,
    pub thinking: Option<Seq<char>>,
}

impl View for ReplyBlock {
    type V = BlockView;

    open spec fn view(&self) -> BlockView {
        BlockView {
            kind: opt_text(self.kind),
            text: opt_text(self.text),
            thinking: opt_text(self.thinking),
        }
    }
}

/// What a list of blocks holds.
pub open spec fn block_views(s: Seq<ReplyBlock>) -> Seq<BlockView> {
    Seq::new(s.len(), |i: int| s[i]@)
}

/// What stands in a reply: the service's own status, the blocks of content,
/// and the first choice of a reply in the other known form.
#[derive(Debug)]
pub struct ReplyFacts {
    pub status_code: Option<i64>,
    pub status_msg: Option<String>,
    pub blocks: Vec<ReplyBlock>,
    pub choice: Option<String>,
}

/// What a `ReplyFacts` holds.
pub struct FactsView {
    pub status_code: Option<i64>,
    pub status_msg: Option<Seq<char>>,
    pub blocks: Seq<BlockView>,
    pub choice: Option<Seq<char>>,
}

impl View for ReplyFacts {
    type V = FactsView;

    open spec fn view(&self) -> FactsView {
        FactsView {
            status_code: self.status_code,
            status_msg: opt_text(self.status_msg),
            blocks: block_views(self.blocks@),
            choice: opt_text(self.choice),
        }
    }
}

/// What a reply comes down to.
#[derive(Debug)]
pub enum LlmReply {
    /// The service reports an error.
    ServiceError { message: String },
    /// There is no answer in it.
    Empty { reasoning: Option<String> },
    /// The answer, and the reasoning before it.
    Answer { raw_response: String, reasoning: Option<String> },
}

/// What an `LlmReply` holds.
pub enum ReplyView {
    ServiceError { message: Seq<char> },
    Empty { reasoning: Option<Seq<char>> },
    Answer { raw_response: Seq<char>, reasoning: Option<Seq<char>> },
}

impl View for LlmReply {
    type V = ReplyView;

    open spec fn view(&self) -> ReplyView {
        match self {
            LlmReply::ServiceError { message } => ReplyView::ServiceError { message: message@ },
            LlmReply::Empty { reasoning } => ReplyView::Empty { reasoning: opt_text(*reasoning) },
            LlmReply::Answer { raw_response, reasoning } => ReplyView::Answer {
                raw_response: raw_response@,
                reasoning: opt_text(*reasoning),
            },
        }
    }
}

/// The texts of the text blocks, one after the other.
pub open spec fn block_text(blocks: Seq<BlockView>) -> Seq<char>
    decreases blocks.len(),
{
    if blocks.len() == 0 {
        Seq::empty()
    } else {
        let b = blocks.last();
        let earlier = block_text(blocks.drop_last());
        if b.kind == Some("text"@) && b.text is Some {
            earlier + b.text->0
        } else {
            earlier
        }
    }
}

/// The last thought of the thinking blocks.
pub open spec fn block_reasoning(blocks: Seq<BlockView>) -> Option<Seq<char>>
    decreases blocks.len(),
{
    if blocks.len() == 0 {
        None
    } else {
        let b = blocks.last();
        if b.kind == Some("thinking"@) && b.thinking is Some {
            b.thinking
        } else {
            block_reasoning(blocks.drop_last())
        }
    }
}

/// The answer in a reply: its text blocks, or its first choice where those
/// hold nothing.
pub open spec fn answer_text(f: FactsView) -> Seq<char> {
    if block_text(f.blocks).len() > 0 {
        block_text(f.blocks)
    } else {
        match f.choice {
            Some(c) => c,
            None => Seq::empty(),
        }
    }
}

/// The message for an error of the service.
pub open spec fn service_error(code: i64, message: Option<Seq<char>>) -> Seq<char> {
    "MiniMax API error ("@ + int_dec(code as int) + "): "@ + (match message {
        Some(m) => m,
        None => "Unknown error"@,
    })
}

/// What a reply with these facts comes down to.
pub open spec fn reply_of(f: FactsView) -> ReplyView {
    if f.status_code is Some && f.status_code->0 != 0 {
        ReplyView::ServiceError { message: service_error(f.status_code->0, f.status_msg) }
    } else if answer_text(f).len() == 0 {
        ReplyView::Empty { reasoning: block_reasoning(f.blocks) }
    } else {
        ReplyView::Answer {
            raw_response: answer_text(f),
            reasoning: block_reasoning(f.blocks),
        }
    }
}

/// Decides what a reply with these facts comes down to.
pub fn settle_reply(f: &ReplyFacts) -> (r: LlmReply)
    ensures
        r@ == reply_of(f@),
{
    if let Some(code) = f.status_code {
        if code != 0 {
            let mut message: String = copied("MiniMax API error (");
            message.append(int_text(code as i128).as_str());
            message.append("): ");
            match &f.status_msg {
                Some(m) => message.append(m.as_str()),
                None => message.append("Unknown error"),
            }
            return LlmReply::ServiceError { message };
        }
    }
    let mut raw: String = String::new();
    let mut reasoning: Option<String> = None;
    let ghost all = block_views(f.blocks@);
    let mut i: usize = 0;
    assert(all.take(0) =~= Seq::empty());
    while i < f.blocks.len()
        invariant
            i <= f.blocks@.len(),
            all == block_views(f.blocks@),
            raw@ == block_text(all.take(i as int)),
            opt_text(reasoning) == block_reasoning(all.take(i as int)),
        decreases f.blocks.len() - i,
    {
        let b: &ReplyBlock = &f.blocks[i];
        assert(all.take(i + 1).drop_last() =~= all.take(i as int));
        assert(all.take(i + 1).last() == b@);
        if let Some(kind) = &b.kind {
            if same_text(kind.as_str(), "text") {
                proof {
                    reveal_strlit("text");
                    reveal_strlit("thinking");
                    assert("text"@.len() != "thinking"@.len());
                }
                if let Some(t) = &b.text {
                    raw.append(t.as_str());
                }
            } else if same_text(kind.as_str(), "thinking") {
                if let Some(t) = &b.thinking {
                    reasoning = Some(copied(t.as_str()));
                }
            }
        }
        i = i + 1;
    }
    assert(all.take(i as int) =~= all);
    if raw.as_str().is_empty() {
        if let Some(c) = &f.choice {
            raw = copied(c.as_str());
        }
    }
    if raw.as_str().is_empty() {
        LlmReply::Empty { reasoning }
    } else {
        LlmReply::Answer { raw_response: raw, reasoning }
    }
}

/// The place of a field of a block in a reply.
pub open spec fn block_pointer(i: nat, field: Seq<char>) -> Seq<char> {
    "/content/"@ + dec(i) + "/"@ + field
}

/// The blocks that stand in a reply.
pub open spec fn blocks_in(body: Seq<char>) -> Seq<BlockView> {
    let n: nat = match json_length(body, "/content"@) {
        Some(n) => n as nat,
        None => 0,
    };
    Seq::new(
        n,
        |i: int|
            BlockView {
                kind: json_string(body, block_pointer(i as nat, "type"@)),
                text: json_string(body, block_pointer(i as nat, "text"@)),
                thinking: json_string(body, block_pointer(i as nat, "thinking"@)),
            },
    )
}

/// What stands in a reply.
pub open spec fn facts_in(body: Seq<char>) -> FactsView {
    FactsView {
        status_code: json_integer(body, "/base_resp/status_code"@),
        status_msg: json_string(body, "/base_resp/status_msg"@),
        blocks: blocks_in(body),
        choice: if json_length(body, "/choices"@) is Some {
            json_string(body, "/choices/0/message/content"@)
        } else {
            None
        },
    }
}

fn block_pointer_text(i: usize, field: &str) -> (r: String)
    ensures
        r@ == block_pointer(i as nat, field@),
{
    let mut s: String = copied("/content/");
    s.append(dec_text(i as u128).as_str());
    s.append("/");
    s.append(field);
    s
}

/// Reads what stands in a reply; `None` where it is no JSON.
pub fn read_reply_facts(body: &str) -> (r: Option<ReplyFacts>)
    ensures
        match r {
            Some(f) => json_document(body@) && f@ == facts_in(body@),
            None => !json_document(body@),
        },
{
    if !is_json(body) {
        return None;
    }
    let status_code = json_integer_at(body, "/base_resp/status_code");
    let status_msg = json_string_at(body, "/base_resp/status_msg");
    let n: usize = match json_length_at(body, "/content") {
        Some(n) => n,
        None => 0,
    };
    let mut blocks: Vec<ReplyBlock> = Vec::new();
    let mut i: usize = 0;
    while i < n
        invariant
            i <= n,
            n == blocks_in(body@).len(),
            blocks@.len() == i,
            forall|j: int| 0 <= j < i ==> (#[trigger] blocks@[j])@ == blocks_in(body@)[j],
        decreases n - i,
    {
        let b = ReplyBlock {
            kind: json_string_at(body, block_pointer_text(i, "type").as_str()),
            text: json_string_at(body, block_pointer_text(i, "text").as_str()),
            thinking: json_string_at(body, block_pointer_text(i, "thinking").as_str()),
        };
        assert(b@ == blocks_in(body@)[i as int]);
        blocks.push(b);
        i = i + 1;
    }
    assert(block_views(blocks@) =~= blocks_in(body@));
    let choice = if json_length_at(body, "/choices").is_some() {
        json_string_at(body, "/choices/0/message/content")
    } else {
        None
    };
    Some(ReplyFacts { status_code, status_msg, blocks, choice })
}

/// Reads a reply: `None` where it is no JSON, and else what it comes down to.
pub fn read_reply(body: &str) -> (r: Option<LlmReply>)
    ensures
        match r {
            Some(x) => json_document(body@) && x@ == reply_of(facts_in(body@)),
            None => !json_document(body@),
        },
{
    match read_reply_facts(body) {
        Some(f) => Some(settle_reply(&f)),
        None => None,
    }
}

// ---------------------------------------------------------------------------
// Reports
// ---------------------------------------------------------------------------
/// How much a call used: counts of tokens as the service has them, and of
/// bytes of text.
#[derive(Debug, Clone, Copy, PartialEq, Eq, Structural)]
pub struct CallCounts {
    pub tokens_in: Option<i64>,
    pub tokens_out: Option<i64>,
    pub reasoning_tokens: Option<i64>,
    pub chars_in: Option<i64>,
    pub chars_out: Option<i64>,
    pub chars_reasoning: Option<i64>,
}

/// Reads the counts of tokens from a reply; the others are given.
pub fn read_counts(body: &str, chars_in: i64, chars_out: i64, chars_reasoning: i64) -> (r:
    CallCounts)
    ensures
        r == (CallCounts {
            tokens_in: json_integer(body@, "/usage/input_tokens"@),
            tokens_out: json_integer(body@, "/usage/output_tokens"@),
            reasoning_tokens: json_integer(body@, "/usage/reasoning_tokens"@),
            chars_in: Some(chars_in),
            chars_out: Some(chars_out),
            chars_reasoning: Some(chars_reasoning),
        }),
{
    CallCounts {
        tokens_in: json_integer_at(body, "/usage/input_tokens"),
        tokens_out: json_integer_at(body, "/usage/output_tokens"),
        reasoning_tokens: json_integer_at(body, "/usage/reasoning_tokens"),
        chars_in: Some(chars_in),
        chars_out: Some(chars_out),
        chars_reasoning: Some(chars_reasoning),
    }
}

/// The bytes that stand for themselves in a parameter of an address: letters
/// and digits of ASCII, and `-`, `.`, `_`, `~`.
pub open spec fn unreserved(b: u8) -> bool {
    ||| 0x30 <= b <= 0x39
    ||| 0x41 <= b <= 0x5A
    ||| 0x61 <= b <= 0x7A
    ||| b == 0x2D
    ||| b == 0x2E
    ||| b == 0x5F
    ||| b == 0x7E
}

/// The character of a hexadecimal digit, in upper case.
pub open spec fn upper_hex(d: int) -> char {
    if d < 10 {
        (0x30 + d) as char
    } else {
        (0x41 + d - 10) as char
    }
}

/// Bytes as they stand in a parameter of an address: each one that does not
/// stand for itself as a percent sign and two hexadecimal digits.
pub open spec fn percent_encoded(bytes: Seq<u8>) -> Seq<char>
    decreases bytes.len(),
{
    if bytes.len() == 0 {
        Seq::empty()
    } else {
        let b = bytes.last();
        let earlier = percent_encoded(bytes.drop_last());
        if unreserved(b) {
            earlier.push(b as char)
        } else {
            earlier + seq!['%', upper_hex(b as int / 16), upper_hex(b as int % 16)]
        }
    }
}

/// A text as it stands in a parameter of an address.
pub open spec fn url_form(s: Seq<char>) -> Seq<char> {
    percent_encoded(vstd::utf8::encode_utf8(s))
}

/// `urlencoding::encode`, as an owned string: every byte of the text in UTF-8
/// but letters, digits and `-`, `.`, `_`, `~` of ASCII becomes a percent sign
/// and two hexadecimal digits in upper case.
#[verifier::external_body]
fn url_encode(s: &str) -> (r: String)
    ensures
        r@ == url_form(s@),
{
    urlencoding::encode(s).into_owned()
}

/// A count as a parameter of an address; nothing where there is none.
pub open spec fn count_parameter(name: Seq<char>, count: Option<i64>) -> Seq<char> {
    match count {
        Some(n) => "&"@ + name + "="@ + int_dec(n as int),
        None => Seq::empty(),
    }
}

/// The address for the report of a call, with its parameters encoded.
pub open spec fn record_url_form(
    base: Seq<char>,
    provider: Seq<char>,
    model: Seq<char>,
    project: Seq<char>,
    c: CallCounts,
) -> Seq<char> {
    base + "/api/llm-usage/record?provider="@ + provider + "&model="@ + model + "&project="@
        + project + count_parameter("tokens_in"@, c.tokens_in) + count_parameter(
        "tokens_out"@,
        c.tokens_out,
    ) + count_parameter("reasoning_tokens"@, c.reasoning_tokens) + count_parameter(
        "chars_in"@,
        c.chars_in,
    ) + count_parameter("chars_out"@, c.chars_out) + count_parameter(
        "chars_reasoning"@,
        c.chars_reasoning,
    )
}

fn push_count(url: &mut String, name: &str, count: Option<i64>)
    ensures
        final(url)@ == old(url)@ + count_parameter(name@, count),
{
    let ghost before = url@;
    if let Some(n) = count {
        url.append("&");
        url.append(name);
        url.append("=");
        url.append(int_text(n as i128).as_str());
        assert(url@ =~= before + count_parameter(name@, count));
    } else {
        assert(before + count_parameter(name@, count) =~= before);
    }
}

/// The address for the report of a call, given its encoded parameters.
pub fn record_url_from(
    base: &str,
    provider: &str,
    model: &str,
    project: &str,
    c: &CallCounts,
) -> (r: String)
    ensures
        r@ == record_url_form(base@, provider@, model@, project@, *c),
{
    let mut url: String = copied(base);
    url.append("/api/llm-usage/record?provider=");
    url.append(provider);
    url.append("&model=");
    url.append(model);
    url.append("&project=");
    url.append(project);
    push_count(&mut url, "tokens_in", c.tokens_in);
    push_count(&mut url, "tokens_out", c.tokens_out);
    push_count(&mut url, "reasoning_tokens", c.reasoning_tokens);
    push_count(&mut url, "chars_in", c.chars_in);
    push_count(&mut url, "chars_out", c.chars_out);
    push_count(&mut url, "chars_reasoning", c.chars_reasoning);
    url
}

/// The address for the report of a call.
pub fn record_url(base: &str, provider: &str, model: &str, project: &str, c: &CallCounts) -> (r:
    String)
    ensures
        r@ == record_url_form(
            without_slashes(base@),
            url_form(provider@),
            url_form(model@),
            url_form(project@),
            *c,
        ),
{
    record_url_from(
        trim_slashes(base).as_str(),
        url_encode(provider).as_str(),
        url_encode(model).as_str(),
        url_encode(project).as_str(),
        c,
    )
}

/// How a report of a call went.
#[derive(Debug, Clone, Copy, PartialEq, Eq, Structural)]
pub enum ReportOutcome {
    /// No token is configured: nothing was sent.
    NoToken,
    /// The report was taken.
    Accepted,
    /// It was refused, or could not be sent.
    Failed,
}

/// Keeps warnings of failed reports down to one for each outage.
#[derive(Debug, Clone, Copy, PartialEq, Eq, Structural)]
pub struct ReportWarnings {
    pub warned: bool,
}

impl ReportWarnings {
    /// Takes note of how a report went. The result says whether to warn of it:
    /// the first time that reports fail, and again after one was taken.
    pub fn note(&mut self, outcome: ReportOutcome) -> (r: bool)
        ensures
            r == (outcome != ReportOutcome::Accepted && !old(self).warned),
            final(self).warned == (outcome != ReportOutcome::Accepted),
    {
        match outcome {
            ReportOutcome::Accepted => {
                self.warned = false;
                false
            },
            _ => {
                let first: bool = !self.warned;
                self.warned = true;
                first
            },
        }
    }
}

// ---------------------------------------------------------------------------
// Laws
// ---------------------------------------------------------------------------
/// All slashes at the end of an address are taken away, and nothing else.
pub proof fn law_without_slashes(core: Seq<char>, slashes: Seq<char>)
    requires
        forall|i: int| 0 <= i < slashes.len() ==> slashes[i] == '/',
        core.len() == 0 || core.last() != '/',
    ensures
        without_slashes(core + slashes) == core,
    decreases slashes.len(),
{
    let s = core + slashes;
    if slashes.len() > 0 {
        let d = slashes.drop_last();
        assert(s.last() == slashes[slashes.len() - 1]);
        assert forall|i: int| 0 <= i < d.len() implies d[i] == '/' by {
            assert(d[i] == slashes[i]);
        }
        law_without_slashes(core, d);
        assert(s.drop_last() =~= core + d);
    } else {
        assert(s =~= core);
    }
}

/// The texts of the text blocks stand one after the other, and the last thought of
/// the thinking blocks is the reasoning; other blocks count for neither.
pub proof fn law_blocks(blocks: Seq<BlockView>, b: BlockView)
    ensures
        block_text(Seq::empty()).len() == 0,
        block_reasoning(Seq::empty()) is None,
        b.kind == Some("text"@) && b.text is Some ==> block_text(blocks.push(b)) == block_text(
            blocks,
        ) + b.text->0,
        b.kind != Some("text"@) || b.text is None ==> block_text(blocks.push(b)) == block_text(
            blocks,
        ),
        b.kind == Some("thinking"@) && b.thinking is Some ==> block_reasoning(blocks.push(b))
            == b.thinking,
        b.kind != Some("thinking"@) || b.thinking is None ==> block_reasoning(blocks.push(b))
            == block_reasoning(blocks),
{
    assert(blocks.push(b).drop_last() =~= blocks);
}

/// A reply with a status other than 0 is an error of the service, with the status
/// and its message. Any other is answered by its text blocks or, where these hold
/// nothing, by its first choice; without either it is empty. The thoughts come
/// with it.
pub proof fn law_what_replies_come_down_to(f: FactsView)
    ensures
        f.status_code is Some && f.status_code->0 != 0 ==> reply_of(f) is ServiceError
            && contains_text(reply_of(f)->message, int_dec(f.status_code->0 as int)) && (
        f.status_msg is Some ==> ends_with(reply_of(f)->message, f.status_msg->0)),
        f.status_code is None || f.status_code->0 == 0 ==> {
            let text = block_text(f.blocks);
            if text.len() > 0 {
                reply_of(f) == (ReplyView::Answer {
                    raw_response: text,
                    reasoning: block_reasoning(f.blocks),
                })
            } else if f.choice is Some && f.choice->0.len() > 0 {
                reply_of(f) == (ReplyView::Answer {
                    raw_response: f.choice->0,
                    reasoning: block_reasoning(f.blocks),
                })
            } else {
                reply_of(f) == (ReplyView::Empty { reasoning: block_reasoning(f.blocks) })
            }
        },
{
    if f.status_code is Some && f.status_code->0 != 0 {
        let code = int_dec(f.status_code->0 as int);
        let shown = match f.status_msg {
            Some(m) => m,
            None => "Unknown error"@,
        };
        let head = "MiniMax API error ("@;
        law_parts_are_found(head, code, "): "@ + shown);
        law_parts_are_found(head + code + "): "@, shown, Seq::empty());
        assert(reply_of(f)->message =~= head + code + ("): "@ + shown));
        assert(reply_of(f)->message =~= head + code + "): "@ + shown);
    }
}

/// What stands in a reply: the service's status, each block of the content with
/// its kind, text and thought, and the first choice.
pub proof fn law_facts_in_replies(body: Seq<char>, i: nat)
    ensures
        facts_in(body).status_code == json_integer(body, "/base_resp/status_code"@),
        facts_in(body).status_msg == json_string(body, "/base_resp/status_msg"@),
        facts_in(body).choice == (if json_length(body, "/choices"@) is Some {
            json_string(body, "/choices/0/message/content"@)
        } else {
            None
        }),
        facts_in(body).blocks.len() == (match json_length(body, "/content"@) {
            Some(n) => n as nat,
            None => 0,
        }),
        i < facts_in(body).blocks.len() ==> {
            let b = facts_in(body).blocks[i as int];
            let place = "/content/"@ + dec(i) + "/"@;
            &&& b.kind == json_string(body, place + "type"@)
            &&& b.text == json_string(body, place + "text"@)
            &&& b.thinking == json_string(body, place + "thinking"@)
        },
{
}

/// Bytes are encoded one by one: letters, digits and four marks of ASCII stand for
/// themselves, and any other byte as a percent sign and two hexadecimal digits in
/// upper case.
pub proof fn law_percent_encoding(bytes: Seq<u8>, b: u8)
    ensures
        percent_encoded(Seq::empty()).len() == 0,
        unreserved(b) <==> ('0' <= b as char <= '9' || 'A' <= b as char <= 'Z' || 'a' <= b as char
            <= 'z' || b as char == '-' || b as char == '.' || b as char == '_' || b as char == '~'),
        unreserved(b) ==> percent_encoded(bytes.push(b)) == percent_encoded(bytes).push(b as char),
        !unreserved(b) ==> percent_encoded(bytes.push(b)) == percent_encoded(bytes).push('%').push(
            upper_hex(b as int / 16),
        ).push(upper_hex(b as int % 16)),
        upper_hex(0) == '0',
        upper_hex(9) == '9',
        upper_hex(10) == 'A',
        upper_hex(15) == 'F',
{
    assert(bytes.push(b).drop_last() =~= bytes);
    if !unreserved(b) {
        assert(percent_encoded(bytes.push(b)) =~= percent_encoded(bytes).push('%').push(
            upper_hex(b as int / 16),
        ).push(upper_hex(b as int % 16)));
    }
}

/// The address of a report names provider, model and project, in this order, and
/// after them each count that there is, under its name.
pub proof fn law_report_addresses(
    base: Seq<char>,
    provider: Seq<char>,
    model: Seq<char>,
    project: Seq<char>,
    c: CallCounts,
    name: Seq<char>,
    n: i64,
)
    ensures
        begins_with(
            record_url_form(base, provider, model, project, c),
            base + "/api/llm-usage/record?provider="@ + provider + "&model="@ + model
                + "&project="@ + project,
        ),
        count_parameter(name, None).len() == 0,
        count_parameter(name, Some(n)) == "&"@ + name + "="@ + int_dec(n as int),
        record_url_form(base, provider, model, project, c) == base
            + "/api/llm-usage/record?provider="@ + provider + "&model="@ + model + "&project="@
            + project + count_parameter("tokens_in"@, c.tokens_in) + count_parameter(
            "tokens_out"@,
            c.tokens_out,
        ) + count_parameter("reasoning_tokens"@, c.reasoning_tokens) + count_parameter(
            "chars_in"@,
            c.chars_in,
        ) + count_parameter("chars_out"@, c.chars_out) + count_parameter(
            "chars_reasoning"@,
            c.chars_reasoning,
        ),
{
    let head = base + "/api/llm-usage/record?provider="@ + provider + "&model="@ + model
        + "&project="@ + project;
    let tail = count_parameter("tokens_in"@, c.tokens_in) + count_parameter(
        "tokens_out"@,
        c.tokens_out,
    ) + count_parameter("reasoning_tokens"@, c.reasoning_tokens) + count_parameter(
        "chars_in"@,
        c.chars_in,
    ) + count_parameter("chars_out"@, c.chars_out) + count_parameter(
        "chars_reasoning"@,
        c.chars_reasoning,
    );
    law_parts_are_found(Seq::empty(), head, tail);
    assert(record_url_form(base, provider, model, project, c) =~= head + tail);
}

} // verus!
