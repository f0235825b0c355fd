//! Log files: their names, the lines that go into them, and cutting them down
//! for display.
use vstd::prelude::*;
use vstd::string::*;
use vstd::utf8::*;

use crate::find_replace::{byte_offset, law_bytes_split};
use crate::ids::{uuid_form, uuid_text};
use crate::text::{
    begins_with, bool_form, bool_text, chars_of, contains_text, copied, dec, dec_text, ends_with,
    first_occurrence, has_prefix, has_suffix, has_text, int_dec, int_text, law_parts_are_found,
    lemma_occurrence, lemma_occurrence_exists, occurs_at, same_text, string_between,
};

verus! {

// ---------------------------------------------------------------------------
// Names
// ---------------------------------------------------------------------------
/// The names of the three log files of a day.
#[derive(Debug)]
pub struct LogNames {
    pub errors: String,
    pub llm: String,
    pub stats_changes: String,
}

/// The name of a log file of the given kind and day.
pub open spec fn log_name(kind: Seq<char>, date: Seq<char>) -> Seq<char> {
    kind + "-log-"@ + date + ".log"@
}

fn log_name_text(kind: &str, date: &str) -> (r: String)
    ensures
        r@ == log_name(kind@, date@),
{
    let mut s: String = copied(kind);
    s.append("-log-");
    s.append(date);
    s.append(".log");
    s
}

/// The names of the log files of a day.
pub fn log_names(date: &str) -> (r: LogNames)
    ensures
        r.errors@ == log_name("error"@, date@),
        r.llm@ == log_name("llm"@, date@),
        r.stats_changes@ == log_name("stats-change"@, date@),
{
    LogNames {
        errors: log_name_text("error", date),
        llm: log_name_text("llm", date),
        stats_changes: log_name_text("stats-change", date),
    }
}

/// The log files that are written to, and the day they belong to.
#[derive(Debug)]
pub struct DailyLogger {
    pub names: LogNames,
    pub today_date: String,
}

impl DailyLogger {
    /// The files are those of the day.
    pub open spec fn wf(self) -> bool {
        &&& self.names.errors@ == log_name("error"@, self.today_date@)
        &&& self.names.llm@ == log_name("llm"@, self.today_date@)
        &&& self.names.stats_changes@ == log_name("stats-change"@, self.today_date@)
    }

    /// The log files of a day.
    pub fn new(today: &str) -> (r: Self)
        ensures
            r.wf(),
            r.today_date@ == today@,
    {
        DailyLogger { names: log_names(today), today_date: copied(today) }
    }

    /// Goes over to the files of a new day. The result says whether it did.
    pub fn ensure_today(&mut self, today: &str) -> (r: bool)
        requires
            old(self).wf(),
        ensures
            final(self).wf(),
            final(self).today_date@ == today@,
            r == (old(self).today_date@ != today@),
            !r ==> *final(self) == *old(self),
    {
        if same_text(today, self.today_date.as_str()) {
            return false;
        }
        self.names = log_names(today);
        self.today_date = copied(today);
        true
    }
}

/// What kind of log a file is, by its name.
pub open spec fn log_kind_of(name: Seq<char>) -> Seq<char> {
    if begins_with(name, "llm-log-"@) {
        "llm"@
    } else if begins_with(name, "error-log-"@) {
        "error"@
    } else if begins_with(name, "stats-change-log-"@) {
        "stats-change"@
    } else {
        "other"@
    }
}

/// What kind of log a file is; `None` for a file that is no log.
pub fn log_kind(name: &str) -> (r: Option<&'static str>)
    ensures
        match r {
            Some(k) => ends_with(name@, ".log"@) && k@ == log_kind_of(name@),
            None => !ends_with(name@, ".log"@),
        },
{
    if !has_suffix(name, ".log") {
        return None;
    }
    if has_prefix(name, "llm-log-") {
        Some("llm")
    } else if has_prefix(name, "error-log-") {
        Some("error")
    } else if has_prefix(name, "stats-change-log-") {
        Some("stats-change")
    } else {
        Some("other")
    }
}

/// The name of a log file that may be shown: of one of the three kinds, and
/// nothing in it that leads to another directory.
pub open spec fn showable_log(name: Seq<char>) -> bool {
    &&& !contains_text(name, "/"@)
    &&& !contains_text(name, "\\"@)
    &&& !contains_text(name, ".."@)
    &&& begins_with(name, "llm-log-"@) || begins_with(name, "error-log-"@) || begins_with(
        name,
        "stats-change-log-"@,
    )
    &&& ends_with(name, ".log"@)
}

/// Whether a log file of this name may be shown.
pub fn is_log_filename(name: &str) -> (r: bool)
    ensures
        r == showable_log(name@),
{
    !has_text(name, "/") && !has_text(name, "\\") && !has_text(name, "..") && (has_prefix(
        name,
        "llm-log-",
    ) || has_prefix(name, "error-log-") || has_prefix(name, "stats-change-log-")) && has_suffix(
        name,
        ".log",
    )
}

// ---------------------------------------------------------------------------
// Lines
// ---------------------------------------------------------------------------
/// The line for an error.
pub open spec fn error_line(timestamp: Seq<char>, message: Seq<char>) -> Seq<char> {
    "["@ + timestamp + "] ERROR: "@ + message + "\n"@
}

/// The line for an error.
pub fn log_error(timestamp: &str, message: &str) -> (r: String)
    ensures
        r@ == error_line(timestamp@, message@),
{
    let mut s: String = copied("[");
    s.append(timestamp);
    s.append("] ERROR: ");
    s.append(message);
    s.append("\n");
    s
}

/// One call of a model, for the log. An empty label stands for `LLM`.
pub struct LlmCall<'a> {
    pub label: &'a str,
    pub context: &'a str,
    pub response: &'a str,
    pub time_ms: u64,
    pub success: bool,
    pub parsing_outcome: &'a str,
    pub extra: &'a str,
}

/// The lines for one call of a model.
pub open spec fn llm_lines(timestamp: Seq<char>, c: LlmCall) -> Seq<char> {
    let label = if c.label@.len() == 0 {
        "LLM"@
    } else {
        c.label@
    };
    "\n\n\n** "@ + label + " - "@ + timestamp + " **\nInstruction:\n"@ + c.context@
        + "\n\n** Result: "@ + label + " - "@ + timestamp + " **\nSuccess: "@ + (if c.success {
        "SUCCESS"@
    } else {
        "FAILED"@
    }) + "\nTime: "@ + dec(c.time_ms as nat) + " ms\n--- Response ---\n"@ + c.response@
        + "\n--- Parsing ---\n"@ + c.parsing_outcome@ + "\n--- Extra ---\n"@ + c.extra@ + "\n\n"@
}

/// The lines for one call of a model.
pub fn log_llm(timestamp: &str, c: &LlmCall) -> (r: String)
    ensures
        r@ == llm_lines(timestamp@, *c),
{
    let label: &str = if c.label.is_empty() {
        "LLM"
    } else {
        c.label
    };
    let mut s: String = copied("\n\n\n** ");
    s.append(label);
    s.append(" - ");
    s.append(timestamp);
    s.append(" **\nInstruction:\n");
    s.append(c.context);
    s.append("\n\n** Result: ");
    s.append(label);
    s.append(" - ");
    s.append(timestamp);
    s.append(" **\nSuccess: ");
    s.append(
        if c.success {
            "SUCCESS"
        } else {
            "FAILED"
        },
    );
    s.append("\nTime: ");
    s.append(dec_text(c.time_ms as u128).as_str());
    s.append(" ms\n--- Response ---\n");
    s.append(c.response);
    s.append("\n--- Parsing ---\n");
    s.append(c.parsing_outcome);
    s.append("\n--- Extra ---\n");
    s.append(c.extra);
    s.append("\n\n");
    s
}

/// One change of an integer property, for the log.
pub struct StatsChange<'a> {
    pub entity_name: &'a str,
    pub id: u128,
    pub prop: &'a str,
    pub old_value: i64,
    pub new_value: i64,
    pub cross: bool,
    pub actor_name: &'a str,
    pub warnings: usize,
}

/// `n` with its sign, a plus where it is not negative.
pub open spec fn signed_dec(n: int) -> Seq<char> {
    if n >= 0 {
        "+"@ + int_dec(n)
    } else {
        int_dec(n)
    }
}

/// The lines for one change of a property.
pub open spec fn stats_lines(timestamp: Seq<char>, c: StatsChange) -> Seq<char> {
    "["@ + timestamp + "] entity="@ + c.entity_name@ + " ("@ + uuid_form(c.id).take(8) + ")\n      prop="@
        + c.prop@ + " old="@ + int_dec(c.old_value as int) + " new="@ + int_dec(c.new_value as int)
        + " delta="@ + signed_dec(c.new_value - c.old_value) + " actor="@ + c.actor_name@
        + " cross="@ + bool_form(c.cross) + " warnings="@ + dec(c.warnings as nat) + "\n"@
}

/// The lines for one change of a property.
pub fn log_stats_change(timestamp: &str, c: &StatsChange) -> (r: String)
    ensures
        r@ == stats_lines(timestamp@, *c),
{
    let mut s: String = copied("[");
    s.append(timestamp);
    s.append("] entity=");
    s.append(c.entity_name);
    s.append(" (");
    let id = chars_of(uuid_text(c.id).as_str());
    let short: String = string_between(&id, 0, 8);
    assert(short@ =~= uuid_form(c.id).take(8));
    s.append(short.as_str());
    s.append(")\n      prop=");
    s.append(c.prop);
    s.append(" old=");
    s.append(int_text(c.old_value as i128).as_str());
    s.append(" new=");
    s.append(int_text(c.new_value as i128).as_str());
    s.append(" delta=");
    let delta: i128 = c.new_value as i128 - c.old_value as i128;
    let shown: String = if delta >= 0 {
        let mut d: String = copied("+");
        d.append(int_text(delta).as_str());
        d
    } else {
        int_text(delta)
    };
    s.append(shown.as_str());
    s.append(" actor=");
    s.append(c.actor_name);
    s.append(" cross=");
    s.append(bool_text(c.cross));
    s.append(" warnings=");
    s.append(dec_text(c.warnings as u128).as_str());
    s.append("\n");
    s
}

// ---------------------------------------------------------------------------
// Cutting down
// ---------------------------------------------------------------------------
/// How many times `c` stands in `s`.
pub open spec fn count_char(s: Seq<char>, c: char) -> nat
    decreases s.len(),
{
    if s.len() == 0 {
        0
    } else {
        count_char(s.drop_last(), c) + if s.last() == c {
            1nat
        } else {
            0nat
        }
    }
}

/// How many lines `s` has: one more than it has line breaks.
pub open spec fn line_count(s: Seq<char>) -> nat {
    count_char(s, '\n') + 1
}

/// The last `n` lines of `s`, for `n` up to the number of its lines.
pub open spec fn last_lines(s: Seq<char>, n: nat) -> Seq<char>
    decreases s.len(),
{
    if n == 0 {
        Seq::empty()
    } else if s.len() == 0 {
        s
    } else if s.last() == '\n' {
        if n == 1 {
            Seq::empty()
        } else {
            last_lines(s.drop_last(), (n - 1) as nat).push('\n')
        }
    } else {
        last_lines(s.drop_last(), n).push(s.last())
    }
}

/// The greatest index up to `i` that is a boundary between characters.
pub open spec fn boundary_below(bytes: Seq<u8>, i: int) -> int
    decreases i,
{
    if i <= 0 || is_char_boundary(bytes, i) {
        i
    } else {
        boundary_below(bytes, i - 1)
    }
}

/// `raw` cut down to its last `tail` lines, where it has more.
pub open spec fn cut_to_lines(raw: Seq<char>, tail: Option<usize>) -> Seq<char> {
    match tail {
        Some(t) => if line_count(raw) > t {
            last_lines(raw, t as nat)
        } else {
            raw
        },
        None => raw,
    }
}

/// `bytes` cut down to the last `max` ones, where there are more; a character
/// that the cut goes through stays whole.
pub open spec fn cut_to_bytes(bytes: Seq<u8>, max: Option<usize>) -> Seq<u8> {
    match max {
        Some(m) => if bytes.len() > m {
            bytes.skip(boundary_below(bytes, bytes.len() - m))
        } else {
            bytes
        },
        None => bytes,
    }
}

/// The bytes of `raw` cut down to its last `tail` lines and then to its last
/// `max` bytes.
pub open spec fn cut_down(raw: Seq<char>, tail: Option<usize>, max: Option<usize>) -> Seq<u8> {
    cut_to_bytes(encode_utf8(cut_to_lines(raw, tail)), max)
}

/// Either cut has something to cut away.
pub open spec fn is_cut(raw: Seq<char>, tail: Option<usize>, max: Option<usize>) -> bool {
    ||| tail is Some && line_count(raw) > tail->0
    ||| max is Some && encode_utf8(cut_to_lines(raw, tail)).len() > max->0
}

/// The greatest boundary between characters of `s` that is not above `idx`.
pub fn floor_char_boundary(s: &str, idx: usize) -> (r: usize)
    ensures
        idx >= encode_utf8(s@).len() ==> r == encode_utf8(s@).len(),
        idx < encode_utf8(s@).len() ==> r == boundary_below(encode_utf8(s@), idx as int),
        is_char_boundary(encode_utf8(s@), r as int),
        r <= encode_utf8(s@).len(),
{
    proof {
        encode_utf8_valid_utf8(s@);
        is_char_boundary_start_end_of_seq(encode_utf8(s@));
    }
    let len: usize = s.as_bytes().len();
    if idx >= len {
        return len;
    }
    let mut i: usize = idx;
    while i > 0 && !s.is_char_boundary(i)
        invariant
            i <= idx < encode_utf8(s@).len(),
            boundary_below(encode_utf8(s@), idx as int) == boundary_below(
                encode_utf8(s@),
                i as int,
            ),
        decreases i,
    {
        i = i - 1;
    }
    i
}

/// How many lines `v` has.
fn count_lines(v: &Vec<char>) -> (r: u128)
    ensures
        r == line_count(v@),
{
    let mut n: u128 = 1;
    let mut i: usize = 0;
    while i < v.len()
        invariant
            i <= v@.len(),
            n == line_count(v@.take(i as int)),
            n <= i + 1,
        decreases v.len() - i,
    {
        assert(v@.take(i + 1).drop_last() =~= v@.take(i as int));
        if v[i] == '\n' {
            n = n + 1;
        }
        i = i + 1;
    }
    assert(v@.take(i as int) =~= v@);
    n
}

/// The last `t` lines of `v`.
fn take_last_lines(v: &Vec<char>, t: usize) -> (r: String)
    ensures
        r@ == last_lines(v@, t as nat),
{
    if t == 0 {
        return String::new();
    }
    let mut left: usize = t;
    let mut i: usize = v.len();
    assert(v@.take(i as int) =~= v@);
    assert(last_lines(v@, t as nat) =~= last_lines(v@.take(i as int), left as nat) + v@.skip(
        i as int,
    ));
    while i > 0 && !(v[i - 1] == '\n' && left == 1)
        invariant
            i <= v@.len(),
            1 <= left,
            last_lines(v@, t as nat) == last_lines(v@.take(i as int), left as nat) + v@.skip(
                i as int,
            ),
        decreases i,
    {
        let ghost shorter = v@.take(i - 1);
        assert(v@.take(i as int).drop_last() =~= shorter);
        if v[i - 1] == '\n' {
            left = left - 1;
        }
        assert(last_lines(v@.take(i as int), (if v@[i - 1] == '\n' {
            left + 1
        } else {
            left as int
        }) as nat) + v@.skip(i as int) =~= last_lines(shorter, left as nat) + v@.skip(i - 1));
        i = i - 1;
    }
    assert(last_lines(v@.take(i as int), left as nat) =~= Seq::empty());
    assert(Seq::<char>::empty() + v@.skip(i as int) =~= v@.subrange(i as int, v@.len() as int));
    string_between(v, i, v.len())
}

/// Cuts a log down to its last `tail` lines and then to its last `max_bytes`
/// bytes, each where it is given and there is more. The second result says
/// whether anything was cut away.
pub fn trim_log_content(raw: &str, tail: Option<usize>, max_bytes: Option<usize>) -> (r: (
    String,
    bool,
))
    ensures
        encode_utf8(r.0@) == cut_down(raw@, tail, max_bytes),
        r.1 == is_cut(raw@, tail, max_bytes),
{
    let mut truncated: bool = false;
    let mut out: String = copied(raw);
    if let Some(t) = tail {
        let v = chars_of(raw);
        if count_lines(&v) > t as u128 {
            out = take_last_lines(&v, t);
            truncated = true;
        }
    }
    assert(out@ == cut_to_lines(raw@, tail));
    if let Some(m) = max_bytes {
        let ghost bytes = encode_utf8(out@);
        let len: usize = out.as_str().as_bytes().len();
        if len > m {
            let at: usize = floor_char_boundary(out.as_str(), len - m);
            proof {
                if m == 0 {
                    encode_utf8_valid_utf8(out@);
                    is_char_boundary_start_end_of_seq(bytes);
                }
            }
            let (_, rest) = out.as_str().split_at(at);
            assert(rest.spec_bytes() =~= bytes.skip(at as int));
            out = rest.to_owned();
            truncated = true;
        }
    }
    (out, truncated)
}

/// How a log was cut down, in words.
pub fn truncated_by(truncated: bool, tail: Option<usize>, max_bytes: Option<usize>) -> (r: String)
    ensures
        r@ == if truncated && tail is Some {
            "tail="@ + dec(tail->0 as nat)
        } else if truncated && max_bytes is Some {
            "max_bytes="@ + dec(max_bytes->0 as nat)
        } else {
            "none"@
        },
{
    if truncated {
        if let Some(t) = tail {
            let mut s: String = copied("tail=");
            s.append(dec_text(t as u128).as_str());
            return s;
        }
        if let Some(m) = max_bytes {
            let mut s: String = copied("max_bytes=");
            s.append(dec_text(m as u128).as_str());
            return s;
        }
    }
    copied("none")
}

// ---------------------------------------------------------------------------
// Laws
// ---------------------------------------------------------------------------
/// The last lines are the end of the text, and as many as were asked for where
/// the text has that many.
pub proof fn law_last_lines(s: Seq<char>, n: nat)
    ensures
        last_lines(s, n).len() <= s.len(),
        last_lines(s, n) == s.skip(s.len() - last_lines(s, n).len()),
        1 <= n <= line_count(s) ==> line_count(last_lines(s, n)) == n,
        n > line_count(s) ==> last_lines(s, n) == s,
    decreases s.len(),
{
    let r = last_lines(s, n);
    if n == 0 {
        assert(s.skip(s.len() as int) =~= Seq::empty());
    } else if s.len() == 0 {
        assert(s.skip(0) =~= s);
    } else if s.last() == '\n' && n == 1 {
        assert(s.skip(s.len() as int) =~= Seq::empty());
    } else {
        let d = s.drop_last();
        let m: nat = if s.last() == '\n' {
            (n - 1) as nat
        } else {
            n
        };
        law_last_lines(d, m);
        let q = last_lines(d, m);
        assert(r == q.push(s.last()));
        assert(r.drop_last() =~= q);
        assert(s.skip(s.len() - r.len()) =~= d.skip(d.len() - q.len()).push(s.last()));
        assert(n > line_count(s) ==> r =~= s);
    }
}

/// What is left of a log is its end, and takes at most three bytes more than
/// asked for.
pub proof fn law_cut_is_suffix(raw: Seq<char>, tail: Option<usize>, max: Option<usize>)
    ensures
        cut_to_lines(raw, tail).len() <= raw.len(),
        cut_to_lines(raw, tail) == raw.skip(raw.len() - cut_to_lines(raw, tail).len()),
        ({
            let bytes = encode_utf8(cut_to_lines(raw, tail));
            let left = cut_to_bytes(bytes, max);
            &&& left.len() <= bytes.len()
            &&& left == bytes.skip(bytes.len() - left.len())
            &&& max is Some ==> left.len() <= max->0 + 3
        }),
{
    assert(raw.skip(0) =~= raw);
    if let Some(t) = tail {
        law_last_lines(raw, t as nat);
    }
    let s = cut_to_lines(raw, tail);
    let bytes = encode_utf8(s);
    encode_utf8_valid_utf8(s);
    assert(bytes.skip(0) =~= bytes);
    if let Some(m) = max {
        if bytes.len() > m {
            let at = bytes.len() - m;
            law_boundary_below(bytes, at);
            lemma_boundary_near(bytes, at);
        }
    }
}

/// The one with fewer bytes.
pub open spec fn shorter(a: Seq<u8>, b: Seq<u8>) -> Seq<u8> {
    if a.len() <= b.len() {
        a
    } else {
        b
    }
}

/// A log that was cut down is the end of the whole one, and the whole one where
/// nothing was to be cut away. Of the cut to lines and the cut to bytes the more
/// restrictive one decides: what is left is the shorter of what either leaves.
/// It has no more lines than asked for, and at most three bytes more.
pub proof fn law_more_restrictive_cut_decides(
    raw: Seq<char>,
    tail: Option<usize>,
    max: Option<usize>,
    content: Seq<char>,
)
    requires
        encode_utf8(content) == cut_down(raw, tail, max),
    ensures
        content.len() <= raw.len(),
        content == raw.skip(raw.len() - content.len()),
        !is_cut(raw, tail, max) ==> content == raw,
        encode_utf8(content) == shorter(cut_down(raw, tail, None), cut_down(raw, None, max)),
        tail is Some && tail->0 >= 1 ==> count_char(content, '\n') < tail->0,
        max is Some ==> encode_utf8(content).len() <= max->0 + 3,
{
    let s = cut_to_lines(raw, tail);
    let bytes = encode_utf8(s);
    let all = encode_utf8(raw);
    let head = raw.len() - s.len();
    law_cut_is_suffix(raw, tail, max);
    law_cut_is_suffix(raw, None, max);
    encode_utf8_valid_utf8(s);
    encode_utf8_valid_utf8(raw);
    law_bytes_split(raw, head);
    let before = encode_utf8(raw.take(head));
    assert(all == before + bytes);
    let left = encode_utf8(content);
    assert(all.skip(0) =~= all);
    assert(bytes.skip(0) =~= bytes);
    // What the cut to bytes takes away, in the cut-down lines and in the whole.
    if let Some(m) = max {
        if bytes.len() > m {
            lemma_boundary_in_suffix(before, bytes, bytes.len() - m);
            law_boundary_below(bytes, bytes.len() - m);
            let b = boundary_below(bytes, bytes.len() - m);
            assert(all.skip(before.len() + b) =~= bytes.skip(b));
        } else if all.len() > m {
            law_boundary_below(all, all.len() - m);
        }
    }
    assert(left == shorter(bytes, cut_to_bytes(all, max)));
    // The same in characters.
    let at = bytes.len() - left.len();
    if left == bytes {
        encode_utf8_decode_utf8(content);
        encode_utf8_decode_utf8(s);
        assert(content == s);
    } else {
        let i = lemma_boundary_is_offset(s, at);
        law_bytes_split(s, i);
        assert(encode_utf8(s.skip(i)) =~= left);
        encode_utf8_decode_utf8(content);
        encode_utf8_decode_utf8(s.skip(i));
        assert(content == s.skip(i));
        lemma_count_of_suffix(s, '\n', i);
        assert(s.skip(i) =~= raw.skip(head + i));
    }
    if let Some(t) = tail {
        law_last_lines(raw, t as nat);
    }
}

/// A boundary of the end of a text is one of the whole text.
proof fn lemma_boundary_in_suffix(before: Seq<u8>, bytes: Seq<u8>, i: int)
    requires
        valid_utf8(before + bytes),
        valid_utf8(bytes),
        0 <= i <= bytes.len(),
    ensures
        boundary_below(before + bytes, before.len() + i) == before.len() + boundary_below(
            bytes,
            i,
        ),
    decreases i,
{
    let all = before + bytes;
    is_char_boundary_start_end_of_seq(all);
    is_char_boundary_start_end_of_seq(bytes);
    if i < bytes.len() {
        assert(all[before.len() + i] == bytes[i]);
        is_char_boundary_iff_not_is_continuation_byte(all, before.len() + i);
        is_char_boundary_iff_not_is_continuation_byte(bytes, i);
    }
    if i > 0 {
        lemma_boundary_in_suffix(before, bytes, i - 1);
    }
}

/// Every boundary of a text lies behind some of its characters.
proof fn lemma_boundary_is_offset(s: Seq<char>, b: int) -> (i: int)
    requires
        is_char_boundary(encode_utf8(s), b),
        0 <= b <= encode_utf8(s).len(),
    ensures
        0 <= i <= s.len(),
        byte_offset(s, i) == b,
    decreases s.len(),
{
    encode_utf8_valid_utf8(s);
    if b == 0 {
        assert(s.take(0) =~= Seq::empty());
        0
    } else {
        let rest = s.drop_first();
        let bytes = encode_utf8(s);
        encode_utf8_first_scalar(s);
        assert(pop_first_scalar(bytes) =~= encode_utf8(rest));
        let n = length_of_first_scalar(bytes);
        assert(b - n >= 0) by {
            reveal_with_fuel(is_char_boundary, 2);
        }
        let i = lemma_boundary_is_offset(rest, b - n);
        assert(s.take(i + 1)[0] == s[0]);
        assert(s.take(i + 1).drop_first() =~= rest.take(i));
        i + 1
    }
}

proof fn lemma_count_of_suffix(s: Seq<char>, c: char, i: int)
    requires
        0 <= i <= s.len(),
    ensures
        count_char(s.skip(i), c) <= count_char(s, c),
    decreases s.len(),
{
    if i < s.len() {
        lemma_count_of_suffix(s.drop_last(), c, i);
        assert(s.skip(i).drop_last() =~= s.drop_last().skip(i));
    }
}

/// A boundary is never more than three bytes away.
proof fn lemma_boundary_near(bytes: Seq<u8>, i: int)
    requires
        valid_utf8(bytes),
        0 <= i <= bytes.len(),
    ensures
        i - boundary_below(bytes, i) <= 3,
    decreases bytes.len(),
{
    law_boundary_below(bytes, i);
    is_char_boundary_start_end_of_seq(bytes);
    if bytes.len() > 0 {
        let n = length_of_first_scalar(bytes);
        let rest = pop_first_scalar(bytes);
        if i < n {
            assert(boundary_below(bytes, i) >= 0);
            assert(n <= 4);
        } else {
            lemma_boundary_near(rest, i - n);
            law_boundary_below(rest, i - n);
            let b = boundary_below(rest, i - n);
            is_char_boundary_start_end_of_seq(rest);
            assert(is_char_boundary(bytes, b + n));
            if boundary_below(bytes, i) < b + n {
                assert(!is_char_boundary(bytes, b + n));
            }
        }
    }
}

/// The boundary below an index is a boundary, is not above it, and no other
/// boundary lies between.
pub proof fn law_boundary_below(bytes: Seq<u8>, i: int)
    requires
        valid_utf8(bytes),
        0 <= i <= bytes.len(),
    ensures
        0 <= boundary_below(bytes, i) <= i,
        is_char_boundary(bytes, boundary_below(bytes, i)),
        forall|j: int| boundary_below(bytes, i) < j <= i ==> !is_char_boundary(bytes, j),
    decreases i,
{
    is_char_boundary_start_end_of_seq(bytes);
    if i > 0 && !is_char_boundary(bytes, i) {
        law_boundary_below(bytes, i - 1);
    }
}

/// A log that may be shown has a name without a slash: it lies in the log
/// directory itself.
pub proof fn law_showable_log_has_no_path(name: Seq<char>, i: int)
    requires
        showable_log(name),
        0 <= i < name.len(),
    ensures
        name[i] != '/',
        name[i] != '\\',
{
    reveal_strlit("/");
    reveal_strlit("\\");
    lemma_occurrence(name, "/"@, 0);
    lemma_occurrence(name, "\\"@, 0);
    if name[i] == '/' {
        assert(name.subrange(i, i + 1) =~= "/"@);
        assert(occurs_at(name, "/"@, i));
    }
    if name[i] == '\\' {
        assert(name.subrange(i, i + 1) =~= "\\"@);
        assert(occurs_at(name, "\\"@, i));
    }
}

/// The log files of a day are told apart by their names, and end like logs.
pub proof fn law_log_kinds(date: Seq<char>)
    ensures
        log_kind_of(log_name("llm"@, date)) == "llm"@,
        log_kind_of(log_name("error"@, date)) == "error"@,
        log_kind_of(log_name("stats-change"@, date)) == "stats-change"@,
        ends_with(log_name("llm"@, date), ".log"@),
        ends_with(log_name("error"@, date), ".log"@),
        ends_with(log_name("stats-change"@, date), ".log"@),
{
    reveal_strlit("llm");
    reveal_strlit("error");
    reveal_strlit("stats-change");
    reveal_strlit("-log-");
    reveal_strlit("llm-log-");
    reveal_strlit("error-log-");
    reveal_strlit("stats-change-log-");
    let a = log_name("llm"@, date);
    let b = log_name("error"@, date);
    let c = log_name("stats-change"@, date);
    assert(a.subrange(0, 8) =~= "llm-log-"@);
    assert(b.subrange(0, 10) =~= "error-log-"@);
    assert(c.subrange(0, 17) =~= "stats-change-log-"@);
    assert(b[0] != 'l');
    assert(c[0] != 'l' && c[0] != 'e');
    assert(b.subrange(0, 8)[0] == b[0]);
    assert(c.subrange(0, 8)[0] == c[0]);
    assert(c.subrange(0, 10)[0] == c[0]);
    assert("llm-log-"@[0] == 'l');
    assert("error-log-"@[0] == 'e');
    let n = ".log"@.len() as int;
    assert(a.subrange(a.len() - n, a.len() as int) =~= ".log"@);
    assert(b.subrange(b.len() - n, b.len() as int) =~= ".log"@);
    assert(c.subrange(c.len() - n, c.len() as int) =~= ".log"@);
}

proof fn lemma_plain_log_name(kind: Seq<char>, date: Seq<char>)
    requires
        forall|i: int|
            0 <= i < kind.len() ==> kind[i] != '/' && kind[i] != '\\' && kind[i] != '.',
        forall|i: int|
            0 <= i < date.len() ==> date[i] != '/' && date[i] != '\\' && date[i] != '.',
    ensures
        !contains_text(log_name(kind, date), "/"@),
        !contains_text(log_name(kind, date), "\\"@),
        !contains_text(log_name(kind, date), ".."@),
{
    reveal_strlit("-log-");
    reveal_strlit(".log");
    reveal_strlit("/");
    reveal_strlit("\\");
    reveal_strlit("..");
    let n = log_name(kind, date);
    let dot = n.len() - 4;
    assert forall|i: int| 0 <= i < n.len() implies #[trigger] n[i] != '/' && n[i] != '\\' && (n[i]
        == '.' ==> i == dot) by {
        let k = kind.len() as int;
        let d = k + 5 + date.len();
        if i < k {
            assert(n[i] == kind[i]);
        } else if i < k + 5 {
            assert(n[i] == "-log-"@[i - k]);
        } else if i < d {
            assert(n[i] == date[i - k - 5]);
        } else {
            assert(n[i] == ".log"@[i - d]);
        }
    }
    lemma_occurrence(n, "/"@, 0);
    lemma_occurrence(n, "\\"@, 0);
    lemma_occurrence(n, ".."@, 0);
    if let Some(i) = first_occurrence(n, "/"@) {
        assert(n.subrange(i, i + 1)[0] == n[i]);
    }
    if let Some(i) = first_occurrence(n, "\\"@) {
        assert(n.subrange(i, i + 1)[0] == n[i]);
    }
    if let Some(i) = first_occurrence(n, ".."@) {
        assert(n.subrange(i, i + 2)[0] == n[i]);
        assert(n.subrange(i, i + 2)[1] == n[i + 1]);
    }
}

/// The log files of every day may be shown: a date is made of digits and
/// hyphens.
pub proof fn law_log_files_can_be_shown(date: Seq<char>)
    requires
        forall|i: int| 0 <= i < date.len() ==> '0' <= #[trigger] date[i] <= '9' || date[i] == '-',
    ensures
        showable_log(log_name("llm"@, date)),
        showable_log(log_name("error"@, date)),
        showable_log(log_name("stats-change"@, date)),
{
    reveal_strlit("llm");
    reveal_strlit("error");
    reveal_strlit("stats-change");
    law_log_kinds(date);
    lemma_plain_log_name("llm"@, date);
    lemma_plain_log_name("error"@, date);
    lemma_plain_log_name("stats-change"@, date);
    assert("llm"@ != "error"@ && "llm"@ != "stats-change"@ && "error"@ != "stats-change"@) by {
        assert("llm"@.len() == 3 && "error"@.len() == 5 && "stats-change"@.len() == 12);
    }
    reveal_strlit("other");
    assert("other"@[0] == 'o' && "llm"@[0] == 'l' && "error"@[0] == 'e' && "stats-change"@[0]
        == 's');
}

/// The name of a log says its kind and its day.
pub proof fn law_log_name(kind: Seq<char>, date: Seq<char>)
    ensures
        begins_with(log_name(kind, date), kind + "-log-"@),
        contains_text(log_name(kind, date), date),
        ends_with(log_name(kind, date), date + ".log"@),
        log_name(kind, date).len() == kind.len() + "-log-"@.len() + date.len() + ".log"@.len(),
{
    law_parts_are_found(Seq::empty(), kind + "-log-"@, date + ".log"@);
    law_parts_are_found(kind + "-log-"@, date, ".log"@);
    law_parts_are_found(kind + "-log-"@, date + ".log"@, Seq::empty());
    assert(log_name(kind, date) =~= kind + "-log-"@ + (date + ".log"@));
    assert(log_name(kind, date) =~= (kind + "-log-"@) + date + ".log"@);
}

/// A log is of the kind that its name begins with, and of another kind where it
/// begins with none; it may be shown where it is of one of the kinds, ends like a
/// log, and nothing in its name leads elsewhere.
pub proof fn law_kinds_of_logs(name: Seq<char>)
    ensures
        begins_with(name, "llm-log-"@) ==> log_kind_of(name) == "llm"@,
        begins_with(name, "error-log-"@) && !begins_with(name, "llm-log-"@) ==> log_kind_of(name)
            == "error"@,
        begins_with(name, "stats-change-log-"@) && !begins_with(name, "llm-log-"@) && !begins_with(
            name,
            "error-log-"@,
        ) ==> log_kind_of(name) == "stats-change"@,
        !begins_with(name, "llm-log-"@) && !begins_with(name, "error-log-"@) && !begins_with(
            name,
            "stats-change-log-"@,
        ) ==> log_kind_of(name) == "other"@ && !showable_log(name),
        showable_log(name) ==> ends_with(name, ".log"@) && !contains_text(name, "/"@)
            && !contains_text(name, "\\"@) && !contains_text(name, ".."@),
        log_kind_of(name) != "other"@ && ends_with(name, ".log"@) && !contains_text(name, "/"@)
            && !contains_text(name, "\\"@) && !contains_text(name, ".."@) ==> showable_log(name),
{
}

/// What is logged of an error is its time and its message, on a line of its own.
pub proof fn law_error_lines(timestamp: Seq<char>, message: Seq<char>)
    ensures
        begins_with(error_line(timestamp, message), "["@ + timestamp + "] ERROR: "@),
        ends_with(error_line(timestamp, message), message + "\n"@),
{
    let head = "["@ + timestamp + "] ERROR: "@;
    law_parts_are_found(Seq::empty(), head, message + "\n"@);
    law_parts_are_found(head, message + "\n"@, Seq::empty());
    assert(error_line(timestamp, message) =~= head + (message + "\n"@));
}

/// What is logged of a call has its label, its time, its context, whether it
/// succeeded, how long it took, the response, what came of parsing it and the
/// rest.
pub proof fn law_call_lines(timestamp: Seq<char>, c: LlmCall)
    ensures
        ({
            let w = llm_lines(timestamp, c);
            &&& c.label@.len() > 0 ==> begins_with(w, "\n\n\n** "@ + c.label@)
            &&& c.label@.len() == 0 ==> begins_with(w, "\n\n\n** "@ + "LLM"@)
            &&& contains_text(w, " - "@ + timestamp)
            &&& contains_text(w, " **\nInstruction:\n"@ + c.context@)
            &&& c.success ==> contains_text(w, " **\nSuccess: "@ + "SUCCESS"@)
            &&& !c.success ==> contains_text(w, " **\nSuccess: "@ + "FAILED"@)
            &&& contains_text(w, "\nTime: "@ + dec(c.time_ms as nat))
            &&& contains_text(w, " ms\n--- Response ---\n"@ + c.response@)
            &&& contains_text(w, "\n--- Parsing ---\n"@ + c.parsing_outcome@)
            &&& contains_text(w, "\n--- Extra ---\n"@ + c.extra@)
        }),
{
    let w = llm_lines(timestamp, c);
    let label = if c.label@.len() == 0 {
        "LLM"@
    } else {
        c.label@
    };
    let verdict = if c.success {
        "SUCCESS"@
    } else {
        "FAILED"@
    };
    let p1 = "\n\n\n** "@ + label;
    let p2 = p1 + " - "@ + timestamp;
    let p3 = p2 + " **\nInstruction:\n"@ + c.context@;
    let p4 = p3 + "\n\n** Result: "@ + label;
    let p5 = p4 + " - "@ + timestamp;
    let p6 = p5 + " **\nSuccess: "@ + verdict;
    let p7 = p6 + "\nTime: "@ + dec(c.time_ms as nat);
    let p8 = p7 + " ms\n--- Response ---\n"@ + c.response@;
    let p9 = p8 + "\n--- Parsing ---\n"@ + c.parsing_outcome@;
    let p10 = p9 + "\n--- Extra ---\n"@ + c.extra@;
    assert(w == p10 + "\n\n"@);
    lemma_begins(w, p10, "\n\n"@);
    lemma_goes_on(w, p9, "\n--- Extra ---\n"@, c.extra@);
    lemma_goes_on(w, p8, "\n--- Parsing ---\n"@, c.parsing_outcome@);
    lemma_goes_on(w, p7, " ms\n--- Response ---\n"@, c.response@);
    lemma_goes_on(w, p6, "\nTime: "@, dec(c.time_ms as nat));
    lemma_goes_on(w, p5, " **\nSuccess: "@, verdict);
    lemma_goes_on(w, p4, " - "@, timestamp);
    lemma_goes_on(w, p3, "\n\n** Result: "@, label);
    lemma_goes_on(w, p2, " **\nInstruction:\n"@, c.context@);
    lemma_goes_on(w, p1, " - "@, timestamp);
}

/// `head` and `rest` in one text begin with `head`.
proof fn lemma_begins(w: Seq<char>, head: Seq<char>, rest: Seq<char>)
    requires
        w == head + rest,
    ensures
        begins_with(w, head),
{
    assert(w.subrange(0, head.len() as int) =~= head);
}

/// A text that begins with `head`, `a` and `b` begins with `head` and contains
/// `a` with `b` behind it.
proof fn lemma_goes_on(w: Seq<char>, head: Seq<char>, a: Seq<char>, b: Seq<char>)
    requires
        begins_with(w, head + a + b),
    ensures
        begins_with(w, head),
        contains_text(w, a + b),
{
    let n = (head + a + b).len() as int;
    let start = w.subrange(0, n);
    assert(start == head + a + b);
    assert(w.subrange(0, head.len() as int) =~= head) by {
        assert forall|k: int| 0 <= k < head.len() implies w[k] == head[k] by {
            assert(start[k] == w[k]);
        }
    }
    assert(w.subrange(head.len() as int, n) =~= a + b) by {
        assert forall|k: int| 0 <= k < (a + b).len() implies w[head.len() + k] == (a + b)[k] by {
            assert(start[head.len() + k] == w[head.len() + k]);
        }
    }
    lemma_occurrence_exists(w, a + b, 0, head.len() as int);
}

/// What is logged of a change has its time and the entity, the property, what it
/// was and is, the difference with its sign, and who did it.
pub proof fn law_change_lines(timestamp: Seq<char>, c: StatsChange)
    ensures
        ({
            let w = stats_lines(timestamp, c);
            let delta = c.new_value - c.old_value;
            &&& begins_with(w, "["@ + timestamp + "] entity="@ + c.entity_name@)
            &&& contains_text(w, " ("@ + uuid_form(c.id).take(8))
            &&& contains_text(w, ")\n      prop="@ + c.prop@)
            &&& contains_text(w, " old="@ + int_dec(c.old_value as int))
            &&& contains_text(w, " new="@ + int_dec(c.new_value as int))
            &&& delta >= 0 ==> contains_text(w, " delta="@ + ("+"@ + int_dec(delta)))
            &&& delta < 0 ==> contains_text(w, " delta="@ + int_dec(delta))
            &&& contains_text(w, " actor="@ + c.actor_name@)
            &&& c.cross ==> contains_text(w, " cross="@ + "true"@)
            &&& !c.cross ==> contains_text(w, " cross="@ + "false"@)
            &&& contains_text(w, " warnings="@ + dec(c.warnings as nat))
        }),
{
    let w = stats_lines(timestamp, c);
    let delta = c.new_value - c.old_value;
    let p1 = "["@ + timestamp + "] entity="@ + c.entity_name@;
    let p2 = p1 + " ("@ + uuid_form(c.id).take(8);
    let p3 = p2 + ")\n      prop="@ + c.prop@;
    let p4 = p3 + " old="@ + int_dec(c.old_value as int);
    let p5 = p4 + " new="@ + int_dec(c.new_value as int);
    let p6 = p5 + " delta="@ + signed_dec(delta);
    let p7 = p6 + " actor="@ + c.actor_name@;
    let p8 = p7 + " cross="@ + bool_form(c.cross);
    let p9 = p8 + " warnings="@ + dec(c.warnings as nat);
    assert(w == p9 + "\n"@);
    lemma_begins(w, p9, "\n"@);
    lemma_goes_on(w, p8, " warnings="@, dec(c.warnings as nat));
    lemma_goes_on(w, p7, " cross="@, bool_form(c.cross));
    lemma_goes_on(w, p6, " actor="@, c.actor_name@);
    lemma_goes_on(w, p5, " delta="@, signed_dec(delta));
    lemma_goes_on(w, p4, " new="@, int_dec(c.new_value as int));
    lemma_goes_on(w, p3, " old="@, int_dec(c.old_value as int));
    lemma_goes_on(w, p2, ")\n      prop="@, c.prop@);
    lemma_goes_on(w, p1, " ("@, uuid_form(c.id).take(8));
}

/// The line breaks of a text are counted one by one, and there is one line more.
pub proof fn law_lines_are_counted(s: Seq<char>, c: char)
    ensures
        line_count(Seq::empty()) == 1,
        line_count(s.push(c)) == line_count(s) + (if c == '\n' {
            1nat
        } else {
            0nat
        }),
        count_char(s, '\n') + 1 == line_count(s),
{
    assert(s.push(c).drop_last() =~= s);
}

/// A log is said to be cut where it has more lines than asked for, or where what
/// is left of them has more bytes; a cut to lines takes something away.
pub proof fn law_cuts_are_told(raw: Seq<char>, tail: Option<usize>, max: Option<usize>)
    ensures
        is_cut(raw, tail, max) <==> (tail is Some && line_count(raw) > tail->0) || (max is Some
            && encode_utf8(cut_to_lines(raw, tail)).len() > max->0),
        tail is None || line_count(raw) <= tail->0 ==> cut_to_lines(raw, tail) == raw,
        tail is Some && 1 <= tail->0 && tail->0 < line_count(raw) ==> line_count(
            cut_to_lines(raw, tail),
        ) == tail->0 && cut_to_lines(raw, tail).len() < raw.len(),
        tail == Some(0usize) ==> cut_to_lines(raw, tail).len() == 0,
{
    if let Some(t) = tail {
        law_last_lines(raw, t as nat);
        if 1 <= t && t < line_count(raw) {
            let left = last_lines(raw, t as nat);
            if left.len() == raw.len() {
                assert(raw.skip(0) =~= raw);
            }
        }
    }
}

} // verus!
