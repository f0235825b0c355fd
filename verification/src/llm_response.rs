//! Reading the text of a model's answer: cutting out its JSON, repairing known
//! malformations, and finding the name of the action in what cannot be parsed.
use vstd::prelude::*;
use vstd::string::*;

use crate::lines::{lemma_char_at, lemma_char_from};
use crate::text::{
    char_from, chars_between, chars_of, contains_text, copied, ends_with, find_char, find_chars,
    first_occurrence, law_parts_are_found, lemma_occurrence, lemma_occurrence_exists,
    lemma_white_end, occurs_at, same_text, skip_white, string_between, white, white_end,
};

verus! {

// ---------------------------------------------------------------------------
// The action's name
// ---------------------------------------------------------------------------
/// The first index from `i` on of a quote that no backslash escapes; `escaped`
/// says whether the character at `i` is escaped.
pub open spec fn closing_quote(s: Seq<char>, i: int, escaped: bool) -> Option<int>
    decreases s.len() - i,
{
    if i < 0 || i >= s.len() {
        None
    } else if escaped {
        closing_quote(s, i + 1, false)
    } else if s[i] == '\\' {
        closing_quote(s, i + 1, true)
    } else if s[i] == '"' {
        Some(i)
    } else {
        closing_quote(s, i + 1, false)
    }
}

/// The string literal, as it stands, that starts at the beginning of `s` after
/// white space.
pub open spec fn leading_literal(s: Seq<char>) -> Option<Seq<char>> {
    let lo = white_end(s, 0);
    if lo >= s.len() || s[lo] != '"' {
        None
    } else {
        let value = s.skip(lo + 1);
        match closing_quote(value, 0, false) {
            Some(k) => Some(value.take(k)),
            None => None,
        }
    }
}

/// The value of the first `"action"` key of an answer: the string literal
/// after the first colon that follows it.
pub open spec fn action_field(s: Seq<char>) -> Option<Seq<char>> {
    match first_occurrence(s, "\"action\""@) {
        None => None,
        Some(start) => {
            let after = s.skip(start + "\"action\""@.len());
            match char_from(after, ':', 0) {
                None => None,
                Some(colon) => leading_literal(after.skip(colon + 1)),
            }
        },
    }
}

/// The first index from `from` on of a quote that no backslash escapes.
fn find_closing_quote(v: &Vec<char>, from: usize) -> (r: Option<usize>)
    requires
        from <= v@.len(),
    ensures
        match r {
            Some(k) => closing_quote(v@.skip(from as int), 0, false) == Some(k - from) && from <= k
                < v@.len(),
            None => closing_quote(v@.skip(from as int), 0, false) is None,
        },
{
    let ghost s = v@.skip(from as int);
    let mut i: usize = from;
    let mut escaped: bool = false;
    while i < v.len()
        invariant
            from <= i <= v@.len(),
            s == v@.skip(from as int),
            closing_quote(s, 0, false) == closing_quote(s, i - from, escaped),
        decreases v.len() - i,
    {
        let c: char = v[i];
        assert(s[i - from] == c);
        if escaped {
            escaped = false;
        } else if c == '\\' {
            escaped = true;
        } else if c == '"' {
            return Some(i);
        }
        i = i + 1;
    }
    None
}

/// Finds the name of the action in an answer that may be malformed, by a quick
/// scan of its text.
pub fn extract_action_field(response: &str) -> (r: Option<String>)
    ensures
        match r {
            Some(a) => action_field(response@) == Some(a@),
            None => action_field(response@) is None,
        },
{
    let v = chars_of(response);
    let key = chars_of("\"action\"");
    match find_chars(&v, &key) {
        None => None,
        Some(start) => {
            proof {
                lemma_occurrence(v@, key@, 0);
            }
            assert(start + key.len() <= v.len());
            let after = chars_between(&v, start + key.len(), v.len());
            assert(after@ =~= v@.skip(start + key@.len()));
            match find_char(&after, ':', 0) {
                None => None,
                Some(colon) => {
                    assert(colon < after.len());
                    let rest = chars_between(&after, colon + 1, after.len());
                    assert(rest@ =~= after@.skip(colon + 1));
                    let lo: usize = skip_white(&rest, 0);
                    if lo >= rest.len() || rest[lo] != '"' {
                        return None;
                    }
                    match find_closing_quote(&rest, lo + 1) {
                        Some(k) => {
                            let value: String = string_between(&rest, lo + 1, k);
                            assert(value@ =~= rest@.skip(lo + 1).take(k - lo - 1));
                            Some(value)
                        },
                        None => None,
                    }
                },
            }
        },
    }
}

// ---------------------------------------------------------------------------
// The JSON in an answer
// ---------------------------------------------------------------------------
/// The last index below `n` at which `c` stands in `s`.
pub open spec fn last_below(s: Seq<char>, c: char, n: int) -> Option<int>
    decreases n,
{
    if n <= 0 || n > s.len() {
        None
    } else if s[n - 1] == c {
        Some(n - 1)
    } else {
        last_below(s, c, n - 1)
    }
}

/// What stands from the first opening to the last closing brace of an answer;
/// the whole answer where one of them is missing.
pub open spec fn json_part(raw: Seq<char>) -> Seq<char> {
    match (char_from(raw, '{', 0), last_below(raw, '}', raw.len() as int)) {
        (Some(start), Some(end)) => raw.subrange(start, end + 1),
        _ => raw,
    }
}

/// The last closing brace of an answer, if there are braces of both kinds,
/// does not end before the first opening one starts.
pub open spec fn braces_in_order(raw: Seq<char>) -> bool {
    match (char_from(raw, '{', 0), last_below(raw, '}', raw.len() as int)) {
        (Some(start), Some(end)) => start <= end + 1,
        _ => true,
    }
}

/// The last index of `v` at which `c` stands.
fn find_last(v: &Vec<char>, c: char) -> (r: Option<usize>)
    ensures
        match r {
            Some(k) => last_below(v@, c, v@.len() as int) == Some(k as int) && k < v@.len(),
            None => last_below(v@, c, v@.len() as int) is None,
        },
{
    let mut n: usize = v.len();
    while n > 0
        invariant
            n <= v@.len(),
            last_below(v@, c, v@.len() as int) == last_below(v@, c, n as int),
        decreases n,
    {
        if v[n - 1] == c {
            return Some(n - 1);
        }
        n = n - 1;
    }
    None
}

/// Whether the braces of an answer are in order, so that its JSON can be cut
/// out.
pub fn has_braces_in_order(raw: &str) -> (r: bool)
    ensures
        r == braces_in_order(raw@),
{
    let v = chars_of(raw);
    match (find_char(&v, '{', 0), find_last(&v, '}')) {
        (Some(start), Some(end)) => {
            assert(end < v.len());
            start <= end + 1
        },
        _ => true,
    }
}

/// Cuts the JSON out of an answer that may have other text around it.
pub fn extract_json(raw: &str) -> (r: String)
    requires
        braces_in_order(raw@),
    ensures
        r@ == json_part(raw@),
{
    let v = chars_of(raw);
    match (find_char(&v, '{', 0), find_last(&v, '}')) {
        (Some(start), Some(end)) => {
            assert(end < v.len());
            string_between(&v, start, end + 1)
        },
        _ => copied(raw),
    }
}

// ---------------------------------------------------------------------------
// Repairs
// ---------------------------------------------------------------------------
/// `hay` with every match of the regular expression `pattern` replaced by
/// `replacement`; `None` where `pattern` is no regular expression.
pub uninterp spec fn regex_replaced(
    pattern: Seq<char>,
    hay: Seq<char>,
    replacement: Seq<char>,
) -> Option<Seq<char>>;

/// `regex::Regex::new`, and `replace_all` of what it gives. The result is
/// `regex_replaced`: what a pattern matches, and how a replacement is
/// expanded, is left to the crate.
#[verifier::external_body]
fn regex_replace_all(pattern: &str, hay: &str, replacement: &str) -> (r: Option<String>)
    ensures
        match r {
            Some(s) => regex_replaced(pattern@, hay@, replacement@) == Some(s@),
            None => regex_replaced(pattern@, hay@, replacement@) is None,
        },
{
    match regex::Regex::new(pattern) {
        Ok(re) => Some(re.replace_all(hay, replacement).into_owned()),
        Err(_) => None,
    }
}

/// An empty key whose value is the name of the key that should stand there.
pub open spec fn empty_key_pattern() -> Seq<char> {
    ",\"\":\\s*\"(old_part|new_part)\":"@
}

/// The key alone.
pub open spec fn empty_key_replacement() -> Seq<char> {
    ",\"$1\":"@
}

/// `s` with the outcome of a replacement, or as it was.
pub open spec fn replaced_or_same(outcome: Option<Seq<char>>, s: Seq<char>) -> Seq<char> {
    match outcome {
        Some(t) => t,
        None => s,
    }
}

/// The text after the repair of empty keys.
pub open spec fn empty_keys_repaired(s: Seq<char>) -> Seq<char> {
    replaced_or_same(regex_replaced(empty_key_pattern(), s, empty_key_replacement()), s)
}

/// Repairs the one known malformation of keys: `,"":"new_part":` becomes
/// `,"new_part":`, and likewise for `old_part`.
pub fn fix_known_malformed_patterns(s: &str) -> (r: String)
    ensures
        r@ == empty_keys_repaired(s@),
{
    match regex_replace_all(
        ",\"\":\\s*\"(old_part|new_part)\":",
        s,
        ",\"$1\":",
    ) {
        Some(t) => t,
        None => copied(s),
    }
}

/// `s` from index `i` on, with each doubled brace outside string literals
/// collapsed into one. `quoted` says whether `i` stands in a literal, and
/// `escaped` whether its character is escaped there.
pub open spec fn collapsed_from(s: Seq<char>, i: int, quoted: bool, escaped: bool) -> Seq<char>
    decreases s.len() - i,
{
    if i < 0 || i >= s.len() {
        Seq::empty()
    } else if quoted {
        let still = escaped || s[i] != '"';
        seq![s[i]] + collapsed_from(s, i + 1, still, !escaped && s[i] == '\\')
    } else if s[i] == '"' {
        seq![s[i]] + collapsed_from(s, i + 1, true, false)
    } else if (s[i] == '{' || s[i] == '}') && i + 1 < s.len() && s[i + 1] == s[i] {
        seq![s[i]] + collapsed_from(s, i + 2, false, false)
    } else {
        seq![s[i]] + collapsed_from(s, i + 1, false, false)
    }
}

/// `s` with each doubled brace outside string literals collapsed into one.
pub open spec fn collapsed(s: Seq<char>) -> Seq<char> {
    collapsed_from(s, 0, false, false)
}

/// Collapses `{{` and `}}` outside string literals into single braces.
pub fn strip_double_braces_outside_strings(s: &str) -> (r: String)
    ensures
        r@ == collapsed(s@),
{
    let v = chars_of(s);
    let mut out: String = String::new();
    let mut quoted: bool = false;
    let mut escaped: bool = false;
    let mut i: usize = 0;
    assert(out@ + collapsed(v@) =~= collapsed(v@));
    while i < v.len()
        invariant
            i <= v@.len(),
            !quoted ==> !escaped,
            collapsed(v@) == out@ + collapsed_from(v@, i as int, quoted, escaped),
        decreases v.len() - i,
    {
        let c: char = v[i];
        let ghost before = out@;
        let ghost whole = collapsed_from(v@, i as int, quoted, escaped);
        let mut next: usize = i + 1;
        if quoted {
            if escaped {
                escaped = false;
            } else if c == '\\' {
                escaped = true;
            } else if c == '"' {
                quoted = false;
            }
        } else if c == '"' {
            quoted = true;
        } else if (c == '{' || c == '}') && i + 1 < v.len() && v[i + 1] == c {
            next = i + 2;
        }
        out.push(c);
        assert(whole =~= seq![c] + collapsed_from(v@, next as int, quoted, escaped));
        assert(before + whole =~= out@ + collapsed_from(v@, next as int, quoted, escaped));
        i = next;
    }
    assert(out@ + collapsed_from(v@, i as int, quoted, escaped) =~= out@);
    out
}

// ---------------------------------------------------------------------------
// Attempts
// ---------------------------------------------------------------------------
/// How the text of an attempt was repaired.
#[derive(Debug, Clone, Copy, PartialEq, Eq, Structural)]
pub enum Repair {
    /// Not at all.
    Strict,
    /// Empty keys were repaired.
    EmptyKeys,
    /// Doubled braces were collapsed, after the repair of empty keys.
    DoubleBraces,
}

impl Repair {
    /// The notice of a repair that made an answer readable.
    pub open spec fn notice_text(self) -> Option<Seq<char>> {
        match self {
            Repair::Strict => None,
            Repair::EmptyKeys => Some(
                "parse_llm_action_response: LLM response matched a known malformed pattern and was repaired (regex fixup of the \"\":\"old_part\"|\"new_part\" empty-key bug seen in history_summary_replace)."@,
            ),
            Repair::DoubleBraces => Some(
                "parse_llm_action_response: LLM response matched a known malformed pattern and was repaired (stripped `{`/`}` wrappers outside JSON strings — M2.7-highspeed has been wrapping JSON objects in double braces; root cause is the `{`/`}` mustache-style escape in the prompt template at ai_templates/EntityAction.md, see 2026-06-06 #openworld)."@,
            ),
        }
    }

    /// The notice of a repair that made an answer readable.
    pub fn notice(&self) -> (r: Option<String>)
        ensures
            match r {
                Some(w) => self.notice_text() == Some(w@),
                None => self.notice_text() is None,
            },
    {
        match self {
            Repair::Strict => None,
            Repair::EmptyKeys => Some(
                copied(
                    "parse_llm_action_response: LLM response matched a known malformed pattern and was repaired (regex fixup of the \"\":\"old_part\"|\"new_part\" empty-key bug seen in history_summary_replace).",
                ),
            ),
            Repair::DoubleBraces => Some(
                copied(
                    "parse_llm_action_response: LLM response matched a known malformed pattern and was repaired (stripped `{`/`}` wrappers outside JSON strings — M2.7-highspeed has been wrapping JSON objects in double braces; root cause is the `{`/`}` mustache-style escape in the prompt template at ai_templates/EntityAction.md, see 2026-06-06 #openworld).",
                ),
            ),
        }
    }
}

/// A text to try to parse.
#[derive(Debug)]
pub struct Attempt {
    pub text: String,
    pub repair: Repair,
}

/// What a list of attempts holds.
pub open spec fn attempt_views(s: Seq<Attempt>) -> Seq<(Seq<char>, Repair)> {
    Seq::new(s.len(), |i: int| (s[i].text@, s[i].repair))
}

/// The texts to try, one after the other, given the JSON of an answer and what
/// the repair of empty keys makes of it: the JSON itself; the repaired one,
/// where the repair changed something; and that one with doubled braces
/// collapsed, where that changed something.
pub open spec fn attempts_for(json: Seq<char>, repaired: Seq<char>) -> Seq<(Seq<char>, Repair)> {
    let first = seq![(json, Repair::Strict)];
    let second = if repaired != json {
        first.push((repaired, Repair::EmptyKeys))
    } else {
        first
    };
    if collapsed(repaired) != repaired {
        second.push((collapsed(repaired), Repair::DoubleBraces))
    } else {
        second
    }
}

/// The texts to try for the JSON of an answer, given what the repair of empty
/// keys makes of it.
pub fn list_attempts(json: &str, repaired: &str) -> (r: Vec<Attempt>)
    ensures
        attempt_views(r@) == attempts_for(json@, repaired@),
{
    let mut out: Vec<Attempt> = Vec::new();
    out.push(Attempt { text: copied(json), repair: Repair::Strict });
    assert(attempt_views(out@) =~= seq![(json@, Repair::Strict)]);
    if !same_text(repaired, json) {
        let ghost before = out@;
        out.push(Attempt { text: copied(repaired), repair: Repair::EmptyKeys });
        assert(attempt_views(out@) =~= attempt_views(before).push(
            (repaired@, Repair::EmptyKeys),
        ));
    }
    let braces: String = strip_double_braces_outside_strings(repaired);
    if !same_text(braces.as_str(), repaired) {
        let ghost before = out@;
        let ghost text = braces@;
        out.push(Attempt { text: braces, repair: Repair::DoubleBraces });
        assert(attempt_views(out@) =~= attempt_views(before).push((text, Repair::DoubleBraces)));
    }
    out
}

/// The texts to try for an answer, one after the other.
pub fn parse_attempts(raw: &str) -> (r: Vec<Attempt>)
    requires
        braces_in_order(raw@),
    ensures
        attempt_views(r@) == attempts_for(json_part(raw@), empty_keys_repaired(json_part(raw@))),
{
    let json: String = extract_json(raw);
    let repaired: String = fix_known_malformed_patterns(json.as_str());
    list_attempts(json.as_str(), repaired.as_str())
}

/// The first attempt from `i` on that could be parsed.
pub open spec fn parsed_from(errors: Seq<Option<String>>, i: int) -> Option<int>
    decreases errors.len() - i,
{
    if i < 0 || i >= errors.len() {
        None
    } else if errors[i] is None {
        Some(i)
    } else {
        parsed_from(errors, i + 1)
    }
}

/// The message for an answer that could not be parsed: the last attempt, and
/// what was wrong with it.
pub open spec fn failure_text(attempt: (Seq<char>, Repair), error: Seq<char>) -> Seq<char> {
    if attempt.1 == Repair::Strict {
        "JSON parse error: "@ + error + " - Input: "@ + attempt.0
    } else {
        "JSON parse error: "@ + error + " - Input (after repair attempt): "@ + attempt.0
    }
}

/// Decides which attempt counts, given what was wrong with each (`None` for
/// one that was parsed): the first that was parsed, with the notice of its
/// repair; or the message for an answer that could not be parsed.
pub fn choose_attempt(attempts: &Vec<Attempt>, errors: &Vec<Option<String>>) -> (r: Result<
    (usize, Option<String>),
    String,
>)
    requires
        attempts@.len() == errors@.len(),
        attempts@.len() > 0,
    ensures
        match r {
            Ok(p) => parsed_from(errors@, 0) == Some(p.0 as int) && match p.1 {
                Some(w) => attempts@[p.0 as int].repair.notice_text() == Some(w@),
                None => attempts@[p.0 as int].repair.notice_text() is None,
            },
            Err(m) => parsed_from(errors@, 0) is None && match errors@.last() {
                Some(e) => m@ == failure_text(attempt_views(attempts@).last(), e@),
                None => false,
            },
        },
{
    let mut i: usize = 0;
    while i < errors.len()
        invariant
            i <= errors@.len() == attempts@.len(),
            parsed_from(errors@, 0) == parsed_from(errors@, i as int),
            forall|j: int| 0 <= j < i ==> (#[trigger] errors@[j]) is Some,
        decreases errors.len() - i,
    {
        if errors[i].is_none() {
            return Ok((i, attempts[i].repair.notice()));
        }
        i = i + 1;
    }
    let last: usize = attempts.len() - 1;
    assert(errors@[last as int] is Some);
    let mut m: String = copied("JSON parse error: ");
    if let Some(e) = &errors[last] {
        m.append(e.as_str());
    }
    if attempts[last].repair == Repair::Strict {
        m.append(" - Input: ");
    } else {
        m.append(" - Input (after repair attempt): ");
    }
    m.append(attempts[last].text.as_str());
    Err(m)
}

// ---------------------------------------------------------------------------
// Laws
// ---------------------------------------------------------------------------
/// Two equal braces never stand side by side.
pub open spec fn single_braces(s: Seq<char>) -> bool {
    forall|i: int|
        0 <= i && i + 1 < s.len() && (#[trigger] s[i] == '{' || s[i] == '}') ==> s[i + 1] != s[i]
}

proof fn lemma_single_unchanged(s: Seq<char>, i: int, quoted: bool, escaped: bool)
    requires
        0 <= i <= s.len(),
        single_braces(s),
    ensures
        collapsed_from(s, i, quoted, escaped) == s.skip(i),
    decreases s.len() - i,
{
    if i < s.len() {
        assert(s.skip(i) =~= seq![s[i]] + s.skip(i + 1));
        if quoted {
            lemma_single_unchanged(
                s,
                i + 1,
                escaped || s[i] != '"',
                !escaped && s[i] == '\\',
            );
        } else {
            lemma_single_unchanged(s, i + 1, s[i] == '"', false);
        }
    } else {
        assert(s.skip(i) =~= Seq::empty());
    }
}

/// A text without doubled braces stays as it is.
pub proof fn law_single_braces_unchanged(s: Seq<char>)
    requires
        single_braces(s),
    ensures
        collapsed(s) == s,
{
    lemma_single_unchanged(s, 0, false, false);
    assert(s.skip(0) =~= s);
}

/// The characters of `s` that are no braces.
pub open spec fn without_braces(s: Seq<char>) -> Seq<char>
    decreases s.len(),
{
    if s.len() == 0 {
        Seq::empty()
    } else if s[0] == '{' || s[0] == '}' {
        without_braces(s.skip(1))
    } else {
        seq![s[0]] + without_braces(s.skip(1))
    }
}

proof fn lemma_collapse_keeps(s: Seq<char>, i: int, quoted: bool, escaped: bool)
    requires
        0 <= i <= s.len(),
    ensures
        without_braces(collapsed_from(s, i, quoted, escaped)) == without_braces(s.skip(i)),
        collapsed_from(s, i, quoted, escaped).len() <= s.len() - i,
    decreases s.len() - i,
{
    let r = collapsed_from(s, i, quoted, escaped);
    if i < s.len() {
        assert(s.skip(i).skip(1) =~= s.skip(i + 1));
        assert(s.skip(i)[0] == s[i] && r[0] == s[i]);
        let doubled = !quoted && (s[i] == '{' || s[i] == '}') && i + 1 < s.len() && s[i + 1] == s[i];
        if quoted {
            let q = escaped || s[i] != '"';
            let e = !escaped && s[i] == '\\';
            lemma_collapse_keeps(s, i + 1, q, e);
            assert(r.skip(1) =~= collapsed_from(s, i + 1, q, e));
        } else if doubled {
            lemma_collapse_keeps(s, i + 2, false, false);
            assert(r.skip(1) =~= collapsed_from(s, i + 2, false, false));
            assert(s.skip(i + 1).skip(1) =~= s.skip(i + 2));
            assert(s.skip(i + 1)[0] == s[i + 1]);
            assert(without_braces(s.skip(i + 1)) == without_braces(s.skip(i + 2)));
        } else {
            lemma_collapse_keeps(s, i + 1, s[i] == '"', false);
            assert(r.skip(1) =~= collapsed_from(s, i + 1, s[i] == '"', false));
        }
    } else {
        assert(s.skip(i) =~= Seq::empty());
    }
}

/// Collapsing takes away braces only, and keeps the order of everything else.
pub proof fn law_collapse_removes_braces_only(s: Seq<char>)
    ensures
        without_braces(collapsed(s)) == without_braces(s),
        collapsed(s).len() <= s.len(),
{
    lemma_collapse_keeps(s, 0, false, false);
    assert(s.skip(0) =~= s);
}

/// Within a string literal nothing is collapsed: a text that opens with a
/// quote which nothing closes stays as it is.
pub proof fn law_literals_untouched(body: Seq<char>)
    requires
        closing_quote(body, 0, false) is None,
    ensures
        collapsed(seq!['"'] + body) == seq!['"'] + body,
{
    let s = seq!['"'] + body;
    lemma_literal_tail(body, 0, false);
    lemma_literal_shift(s, body, 0, false);
    assert(s.skip(1) =~= body);
    assert(collapsed(s) =~= s);
}

/// In a literal that is never closed, nothing is collapsed.
proof fn lemma_literal_tail(body: Seq<char>, i: int, escaped: bool)
    requires
        0 <= i <= body.len(),
        closing_quote(body, i, escaped) is None,
    ensures
        collapsed_from(body, i, true, escaped) == body.skip(i),
    decreases body.len() - i,
{
    if i < body.len() {
        lemma_literal_tail(body, i + 1, !escaped && body[i] == '\\');
        assert(body.skip(i) =~= seq![body[i]] + body.skip(i + 1));
    } else {
        assert(body.skip(i) =~= Seq::empty());
    }
}

/// One character more at the front shifts the indices by one.
proof fn lemma_literal_shift(s: Seq<char>, body: Seq<char>, i: int, escaped: bool)
    requires
        0 <= i <= body.len(),
        s.len() == body.len() + 1,
        forall|j: int| 0 <= j < body.len() ==> s[j + 1] == body[j],
        closing_quote(body, i, escaped) is None,
    ensures
        collapsed_from(s, i + 1, true, escaped) == collapsed_from(body, i, true, escaped),
    decreases body.len() - i,
{
    if i < body.len() {
        assert(s[i + 1] == body[i]);
        lemma_literal_shift(s, body, i + 1, !escaped && body[i] == '\\');
    }
}

/// A key followed by a colon and a string literal without quotes or
/// backslashes is found, whatever comes after it, where the key does not stand
/// before.
pub proof fn law_action_is_found(before: Seq<char>, action: Seq<char>, after: Seq<char>)
    requires
        first_occurrence(before + "\"action\""@, "\"action\""@) == Some(before.len() as int),
        forall|i: int| 0 <= i < action.len() ==> action[i] != '"' && action[i] != '\\',
    ensures
        action_field(before + "\"action\""@ + ":\""@ + action + "\""@ + after) == Some(action),
{
    let key = "\"action\""@;
    reveal_strlit("\"action\"");
    reveal_strlit(":\"");
    reveal_strlit("\"");
    let s = before + key + ":\""@ + action + "\""@ + after;
    let n = before.len() as int;
    assert(s.subrange(n, n + key.len()) =~= key);
    lemma_occurrence_exists(s, key, 0, n);
    lemma_occurrence(s, key, 0);
    lemma_occurrence(before + key, key, 0);
    let k = first_occurrence(s, key)->0;
    if k < n {
        assert((before + key).subrange(k, k + key.len()) =~= s.subrange(k, k + key.len()));
        assert(occurs_at(before + key, key, k));
    }
    let rest = s.skip(n + key.len());
    assert(rest =~= ":\""@ + action + "\""@ + after);
    assert(rest[0] == ':');
    lemma_char_at(rest, ':', 0);
    let value = rest.skip(1);
    assert(value[0] == '"');
    assert(!white('"'));
    assert(white_end(value, 0) == 0);
    let v = value.skip(1);
    assert(v =~= action + "\""@ + after);
    lemma_quote_found(v, 0, action.len() as int);
    assert(v.take(action.len() as int) =~= action);
}

proof fn lemma_quote_found(v: Seq<char>, i: int, n: int)
    requires
        0 <= i <= n < v.len(),
        v[n] == '"',
        forall|j: int| 0 <= j < n ==> v[j] != '"' && v[j] != '\\',
    ensures
        closing_quote(v, i, false) == Some(n),
    decreases n - i,
{
    if i < n {
        lemma_quote_found(v, i + 1, n);
    }
}

proof fn lemma_last_found(s: Seq<char>, c: char, n: int, k: int)
    requires
        0 <= k < n <= s.len(),
        s[k] == c,
        forall|j: int| k < j < n ==> s[j] != c,
    ensures
        last_below(s, c, n) == Some(k),
    decreases n,
{
    if k < n - 1 {
        lemma_last_found(s, c, n - 1, k);
    }
}

proof fn lemma_none_below(s: Seq<char>, c: char, n: int)
    requires
        n <= s.len(),
        forall|j: int| 0 <= j < n ==> s[j] != c,
    ensures
        last_below(s, c, n) is None,
    decreases n,
{
    if n > 0 {
        lemma_none_below(s, c, n - 1);
    }
}

/// The JSON of an answer is cut out exactly, whatever stands before it without an
/// opening brace and after it without a closing one.
pub proof fn law_json_is_cut_out(before: Seq<char>, json: Seq<char>, after: Seq<char>)
    requires
        forall|i: int| 0 <= i < before.len() ==> before[i] != '{',
        forall|i: int| 0 <= i < after.len() ==> after[i] != '}',
        json.len() > 0,
        json[0] == '{',
        json.last() == '}',
    ensures
        json_part(before + json + after) == json,
        braces_in_order(before + json + after),
{
    let raw = before + json + after;
    let start = before.len() as int;
    let end = start + json.len() - 1;
    assert(raw[start] == '{');
    assert forall|j: int| 0 <= j < start implies raw[j] != '{' by {
        assert(raw[j] == before[j]);
    }
    lemma_char_at(raw, '{', start);
    assert(raw[end] == '}');
    assert forall|j: int| end < j < raw.len() implies raw[j] != '}' by {
        assert(raw[j] == after[j - start - json.len()]);
    }
    lemma_last_found(raw, '}', raw.len() as int, end);
    assert(raw.subrange(start, end + 1) =~= json);
}

/// An answer that lacks one of the braces is taken whole.
pub proof fn law_answer_without_braces_is_whole(raw: Seq<char>)
    requires
        (forall|i: int| 0 <= i < raw.len() ==> raw[i] != '{') || (forall|i: int|
            0 <= i < raw.len() ==> raw[i] != '}'),
    ensures
        json_part(raw) == raw,
        braces_in_order(raw),
{
    lemma_char_from(raw, '{', 0);
    if forall|i: int| 0 <= i < raw.len() ==> raw[i] != '}' {
        lemma_none_below(raw, '}', raw.len() as int);
    }
}

/// How many backslashes stand right before index `k`.
pub open spec fn backslashes(s: Seq<char>, k: int) -> int
    decreases k,
{
    if k <= 0 || k > s.len() || s[k - 1] != '\\' {
        0
    } else {
        backslashes(s, k - 1) + 1
    }
}

proof fn lemma_closing(s: Seq<char>, i: int, escaped: bool)
    requires
        0 <= i <= s.len(),
        escaped == (backslashes(s, i) % 2 == 1),
    ensures
        match closing_quote(s, i, escaped) {
            Some(k) => {
                &&& i <= k < s.len() && s[k] == '"' && backslashes(s, k) % 2 == 0
                &&& forall|j: int| i <= j < k && #[trigger] s[j] == '"' ==> backslashes(s, j) % 2 == 1
            },
            None => forall|j: int|
                i <= j < s.len() && #[trigger] s[j] == '"' ==> backslashes(s, j) % 2 == 1,
        },
    decreases s.len() - i,
{
    if i < s.len() {
        let next = !escaped && s[i] == '\\';
        assert(backslashes(s, i + 1) == if s[i] == '\\' {
            backslashes(s, i) + 1
        } else {
            0
        });
        if escaped || s[i] != '"' {
            lemma_closing(s, i + 1, next);
        }
    }
}

/// A literal ends at its first quote with an even number of backslashes before
/// it; where there is none, it does not end.
pub proof fn law_closing_quote(s: Seq<char>)
    ensures
        match closing_quote(s, 0, false) {
            Some(k) => {
                &&& 0 <= k < s.len() && s[k] == '"' && backslashes(s, k) % 2 == 0
                &&& forall|j: int| 0 <= j < k && #[trigger] s[j] == '"' ==> backslashes(s, j) % 2 == 1
            },
            None => forall|j: int|
                0 <= j < s.len() && #[trigger] s[j] == '"' ==> backslashes(s, j) % 2 == 1,
        },
{
    lemma_closing(s, 0, false);
}

/// The name of the action is the literal after the first colon that follows the
/// first key, whatever stands between key and colon and whatever white space
/// follows the colon, up to the quote that closes it.
pub proof fn law_action_is_the_literal_after_the_colon(
    before: Seq<char>,
    between: Seq<char>,
    space: Seq<char>,
    rest: Seq<char>,
)
    requires
        first_occurrence(before + "\"action\""@, "\"action\""@) == Some(before.len() as int),
        forall|i: int| 0 <= i < between.len() ==> between[i] != ':',
        forall|i: int| 0 <= i < space.len() ==> white(space[i]),
    ensures
        action_field(
            before + "\"action\""@ + between + seq![':'] + space + seq!['"'] + rest,
        ) == (match closing_quote(rest, 0, false) {
            Some(k) => Some(rest.take(k)),
            None => None,
        }),
{
    let key = "\"action\""@;
    reveal_strlit("\"action\"");
    let s = before + key + between + seq![':'] + space + seq!['"'] + rest;
    let n = before.len() as int;
    assert(s.subrange(n, n + key.len()) =~= key);
    lemma_occurrence_exists(s, key, 0, n);
    lemma_occurrence(s, key, 0);
    lemma_occurrence(before + key, key, 0);
    let k = first_occurrence(s, key)->0;
    if k < n {
        assert((before + key).subrange(k, k + key.len()) =~= s.subrange(k, k + key.len()));
        assert(occurs_at(before + key, key, k));
    }
    let after = s.skip(n + key.len());
    assert(after =~= between + seq![':'] + space + seq!['"'] + rest);
    let b = between.len() as int;
    assert(after[b] == ':');
    assert forall|j: int| 0 <= j < b implies after[j] != ':' by {
        assert(after[j] == between[j]);
    }
    lemma_char_at(after, ':', b);
    let value = after.skip(b + 1);
    assert(value =~= space + seq!['"'] + rest);
    lemma_white_end(value, 0);
    let lo = white_end(value, 0);
    assert(!white('"'));
    assert(value[space.len() as int] == '"');
    assert forall|j: int| 0 <= j < space.len() implies white(#[trigger] value[j]) by {
        assert(value[j] == space[j]);
    }
    assert(lo == space.len()) by {
        if lo < space.len() {
            assert(white(value[lo]));
        }
    }
    assert(value.skip(lo + 1) =~= rest);
}

proof fn lemma_collapse_shift(a: Seq<char>, b: Seq<char>, i: int, quoted: bool, escaped: bool)
    requires
        0 <= i <= b.len(),
    ensures
        collapsed_from(a + b, a.len() + i, quoted, escaped) == collapsed_from(b, i, quoted, escaped),
    decreases b.len() - i,
{
    let s = a + b;
    let n = a.len() as int;
    if i < b.len() {
        assert(s[n + i] == b[i]);
        if i + 1 < b.len() {
            assert(s[n + i + 1] == b[i + 1]);
        }
        if quoted {
            lemma_collapse_shift(a, b, i + 1, escaped || b[i] != '"', !escaped && b[i] == '\\');
        } else if b[i] == '"' {
            lemma_collapse_shift(a, b, i + 1, true, false);
        } else if (b[i] == '{' || b[i] == '}') && i + 1 < b.len() && b[i + 1] == b[i] {
            lemma_collapse_shift(a, b, i + 2, false, false);
        } else {
            lemma_collapse_shift(a, b, i + 1, false, false);
        }
    }
}

proof fn lemma_collapse_concat(a: Seq<char>, b: Seq<char>, i: int)
    requires
        0 <= i <= a.len(),
        forall|j: int| 0 <= j < a.len() ==> a[j] != '"',
        a.len() > 0 && b.len() > 0 && (a.last() == '{' || a.last() == '}') ==> a.last() != b[0],
    ensures
        collapsed_from(a + b, i, false, false) == collapsed_from(a, i, false, false) + collapsed(b),
    decreases a.len() - i,
{
    let s = a + b;
    if i < a.len() {
        assert(s[i] == a[i]);
        if i + 1 < a.len() {
            assert(s[i + 1] == a[i + 1]);
        } else if b.len() > 0 {
            assert(s[i + 1] == b[0]);
        }
        let next = if (a[i] == '{' || a[i] == '}') && i + 1 < a.len() && a[i + 1] == a[i] {
            i + 2
        } else {
            i + 1
        };
        lemma_collapse_concat(a, b, next);
        assert(collapsed_from(s, i, false, false) =~= collapsed_from(a, i, false, false)
            + collapsed(b));
    } else {
        lemma_collapse_shift(a, b, 0, false, false);
        assert(collapsed_from(a, i, false, false) + collapsed(b) =~= collapsed(b));
    }
}

/// Two texts are collapsed each for itself, where no literal opens in the first
/// and no brace is doubled across them.
pub proof fn law_collapse_concat(a: Seq<char>, b: Seq<char>)
    requires
        forall|j: int| 0 <= j < a.len() ==> a[j] != '"',
        a.len() > 0 && b.len() > 0 && (a.last() == '{' || a.last() == '}') ==> a.last() != b[0],
    ensures
        collapsed(a + b) == collapsed(a) + collapsed(b),
{
    lemma_collapse_concat(a, b, 0);
}

/// Of equal braces in a row, one is left of each two.
pub proof fn law_collapse_run(c: char, n: nat)
    requires
        c == '{' || c == '}',
    ensures
        collapsed(Seq::new(n, |i: int| c)) == Seq::new(((n + 1) / 2) as nat, |i: int| c),
{
    lemma_collapse_run(c, n, 0);
}

proof fn lemma_collapse_run(c: char, n: nat, i: int)
    requires
        c == '{' || c == '}',
        0 <= i <= n,
    ensures
        collapsed_from(Seq::new(n, |j: int| c), i, false, false) == Seq::new(
            ((n - i + 1) / 2) as nat,
            |j: int| c,
        ),
    decreases n - i,
{
    let s = Seq::new(n, |j: int| c);
    if i + 1 < n {
        lemma_collapse_run(c, n, i + 2);
        assert((n - i + 1) / 2 == (n - i - 1) / 2 + 1);
        assert(collapsed_from(s, i, false, false) =~= Seq::new(
            ((n - i + 1) / 2) as nat,
            |j: int| c,
        ));
    } else if i < n {
        assert(collapsed_from(s, i + 1, false, false) =~= Seq::empty());
        assert(collapsed_from(s, i, false, false) =~= Seq::new(1, |j: int| c));
    } else {
        assert(collapsed_from(s, i, false, false) =~= Seq::new(0, |j: int| c));
    }
}

/// A literal is kept as it is, and what follows it is collapsed for itself.
pub proof fn law_collapse_passes_literals(body: Seq<char>, rest: Seq<char>)
    requires
        closing_quote(body + seq!['"'], 0, false) == Some(body.len() as int),
    ensures
        collapsed(seq!['"'] + body + seq!['"'] + rest) == seq!['"'] + body + seq!['"'] + collapsed(
            rest,
        ),
{
    let s = seq!['"'] + body + seq!['"'] + rest;
    lemma_literal_passed(s, body, rest, 0, false);
    assert(s[0] == '"');
    assert(collapsed(s) =~= seq!['"'] + body + seq!['"'] + collapsed(rest)) by {
        assert(body.skip(0) =~= body);
    }
}

proof fn lemma_literal_passed(s: Seq<char>, body: Seq<char>, rest: Seq<char>, i: int, escaped: bool)
    requires
        0 <= i <= body.len(),
        s == seq!['"'] + body + seq!['"'] + rest,
        closing_quote(body + seq!['"'], i, escaped) == Some(body.len() as int),
    ensures
        collapsed_from(s, i + 1, true, escaped) == body.skip(i) + seq!['"'] + collapsed(rest),
    decreases body.len() - i,
{
    let lit = body + seq!['"'];
    assert(s[i + 1] == lit[i]);
    if i < body.len() {
        assert(lit[i] == body[i]);
        lemma_literal_passed(s, body, rest, i + 1, !escaped && body[i] == '\\');
        assert(body.skip(i) =~= seq![body[i]] + body.skip(i + 1));
        assert(collapsed_from(s, i + 1, true, escaped) =~= body.skip(i) + seq!['"'] + collapsed(
            rest,
        ));
    } else {
        let head = seq!['"'] + body + seq!['"'];
        assert(!escaped);
        lemma_collapse_shift(head, rest, 0, false, false);
        assert(s == head + rest);
        assert(collapsed_from(s, i + 1, true, escaped) =~= body.skip(i) + seq!['"'] + collapsed(
            rest,
        ));
    }
}

/// A character that is neither a brace nor a quote is kept.
pub proof fn law_collapse_keeps_other_characters(c: char)
    requires
        c != '"',
    ensures
        collapsed(seq![c]) == seq![c],
        collapsed(Seq::empty()) == Seq::<char>::empty(),
{
    assert(collapsed_from(seq![c], 1, false, false) =~= Seq::empty());
    assert(collapsed(seq![c]) =~= seq![c]);
}

/// The JSON itself is tried first; what the repair of empty keys makes of it next,
/// where that is another text; and that one with doubled braces collapsed last,
/// where that is yet another. Nothing else is tried.
pub proof fn law_attempts(json: Seq<char>, repaired: Seq<char>)
    ensures
        ({
            let r = attempts_for(json, repaired);
            let second: int = if repaired != json {
                1
            } else {
                0
            };
            let third: int = if collapsed(repaired) != repaired {
                1
            } else {
                0
            };
            &&& r.len() == 1 + second + third
            &&& r[0] == (json, Repair::Strict)
            &&& second == 1 ==> r[1] == (repaired, Repair::EmptyKeys)
            &&& third == 1 ==> r.last() == (collapsed(repaired), Repair::DoubleBraces)
        }),
{
}

/// The first attempt that could be parsed counts.
pub proof fn law_first_parsed(errors: Seq<Option<String>>)
    ensures
        match parsed_from(errors, 0) {
            Some(i) => 0 <= i < errors.len() && errors[i] is None && forall|j: int|
                0 <= j < i ==> (#[trigger] errors[j]) is Some,
            None => forall|j: int| 0 <= j < errors.len() ==> (#[trigger] errors[j]) is Some,
        },
{
    lemma_first_parsed(errors, 0);
}

proof fn lemma_first_parsed(errors: Seq<Option<String>>, i: int)
    requires
        0 <= i <= errors.len(),
    ensures
        match parsed_from(errors, i) {
            Some(k) => i <= k < errors.len() && errors[k] is None && forall|j: int|
                i <= j < k ==> (#[trigger] errors[j]) is Some,
            None => forall|j: int| i <= j < errors.len() ==> (#[trigger] errors[j]) is Some,
        },
    decreases errors.len() - i,
{
    if i < errors.len() && errors[i] is Some {
        lemma_first_parsed(errors, i + 1);
    }
}

/// Only a repair is told of, and what could not be parsed is told of with the
/// error and the text that was tried.
pub proof fn law_notices(repair: Repair, text: Seq<char>, error: Seq<char>)
    ensures
        repair.notice_text() is None <==> repair == Repair::Strict,
        contains_text(failure_text((text, repair), error), error),
        ends_with(failure_text((text, repair), error), text),
{
    let head = "JSON parse error: "@;
    let tail = if repair == Repair::Strict {
        " - Input: "@
    } else {
        " - Input (after repair attempt): "@
    };
    law_parts_are_found(head, error, tail + text);
    law_parts_are_found(head + error + tail, text, Seq::empty());
    assert(failure_text((text, repair), error) =~= head + error + (tail + text));
    assert(failure_text((text, repair), error) =~= head + error + tail + text);
}

/// Braces are out of order only where the last closing one stands before the
/// first opening one, with something between them.
pub proof fn law_braces_out_of_order(before: Seq<char>, between: Seq<char>, after: Seq<char>)
    requires
        forall|i: int| 0 <= i < before.len() ==> #[trigger] before[i] != '{',
        forall|i: int|
            0 <= i < between.len() ==> #[trigger] between[i] != '{' && between[i] != '}',
        forall|i: int| 0 <= i < after.len() ==> #[trigger] after[i] != '}',
    ensures
        braces_in_order(before + seq!['}'] + between + seq!['{'] + after) <==> between.len() == 0,
{
    let raw = before + seq!['}'] + between + seq!['{'] + after;
    let close = before.len() as int;
    let open = before.len() + 1 + between.len() as int;
    assert(raw[close] == '}');
    assert(raw[open] == '{');
    assert forall|i: int| 0 <= i < open implies raw[i] != '{' by {
        if i < close {
            assert(raw[i] == before[i]);
        } else if i > close {
            assert(raw[i] == between[i - close - 1]);
        }
    }
    assert forall|i: int| close < i < raw.len() implies raw[i] != '}' by {
        if i < open {
            assert(raw[i] == between[i - close - 1]);
        } else if i > open {
            assert(raw[i] == after[i - open - 1]);
        }
    }
    lemma_char_at(raw, '{', open);
    lemma_last_found(raw, '}', raw.len() as int, close);
}

} // verus!
