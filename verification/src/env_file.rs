//! The file of environment variables: reading and writing it, and what it is
//! asked about keys and passwords.
use vstd::prelude::*;
use vstd::string::*;

use crate::lines::{
    cut_once, join_lines, joined, law_lines_of_joined, law_pieces, lemma_char_at, lemma_char_from,
    lemma_lines_are_single, lemma_trim_cr, lines_of, one_line, pieces_of, split_lines, split_once, split_pieces, without_cr,
};
use crate::text::{
    char_from, chars_between, chars_of, contains_text, copied, has_text,
    law_trim_takes_the_surrounding, lemma_rows_push, lemma_white_end, lemma_white_start, lowercase, opt_str, opt_text, rows, same_chars, same_text, string_of,
    to_lowercase, trim_chars, trimmed, white, white_end, white_start,
};

verus! {

broadcast use lemma_rows_push;

// ---------------------------------------------------------------------------
// Model
// ---------------------------------------------------------------------------
/// The variable and the value of a line, each without white space around it.
/// Empty lines, comments and lines without `=` have none.
pub open spec fn assignment(line: Seq<char>) -> Option<(Seq<char>, Seq<char>)> {
    let t = trimmed(line);
    if t.len() == 0 || t[0] == '#' {
        None
    } else {
        match split_once(t, '=') {
            Some(p) => Some((trimmed(p.0), trimmed(p.1))),
            None => None,
        }
    }
}

/// The line assigns to the variable.
pub open spec fn assigns(line: Seq<char>, name: Seq<char>) -> bool {
    match assignment(line) {
        Some(p) => p.0 == name,
        None => false,
    }
}

/// The value that stands for no value.
pub open spec fn no_value(value: Seq<char>) -> bool {
    value.len() == 0 || value == "placeholder"@
}

/// What the first of the lines that assigns to the variable gives it; `None`
/// where that is no value, or no line does.
pub open spec fn value_in(lines: Seq<Seq<char>>, name: Seq<char>) -> Option<Seq<char>>
    decreases lines.len(),
{
    if lines.len() == 0 {
        None
    } else if assigns(lines[0], name) {
        let (_, v) = assignment(lines[0])->0;
        if no_value(v) {
            None
        } else {
            Some(v)
        }
    } else {
        value_in(lines.skip(1), name)
    }
}

/// What a file gives a variable.
pub open spec fn env_value(content: Seq<char>, name: Seq<char>) -> Option<Seq<char>> {
    value_in(lines_of(content), name)
}

/// The line that assigns a value to a variable.
pub open spec fn assignment_line(name: Seq<char>, value: Seq<char>) -> Seq<char> {
    name + "="@ + value
}

/// The lines with every assignment to the variable replaced.
pub open spec fn reassigned(
    lines: Seq<Seq<char>>,
    name: Seq<char>,
    value: Seq<char>,
) -> Seq<Seq<char>> {
    Seq::new(
        lines.len(),
        |i: int|
            if assigns(lines[i], name) {
                assignment_line(name, value)
            } else {
                lines[i]
            },
    )
}

/// Some line assigns to the variable.
pub open spec fn some_assigns(lines: Seq<Seq<char>>, name: Seq<char>) -> bool {
    exists|i: int| 0 <= i < lines.len() && assigns(#[trigger] lines[i], name)
}

/// A file after a variable was set: every assignment to it is replaced, and
/// one is added at the end where there was none.
pub open spec fn env_written(content: Seq<char>, name: Seq<char>, value: Seq<char>) -> Seq<char> {
    let lines = lines_of(content);
    if some_assigns(lines, name) {
        joined(reassigned(lines, name, value))
    } else {
        joined(lines.push(assignment_line(name, value)))
    }
}

// ---------------------------------------------------------------------------
// Functions
// ---------------------------------------------------------------------------
/// The variable and the value of a line.
fn read_assignment(line: &Vec<char>) -> (r: Option<(Vec<char>, Vec<char>)>)
    ensures
        match r {
            Some(p) => assignment(line@) == Some((p.0@, p.1@)),
            None => assignment(line@) is None,
        },
{
    let t = trim_chars(line);
    if t.len() == 0 || t[0] == '#' {
        return None;
    }
    match cut_once(&t, '=') {
        Some((key, value)) => Some((trim_chars(&key), trim_chars(&value))),
        None => None,
    }
}

/// What the content of a file gives a variable. `None` where no line assigns
/// to it, or the first that does gives it no value or a placeholder.
pub fn read_env_var(content: &str, var_name: &str) -> (r: Option<String>)
    ensures
        opt_text(r) == env_value(content@, var_name@),
{
    let lines = split_lines(&chars_of(content));
    let name = chars_of(var_name);
    let ghost all = rows(lines@);
    let mut i: usize = 0;
    assert(all.skip(0) =~= all);
    while i < lines.len()
        invariant
            i <= lines@.len(),
            all == rows(lines@),
            all == lines_of(content@),
            name@ == var_name@,
            value_in(all, var_name@) == value_in(all.skip(i as int), var_name@),
        decreases lines.len() - i,
    {
        assert(all.skip(i as int)[0] == all[i as int]);
        assert(all.skip(i as int).skip(1) =~= all.skip(i + 1));
        if let Some((key, value)) = read_assignment(&lines[i]) {
            if same_chars(&key, &name) {
                let value: String = string_of(&value);
                if value.as_str().is_empty() || same_text(value.as_str(), "placeholder") {
                    return None;
                }
                return Some(value);
            }
        }
        i = i + 1;
    }
    None
}

/// The content of a file after a variable was set.
pub fn write_env_var(content: &str, var_name: &str, value: &str) -> (r: String)
    ensures
        r@ == env_written(content@, var_name@, value@),
{
    let lines = split_lines(&chars_of(content));
    let name = chars_of(var_name);
    let mut line: String = copied(var_name);
    line.append("=");
    line.append(value);
    let new_line = chars_of(line.as_str());
    let ghost all = rows(lines@);
    let mut out: Vec<Vec<char>> = Vec::new();
    let mut found: bool = false;
    let mut i: usize = 0;
    while i < lines.len()
        invariant
            i <= lines@.len(),
            all == rows(lines@),
            name@ == var_name@,
            new_line@ == assignment_line(var_name@, value@),
            out@.len() == i,
            forall|j: int|
                0 <= j < i ==> rows(out@)[j] == #[trigger] reassigned(all, var_name@, value@)[j],
            found == exists|j: int| 0 <= j < i && assigns(#[trigger] all[j], var_name@),
        decreases lines.len() - i,
    {
        let ghost before = rows(out@);
        let ghost had = found;
        let mut hit: bool = false;
        if let Some((key, _)) = read_assignment(&lines[i]) {
            if same_chars(&key, &name) {
                hit = true;
            }
        }
        assert(hit == assigns(all[i as int], var_name@));
        if hit {
            out.push(chars_between(&new_line, 0, new_line.len()));
            found = true;
        } else {
            out.push(chars_between(&lines[i], 0, lines[i].len()));
        }
        proof {
            assert(lines@[i as int]@ =~= lines@[i as int]@.subrange(
                0,
                lines@[i as int]@.len() as int,
            ));
            assert(new_line@ =~= new_line@.subrange(0, new_line@.len() as int));
            assert forall|j: int| 0 <= j < i + 1 implies rows(out@)[j] == #[trigger] reassigned(
                all,
                var_name@,
                value@,
            )[j] by {
                if j < i {
                    assert(rows(out@)[j] == before[j]);
                }
            }
            if hit {
                assert(assigns(all[i as int], var_name@));
            } else if had {
                let j = choose|j: int| 0 <= j < i && assigns(#[trigger] all[j], var_name@);
                assert(0 <= j < i + 1 && assigns(all[j], var_name@));
            }
        }
        i = i + 1;
    }
    assert(rows(out@) =~= reassigned(all, var_name@, value@));
    if !found {
        out.push(new_line);
        assert(reassigned(all, var_name@, value@) =~= all);
    }
    join_lines(&out)
}

/// A file after some variables were set, one after the other.
pub open spec fn env_written_all(content: Seq<char>, vars: Seq<(String, String)>) -> Seq<char>
    decreases vars.len(),
{
    if vars.len() == 0 {
        content
    } else {
        env_written(
            env_written_all(content, vars.drop_last()),
            vars.last().0@,
            vars.last().1@,
        )
    }
}

/// The content of a file after some variables were set, one after the other.
pub fn write_env_vars(content: &str, vars: &Vec<(String, String)>) -> (r: String)
    ensures
        r@ == env_written_all(content@, vars@),
{
    let mut now: String = copied(content);
    let mut i: usize = 0;
    assert(vars@.take(0) =~= Seq::empty());
    while i < vars.len()
        invariant
            i <= vars@.len(),
            now@ == env_written_all(content@, vars@.take(i as int)),
        decreases vars.len() - i,
    {
        assert(vars@.take(i + 1).drop_last() =~= vars@.take(i as int));
        now = write_env_var(now.as_str(), vars[i].0.as_str(), vars[i].1.as_str());
        i = i + 1;
    }
    assert(vars@.take(i as int) =~= vars@);
    now
}

/// The content of a fresh file: a notice, and placeholders for the key and the
/// password.
pub fn fresh_env_content(api_key_name: &str, password_var_name: &str) -> (r: String)
    ensures
        r@ == "# Open World Environment Variables\n# Do not commit this file to version control!\n\n"@
            + api_key_name@ + "=placeholder\n"@ + password_var_name@ + "=placeholder\n"@,
{
    let mut s: String = copied(
        "# Open World Environment Variables\n# Do not commit this file to version control!\n\n",
    );
    s.append(api_key_name);
    s.append("=placeholder\n");
    s.append(password_var_name);
    s.append("=placeholder\n");
    s
}

/// How the value of a variable is shown: not at all where it has none, as
/// stars where its name speaks of a password, a secret or a key.
pub open spec fn shown_value(name: Seq<char>, value: Seq<char>) -> Seq<char> {
    if no_value(value) {
        ""@
    } else if contains_text(lowercase(name), "password"@) || contains_text(
        lowercase(name),
        "secret"@,
    ) || contains_text(lowercase(name), "key"@) {
        "********"@
    } else {
        value
    }
}

/// The variables of a file with their values as shown, in order.
pub open spec fn shown_in(lines: Seq<Seq<char>>) -> Seq<(Seq<char>, Seq<char>)>
    decreases lines.len(),
{
    if lines.len() == 0 {
        Seq::empty()
    } else {
        let earlier = shown_in(lines.drop_last());
        match assignment(lines.last()) {
            Some(p) => earlier.push((p.0, shown_value(p.0, p.1))),
            None => earlier,
        }
    }
}

/// What a list of pairs of strings holds.
pub open spec fn pair_views(s: Seq<(String, String)>) -> Seq<(Seq<char>, Seq<char>)> {
    Seq::new(s.len(), |i: int| (s[i].0@, s[i].1@))
}

/// How the value of a variable is shown, given its name in lower case.
pub fn masked_value(lower_name: &str, value: &str) -> (r: String)
    ensures
        r@ == if no_value(value@) {
            ""@
        } else if contains_text(lower_name@, "password"@) || contains_text(
            lower_name@,
            "secret"@,
        ) || contains_text(lower_name@, "key"@) {
            "********"@
        } else {
            value@
        },
{
    if value.is_empty() || same_text(value, "placeholder") {
        copied("")
    } else if has_text(lower_name, "password") || has_text(lower_name, "secret") || has_text(
        lower_name,
        "key",
    ) {
        copied("********")
    } else {
        copied(value)
    }
}

/// The variables of a file with their values as shown, in order; of several
/// lines for one variable the last counts.
pub fn list_env_variables(content: &str) -> (r: Vec<(String, String)>)
    ensures
        pair_views(r@) == shown_in(lines_of(content@)),
{
    let lines = split_lines(&chars_of(content));
    let ghost all = rows(lines@);
    let mut out: Vec<(String, String)> = Vec::new();
    let mut i: usize = 0;
    assert(all.take(0) =~= Seq::empty());
    assert(pair_views(out@) =~= Seq::empty());
    while i < lines.len()
        invariant
            i <= lines@.len(),
            all == rows(lines@),
            pair_views(out@) == shown_in(all.take(i as int)),
        decreases lines.len() - i,
    {
        assert(all.take(i + 1).drop_last() =~= all.take(i as int));
        if let Some((key, value)) = read_assignment(&lines[i]) {
            let ghost before = out@;
            let name: String = string_of(&key);
            let lower: String = to_lowercase(name.as_str());
            let shown: String = masked_value(lower.as_str(), string_of(&value).as_str());
            let ghost pair = (name@, shown@);
            out.push((name, shown));
            assert(pair_views(out@) =~= pair_views(before).push(pair));
        }
        i = i + 1;
    }
    assert(all.take(i as int) =~= all);
    out
}

// ---------------------------------------------------------------------------
// Setting up
// ---------------------------------------------------------------------------
/// What becomes of a request to set the key and the password.
#[derive(Debug)]
pub enum EnvSetup {
    /// A password is set, and the caller has not shown it.
    Unauthorized,
    /// The key is empty or a placeholder; nothing is stored.
    InvalidApiKey,
    /// The password is empty or a placeholder; the content to store is the one
    /// with the new key.
    InvalidPassword(String),
    /// The content to store.
    Saved(String),
}

/// The content after a variable was set, where it is to be.
pub open spec fn env_written_opt(
    content: Seq<char>,
    name: Seq<char>,
    value: Option<Seq<char>>,
) -> Seq<char> {
    match value {
        Some(v) => env_written(content, name, v),
        None => content,
    }
}

/// The value is given and is no value.
pub open spec fn given_no_value(value: Option<Seq<char>>) -> bool {
    value is Some && no_value(value->0)
}

/// Sets the key and the password in the content of a file. Where a password is
/// set already, the caller has to be authenticated.
pub fn configure_env(
    content: &str,
    api_key_name: &str,
    password_var_name: &str,
    authenticated: bool,
    api_key: Option<&str>,
    password: Option<&str>,
) -> (r: EnvSetup)
    ensures
        match r {
            EnvSetup::Unauthorized => env_value(content@, password_var_name@) is Some
                && !authenticated,
            EnvSetup::InvalidApiKey => (env_value(content@, password_var_name@) is None
                || authenticated) && given_no_value(opt_str(api_key)),
            EnvSetup::InvalidPassword(s) => (env_value(content@, password_var_name@) is None
                || authenticated) && !given_no_value(opt_str(api_key)) && given_no_value(
                opt_str(password),
            ) && s@ == env_written_opt(content@, api_key_name@, opt_str(api_key)),
            EnvSetup::Saved(s) => (env_value(content@, password_var_name@) is None
                || authenticated) && !given_no_value(opt_str(api_key)) && !given_no_value(
                opt_str(password),
            ) && s@ == env_written_opt(
                env_written_opt(content@, api_key_name@, opt_str(api_key)),
                password_var_name@,
                opt_str(password),
            ),
        },
{
    if read_env_var(content, password_var_name).is_some() && !authenticated {
        return EnvSetup::Unauthorized;
    }
    let mut now: String = copied(content);
    if let Some(k) = api_key {
        if k.is_empty() || same_text(k, "placeholder") {
            return EnvSetup::InvalidApiKey;
        }
        now = write_env_var(content, api_key_name, k);
    }
    if let Some(p) = password {
        if p.is_empty() || same_text(p, "placeholder") {
            return EnvSetup::InvalidPassword(now);
        }
        now = write_env_var(now.as_str(), password_var_name, p);
    }
    EnvSetup::Saved(now)
}

/// What becomes of a password that was shown.
#[derive(Debug, Clone, Copy, PartialEq, Eq, Structural)]
pub enum PasswordCheck {
    Verified,
    Wrong,
    NotConfigured,
}

/// Holds a password against the one in the content of a file.
pub fn check_password(content: &str, password_var_name: &str, password: &str) -> (r: PasswordCheck)
    ensures
        match r {
            PasswordCheck::Verified => env_value(content@, password_var_name@) == Some(password@),
            PasswordCheck::Wrong => env_value(content@, password_var_name@) is Some && env_value(
                content@,
                password_var_name@,
            ) != Some(password@),
            PasswordCheck::NotConfigured => env_value(content@, password_var_name@) is None,
        },
{
    match read_env_var(content, password_var_name) {
        Some(stored) => if same_text(stored.as_str(), password) {
            PasswordCheck::Verified
        } else {
            PasswordCheck::Wrong
        },
        None => PasswordCheck::NotConfigured,
    }
}

// ---------------------------------------------------------------------------
// Cookies
// ---------------------------------------------------------------------------
/// The cookie sets the name to `1`.
pub open spec fn grants(cookie: Seq<char>, name: Seq<char>) -> bool {
    split_once(trimmed(cookie), '=') == Some((name, "1"@))
}

/// One of the cookies, which semicolons part, sets the name to `1`.
pub open spec fn some_grants(header: Seq<char>, name: Seq<char>) -> bool {
    exists|i: int|
        0 <= i < pieces_of(header, ';').len() && grants(#[trigger] pieces_of(header, ';')[i], name)
}

/// Whether one of the cookies of a request sets the name to `1`.
pub fn verify_auth_cookie(cookies_header: Option<&str>, cookie_name: &str) -> (r: bool)
    ensures
        r == match cookies_header {
            Some(header) => some_grants(header@, cookie_name@),
            None => false,
        },
{
    match cookies_header {
        None => false,
        Some(header) => {
            let pieces = split_pieces(&chars_of(header), ';');
            let name = chars_of(cookie_name);
            let one = chars_of("1");
            let ghost all = pieces_of(header@, ';');
            let mut i: usize = 0;
            while i < pieces.len()
                invariant
                    i <= pieces@.len(),
                    all == rows(pieces@),
                    all == pieces_of(header@, ';'),
                    cookies_header == Some(header),
                    name@ == cookie_name@,
                    one@ == "1"@,
                    forall|j: int| 0 <= j < i ==> !grants(#[trigger] all[j], cookie_name@),
                decreases pieces.len() - i,
            {
                if let Some((key, value)) = cut_once(&trim_chars(&pieces[i]), '=') {
                    if same_chars(&key, &name) && same_chars(&value, &one) {
                        assert(grants(all[i as int], cookie_name@));
                        assert(some_grants(header@, cookie_name@));
                        return true;
                    }
                }
                assert(!grants(all[i as int], cookie_name@));
                i = i + 1;
            }
            false
        },
    }
}

// ---------------------------------------------------------------------------
// Laws
// ---------------------------------------------------------------------------
/// A name that a line can assign to: one line, without `=`, no comment, and no
/// white space around it.
pub open spec fn plain_name(name: Seq<char>) -> bool {
    &&& one_line(name)
    &&& forall|i: int| 0 <= i < name.len() ==> name[i] != '='
    &&& name.len() > 0 ==> name[0] != '#' && !white(name[0]) && !white(name.last())
}

/// A value that a line can hold: one line, and no white space around it.
pub open spec fn plain_value(value: Seq<char>) -> bool {
    &&& one_line(value)
    &&& value.len() > 0 ==> !white(value[0]) && !white(value.last())
}

/// What has no white space around it stays as it is when trimmed.
pub proof fn lemma_trim_plain(s: Seq<char>)
    requires
        s.len() > 0 ==> !white(s[0]) && !white(s.last()),
    ensures
        trimmed(s) == s,
{
    lemma_white_end(s, 0);
    lemma_white_start(s, white_end(s, 0), s.len() as int);
    if s.len() > 0 {
        assert(white_end(s, 0) == 0);
        assert(white_start(s, 0, s.len() as int) == s.len());
    }
    assert(trimmed(s) =~= s);
}

/// The line that assigns a value says just that.
proof fn lemma_assignment_line(name: Seq<char>, value: Seq<char>)
    requires
        plain_name(name),
        plain_value(value),
    ensures
        assignment(assignment_line(name, value)) == Some((name, value)),
        one_line(assignment_line(name, value)),
{
    reveal_strlit("=");
    let line = assignment_line(name, value);
    let n = name.len() as int;
    assert(line.len() == n + 1 + value.len());
    assert(line[n] == '=');
    assert(!white('='));
    assert(!white(line[0])) by {
        if n > 0 {
            assert(line[0] == name[0]);
        }
    }
    assert(!white(line.last())) by {
        if value.len() > 0 {
            assert(line.last() == value.last());
        }
    }
    lemma_trim_plain(line);
    assert(line[0] != '#') by {
        if n > 0 {
            assert(line[0] == name[0]);
        }
    }
    assert forall|j: int| 0 <= j < n implies line[j] != '=' by {
        assert(line[j] == name[j]);
    }
    lemma_char_at(line, '=', n);
    assert(line.take(n) =~= name);
    assert(line.skip(n + 1) =~= value);
    lemma_trim_plain(name);
    lemma_trim_plain(value);
    assert forall|i: int| 0 <= i < line.len() implies line[i] != '\n' by {
        if i < n {
            assert(line[i] == name[i]);
        } else if i > n {
            assert(line[i] == value[i - n - 1]);
        }
    }
}

/// A line says the same with and without a carriage return at its end.
proof fn lemma_assignment_cr(line: Seq<char>)
    ensures
        assignment(without_cr(line)) == assignment(line),
{
    lemma_trim_cr(line);
}

/// Two lists of lines that assign the same give a variable the same.
proof fn lemma_value_same(a: Seq<Seq<char>>, b: Seq<Seq<char>>, name: Seq<char>)
    requires
        a.len() <= b.len() <= a.len() + 1,
        forall|i: int| 0 <= i < a.len() ==> assignment(#[trigger] a[i]) == assignment(b[i]),
        a.len() < b.len() ==> assignment(b.last()) is None,
    ensures
        value_in(a, name) == value_in(b, name),
    decreases a.len(),
{
    if a.len() > 0 {
        assert(assignment(a[0]) == assignment(b[0]));
        let x = a.skip(1);
        let y = b.skip(1);
        assert forall|i: int| 0 <= i < x.len() implies assignment(#[trigger] x[i]) == assignment(
            y[i],
        ) by {
            assert(x[i] == a[i + 1]);
        }
        lemma_value_same(x, y, name);
    } else if b.len() > 0 {
        assert(b.skip(1) =~= Seq::empty());
        assert(!assigns(b[0], name));
    }
}

/// Lines that were joined and split again give a variable the same.
proof fn lemma_value_of_joined(lines: Seq<Seq<char>>, name: Seq<char>)
    requires
        forall|i: int| 0 <= i < lines.len() ==> one_line(#[trigger] lines[i]),
    ensures
        value_in(lines_of(joined(lines)), name) == value_in(lines, name),
{
    law_lines_of_joined(lines);
    let again = lines_of(joined(lines));
    assert forall|i: int| 0 <= i < again.len() implies assignment(#[trigger] again[i])
        == assignment(lines[i]) by {
        lemma_assignment_cr(lines[i]);
    }
    if again.len() < lines.len() {
        let last = lines.last();
        lemma_white_end(last, 0);
        lemma_white_start(last, white_end(last, 0), last.len() as int);
        assert(trimmed(last).len() == 0);
    }
    lemma_value_same(again, lines, name);
}

proof fn lemma_value_reassigned(
    lines: Seq<Seq<char>>,
    name: Seq<char>,
    value: Seq<char>,
    other: Seq<char>,
)
    requires
        plain_name(name),
        plain_value(value),
    ensures
        other != name ==> value_in(reassigned(lines, name, value), other) == value_in(
            lines,
            other,
        ),
        some_assigns(lines, name) ==> value_in(reassigned(lines, name, value), name) == (
        if no_value(value) {
            None
        } else {
            Some(value)
        }),
    decreases lines.len(),
{
    lemma_assignment_line(name, value);
    if lines.len() > 0 {
        let rest = lines.skip(1);
        let r = reassigned(lines, name, value);
        lemma_value_reassigned(rest, name, value, other);
        assert(r.skip(1) =~= reassigned(rest, name, value));
        if some_assigns(lines, name) && !assigns(lines[0], name) {
            let i = choose|i: int| 0 <= i < lines.len() && assigns(#[trigger] lines[i], name);
            assert(rest[i - 1] == lines[i]);
            assert(some_assigns(rest, name));
        }
    } else {
        assert(reassigned(lines, name, value) =~= lines);
    }
}

proof fn lemma_value_added(
    lines: Seq<Seq<char>>,
    name: Seq<char>,
    value: Seq<char>,
    other: Seq<char>,
)
    requires
        plain_name(name),
        plain_value(value),
        !some_assigns(lines, name),
    ensures
        other != name ==> value_in(lines.push(assignment_line(name, value)), other) == value_in(
            lines,
            other,
        ),
        value_in(lines.push(assignment_line(name, value)), name) == (if no_value(value) {
            None
        } else {
            Some(value)
        }),
    decreases lines.len(),
{
    let line = assignment_line(name, value);
    lemma_assignment_line(name, value);
    if lines.len() > 0 {
        let rest = lines.skip(1);
        assert(!assigns(lines[0], name));
        assert(!some_assigns(rest, name)) by {
            if some_assigns(rest, name) {
                let i = choose|i: int| 0 <= i < rest.len() && assigns(#[trigger] rest[i], name);
                assert(assigns(lines[i + 1], name));
            }
        }
        lemma_value_added(rest, name, value, other);
        assert(lines.push(line).skip(1) =~= rest.push(line));
        assert(lines.push(line)[0] == lines[0]);
    } else {
        assert(value_in(Seq::empty(), other) is None);
        assert(lines.push(line).skip(1) =~= Seq::empty());
        assert(lines.push(line)[0] == line);
    }
}

/// Reading a variable that was just set gives the value back; setting it to no
/// value, or to the placeholder, reads as no value.
pub proof fn law_read_after_write(content: Seq<char>, name: Seq<char>, value: Seq<char>)
    requires
        plain_name(name),
        plain_value(value),
    ensures
        env_value(env_written(content, name, value), name) == (if no_value(value) {
            None
        } else {
            Some(value)
        }),
{
    let lines = lines_of(content);
    lemma_lines_are_single(content);
    lemma_assignment_line(name, value);
    if some_assigns(lines, name) {
        lemma_value_reassigned(lines, name, value, name);
        let r = reassigned(lines, name, value);
        assert forall|i: int| 0 <= i < r.len() implies one_line(#[trigger] r[i]) by {
            assert(one_line(lines[i]));
        }
        lemma_value_of_joined(r, name);
    } else {
        lemma_value_added(lines, name, value, name);
        let r = lines.push(assignment_line(name, value));
        assert forall|i: int| 0 <= i < r.len() implies one_line(#[trigger] r[i]) by {
            if i < lines.len() {
                assert(one_line(lines[i]));
            }
        }
        lemma_value_of_joined(r, name);
    }
}

/// Setting one variable leaves every other as it was.
pub proof fn law_write_keeps_other_variables(
    content: Seq<char>,
    name: Seq<char>,
    value: Seq<char>,
    other: Seq<char>,
)
    requires
        plain_name(name),
        plain_value(value),
        other != name,
    ensures
        env_value(env_written(content, name, value), other) == env_value(content, other),
{
    let lines = lines_of(content);
    lemma_lines_are_single(content);
    lemma_assignment_line(name, value);
    if some_assigns(lines, name) {
        lemma_value_reassigned(lines, name, value, other);
        let r = reassigned(lines, name, value);
        assert forall|i: int| 0 <= i < r.len() implies one_line(#[trigger] r[i]) by {
            assert(one_line(lines[i]));
        }
        lemma_value_of_joined(r, other);
    } else {
        lemma_value_added(lines, name, value, other);
        let r = lines.push(assignment_line(name, value));
        assert forall|i: int| 0 <= i < r.len() implies one_line(#[trigger] r[i]) by {
            if i < lines.len() {
                assert(one_line(lines[i]));
            }
        }
        lemma_value_of_joined(r, other);
    }
}

/// A value that is shown is never the value of a variable whose name speaks of
/// a password, a secret or a key.
pub proof fn law_secrets_are_masked(name: Seq<char>, value: Seq<char>)
    requires
        contains_text(lowercase(name), "password"@) || contains_text(lowercase(name), "secret"@)
            || contains_text(lowercase(name), "key"@),
    ensures
        shown_value(name, value) == ""@ || shown_value(name, value) == "********"@,
{
}

/// A line assigns what stands after its first `=` to what stands before it, each
/// without the white space around it.
pub proof fn law_assignment(
    a: Seq<char>,
    name: Seq<char>,
    b: Seq<char>,
    c: Seq<char>,
    value: Seq<char>,
    d: Seq<char>,
)
    requires
        forall|i: int| 0 <= i < a.len() ==> white(#[trigger] a[i]),
        forall|i: int| 0 <= i < b.len() ==> white(#[trigger] b[i]),
        forall|i: int| 0 <= i < c.len() ==> white(#[trigger] c[i]),
        forall|i: int| 0 <= i < d.len() ==> white(#[trigger] d[i]),
        name.len() > 0,
        name[0] != '#' && !white(name[0]) && !white(name.last()),
        forall|i: int| 0 <= i < name.len() ==> name[i] != '=',
        value.len() > 0 ==> !white(value[0]) && !white(value.last()),
    ensures
        assignment(a + name + b + seq!['='] + c + value + d) == Some((name, value)),
{
    let line = a + name + b + seq!['='] + c + value + d;
    assert(!white('='));
    let none = Seq::<char>::empty();
    let (core, tail) = if value.len() > 0 {
        (name + b + seq!['='] + c + value, d)
    } else {
        (name + b + seq!['='], c + d)
    };
    assert(core[0] == name[0]);
    if value.len() > 0 {
        assert(core.last() == value.last());
        assert(line =~= a + core + tail);
    } else {
        assert(core.last() == '=');
        assert(line =~= a + core + tail);
        assert forall|i: int| 0 <= i < tail.len() implies white(#[trigger] tail[i]) by {
            if i < c.len() {
                assert(tail[i] == c[i]);
            } else {
                assert(tail[i] == d[i - c.len()]);
            }
        }
    }
    law_trim_takes_the_surrounding(a, core, tail);
    let key = name + b;
    assert forall|j: int| 0 <= j < key.len() implies key[j] != '=' by {
        if j < name.len() {
            assert(key[j] == name[j]);
        } else {
            assert(key[j] == b[j - name.len()]);
        }
    }
    let rest = if value.len() > 0 {
        c + value
    } else {
        none
    };
    assert(core =~= key + seq!['='] + rest);
    law_pieces(key, '=', rest);
    law_trim_takes_the_surrounding(none, name, b);
    assert(none + name + b =~= key);
    law_trim_takes_the_surrounding(c, value, none);
    if value.len() > 0 {
        assert(c + value + none =~= rest);
    } else {
        law_trim_takes_the_surrounding(none, none, none);
        assert(none + none + none =~= none);
        assert(value =~= none);
    }
}

/// A line of white space alone, a comment, and a line without `=` assign nothing.
pub proof fn law_no_assignment(a: Seq<char>, core: Seq<char>, d: Seq<char>)
    requires
        forall|i: int| 0 <= i < a.len() ==> white(#[trigger] a[i]),
        forall|i: int| 0 <= i < d.len() ==> white(#[trigger] d[i]),
        core.len() > 0 ==> !white(core[0]) && !white(core.last()),
        core.len() == 0 || core[0] == '#' || forall|i: int| 0 <= i < core.len() ==> core[i] != '=',
    ensures
        assignment(a + core + d) is None,
{
    law_trim_takes_the_surrounding(a, core, d);
    if forall|i: int| 0 <= i < core.len() ==> core[i] != '=' {
        law_pieces(core, '=', Seq::empty());
    }
}

/// The first line that assigns to a variable decides: it gives its value, unless
/// that is nothing or the placeholder. Without such a line there is none.
pub proof fn law_first_assignment_decides(
    before: Seq<Seq<char>>,
    line: Seq<char>,
    after: Seq<Seq<char>>,
    name: Seq<char>,
    value: Seq<char>,
)
    requires
        forall|i: int|
            0 <= i < before.len() ==> assignment(#[trigger] before[i]) is None || (assignment(
                before[i],
            )->0).0 != name,
        assignment(line) == Some((name, value)),
    ensures
        value_in(before, name) is None,
        value_in(before.push(line) + after, name) == (if value.len() == 0 || value
            == "placeholder"@ {
            None
        } else {
            Some(value)
        }),
    decreases before.len(),
{
    let all = before.push(line) + after;
    if before.len() > 0 {
        let rest = before.skip(1);
        assert forall|i: int| 0 <= i < rest.len() implies assignment(#[trigger] rest[i]) is None
            || (assignment(rest[i])->0).0 != name by {
            assert(rest[i] == before[i + 1]);
        }
        law_first_assignment_decides(rest, line, after, name, value);
        assert(all[0] == before[0]);
        assert(!assigns(before[0], name));
        assert(all.skip(1) =~= rest.push(line) + after);
    } else {
        assert(all[0] == line);
        assert(assigns(line, name));
    }
}

/// Setting a variable changes the lines that assign to it, and no other; where
/// there is none, one more comes at the end.
pub proof fn law_write_changes_only_its_lines(
    content: Seq<char>,
    name: Seq<char>,
    value: Seq<char>,
) -> (lines: Seq<Seq<char>>)
    ensures
        env_written(content, name, value) == joined(lines),
        forall|i: int|
            0 <= i < lines_of(content).len() ==> {
                let was = #[trigger] lines_of(content)[i];
                let hit = assignment(was) is Some && (assignment(was)->0).0 == name;
                &&& hit ==> lines[i] == name + "="@ + value
                &&& !hit ==> lines[i] == was
            },
        (exists|i: int|
            0 <= i < lines_of(content).len() && assignment(#[trigger] lines_of(content)[i]) is Some
                && (assignment(lines_of(content)[i])->0).0 == name) ==> lines.len() == lines_of(
            content,
        ).len(),
        (forall|i: int|
            0 <= i < lines_of(content).len() ==> assignment(#[trigger] lines_of(content)[i]) is None
                || (assignment(lines_of(content)[i])->0).0 != name) ==> lines.len() == lines_of(
            content,
        ).len() + 1 && lines.last() == name + "="@ + value,
{
    let was = lines_of(content);
    if some_assigns(was, name) {
        let i = choose|i: int| 0 <= i < was.len() && assigns(#[trigger] was[i], name);
        assert(assignment(was[i]) is Some && (assignment(was[i])->0).0 == name);
        reassigned(was, name, value)
    } else {
        if exists|i: int|
            0 <= i < was.len() && assignment(#[trigger] was[i]) is Some && (assignment(was[i])->0).0
                == name {
            let i = choose|i: int|
                0 <= i < was.len() && assignment(#[trigger] was[i]) is Some && (assignment(
                    was[i],
                )->0).0 == name;
            assert(assigns(was[i], name));
        }
        assert forall|i: int| 0 <= i < was.len() implies !assigns(#[trigger] was[i], name) by {}
        was.push(assignment_line(name, value))
    }
}

/// Several variables are set one after the other.
pub proof fn law_writes_in_order(content: Seq<char>, vars: Seq<(String, String)>, var: (String, String))
    ensures
        env_written_all(content, Seq::empty()) == content,
        env_written_all(content, vars.push(var)) == env_written(
            env_written_all(content, vars),
            var.0@,
            var.1@,
        ),
{
    assert(vars.push(var).drop_last() =~= vars);
}

/// A variable is set where a value is given for it, and stays where none is.
pub proof fn law_optional_writes(content: Seq<char>, name: Seq<char>, value: Seq<char>)
    ensures
        env_written_opt(content, name, Some(value)) == env_written(content, name, value),
        env_written_opt(content, name, None) == content,
        given_no_value(Some(value)) <==> value.len() == 0 || value == "placeholder"@,
        !given_no_value(None),
{
}

/// A value is shown as it is unless it stands for none or the name of its variable
/// speaks of a password, a secret or a key; a value is hidden whatever it is.
pub proof fn law_shown_values(name: Seq<char>, value: Seq<char>)
    ensures
        value.len() == 0 || value == "placeholder"@ ==> shown_value(name, value).len() == 0,
        value.len() > 0 && value != "placeholder"@ ==> {
            let hidden = contains_text(lowercase(name), "password"@) || contains_text(
                lowercase(name),
                "secret"@,
            ) || contains_text(lowercase(name), "key"@);
            &&& hidden ==> shown_value(name, value) == "********"@
            &&& !hidden ==> shown_value(name, value) == value
        },
{
    reveal_strlit("");
}

/// Every line that assigns shows its variable, in order; others show nothing.
pub proof fn law_shown_lines(lines: Seq<Seq<char>>, line: Seq<char>)
    ensures
        shown_in(Seq::empty()).len() == 0,
        assignment(line) is None ==> shown_in(lines.push(line)) == shown_in(lines),
        assignment(line) is Some ==> shown_in(lines.push(line)) == shown_in(lines).push(
            ((assignment(line)->0).0, shown_value((assignment(line)->0).0, (assignment(line)->0).1)),
        ),
{
    assert(lines.push(line).drop_last() =~= lines);
}

/// A cookie grants access where it sets the name to `1`, and nothing else does;
/// of the cookies of a request one has to.
pub proof fn law_cookies(cookie: Seq<char>, header: Seq<char>, name: Seq<char>)
    requires
        forall|i: int| 0 <= i < name.len() ==> name[i] != '=',
    ensures
        grants(cookie, name) <==> trimmed(cookie) == name + seq!['='] + seq!['1'],
        some_grants(header, name) <==> exists|i: int|
            0 <= i < pieces_of(header, ';').len() && trimmed(#[trigger] pieces_of(header, ';')[i])
                == name + seq!['='] + seq!['1'],
{
    lemma_grants(cookie, name);
    let all = pieces_of(header, ';');
    assert forall|i: int| 0 <= i < all.len() implies (grants(#[trigger] all[i], name) <==> trimmed(
        all[i],
    ) == name + seq!['='] + seq!['1']) by {
        lemma_grants(all[i], name);
    }
    if exists|i: int|
        0 <= i < all.len() && trimmed(#[trigger] all[i]) == name + seq!['='] + seq!['1'] {
        let i = choose|i: int|
            0 <= i < all.len() && trimmed(#[trigger] all[i]) == name + seq!['='] + seq!['1'];
        assert(grants(all[i], name));
    }
}

proof fn lemma_grants(cookie: Seq<char>, name: Seq<char>)
    requires
        forall|i: int| 0 <= i < name.len() ==> name[i] != '=',
    ensures
        grants(cookie, name) <==> trimmed(cookie) == name + seq!['='] + seq!['1'],
{
    reveal_strlit("1");
    let t = trimmed(cookie);
    assert("1"@ =~= seq!['1']);
    law_pieces(name, '=', seq!['1']);
    if grants(cookie, name) {
        lemma_char_from(t, '=', 0);
        let k = char_from(t, '=', 0)->0;
        assert(t =~= t.take(k) + seq!['='] + t.skip(k + 1));
    }
}

} // verus!
