//! The history of an entity: what stands in the log, and what the entity itself
//! remembers.
use vstd::prelude::*;

use crate::entity::{record_views, HistoryRecord, RecordView};
use crate::text::same_text;
use crate::world::at_most;

verus! {

/// What the log says of an action of an entity: when it was, in microseconds, and
/// which.
#[derive(Debug)]
pub struct LoggedAction {
    pub at: i64,
    pub action: String,
}

/// What a `LoggedAction` holds.
pub struct LoggedView {
    pub at: i64,
    pub action: Seq<char>,
}

impl View for LoggedAction {
    type V = LoggedView;

    open spec fn view(&self) -> LoggedView {
        LoggedView { at: self.at, action: self.action@ }
    }
}

/// What a log holds.
pub open spec fn logged_views(s: Seq<LoggedAction>) -> Seq<LoggedView> {
    Seq::new(s.len(), |i: int| s[i]@)
}

/// Where an action is found: at a place of the log, or at one of what the entity
/// remembers.
#[derive(Debug, Clone, Copy, PartialEq, Eq)]
pub enum Found {
    Logged(usize),
    Remembered(usize),
}

/// Where an action is found, as integers.
pub enum FoundView {
    Logged(int),
    Remembered(int),
}

impl View for Found {
    type V = FoundView;

    open spec fn view(&self) -> FoundView {
        match self {
            Found::Logged(i) => FoundView::Logged(*i as int),
            Found::Remembered(i) => FoundView::Remembered(*i as int),
        }
    }
}

/// What a list of such places holds.
pub open spec fn found_views(s: Seq<Found>) -> Seq<FoundView> {
    Seq::new(s.len(), |i: int| s[i]@)
}

/// The log has the action: one of the same time and name.
pub open spec fn is_logged(log: Seq<LoggedView>, r: RecordView) -> bool {
    exists|i: int| 0 <= i < log.len() && (#[trigger] log[i]).at == r.at && log[i].action == r.action
}

/// The log from place `i` on and the first `n` of what is remembered in one list,
/// the most recent first; what is remembered and stands in the log comes once.
/// The log has the most recent first, and what is remembered has it last.
pub open spec fn merged(
    log: Seq<LoggedView>,
    remembered: Seq<RecordView>,
    i: int,
    n: int,
) -> Seq<FoundView>
    decreases log.len() - i, n,
{
    if n > 0 && is_logged(log, remembered[n - 1]) {
        merged(log, remembered, i, n - 1)
    } else if 0 <= i < log.len() && (n <= 0 || log[i].at >= remembered[n - 1].at) {
        seq![FoundView::Logged(i)] + merged(log, remembered, i + 1, n)
    } else if n > 0 {
        seq![FoundView::Remembered(n - 1)] + merged(log, remembered, i, n - 1)
    } else {
        Seq::empty()
    }
}

/// The history of an entity.
pub open spec fn whole_history(log: Seq<LoggedView>, remembered: Seq<RecordView>) -> Seq<FoundView> {
    merged(log, remembered, 0, remembered.len() as int)
}

fn log_has(log: &Vec<LoggedAction>, r: &HistoryRecord) -> (b: bool)
    ensures
        b == is_logged(logged_views(log@), r@),
{
    let ghost all = logged_views(log@);
    let mut i: usize = 0;
    while i < log.len()
        invariant
            i <= log@.len(),
            all == logged_views(log@),
            forall|j: int|
                0 <= j < i ==> !((#[trigger] all[j]).at == r@.at && all[j].action == r@.action),
        decreases log.len() - i,
    {
        assert(all[i as int] == log@[i as int]@);
        if log[i].at == r.at && same_text(log[i].action.as_str(), r.action.as_str()) {
            return true;
        }
        i = i + 1;
    }
    false
}

/// Merges what the log has of an entity with what the entity remembers: the most
/// recent actions first, and no more than `limit`. An action of the same time and
/// name is taken from the log. The log has the most recent first, and what is
/// remembered has it last.
pub fn merge_history(
    log: &Vec<LoggedAction>,
    remembered: &Vec<HistoryRecord>,
    limit: usize,
) -> (r: Vec<Found>)
    ensures
        found_views(r@) == at_most(
            whole_history(logged_views(log@), record_views(remembered@)),
            limit as int,
        ),
{
    let ghost l = logged_views(log@);
    let ghost m = record_views(remembered@);
    let ghost all = whole_history(l, m);
    let mut out: Vec<Found> = Vec::new();
    let mut i: usize = 0;
    let mut n: usize = remembered.len();
    assert(found_views(out@) + merged(l, m, 0, n as int) =~= all);
    while out.len() < limit && (i < log.len() || n > 0)
        invariant
            l == logged_views(log@),
            m == record_views(remembered@),
            i <= log@.len(),
            n <= remembered@.len(),
            out@.len() <= limit,
            found_views(out@) + merged(l, m, i as int, n as int) == all,
        decreases log.len() - i + n,
    {
        let ghost before = out@;
        let ghost rest = merged(l, m, i as int, n as int);
        if n > 0 && log_has(log, &remembered[n - 1]) {
            n = n - 1;
        } else if i < log.len() && (n == 0 || log[i].at >= remembered[n - 1].at) {
            out.push(Found::Logged(i));
            assert(found_views(out@) + merged(l, m, i + 1, n as int) =~= found_views(before)
                + rest);
            i = i + 1;
        } else {
            out.push(Found::Remembered(n - 1));
            assert(found_views(out@) + merged(l, m, i as int, n - 1) =~= found_views(before)
                + rest);
            n = n - 1;
        }
    }
    assert(found_views(out@) =~= at_most(all, limit as int));
    out
}

// ---------------------------------------------------------------------------
// Laws
// ---------------------------------------------------------------------------
/// When an action that was found happened.
pub open spec fn found_at(log: Seq<LoggedView>, remembered: Seq<RecordView>, f: FoundView) -> i64 {
    match f {
        FoundView::Logged(i) => log[i].at,
        FoundView::Remembered(i) => remembered[i].at,
    }
}

proof fn lemma_merged_members(
    log: Seq<LoggedView>,
    remembered: Seq<RecordView>,
    i: int,
    n: int,
    f: FoundView,
)
    requires
        0 <= i <= log.len(),
        0 <= n <= remembered.len(),
    ensures
        merged(log, remembered, i, n).contains(f) <==> match f {
            FoundView::Logged(k) => i <= k < log.len(),
            FoundView::Remembered(k) => 0 <= k < n && !is_logged(log, remembered[k]),
        },
    decreases log.len() - i, n,
{
    if n > 0 && is_logged(log, remembered[n - 1]) {
        lemma_merged_members(log, remembered, i, n - 1, f);
    } else if i < log.len() && (n <= 0 || log[i].at >= remembered[n - 1].at) {
        lemma_merged_members(log, remembered, i + 1, n, f);
        lemma_front_contains(FoundView::Logged(i), merged(log, remembered, i + 1, n), f);
    } else if n > 0 {
        lemma_merged_members(log, remembered, i, n - 1, f);
        lemma_front_contains(FoundView::Remembered(n - 1), merged(log, remembered, i, n - 1), f);
    }
}

proof fn lemma_front_contains(x: FoundView, s: Seq<FoundView>, f: FoundView)
    ensures
        (seq![x] + s).contains(f) <==> x == f || s.contains(f),
{
    let all = seq![x] + s;
    if all.contains(f) {
        let k = choose|k: int| 0 <= k < all.len() && all[k] == f;
        if k > 0 {
            assert(s[k - 1] == f);
        }
    }
    if x == f {
        assert(all[0] == f);
    }
    if s.contains(f) {
        let k = choose|k: int| 0 <= k < s.len() && s[k] == f;
        assert(all[k + 1] == f);
    }
}

/// The history holds every action of the log, and every remembered one that is
/// not in the log, and nothing else.
pub proof fn law_history_is_whole(log: Seq<LoggedView>, remembered: Seq<RecordView>, f: FoundView)
    ensures
        whole_history(log, remembered).contains(f) <==> match f {
            FoundView::Logged(k) => 0 <= k < log.len(),
            FoundView::Remembered(k) => 0 <= k < remembered.len() && !is_logged(log, remembered[k]),
        },
{
    lemma_merged_members(log, remembered, 0, remembered.len() as int, f);
}

proof fn lemma_merged_order(log: Seq<LoggedView>, remembered: Seq<RecordView>, i: int, n: int)
    requires
        0 <= i <= log.len(),
        0 <= n <= remembered.len(),
        forall|a: int, b: int|
            0 <= a < b < log.len() ==> (#[trigger] log[a]).at >= (#[trigger] log[b]).at,
        forall|a: int, b: int|
            0 <= a < b < remembered.len() ==> (#[trigger] remembered[a]).at <= (
            #[trigger] remembered[b]).at,
    ensures
        merged(log, remembered, i, n).no_duplicates(),
        forall|a: int, b: int|
            0 <= a < b < merged(log, remembered, i, n).len() ==> found_at(
                log,
                remembered,
                #[trigger] merged(log, remembered, i, n)[a],
            ) >= found_at(log, remembered, #[trigger] merged(log, remembered, i, n)[b]),
    decreases log.len() - i, n,
{
    let all = merged(log, remembered, i, n);
    if n > 0 && is_logged(log, remembered[n - 1]) {
        lemma_merged_order(log, remembered, i, n - 1);
    } else if i < log.len() || n > 0 {
        let from_log = i < log.len() && (n <= 0 || log[i].at >= remembered[n - 1].at);
        let (i2, n2) = if from_log {
            (i + 1, n)
        } else {
            (i, n - 1)
        };
        let rest = merged(log, remembered, i2, n2);
        lemma_merged_order(log, remembered, i2, n2);
        assert(all == seq![all[0]] + rest);
        assert forall|b: int| 1 <= b < all.len() implies all[0] != #[trigger] all[b] && found_at(
            log,
            remembered,
            all[0],
        ) >= found_at(log, remembered, all[b]) by {
            assert(all[b] == rest[b - 1]);
            assert(rest.contains(all[b]));
            lemma_merged_members(log, remembered, i2, n2, all[b]);
        }
        assert forall|a: int, b: int| 0 <= a < b < all.len() implies found_at(
            log,
            remembered,
            #[trigger] all[a],
        ) >= found_at(log, remembered, #[trigger] all[b]) by {
            if a > 0 {
                assert(all[a] == rest[a - 1] && all[b] == rest[b - 1]);
            }
        }
        assert forall|a: int, b: int|
            0 <= a < all.len() && 0 <= b < all.len() && a != b implies all[a] != all[b] by {
            if a > 0 && b > 0 {
                assert(all[a] == rest[a - 1] && all[b] == rest[b - 1]);
            }
        }
    }
}

/// Where the log has the most recent first and what is remembered has it last,
/// the history has the most recent first, and nothing comes twice.
pub proof fn law_history_is_in_order(log: Seq<LoggedView>, remembered: Seq<RecordView>)
    requires
        forall|a: int, b: int|
            0 <= a < b < log.len() ==> (#[trigger] log[a]).at >= (#[trigger] log[b]).at,
        forall|a: int, b: int|
            0 <= a < b < remembered.len() ==> (#[trigger] remembered[a]).at <= (
            #[trigger] remembered[b]).at,
    ensures
        whole_history(log, remembered).no_duplicates(),
        forall|a: int, b: int|
            0 <= a < b < whole_history(log, remembered).len() ==> found_at(
                log,
                remembered,
                #[trigger] whole_history(log, remembered)[a],
            ) >= found_at(log, remembered, #[trigger] whole_history(log, remembered)[b]),
{
    lemma_merged_order(log, remembered, 0, remembered.len() as int);
}

/// An action counts as logged where the log has one of its time and name.
pub proof fn law_logged(log: Seq<LoggedView>, r: RecordView, k: int)
    requires
        0 <= k < log.len(),
    ensures
        log[k].at == r.at && log[k].action == r.action ==> is_logged(log, r),
        (forall|i: int|
            0 <= i < log.len() ==> (#[trigger] log[i]).at != r.at || log[i].action != r.action)
            ==> !is_logged(log, r),
{
}

} // verus!
