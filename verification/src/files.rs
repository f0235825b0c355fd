//! Files that the server hands out: their names, their types, and which ones it
//! keeps to itself.
use vstd::prelude::*;
use vstd::string::*;

use crate::text::{
    begins_with, chars_of, contains_text, copied, ends_with, has_prefix, has_suffix, has_text,
    law_parts_are_found, same_text, texts,
};

verus! {

/// The name of a backup of the project.
pub open spec fn backup_name(name: Seq<char>) -> bool {
    begins_with(name, "open-world-backup-"@) && ends_with(name, ".tar.gz"@)
}

/// Whether a file name is that of a backup of the project.
pub fn is_backup_filename(name: &str) -> (r: bool)
    ensures
        r == backup_name(name@),
{
    has_prefix(name, "open-world-backup-") && has_suffix(name, ".tar.gz")
}

/// The name of a backup made at the given time.
pub fn backup_filename(timestamp: &str) -> (r: String)
    ensures
        r@ == "open-world-backup-"@ + timestamp@ + ".tar.gz"@,
{
    let mut s: String = copied("open-world-backup-");
    s.append(timestamp);
    s.append(".tar.gz");
    s
}

/// The name of a snapshot of the world made at the given time, for the given
/// reason.
pub fn snapshot_filename(label: &str, timestamp: &str) -> (r: String)
    ensures
        r@ == "save-"@ + label@ + "-"@ + timestamp@ + ".owbl"@,
{
    let mut s: String = copied("save-");
    s.append(label);
    s.append("-");
    s.append(timestamp);
    s.append(".owbl");
    s
}

/// The name of the snapshot of the history that goes with it.
pub fn history_snapshot_filename(label: &str, timestamp: &str) -> (r: String)
    ensures
        r@ == "action_history-"@ + label@ + "-"@ + timestamp@ + ".jsonl"@,
{
    let mut s: String = copied("action_history-");
    s.append(label);
    s.append("-");
    s.append(timestamp);
    s.append(".jsonl");
    s
}

/// The type under which a file is handed out, by the end of its name.
pub open spec fn content_type_of(name: Seq<char>) -> Seq<char> {
    if ends_with(name, ".rs"@) {
        "text/plain"@
    } else if ends_with(name, ".html"@) {
        "text/html"@
    } else if ends_with(name, ".css"@) {
        "text/css"@
    } else if ends_with(name, ".json"@) {
        "application/json"@
    } else if ends_with(name, ".md"@) {
        "text/markdown"@
    } else if ends_with(name, ".toml"@) {
        "application/toml"@
    } else {
        "application/octet-stream"@
    }
}

/// The type under which a file is handed out.
pub fn content_type(name: &str) -> (r: &'static str)
    ensures
        r@ == content_type_of(name@),
{
    if has_suffix(name, ".rs") {
        "text/plain"
    } else if has_suffix(name, ".html") {
        "text/html"
    } else if has_suffix(name, ".css") {
        "text/css"
    } else if has_suffix(name, ".json") {
        "application/json"
    } else if has_suffix(name, ".md") {
        "text/markdown"
    } else if has_suffix(name, ".toml") {
        "application/toml"
    } else {
        "application/octet-stream"
    }
}

/// Whether a path of the project leads into the directory of build outputs,
/// which is not handed out.
pub fn in_build_directory(path: &str) -> (r: bool)
    ensures
        r == (contains_text(path@, "/target/"@) || begins_with(path@, "target/"@)),
{
    has_text(path, "/target/") || has_prefix(path, "target/")
}

/// Whether a file or directory of the project is passed over in listings.
pub fn is_skipped_name(name: &str) -> (r: bool)
    ensures
        r == (name@ == "target"@ || name@ == ".git"@),
{
    same_text(name, "target") || same_text(name, ".git")
}

/// Whether a file is small enough to be listed: below ten million bytes.
pub fn is_listed_size(size: u64) -> (r: bool)
    ensures
        r == (size < 10_000_000),
{
    size < 10_000_000
}

// ---------------------------------------------------------------------------
// Listings
// ---------------------------------------------------------------------------
/// `a` comes before `b` or is the same, from index `i` on: character by
/// character, where a text comes before its continuations.
pub open spec fn text_le_from(a: Seq<char>, b: Seq<char>, i: int) -> bool
    decreases a.len() - i,
{
    if i < 0 || i >= a.len() {
        true
    } else if i >= b.len() {
        false
    } else if a[i] == b[i] {
        text_le_from(a, b, i + 1)
    } else {
        a[i] < b[i]
    }
}

/// `a` comes before `b` or is the same.
pub open spec fn text_le(a: Seq<char>, b: Seq<char>) -> bool {
    text_le_from(a, b, 0)
}

/// Whether `a` comes before `b` or is the same.
fn is_text_le(a: &Vec<char>, b: &Vec<char>) -> (r: bool)
    ensures
        r == text_le(a@, b@),
{
    let mut i: usize = 0;
    while i < a.len() && i < b.len() && a[i] == b[i]
        invariant
            i <= a@.len(),
            i <= b@.len(),
            text_le(a@, b@) == text_le_from(a@, b@, i as int),
        decreases a.len() - i,
    {
        i = i + 1;
    }
    if i >= a.len() {
        true
    } else if i >= b.len() {
        false
    } else {
        a[i] < b[i]
    }
}

/// `a` may stand before `b` in a listing.
pub open spec fn listed_le(a: Seq<char>, b: Seq<char>, descending: bool) -> bool {
    if descending {
        text_le(b, a)
    } else {
        text_le(a, b)
    }
}

/// Number `x` put in its place among `order`, a listing of numbers by their
/// keys: behind all that may stand before it.
pub open spec fn listed_in(
    keys: Seq<Seq<char>>,
    order: Seq<int>,
    x: int,
    descending: bool,
) -> Seq<int>
    decreases order.len(),
{
    if order.len() == 0 || listed_le(keys[order.last()], keys[x], descending) {
        order.push(x)
    } else {
        listed_in(keys, order.drop_last(), x, descending).push(order.last())
    }
}

/// The numbers below `n`, listed by their keys; of equal keys, the lower
/// number comes first.
pub open spec fn listing(keys: Seq<Seq<char>>, n: int, descending: bool) -> Seq<int>
    decreases n,
{
    if n <= 0 {
        Seq::empty()
    } else {
        listed_in(keys, listing(keys, n - 1, descending), n - 1, descending)
    }
}

/// The numbers of the keys in the order of the keys, ascending or descending;
/// of equal keys, the lower number comes first.
pub fn order_by_text(keys: &Vec<String>, descending: bool) -> (r: Vec<usize>)
    ensures
        Seq::new(r@.len(), |i: int| r@[i] as int) == listing(
            texts(keys@),
            keys@.len() as int,
            descending,
        ),
{
    let ghost all = texts(keys@);
    let mut out: Vec<usize> = Vec::new();
    let mut n: usize = 0;
    assert(Seq::new(out@.len(), |i: int| out@[i] as int) =~= Seq::empty());
    while n < keys.len()
        invariant
            n <= keys@.len(),
            all == texts(keys@),
            Seq::new(out@.len(), |i: int| out@[i] as int) == listing(all, n as int, descending),
            forall|i: int| 0 <= i < out@.len() ==> (#[trigger] out@[i]) < n,
        decreases keys.len() - n,
    {
        let ghost before = out@;
        let ghost order = Seq::new(before.len(), |i: int| before[i] as int);
        let key = chars_of(keys[n].as_str());
        let mut at: usize = out.len();
        assert(order.take(at as int) =~= order);
        assert(listed_in(all, order, n as int, descending) =~= listed_in(
            all,
            order.take(at as int),
            n as int,
            descending,
        ) + order.skip(at as int));
        let mut placed: bool = false;
        while at > 0 && !placed
            invariant
                at <= out@.len(),
                n < keys@.len(),
                all == texts(keys@),
                key@ == all[n as int],
                out@ == before,
                order == Seq::new(before.len(), |i: int| before[i] as int),
                forall|i: int| 0 <= i < out@.len() ==> (#[trigger] out@[i]) < n,
                listed_in(all, order, n as int, descending) == listed_in(
                    all,
                    order.take(at as int),
                    n as int,
                    descending,
                ) + order.skip(at as int),
                placed ==> at > 0 && listed_le(all[order[at - 1]], all[n as int], descending),
            decreases at, (if placed {
                0int
            } else {
                1int
            }),
        {
            let other = chars_of(keys[out[at - 1]].as_str());
            let before_it: bool = if descending {
                is_text_le(&key, &other)
            } else {
                is_text_le(&other, &key)
            };
            if before_it {
                placed = true;
            } else {
                assert(order.take(at as int).drop_last() =~= order.take(at - 1));
                assert(order.take(at as int).last() == order[at - 1]);
                assert(listed_in(all, order.take(at as int), n as int, descending) + order.skip(
                    at as int,
                ) =~= listed_in(all, order.take(at - 1), n as int, descending) + order.skip(
                    at - 1,
                ));
                at = at - 1;
            }
        }
        out.insert(at, n);
        proof {
            assert(order.take(at as int).len() == at);
            if at > 0 {
                assert(order.take(at as int).last() == order[at - 1]);
            }
            assert(listed_in(all, order.take(at as int), n as int, descending) == order.take(
                at as int,
            ).push(n as int));
            assert(Seq::new(out@.len(), |i: int| out@[i] as int) =~= order.take(at as int).push(
                n as int,
            ) + order.skip(at as int));
        }
        n = n + 1;
    }
    out
}

// ---------------------------------------------------------------------------
// Laws
// ---------------------------------------------------------------------------
/// Every backup that is made can be told by its name.
pub proof fn law_backups_are_recognised(timestamp: Seq<char>)
    ensures
        backup_name("open-world-backup-"@ + timestamp + ".tar.gz"@),
{
    let s = "open-world-backup-"@ + timestamp + ".tar.gz"@;
    assert(s.subrange(0, "open-world-backup-"@.len() as int) =~= "open-world-backup-"@);
    assert(s.subrange(s.len() - ".tar.gz"@.len(), s.len() as int) =~= ".tar.gz"@);
}

/// Of two texts one comes before the other or is the same.
pub proof fn law_text_order_is_total(a: Seq<char>, b: Seq<char>)
    ensures
        text_le(a, b) || text_le(b, a),
{
    lemma_text_total(a, b, 0);
}

proof fn lemma_text_total(a: Seq<char>, b: Seq<char>, i: int)
    requires
        i >= 0,
    ensures
        text_le_from(a, b, i) || text_le_from(b, a, i),
    decreases a.len() - i,
{
    if i < a.len() && i < b.len() && a[i] == b[i] {
        lemma_text_total(a, b, i + 1);
    }
}

/// What comes before something comes before all that follows it.
pub proof fn law_text_order_is_transitive(a: Seq<char>, b: Seq<char>, c: Seq<char>)
    requires
        text_le(a, b),
        text_le(b, c),
    ensures
        text_le(a, c),
{
    lemma_text_transitive(a, b, c, 0);
}

proof fn lemma_text_transitive(a: Seq<char>, b: Seq<char>, c: Seq<char>, i: int)
    requires
        i >= 0,
        text_le_from(a, b, i),
        text_le_from(b, c, i),
    ensures
        text_le_from(a, c, i),
    decreases a.len() - i,
{
    if i < a.len() && i < b.len() && i < c.len() && a[i] == b[i] && b[i] == c[i] {
        lemma_text_transitive(a, b, c, i + 1);
    }
}

/// Every key may stand before those behind it.
pub open spec fn in_order(keys: Seq<Seq<char>>, order: Seq<int>, descending: bool) -> bool {
    forall|i: int, j: int|
        0 <= i < j < order.len() ==> listed_le(
            keys[#[trigger] order[i]],
            keys[#[trigger] order[j]],
            descending,
        )
}

proof fn lemma_listed_in(keys: Seq<Seq<char>>, order: Seq<int>, x: int, descending: bool)
    requires
        in_order(keys, order, descending),
    ensures
        in_order(keys, listed_in(keys, order, x, descending), descending),
        listed_in(keys, order, x, descending).to_multiset() == order.to_multiset().insert(x),
        listed_in(keys, order, x, descending).len() == order.len() + 1,
        forall|i: int|
            0 <= i < order.len() + 1 ==> #[trigger] listed_in(keys, order, x, descending)[i] == x
                || order.contains(listed_in(keys, order, x, descending)[i]),
    decreases order.len(),
{
    broadcast use vstd::seq_lib::group_to_multiset_ensures;

    let r = listed_in(keys, order, x, descending);
    if order.len() == 0 || listed_le(keys[order.last()], keys[x], descending) {
        assert forall|i: int, j: int| 0 <= i < j < r.len() implies listed_le(
            keys[#[trigger] r[i]],
            keys[#[trigger] r[j]],
            descending,
        ) by {
            if j == order.len() && i < order.len() - 1 {
                let l = order[order.len() - 1];
                assert(listed_le(keys[order[i]], keys[l], descending));
                if descending {
                    law_text_order_is_transitive(keys[x], keys[l], keys[order[i]]);
                } else {
                    law_text_order_is_transitive(keys[order[i]], keys[l], keys[x]);
                }
            }
        }
        assert forall|i: int| 0 <= i < r.len() implies #[trigger] r[i] == x || order.contains(
            r[i],
        ) by {
            if i < order.len() {
                assert(order[i] == r[i]);
            }
        }
    } else {
        let d = order.drop_last();
        let l = order.last();
        assert(in_order(keys, d, descending)) by {
            assert forall|i: int, j: int| 0 <= i < j < d.len() implies listed_le(
                keys[#[trigger] d[i]],
                keys[#[trigger] d[j]],
                descending,
            ) by {
                assert(listed_le(keys[order[i]], keys[order[j]], descending));
            }
        }
        lemma_listed_in(keys, d, x, descending);
        let q = listed_in(keys, d, x, descending);
        law_text_order_is_total(keys[x], keys[l]);
        assert forall|i: int, j: int| 0 <= i < j < r.len() implies listed_le(
            keys[#[trigger] r[i]],
            keys[#[trigger] r[j]],
            descending,
        ) by {
            if j < q.len() {
                assert(listed_le(keys[q[i]], keys[q[j]], descending));
            } else if q[i] != x {
                let k = choose|k: int| 0 <= k < d.len() && d[k] == q[i];
                assert(listed_le(keys[order[k]], keys[order[order.len() - 1]], descending));
            }
        }
        assert(order =~= d.push(l));
        assert forall|i: int| 0 <= i < r.len() implies #[trigger] r[i] == x || order.contains(
            r[i],
        ) by {
            if i < q.len() {
                assert(r[i] == q[i]);
                if q[i] != x {
                    let k = choose|k: int| 0 <= k < d.len() && d[k] == q[i];
                    assert(order[k] == q[i]);
                }
            } else {
                assert(order[order.len() - 1] == r[i]);
            }
        }
    }
}

/// A listing is in order and lists every number below `n` once.
pub proof fn law_listing(keys: Seq<Seq<char>>, n: int, descending: bool)
    requires
        0 <= n <= keys.len(),
    ensures
        listing(keys, n, descending).len() == n,
        in_order(keys, listing(keys, n, descending), descending),
        listing(keys, n, descending).to_multiset() == Seq::new(
            n as nat,
            |i: int| i,
        ).to_multiset(),
    decreases n,
{
    broadcast use vstd::seq_lib::group_to_multiset_ensures;

    let all = Seq::new(n as nat, |i: int| i);
    if n > 0 {
        law_listing(keys, n - 1, descending);
        lemma_listed_in(keys, listing(keys, n - 1, descending), n - 1, descending);
        assert(all =~= Seq::new((n - 1) as nat, |i: int| i).push(n - 1));
    } else {
        assert(all =~= listing(keys, n, descending));
    }
}

/// A text comes before every text that goes on from it; of two texts that part at
/// some character, the one with the smaller character comes first; and only equal
/// texts come before each other.
pub proof fn law_text_order(p: Seq<char>, a: Seq<char>, b: Seq<char>)
    ensures
        text_le(p, p + a),
        a.len() > 0 ==> !text_le(p + a, p),
        a.len() > 0 && b.len() > 0 && a[0] < b[0] ==> text_le(p + a, p + b) && !text_le(p + b, p + a),
        text_le(a, b) && text_le(b, a) ==> a == b,
{
    lemma_common_start(p, a, b, 0);
    lemma_common_start(p, a, Seq::empty(), 0);
    lemma_common_start(p, Seq::empty(), a, 0);
    lemma_common_start(p, b, a, 0);
    assert(p + Seq::<char>::empty() =~= p);
    if text_le(a, b) && text_le(b, a) {
        lemma_text_equal(a, b, 0);
        assert(a =~= b);
    }
}

proof fn lemma_common_start(p: Seq<char>, a: Seq<char>, b: Seq<char>, i: int)
    requires
        0 <= i <= p.len(),
    ensures
        text_le_from(p + a, p + b, i) == (if a.len() == 0 {
            true
        } else if b.len() == 0 {
            false
        } else if a[0] == b[0] {
            text_le_from(p + a, p + b, p.len() as int + 1)
        } else {
            a[0] < b[0]
        }),
    decreases p.len() - i,
{
    if i < p.len() {
        assert((p + a)[i] == p[i] && (p + b)[i] == p[i]);
        lemma_common_start(p, a, b, i + 1);
    } else {
        if a.len() > 0 {
            assert((p + a)[i] == a[0]);
        }
        if b.len() > 0 {
            assert((p + b)[i] == b[0]);
        }
    }
}

proof fn lemma_text_equal(a: Seq<char>, b: Seq<char>, i: int)
    requires
        0 <= i,
        i <= a.len(),
        i <= b.len(),
        text_le_from(a, b, i),
        text_le_from(b, a, i),
    ensures
        a.len() == b.len(),
        forall|j: int| i <= j < a.len() ==> a[j] == b[j],
    decreases a.len() - i,
{
    if i < a.len() && i < b.len() {
        lemma_text_equal(a, b, i + 1);
    }
}

/// A listing is ascending or descending, and of two equal keys the one with the
/// lower number comes first.
pub proof fn law_listing_is_stable(keys: Seq<Seq<char>>, n: int, descending: bool, i: int, j: int)
    requires
        0 <= n <= keys.len(),
        0 <= i < j < n,
    ensures
        ({
            let order = listing(keys, n, descending);
            let a = keys[order[i]];
            let b = keys[order[j]];
            &&& order.len() == n
            &&& 0 <= order[i] < n && 0 <= order[j] < n
            &&& !descending ==> text_le(a, b)
            &&& descending ==> text_le(b, a)
            &&& a == b ==> order[i] < order[j]
        }),
{
    law_listing(keys, n, descending);
    lemma_stable(keys, n, descending);
    let order = listing(keys, n, descending);
    assert(listed_le(keys[order[i]], keys[order[j]], descending));
}

proof fn lemma_reflexive(a: Seq<char>, i: int)
    requires
        i >= 0,
    ensures
        text_le_from(a, a, i),
    decreases a.len() - i,
{
    if i < a.len() {
        lemma_reflexive(a, i + 1);
    }
}

proof fn lemma_stable(keys: Seq<Seq<char>>, n: int, descending: bool)
    requires
        0 <= n <= keys.len(),
    ensures
        listing(keys, n, descending).len() == n,
        forall|i: int|
            0 <= i < n ==> 0 <= #[trigger] listing(keys, n, descending)[i] < n,
        forall|i: int, j: int|
            0 <= i < j < n && keys[#[trigger] listing(keys, n, descending)[i]]
                == keys[#[trigger] listing(keys, n, descending)[j]] ==> listing(
                keys,
                n,
                descending,
            )[i] < listing(keys, n, descending)[j],
    decreases n,
{
    if n > 0 {
        lemma_stable(keys, n - 1, descending);
        let before = listing(keys, n - 1, descending);
        law_listing(keys, n - 1, descending);
        lemma_stable_in(keys, before, n - 1, descending);
    }
}

proof fn lemma_stable_in(keys: Seq<Seq<char>>, order: Seq<int>, x: int, descending: bool)
    requires
        in_order(keys, order, descending),
        forall|i: int| 0 <= i < order.len() ==> 0 <= #[trigger] order[i] < x,
        forall|i: int, j: int|
            0 <= i < j < order.len() && keys[#[trigger] order[i]] == keys[#[trigger] order[j]]
                ==> order[i] < order[j],
    ensures
        ({
            let r = listed_in(keys, order, x, descending);
            &&& r.len() == order.len() + 1
            &&& forall|i: int| 0 <= i < r.len() ==> 0 <= #[trigger] r[i] <= x || r[i] == x
            &&& forall|i: int, j: int|
                0 <= i < j < r.len() && keys[#[trigger] r[i]] == keys[#[trigger] r[j]] ==> r[i]
                    < r[j]
            &&& forall|i: int| 0 <= i < r.len() ==> #[trigger] r[i] == x || order.contains(r[i])
        }),
    decreases order.len(),
{
    let r = listed_in(keys, order, x, descending);
    lemma_listed_in(keys, order, x, descending);
    assert forall|i: int| 0 <= i < r.len() implies 0 <= #[trigger] r[i] <= x || r[i] == x by {
        if r[i] != x {
            let k = choose|k: int| 0 <= k < order.len() && order[k] == r[i];
            assert(order[k] < x);
        }
    }
    if order.len() > 0 && !listed_le(keys[order.last()], keys[x], descending) {
        let d = order.drop_last();
        assert forall|i: int, j: int| 0 <= i < j < d.len() implies listed_le(
            keys[#[trigger] d[i]],
            keys[#[trigger] d[j]],
            descending,
        ) by {
            assert(listed_le(keys[order[i]], keys[order[j]], descending));
        }
        assert forall|i: int| 0 <= i < d.len() implies 0 <= #[trigger] d[i] < x by {
            assert(order[i] == d[i]);
        }
        assert forall|i: int, j: int|
            0 <= i < j < d.len() && keys[#[trigger] d[i]] == keys[#[trigger] d[j]] implies d[i]
            < d[j] by {
            assert(order[i] == d[i] && order[j] == d[j]);
        }
        lemma_stable_in(keys, d, x, descending);
        let q = listed_in(keys, d, x, descending);
        let l = order.last();
        assert forall|i: int, j: int|
            0 <= i < j < r.len() && keys[#[trigger] r[i]] == keys[#[trigger] r[j]] implies r[i]
            < r[j] by {
            if j < q.len() {
                assert(q[i] == r[i] && q[j] == r[j]);
            } else {
                assert(r[j] == l);
                assert(q[i] == r[i]);
                if q[i] == x {
                    lemma_reflexive(keys[x], 0);
                } else {
                    let k = choose|k: int| 0 <= k < d.len() && d[k] == q[i];
                    assert(order[k] == q[i]);
                    assert(order[order.len() - 1] == l);
                }
            }
        }
    } else {
        assert forall|i: int, j: int|
            0 <= i < j < r.len() && keys[#[trigger] r[i]] == keys[#[trigger] r[j]] implies r[i]
            < r[j] by {
            if j < order.len() {
                assert(order[i] == r[i] && order[j] == r[j]);
            } else {
                assert(order[i] == r[i]);
            }
        }
    }
}

/// Files are handed out by the end of their names: sources as plain text, pages,
/// styles, JSON, notes and settings under their own types, and all others as
/// bytes.
pub proof fn law_content_types(stem: Seq<char>, name: Seq<char>)
    ensures
        content_type_of(stem + ".rs"@) == "text/plain"@,
        content_type_of(stem + ".html"@) == "text/html"@,
        content_type_of(stem + ".css"@) == "text/css"@,
        content_type_of(stem + ".json"@) == "application/json"@,
        content_type_of(stem + ".md"@) == "text/markdown"@,
        content_type_of(stem + ".toml"@) == "application/toml"@,
        !ends_with(name, ".rs"@) && !ends_with(name, ".html"@) && !ends_with(name, ".css"@)
            && !ends_with(name, ".json"@) && !ends_with(name, ".md"@) && !ends_with(name, ".toml"@)
            ==> content_type_of(name) == "application/octet-stream"@,
{
    reveal_strlit(".rs");
    reveal_strlit(".html");
    reveal_strlit(".css");
    reveal_strlit(".json");
    reveal_strlit(".md");
    reveal_strlit(".toml");
    let none = Seq::<char>::empty();
    law_parts_are_found(stem, ".rs"@, none);
    law_parts_are_found(stem, ".html"@, none);
    law_parts_are_found(stem, ".css"@, none);
    law_parts_are_found(stem, ".json"@, none);
    law_parts_are_found(stem, ".md"@, none);
    law_parts_are_found(stem, ".toml"@, none);
    lemma_ends_differ(stem + ".html"@, ".rs"@);
    lemma_ends_differ(stem + ".css"@, ".rs"@);
    lemma_ends_differ(stem + ".css"@, ".html"@);
    lemma_ends_differ(stem + ".json"@, ".rs"@);
    lemma_ends_differ(stem + ".json"@, ".html"@);
    lemma_ends_differ(stem + ".json"@, ".css"@);
    lemma_ends_differ(stem + ".md"@, ".rs"@);
    lemma_ends_differ(stem + ".md"@, ".html"@);
    lemma_ends_differ(stem + ".md"@, ".css"@);
    lemma_ends_differ(stem + ".md"@, ".json"@);
    lemma_ends_differ(stem + ".toml"@, ".rs"@);
    lemma_ends_differ(stem + ".toml"@, ".html"@);
    lemma_ends_differ(stem + ".toml"@, ".css"@);
    lemma_ends_differ(stem + ".toml"@, ".json"@);
    lemma_ends_differ(stem + ".toml"@, ".md"@);
    let css = stem + ".css"@;
    assert(css[css.len() - 2] == 's');
    assert(".rs"@[1] == 'r');
    let toml = stem + ".toml"@;
    assert(toml[toml.len() - 2] == 'm');
    let html = stem + ".html"@;
    assert(html[html.len() - 3] == 't' && toml[toml.len() - 3] == 'o');
    assert(".html"@[2] == 't');
}

/// A text that ends with another has its last three characters.
proof fn lemma_ends_differ(s: Seq<char>, end: Seq<char>)
    requires
        end.len() >= 3,
    ensures
        ends_with(s, end) ==> s.len() >= end.len() && s.last() == end.last() && s[s.len() - 2]
            == end[end.len() - 2] && s[s.len() - 3] == end[end.len() - 3],
{
    if ends_with(s, end) {
        let n = s.len() - end.len();
        let sub = s.subrange(n, n + end.len());
        assert(sub[end.len() - 1] == s[s.len() - 1]);
        assert(sub[end.len() - 2] == s[s.len() - 2]);
        assert(sub[end.len() - 3] == s[s.len() - 3]);
    }
}

/// A backup is told by the beginning and the end of its name.
pub proof fn law_backup_names(name: Seq<char>)
    ensures
        backup_name(name) <==> begins_with(name, "open-world-backup-"@) && ends_with(
            name,
            ".tar.gz"@,
        ),
{
}

} // verus!
