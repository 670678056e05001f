//! Tracks the target wallet's positions and detects what changed between two
//! observations (opened, increased, decreased, closed).
use vstd::prelude::*;

use crate::text::{ascii_eq_ignore_case, eq_ignore_ascii_case};
use crate::types::{Position, PositionSnapshot, Side, SnapshotView};

verus! {

/// A size change below this many micro-shares (0.01 share) is not reported.
pub const CHANGE_THRESHOLD: u64 = 10_000;

/// Price assumed for a position that reports none (0.5 USDC).
pub const DEFAULT_PRICE: u64 = 500_000;

/// A change of the target's positions between two polls.
#[derive(Clone, Debug)]
pub enum PositionDelta {
    /// New position opened by the target.
    Opened { token_id: String, condition_id: String, size: u64, side: Side, price: u64 },
    /// Existing position increased.
    Increased {
        token_id: String,
        condition_id: String,
        added_size: u64,
        new_total: u64,
        side: Side,
        price: u64,
    },
    /// Existing position decreased (partial close).
    Decreased {
        token_id: String,
        condition_id: String,
        removed_size: u64,
        new_total: u64,
        side: Side,
        price: u64,
    },
    /// Position fully closed.
    Closed { token_id: String, condition_id: String, old_size: u64, side: Side },
}

/// A delta with its strings taken by their views.
pub enum DeltaView {
    Opened { token_id: Seq<char>, condition_id: Seq<char>, size: u64, side: Side, price: u64 },
    Increased {
        token_id: Seq<char>,
        condition_id: Seq<char>,
        added_size: u64,
        new_total: u64,
        side: Side,
        price: u64,
    },
    Decreased {
        token_id: Seq<char>,
        condition_id: Seq<char>,
        removed_size: u64,
        new_total: u64,
        side: Side,
        price: u64,
    },
    Closed { token_id: Seq<char>, condition_id: Seq<char>, old_size: u64, side: Side },
}

impl View for PositionDelta {
    type V = DeltaView;

    open spec fn view(&self) -> DeltaView {
        match self {
            PositionDelta::Opened { token_id, condition_id, size, side, price } => DeltaView::Opened {
                token_id: token_id@,
                condition_id: condition_id@,
                size: *size,
                side: *side,
                price: *price,
            },
            PositionDelta::Increased { token_id, condition_id, added_size, new_total, side, price } =>
                DeltaView::Increased {
                token_id: token_id@,
                condition_id: condition_id@,
                added_size: *added_size,
                new_total: *new_total,
                side: *side,
                price: *price,
            },
            PositionDelta::Decreased { token_id, condition_id, removed_size, new_total, side, price } =>
                DeltaView::Decreased {
                token_id: token_id@,
                condition_id: condition_id@,
                removed_size: *removed_size,
                new_total: *new_total,
                side: *side,
                price: *price,
            },
            PositionDelta::Closed { token_id, condition_id, old_size, side } => DeltaView::Closed {
                token_id: token_id@,
                condition_id: condition_id@,
                old_size: *old_size,
                side: *side,
            },
        }
    }
}

/// The views of a list of snapshot entries.
pub open spec fn snapshot_views(v: Seq<PositionSnapshot>) -> Seq<SnapshotView> {
    v.map_values(|s: PositionSnapshot| s@)
}

/// The views of a list of deltas.
pub open spec fn delta_views(v: Seq<PositionDelta>) -> Seq<DeltaView> {
    v.map_values(|d: PositionDelta| d@)
}

/// Side of a reported position: `SELL` in any case means a sell; anything
/// else, or nothing, means a buy.
pub open spec fn position_side(side: Option<String>) -> Side {
    match side {
        Some(s) => if ascii_eq_ignore_case(s@, "SELL"@) { Side::Sell } else { Side::Buy },
        None => Side::Buy,
    }
}

/// The snapshot entry for a reported position: none without a token id or
/// with a zero size; the price is the current price, else the average entry
/// price, else 0.5.
pub open spec fn snapshot_entry(p: Position) -> Option<SnapshotView> {
    match p.asset {
        None => None,
        Some(id) => {
            let size = match p.size { Some(s) => s, None => 0u64 };
            if size == 0 {
                None
            } else {
                Some(SnapshotView {
                    token_id: id@,
                    size,
                    side: position_side(p.side),
                    price: match p.cur_price {
                        Some(c) => c,
                        None => match p.avg_price { Some(a) => a, None => DEFAULT_PRICE },
                    },
                    condition_id: match p.condition_id { Some(c) => c@, None => Seq::empty() },
                })
            }
        }
    }
}

/// Index of the first entry for `token`, if any.
pub open spec fn token_index(s: Seq<SnapshotView>, token: Seq<char>) -> Option<int>
    decreases s.len(),
{
    if s.len() == 0 {
        None
    } else {
        match token_index(s.drop_last(), token) {
            Some(i) => Some(i),
            None => if s.last().token_id == token { Some(s.len() - 1) } else { None },
        }
    }
}

/// No token appears twice.
pub open spec fn tokens_unique(s: Seq<SnapshotView>) -> bool {
    forall|i: int, j: int| 0 <= i < j < s.len() ==> #[trigger] s[i].token_id != #[trigger] s[j].token_id
}

/// Store `e` under its token: replace the entry for that token, or append.
pub open spec fn record_entry(m: Seq<SnapshotView>, e: SnapshotView) -> Seq<SnapshotView> {
    match token_index(m, e.token_id) {
        Some(i) => m.update(i, e),
        None => m.push(e),
    }
}

/// The snapshot of a list of reported positions: one entry per token, holding
/// the last qualifying position reported for it, in order of first appearance.
pub open spec fn snapshot_of_positions(ps: Seq<Position>) -> Seq<SnapshotView>
    decreases ps.len(),
{
    if ps.len() == 0 {
        Seq::empty()
    } else {
        let m = snapshot_of_positions(ps.drop_last());
        match snapshot_entry(ps.last()) {
            Some(e) => record_entry(m, e),
            None => m,
        }
    }
}

/// The delta for one current entry against the previous snapshot.
pub open spec fn delta_for(cur: SnapshotView, last: Seq<SnapshotView>) -> Option<DeltaView> {
    match token_index(last, cur.token_id) {
        None => Some(DeltaView::Opened {
            token_id: cur.token_id,
            condition_id: cur.condition_id,
            size: cur.size,
            side: cur.side,
            price: cur.price,
        }),
        Some(i) => {
            let prev = last[i];
            if cur.size >= prev.size + CHANGE_THRESHOLD {
                Some(DeltaView::Increased {
                    token_id: cur.token_id,
                    condition_id: cur.condition_id,
                    added_size: (cur.size - prev.size) as u64,
                    new_total: cur.size,
                    side: cur.side,
                    price: cur.price,
                })
            } else if prev.size >= cur.size + CHANGE_THRESHOLD {
                Some(DeltaView::Decreased {
                    token_id: cur.token_id,
                    condition_id: cur.condition_id,
                    removed_size: (prev.size - cur.size) as u64,
                    new_total: cur.size,
                    side: cur.side,
                    price: cur.price,
                })
            } else {
                None
            }
        },
    }
}

/// Opened, increased and decreased positions, in the order of `current`.
pub open spec fn changes(current: Seq<SnapshotView>, last: Seq<SnapshotView>) -> Seq<DeltaView>
    decreases current.len(),
{
    if current.len() == 0 {
        Seq::empty()
    } else {
        let rest = changes(current.drop_last(), last);
        match delta_for(current.last(), last) {
            Some(d) => rest.push(d),
            None => rest,
        }
    }
}

/// The closed delta for a previous entry whose token is no longer held.
pub open spec fn closed_delta(prev: SnapshotView) -> DeltaView {
    DeltaView::Closed {
        token_id: prev.token_id,
        condition_id: prev.condition_id,
        old_size: prev.size,
        side: prev.side,
    }
}

/// Positions of `last` that are absent from `current`, in the order of `last`.
pub open spec fn closings(last: Seq<SnapshotView>, current: Seq<SnapshotView>) -> Seq<DeltaView>
    decreases last.len(),
{
    if last.len() == 0 {
        Seq::empty()
    } else {
        let rest = closings(last.drop_last(), current);
        if token_index(current, last.last().token_id) is None {
            rest.push(closed_delta(last.last()))
        } else {
            rest
        }
    }
}

/// All deltas from `last` to `current`: changes first, then closings.
pub open spec fn diff_snapshots(current: Seq<SnapshotView>, last: Seq<SnapshotView>) -> Seq<DeltaView> {
    changes(current, last) + closings(last, current)
}

/// `token_index` finds the first entry with the token, and none when no entry has it.
pub proof fn lemma_token_index(s: Seq<SnapshotView>, token: Seq<char>)
    ensures
        match token_index(s, token) {
            Some(i) => 0 <= i < s.len() && s[i].token_id == token
                && forall|j: int| 0 <= j < i ==> #[trigger] s[j].token_id != token,
            None => forall|j: int| 0 <= j < s.len() ==> #[trigger] s[j].token_id != token,
        },
    decreases s.len(),
{
    if s.len() > 0 {
        lemma_token_index(s.drop_last(), token);
        assert forall|j: int| 0 <= j < s.len() - 1 implies #[trigger] s[j] == s.drop_last()[j] by {}
    }
}

/// `record_entry` keeps tokens unique.
pub proof fn lemma_record_entry_unique(m: Seq<SnapshotView>, e: SnapshotView)
    requires
        tokens_unique(m),
    ensures
        tokens_unique(record_entry(m, e)),
{
    lemma_token_index(m, e.token_id);
    let r = record_entry(m, e);
    match token_index(m, e.token_id) {
        Some(k) => {
            assert forall|i: int, j: int| 0 <= i < j < r.len() implies
                #[trigger] r[i].token_id != #[trigger] r[j].token_id by {
                if i == k {
                    assert(m[j].token_id != m[k].token_id);
                } else if j == k {
                    assert(m[i].token_id != m[k].token_id);
                }
            }
        },
        None => {
            assert forall|i: int, j: int| 0 <= i < j < r.len() implies
                #[trigger] r[i].token_id != #[trigger] r[j].token_id by {
                if j == m.len() {
                    assert(m[i].token_id != e.token_id);
                }
            }
        },
    }
}

/// A snapshot never holds the same token twice.
pub proof fn lemma_snapshot_tokens_unique(ps: Seq<Position>)
    ensures
        tokens_unique(snapshot_of_positions(ps)),
    decreases ps.len(),
{
    if ps.len() > 0 {
        lemma_snapshot_tokens_unique(ps.drop_last());
        if let Some(e) = snapshot_entry(ps.last()) {
            lemma_record_entry_unique(snapshot_of_positions(ps.drop_last()), e);
        }
    }
}

/// The last qualifying report for `token` among `ps`, as a snapshot entry.
pub open spec fn last_report(ps: Seq<Position>, token: Seq<char>) -> Option<SnapshotView>
    decreases ps.len(),
{
    if ps.len() == 0 {
        None
    } else {
        match snapshot_entry(ps.last()) {
            Some(e) => if e.token_id == token { Some(e) } else { last_report(ps.drop_last(), token) },
            None => last_report(ps.drop_last(), token),
        }
    }
}

/// Law: a snapshot tracks a token exactly when some reported position for it
/// qualifies (has a token id and a non-zero size), and then holds the last
/// such report.
pub proof fn lemma_snapshot_holds_last_report(ps: Seq<Position>, token: Seq<char>)
    ensures
        match token_index(snapshot_of_positions(ps), token) {
            Some(i) => last_report(ps, token) == Some(snapshot_of_positions(ps)[i]),
            None => last_report(ps, token) is None,
        },
    decreases ps.len(),
{
    if ps.len() > 0 {
        let m = snapshot_of_positions(ps.drop_last());
        lemma_snapshot_holds_last_report(ps.drop_last(), token);
        lemma_token_index(m, token);
        if let Some(e) = snapshot_entry(ps.last()) {
            let r = record_entry(m, e);
            lemma_token_index(m, e.token_id);
            lemma_token_index(r, token);
            match token_index(m, e.token_id) {
                Some(k) => {
                    assert(r == m.update(k, e));
                    assert(forall|j: int| 0 <= j < r.len() && j != k ==> #[trigger] r[j] == m[j]);
                    match token_index(r, token) {
                        Some(i2) => {
                            match token_index(m, token) {
                                Some(i1) => {
                                    if i2 < i1 { assert(r[i2] == m[i2]); }
                                    if i1 < i2 { if i1 != k { assert(r[i1] == m[i1]); } }
                                    assert(i1 == i2);
                                },
                                None => {
                                    if i2 != k { assert(r[i2] == m[i2]); }
                                },
                            }
                        },
                        None => {
                            assert(r[k].token_id == e.token_id);
                            match token_index(m, token) {
                                Some(i1) => { if i1 != k { assert(r[i1] == m[i1]); } },
                                None => {},
                            }
                        },
                    }
                },
                None => {
                    assert(r == m.push(e));
                    assert(forall|j: int| 0 <= j < m.len() ==> #[trigger] r[j] == m[j]);
                    match token_index(r, token) {
                        Some(i2) => {
                            match token_index(m, token) {
                                Some(i1) => {
                                    if i2 < i1 { assert(r[i2] == m[i2]); }
                                    if i1 < i2 { assert(r[i1] == m[i1]); }
                                },
                                None => {
                                    if i2 < m.len() { assert(r[i2] == m[i2]); }
                                },
                            }
                        },
                        None => {
                            assert(r[m.len() as int] == e);
                            match token_index(m, token) {
                                Some(i1) => { assert(r[i1] == m[i1]); },
                                None => {},
                            }
                        },
                    }
                },
            }
        }
    }
}

/// In a snapshot without repeated tokens, each entry is found at its own index.
pub proof fn lemma_unique_token_index(s: Seq<SnapshotView>, i: int)
    requires
        tokens_unique(s),
        0 <= i < s.len(),
    ensures
        token_index(s, s[i].token_id) == Some(i),
{
    lemma_token_index(s, s[i].token_id);
    match token_index(s, s[i].token_id) {
        Some(k) => {
            if k < i {
                assert(s[k].token_id != s[i].token_id);
            } else if k > i {
                assert(s[i].token_id != s[k].token_id);
            }
        },
        None => {},
    }
}

proof fn lemma_changes_of_prefix_empty(s: Seq<SnapshotView>, k: int)
    requires
        tokens_unique(s),
        0 <= k <= s.len(),
    ensures
        changes(s.take(k), s) == Seq::<DeltaView>::empty(),
    decreases k,
{
    if k > 0 {
        lemma_changes_of_prefix_empty(s, k - 1);
        assert(s.take(k).drop_last() =~= s.take(k - 1));
        lemma_unique_token_index(s, k - 1);
    }
}

proof fn lemma_closings_of_prefix_empty(s: Seq<SnapshotView>, k: int)
    requires
        tokens_unique(s),
        0 <= k <= s.len(),
    ensures
        closings(s.take(k), s) == Seq::<DeltaView>::empty(),
    decreases k,
{
    if k > 0 {
        lemma_closings_of_prefix_empty(s, k - 1);
        assert(s.take(k).drop_last() =~= s.take(k - 1));
        lemma_unique_token_index(s, k - 1);
    }
}

/// Law: observing the same positions twice in a row reports no change the
/// second time.
pub proof fn lemma_repeated_poll_reports_nothing(ps: Seq<Position>)
    ensures
        diff_snapshots(snapshot_of_positions(ps), snapshot_of_positions(ps)) == Seq::<DeltaView>::empty(),
{
    let s = snapshot_of_positions(ps);
    lemma_snapshot_tokens_unique(ps);
    lemma_changes_of_prefix_empty(s, s.len() as int);
    lemma_closings_of_prefix_empty(s, s.len() as int);
    assert(s.take(s.len() as int) =~= s);
}

/// The delta that reports `cur` as a new position.
pub open spec fn opened_delta(cur: SnapshotView) -> DeltaView {
    DeltaView::Opened {
        token_id: cur.token_id,
        condition_id: cur.condition_id,
        size: cur.size,
        side: cur.side,
        price: cur.price,
    }
}

/// Law: against an empty previous snapshot (the first poll), every tracked
/// position is reported as opened, in order, and nothing else is reported.
pub proof fn lemma_first_poll_opens_everything(current: Seq<SnapshotView>)
    ensures
        diff_snapshots(current, Seq::empty()) == current.map_values(|c: SnapshotView| opened_delta(c)),
    decreases current.len(),
{
    if current.len() > 0 {
        lemma_first_poll_opens_everything(current.drop_last());
        assert(changes(current, Seq::empty()) =~= current.map_values(|c: SnapshotView| opened_delta(c)));
    }
    assert(closings(Seq::<SnapshotView>::empty(), current) =~= Seq::<DeltaView>::empty());
    assert(diff_snapshots(current, Seq::empty()) =~= current.map_values(|c: SnapshotView| opened_delta(c)));
}

/// Law: every increase or decrease refers to a tracked position of the
/// previous snapshot, and accounts for the whole change of its size: a
/// decrease's removed size plus its new total is the previous size, an
/// increase's new total minus its added size is the previous size.
pub proof fn lemma_changes_account_for_previous_size(current: Seq<SnapshotView>, last: Seq<SnapshotView>, i: int)
    requires
        0 <= i < changes(current, last).len(),
    ensures
        match changes(current, last)[i] {
            DeltaView::Decreased { token_id, removed_size, new_total, .. } => exists|j: int|
                0 <= j < last.len() && #[trigger] last[j].token_id == token_id
                    && last[j].size == removed_size + new_total,
            DeltaView::Increased { token_id, added_size, new_total, .. } => exists|j: int|
                0 <= j < last.len() && #[trigger] last[j].token_id == token_id
                    && last[j].size + added_size == new_total,
            _ => true,
        },
    decreases current.len(),
{
    let rest = changes(current.drop_last(), last);
    if i < rest.len() {
        lemma_changes_account_for_previous_size(current.drop_last(), last, i);
        assert(changes(current, last)[i] == rest[i]);
    } else {
        let cur = current.last();
        lemma_token_index(last, cur.token_id);
        match token_index(last, cur.token_id) {
            Some(k) => {
                assert(last[k].token_id == cur.token_id);
            },
            None => {},
        }
    }
}

/// The token a delta is about.
pub open spec fn delta_token(d: DeltaView) -> Seq<char> {
    match d {
        DeltaView::Opened { token_id, .. } => token_id,
        DeltaView::Increased { token_id, .. } => token_id,
        DeltaView::Decreased { token_id, .. } => token_id,
        DeltaView::Closed { token_id, .. } => token_id,
    }
}

/// No two deltas are about the same token.
pub open spec fn delta_tokens_unique(s: Seq<DeltaView>) -> bool {
    forall|i: int, j: int| 0 <= i < j < s.len() ==> #[trigger] delta_token(s[i]) != #[trigger] delta_token(s[j])
}

/// A prefix of a sequence with unique tokens has unique tokens.
proof fn lemma_unique_drop_last(s: Seq<SnapshotView>)
    requires
        s.len() > 0,
        tokens_unique(s),
    ensures
        tokens_unique(s.drop_last()),
{
    assert forall|i: int, j: int| 0 <= i < j < s.drop_last().len() implies
        #[trigger] s.drop_last()[i].token_id != #[trigger] s.drop_last()[j].token_id by {
        assert(s.drop_last()[i] == s[i]);
        assert(s.drop_last()[j] == s[j]);
    }
}

/// The changes name each token of `current` at most once, and only tokens of `current`.
proof fn lemma_changes_tokens(current: Seq<SnapshotView>, last: Seq<SnapshotView>)
    requires
        tokens_unique(current),
    ensures
        delta_tokens_unique(changes(current, last)),
        forall|k: int| 0 <= k < changes(current, last).len()
            ==> token_index(current, #[trigger] delta_token(changes(current, last)[k])) is Some,
    decreases current.len(),
{
    if current.len() > 0 {
        let cd = current.drop_last();
        lemma_unique_drop_last(current);
        lemma_changes_tokens(cd, last);
        let rest = changes(cd, last);
        let t = current.last().token_id;
        match delta_for(current.last(), last) {
            Some(d) => {
                assert(delta_token(d) == t);
                let all = rest.push(d);
                assert(changes(current, last) == all);
                assert forall|k: int| 0 <= k < rest.len() implies delta_token(#[trigger] all[k]) != t by {
                    assert(all[k] == rest[k]);
                    let tk = delta_token(rest[k]);
                    lemma_token_index(cd, tk);
                    let i = token_index(cd, tk)->0;
                    assert(cd[i] == current[i]);
                    assert(current[i].token_id != current[current.len() - 1].token_id);
                }
                assert forall|i: int, j: int| 0 <= i < j < all.len() implies
                    #[trigger] delta_token(all[i]) != #[trigger] delta_token(all[j]) by {
                    if j < rest.len() {
                        assert(all[i] == rest[i]);
                        assert(all[j] == rest[j]);
                    }
                }
                assert forall|k: int| 0 <= k < all.len() implies
                    token_index(current, #[trigger] delta_token(all[k])) is Some by {
                    if k < rest.len() {
                        assert(all[k] == rest[k]);
                    }
                }
            },
            None => {
                assert forall|k: int| 0 <= k < rest.len() implies
                    token_index(current, #[trigger] delta_token(rest[k])) is Some by {
                }
            },
        }
    }
}

/// The closings name each token of `last` at most once, and only tokens of
/// `last` that `current` does not hold.
proof fn lemma_closings_tokens(last: Seq<SnapshotView>, current: Seq<SnapshotView>)
    requires
        tokens_unique(last),
    ensures
        delta_tokens_unique(closings(last, current)),
        forall|k: int| 0 <= k < closings(last, current).len() ==> {
            let t = #[trigger] delta_token(closings(last, current)[k]);
            token_index(last, t) is Some && token_index(current, t) is None
        },
    decreases last.len(),
{
    if last.len() > 0 {
        let ld = last.drop_last();
        lemma_unique_drop_last(last);
        lemma_closings_tokens(ld, current);
        let rest = closings(ld, current);
        let t = last.last().token_id;
        if token_index(current, t) is None {
            let d = closed_delta(last.last());
            let all = rest.push(d);
            assert(closings(last, current) == all);
            assert forall|k: int| 0 <= k < rest.len() implies delta_token(#[trigger] all[k]) != t by {
                assert(all[k] == rest[k]);
                let tk = delta_token(rest[k]);
                lemma_token_index(ld, tk);
                let i = token_index(ld, tk)->0;
                assert(ld[i] == last[i]);
                assert(last[i].token_id != last[last.len() - 1].token_id);
            }
            assert forall|i: int, j: int| 0 <= i < j < all.len() implies
                #[trigger] delta_token(all[i]) != #[trigger] delta_token(all[j]) by {
                if j < rest.len() {
                    assert(all[i] == rest[i]);
                    assert(all[j] == rest[j]);
                }
            }
            assert forall|k: int| 0 <= k < all.len() implies ({
                let tk = #[trigger] delta_token(all[k]);
                token_index(last, tk) is Some && token_index(current, tk) is None
            }) by {
                if k < rest.len() {
                    assert(all[k] == rest[k]);
                }
            }
        } else {
            assert forall|k: int| 0 <= k < rest.len() implies ({
                let tk = #[trigger] delta_token(rest[k]);
                token_index(last, tk) is Some && token_index(current, tk) is None
            }) by {
            }
        }
    }
}

/// Law: between two snapshots that each hold a token at most once, the diff
/// names each token at most once.
pub proof fn lemma_diff_names_each_token_once(current: Seq<SnapshotView>, last: Seq<SnapshotView>)
    requires
        tokens_unique(current),
        tokens_unique(last),
    ensures
        delta_tokens_unique(diff_snapshots(current, last)),
{
    lemma_changes_tokens(current, last);
    lemma_closings_tokens(last, current);
    let a = changes(current, last);
    let b = closings(last, current);
    let all = diff_snapshots(current, last);
    assert forall|i: int, j: int| 0 <= i < j < all.len() implies
        #[trigger] delta_token(all[i]) != #[trigger] delta_token(all[j]) by {
        if j < a.len() {
            assert(all[i] == a[i]);
            assert(all[j] == a[j]);
        } else if i >= a.len() {
            assert(all[i] == b[i - a.len()]);
            assert(all[j] == b[j - a.len()]);
        } else {
            assert(all[i] == a[i]);
            assert(all[j] == b[j - a.len()]);
            assert(token_index(current, delta_token(a[i])) is Some);
            assert(token_index(current, delta_token(b[j - a.len()])) is None);
        }
    }
}

/// The delta of each entry of `current` that has one appears among the changes.
proof fn lemma_changes_contain(current: Seq<SnapshotView>, last: Seq<SnapshotView>, i: int)
    requires
        0 <= i < current.len(),
        delta_for(current[i], last) is Some,
    ensures
        exists|k: int| 0 <= k < changes(current, last).len()
            && #[trigger] changes(current, last)[k] == delta_for(current[i], last)->0,
    decreases current.len(),
{
    let cd = current.drop_last();
    let rest = changes(cd, last);
    if i == current.len() - 1 {
        let all = changes(current, last);
        assert(all[rest.len() as int] == delta_for(current[i], last)->0);
    } else {
        assert(cd[i] == current[i]);
        lemma_changes_contain(cd, last, i);
        let k = choose|k: int| 0 <= k < rest.len() && #[trigger] rest[k] == delta_for(cd[i], last)->0;
        assert(changes(current, last)[k] == rest[k]);
    }
}

/// Every opened change names a token that the previous snapshot does not hold.
proof fn lemma_changes_open_only_new(current: Seq<SnapshotView>, last: Seq<SnapshotView>)
    ensures
        forall|k: int| 0 <= k < changes(current, last).len() && (#[trigger] changes(current, last)[k]) is Opened
            ==> forall|j: int| 0 <= j < last.len() ==> #[trigger] last[j].token_id != delta_token(changes(current, last)[k]),
    decreases current.len(),
{
    if current.len() > 0 {
        let cd = current.drop_last();
        lemma_changes_open_only_new(cd, last);
        let rest = changes(cd, last);
        let all = changes(current, last);
        let cur = current.last();
        lemma_token_index(last, cur.token_id);
        assert forall|k: int| 0 <= k < all.len() && (#[trigger] all[k]) is Opened implies
            forall|j: int| 0 <= j < last.len() ==> #[trigger] last[j].token_id != delta_token(all[k]) by {
            if k < rest.len() {
                assert(all[k] == rest[k]);
            } else {
                assert(token_index(last, cur.token_id) is None);
            }
        }
    }
}

/// Every closing is a closed delta.
proof fn lemma_closings_are_closed(last: Seq<SnapshotView>, current: Seq<SnapshotView>)
    ensures
        forall|k: int| 0 <= k < closings(last, current).len() ==> (#[trigger] closings(last, current)[k]) is Closed,
    decreases last.len(),
{
    if last.len() > 0 {
        lemma_closings_are_closed(last.drop_last(), current);
        let rest = closings(last.drop_last(), current);
        let all = closings(last, current);
        assert forall|k: int| 0 <= k < all.len() implies (#[trigger] all[k]) is Closed by {
            if k < rest.len() {
                assert(all[k] == rest[k]);
            }
        }
    }
}

/// Law: a token held in both polls whose size grew by at least the change
/// threshold is reported as an increase: the added size is the growth, the new
/// total the current size, with the current side, price and market.
pub proof fn lemma_growth_of_held_token_is_increase(
    current: Seq<SnapshotView>,
    last: Seq<SnapshotView>,
    i: int,
    j: int,
)
    requires
        tokens_unique(last),
        0 <= i < current.len(),
        0 <= j < last.len(),
        current[i].token_id == last[j].token_id,
        current[i].size >= last[j].size + CHANGE_THRESHOLD,
    ensures
        exists|k: int| 0 <= k < diff_snapshots(current, last).len()
            && #[trigger] diff_snapshots(current, last)[k] == (DeltaView::Increased {
                token_id: current[i].token_id,
                condition_id: current[i].condition_id,
                added_size: (current[i].size - last[j].size) as u64,
                new_total: current[i].size,
                side: current[i].side,
                price: current[i].price,
            }),
{
    lemma_unique_token_index(last, j);
    lemma_changes_contain(current, last, i);
    let a = changes(current, last);
    let k = choose|k: int| 0 <= k < a.len() && #[trigger] a[k] == delta_for(current[i], last)->0;
    assert(diff_snapshots(current, last)[k] == a[k]);
}

/// Law: an opened delta names a token that the previous snapshot did not hold.
pub proof fn lemma_opened_only_for_new_tokens(current: Seq<SnapshotView>, last: Seq<SnapshotView>)
    ensures
        forall|k: int| 0 <= k < diff_snapshots(current, last).len()
            && (#[trigger] diff_snapshots(current, last)[k]) is Opened
            ==> forall|j: int| 0 <= j < last.len()
                ==> #[trigger] last[j].token_id != delta_token(diff_snapshots(current, last)[k]),
{
    lemma_changes_open_only_new(current, last);
    lemma_closings_are_closed(last, current);
    let a = changes(current, last);
    let b = closings(last, current);
    let all = diff_snapshots(current, last);
    assert forall|k: int| 0 <= k < all.len() && (#[trigger] all[k]) is Opened implies
        forall|j: int| 0 <= j < last.len() ==> #[trigger] last[j].token_id != delta_token(all[k]) by {
        if k < a.len() {
            assert(all[k] == a[k]);
        } else {
            assert(all[k] == b[k - a.len()]);
        }
    }
}

/// Every change is the delta of some entry of `current`.
proof fn lemma_changes_from(current: Seq<SnapshotView>, last: Seq<SnapshotView>)
    ensures
        forall|k: int| 0 <= k < changes(current, last).len() ==> exists|i: int| 0 <= i < current.len()
            && delta_for(#[trigger] current[i], last) == Some(#[trigger] changes(current, last)[k]),
    decreases current.len(),
{
    if current.len() > 0 {
        let cd = current.drop_last();
        lemma_changes_from(cd, last);
        let rest = changes(cd, last);
        let all = changes(current, last);
        assert forall|k: int| 0 <= k < all.len() implies exists|i: int| 0 <= i < current.len()
            && delta_for(#[trigger] current[i], last) == Some(#[trigger] all[k]) by {
            if k < rest.len() {
                assert(all[k] == rest[k]);
                let i = choose|i: int| 0 <= i < cd.len() && delta_for(#[trigger] cd[i], last) == Some(rest[k]);
                assert(cd[i] == current[i]);
            } else {
                assert(delta_for(current[current.len() - 1], last) == Some(all[k]));
            }
        }
    }
}

/// The closed delta of each entry of `last` that `current` lacks appears among the closings.
proof fn lemma_closings_contain(last: Seq<SnapshotView>, current: Seq<SnapshotView>, j: int)
    requires
        0 <= j < last.len(),
        token_index(current, last[j].token_id) is None,
    ensures
        exists|k: int| 0 <= k < closings(last, current).len()
            && #[trigger] closings(last, current)[k] == closed_delta(last[j]),
    decreases last.len(),
{
    let ld = last.drop_last();
    let rest = closings(ld, current);
    if j == last.len() - 1 {
        assert(closings(last, current)[rest.len() as int] == closed_delta(last[j]));
    } else {
        assert(ld[j] == last[j]);
        lemma_closings_contain(ld, current, j);
        let k = choose|k: int| 0 <= k < rest.len() && #[trigger] rest[k] == closed_delta(ld[j]);
        assert(closings(last, current)[k] == rest[k]);
    }
}

/// Law: a token that the previous snapshot did not hold is reported as opened,
/// with its current size, side, price and market.
pub proof fn lemma_new_token_is_opened(current: Seq<SnapshotView>, last: Seq<SnapshotView>, i: int)
    requires
        0 <= i < current.len(),
        forall|j: int| 0 <= j < last.len() ==> #[trigger] last[j].token_id != current[i].token_id,
    ensures
        exists|k: int| 0 <= k < diff_snapshots(current, last).len()
            && #[trigger] diff_snapshots(current, last)[k] == (DeltaView::Opened {
                token_id: current[i].token_id,
                condition_id: current[i].condition_id,
                size: current[i].size,
                side: current[i].side,
                price: current[i].price,
            }),
{
    lemma_token_index(last, current[i].token_id);
    lemma_changes_contain(current, last, i);
    let a = changes(current, last);
    let k = choose|k: int| 0 <= k < a.len() && #[trigger] a[k] == delta_for(current[i], last)->0;
    assert(diff_snapshots(current, last)[k] == a[k]);
}

/// Law: a token held in both polls whose size shrank by at least the change
/// threshold is reported as a decrease: the removed size is the shrinkage, the
/// new total the current size, with the current side, price and market.
pub proof fn lemma_shrink_of_held_token_is_decrease(
    current: Seq<SnapshotView>,
    last: Seq<SnapshotView>,
    i: int,
    j: int,
)
    requires
        tokens_unique(last),
        0 <= i < current.len(),
        0 <= j < last.len(),
        current[i].token_id == last[j].token_id,
        last[j].size >= current[i].size + CHANGE_THRESHOLD,
    ensures
        exists|k: int| 0 <= k < diff_snapshots(current, last).len()
            && #[trigger] diff_snapshots(current, last)[k] == (DeltaView::Decreased {
                token_id: current[i].token_id,
                condition_id: current[i].condition_id,
                removed_size: (last[j].size - current[i].size) as u64,
                new_total: current[i].size,
                side: current[i].side,
                price: current[i].price,
            }),
{
    lemma_unique_token_index(last, j);
    lemma_changes_contain(current, last, i);
    let a = changes(current, last);
    let k = choose|k: int| 0 <= k < a.len() && #[trigger] a[k] == delta_for(current[i], last)->0;
    assert(diff_snapshots(current, last)[k] == a[k]);
}

/// Law: a token of the previous snapshot that the current one lacks is
/// reported as closed, with its previous size, side and market.
pub proof fn lemma_vanished_token_is_closed(current: Seq<SnapshotView>, last: Seq<SnapshotView>, j: int)
    requires
        0 <= j < last.len(),
        forall|i: int| 0 <= i < current.len() ==> #[trigger] current[i].token_id != last[j].token_id,
    ensures
        exists|k: int| 0 <= k < diff_snapshots(current, last).len()
            && #[trigger] diff_snapshots(current, last)[k] == (DeltaView::Closed {
                token_id: last[j].token_id,
                condition_id: last[j].condition_id,
                old_size: last[j].size,
                side: last[j].side,
            }),
{
    lemma_token_index(current, last[j].token_id);
    lemma_closings_contain(last, current, j);
    let a = changes(current, last);
    let b = closings(last, current);
    let k = choose|k: int| 0 <= k < b.len() && #[trigger] b[k] == closed_delta(last[j]);
    assert(diff_snapshots(current, last)[a.len() + k] == b[k]);
}

/// Law: a token held in both polls whose size moved by less than the change
/// threshold either way is not reported at all.
pub proof fn lemma_small_change_is_not_reported(
    current: Seq<SnapshotView>,
    last: Seq<SnapshotView>,
    i: int,
    j: int,
)
    requires
        tokens_unique(current),
        tokens_unique(last),
        0 <= i < current.len(),
        0 <= j < last.len(),
        current[i].token_id == last[j].token_id,
        current[i].size < last[j].size + CHANGE_THRESHOLD,
        last[j].size < current[i].size + CHANGE_THRESHOLD,
    ensures
        forall|k: int| 0 <= k < diff_snapshots(current, last).len()
            ==> delta_token(#[trigger] diff_snapshots(current, last)[k]) != current[i].token_id,
{
    let t = current[i].token_id;
    lemma_unique_token_index(last, j);
    lemma_unique_token_index(current, i);
    lemma_changes_from(current, last);
    lemma_closings_tokens(last, current);
    let a = changes(current, last);
    let b = closings(last, current);
    let all = diff_snapshots(current, last);
    assert forall|k: int| 0 <= k < all.len() implies delta_token(#[trigger] all[k]) != t by {
        if k < a.len() {
            assert(all[k] == a[k]);
            let i2 = choose|i2: int| 0 <= i2 < current.len() && delta_for(#[trigger] current[i2], last) == Some(a[k]);
            if delta_token(a[k]) == t {
                assert(current[i2].token_id == t);
                if i2 != i {
                    if i2 < i {
                        assert(current[i2].token_id != current[i].token_id);
                    } else {
                        assert(current[i].token_id != current[i2].token_id);
                    }
                }
            }
        } else {
            assert(all[k] == b[k - a.len()]);
            assert(token_index(current, delta_token(b[k - a.len()])) is None);
        }
    }
}

/// Monitors the target wallet's positions and detects deltas.
pub struct WalletMonitor {
    /// Last known snapshot, one entry per token. It is the map from token id
    /// to position that the type invariant (tokens unique) makes of a `Vec`:
    /// Verus proves nothing of a std `HashMap` keyed by `String`, while a
    /// vector with unique keys can be reasoned about entry by entry. It also
    /// makes the order of the reported changes deterministic: tokens of the
    /// new snapshot in the order reported, then the tokens that disappeared,
    /// in the order of the old snapshot.
    last_snapshot: Vec<PositionSnapshot>,
    target_wallet: String,
}

impl WalletMonitor {
    /// The last snapshot taken, by views.
    pub closed spec fn snapshot(&self) -> Seq<SnapshotView> {
        snapshot_views(self.last_snapshot@)
    }

    /// The wallet being watched.
    pub closed spec fn wallet(&self) -> Seq<char> {
        self.target_wallet@
    }

    #[verifier::type_invariant]
    closed spec fn inv(&self) -> bool {
        tokens_unique(snapshot_views(self.last_snapshot@))
    }

    /// A monitor of `target_wallet` that has not polled yet.
    pub fn new(target_wallet: String) -> (m: WalletMonitor)
        ensures
            m.snapshot() == Seq::<SnapshotView>::empty(),
            m.wallet() == target_wallet@,
    {
        let m = WalletMonitor { last_snapshot: Vec::new(), target_wallet };
        assert(snapshot_views(m.last_snapshot@) =~= Seq::<SnapshotView>::empty());
        m
    }

    /// The wallet being watched.
    pub fn target_wallet(&self) -> (w: &String)
        ensures
            w@ == self.wallet(),
    {
        &self.target_wallet
    }

    /// Record a fresh observation of the target's positions and return what
    /// changed since the previous one. The observation becomes the new
    /// baseline.
    pub fn poll_positions(&mut self, positions: &[Position]) -> (deltas: Vec<PositionDelta>)
        ensures
            final(self).snapshot() == snapshot_of_positions(positions@),
            final(self).wallet() == old(self).wallet(),
            delta_views(deltas@) == diff_snapshots(snapshot_of_positions(positions@), old(self).snapshot()),
    {
        let new_snapshot = Self::build_snapshot(positions);
        let deltas = self.diff(&new_snapshot);
        proof {
            lemma_snapshot_tokens_unique(positions@);
        }
        self.last_snapshot = new_snapshot;
        deltas
    }

    /// Whether no position is tracked yet (as before the first poll).
    pub fn is_first_poll(&self) -> (r: bool)
        ensures
            r == (self.snapshot().len() == 0),
    {
        self.last_snapshot.len() == 0
    }

    /// Number of tracked positions.
    pub fn tracked_count(&self) -> (n: usize)
        ensures
            n == self.snapshot().len(),
    {
        self.last_snapshot.len()
    }

    /// The snapshot entry for one reported position.
    pub(crate) fn snapshot_entry(pos: &Position) -> (r: Option<PositionSnapshot>)
        ensures
            match r {
                Some(s) => snapshot_entry(*pos) == Some(s@),
                None => snapshot_entry(*pos) is None,
            },
    {
        let token_id = match &pos.asset {
            Some(id) => id.clone(),
            None => return None,
        };
        let size = match pos.size {
            Some(s) => s,
            None => 0,
        };
        if size == 0 {
            return None;
        }
        let side = match &pos.side {
            Some(s) => if eq_ignore_ascii_case(s.as_str(), "SELL") { Side::Sell } else { Side::Buy },
            None => Side::Buy,
        };
        let price = match pos.cur_price {
            Some(c) => c,
            None => match pos.avg_price {
                Some(a) => a,
                None => DEFAULT_PRICE,
            },
        };
        let condition_id = match &pos.condition_id {
            Some(c) => c.clone(),
            None => String::new(),
        };
        Some(PositionSnapshot { token_id, size, side, price, condition_id })
    }

    /// Index of the entry for `token` in `snap`.
    fn find_token(snap: &Vec<PositionSnapshot>, token: &String) -> (r: Option<usize>)
        ensures
            match r {
                Some(i) => i < snap@.len() && token_index(snapshot_views(snap@), token@) == Some(i as int),
                None => token_index(snapshot_views(snap@), token@) is None,
            },
    {
        let ghost views = snapshot_views(snap@);
        proof {
            lemma_token_index(views, token@);
        }
        let mut i: usize = 0;
        while i < snap.len()
            invariant
                views == snapshot_views(snap@),
                i <= snap@.len(),
                forall|j: int| 0 <= j < i ==> #[trigger] views[j].token_id != token@,
                match token_index(views, token@) {
                    Some(k) => 0 <= k < views.len() && views[k].token_id == token@
                        && forall|j: int| 0 <= j < k ==> #[trigger] views[j].token_id != token@,
                    None => forall|j: int| 0 <= j < views.len() ==> #[trigger] views[j].token_id != token@,
                },
            decreases snap@.len() - i,
        {
            if snap[i].token_id == *token {
                assert(views[i as int].token_id == token@);
                return Some(i);
            }
            i = i + 1;
        }
        None
    }

    /// Build a snapshot from reported positions.
    fn build_snapshot(positions: &[Position]) -> (r: Vec<PositionSnapshot>)
        ensures
            snapshot_views(r@) == snapshot_of_positions(positions@),
    {
        let mut map: Vec<PositionSnapshot> = Vec::new();
        let n = positions.len();
        assert(snapshot_views(map@) =~= snapshot_of_positions(positions@.take(0)));
        for i in 0..n
            invariant
                n == positions@.len(),
                snapshot_views(map@) == snapshot_of_positions(positions@.take(i as int)),
        {
            assert(positions@.take(i + 1).drop_last() =~= positions@.take(i as int));
            assert(positions@.take(i + 1).last() == positions@[i as int]);
            match Self::snapshot_entry(&positions[i]) {
                None => {},
                Some(e) => {
                    match Self::find_token(&map, &e.token_id) {
                        Some(j) => {
                            map.set(j, e);
                        },
                        None => {
                            map.push(e);
                        },
                    }
                },
            }
            assert(snapshot_views(map@) =~= snapshot_of_positions(positions@.take(i + 1)));
        }
        assert(positions@.take(n as int) =~= positions@);
        map
    }

    /// Diff `current` against the last snapshot.
    #[verifier::spinoff_prover]
    fn diff(&self, current: &Vec<PositionSnapshot>) -> (r: Vec<PositionDelta>)
        ensures
            delta_views(r@) == diff_snapshots(snapshot_views(current@), self.snapshot()),
    {
        let ghost cur = snapshot_views(current@);
        let ghost last = self.snapshot();
        let mut deltas: Vec<PositionDelta> = Vec::new();
        let n = current.len();
        assert(delta_views(deltas@) =~= changes(cur.take(0), last));
        for i in 0..n
            invariant
                n == current@.len(),
                cur == snapshot_views(current@),
                last == self.snapshot(),
                delta_views(deltas@) == changes(cur.take(i as int), last),
        {
            assert(cur.take(i + 1).drop_last() =~= cur.take(i as int));
            let c = &current[i];
            assert(cur.take(i + 1).last() == c@);
            match Self::find_token(&self.last_snapshot, &c.token_id) {
                None => {
                    deltas.push(PositionDelta::Opened {
                        token_id: c.token_id.clone(),
                        condition_id: c.condition_id.clone(),
                        size: c.size,
                        side: c.side,
                        price: c.price,
                    });
                },
                Some(j) => {
                    let prev = &self.last_snapshot[j];
                    if c.size >= prev.size && c.size - prev.size >= CHANGE_THRESHOLD {
                        deltas.push(PositionDelta::Increased {
                            token_id: c.token_id.clone(),
                            condition_id: c.condition_id.clone(),
                            added_size: c.size - prev.size,
                            new_total: c.size,
                            side: c.side,
                            price: c.price,
                        });
                    } else if prev.size >= c.size && prev.size - c.size >= CHANGE_THRESHOLD {
                        deltas.push(PositionDelta::Decreased {
                            token_id: c.token_id.clone(),
                            condition_id: c.condition_id.clone(),
                            removed_size: prev.size - c.size,
                            new_total: c.size,
                            side: c.side,
                            price: c.price,
                        });
                    }
                },
            }
            assert(delta_views(deltas@) =~= changes(cur.take(i + 1), last));
        }
        assert(cur.take(n as int) =~= cur);
        let m = self.last_snapshot.len();
        assert(delta_views(deltas@) =~= changes(cur, last) + closings(last.take(0), cur));
        for k in 0..m
            invariant
                m == self.last_snapshot@.len(),
                cur == snapshot_views(current@),
                last == self.snapshot(),
                last == snapshot_views(self.last_snapshot@),
                delta_views(deltas@) == changes(cur, last) + closings(last.take(k as int), cur),
        {
            assert(last.take(k + 1).drop_last() =~= last.take(k as int));
            let p = &self.last_snapshot[k];
            assert(last.take(k + 1).last() == p@);
            let ghost before = closings(last.take(k as int), cur);
            if Self::find_token(current, &p.token_id).is_none() {
                deltas.push(PositionDelta::Closed {
                    token_id: p.token_id.clone(),
                    condition_id: p.condition_id.clone(),
                    old_size: p.size,
                    side: p.side,
                });
                assert(closings(last.take(k + 1), cur) == before.push(closed_delta(p@)));
                assert(delta_views(deltas@) =~= (changes(cur, last) + before).push(closed_delta(p@)));
            } else {
                assert(closings(last.take(k + 1), cur) == before);
            }
            assert(delta_views(deltas@) =~= changes(cur, last) + closings(last.take(k + 1), cur));
        }
        assert(last.take(m as int) =~= last);
        deltas
    }
}

} // verus!
