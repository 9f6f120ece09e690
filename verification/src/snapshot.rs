use vstd::prelude::*;
use crate::address::Address;
use crate::error::DividendError;
use crate::model::{
    EntryView, balances_nonnegative, holders_distinct, holder_position, snapshot_balance_of,
    snapshot_total, lemma_position_unique, lemma_position_absent,
};

verus! {

/// One holder of a distribution's frozen snapshot.
#[derive(Debug)]
pub struct SnapshotEntry {
    pub holder: Address,
    pub balance: i128,
    pub claimed: bool,
}

impl View for SnapshotEntry {
    type V = EntryView;

    open spec fn view(&self) -> EntryView {
        EntryView { holder: self.holder@, balance: self.balance, claimed: self.claimed }
    }
}

impl SnapshotEntry {
    /// A fresh copy of this entry.
    pub fn duplicate(&self) -> (r: SnapshotEntry)
        ensures
            r@ == self@,
    {
        SnapshotEntry { holder: self.holder.duplicate(), balance: self.balance, claimed: self.claimed }
    }
}

/// The views of a sequence of snapshot entries.
pub open spec fn entries_view(v: Seq<SnapshotEntry>) -> Seq<EntryView> {
    Seq::new(v.len(), |i: int| v[i]@)
}

/// The snapshot that an eligibility list describes, nobody having claimed yet.
pub open spec fn eligible_entries(e: Seq<(Address, i128)>) -> Seq<EntryView> {
    Seq::new(e.len(), |i: int| EntryView { holder: e[i].0@, balance: e[i].1, claimed: false })
}

/// What the check of an eligibility list gives: the first refusal that
/// applies, in this order, or else the snapshot supply (the sum of the balances).
pub open spec fn eligible_check(s: Seq<EntryView>) -> Result<i128, DividendError> {
    if !balances_nonnegative(s) {
        Err(DividendError::InvalidAmount)
    } else if !holders_distinct(s) {
        Err(DividendError::DuplicateHolder)
    } else if snapshot_total(s) > i128::MAX {
        Err(DividendError::ArithmeticOverflow)
    } else if snapshot_total(s) == 0 {
        Err(DividendError::ZeroSupply)
    } else {
        Ok(snapshot_total(s) as i128)
    }
}

pub proof fn lemma_total_step(s: Seq<EntryView>, i: int)
    requires
        0 <= i < s.len(),
    ensures
        snapshot_total(s.take(i + 1)) == snapshot_total(s.take(i)) + s[i].balance,
{
    assert(s.take(i + 1).drop_last() =~= s.take(i));
}

pub proof fn lemma_total_prefix(s: Seq<EntryView>, k: int)
    requires
        balances_nonnegative(s),
        0 <= k <= s.len(),
    ensures
        snapshot_total(s.take(k)) <= snapshot_total(s),
    decreases s.len(),
{
    if k == s.len() {
        assert(s.take(k) =~= s);
    } else {
        let r = s.drop_last();
        assert(s.last().balance >= 0);
        assert(s.take(k) =~= r.take(k));
        assert(balances_nonnegative(r)) by {
            assert forall|i: int| 0 <= i < r.len() implies #[trigger] r[i].balance >= 0 by {
                assert(r[i] == s[i]);
            }
        }
        lemma_total_prefix(r, k);
    }
}

/// Checks an eligibility list: balances must not be negative, no holder may
/// occur twice, and the balances must sum to a positive amount that fits in `i128`.
/// On success gives that sum, the snapshot supply.
pub fn validate_eligible(eligible: &Vec<(Address, i128)>) -> (r: Result<i128, DividendError>)
    ensures
        r == eligible_check(eligible_entries(eligible@)),
{
    let ghost s = eligible_entries(eligible@);
    let n = eligible.len();
    let mut i: usize = 0;
    while i < n
        invariant
            n == eligible@.len(),
            s == eligible_entries(eligible@),
            i <= n,
            forall|k: int| 0 <= k < i ==> #[trigger] s[k].balance >= 0,
        decreases n - i,
    {
        if eligible[i].1 < 0 {
            assert(s[i as int].balance < 0);
            return Err(DividendError::InvalidAmount);
        }
        i += 1;
    }
    assert(balances_nonnegative(s));
    let mut i: usize = 0;
    while i < n
        invariant
            n == eligible@.len(),
            s == eligible_entries(eligible@),
            i <= n,
            balances_nonnegative(s),
            forall|a: int, b: int| 0 <= a < b < i ==> #[trigger] s[a].holder != #[trigger] s[b].holder,
        decreases n - i,
    {
        let mut j: usize = 0;
        while j < i
            invariant
                n == eligible@.len(),
                s == eligible_entries(eligible@),
                j <= i < n,
                balances_nonnegative(s),
                forall|a: int| 0 <= a < j ==> #[trigger] s[a].holder != s[i as int].holder,
            decreases i - j,
        {
            if eligible[j].0.same_as(&eligible[i].0) {
                assert(s[j as int].holder == s[i as int].holder);
                assert(!holders_distinct(s));
                return Err(DividendError::DuplicateHolder);
            }
            j += 1;
        }
        i += 1;
    }
    assert(holders_distinct(s));
    let mut total: i128 = 0;
    let mut i: usize = 0;
    assert(s.take(0) =~= Seq::<EntryView>::empty());
    while i < n
        invariant
            n == eligible@.len(),
            s == eligible_entries(eligible@),
            i <= n,
            balances_nonnegative(s),
            holders_distinct(s),
            total == snapshot_total(s.take(i as int)),
        decreases n - i,
    {
        proof {
            lemma_total_step(s, i as int);
        }
        match total.checked_add(eligible[i].1) {
            Some(t) => {
                total = t;
            },
            None => {
                proof {
                    lemma_total_prefix(s, i + 1);
                }
                return Err(DividendError::ArithmeticOverflow);
            },
        }
        i += 1;
    }
    assert(s.take(n as int) =~= s);
    if total == 0 {
        return Err(DividendError::ZeroSupply);
    }
    Ok(total)
}

/// The frozen snapshot that an eligibility list describes, nobody having claimed yet.
pub fn build_snapshot(eligible: &Vec<(Address, i128)>) -> (r: Vec<SnapshotEntry>)
    ensures
        entries_view(r@) == eligible_entries(eligible@),
{
    let n = eligible.len();
    let mut out: Vec<SnapshotEntry> = Vec::new();
    let mut i: usize = 0;
    while i < n
        invariant
            n == eligible@.len(),
            i <= n,
            out@.len() == i,
            entries_view(out@) == eligible_entries(eligible@).take(i as int),
        decreases n - i,
    {
        let entry = SnapshotEntry {
            holder: eligible[i].0.duplicate(),
            balance: eligible[i].1,
            claimed: false,
        };
        let ghost prev = out@;
        assert(entry@ == eligible_entries(eligible@)[i as int]);
        out.push(entry);
        assert(out@ == prev.push(entry));
        i += 1;
        assert forall|k: int| 0 <= k < i implies #[trigger] entries_view(out@)[k] == eligible_entries(eligible@).take(i as int)[k] by {
            if k < i - 1 {
                assert(out@[k] == prev[k]);
                assert(entries_view(prev)[k] == prev[k]@);
            }
        }
        assert(entries_view(out@) =~= eligible_entries(eligible@).take(i as int));
    }
    assert(eligible_entries(eligible@).take(n as int) =~= eligible_entries(eligible@));
    out
}

/// The position of `holder` in a snapshot, if it occurs.
pub fn find_holder(entries: &Vec<SnapshotEntry>, holder: &Address) -> (r: Option<usize>)
    ensures
        match r {
            Some(i) => holder_position(entries_view(entries@), holder@) == i as int,
            None => holder_position(entries_view(entries@), holder@) == -1,
        },
{
    let ghost s = entries_view(entries@);
    let n = entries.len();
    let mut i: usize = 0;
    while i < n
        invariant
            n == entries@.len(),
            s == entries_view(entries@),
            i <= n,
            forall|j: int| 0 <= j < i ==> #[trigger] s[j].holder != holder@,
        decreases n - i,
    {
        if entries[i].holder.same_as(holder) {
            proof {
                lemma_position_unique(s, holder@, i as int);
            }
            return Some(i);
        }
        i += 1;
    }
    proof {
        lemma_position_absent(s, holder@);
    }
    None
}

/// The snapshot balance of `holder`: its entry's balance, or 0 when it has none.
pub fn snapshot_balance(entries: &Vec<SnapshotEntry>, holder: &Address) -> (r: i128)
    ensures
        r == snapshot_balance_of(entries_view(entries@), holder@),
{
    match find_holder(entries, holder) {
        Some(i) => entries[i].balance,
        None => 0,
    }
}

} // verus!
