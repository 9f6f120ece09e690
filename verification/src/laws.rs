use vstd::prelude::*;
use crate::error::DividendError;
use crate::model::{
    EntryView, LedgerView, RecordView, balances_nonnegative, holders_distinct, holder_position,
    lemma_claimed_within_snapshot, lemma_mark_claimed, lemma_nothing_paid,
    lemma_paid_out_within_pool, lemma_position_found, lemma_position_unique, lemma_share_bound,
    mark_claimed, snapshot_balance_of, settled, lemma_settled_remainder, snapshot_total, paid_out,
};
use crate::snapshot::eligible_check;
use crate::ledger::{
    asset_listing, has_distribution, ledger_wf, new_record, record_claim, record_of, record_paid, record_wf, spec_claim, spec_claimable, spec_create, spec_distribution,
    spec_has_claimed, spec_initialize,
};

verus! {

/// Positions in a snapshot depend only on its holders.
pub proof fn lemma_position_same_holders(s1: Seq<EntryView>, s2: Seq<EntryView>, h: Seq<u8>)
    requires
        s1.len() == s2.len(),
        forall|j: int| 0 <= j < s1.len() ==> #[trigger] s1[j].holder == s2[j].holder,
    ensures
        holder_position(s1, h) == holder_position(s2, h),
{
    lemma_position_found(s1, h);
    lemma_position_found(s2, h);
    let p1 = holder_position(s1, h);
    let p2 = holder_position(s2, h);
    if p1 >= 0 {
        assert forall|j: int| 0 <= j < p1 implies #[trigger] s2[j].holder != h by {
            assert(s1[j].holder != h);
        }
        lemma_position_unique(s2, h, p1);
    } else if p2 >= 0 {
        assert forall|j: int| 0 <= j < p2 implies #[trigger] s1[j].holder != h by {
            assert(s2[j].holder != h);
        }
        lemma_position_unique(s1, h, p2);
    }
}

/// Setting the admin keeps the ledger's invariant.
pub proof fn law_initialize_preserves_wf(v: LedgerView, admin: Seq<u8>)
    requires
        ledger_wf(v),
    ensures
        spec_initialize(v, admin) matches Ok(v2) ==> ledger_wf(v2),
{
    if let Ok(v2) = spec_initialize(v, admin) {
        assert(v2.records == v.records);
    }
}

/// Creating a distribution keeps the ledger's invariant.
pub proof fn law_create_preserves_wf(
    v: LedgerView,
    caller: Seq<u8>,
    asset: Seq<u8>,
    payment: Seq<u8>,
    amount: i128,
    entries: Seq<EntryView>,
)
    requires
        ledger_wf(v),
        forall|j: int| 0 <= j < entries.len() ==> !(#[trigger] entries[j].claimed),
    ensures
        spec_create(v, caller, asset, payment, amount, entries) matches Ok((v2, _)) ==> ledger_wf(
            v2,
        ),
{
    if let Ok((v2, id)) = spec_create(v, caller, asset, payment, amount, entries) {
        let supply = eligible_check(entries)->Ok_0;
        lemma_claimed_within_snapshot(entries);
        lemma_nothing_paid(entries, amount as int, supply as int);
        let r = new_record(id, asset, payment, amount, supply, entries);
        assert(record_wf(r));
        assert forall|k: int| 0 <= k < v2.records.len() implies #[trigger] v2.records[k].info.id
            == k + 1 && record_wf(v2.records[k]) by {
            if k < v.records.len() {
                assert(v2.records[k] == v.records[k]);
                assert(v.records[k].info.id == k + 1);
            }
        }
    }
}

/// A successful claim on one distribution keeps its invariant and adds the
/// amount paid to what was distributed.
pub proof fn lemma_record_claim(r: RecordView, h: Seq<u8>)
    requires
        record_wf(r),
    ensures
        record_claim(r, h) matches Ok((r2, a)) ==> {
            &&& record_wf(r2)
            &&& a > 0
            &&& r2.info.distributed == r.info.distributed + a
            &&& r2.info.id == r.info.id
            &&& r2.info.asset_token == r.info.asset_token
            &&& r2.info.total_amount == r.info.total_amount
            &&& r2.info.snapshot_supply == r.info.snapshot_supply
            &&& r2.entries.len() == r.entries.len()
            &&& forall|j: int| 0 <= j < r.entries.len() ==> (#[trigger] r2.entries[j]).holder
                == r.entries[j].holder && r2.entries[j].balance == r.entries[j].balance
        },
{
    if let Ok((r2, a)) = record_claim(r, h) {
        let i = holder_position(r.entries, h);
        lemma_position_found(r.entries, h);
        let t = r.info.total_amount as int;
        let sup = r.info.snapshot_supply as int;
        assert(r.entries[i].balance >= 0);
        lemma_mark_claimed(r.entries, i, t, sup);
        lemma_share_bound(t, r.entries[i].balance as int, sup);
        let s2 = mark_claimed(r.entries, i);
        assert(balances_nonnegative(s2)) by {
            assert forall|j: int| 0 <= j < s2.len() implies #[trigger] s2[j].balance >= 0 by {
                assert(r.entries[j].balance >= 0);
            }
        }
        assert(holders_distinct(s2)) by {
            assert forall|a: int, b: int| 0 <= a < b < s2.len() implies #[trigger] s2[a].holder
                != #[trigger] s2[b].holder by {
                assert(r.entries[a].holder != r.entries[b].holder);
            }
        }
        lemma_paid_out_within_pool(s2, t, sup);
        lemma_paid_out_within_pool(r.entries, t, sup);
        assert(r2 == record_paid(r, i, a));
        assert(record_wf(r2));
    }
}

/// Claiming keeps the ledger's invariant.
pub proof fn law_claim_preserves_wf(v: LedgerView, id: u64, h: Seq<u8>)
    requires
        ledger_wf(v),
    ensures
        spec_claim(v, id, h) matches Ok((v2, _)) ==> ledger_wf(v2),
{
    if let Ok((v2, a)) = spec_claim(v, id, h) {
        let k = id - 1;
        assert(v.records[k].info.id == k + 1);
        lemma_record_claim(record_of(v, id), h);
        assert forall|m: int| 0 <= m < v2.records.len() implies #[trigger] v2.records[m].info.id
            == m + 1 && record_wf(v2.records[m]) by {
            if m != k {
                assert(v2.records[m] == v.records[m]);
                assert(v.records[m].info.id == m + 1);
            }
        }
    }
}

/// Claims never exceed the pool: in every distribution, what has been paid out
/// lies between 0 and the pool, and the distribution is completed exactly when
/// all of the pool is paid out.
pub proof fn law_payouts_within_pool(v: LedgerView, id: u64)
    requires
        ledger_wf(v),
        has_distribution(v, id),
    ensures
        0 <= record_of(v, id).info.distributed <= record_of(v, id).info.total_amount,
        record_of(v, id).info.completed == (record_of(v, id).info.distributed == record_of(
            v,
            id,
        ).info.total_amount),
{
    let k = id - 1;
    assert(v.records[k].info.id == k + 1);
    let r = v.records[k];
    lemma_paid_out_within_pool(
        r.entries,
        r.info.total_amount as int,
        r.info.snapshot_supply as int,
    );
}

/// A claim pays a positive amount that never exceeds the holder's exact
/// proportion of the pool: `amount * snapshot_supply <= total_amount * balance`.
pub proof fn law_claim_within_share(v: LedgerView, id: u64, h: Seq<u8>)
    requires
        ledger_wf(v),
    ensures
        spec_claim(v, id, h) matches Ok((_, a)) ==> {
            let r = record_of(v, id);
            &&& a > 0
            &&& a * r.info.snapshot_supply <= r.info.total_amount * snapshot_balance_of(
                r.entries,
                h,
            )
        },
{
    if let Ok((v2, a)) = spec_claim(v, id, h) {
        let k = id - 1;
        assert(v.records[k].info.id == k + 1);
        let r = record_of(v, id);
        let i = holder_position(r.entries, h);
        lemma_position_found(r.entries, h);
        assert(r.entries[i].balance >= 0);
        lemma_share_bound(
            r.info.total_amount as int,
            r.entries[i].balance as int,
            r.info.snapshot_supply as int,
        );
    }
}

/// A holder's claim flips `has_claimed` from false to true exactly once: after
/// it, nothing more is claimable and a second claim is refused as already claimed.
pub proof fn law_claim_once(v: LedgerView, id: u64, h: Seq<u8>)
    requires
        ledger_wf(v),
    ensures
        spec_claim(v, id, h) matches Ok((v2, a)) ==> {
            &&& !spec_has_claimed(v, id, h)
            &&& spec_has_claimed(v2, id, h)
            &&& spec_claimable(v, id, h) == Ok::<i128, DividendError>(a)
            &&& spec_claimable(v2, id, h) == Ok::<i128, DividendError>(0)
            &&& spec_claim(v2, id, h) == Err::<(LedgerView, i128), DividendError>(
                DividendError::AlreadyClaimed,
            )
            &&& record_of(v2, id).info.distributed == record_of(v, id).info.distributed + a
        },
{
    if let Ok((v2, a)) = spec_claim(v, id, h) {
        let k = id - 1;
        assert(v.records[k].info.id == k + 1);
        let r = record_of(v, id);
        lemma_record_claim(r, h);
        let r2 = record_of(v2, id);
        let i = holder_position(r.entries, h);
        lemma_position_found(r.entries, h);
        assert(r2.entries == mark_claimed(r.entries, i));
        lemma_position_same_holders(r.entries, r2.entries, h);
    }
}

/// One holder's claim changes nothing of what any other holder, in this or any
/// other distribution, may claim or has claimed: each entitlement rests on the
/// frozen snapshot alone.
pub proof fn law_claim_leaves_others(v: LedgerView, id: u64, h: Seq<u8>, other_id: u64, other: Seq<u8>)
    requires
        ledger_wf(v),
        other_id != id || other != h,
    ensures
        spec_claim(v, id, h) matches Ok((v2, _)) ==> {
            &&& spec_claimable(v2, other_id, other) == spec_claimable(v, other_id, other)
            &&& spec_has_claimed(v2, other_id, other) == spec_has_claimed(v, other_id, other)
        },
{
    if let Ok((v2, a)) = spec_claim(v, id, h) {
        let k = id - 1;
        assert(v.records[k].info.id == k + 1);
        if other_id == id {
            let r = record_of(v, id);
            lemma_record_claim(r, h);
            let r2 = record_of(v2, id);
            let i = holder_position(r.entries, h);
            lemma_position_found(r.entries, h);
            lemma_position_same_holders(r.entries, r2.entries, other);
            let j = holder_position(r.entries, other);
            lemma_position_found(r.entries, other);
            if j >= 0 {
                assert(j != i);
                assert(r2.entries[j] == r.entries[j]);
            }
        }
    }
}

/// An address outside a distribution's snapshot has nothing to claim, however
/// many asset tokens it holds now, and its claim is refused.
pub proof fn law_outsider_cannot_claim(v: LedgerView, id: u64, h: Seq<u8>)
    requires
        ledger_wf(v),
        has_distribution(v, id),
        forall|j: int|
            0 <= j < record_of(v, id).entries.len() ==> #[trigger] record_of(v, id).entries[j].holder
                != h,
    ensures
        spec_claimable(v, id, h) == Ok::<i128, DividendError>(0),
        spec_claim(v, id, h) == Err::<(LedgerView, i128), DividendError>(
            DividendError::NothingToClaim,
        ),
        !spec_has_claimed(v, id, h),
{
    crate::model::lemma_position_absent(record_of(v, id).entries, h);
}

/// A new distribution gets the next number, is found under it with nothing
/// paid out, and leaves every earlier distribution as it was.
pub proof fn law_create_numbering(
    v: LedgerView,
    caller: Seq<u8>,
    asset: Seq<u8>,
    payment: Seq<u8>,
    amount: i128,
    entries: Seq<EntryView>,
)
    requires
        ledger_wf(v),
    ensures
        spec_create(v, caller, asset, payment, amount, entries) matches Ok((v2, id)) ==> {
            &&& id == v.records.len() + 1
            &&& !has_distribution(v, id)
            &&& spec_distribution(v2, id) matches Ok(d) && d.distributed == 0 && !d.completed
                && d.total_amount == amount && d.asset_token == asset && d.payment_token == payment
            &&& forall|old_id: u64|
                has_distribution(v, old_id) ==> #[trigger] spec_distribution(v2, old_id)
                    == spec_distribution(v, old_id)
        },
{
}

/// Every distribution listed for an asset is one of that asset, and every
/// distribution of that asset is listed.
pub proof fn law_listing_scoped(rs: Seq<RecordView>, asset: Seq<u8>)
    ensures
        forall|j: int|
            0 <= j < asset_listing(rs, asset).len() ==> (#[trigger] asset_listing(
                rs,
                asset,
            )[j]).asset_token == asset,
        forall|k: int|
            0 <= k < rs.len() && rs[k].info.asset_token == asset ==> asset_listing(
                rs,
                asset,
            ).contains(#[trigger] rs[k].info),
    decreases rs.len(),
{
    if rs.len() > 0 {
        let r = rs.drop_last();
        law_listing_scoped(r, asset);
        let rest = asset_listing(r, asset);
        assert forall|k: int|
            0 <= k < rs.len() && rs[k].info.asset_token == asset implies asset_listing(
                rs,
                asset,
            ).contains(#[trigger] rs[k].info) by {
            if k < rs.len() - 1 {
                assert(r[k] == rs[k]);
                assert(rest.contains(r[k].info));
                let w = choose|w: int| 0 <= w < rest.len() && rest[w] == r[k].info;
                assert(asset_listing(rs, asset)[w] == rest[w]);
            } else {
                assert(asset_listing(rs, asset)[rest.len() as int] == rs[k].info);
            }
        }
    }
}

/// Creating a distribution for one asset adds it at the end of that asset's
/// listing and leaves the listing of every other asset as it was.
pub proof fn law_create_listing(
    v: LedgerView,
    caller: Seq<u8>,
    asset: Seq<u8>,
    payment: Seq<u8>,
    amount: i128,
    entries: Seq<EntryView>,
    other: Seq<u8>,
)
    ensures
        spec_create(v, caller, asset, payment, amount, entries) matches Ok((v2, id)) ==> {
            &&& asset_listing(v2.records, asset) == asset_listing(v.records, asset).push(
                v2.records.last().info,
            )
            &&& other != asset ==> asset_listing(v2.records, other) == asset_listing(
                v.records,
                other,
            )
        },
{
    if let Ok((v2, id)) = spec_create(v, caller, asset, payment, amount, entries) {
        assert(v2.records.drop_last() =~= v.records);
    }
}

/// Rounding leaves little dust: once nothing more can be claimed from a
/// distribution (every holder has claimed or has a share of 0), what remains
/// in escrow is less than one unit per holder of the snapshot.
pub proof fn law_dust_bound(v: LedgerView, id: u64)
    requires
        ledger_wf(v),
        has_distribution(v, id),
        settled(
            record_of(v, id).entries,
            record_of(v, id).info.total_amount as int,
            record_of(v, id).info.snapshot_supply as int,
        ),
    ensures
        0 <= record_of(v, id).info.total_amount - record_of(v, id).info.distributed < record_of(
            v,
            id,
        ).entries.len(),
{
    let k = id - 1;
    assert(v.records[k].info.id == k + 1);
    let r = v.records[k];
    let t = r.info.total_amount as int;
    let sup = r.info.snapshot_supply as int;
    let p = r.info.distributed as int;
    let n = r.entries.len() as int;
    lemma_paid_out_within_pool(r.entries, t, sup);
    lemma_settled_remainder(r.entries, t, sup);
    if n == 0 {
        assert(r.entries =~= Seq::<EntryView>::empty());
    }
    assert((t - p) * sup < n * sup) by (nonlinear_arith)
        requires
            t * sup - p * sup <= n * (sup - 1),
            n >= 1,
    ;
    assert(t - p < n) by (nonlinear_arith)
        requires
            (t - p) * sup < n * sup,
            sup > 0,
    ;
}

/// In a snapshot of distinct holders, the entry of `h` is the one at the index
/// that holds `h`.
pub proof fn lemma_position_of_distinct(s: Seq<EntryView>, h: Seq<u8>, i: int)
    requires
        holders_distinct(s),
        0 <= i < s.len(),
        s[i].holder == h,
    ensures
        holder_position(s, h) == i,
{
    assert forall|j: int| 0 <= j < i implies #[trigger] s[j].holder != h by {
        assert(s[j].holder != s[i].holder);
    }
    lemma_position_unique(s, h, i);
}

/// What a holder may claim is its share of the pool: for a holder that has
/// not claimed, whose product of pool and balance fits in `i128`, `claimable`
/// gives `total_amount * balance / snapshot_supply`; once it has claimed, 0.
pub proof fn law_claimable_is_share(v: LedgerView, id: u64, h: Seq<u8>, i: int)
    requires
        ledger_wf(v),
        has_distribution(v, id),
        0 <= i < record_of(v, id).entries.len(),
        record_of(v, id).entries[i].holder == h,
    ensures
        !record_of(v, id).entries[i].claimed && record_of(v, id).info.total_amount * record_of(
            v,
            id,
        ).entries[i].balance <= i128::MAX ==> spec_claimable(v, id, h) == Ok::<
            i128,
            DividendError,
        >(
            ((record_of(v, id).info.total_amount * record_of(v, id).entries[i].balance) / (record_of(v, id).info.snapshot_supply as int)) as i128,
        ),
        record_of(v, id).entries[i].claimed ==> spec_claimable(v, id, h) == Ok::<
            i128,
            DividendError,
        >(0),
{
    let k = id - 1;
    assert(v.records[k].info.id == k + 1);
    let r = record_of(v, id);
    lemma_position_of_distinct(r.entries, h, i);
    assert(r.entries[i].balance >= 0);
    assert(r.info.total_amount * r.entries[i].balance >= 0) by (nonlinear_arith)
        requires
            r.info.total_amount > 0,
            r.entries[i].balance >= 0,
    ;
}

/// A claim pays the holder its share: a holder in the snapshot that has not
/// claimed, whose share `total_amount * balance / snapshot_supply` is positive
/// (and whose product fits in `i128`), gets exactly that share; afterwards it
/// has claimed and the share is added to what was distributed.
pub proof fn law_claim_pays_share(v: LedgerView, id: u64, h: Seq<u8>, i: int)
    requires
        ledger_wf(v),
        has_distribution(v, id),
        0 <= i < record_of(v, id).entries.len(),
        record_of(v, id).entries[i].holder == h,
        !record_of(v, id).entries[i].claimed,
        record_of(v, id).info.total_amount * record_of(v, id).entries[i].balance <= i128::MAX,
        (record_of(v, id).info.total_amount * record_of(v, id).entries[i].balance) / (record_of(v, id).info.snapshot_supply as int) > 0,
    ensures
        spec_claim(v, id, h) matches Ok((v2, a)) && a == (record_of(v, id).info.total_amount
            * record_of(v, id).entries[i].balance) / (record_of(v, id).info.snapshot_supply as int)
            && spec_has_claimed(v2, id, h) && record_of(v2, id).info.distributed == record_of(
            v,
            id,
        ).info.distributed + a,
{
    law_claimable_is_share(v, id, h, i);
    let k = id - 1;
    assert(v.records[k].info.id == k + 1);
    let r = record_of(v, id);
    lemma_position_of_distinct(r.entries, h, i);
    law_claim_once(v, id, h);
}

/// Claims are tracked per distribution: a claim on one distribution changes
/// nothing of what a claim, `claimable` or `has_claimed` gives on any other.
pub proof fn law_claim_other_distribution(
    v: LedgerView,
    id: u64,
    h: Seq<u8>,
    other_id: u64,
    other: Seq<u8>,
)
    requires
        ledger_wf(v),
        other_id != id,
    ensures
        spec_claim(v, other_id, other) matches Ok((v2, _)) ==> {
            &&& spec_claimable(v2, id, h) == spec_claimable(v, id, h)
            &&& spec_has_claimed(v2, id, h) == spec_has_claimed(v, id, h)
            &&& (spec_claim(v2, id, h) is Ok <==> spec_claim(v, id, h) is Ok)
            &&& (spec_claim(v2, id, h) matches Ok((_, a2)) ==> spec_claim(v, id, h) matches Ok(
                (_, a1),
            ) && a1 == a2)
            &&& (spec_claim(v2, id, h) matches Err(e2) ==> spec_claim(v, id, h) == Err::<
                (LedgerView, i128),
                DividendError,
            >(e2))
        },
{
    if let Ok((v2, a)) = spec_claim(v, other_id, other) {
        assert(v2.records.len() == v.records.len());
        if has_distribution(v, id) {
            assert(record_of(v2, id) == record_of(v, id));
        }
    }
}

/// `has_claimed` is true exactly when the distribution exists and the holder's
/// entry in its snapshot is marked claimed.
pub proof fn law_has_claimed_is_mark(v: LedgerView, id: u64, h: Seq<u8>)
    requires
        ledger_wf(v),
    ensures
        spec_has_claimed(v, id, h) <==> has_distribution(v, id) && exists|i: int|
            0 <= i < record_of(v, id).entries.len() && (#[trigger] record_of(v, id).entries[i]).holder
                == h && record_of(v, id).entries[i].claimed,
{
    if has_distribution(v, id) {
        let k = id - 1;
        assert(v.records[k].info.id == k + 1);
        let r = record_of(v, id);
        lemma_position_found(r.entries, h);
        let p = holder_position(r.entries, h);
        if exists|i: int| 0 <= i < r.entries.len() && (#[trigger] r.entries[i]).holder == h
            && r.entries[i].claimed {
            let i = choose|i: int| 0 <= i < r.entries.len() && (#[trigger] r.entries[i]).holder
                == h && r.entries[i].claimed;
            lemma_position_of_distinct(r.entries, h, i);
        }
        if p >= 0 && r.entries[p].claimed {
            assert(r.entries[p].holder == h);
        }
    }
}

/// Nobody has claimed from a newly created distribution, and each holder of
/// its list may claim its share of the pool.
pub proof fn law_new_distribution_unclaimed(
    v: LedgerView,
    caller: Seq<u8>,
    asset: Seq<u8>,
    payment: Seq<u8>,
    amount: i128,
    entries: Seq<EntryView>,
    h: Seq<u8>,
)
    requires
        ledger_wf(v),
        forall|j: int| 0 <= j < entries.len() ==> !(#[trigger] entries[j].claimed),
    ensures
        spec_create(v, caller, asset, payment, amount, entries) matches Ok((v2, id)) ==> {
            &&& !spec_has_claimed(v2, id, h)
            &&& record_of(v2, id).entries == entries
            &&& record_of(v2, id).info.snapshot_supply == snapshot_total(entries)
        },
{
    if let Ok((v2, id)) = spec_create(v, caller, asset, payment, amount, entries) {
        law_create_preserves_wf(v, caller, asset, payment, amount, entries);
        law_has_claimed_is_mark(v2, id, h);
        lemma_claimed_within_snapshot(entries);
    }
}

/// `get_distribution` gives the stored record of the distribution: its own
/// number, a positive pool, the sum of its snapshot balances as the supply,
/// the sum of the shares of the holders that claimed as what was distributed,
/// and completed exactly when all of the pool was distributed.
pub proof fn law_distribution_record(v: LedgerView, id: u64)
    requires
        ledger_wf(v),
        has_distribution(v, id),
    ensures
        spec_distribution(v, id) matches Ok(d) && {
            &&& d == record_of(v, id).info
            &&& d.id == id
            &&& d.total_amount > 0
            &&& d.snapshot_supply == snapshot_total(record_of(v, id).entries)
            &&& d.distributed == paid_out(
                record_of(v, id).entries,
                d.total_amount as int,
                d.snapshot_supply as int,
            )
            &&& d.completed == (d.distributed == d.total_amount)
        },
{
    let k = id - 1;
    assert(v.records[k].info.id == k + 1);
}

/// The distributions of all assets with that asset, in order of creation.
pub open spec fn distributions_of(rs: Seq<RecordView>, asset: Seq<u8>) -> Seq<RecordView> {
    rs.filter(|r: RecordView| r.info.asset_token == asset)
}

/// Each listed distribution is the stored record with its number, and the
/// numbers rise strictly, so no distribution is listed twice; the listing
/// has one entry per distribution of the asset, whatever claims were made.
pub proof fn law_listing_exactly_once(rs: Seq<RecordView>, asset: Seq<u8>)
    requires
        forall|k: int| 0 <= k < rs.len() ==> #[trigger] rs[k].info.id == k + 1,
    ensures
        forall|j: int|
            0 <= j < asset_listing(rs, asset).len() ==> {
                let d = #[trigger] asset_listing(rs, asset)[j];
                &&& 1 <= d.id <= rs.len()
                &&& d == rs[d.id - 1].info
                &&& d.asset_token == asset
            },
        forall|j1: int, j2: int|
            0 <= j1 < j2 < asset_listing(rs, asset).len() ==> (#[trigger] asset_listing(
                rs,
                asset,
            )[j1]).id < (#[trigger] asset_listing(rs, asset)[j2]).id,
        asset_listing(rs, asset).len() == distributions_of(rs, asset).len(),
    decreases rs.len(),
{
    reveal_with_fuel(Seq::filter, 1);
    if rs.len() > 0 {
        let r = rs.drop_last();
        assert forall|k: int| 0 <= k < r.len() implies #[trigger] r[k].info.id == k + 1 by {
            assert(r[k] == rs[k]);
        }
        law_listing_exactly_once(r, asset);
        let rest = asset_listing(r, asset);
        let l = asset_listing(rs, asset);
        assert(rs.last().info.id == rs.len());
        assert forall|j: int| 0 <= j < l.len() implies {
            let d = #[trigger] l[j];
            &&& 1 <= d.id <= rs.len()
            &&& d == rs[d.id - 1].info
            &&& d.asset_token == asset
        } by {
            if j < rest.len() {
                assert(l[j] == rest[j]);
                assert(r[rest[j].id - 1] == rs[rest[j].id - 1]);
            }
        }
        assert forall|j1: int, j2: int| 0 <= j1 < j2 < l.len() implies (#[trigger] l[j1]).id
            < (#[trigger] l[j2]).id by {
            assert(l[j1] == rest[j1]);
            if j2 < rest.len() {
                assert(l[j2] == rest[j2]);
            } else {
                assert(rest[j1].id <= r.len());
            }
        }
    }
}

} // verus!
