use vstd::prelude::*;

verus! {

/// One holder of a distribution's snapshot: who, with how many asset
/// tokens when the distribution was created, and whether they have claimed.
pub struct EntryView {
    pub holder: Seq<u8>,
    pub balance: i128,
    pub claimed: bool,
}

/// The public record of one distribution.
pub struct DistributionView {
    pub id: u64,
    pub asset_token: Seq<u8>,
    pub payment_token: Seq<u8>,
    pub total_amount: i128,
    pub distributed: i128,
    pub completed: bool,
    pub snapshot_supply: i128,
}

/// A distribution together with its frozen snapshot of holders.
pub struct RecordView {
    pub info: DistributionView,
    pub entries: Seq<EntryView>,
}

/// The whole state of the dividend ledger.
pub struct LedgerView {
    pub admin: Option<Seq<u8>>,
    pub records: Seq<RecordView>,
}

/// A holder's proportional share of a pool: `total * balance / supply`,
/// rounded down.
pub open spec fn share(total: int, balance: int, supply: int) -> int {
    (total * balance) / supply
}

/// The sum of all snapshot balances.
pub open spec fn snapshot_total(s: Seq<EntryView>) -> int
    decreases s.len(),
{
    if s.len() == 0 {
        0
    } else {
        snapshot_total(s.drop_last()) + s.last().balance
    }
}

/// The sum of the snapshot balances of the holders that have claimed.
pub open spec fn claimed_balance(s: Seq<EntryView>) -> int
    decreases s.len(),
{
    if s.len() == 0 {
        0
    } else {
        claimed_balance(s.drop_last()) + if s.last().claimed {
            s.last().balance as int
        } else {
            0
        }
    }
}

/// What has been paid out: the sum of the shares of the holders that claimed.
pub open spec fn paid_out(s: Seq<EntryView>, total: int, supply: int) -> int
    decreases s.len(),
{
    if s.len() == 0 {
        0
    } else {
        paid_out(s.drop_last(), total, supply) + if s.last().claimed {
            share(total, s.last().balance as int, supply)
        } else {
            0
        }
    }
}

/// No snapshot balance is negative.
pub open spec fn balances_nonnegative(s: Seq<EntryView>) -> bool {
    forall|i: int| 0 <= i < s.len() ==> #[trigger] s[i].balance >= 0
}

/// No holder occurs twice in the snapshot.
pub open spec fn holders_distinct(s: Seq<EntryView>) -> bool {
    forall|i: int, j: int|
        0 <= i < j < s.len() ==> #[trigger] s[i].holder != #[trigger] s[j].holder
}

/// `i` is the first position of `h` in the snapshot.
pub open spec fn is_first_position(s: Seq<EntryView>, h: Seq<u8>, i: int) -> bool {
    &&& 0 <= i < s.len()
    &&& s[i].holder == h
    &&& forall|j: int| 0 <= j < i ==> #[trigger] s[j].holder != h
}

/// The position of `h` in the snapshot, or -1 when `h` is not in it.
pub open spec fn holder_position(s: Seq<EntryView>, h: Seq<u8>) -> int {
    if exists|i: int| is_first_position(s, h, i) {
        choose|i: int| is_first_position(s, h, i)
    } else {
        -1
    }
}

/// The snapshot balance of `h`: its entry's balance, or 0 when it has none.
pub open spec fn snapshot_balance_of(s: Seq<EntryView>, h: Seq<u8>) -> i128 {
    let i = holder_position(s, h);
    if i < 0 {
        0
    } else {
        s[i].balance
    }
}

/// `s` with the entry at `i` marked as claimed.
pub open spec fn mark_claimed(s: Seq<EntryView>, i: int) -> Seq<EntryView> {
    s.update(i, EntryView { holder: s[i].holder, balance: s[i].balance, claimed: true })
}

pub proof fn lemma_position_unique(s: Seq<EntryView>, h: Seq<u8>, i: int)
    requires
        0 <= i < s.len(),
        s[i].holder == h,
        forall|j: int| 0 <= j < i ==> #[trigger] s[j].holder != h,
    ensures
        holder_position(s, h) == i,
{
    assert(is_first_position(s, h, i));
    let c = choose|k: int| is_first_position(s, h, k);
    assert(is_first_position(s, h, c));
    if c < i {
        assert(s[c].holder != h);
    } else if c > i {
        assert(s[i].holder != h);
    }
}

pub proof fn lemma_position_absent(s: Seq<EntryView>, h: Seq<u8>)
    requires
        forall|j: int| 0 <= j < s.len() ==> #[trigger] s[j].holder != h,
    ensures
        holder_position(s, h) == -1,
{
    if exists|i: int| is_first_position(s, h, i) {
        let c = choose|k: int| is_first_position(s, h, k);
        assert(s[c].holder == h);
    }
}

pub proof fn lemma_position_found(s: Seq<EntryView>, h: Seq<u8>)
    ensures
        holder_position(s, h) == -1 || is_first_position(s, h, holder_position(s, h)),
{
}

/// A share never exceeds the exact proportion: `share * supply <= total * balance`.
pub proof fn lemma_share_bound(total: int, balance: int, supply: int)
    requires
        total >= 0,
        balance >= 0,
        supply > 0,
    ensures
        0 <= share(total, balance, supply),
        share(total, balance, supply) * supply <= total * balance,
{
    let x = total * balance;
    assert(total * balance >= 0) by (nonlinear_arith)
        requires
            total >= 0,
            balance >= 0,
    ;
    vstd::arithmetic::div_mod::lemma_fundamental_div_mod(x, supply);
    vstd::arithmetic::div_mod::lemma_mod_pos_bound(x, supply);
    vstd::arithmetic::div_mod::lemma_div_pos_is_pos(x, supply);
    vstd::arithmetic::mul::lemma_mul_is_commutative(supply, x / supply);
}

pub proof fn lemma_claimed_within_snapshot(s: Seq<EntryView>)
    requires
        balances_nonnegative(s),
    ensures
        0 <= claimed_balance(s) <= snapshot_total(s),
    decreases s.len(),
{
    if s.len() > 0 {
        assert(s.last().balance >= 0);
        lemma_claimed_within_snapshot(s.drop_last());
    }
}

/// What has been paid out never exceeds the exact proportion of the claimed balances.
pub proof fn lemma_paid_out_bound(s: Seq<EntryView>, total: int, supply: int)
    requires
        total >= 0,
        supply > 0,
        balances_nonnegative(s),
    ensures
        0 <= paid_out(s, total, supply),
        paid_out(s, total, supply) * supply <= total * claimed_balance(s),
    decreases s.len(),
{
    if s.len() > 0 {
        let r = s.drop_last();
        let b = s.last().balance as int;
        assert(b >= 0);
        lemma_paid_out_bound(r, total, supply);
        let p = paid_out(r, total, supply);
        let c = claimed_balance(r);
        if s.last().claimed {
            let sh = share(total, b, supply);
            lemma_share_bound(total, b, supply);
            assert((p + sh) * supply <= total * (c + b)) by (nonlinear_arith)
                requires
                    p * supply <= total * c,
                    sh * supply <= total * b,
            ;
        }
    }
}

/// Payouts to the holders of a snapshot never exceed the pool.
pub proof fn lemma_paid_out_within_pool(s: Seq<EntryView>, total: int, supply: int)
    requires
        total >= 0,
        supply > 0,
        balances_nonnegative(s),
        snapshot_total(s) == supply,
    ensures
        0 <= paid_out(s, total, supply) <= total,
{
    lemma_paid_out_bound(s, total, supply);
    lemma_claimed_within_snapshot(s);
    let p = paid_out(s, total, supply);
    let c = claimed_balance(s);
    assert(p <= total) by (nonlinear_arith)
        requires
            p * supply <= total * c,
            0 <= c <= supply,
            total >= 0,
            supply > 0,
    ;
}

/// Nothing has been paid out of a snapshot in which nobody has claimed.
pub proof fn lemma_nothing_paid(s: Seq<EntryView>, total: int, supply: int)
    requires
        forall|i: int| 0 <= i < s.len() ==> !(#[trigger] s[i].claimed),
    ensures
        paid_out(s, total, supply) == 0,
        claimed_balance(s) == 0,
    decreases s.len(),
{
    if s.len() > 0 {
        assert(!s[s.len() - 1].claimed);
        lemma_nothing_paid(s.drop_last(), total, supply);
    }
}

/// Marking an unclaimed holder as claimed adds exactly that holder's share.
pub proof fn lemma_mark_claimed(s: Seq<EntryView>, i: int, total: int, supply: int)
    requires
        0 <= i < s.len(),
        !s[i].claimed,
    ensures
        paid_out(mark_claimed(s, i), total, supply) == paid_out(s, total, supply) + share(
            total,
            s[i].balance as int,
            supply,
        ),
        claimed_balance(mark_claimed(s, i)) == claimed_balance(s) + s[i].balance,
        snapshot_total(mark_claimed(s, i)) == snapshot_total(s),
    decreases s.len(),
{
    let s2 = mark_claimed(s, i);
    if i == s.len() - 1 {
        assert(s2.drop_last() =~= s.drop_last());
    } else {
        assert(s2.drop_last() =~= mark_claimed(s.drop_last(), i));
        lemma_mark_claimed(s.drop_last(), i, total, supply);
    }
}

/// Every holder has either claimed or has a share of 0: nothing more can be
/// claimed from the snapshot.
pub open spec fn settled(s: Seq<EntryView>, total: int, supply: int) -> bool {
    forall|i: int|
        0 <= i < s.len() ==> (#[trigger] s[i]).claimed || share(total, s[i].balance as int, supply)
            == 0
}

/// Of a settled snapshot, each holder leaves less than one unit of the pool
/// behind (scaled by the supply): `total * supply - paid_out * supply <= len * (supply - 1)`.
pub proof fn lemma_settled_remainder(s: Seq<EntryView>, total: int, supply: int)
    requires
        total >= 0,
        supply > 0,
        balances_nonnegative(s),
        settled(s, total, supply),
    ensures
        total * snapshot_total(s) - paid_out(s, total, supply) * supply <= s.len() * (supply - 1),
    decreases s.len(),
{
    if s.len() > 0 {
        let r = s.drop_last();
        let b = s.last().balance as int;
        assert(b >= 0);
        assert(balances_nonnegative(r)) by {
            assert forall|i: int| 0 <= i < r.len() implies #[trigger] r[i].balance >= 0 by {
                assert(r[i] == s[i]);
            }
        }
        assert(settled(r, total, supply)) by {
            assert forall|i: int| 0 <= i < r.len() implies (#[trigger] r[i]).claimed || share(
                total,
                r[i].balance as int,
                supply,
            ) == 0 by {
                assert(r[i] == s[i]);
            }
        }
        lemma_settled_remainder(r, total, supply);
        let x = total * b;
        assert(x >= 0) by (nonlinear_arith)
            requires
                total >= 0,
                b >= 0,
                x == total * b,
        ;
        vstd::arithmetic::div_mod::lemma_fundamental_div_mod(x, supply);
        vstd::arithmetic::div_mod::lemma_mod_pos_bound(x, supply);
        vstd::arithmetic::mul::lemma_mul_is_commutative(supply, x / supply);
        let q = x / supply;
        let paid_last: int = if s.last().claimed { q } else { 0 };
        assert(x - paid_last * supply <= supply - 1) by {
            assert(s.last() == s[s.len() - 1]);
        }
        let t0 = snapshot_total(r);
        let p0 = paid_out(r, total, supply);
        let n0 = r.len() as int;
        assert(total * (t0 + b) - (p0 + paid_last) * supply <= (n0 + 1) * (supply - 1))
            by (nonlinear_arith)
            requires
                total * t0 - p0 * supply <= n0 * (supply - 1),
                x - paid_last * supply <= supply - 1,
                x == total * b,
        ;
    }
}

} // verus!
