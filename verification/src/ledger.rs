use vstd::prelude::*;
use crate::address::Address;
use crate::error::DividendError;
use crate::model::{
    DistributionView, EntryView, LedgerView, RecordView, balances_nonnegative, holders_distinct,
    holder_position, lemma_position_found, lemma_nothing_paid, lemma_claimed_within_snapshot, mark_claimed, paid_out, share, snapshot_total,
};
use crate::laws::{law_claim_preserves_wf, lemma_record_claim};
use crate::snapshot::{
    SnapshotEntry, build_snapshot, eligible_check, eligible_entries, entries_view, find_holder,
    validate_eligible,
};

verus! {

/// The version of the dividend ledger.
pub const VERSION: u32 = 1;

/// The public record of one distribution: what was escrowed for which asset,
/// in which payment token, and how much of it has been paid out.
#[derive(Debug)]
pub struct Distribution {
    pub id: u64,
    pub asset_token: Address,
    pub payment_token: Address,
    pub total_amount: i128,
    pub distributed: i128,
    pub completed: bool,
    pub snapshot_supply: i128,
}

impl View for Distribution {
    type V = DistributionView;

    open spec fn view(&self) -> DistributionView {
        DistributionView {
            id: self.id,
            asset_token: self.asset_token@,
            payment_token: self.payment_token@,
            total_amount: self.total_amount,
            distributed: self.distributed,
            completed: self.completed,
            snapshot_supply: self.snapshot_supply,
        }
    }
}

impl Distribution {
    /// A fresh copy of this record.
    pub fn duplicate(&self) -> (r: Distribution)
        ensures
            r@ == self@,
    {
        Distribution {
            id: self.id,
            asset_token: self.asset_token.duplicate(),
            payment_token: self.payment_token.duplicate(),
            total_amount: self.total_amount,
            distributed: self.distributed,
            completed: self.completed,
            snapshot_supply: self.snapshot_supply,
        }
    }
}

/// The views of a sequence of distributions.
pub open spec fn distributions_view(v: Seq<Distribution>) -> Seq<DistributionView> {
    Seq::new(v.len(), |i: int| v[i]@)
}

/// A distribution together with its frozen snapshot.
struct Record {
    info: Distribution,
    entries: Vec<SnapshotEntry>,
}

impl View for Record {
    type V = RecordView;

    closed spec fn view(&self) -> RecordView {
        RecordView { info: self.info@, entries: entries_view(self.entries@) }
    }
}

spec fn records_view(v: Seq<Record>) -> Seq<RecordView> {
    Seq::new(v.len(), |i: int| v[i]@)
}

/// What every distribution of the ledger keeps: a positive pool and a positive
/// snapshot supply that is the sum of non-negative balances of distinct holders;
/// what has been paid out is exactly the sum of the shares of the holders that
/// claimed, and the distribution is completed exactly when all of the pool is paid out.
pub open spec fn record_wf(r: RecordView) -> bool {
    &&& r.info.total_amount > 0
    &&& r.info.snapshot_supply > 0
    &&& balances_nonnegative(r.entries)
    &&& holders_distinct(r.entries)
    &&& snapshot_total(r.entries) == r.info.snapshot_supply
    &&& r.info.distributed == paid_out(
        r.entries,
        r.info.total_amount as int,
        r.info.snapshot_supply as int,
    )
    &&& r.info.completed == (r.info.distributed == r.info.total_amount)
}

/// The ledger's invariant: distributions are numbered 1, 2, 3, ... in order of
/// creation, and each keeps `record_wf`.
pub open spec fn ledger_wf(v: LedgerView) -> bool {
    forall|k: int|
        0 <= k < v.records.len() ==> #[trigger] v.records[k].info.id == k + 1 && record_wf(
            v.records[k],
        )
}

/// Whether a distribution numbered `id` exists.
pub open spec fn has_distribution(v: LedgerView, id: u64) -> bool {
    1 <= id <= v.records.len()
}

/// The distribution numbered `id`.
pub open spec fn record_of(v: LedgerView, id: u64) -> RecordView {
    v.records[id - 1]
}

/// What `get_admin` gives.
pub open spec fn spec_get_admin(v: LedgerView) -> Result<Seq<u8>, DividendError> {
    match v.admin {
        Some(a) => Ok(a),
        None => Err(DividendError::NotInitialized),
    }
}

/// What `initialize` does: it sets the admin once.
pub open spec fn spec_initialize(v: LedgerView, admin: Seq<u8>) -> Result<LedgerView, DividendError> {
    if v.admin is Some {
        Err(DividendError::AlreadyInitialized)
    } else {
        Ok(LedgerView { admin: Some(admin), records: v.records })
    }
}

/// The record that a successful creation appends.
pub open spec fn new_record(
    id: u64,
    asset: Seq<u8>,
    payment: Seq<u8>,
    amount: i128,
    supply: i128,
    entries: Seq<EntryView>,
) -> RecordView {
    RecordView {
        info: DistributionView {
            id: id,
            asset_token: asset,
            payment_token: payment,
            total_amount: amount,
            distributed: 0,
            completed: false,
            snapshot_supply: supply,
        },
        entries: entries,
    }
}

/// What `create_distribution` does: only the admin may create; the pool must be
/// positive and the eligibility list must pass `eligible_check`. The new
/// distribution gets the next number and a frozen snapshot of the list.
pub open spec fn spec_create(
    v: LedgerView,
    caller: Seq<u8>,
    asset: Seq<u8>,
    payment: Seq<u8>,
    amount: i128,
    entries: Seq<EntryView>,
) -> Result<(LedgerView, u64), DividendError> {
    match v.admin {
        None => Err(DividendError::NotInitialized),
        Some(admin) => if admin != caller {
            Err(DividendError::Unauthorized)
        } else if amount <= 0 {
            Err(DividendError::InvalidAmount)
        } else {
            match eligible_check(entries) {
                Err(e) => Err(e),
                Ok(supply) => if v.records.len() >= u64::MAX {
                    Err(DividendError::ArithmeticOverflow)
                } else {
                    let id = (v.records.len() + 1) as u64;
                    Ok(
                        (
                            LedgerView {
                                admin: v.admin,
                                records: v.records.push(
                                    new_record(id, asset, payment, amount, supply, entries),
                                ),
                            },
                            id,
                        ),
                    )
                },
            }
        },
    }
}

/// What `get_distribution` gives.
pub open spec fn spec_distribution(v: LedgerView, id: u64) -> Result<
    DistributionView,
    DividendError,
> {
    if has_distribution(v, id) {
        Ok(record_of(v, id).info)
    } else {
        Err(DividendError::DistributionNotFound)
    }
}

/// What a holder may still claim from one distribution: nothing once claimed or
/// when not in the snapshot, else its share of the pool, unless the product of
/// pool and balance does not fit in `i128`.
pub open spec fn record_claimable(r: RecordView, h: Seq<u8>) -> Result<i128, DividendError> {
    let i = holder_position(r.entries, h);
    if i < 0 || r.entries[i].claimed {
        Ok(0)
    } else if r.info.total_amount * r.entries[i].balance > i128::MAX || r.info.total_amount
        * r.entries[i].balance < i128::MIN {
        Err(DividendError::ArithmeticOverflow)
    } else {
        Ok(
            share(
                r.info.total_amount as int,
                r.entries[i].balance as int,
                r.info.snapshot_supply as int,
            ) as i128,
        )
    }
}

/// What `claimable` gives.
pub open spec fn spec_claimable(v: LedgerView, id: u64, h: Seq<u8>) -> Result<i128, DividendError> {
    if has_distribution(v, id) {
        record_claimable(record_of(v, id), h)
    } else {
        Err(DividendError::DistributionNotFound)
    }
}

/// What `has_claimed` gives.
pub open spec fn spec_has_claimed(v: LedgerView, id: u64, h: Seq<u8>) -> bool {
    let r = record_of(v, id);
    let i = holder_position(r.entries, h);
    has_distribution(v, id) && i >= 0 && r.entries[i].claimed
}

/// One distribution after `amount` was paid to the holder at position `i`.
pub open spec fn record_paid(r: RecordView, i: int, amount: i128) -> RecordView {
    let d = r.info.distributed + amount;
    RecordView {
        info: DistributionView {
            id: r.info.id,
            asset_token: r.info.asset_token,
            payment_token: r.info.payment_token,
            total_amount: r.info.total_amount,
            distributed: d as i128,
            completed: d == r.info.total_amount,
            snapshot_supply: r.info.snapshot_supply,
        },
        entries: mark_claimed(r.entries, i),
    }
}

/// What a claim on one distribution does: a holder that already claimed is
/// refused; otherwise it is paid what `record_claimable` gives, which must not be 0.
pub open spec fn record_claim(r: RecordView, h: Seq<u8>) -> Result<(RecordView, i128), DividendError> {
    let i = holder_position(r.entries, h);
    if i >= 0 && r.entries[i].claimed {
        Err(DividendError::AlreadyClaimed)
    } else {
        match record_claimable(r, h) {
            Err(e) => Err(e),
            Ok(a) => if a == 0 {
                Err(DividendError::NothingToClaim)
            } else {
                Ok((record_paid(r, i, a), a))
            },
        }
    }
}

/// What `claim` does.
pub open spec fn spec_claim(v: LedgerView, id: u64, h: Seq<u8>) -> Result<
    (LedgerView, i128),
    DividendError,
> {
    if !has_distribution(v, id) {
        Err(DividendError::DistributionNotFound)
    } else {
        match record_claim(record_of(v, id), h) {
            Err(e) => Err(e),
            Ok((r2, a)) => Ok(
                (LedgerView { admin: v.admin, records: v.records.update(id - 1, r2) }, a),
            ),
        }
    }
}

/// The distributions of `asset`, in the order of their numbers.
pub open spec fn asset_listing(rs: Seq<RecordView>, asset: Seq<u8>) -> Seq<DistributionView>
    decreases rs.len(),
{
    if rs.len() == 0 {
        Seq::empty()
    } else {
        let rest = asset_listing(rs.drop_last(), asset);
        if rs.last().info.asset_token == asset {
            rest.push(rs.last().info)
        } else {
            rest
        }
    }
}

/// What a holder may still claim from one distribution, computed.
fn compute_claimable(rec: &Record, holder: &Address) -> (r: Result<i128, DividendError>)
    requires
        record_wf(rec@),
    ensures
        r == record_claimable(rec@, holder@),
{
    let ghost rv = rec@;
    match find_holder(&rec.entries, holder) {
        None => Ok(0),
        Some(i) => {
            proof {
                lemma_position_found(rv.entries, holder@);
            }
            let entry = &rec.entries[i];
            assert(rv.entries[i as int] == entry@);
            if entry.claimed {
                Ok(0)
            } else {
                match rec.info.total_amount.checked_mul(entry.balance) {
                    None => Err(DividendError::ArithmeticOverflow),
                    Some(p) => {
                        assert(entry.balance >= 0);
                        assert(p >= 0) by (nonlinear_arith)
                            requires
                                p == rec.info.total_amount * entry.balance,
                                rec.info.total_amount > 0,
                                entry.balance >= 0,
                        ;
                        match p.checked_div(rec.info.snapshot_supply) {
                            Some(q) => Ok(q),
                            None => Err(DividendError::ArithmeticOverflow),
                        }
                    },
                }
            }
        },
    }
}

/// The state of a dividend contract: its admin and its distributions, each
/// with the snapshot of holders it was created with.
pub struct DividendLedger {
    admin: Option<Address>,
    records: Vec<Record>,
}

impl View for DividendLedger {
    type V = LedgerView;

    closed spec fn view(&self) -> LedgerView {
        LedgerView {
            admin: match self.admin {
                Some(a) => Some(a@),
                None => None,
            },
            records: records_view(self.records@),
        }
    }
}

impl DividendLedger {
    #[verifier::type_invariant]
    closed spec fn inv(&self) -> bool {
        ledger_wf(self@)
    }

    /// A ledger with no admin and no distribution.
    pub fn new() -> (r: DividendLedger)
        ensures
            r@ == (LedgerView { admin: None, records: Seq::empty() }),
            ledger_wf(r@),
    {
        let r = DividendLedger { admin: None, records: Vec::new() };
        assert(records_view(r.records@) =~= Seq::<RecordView>::empty());
        r
    }

    /// The version of the ledger.
    pub fn version(&self) -> (r: u32)
        ensures
            r == VERSION,
    {
        VERSION
    }

    /// Sets the admin; refused when one is already set.
    pub fn initialize(&mut self, admin: Address) -> (r: Result<(), DividendError>)
        ensures
            match spec_initialize(old(self)@, admin@) {
                Ok(v) => r is Ok && final(self)@ == v,
                Err(e) => r == Err::<(), DividendError>(e) && final(self)@ == old(self)@,
            },
            ledger_wf(final(self)@),
    {
        proof {
            use_type_invariant(&*self);
        }
        if self.admin.is_some() {
            return Err(DividendError::AlreadyInitialized);
        }
        self.admin = Some(admin);
        proof {
            use_type_invariant(&*self);
        }
        Ok(())
    }

    /// The admin; refused when none is set.
    pub fn get_admin(&self) -> (r: Result<Address, DividendError>)
        ensures
            match spec_get_admin(self@) {
                Ok(a) => r matches Ok(x) && x@ == a,
                Err(e) => r == Err::<Address, DividendError>(e),
            },
            ledger_wf(self@),
    {
        proof {
            use_type_invariant(self);
        }
        match &self.admin {
            Some(a) => Ok(a.duplicate()),
            None => Err(DividendError::NotInitialized),
        }
    }

    /// Creates a distribution of `total_amount` of `payment_token` to the holders
    /// of `asset_token` listed in `eligible`, whose balances are frozen as its
    /// snapshot. Only the admin may create one. Gives the new distribution's number.
    pub fn create_distribution(
        &mut self,
        caller: &Address,
        asset_token: &Address,
        payment_token: &Address,
        total_amount: i128,
        eligible: &Vec<(Address, i128)>,
    ) -> (r: Result<u64, DividendError>)
        ensures
            match spec_create(
                old(self)@,
                caller@,
                asset_token@,
                payment_token@,
                total_amount,
                eligible_entries(eligible@),
            ) {
                Ok((v, id)) => r == Ok::<u64, DividendError>(id) && final(self)@ == v,
                Err(e) => r == Err::<u64, DividendError>(e) && final(self)@ == old(self)@,
            },
            ledger_wf(final(self)@),
    {
        proof {
            use_type_invariant(&*self);
        }
        let is_admin = match &self.admin {
            None => {
                return Err(DividendError::NotInitialized);
            },
            Some(a) => a.same_as(caller),
        };
        if !is_admin {
            return Err(DividendError::Unauthorized);
        }
        if total_amount <= 0 {
            return Err(DividendError::InvalidAmount);
        }
        let supply = match validate_eligible(eligible) {
            Ok(s) => s,
            Err(e) => {
                return Err(e);
            },
        };
        let n = self.records.len();
        if n as u64 >= u64::MAX {
            return Err(DividendError::ArithmeticOverflow);
        }
        let id = n as u64 + 1;
        let entries = build_snapshot(eligible);
        let rec = Record {
            info: Distribution {
                id,
                asset_token: asset_token.duplicate(),
                payment_token: payment_token.duplicate(),
                total_amount,
                distributed: 0,
                completed: false,
                snapshot_supply: supply,
            },
            entries,
        };
        let ghost es = eligible_entries(eligible@);
        proof {
            assert(rec@.entries == es);
            assert(eligible_check(es) == Ok::<i128, DividendError>(supply));
            assert(balances_nonnegative(es));
            assert(holders_distinct(es));
            lemma_claimed_within_snapshot(es);
            assert(snapshot_total(es) == supply);
            assert forall|j: int| 0 <= j < es.len() implies !(#[trigger] es[j].claimed) by {}
            lemma_nothing_paid(es, total_amount as int, supply as int);
            assert(rec@ == new_record(id, asset_token@, payment_token@, total_amount, supply, es));
            assert(record_wf(rec@));
        }
        let ghost old_view = self@;
        let mut recs: Vec<Record> = Vec::new();
        std::mem::swap(&mut recs, &mut self.records);
        let ghost before = recs@;
        recs.push(rec);
        proof {
            assert(records_view(recs@) =~= records_view(before).push(rec@));
        }
        self.records = recs;
        proof {
            use_type_invariant(&*self);
        }
        Ok(id)
    }

    /// The distribution numbered `id`.
    pub fn get_distribution(&self, id: u64) -> (r: Result<Distribution, DividendError>)
        ensures
            match spec_distribution(self@, id) {
                Ok(d) => r matches Ok(x) && x@ == d,
                Err(e) => r == Err::<Distribution, DividendError>(e),
            },
            ledger_wf(self@),
    {
        proof {
            use_type_invariant(self);
        }
        let n = self.records.len();
        if id == 0 || id > n as u64 {
            return Err(DividendError::DistributionNotFound);
        }
        let k = (id - 1) as usize;
        assert(self@.records[k as int] == self.records@[k as int]@);
        Ok(self.records[k].info.duplicate())
    }

    /// How many distributions have been created.
    pub fn distribution_count(&self) -> (r: u64)
        ensures
            r == self@.records.len(),
    {
        self.records.len() as u64
    }

    /// The frozen snapshot of distribution `id`, with who has claimed.
    pub fn snapshot(&self, id: u64) -> (r: Result<Vec<SnapshotEntry>, DividendError>)
        ensures
            match r {
                Ok(es) => has_distribution(self@, id) && entries_view(es@) == record_of(
                    self@,
                    id,
                ).entries,
                Err(e) => !has_distribution(self@, id) && e == DividendError::DistributionNotFound,
            },
    {
        let n = self.records.len();
        if id == 0 || id > n as u64 {
            return Err(DividendError::DistributionNotFound);
        }
        let k = (id - 1) as usize;
        assert(self@.records[k as int] == self.records@[k as int]@);
        let src = &self.records[k].entries;
        let m = src.len();
        let mut out: Vec<SnapshotEntry> = Vec::new();
        let mut i: usize = 0;
        while i < m
            invariant
                m == src@.len(),
                i <= m,
                out@.len() == i,
                forall|j: int| 0 <= j < i ==> #[trigger] out@[j]@ == src@[j]@,
            decreases m - i,
        {
            out.push(src[i].duplicate());
            i += 1;
        }
        assert(entries_view(out@) =~= entries_view(src@));
        Ok(out)
    }

    /// What `holder` may still claim from distribution `id`.
    pub fn claimable(&self, id: u64, holder: &Address) -> (r: Result<i128, DividendError>)
        ensures
            r == spec_claimable(self@, id, holder@),
            ledger_wf(self@),
    {
        proof {
            use_type_invariant(self);
        }
        let n = self.records.len();
        if id == 0 || id > n as u64 {
            return Err(DividendError::DistributionNotFound);
        }
        let k = (id - 1) as usize;
        assert(self@.records[k as int] == self.records@[k as int]@);
        assert(self@.records[k as int].info.id == k + 1);
        compute_claimable(&self.records[k], holder)
    }

    /// Whether `holder` has claimed from distribution `id`.
    pub fn has_claimed(&self, id: u64, holder: &Address) -> (r: bool)
        ensures
            r == spec_has_claimed(self@, id, holder@),
            ledger_wf(self@),
    {
        proof {
            use_type_invariant(self);
        }
        let n = self.records.len();
        if id == 0 || id > n as u64 {
            return false;
        }
        let k = (id - 1) as usize;
        assert(self@.records[k as int] == self.records@[k as int]@);
        let rec = &self.records[k];
        match find_holder(&rec.entries, holder) {
            None => false,
            Some(i) => {
                assert(rec@.entries[i as int] == rec.entries@[i as int]@);
                rec.entries[i].claimed
            },
        }
    }

    /// Pays `holder` its share of distribution `id`. Gives the amount paid.
    pub fn claim(&mut self, id: u64, holder: &Address) -> (r: Result<i128, DividendError>)
        ensures
            match spec_claim(old(self)@, id, holder@) {
                Ok((v, a)) => r == Ok::<i128, DividendError>(a) && final(self)@ == v,
                Err(e) => r == Err::<i128, DividendError>(e) && final(self)@ == old(self)@,
            },
            ledger_wf(final(self)@),
    {
        proof {
            use_type_invariant(&*self);
        }
        let n = self.records.len();
        if id == 0 || id > n as u64 {
            return Err(DividendError::DistributionNotFound);
        }
        let k = (id - 1) as usize;
        let ghost rv = self@.records[k as int];
        assert(rv == self.records@[k as int]@);
        assert(record_wf(rv));
        let pos = find_holder(&self.records[k].entries, holder);
        proof {
            lemma_position_found(rv.entries, holder@);
        }
        if let Some(i) = pos {
            assert(rv.entries[i as int] == self.records@[k as int].entries@[i as int]@);
            if self.records[k].entries[i].claimed {
                return Err(DividendError::AlreadyClaimed);
            }
        }
        let amount = match compute_claimable(&self.records[k], holder) {
            Ok(a) => a,
            Err(e) => {
                return Err(e);
            },
        };
        if amount == 0 {
            return Err(DividendError::NothingToClaim);
        }
        let i = match pos {
            Some(i) => i,
            None => {
                return Err(DividendError::NothingToClaim);
            },
        };
        let total = self.records[k].info.total_amount;
        let ghost old_view = self@;
        let ghost r2 = record_paid(rv, i as int, amount);
        proof {
            assert(record_claim(rv, holder@) == Ok::<(RecordView, i128), DividendError>((r2, amount)));
            lemma_record_claim(rv, holder@);
        }
        let new_distributed = self.records[k].info.distributed + amount;
        let mut recs: Vec<Record> = Vec::new();
        std::mem::swap(&mut recs, &mut self.records);
        let ghost old_recs = recs@;
        recs[k].entries[i].claimed = true;
        recs[k].info.distributed = new_distributed;
        recs[k].info.completed = new_distributed == total;
        proof {
            assert(entries_view(recs@[k as int].entries@) =~= mark_claimed(rv.entries, i as int));
            assert(recs@[k as int]@ == r2);
            assert(records_view(recs@) =~= records_view(old_recs).update(k as int, r2));
            law_claim_preserves_wf(old_view, id, holder@);
        }
        self.records = recs;
        proof {
            use_type_invariant(&*self);
        }
        Ok(amount)
    }

    /// The distributions of `asset_token`, in the order of their numbers.
    pub fn get_distributions_for_asset(&self, asset_token: &Address) -> (r: Vec<Distribution>)
        ensures
            distributions_view(r@) == asset_listing(self@.records, asset_token@),
            ledger_wf(self@),
    {
        proof {
            use_type_invariant(self);
        }
        let ghost rs = self@.records;
        let n = self.records.len();
        let mut out: Vec<Distribution> = Vec::new();
        let mut i: usize = 0;
        assert(rs.take(0) =~= Seq::<RecordView>::empty());
        assert(distributions_view(out@) =~= Seq::<DistributionView>::empty());
        while i < n
            invariant
                n == self.records@.len(),
                rs == self@.records,
                i <= n,
                distributions_view(out@) == asset_listing(rs.take(i as int), asset_token@),
            decreases n - i,
        {
            let ghost prev = out@;
            assert(rs.take(i + 1).drop_last() =~= rs.take(i as int));
            assert(rs[i as int] == self.records@[i as int]@);
            let d = &self.records[i].info;
            if d.asset_token.same_as(asset_token) {
                out.push(d.duplicate());
                assert(distributions_view(out@) =~= distributions_view(prev).push(d@));
            }
            i += 1;
        }
        assert(rs.take(n as int) =~= rs);
        out
    }
}

} // verus!
