use dividend::snapshot::SnapshotEntry;
use dividend::{snapshot_balance, validate_eligible, Address, DividendError, DividendLedger};
use proptest::collection::vec as vec_strategy;
use proptest::prelude::any;
use proptest::test_runner::{TestCaseError, TestRunner};

fn addr(text: &str) -> Address {
    Address::from_text(text)
}

fn ledger_with(total: i128, list: &Vec<(Address, i128)>) -> (DividendLedger, u64) {
    let admin = addr("GADMIN");
    let mut ledger = DividendLedger::new();
    ledger.initialize(admin.duplicate()).unwrap();
    let id = ledger
        .create_distribution(&admin, &addr("CASSET"), &addr("CPAY"), total, list)
        .unwrap();
    (ledger, id)
}

#[test]
fn prop_distribution_claims_never_exceed_proportional_share() {
    let mut runner = TestRunner::default();
    let result = runner.run(&vec_strategy(any::<u8>(), 1..16), |steps| {
        let snapshot = vec![
            (addr("GADMIN"), 500i128),
            (addr("GHOLDER1"), 300i128),
            (addr("GHOLDER2"), 200i128),
        ];
        let total_amount = 1_000i128;
        let (mut ledger, id) = ledger_with(total_amount, &snapshot);
        let mut received = vec![0i128; snapshot.len()];
        for step in steps {
            let idx = (step as usize) % snapshot.len();
            let (holder, balance) = (&snapshot[idx].0, snapshot[idx].1);
            if received[idx] > 0 {
                continue;
            }
            let expected_share = total_amount.checked_mul(balance).unwrap() / 1_000;
            let claimable = ledger.claimable(id, holder).unwrap();
            if claimable > 0 {
                ledger.claim(id, holder).unwrap();
                received[idx] = claimable;
                if received[idx] > expected_share {
                    return Err(TestCaseError::fail("claim above proportional share"));
                }
            }
        }
        Ok(())
    });
    assert!(result.is_ok(), "{:?}", result.err());
}

#[test]
fn prop_total_claims_never_exceed_pool() {
    let mut runner = TestRunner::default();
    let strategy = (
        1i128..1_000_000_000i128,
        0i128..1_000_000i128,
        0i128..1_000_000i128,
        0i128..1_000_000i128,
    );
    let result = runner.run(&strategy, |(total_amount, h1_balance, h2_balance, admin_balance)| {
        let supply = h1_balance + h2_balance + admin_balance;
        if supply == 0 {
            return Ok(());
        }
        let eligible = vec![
            (addr("GADMIN"), admin_balance),
            (addr("GHOLDER1"), h1_balance),
            (addr("GHOLDER2"), h2_balance),
        ];
        let (mut ledger, id) = ledger_with(total_amount, &eligible);
        let mut total_claimed = 0i128;
        for (holder, _) in eligible.iter() {
            if let Ok(claimable) = ledger.claimable(id, holder) {
                if claimable > 0 {
                    ledger.claim(id, holder).unwrap();
                    total_claimed = total_claimed.saturating_add(claimable);
                }
            }
        }
        if total_claimed > total_amount {
            return Err(TestCaseError::fail("total claims exceed the pool"));
        }
        let d = ledger.get_distribution(id).unwrap();
        if d.distributed != total_claimed || d.distributed > d.total_amount {
            return Err(TestCaseError::fail("distributed does not match the claims"));
        }
        Ok(())
    });
    assert!(result.is_ok(), "{:?}", result.err());
}

#[test]
fn claimable_rounds_down() {
    // 100 * 1 / 3 = 33.33.. -> 33 for each of three equal holders.
    let list = vec![(addr("GA"), 1i128), (addr("GB"), 1i128), (addr("GC"), 1i128)];
    let (mut ledger, id) = ledger_with(100, &list);
    for (h, _) in list.iter() {
        assert_eq!(ledger.claimable(id, h), Ok(33));
        assert_eq!(ledger.claim(id, h), Ok(33));
    }
    let d = ledger.get_distribution(id).unwrap();
    assert_eq!(d.distributed, 99);
    assert!(!d.completed);
    // Nothing more can be claimed: the dust left in escrow is below one unit per holder.
    assert!(d.total_amount - d.distributed < 3);
}

#[test]
fn snapshot_and_count_reflect_claims() {
    let list = vec![(addr("GA"), 3i128), (addr("GB"), 1i128)];
    let (mut ledger, id) = ledger_with(40, &list);
    assert_eq!(ledger.distribution_count(), 1);
    assert_eq!(ledger.claim(id, &addr("GB")), Ok(10));
    let snap = ledger.snapshot(id).unwrap();
    assert_eq!(snap.len(), 2);
    assert_eq!(snap[0].holder.bytes, b"GA".to_vec());
    assert_eq!(snap[0].balance, 3);
    assert!(!snap[0].claimed);
    assert_eq!(snap[1].balance, 1);
    assert!(snap[1].claimed);
    assert_eq!(ledger.snapshot(2).err(), Some(DividendError::DistributionNotFound));
}

#[test]
fn claim_within_share_exact_value() {
    // 7 * 2 / 3 = 4 (rounded down from 4.67), and 4 * 3 <= 7 * 2.
    let list = vec![(addr("GA"), 2i128), (addr("GB"), 1i128)];
    let (mut ledger, id) = ledger_with(7, &list);
    let a = ledger.claim(id, &addr("GA")).unwrap();
    assert_eq!(a, 4);
    assert!(a * 3 <= 7 * 2);
    assert_eq!(ledger.claim(id, &addr("GB")), Ok(2));
    assert_eq!(ledger.get_distribution(id).unwrap().distributed, 6);
}

#[test]
fn claim_leaves_others_unchanged() {
    let list = vec![(addr("GA"), 2i128), (addr("GB"), 1i128)];
    let (mut ledger, id) = ledger_with(300, &list);
    assert_eq!(ledger.claimable(id, &addr("GB")), Ok(100));
    ledger.claim(id, &addr("GA")).unwrap();
    assert_eq!(ledger.claimable(id, &addr("GB")), Ok(100));
    assert!(!ledger.has_claimed(id, &addr("GB")));
    assert!(ledger.has_claimed(id, &addr("GA")));
}

#[test]
fn refused_calls_leave_state_unchanged() {
    let list = vec![(addr("GA"), 1i128)];
    let (mut ledger, id) = ledger_with(10, &list);
    assert_eq!(ledger.claim(id, &addr("GA")), Ok(10));
    let before = ledger.get_distribution(id).unwrap();
    assert_eq!(ledger.claim(id, &addr("GA")), Err(DividendError::AlreadyClaimed));
    assert_eq!(ledger.claim(id, &addr("GZ")), Err(DividendError::NothingToClaim));
    assert_eq!(ledger.claim(id + 1, &addr("GA")), Err(DividendError::DistributionNotFound));
    let after = ledger.get_distribution(id).unwrap();
    assert_eq!(before.distributed, after.distributed);
    assert_eq!(before.completed, after.completed);
    assert!(after.completed);
}

#[test]
fn ids_are_sequential_and_new_distribution_is_empty() {
    let list = vec![(addr("GA"), 1i128)];
    let (mut ledger, id) = ledger_with(10, &list);
    assert_eq!(id, 1);
    let admin = addr("GADMIN");
    let id2 = ledger
        .create_distribution(&admin, &addr("CASSET"), &addr("CPAY"), 20, &list)
        .unwrap();
    assert_eq!(id2, 2);
    let d = ledger.get_distribution(id2).unwrap();
    assert_eq!(d.id, 2);
    assert_eq!(d.total_amount, 20);
    assert_eq!(d.distributed, 0);
    assert_eq!(d.snapshot_supply, 1);
    assert!(!d.completed);
    assert_eq!(d.payment_token.bytes, b"CPAY".to_vec());
    assert_eq!(ledger.get_distribution(1).unwrap().total_amount, 10);
}

#[test]
fn initialize_twice_refused() {
    let mut ledger = DividendLedger::new();
    assert_eq!(ledger.initialize(addr("GA")), Ok(()));
    let err = ledger.initialize(addr("GB")).err().unwrap();
    assert_eq!(err, DividendError::AlreadyInitialized);
    assert_eq!(err.code(), 1);
    assert_eq!(ledger.get_admin().unwrap().bytes, b"GA".to_vec());
}

#[test]
fn create_before_initialize_refused() {
    let mut ledger = DividendLedger::new();
    let list = vec![(addr("GA"), 1i128)];
    let r = ledger.create_distribution(&addr("GA"), &addr("CASSET"), &addr("CPAY"), 5, &list);
    assert_eq!(r, Err(DividendError::NotInitialized));
}

#[test]
fn validate_eligible_cases() {
    assert_eq!(validate_eligible(&vec![]), Err(DividendError::ZeroSupply));
    assert_eq!(validate_eligible(&vec![(addr("GA"), 0)]), Err(DividendError::ZeroSupply));
    assert_eq!(validate_eligible(&vec![(addr("GA"), 2), (addr("GB"), 3)]), Ok(5));
    // A negative balance is refused before a duplicate.
    assert_eq!(
        validate_eligible(&vec![(addr("GA"), 2), (addr("GA"), -3)]),
        Err(DividendError::InvalidAmount)
    );
    assert_eq!(
        validate_eligible(&vec![(addr("GA"), i128::MAX), (addr("GB"), 1)]),
        Err(DividendError::ArithmeticOverflow)
    );
    assert_eq!(
        validate_eligible(&vec![(addr("GA"), i128::MAX), (addr("GB"), 0)]),
        Ok(i128::MAX)
    );
}

#[test]
fn snapshot_balance_first_entry_or_zero() {
    let entries = vec![
        SnapshotEntry { holder: addr("GA"), balance: 7, claimed: false },
        SnapshotEntry { holder: addr("GB"), balance: 9, claimed: true },
    ];
    assert_eq!(snapshot_balance(&entries, &addr("GB")), 9);
    assert_eq!(snapshot_balance(&entries, &addr("GA")), 7);
    assert_eq!(snapshot_balance(&entries, &addr("GC")), 0);
}

#[test]
fn address_equality_and_copy() {
    let a = addr("GABC");
    let b = Address::new(b"GABC".to_vec());
    assert!(a.same_as(&b));
    assert!(!a.same_as(&addr("GABD")));
    assert!(!a.same_as(&addr("GAB")));
    assert_eq!(a.duplicate().bytes, b"GABC".to_vec());
}

#[test]
fn claimable_for_unknown_distribution() {
    let ledger = DividendLedger::new();
    assert_eq!(ledger.claimable(1, &addr("GA")), Err(DividendError::DistributionNotFound));
    assert!(!ledger.has_claimed(1, &addr("GA")));
    assert_eq!(ledger.get_distributions_for_asset(&addr("CASSET")).len(), 0);
}

#[test]
fn overflow_in_claim_leaves_state() {
    let big: i128 = 20_000_000_000_000_000_000;
    let list = vec![(addr("GA"), big)];
    let (mut ledger, id) = ledger_with(big, &list);
    assert_eq!(ledger.claim(id, &addr("GA")), Err(DividendError::ArithmeticOverflow));
    assert!(!ledger.has_claimed(id, &addr("GA")));
    assert_eq!(ledger.get_distribution(id).unwrap().distributed, 0);
}
