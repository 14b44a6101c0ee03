use proptest::strategy::Strategy;
use proptest::test_runner::{Config, TestCaseError, TestRunner};

use tip_splitter::payout::{compute_payments, tip_fits};
use tip_splitter::splits::{check_new_jar, check_tip_request, has_signed, validate_jar_id, validate_splits};
use tip_splitter::types::{bytes_eq, BPS_DENOM, MAX_RECIPIENTS};
use tip_splitter::{Address, Error, Event, Failure, Payment, Split, TipSplitter};

fn addr(name: &str) -> Address {
    Address { strkey: name.as_bytes().to_vec() }
}

fn split(to: &Address, bps: u32) -> Split {
    Split { to: to.clone(), bps }
}

/// A random valid bps distribution over `n` recipients: every share is at
/// least 1 and the shares sum to exactly `BPS_DENOM`.
fn valid_bps_distribution(n: u32) -> impl Strategy<Value = Vec<u32>> {
    proptest::collection::vec(1u64..=1_000_000u64, n as usize).prop_map(move |weights| {
        let remaining = (BPS_DENOM - n) as u64;
        let sum_w: u64 = weights.iter().sum();
        let mut bps = Vec::with_capacity(n as usize);
        let mut used = 0u64;
        for w in weights.iter().take(n as usize - 1) {
            let extra = if sum_w == 0 { 0 } else { w * remaining / sum_w };
            used += extra;
            bps.push(1 + extra as u32);
        }
        bps.push(1 + (remaining - used) as u32);
        bps
    })
}

fn splits_strategy() -> impl Strategy<Value = Vec<u32>> {
    (1u32..=MAX_RECIPIENTS).prop_flat_map(valid_bps_distribution)
}

/// However a tip is split, the payouts sum back to exactly the tipped amount.
#[test]
fn tip_distributes_full_amount_across_random_splits() {
    let mut runner = TestRunner::new(Config::with_cases(64));
    let strategy = (splits_strategy(), 1i128..=1_000_000_000i128);
    runner
        .run(&strategy, |(bps, amount)| {
            let owner = addr("GOWNER");
            let tipper = addr("GTIPPER");
            let mut contract = TipSplitter::new(addr("GADMIN"), addr("CTOKEN"));
            let recipients: Vec<Address> = (0..bps.len()).map(|i| addr(&format!("GR{}", i))).collect();
            let splits: Vec<Split> = recipients.iter().zip(bps.iter()).map(|(a, b)| split(a, *b)).collect();
            let jar_id = b"@prop".to_vec();
            contract
                .create_jar(&vec![owner.clone()], owner.clone(), jar_id.clone(), splits)
                .map_err(|e| TestCaseError::fail(format!("create_jar failed: {:?}", e)))?;
            let receipt = contract
                .tip(&vec![tipper.clone()], tipper.clone(), jar_id, amount, b"prop".to_vec())
                .map_err(|e| TestCaseError::fail(format!("tip failed: {:?}", e)))?;
            let total: i128 = receipt.payments.iter().map(|p| p.amount).sum();
            if total != amount {
                return Err(TestCaseError::fail(format!("paid {} of {}", total, amount)));
            }
            if receipt.payments.iter().any(|p| p.amount <= 0) {
                return Err(TestCaseError::fail("a transfer of nothing"));
            }
            Ok(())
        })
        .unwrap();
}

#[test]
fn error_codes_are_stable() {
    let all = [
        (Error::NotInitialized, 1),
        (Error::JarExists, 2),
        (Error::JarNotFound, 3),
        (Error::InvalidSplits, 4),
        (Error::InvalidAmount, 5),
        (Error::TooManyRecipients, 6),
        (Error::DuplicateRecipient, 7),
        (Error::MessageTooLong, 8),
        (Error::InvalidJarId, 9),
    ];
    for (e, code) in all {
        assert_eq!(e.code(), code);
    }
}

#[test]
fn validate_splits_checks_share_before_duplicate() {
    let a = addr("GA");
    // Entry 0 has a zero share: that is reported, though `a` also recurs.
    assert_eq!(validate_splits(&vec![split(&a, 0), split(&a, 10000)]), Err(Error::InvalidSplits));
    // Entry 0 is fine on its own but recurs later; entry 1's zero share comes after.
    assert_eq!(validate_splits(&vec![split(&a, 10000), split(&a, 0)]), Err(Error::DuplicateRecipient));
}

#[test]
fn validate_splits_accepts_exactly_valid_lists() {
    let a = addr("GA");
    let b = addr("GB");
    assert_eq!(validate_splits(&vec![split(&a, 10000)]), Ok(()));
    assert_eq!(validate_splits(&vec![split(&a, 1), split(&b, 9999)]), Ok(()));
    assert_eq!(validate_splits(&vec![]), Err(Error::InvalidSplits));
    assert_eq!(validate_splits(&vec![split(&a, 5000), split(&b, 5001)]), Err(Error::InvalidSplits));
}

#[test]
fn validate_splits_counts_before_anything_else() {
    let splits: Vec<Split> = (0..21).map(|i| split(&addr(&format!("G{}", i)), 0)).collect();
    assert_eq!(validate_splits(&splits), Err(Error::TooManyRecipients));
}

#[test]
fn jar_id_checked_before_slug_and_splits() {
    let a = addr("GA");
    assert_eq!(check_new_jar(true, &vec![], &vec![]), Err(Error::InvalidJarId));
    assert_eq!(check_new_jar(true, &b"@x".to_vec(), &vec![]), Err(Error::JarExists));
    assert_eq!(check_new_jar(false, &b"@x".to_vec(), &vec![]), Err(Error::InvalidSplits));
    assert_eq!(check_new_jar(false, &b"@x".to_vec(), &vec![split(&a, 10000)]), Ok(()));
    assert_eq!(validate_jar_id(&vec![b'z'; 1]), Ok(()));
}

#[test]
fn tip_request_checks_amount_then_message() {
    assert_eq!(check_tip_request(-5, &vec![b'a'; 300]), Err(Error::InvalidAmount));
    assert_eq!(check_tip_request(5, &vec![b'a'; 300]), Err(Error::MessageTooLong));
    assert_eq!(check_tip_request(5, &vec![b'a'; 280]), Ok(()));
}

/// `bps: 100` on a tip of `50` yields a share of 0, which is not transferred.
#[test]
fn zero_shares_are_not_transferred() {
    let a = addr("GA");
    let b = addr("GB");
    let payments = compute_payments(&vec![split(&a, 100), split(&b, 9900)], 50);
    assert_eq!(payments, vec![Payment { to: b.clone(), amount: 50 }]);
}

/// The last recipient picks up what rounding leaves over: fewer units than
/// there are recipients.
#[test]
fn last_recipient_absorbs_rounding_dust() {
    let a = addr("GA");
    let b = addr("GB");
    let c = addr("GC");
    let payments = compute_payments(&vec![split(&a, 3333), split(&b, 3333), split(&c, 3334)], 2);
    // 2 * 3334 / 10000 = 0, yet c receives the whole 2.
    assert_eq!(payments, vec![Payment { to: c.clone(), amount: 2 }]);
    let payments = compute_payments(&vec![split(&a, 3333), split(&b, 3333), split(&c, 3334)], 1_000_001);
    assert_eq!(
        payments,
        vec![
            Payment { to: a.clone(), amount: 333_300 },
            Payment { to: b.clone(), amount: 333_300 },
            Payment { to: c.clone(), amount: 333_401 },
        ]
    );
}

#[test]
fn huge_tips_are_detected_as_overflowing() {
    let a = addr("GA");
    let b = addr("GB");
    let splits = vec![split(&a, 5000), split(&b, 5000)];
    assert!(!tip_fits(&splits, i128::MAX));
    assert!(tip_fits(&splits, i128::MAX / 10_000));
    // Only the final share is never multiplied, so a sole recipient always fits.
    assert!(tip_fits(&vec![split(&a, 10000)], i128::MAX));
    assert_eq!(compute_payments(&vec![split(&a, 10000)], i128::MAX), vec![Payment { to: a.clone(), amount: i128::MAX }]);
}

#[test]
fn signatures_and_addresses_match_exactly() {
    let a = addr("GALICE");
    let prefix = addr("GALI");
    assert!(a.same(&addr("GALICE")));
    assert!(!a.same(&prefix));
    assert!(has_signed(&vec![prefix.clone(), a.clone()], &a));
    assert!(!has_signed(&vec![prefix.clone()], &a));
    assert!(bytes_eq(&b"abc".to_vec(), &b"abc".to_vec()));
    assert!(!bytes_eq(&b"abc".to_vec(), &b"abd".to_vec()));
}

#[test]
fn transfer_jar_ownership_emits_event_and_needs_a_jar() {
    let owner = addr("GOWNER");
    let heir = addr("GHEIR");
    let a = addr("GA");
    let mut contract = TipSplitter::new(addr("GADMIN"), addr("CTOKEN"));
    let jar_id = b"@x".to_vec();
    assert_eq!(
        contract.transfer_jar_ownership(&vec![owner.clone()], &jar_id, heir.clone()),
        Err(Failure::Contract(Error::JarNotFound))
    );
    contract.create_jar(&vec![owner.clone()], owner.clone(), jar_id.clone(), vec![split(&a, 10000)]).unwrap();
    assert_eq!(
        contract.transfer_jar_ownership(&vec![owner.clone()], &jar_id, heir.clone()),
        Ok(Event::OwnershipTransferred { jar_id: jar_id.clone(), new_owner: heir.clone() })
    );
    assert_eq!(contract.get_jar(&jar_id).unwrap().owner, heir);
}

#[test]
fn get_token_and_get_jar_report_state() {
    let contract = TipSplitter::new(addr("GADMIN"), addr("CTOKEN"));
    assert_eq!(contract.get_token(), addr("CTOKEN"));
    assert_eq!(contract.get_jar(&b"@none".to_vec()), Err(Error::JarNotFound));
}

/// An unauthorized `update_splits` on a missing jar reports the missing jar:
/// the lookup comes before the owner's signature.
#[test]
fn update_splits_looks_up_before_checking_signature() {
    let mut contract = TipSplitter::new(addr("GADMIN"), addr("CTOKEN"));
    let a = addr("GA");
    assert_eq!(
        contract.update_splits(&vec![], &b"@none".to_vec(), vec![split(&a, 10000)]),
        Err(Failure::Contract(Error::JarNotFound))
    );
}

/// `tip` checks the sender's signature before anything else, including the amount.
#[test]
fn tip_checks_signature_first() {
    let contract = TipSplitter::new(addr("GADMIN"), addr("CTOKEN"));
    let tipper = addr("GTIPPER");
    assert_eq!(
        contract.tip(&vec![], tipper.clone(), b"@none".to_vec(), 0, vec![]),
        Err(Failure::Unauthorized)
    );
    assert_eq!(
        contract.tip(&vec![tipper.clone()], tipper.clone(), b"@none".to_vec(), 10, vec![]),
        Err(Failure::Contract(Error::JarNotFound))
    );
}

#[test]
fn load_restores_a_stored_jar() {
    let owner = addr("GOWNER");
    let a = addr("GA");
    let jar = tip_splitter::Jar { owner: owner.clone(), splits: vec![split(&a, 10000)] };
    let state = TipSplitter::load(addr("GADMIN"), addr("CTOKEN"), &b"@x".to_vec(), Some(jar.clone()));
    assert_eq!(state.get_jar(&b"@x".to_vec()), Ok(jar.clone()));
    assert_eq!(state.get_admin(), addr("GADMIN"));
    assert_eq!(state.get_token(), addr("CTOKEN"));
    assert!(!state.jar_exists(&b"@y".to_vec()));
    let empty = TipSplitter::load(addr("GADMIN"), addr("CTOKEN"), &b"@x".to_vec(), None);
    assert!(!empty.jar_exists(&b"@x".to_vec()));
}

/// A jar written before the zero-share rule stays readable and tippable, and
/// its owner can replace the splits with valid ones.
#[test]
fn legacy_jar_with_zero_share_stays_usable() {
    let owner = addr("GOWNER");
    let tipper = addr("GTIPPER");
    let a = addr("GA");
    let ghost = addr("GGHOST");
    let jar_id = b"@legacy".to_vec();
    let legacy = tip_splitter::Jar { owner: owner.clone(), splits: vec![split(&a, 10000), split(&ghost, 0)] };
    let mut state = TipSplitter::load(addr("GADMIN"), addr("CTOKEN"), &jar_id, Some(legacy.clone()));

    assert!(state.jar_exists(&jar_id));
    assert_eq!(state.get_jar(&jar_id), Ok(legacy.clone()));

    // 100 * 10000 / 10000 = 100 to `a`; the last entry gets 100 - 100 = 0, not transferred.
    let receipt = state.tip(&vec![tipper.clone()], tipper.clone(), jar_id.clone(), 100, vec![]).unwrap();
    assert_eq!(receipt.payments, vec![Payment { to: a.clone(), amount: 100 }]);

    // The owner drops the zero-share entry with the next update.
    state.update_splits(&vec![owner.clone()], &jar_id, vec![split(&a, 10000)]).unwrap();
    assert_eq!(state.get_jar(&jar_id).unwrap().splits, vec![split(&a, 10000)]);

    // A jar under an id that is no longer accepted is still readable and transferable.
    let long_id = vec![b'a'; 70];
    let old = tip_splitter::Jar { owner: owner.clone(), splits: vec![split(&a, 10000)] };
    let mut state = TipSplitter::load(addr("GADMIN"), addr("CTOKEN"), &long_id, Some(old));
    let heir = addr("GHEIR");
    state.transfer_jar_ownership(&vec![owner.clone()], &long_id, heir.clone()).unwrap();
    assert_eq!(state.get_jar(&long_id).unwrap().owner, heir);
}

/// Only a tip that passes every check can overflow; the checks come first.
#[test]
fn tip_overflow_is_reported_only_past_the_checks() {
    let owner = addr("GOWNER");
    let tipper = addr("GTIPPER");
    let a = addr("GA");
    let b = addr("GB");
    let mut contract = TipSplitter::new(addr("GADMIN"), addr("CTOKEN"));
    let jar_id = b"@big".to_vec();
    contract
        .create_jar(&vec![owner.clone()], owner.clone(), jar_id.clone(), vec![split(&a, 5000), split(&b, 5000)])
        .unwrap();
    let signers = vec![tipper.clone()];
    assert!(contract.tip_would_overflow(&signers, &tipper, &jar_id, i128::MAX, &vec![]));
    // Unsigned, or with an over-long message, the tip is rejected before any arithmetic.
    assert!(!contract.tip_would_overflow(&vec![], &tipper, &jar_id, i128::MAX, &vec![]));
    assert!(!contract.tip_would_overflow(&signers, &tipper, &jar_id, i128::MAX, &vec![b'a'; 281]));
    assert_eq!(
        contract.tip(&signers, tipper.clone(), jar_id.clone(), i128::MAX, vec![b'a'; 281]),
        Err(Failure::Contract(Error::MessageTooLong))
    );
    assert_eq!(
        contract.tip(&vec![], tipper.clone(), jar_id.clone(), i128::MAX, vec![]),
        Err(Failure::Unauthorized)
    );
    assert!(!contract.tip_would_overflow(&signers, &tipper, &jar_id, 1_000, &vec![]));
}

#[test]
fn acceptance_ignores_entry_order() {
    let a = addr("GA");
    let b = addr("GB");
    let c = addr("GC");
    let one = vec![split(&a, 2000), split(&b, 3000), split(&c, 5000)];
    let other = vec![split(&c, 5000), split(&a, 2000), split(&b, 3000)];
    assert_eq!(validate_splits(&one), Ok(()));
    assert_eq!(validate_splits(&other), Ok(()));
    // `[a, b, a]` is rejected just as `[a, a, b]` is.
    assert!(validate_splits(&vec![split(&a, 4000), split(&b, 3000), split(&a, 3000)]).is_err());
    assert!(validate_splits(&vec![split(&a, 4000), split(&a, 3000), split(&b, 3000)]).is_err());
}
