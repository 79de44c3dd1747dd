use swap_router::address::validate_address;
use swap_router::bundle::{
    BundleTransaction, OperationRequest, bundle_transactions, validate_bundle,
    validate_dependencies,
};
use swap_router::digest::calculate_tx_hash;
use swap_router::mev::{
    MEVProtection, MEVWarning, ProtectionLevel, level_text, validate_mev_protection, warning_text,
};
use swap_router::yields::{YieldOpportunity, scan_yields};

fn op(kind: &str, params: &str) -> OperationRequest {
    OperationRequest { operation: kind.as_bytes().to_vec(), params: params.as_bytes().to_vec() }
}

fn account() -> Vec<u8> {
    b"GABCDEFGHIJKLMNOPQRSTUVWXYZ234567ABCDEFGHIJKLMNOPQRSTUVW".to_vec()
}

#[test]
fn atomic_bundle_forms_a_single_chain() {
    let ops = vec![op("swap", "a"), op("swap", "b"), op("swap", "c")];
    let b = bundle_transactions(ops, true, &account(), 7);
    assert_eq!(b.transactions.len(), 3);
    assert!(b.atomic);
    assert_eq!(b.transactions[0].depends_on, Vec::<usize>::new());
    assert_eq!(b.transactions[1].depends_on, vec![0]);
    assert_eq!(b.transactions[2].depends_on, vec![1]);
    // Exactly N - 1 dependency edges in all.
    let total: usize = b.transactions.iter().map(|t| t.depends_on.len()).sum();
    assert_eq!(total, 2);
    assert_eq!(b.estimated_gas, 30_000);
}

#[test]
fn non_atomic_bundle_has_no_dependencies() {
    let ops = vec![op("swap", "a"), op("swap", "b"), op("swap", "c")];
    let b = bundle_transactions(ops, false, &account(), 7);
    assert_eq!(b.transactions.len(), 3);
    for t in &b.transactions {
        assert!(t.depends_on.is_empty());
    }
}

#[test]
fn fingerprint_is_deterministic() {
    let b1 = bundle_transactions(vec![op("swap", "a"), op("send", "b")], true, &account(), 42);
    let b2 = bundle_transactions(vec![op("swap", "a"), op("send", "b")], true, &account(), 42);
    assert_eq!(b1.bundle_hash, b2.bundle_hash);
    assert!(b1.bundle_hash.starts_with("bundle_"));
    // Tag plus sixteen hex digits of the truncated digest.
    assert_eq!(b1.bundle_hash.len(), 23);
}

#[test]
fn fingerprint_changes_with_any_field() {
    let base = bundle_transactions(vec![op("swap", "a"), op("send", "b")], true, &account(), 42);
    let other_ops =
        bundle_transactions(vec![op("swap", "a"), op("send", "c")], true, &account(), 42);
    assert_ne!(base.bundle_hash, other_ops.bundle_hash);
    let mut acct2 = account();
    acct2[10] = b'9';
    let other_acct = bundle_transactions(vec![op("swap", "a"), op("send", "b")], true, &acct2, 42);
    assert_ne!(base.bundle_hash, other_acct.bundle_hash);
    let other_seq = bundle_transactions(vec![op("swap", "a"), op("send", "b")], true, &account(), 43);
    assert_ne!(base.bundle_hash, other_seq.bundle_hash);
}

#[test]
fn dependency_validation_rejects_forward_references() {
    let good = vec![
        BundleTransaction { operation: b"a".to_vec(), params: vec![], depends_on: vec![] },
        BundleTransaction { operation: b"b".to_vec(), params: vec![], depends_on: vec![0] },
    ];
    assert!(validate_dependencies(&good));
    let self_ref = vec![BundleTransaction {
        operation: b"a".to_vec(),
        params: vec![],
        depends_on: vec![0],
    }];
    assert!(!validate_dependencies(&self_ref));
    let forward = vec![
        BundleTransaction { operation: b"a".to_vec(), params: vec![], depends_on: vec![1] },
        BundleTransaction { operation: b"b".to_vec(), params: vec![], depends_on: vec![] },
    ];
    assert!(!validate_dependencies(&forward));
    let b = bundle_transactions(vec![op("swap", "a")], true, &account(), 1);
    assert!(validate_bundle(b).is_ok());
}

#[test]
fn mev_full_protection_is_high_with_no_warnings() {
    let cfg = MEVProtection {
        enabled: true,
        private_mempool: true,
        sandwich_protection: true,
        front_run_protection: true,
        back_run_protection: true,
        max_priority_fee: 50,
    };
    let r = validate_mev_protection(&cfg);
    assert_eq!(r.level, ProtectionLevel::High);
    assert!(r.warnings.is_empty());
    assert!(r.recommendations.is_empty());
    assert_eq!(level_text(&r.level), "high");
}

#[test]
fn mev_bare_config_is_low_with_warnings() {
    let cfg = MEVProtection {
        enabled: true,
        private_mempool: false,
        sandwich_protection: false,
        front_run_protection: false,
        back_run_protection: false,
        max_priority_fee: 50_000,
    };
    let r = validate_mev_protection(&cfg);
    assert_eq!(r.level, ProtectionLevel::Low);
    assert!(r.warnings.contains(&MEVWarning::NoPrivateMempool));
    assert!(r.warnings.contains(&MEVWarning::HighPriorityFee));
    assert_eq!(r.warnings.len(), 3);
    assert_eq!(r.recommendations.len(), 1);
    assert_eq!(
        warning_text(&MEVWarning::NoPrivateMempool),
        "Private mempool not enabled - vulnerable to front-running"
    );
}

#[test]
fn mev_one_shield_is_medium_and_disabled_is_low() {
    let one = MEVProtection {
        enabled: true,
        private_mempool: true,
        sandwich_protection: false,
        front_run_protection: false,
        back_run_protection: false,
        max_priority_fee: 50,
    };
    assert_eq!(validate_mev_protection(&one).level, ProtectionLevel::Medium);
    let off = MEVProtection { enabled: false, ..one };
    let r = validate_mev_protection(&off);
    assert_eq!(r.level, ProtectionLevel::Low);
    assert!(r.warnings.is_empty());
}

#[test]
fn tx_hash_matches_known_digest() {
    // SHA-256 of "hello", first 16 bytes, lowercase hex.
    assert_eq!(calculate_tx_hash(b"hello"), "2cf24dba5fb0a30e26e83b2ac5b9e29e");
    assert_eq!(calculate_tx_hash(b"hello"), calculate_tx_hash(b"hello"));
    assert_ne!(calculate_tx_hash(b"hello"), calculate_tx_hash(b"hellp"));
}

#[test]
fn address_validation_checks_shape() {
    assert!(validate_address(&account()));
    assert!(!validate_address(b"GSHORT"));
    let mut wrong_start = account();
    wrong_start[0] = b'A';
    assert!(!validate_address(&wrong_start));
    let mut bad_char = account();
    bad_char[5] = b'-';
    assert!(!validate_address(&bad_char));
}

#[test]
fn yields_are_filtered_by_apy() {
    let mk = |name: &str, apy_bps: u64| YieldOpportunity {
        protocol: name.to_string(),
        pool: name.to_string(),
        apy_bps,
        tvl: 1_000_000,
        risk: "low".to_string(),
    };
    let all = vec![mk("a", 450), mk("b", 80), mk("c", 1_200)];
    let kept = scan_yields(all, 400);
    assert_eq!(kept.len(), 2);
    assert_eq!(kept[0].protocol, "a");
    assert_eq!(kept[1].protocol, "c");
}

#[test]
fn empty_bundle_is_well_formed() {
    let b = bundle_transactions(Vec::new(), true, &account(), 1);
    assert!(b.transactions.is_empty());
    assert_eq!(b.estimated_gas, 0);
    assert!(b.bundle_hash.starts_with("bundle_"));
}

#[test]
fn mev_warnings_come_in_a_fixed_order() {
    let cfg = MEVProtection {
        enabled: true,
        private_mempool: false,
        sandwich_protection: false,
        front_run_protection: false,
        back_run_protection: false,
        max_priority_fee: 50_000,
    };
    let r = validate_mev_protection(&cfg);
    assert_eq!(
        r.warnings,
        vec![
            MEVWarning::NoPrivateMempool,
            MEVWarning::NoSandwichProtection,
            MEVWarning::HighPriorityFee,
        ]
    );
}

#[test]
fn cyclic_bundle_is_rejected_whole() {
    let cyclic = swap_router::bundle::TransactionBundle {
        transactions: vec![BundleTransaction {
            operation: b"a".to_vec(),
            params: vec![],
            depends_on: vec![0],
        }],
        atomic: true,
        estimated_gas: 10_000,
        bundle_hash: String::new(),
    };
    match validate_bundle(cyclic) {
        Err(e) => assert_eq!(e, swap_router::errors::CoreError::BundleDependencyViolation),
        Ok(_) => panic!("a self-referencing bundle must be rejected"),
    }
}
