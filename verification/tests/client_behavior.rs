use volatilum::accounts::RawAccounts;
use volatilum::client::ClientConfig;
use volatilum::client::ReadOnlyRpc;
use volatilum::client::SlotConsistentRead;
use volatilum::client::VolatilumClient;
use volatilum::types::Error;
use volatilum::types::ErrorCode;

/// A conforming transport double: serves fixed account bytes as of one
/// natural slot, enforces `min_context_slot`, and reports a missing account
/// rather than omitting it.
struct FixedRpc {
    natural_slot: u64,
    pairs: Vec<(String, Vec<u8>)>,
}

impl ReadOnlyRpc for FixedRpc {
    fn get_multiple_accounts_slot_consistent(
        &self,
        account_keys_base58: &[String],
        config: ClientConfig,
    ) -> Result<SlotConsistentRead, Error> {
        if let Some(min) = config.min_context_slot {
            if self.natural_slot < min {
                return Err(Error::new(
                    ErrorCode::RpcSlotInconsistency,
                    "observed slot below min_context_slot",
                ));
            }
        }
        let mut selected: Vec<(String, Vec<u8>)> = Vec::new();
        for key in account_keys_base58 {
            match self.pairs.iter().find(|p| &p.0 == key) {
                Some(p) => selected.push((p.0.clone(), p.1.clone())),
                None => {
                    return Err(Error::new(ErrorCode::MissingAccount, "account does not exist"));
                }
            }
        }
        Ok(SlotConsistentRead {
            slot: self.natural_slot,
            accounts: RawAccounts::from_pairs(&selected),
        })
    }
}

/// A call-counting double: records every delegation and fails it.
struct CountingRpc {
    calls: std::cell::Cell<u32>,
}

impl ReadOnlyRpc for &CountingRpc {
    fn get_multiple_accounts_slot_consistent(
        &self,
        _account_keys_base58: &[String],
        _config: ClientConfig,
    ) -> Result<SlotConsistentRead, Error> {
        self.calls.set(self.calls.get() + 1);
        Err(Error::new(ErrorCode::RpcError, "transport should not have been called"))
    }
}

/// A double for a node that can bind only the first requested account to a
/// slot: the whole batch must fail rather than mix slots.
struct SplitSlotRpc;

impl ReadOnlyRpc for SplitSlotRpc {
    fn get_multiple_accounts_slot_consistent(
        &self,
        _account_keys_base58: &[String],
        _config: ClientConfig,
    ) -> Result<SlotConsistentRead, Error> {
        Err(Error::new(
            ErrorCode::RpcSlotInconsistency,
            "no single slot covers the requested batch",
        ))
    }
}

fn demo_rpc() -> FixedRpc {
    FixedRpc {
        natural_slot: 42,
        pairs: vec![
            ("Acc1".to_string(), vec![1u8, 2, 3]),
            ("Acc2".to_string(), vec![9u8, 8]),
        ],
    }
}

fn keys(ids: &[&str]) -> Vec<String> {
    ids.iter().map(|s| s.to_string()).collect()
}

#[test]
fn all_four_operations_return_identical_observation() {
    let client = VolatilumClient::new(demo_rpc(), ClientConfig { min_context_slot: None });
    let ids = keys(&["Acc1", "Acc2"]);
    let reads = [
        client.get_liquidity_topology("ProgABC", &ids).unwrap(),
        client.observe_execution_signals("ProgABC", &ids).unwrap(),
        client.derive_yield_curve("ProgABC", &ids).unwrap(),
        client.get_risk_constraints("ProgABC", &ids).unwrap(),
    ];
    for read in reads.iter() {
        assert_eq!(read.slot, 42);
        assert_eq!(read.accounts.len(), 2);
        assert_eq!(read.accounts.get("Acc1"), Some(&vec![1u8, 2, 3]));
        assert_eq!(read.accounts.get("Acc2"), Some(&vec![9u8, 8]));
    }
}

#[test]
fn empty_program_id_is_rejected_without_transport_call() {
    let counter = CountingRpc { calls: std::cell::Cell::new(0) };
    let client = VolatilumClient::new(&counter, ClientConfig { min_context_slot: None });
    let ids = keys(&["Acc1"]);
    let results = [
        client.get_liquidity_topology("", &ids),
        client.observe_execution_signals("", &ids),
        client.derive_yield_curve("", &ids),
        client.get_risk_constraints("", &ids),
    ];
    for result in results {
        let err = result.unwrap_err();
        assert_eq!(err.code, ErrorCode::InvalidInput);
        assert_eq!(err.message, "program_id_base58 is required");
    }
    assert_eq!(counter.calls.get(), 0);
}

#[test]
fn empty_account_list_is_rejected_without_transport_call() {
    let counter = CountingRpc { calls: std::cell::Cell::new(0) };
    let client = VolatilumClient::new(&counter, ClientConfig { min_context_slot: None });
    let no_ids: Vec<String> = Vec::new();
    let results = [
        client.get_liquidity_topology("ProgABC", &no_ids),
        client.observe_execution_signals("ProgABC", &no_ids),
        client.derive_yield_curve("ProgABC", &no_ids),
        client.get_risk_constraints("ProgABC", &no_ids),
    ];
    for result in results {
        let err = result.unwrap_err();
        assert_eq!(err.code, ErrorCode::InvalidInput);
        assert_eq!(err.message, "account_keys_base58 must be non-empty");
    }
    assert_eq!(counter.calls.get(), 0);
}

#[test]
fn missing_account_error_passes_through_untranslated() {
    let client = VolatilumClient::new(demo_rpc(), ClientConfig { min_context_slot: None });
    let ids = keys(&["Acc1", "AccAbsent"]);
    let err = client.get_liquidity_topology("ProgABC", &ids).unwrap_err();
    assert_eq!(err.code, ErrorCode::MissingAccount);
    assert_eq!(err.message, "account does not exist");
}

#[test]
fn slot_inconsistency_never_yields_a_mixed_result() {
    let client = VolatilumClient::new(SplitSlotRpc, ClientConfig { min_context_slot: None });
    let ids = keys(&["Acc1", "Acc2"]);
    let err = client.observe_execution_signals("ProgABC", &ids).unwrap_err();
    assert_eq!(err.code, ErrorCode::RpcSlotInconsistency);
}

#[test]
fn observation_below_min_context_slot_fails() {
    let client = VolatilumClient::new(
        FixedRpc { natural_slot: 9, ..demo_rpc() },
        ClientConfig { min_context_slot: Some(10) },
    );
    let ids = keys(&["Acc1"]);
    let err = client.get_risk_constraints("ProgABC", &ids).unwrap_err();
    assert_eq!(err.code, ErrorCode::RpcSlotInconsistency);
}

#[test]
fn observation_at_or_above_min_context_slot_succeeds() {
    let client =
        VolatilumClient::new(demo_rpc(), ClientConfig { min_context_slot: Some(42) });
    let ids = keys(&["Acc2"]);
    let read = client.derive_yield_curve("ProgABC", &ids).unwrap();
    assert_eq!(read.slot, 42);
    assert_eq!(read.accounts.get("Acc2"), Some(&vec![9u8, 8]));
}

#[test]
fn validation_checks_program_id_before_account_list() {
    let counter = CountingRpc { calls: std::cell::Cell::new(0) };
    let client = VolatilumClient::new(&counter, ClientConfig { min_context_slot: None });
    let no_ids: Vec<String> = Vec::new();
    let err = client.get_liquidity_topology("", &no_ids).unwrap_err();
    assert_eq!(err.code, ErrorCode::InvalidInput);
    assert_eq!(err.message, "program_id_base58 is required");
    assert_eq!(counter.calls.get(), 0);
}
