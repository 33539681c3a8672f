//! Client module: read-only, slot-consistent observation of account bytes.
//!
//! This crate does not ship a concrete ledger RPC implementation, to keep
//! dependencies minimal and to avoid embedding endpoint assumptions; the
//! transport is a capability the deployment supplies.

use vstd::prelude::*;

use crate::accounts::RawAccounts;
use crate::types::{Error, ErrorCode, Slot};

verus! {

/// Read-only client configuration.
#[derive(Debug, Clone, Copy)]
pub struct ClientConfig {
    /// Optional hard constraint: reject observations below this slot.
    pub min_context_slot: Option<Slot>,
}

/// An observation bound to a single slot: every byte payload in `accounts`
/// was read as of exactly `slot`.
#[derive(Debug, Clone)]
pub struct SlotConsistentRead {
    pub slot: Slot,
    pub accounts: RawAccounts,
}

impl SlotConsistentRead {
    /// Well-formedness: the account container keeps its canonical shape.
    pub open spec fn wf(&self) -> bool {
        self.accounts.wf()
    }
}

/// The requested identifiers, as character sequences, in request order.
pub open spec fn keys_view(keys: &[String]) -> Seq<Seq<char>> {
    Seq::new(keys@.len(), |i: int| keys@[i]@)
}

/// The resulting slot satisfies the configured lower bound, when one is set.
pub open spec fn meets_min_slot(config: ClientConfig, slot: Slot) -> bool {
    match config.min_context_slot {
        Some(m) => slot >= m,
        None => true,
    }
}

/// The observation binds exactly the requested accounts: every requested
/// identifier is present, and no other identifier is.
pub open spec fn covers_exactly(keys: Seq<Seq<char>>, accounts: Map<Seq<char>, Seq<u8>>) -> bool {
    &&& forall|i: int| 0 <= i < keys.len() ==> accounts.contains_key(#[trigger] keys[i])
    &&& forall|k: Seq<char>| #[trigger] accounts.contains_key(k) ==> keys.contains(k)
}

/// Failure categories a transport may report. Transport-originated failures
/// pass through the client unchanged; input validation is the client's own,
/// and layout decoding belongs to collaborators outside this crate, so
/// neither `InvalidInput` nor `LayoutVersionMismatch` is the transport's to
/// raise.
pub open spec fn transport_error_code(code: ErrorCode) -> bool {
    ||| code == ErrorCode::RpcError
    ||| code == ErrorCode::RpcSlotInconsistency
    ||| code == ErrorCode::MissingAccount
    ||| code == ErrorCode::MalformedAccountData
}

/// What a conforming transport returns: either a well-formed observation of
/// exactly the requested accounts, bound to a single slot at or above the
/// configured minimum, or an error from the transport-originated categories.
/// A mixed-slot or partial result is never returned.
pub open spec fn port_response(
    keys: Seq<Seq<char>>,
    config: ClientConfig,
    r: Result<SlotConsistentRead, Error>,
) -> bool {
    match r {
        Ok(read) => read.wf() && covers_exactly(keys, read.accounts@) && meets_min_slot(
            config,
            read.slot,
        ),
        Err(e) => transport_error_code(e.code),
    }
}

/// What every client observation returns: `InvalidInput` exactly on invalid
/// caller input, checked before any delegation, and otherwise precisely the
/// guarantees of a conforming transport, re-exported unmodified.
pub open spec fn observation_post(
    program_id: Seq<char>,
    keys: Seq<Seq<char>>,
    config: ClientConfig,
    r: Result<SlotConsistentRead, Error>,
) -> bool {
    if program_id.len() == 0 {
        r matches Err(e) && e.code == ErrorCode::InvalidInput && e.message@
            == "program_id_base58 is required"@
    } else if keys.len() == 0 {
        r matches Err(e) && e.code == ErrorCode::InvalidInput && e.message@
            == "account_keys_base58 must be non-empty"@
    } else {
        port_response(keys, config, r)
    }
}

/// Facade transparency law: on valid input, what a client observation is
/// allowed to return is exactly what a conforming transport is allowed to
/// return, under the same configuration — the client adds, translates, and
/// suppresses nothing.
pub proof fn lemma_facade_transparency(
    program_id: Seq<char>,
    keys: Seq<Seq<char>>,
    config: ClientConfig,
    r: Result<SlotConsistentRead, Error>,
)
    requires
        program_id.len() > 0,
        keys.len() > 0,
    ensures
        observation_post(program_id, keys, config, r) == port_response(keys, config, r),
{
}

/// Minimum-slot law: when the configuration demands slot `s` at least, no
/// observation below `s` is ever returned successfully — the call fails
/// instead of yielding stale data.
pub proof fn lemma_min_context_slot(
    program_id: Seq<char>,
    keys: Seq<Seq<char>>,
    s: Slot,
    r: Result<SlotConsistentRead, Error>,
)
    requires
        program_id.len() > 0,
        keys.len() > 0,
        observation_post(program_id, keys, ClientConfig { min_context_slot: Some(s) }, r),
    ensures
        r matches Ok(read) ==> read.slot >= s,
{
}

/// Minimal read-only RPC surface: the only seam allowed to perform network
/// I/O. The client never does.
///
/// Determinism: an implementation must bind all returned account bytes to a
/// single slot; when the underlying node cannot guarantee that, it must fail
/// with `RpcSlotInconsistency` rather than return a best-effort mixed-slot
/// result. A non-existent account yields `MissingAccount`, never an empty
/// byte entry. When `config.min_context_slot` is set, an observation below
/// it must fail. An implementation compiled outside the verifier is trusted
/// to meet this contract; one verified here is held to it.
pub trait ReadOnlyRpc {
    /// Observes the requested accounts at one slot, or fails with a
    /// transport-originated error. The client validates input first, so the
    /// request is never empty.
    fn get_multiple_accounts_slot_consistent(
        &self,
        account_keys_base58: &[String],
        config: ClientConfig,
    ) -> (r: Result<SlotConsistentRead, Error>)
        requires
            account_keys_base58@.len() > 0,
        ensures
            port_response(keys_view(account_keys_base58), config, r),
    ;
}

/// Volatilum read-only client: validates caller input, then delegates to
/// the transport with its stored configuration. The `(transport, config)`
/// pair is fixed at construction; the client holds no mutable state, so
/// every call is an independent request.
pub struct VolatilumClient<R: ReadOnlyRpc> {
    rpc: R,
    config: ClientConfig,
}

impl<R: ReadOnlyRpc> VolatilumClient<R> {
    /// The configuration the client was constructed with.
    pub closed spec fn spec_config(&self) -> ClientConfig {
        self.config
    }

    pub fn new(rpc: R, config: ClientConfig) -> (client: Self)
        ensures
            client.spec_config() == config,
    {
        VolatilumClient { rpc, config }
    }

    /// Shared validation and delegation routine behind the four named
    /// intents: checks the program identifier, then the account list, and
    /// only then hands the request to the transport, unchanged.
    fn observe(&self, program_id_base58: &str, account_keys_base58: &[String]) -> (r: Result<
        SlotConsistentRead,
        Error,
    >)
        ensures
            observation_post(
                program_id_base58@,
                keys_view(account_keys_base58),
                self.spec_config(),
                r,
            ),
    {
        if program_id_base58.is_empty() {
            return Err(Error::new(ErrorCode::InvalidInput, "program_id_base58 is required"));
        }
        if account_keys_base58.is_empty() {
            return Err(
                Error::new(ErrorCode::InvalidInput, "account_keys_base58 must be non-empty"),
            );
        }
        self.rpc.get_multiple_accounts_slot_consistent(account_keys_base58, self.config)
    }

    /// Observes liquidity topology account bytes.
    pub fn get_liquidity_topology(
        &self,
        program_id_base58: &str,
        account_keys_base58: &[String],
    ) -> (r: Result<SlotConsistentRead, Error>)
        ensures
            observation_post(
                program_id_base58@,
                keys_view(account_keys_base58),
                self.spec_config(),
                r,
            ),
    {
        self.observe(program_id_base58, account_keys_base58)
    }

    /// Observes execution signal account bytes.
    pub fn observe_execution_signals(
        &self,
        program_id_base58: &str,
        account_keys_base58: &[String],
    ) -> (r: Result<SlotConsistentRead, Error>)
        ensures
            observation_post(
                program_id_base58@,
                keys_view(account_keys_base58),
                self.spec_config(),
                r,
            ),
    {
        self.observe(program_id_base58, account_keys_base58)
    }

    /// Derives a structural yield curve definition.
    ///
    /// Non-financial: returns bytes only (no yield rates, APRs, or
    /// projections).
    pub fn derive_yield_curve(
        &self,
        program_id_base58: &str,
        account_keys_base58: &[String],
    ) -> (r: Result<SlotConsistentRead, Error>)
        ensures
            observation_post(
                program_id_base58@,
                keys_view(account_keys_base58),
                self.spec_config(),
                r,
            ),
    {
        self.observe(program_id_base58, account_keys_base58)
    }

    /// Observes risk constraint account bytes.
    pub fn get_risk_constraints(
        &self,
        program_id_base58: &str,
        account_keys_base58: &[String],
    ) -> (r: Result<SlotConsistentRead, Error>)
        ensures
            observation_post(
                program_id_base58@,
                keys_view(account_keys_base58),
                self.spec_config(),
                r,
            ),
    {
        self.observe(program_id_base58, account_keys_base58)
    }
}

} // verus!
