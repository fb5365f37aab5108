//! Reading a Raydium pool: its configuration, the state derived from its
//! account, and the errors of the client.
use vstd::prelude::*;
use crate::amm::{AmmState, StateConversion, AMM_STATE_LEN, spec_amm_state, word_at};

verus! {

/// Why reading a pool failed.
#[derive(Clone, Debug)]
pub enum RaydiumError {
    InvalidPoolData,
    RpcError(String),
    ConversionError(&'static str),
}

impl RaydiumError {
    /// The text a user sees for this error.
    pub open spec fn spec_message(&self) -> Seq<char> {
        match self {
            RaydiumError::InvalidPoolData => "Invalid pool data"@,
            RaydiumError::RpcError(e) => "RPC error: "@ + e@,
            RaydiumError::ConversionError(e) => "Conversion error: "@ + e@,
        }
    }

    /// The error's message.
    pub fn message(&self) -> (r: String)
        ensures
            r@ == self.spec_message(),
    {
        match self {
            RaydiumError::InvalidPoolData => String::from_str("Invalid pool data"),
            RaydiumError::RpcError(e) => String::from_str("RPC error: ").concat(e.as_str()),
            RaydiumError::ConversionError(e) => String::from_str("Conversion error: ").concat(*e),
        }
    }
}

/// Which pool to read: its account address and the decimals of its two
/// tokens.
#[derive(Clone, Copy, Debug)]
pub struct PoolConfig {
    pub pool_id: [u8; 32],
    pub base_decimals: u8,
    pub quote_decimals: u8,
}

impl PoolConfig {
    pub fn new(pool_id: [u8; 32], base_decimals: u8, quote_decimals: u8) -> (r: PoolConfig)
        ensures
            r.pool_id == pool_id,
            r.base_decimals == base_decimals,
            r.quote_decimals == quote_decimals,
    {
        PoolConfig { pool_id, base_decimals, quote_decimals }
    }
}

/// The part of a pool's state the bot reads.
#[derive(Clone, Copy, Debug, PartialEq, Eq, Structural)]
pub struct PoolState {
    pub base_reserve: u64,
    pub quote_reserve: u64,
    pub last_update_timestamp: i64,
    pub lp_supply: u64,
}

pub open spec fn spec_pool_state(a: AmmState) -> PoolState {
    PoolState {
        base_reserve: a.base_reserve,
        quote_reserve: a.quote_reserve,
        last_update_timestamp: a.last_update_timestamp,
        lp_supply: a.lp_supply,
    }
}

/// Law: the pool state read from an account holds the account's reserves
/// (words 9 and 10), its LP supply (word 4) and its last update time
/// (word 13, reinterpreted as signed).
pub proof fn law_pool_state_layout(data: Seq<u8>)
    requires
        data.len() == 112,
    ensures
        spec_pool_state(spec_amm_state(data)).base_reserve == word_at(data, 9) as u64,
        spec_pool_state(spec_amm_state(data)).quote_reserve == word_at(data, 10) as u64,
        spec_pool_state(spec_amm_state(data)).lp_supply == word_at(data, 4) as u64,
        spec_pool_state(spec_amm_state(data)).last_update_timestamp == (word_at(data, 13) as u64) as i64,
{
}

/// The pool state held in the bytes of a pool account; a conversion error
/// unless the account holds exactly `AMM_STATE_LEN` bytes.
pub fn decode_pool_state(pool_data: &[u8]) -> (r: Result<PoolState, RaydiumError>)
    ensures
        pool_data@.len() == AMM_STATE_LEN ==> r == Ok::<PoolState, RaydiumError>(
            spec_pool_state(spec_amm_state(pool_data@)),
        ),
        pool_data@.len() != AMM_STATE_LEN ==> (r matches Err(RaydiumError::ConversionError(m))
            && m@ == "Invalid data length for AmmState"@),
{
    match AmmState::try_from_bytes(pool_data) {
        Ok(amm_state) => Ok(
            PoolState {
                base_reserve: amm_state.base_reserve,
                quote_reserve: amm_state.quote_reserve,
                last_update_timestamp: amm_state.last_update_timestamp,
                lp_supply: amm_state.lp_supply,
            },
        ),
        Err(e) => Err(RaydiumError::ConversionError(e)),
    }
}

/// The token name and symbol read from a metadata account, or
/// `("Unknown", "Unknown")` when the account could not be fetched or parsed.
pub fn name_and_symbol_or_unknown(metadata: Option<(String, String)>) -> (r: (String, String))
    ensures
        metadata matches Some(m) ==> r == m,
        metadata is None ==> r.0@ == "Unknown"@ && r.1@ == "Unknown"@,
{
    match metadata {
        Some(m) => m,
        None => (String::from_str("Unknown"), String::from_str("Unknown")),
    }
}

} // verus!
