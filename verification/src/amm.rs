//! The on-chain state of a Raydium AMM pool and its decoding from account
//! bytes.
use vstd::prelude::*;
use vstd::endian::{Endian, endianness};

verus! {

/// Size in bytes of an AMM state account.
pub const AMM_STATE_LEN: usize = 112;

/// Number of eight-byte words in an AMM state account.
pub const AMM_STATE_WORDS: usize = 14;

/// The AMM state account, fourteen eight-byte fields in this order.
#[derive(Clone, Copy, Debug, PartialEq, Eq, Structural)]
pub struct AmmState {
    pub status: u64,
    pub nonce: u64,
    pub max_price: u64,
    pub min_price: u64,
    pub lp_supply: u64,
    pub accumulated_base_fees: u64,
    pub accumulated_quote_fees: u64,
    pub base_wave: u64,
    pub quote_wave: u64,
    pub base_reserve: u64,
    pub quote_reserve: u64,
    pub base_target: u64,
    pub quote_target: u64,
    pub last_update_timestamp: i64,
}

/// The unsigned number whose little-endian bytes are `b`.
pub open spec fn le_value(b: Seq<u8>) -> int
    decreases b.len(),
{
    if b.len() == 0 {
        0
    } else {
        b[0] + 256 * le_value(b.drop_first())
    }
}

/// The unsigned number whose bytes, in byte order `e`, are `b`.
pub open spec fn bytes_value(b: Seq<u8>, e: Endian) -> int {
    match e {
        Endian::Little => le_value(b),
        Endian::Big => le_value(b.reverse()),
    }
}

/// The `i`-th eight-byte word of `data`, read in the byte order of the
/// machine.
pub open spec fn word_at(data: Seq<u8>, i: int) -> int {
    bytes_value(data.subrange(8 * i, 8 * i + 8), endianness())
}

/// The state whose fields are the fourteen words of `data`, the last one
/// reinterpreted as signed.
pub open spec fn spec_amm_state(data: Seq<u8>) -> AmmState {
    AmmState {
        status: word_at(data, 0) as u64,
        nonce: word_at(data, 1) as u64,
        max_price: word_at(data, 2) as u64,
        min_price: word_at(data, 3) as u64,
        lp_supply: word_at(data, 4) as u64,
        accumulated_base_fees: word_at(data, 5) as u64,
        accumulated_quote_fees: word_at(data, 6) as u64,
        base_wave: word_at(data, 7) as u64,
        quote_wave: word_at(data, 8) as u64,
        base_reserve: word_at(data, 9) as u64,
        quote_reserve: word_at(data, 10) as u64,
        base_target: word_at(data, 11) as u64,
        quote_target: word_at(data, 12) as u64,
        last_update_timestamp: (word_at(data, 13) as u64) as i64,
    }
}

/// Reads the fourteen words of an account with `bytemuck::pod_read_unaligned`,
/// which copies the bytes into a `[u64; 14]` whatever their alignment, so each
/// word is the value of its eight bytes in the machine's byte order.  It
/// panics unless exactly 112 bytes are given, which `requires` excludes.
#[verifier::external_body]
fn read_words(data: &[u8]) -> (r: [u64; 14])
    requires
        data@.len() == AMM_STATE_LEN,
    ensures
        forall|i: int| 0 <= i < AMM_STATE_WORDS ==> #[trigger] r@[i] == word_at(data@, i),
{
    bytemuck::pod_read_unaligned::<[u64; 14]>(data)
}

/// Law: the decoded state's fields are the account's words in the order of
/// its layout: status, nonce, maximum price, minimum price, LP supply, the
/// two accumulated fees, the two waves, the two reserves, the two targets,
/// and the last update time (reinterpreted as signed).
pub proof fn law_amm_state_layout(data: Seq<u8>)
    requires
        data.len() == 112,
    ensures
        spec_amm_state(data).status == word_at(data, 0) as u64,
        spec_amm_state(data).nonce == word_at(data, 1) as u64,
        spec_amm_state(data).max_price == word_at(data, 2) as u64,
        spec_amm_state(data).min_price == word_at(data, 3) as u64,
        spec_amm_state(data).lp_supply == word_at(data, 4) as u64,
        spec_amm_state(data).accumulated_base_fees == word_at(data, 5) as u64,
        spec_amm_state(data).accumulated_quote_fees == word_at(data, 6) as u64,
        spec_amm_state(data).base_wave == word_at(data, 7) as u64,
        spec_amm_state(data).quote_wave == word_at(data, 8) as u64,
        spec_amm_state(data).base_reserve == word_at(data, 9) as u64,
        spec_amm_state(data).quote_reserve == word_at(data, 10) as u64,
        spec_amm_state(data).base_target == word_at(data, 11) as u64,
        spec_amm_state(data).quote_target == word_at(data, 12) as u64,
        spec_amm_state(data).last_update_timestamp == (word_at(data, 13) as u64) as i64,
        AMM_STATE_LEN == 112,
        AMM_STATE_WORDS == 14,
{
}

/// Conversion of raw account bytes into a state structure.
pub trait StateConversion: Sized {
    fn try_from_bytes(data: &[u8]) -> Result<Self, &'static str>;
}

impl StateConversion for AmmState {
    /// Decodes an AMM state account; fails with a message unless the
    /// account holds exactly `AMM_STATE_LEN` bytes.
    fn try_from_bytes(data: &[u8]) -> (r: Result<AmmState, &'static str>)
        ensures
            data@.len() == AMM_STATE_LEN ==> r == Ok::<AmmState, &'static str>(spec_amm_state(data@)),
            data@.len() != AMM_STATE_LEN ==> (r matches Err(m) && m@ == "Invalid data length for AmmState"@),
    {
        if data.len() != AMM_STATE_LEN {
            return Err("Invalid data length for AmmState");
        }
        let w = read_words(data);
        let state = AmmState {
            status: w[0],
            nonce: w[1],
            max_price: w[2],
            min_price: w[3],
            lp_supply: w[4],
            accumulated_base_fees: w[5],
            accumulated_quote_fees: w[6],
            base_wave: w[7],
            quote_wave: w[8],
            base_reserve: w[9],
            quote_reserve: w[10],
            base_target: w[11],
            quote_target: w[12],
            last_update_timestamp: w[13] as i64,
        };
        proof {
            assert forall|i: int| 0 <= i < AMM_STATE_WORDS implies w@[i] == word_at(data@, i) by {}
        }
        Ok(state)
    }
}

} // verus!
