use trading_bots::amm::{AmmState, StateConversion, AMM_STATE_LEN};
use trading_bots::error::ArbitrageError;
use trading_bots::raydium::{decode_pool_state, name_and_symbol_or_unknown, PoolConfig, PoolState, RaydiumError};

fn account(words: [u64; 14]) -> Vec<u8> {
    words.iter().flat_map(|w| w.to_ne_bytes()).collect()
}

#[test]
fn amm_state_decodes_each_word() {
    let mut words = [0u64; 14];
    for (i, w) in words.iter_mut().enumerate() {
        *w = 1000 + i as u64;
    }
    words[13] = (-5i64) as u64;
    let s = AmmState::try_from_bytes(&account(words)).unwrap();
    assert_eq!(s.status, 1000);
    assert_eq!(s.lp_supply, 1004);
    assert_eq!(s.base_reserve, 1009);
    assert_eq!(s.quote_reserve, 1010);
    assert_eq!(s.quote_target, 1012);
    assert_eq!(s.last_update_timestamp, -5);
}

#[test]
fn amm_state_rejects_wrong_length() {
    assert_eq!(AmmState::try_from_bytes(&[0u8; 111]).unwrap_err(), "Invalid data length for AmmState");
    assert_eq!(AmmState::try_from_bytes(&[0u8; AMM_STATE_LEN + 1]).unwrap_err(), "Invalid data length for AmmState");
}

#[test]
fn amm_state_reads_misaligned_bytes() {
    let mut buf = vec![0u8];
    buf.extend(account([7; 14]));
    let s = AmmState::try_from_bytes(&buf[1..]).unwrap();
    assert_eq!(s.nonce, 7);
}

#[test]
fn pool_state_takes_reserves_supply_and_time() {
    let mut words = [0u64; 14];
    words[4] = 55;
    words[9] = 1_000;
    words[10] = 2_000;
    words[13] = 1_700_000_000;
    let p = decode_pool_state(&account(words)).unwrap();
    assert_eq!(
        p,
        PoolState { base_reserve: 1_000, quote_reserve: 2_000, last_update_timestamp: 1_700_000_000, lp_supply: 55 }
    );
}

#[test]
fn pool_state_of_short_account_is_conversion_error() {
    match decode_pool_state(&[1, 2, 3]) {
        Err(RaydiumError::ConversionError(m)) => assert_eq!(m, "Invalid data length for AmmState"),
        other => panic!("unexpected {:?}", other),
    }
}

#[test]
fn raydium_error_messages() {
    assert_eq!(RaydiumError::InvalidPoolData.message(), "Invalid pool data");
    assert_eq!(RaydiumError::RpcError("timeout".to_string()).message(), "RPC error: timeout");
    assert_eq!(RaydiumError::ConversionError("bad").message(), "Conversion error: bad");
}

#[test]
fn arbitrage_error_messages() {
    assert_eq!(ArbitrageError::RpcError("down".to_string()).message(), "RPC error: down");
    assert_eq!(ArbitrageError::InsufficientBalance("1 SOL".to_string()).message(), "Insufficient balance: 1 SOL");
    assert_eq!(ArbitrageError::PriceSlippage("2%".to_string()).message(), "Price slippage: 2%");
}

#[test]
fn metadata_fallback_is_unknown() {
    assert_eq!(
        name_and_symbol_or_unknown(None),
        ("Unknown".to_string(), "Unknown".to_string())
    );
    assert_eq!(
        name_and_symbol_or_unknown(Some(("Wrapped SOL".to_string(), "SOL".to_string()))),
        ("Wrapped SOL".to_string(), "SOL".to_string())
    );
}

#[test]
fn pool_config_keeps_its_fields() {
    let c = PoolConfig::new([3; 32], 9, 6);
    assert_eq!(c.pool_id, [3; 32]);
    assert_eq!((c.base_decimals, c.quote_decimals), (9, 6));
}
