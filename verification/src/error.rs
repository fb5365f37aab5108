//! Errors of the arbitrage bot.
use vstd::prelude::*;

verus! {

/// Why an arbitrage step failed; each carries a description.
#[derive(Clone, Debug)]
pub enum ArbitrageError {
    RpcError(String),
    InsufficientBalance(String),
    PriceSlippage(String),
}

impl ArbitrageError {
    /// The text a user sees for this error.
    pub open spec fn spec_message(&self) -> Seq<char> {
        match self {
            ArbitrageError::RpcError(s) => "RPC error: "@ + s@,
            ArbitrageError::InsufficientBalance(s) => "Insufficient balance: "@ + s@,
            ArbitrageError::PriceSlippage(s) => "Price slippage: "@ + s@,
        }
    }

    /// The error's message: a prefix naming the kind of error, then the
    /// description.
    pub fn message(&self) -> (r: String)
        ensures
            r@ == self.spec_message(),
    {
        match self {
            ArbitrageError::RpcError(s) => String::from_str("RPC error: ").concat(s.as_str()),
            ArbitrageError::InsufficientBalance(s) => String::from_str(
                "Insufficient balance: ",
            ).concat(s.as_str()),
            ArbitrageError::PriceSlippage(s) => String::from_str("Price slippage: ").concat(
                s.as_str(),
            ),
        }
    }
}

} // verus!
