//! Validation of transactions without the state of the chain.
//!
//! A transaction is refused where no state of the chain could make it valid, or
//! where it is of a kind that the node does not relay. That its signature is
//! good is known from its sender having been recovered.
use vstd::prelude::*;

verus! {

/// What transactions are held against.
#[derive(Debug, Clone, Copy)]
pub struct StatelessValidatorConfig {
    /// The chain that transactions have to be for.
    pub chain_id: u64,
    /// The least gas limit.
    pub min_gas_limit: u64,
    /// The largest gas limit.
    pub max_gas_limit: u64,
}

impl Default for StatelessValidatorConfig {
    fn default() -> (r: Self)
        ensures
            r.chain_id == 1,
            r.min_gas_limit == 21_000,
            r.max_gas_limit == 30_000_000,
    {
        StatelessValidatorConfig {
            chain_id: 1,
            min_gas_limit: 21_000,
            max_gas_limit: 30_000_000,
        }
    }
}

/// An amount of up to 256 bits.
#[derive(Debug, Clone, Copy)]
pub struct Amount {
    /// The upper 128 bits.
    pub high: u128,
    /// The lower 128 bits.
    pub low: u128,
}

impl View for Amount {
    type V = int;

    open spec fn view(&self) -> int {
        self.high * 0x1_0000_0000_0000_0000_0000_0000_0000_0000 + self.low
    }
}

/// The parts of a transaction that are validated.
#[derive(Debug, Clone, Copy)]
pub struct TxFields {
    /// The chain that the transaction is for, where it names one.
    pub chain_id: Option<u64>,
    pub nonce: u64,
    pub gas_limit: u64,
    /// The most that is paid for a unit of gas. For a transaction without a
    /// priority fee this is its gas price.
    pub max_fee_per_gas: u128,
    pub max_priority_fee_per_gas: Option<u128>,
    pub value: Amount,
    /// Whether the transaction creates a contract.
    pub is_create: bool,
}

/// Why a transaction is refused.
#[derive(Debug, Clone, Copy, PartialEq, Eq, Structural)]
pub enum TxRejection {
    /// It is for another chain.
    ChainId,
    /// Its gas limit is out of range.
    GasLimit,
    /// Its priority fee exceeds its fee.
    FeeOrdering,
    /// Its gas price is zero.
    GasPrice,
    /// Its value and the cost of its gas exceed 256 bits together.
    CostOverflow,
    /// Its nonce is the largest number, which no account can get past.
    Nonce,
    /// It creates a contract.
    ContractCreation,
}

/// Whether the value and the cost of the gas exceed 256 bits together.
pub open spec fn cost_overflows(tx: TxFields) -> bool {
    tx.value@ + tx.gas_limit * tx.max_fee_per_gas
        >= 0x1_0000_0000_0000_0000_0000_0000_0000_0000_0000_0000_0000_0000_0000_0000_0000_0000
}

/// Why a transaction is refused, if it is.
pub open spec fn rejection(config: StatelessValidatorConfig, tx: TxFields) -> Option<TxRejection> {
    if tx.chain_id matches Some(id) && id != config.chain_id {
        Some(TxRejection::ChainId)
    } else if !(config.min_gas_limit <= tx.gas_limit <= config.max_gas_limit) {
        Some(TxRejection::GasLimit)
    } else if tx.max_priority_fee_per_gas matches Some(tip) && tip > tx.max_fee_per_gas {
        Some(TxRejection::FeeOrdering)
    } else if tx.max_fee_per_gas == 0 {
        Some(TxRejection::GasPrice)
    } else if cost_overflows(tx) {
        Some(TxRejection::CostOverflow)
    } else if tx.nonce == u64::MAX {
        Some(TxRejection::Nonce)
    } else if tx.is_create {
        Some(TxRejection::ContractCreation)
    } else {
        None
    }
}

/// Whether the value and the cost of the gas exceed 256 bits together.
fn check_cost(tx: &TxFields) -> (r: bool)
    ensures
        r == cost_overflows(*tx),
{
    let gas: u128 = tx.gas_limit as u128;
    let fee_high: u128 = tx.max_fee_per_gas / 0x1_0000_0000_0000_0000;
    let fee_low: u128 = tx.max_fee_per_gas % 0x1_0000_0000_0000_0000;
    assert(0 <= fee_high * gas <= 0xffff_ffff_ffff_ffff * 0xffff_ffff_ffff_ffff)
        by (nonlinear_arith)
        requires
            0 <= fee_high <= 0xffff_ffff_ffff_ffff,
            0 <= gas <= 0xffff_ffff_ffff_ffff,
    ;
    assert(0 <= fee_low * gas <= 0xffff_ffff_ffff_ffff * 0xffff_ffff_ffff_ffff)
        by (nonlinear_arith)
        requires
            0 <= fee_low <= 0xffff_ffff_ffff_ffff,
            0 <= gas <= 0xffff_ffff_ffff_ffff,
    ;
    let upper: u128 = fee_high * gas;
    let lower: u128 = fee_low * gas;
    assert(tx.gas_limit * tx.max_fee_per_gas == upper * 0x1_0000_0000_0000_0000 + lower)
        by (nonlinear_arith)
        requires
            tx.max_fee_per_gas == fee_high * 0x1_0000_0000_0000_0000 + fee_low,
            gas == tx.gas_limit,
            upper == fee_high * gas,
            lower == fee_low * gas,
    ;
    let cost_high: u128 = upper / 0x1_0000_0000_0000_0000;
    let cost_middle: u128 = (upper % 0x1_0000_0000_0000_0000) * 0x1_0000_0000_0000_0000;
    let mut carry: u128 = 0;
    let (sum, over) = add_low(cost_middle, lower);
    if over {
        carry = carry + 1;
    }
    let (sum, over) = add_low(sum, tx.value.low);
    if over {
        carry = carry + 1;
    }
    let high: u128 = cost_high + carry;
    tx.value.high > u128::MAX - high
}

/// The sum of two numbers, without what exceeds 128 bits, and whether something
/// does.
fn add_low(a: u128, b: u128) -> (r: (u128, bool))
    ensures
        r.1 == (a + b > u128::MAX),
        r.0 == a + b - (if r.1 {
            u128::MAX + 1
        } else {
            0
        }),
{
    if a > u128::MAX - b {
        (a - (u128::MAX - b) - 1, true)
    } else {
        (a + b, false)
    }
}

/// Validates a transaction: it is refused for the first of the reasons that
/// there is.
pub fn validate_stateless(config: &StatelessValidatorConfig, tx: &TxFields) -> (r: Result<
    (),
    TxRejection,
>)
    ensures
        match r {
            Ok(_) => rejection(*config, *tx) is None,
            Err(e) => rejection(*config, *tx) == Some(e),
        },
        r is Ok <==> {
            &&& (tx.chain_id is None || tx.chain_id == Some(config.chain_id))
            &&& config.min_gas_limit <= tx.gas_limit
            &&& tx.gas_limit <= config.max_gas_limit
            &&& (tx.max_priority_fee_per_gas matches Some(tip) ==> tip <= tx.max_fee_per_gas)
            &&& tx.max_fee_per_gas > 0
            &&& tx.value.high * 0x1_0000_0000_0000_0000_0000_0000_0000_0000 + tx.value.low
                + tx.gas_limit * tx.max_fee_per_gas
                < 0x1_0000_0000_0000_0000_0000_0000_0000_0000_0000_0000_0000_0000_0000_0000_0000_0000
            &&& tx.nonce < u64::MAX
            &&& !tx.is_create
        },
        match r {
            Ok(_) => true,
            Err(TxRejection::ChainId) => tx.chain_id is Some && tx.chain_id != Some(
                config.chain_id,
            ),
            Err(TxRejection::GasLimit) => tx.gas_limit < config.min_gas_limit || tx.gas_limit
                > config.max_gas_limit,
            Err(TxRejection::FeeOrdering) => tx.max_priority_fee_per_gas matches Some(tip) && tip
                > tx.max_fee_per_gas,
            Err(TxRejection::GasPrice) => tx.max_fee_per_gas == 0,
            Err(TxRejection::CostOverflow) => tx.value.high
                * 0x1_0000_0000_0000_0000_0000_0000_0000_0000 + tx.value.low + tx.gas_limit
                * tx.max_fee_per_gas
                >= 0x1_0000_0000_0000_0000_0000_0000_0000_0000_0000_0000_0000_0000_0000_0000_0000_0000,
            Err(TxRejection::Nonce) => tx.nonce == u64::MAX,
            Err(TxRejection::ContractCreation) => tx.is_create,
        },
{
    if let Some(id) = tx.chain_id {
        if id != config.chain_id {
            return Err(TxRejection::ChainId);
        }
    }
    if tx.gas_limit < config.min_gas_limit || tx.gas_limit > config.max_gas_limit {
        return Err(TxRejection::GasLimit);
    }
    if let Some(tip) = tx.max_priority_fee_per_gas {
        if tip > tx.max_fee_per_gas {
            return Err(TxRejection::FeeOrdering);
        }
    }
    if tx.max_fee_per_gas == 0 {
        return Err(TxRejection::GasPrice);
    }
    if check_cost(tx) {
        return Err(TxRejection::CostOverflow);
    }
    if tx.nonce == u64::MAX {
        return Err(TxRejection::Nonce);
    }
    if tx.is_create {
        return Err(TxRejection::ContractCreation);
    }
    Ok(())
}

/// Whether a transaction breaks the rule that a refusal names.
pub open spec fn breaks(
    config: StatelessValidatorConfig,
    tx: TxFields,
    rule: TxRejection,
) -> bool {
    match rule {
        TxRejection::ChainId => tx.chain_id is Some && tx.chain_id != Some(config.chain_id),
        TxRejection::GasLimit => tx.gas_limit < config.min_gas_limit || tx.gas_limit
            > config.max_gas_limit,
        TxRejection::FeeOrdering => tx.max_priority_fee_per_gas matches Some(tip) && tip
            > tx.max_fee_per_gas,
        TxRejection::GasPrice => tx.max_fee_per_gas == 0,
        TxRejection::CostOverflow => tx.value.high * 0x1_0000_0000_0000_0000_0000_0000_0000_0000
            + tx.value.low + tx.gas_limit * tx.max_fee_per_gas
            >= 0x1_0000_0000_0000_0000_0000_0000_0000_0000_0000_0000_0000_0000_0000_0000_0000_0000,
        TxRejection::Nonce => tx.nonce == u64::MAX,
        TxRejection::ContractCreation => tx.is_create,
    }
}

/// A transaction is refused for a rule only where it breaks that rule, and is
/// accepted only where it breaks none.
pub proof fn law_refused_for_a_broken_rule(
    config: StatelessValidatorConfig,
    tx: TxFields,
    rule: TxRejection,
)
    ensures
        rejection(config, tx) == Some(rule) ==> breaks(config, tx, rule),
        rejection(config, tx) is None ==> !breaks(config, tx, rule),
        rejection(config, tx) matches Some(first) ==> breaks(config, tx, first),
{
}

/// A transaction is accepted exactly where it is for the configured chain or names
/// none, its gas limit is within the range, its priority fee does not exceed its
/// fee, its fee is not zero, its value and the cost of its gas fit in 256 bits
/// together, its nonce is not the largest number, and it creates no contract.
pub proof fn law_accepted_iff_no_rule_is_broken(config: StatelessValidatorConfig, tx: TxFields)
    ensures
        rejection(config, tx) is None <==> {
            &&& (tx.chain_id is None || tx.chain_id == Some(config.chain_id))
            &&& config.min_gas_limit <= tx.gas_limit
            &&& tx.gas_limit <= config.max_gas_limit
            &&& (tx.max_priority_fee_per_gas matches Some(tip) ==> tip <= tx.max_fee_per_gas)
            &&& tx.max_fee_per_gas > 0
            &&& tx.value.high * 0x1_0000_0000_0000_0000_0000_0000_0000_0000 + tx.value.low
                + tx.gas_limit * tx.max_fee_per_gas
                < 0x1_0000_0000_0000_0000_0000_0000_0000_0000_0000_0000_0000_0000_0000_0000_0000_0000
            &&& tx.nonce < u64::MAX
            &&& !tx.is_create
        },
{
}

/// A transaction that differs from an accepted one only in a gas limit that lies
/// between two accepted ones is accepted too.
pub proof fn law_gas_limits_between_are_accepted(
    config: StatelessValidatorConfig,
    tx: TxFields,
    low: u64,
    high: u64,
)
    requires
        rejection(config, TxFields { gas_limit: low, ..tx }) is None,
        rejection(config, TxFields { gas_limit: high, ..tx }) is None,
        low <= tx.gas_limit <= high,
    ensures
        rejection(config, tx) is None,
{
    assert(tx.gas_limit * tx.max_fee_per_gas <= high * tx.max_fee_per_gas) by (nonlinear_arith)
        requires
            tx.gas_limit <= high,
            0 <= tx.max_fee_per_gas,
    ;
}

} // verus!
