//! Witness-input preparation: the checks and conversions that stand
//! between a resolved query and the proving engine.
//!
//! The engine executes the entry function and builds the execution
//! trace outside this library; what it must be handed — a well-formed
//! module address and identifiers, and the query's textual argument
//! literals — is validated and assembled here, exactly.

use vstd::prelude::*;
use crate::types::AccountAddress;
use crate::types::ACCOUNT_ADDRESS_LENGTH;
use crate::types::UserQuery;
use crate::types::copy_bytes;
use crate::types::copy_bytes_list;

verus! {

/// Why a query could not be turned into engine input. The outcome is
/// recorded as that query's failed proving result; the pipeline goes
/// on.
#[derive(Clone, Copy, Debug, PartialEq, Eq, Structural)]
pub enum WitnessError {
    /// The query's module address is not exactly 32 bytes.
    BadAddressLength,
    /// The query's module name is not a valid identifier.
    BadModuleName,
    /// The query's function name is not a valid identifier.
    BadFunctionName,
}

/// Whether `b` may start an identifier: a letter or an underscore.
pub open spec fn ident_start(b: u8) -> bool {
    (65 <= b <= 90) || (97 <= b <= 122) || b == 95
}

/// Whether `b` may continue an identifier: a letter, a digit, or an
/// underscore.
pub open spec fn ident_continue(b: u8) -> bool {
    ident_start(b) || (48 <= b <= 57)
}

/// A valid identifier: nonempty, starting with a letter or
/// underscore, continuing with letters, digits and underscores, and
/// not the bare wildcard `_`.
pub open spec fn is_ident(s: Seq<u8>) -> bool {
    &&& s.len() > 0
    &&& ident_start(s[0])
    &&& (forall|i: int| 0 < i < s.len() ==> ident_continue(#[trigger] s[i]))
    &&& !(s =~= seq![95u8])
}

/// Checks that a byte string is a valid identifier.
pub fn check_ident(s: &Vec<u8>) -> (r: bool)
    ensures
        r == is_ident(s@),
{
    if s.len() == 0 {
        return false;
    }
    let b0 = s[0];
    if !((65 <= b0 && b0 <= 90) || (97 <= b0 && b0 <= 122) || b0 == 95) {
        return false;
    }
    if s.len() == 1 && b0 == 95 {
        proof {
            assert(s@ =~= seq![95u8]);
        }
        return false;
    }
    let mut i: usize = 1;
    while i < s.len()
        invariant
            1 <= i <= s@.len(),
            forall|j: int| 0 < j < i ==> ident_continue(#[trigger] s@[j]),
        decreases s@.len() - i,
    {
        let b = s[i];
        if !((65 <= b && b <= 90) || (97 <= b && b <= 122) || b == 95 || (48 <= b && b <= 57)) {
            return false;
        }
        i = i + 1;
    }
    proof {
        if s@ =~= seq![95u8] {
            assert(s@.len() == 1 && s@[0] == 95);
        }
    }
    true
}

/// Everything the proving engine needs to execute the query's entry
/// function and build its witness: the validated module identity and
/// function name, and the textual argument literals as submitted.
#[derive(Clone, Debug, PartialEq, Eq)]
pub struct WitnessInput {
    pub entry_module_address: AccountAddress,
    pub entry_module_name: Vec<u8>,
    pub entry_function_name: Vec<u8>,
    pub ty_args: Vec<Vec<u8>>,
    pub args: Vec<Vec<u8>>,
}

/// Validates a resolved query and assembles the engine's input: the
/// module address must be exactly 32 bytes and both names valid
/// identifiers; the argument literals pass through unchanged. Each
/// check failing names its field, the address checked first, then the
/// module name, then the function name.
pub fn prepare_witness_input(query: &UserQuery) -> (r: Result<WitnessInput, WitnessError>)
    ensures
        query.query.module_address@.len() != ACCOUNT_ADDRESS_LENGTH ==> (r matches Err(e) && e
            == WitnessError::BadAddressLength),
        query.query.module_address@.len() == ACCOUNT_ADDRESS_LENGTH && !is_ident(
            query.query.module_name@,
        ) ==> (r matches Err(e) && e == WitnessError::BadModuleName),
        query.query.module_address@.len() == ACCOUNT_ADDRESS_LENGTH && is_ident(
            query.query.module_name@,
        ) && !is_ident(query.query.function_name@) ==> (r matches Err(e) && e
            == WitnessError::BadFunctionName),
        query.query.module_address@.len() == ACCOUNT_ADDRESS_LENGTH && is_ident(
            query.query.module_name@,
        ) && is_ident(query.query.function_name@) ==> (r matches Ok(w) && {
            &&& w.entry_module_address.bytes@ == query.query.module_address@
            &&& w.entry_module_address.wf()
            &&& w.entry_module_name@ == query.query.module_name@
            &&& w.entry_function_name@ == query.query.function_name@
            &&& w.ty_args.deep_view() == query.query.ty_args.deep_view()
            &&& w.args.deep_view() == query.query.args.deep_view()
        }),
{
    if query.query.module_address.len() != ACCOUNT_ADDRESS_LENGTH {
        return Err(WitnessError::BadAddressLength);
    }
    if !check_ident(&query.query.module_name) {
        return Err(WitnessError::BadModuleName);
    }
    if !check_ident(&query.query.function_name) {
        return Err(WitnessError::BadFunctionName);
    }
    Ok(
        WitnessInput {
            entry_module_address: AccountAddress {
                bytes: copy_bytes(&query.query.module_address),
            },
            entry_module_name: copy_bytes(&query.query.module_name),
            entry_function_name: copy_bytes(&query.query.function_name),
            ty_args: copy_bytes_list(&query.query.ty_args),
            args: copy_bytes_list(&query.query.args),
        },
    )
}

} // verus!
