//! Package-manifest circuit configuration: turning the per-function
//! sections of a manifest into key-generation configs.
//!
//! The manifest itself is read and parsed outside; this module takes
//! the plain sections — keyed by `alias::module::function` — splits
//! each key, resolves the alias against the package's address table,
//! and assembles the `EntryFunctionConfig` records key generation
//! runs on.

use vstd::prelude::*;
use crate::resolver::vec_bytes_eq;
use crate::types::AccountAddress;
use crate::types::CircuitConfig;
use crate::types::CircuitTomlConfig;
use crate::types::DemoRunConfig;
use crate::types::EntryFunctionConfig;
use crate::types::copy_bytes;

verus! {

/// Why a manifest section was rejected.
#[derive(Clone, Copy, Debug, PartialEq, Eq, Structural)]
pub enum ConfigError {
    /// The section key does not have the `alias::module::function`
    /// shape.
    BadFunctionId,
    /// The key's address alias is not in the package's address table.
    UnknownAddress,
}

/// Whether a `::` separator starts at position `i` of `s`.
pub open spec fn sep_at(s: Seq<u8>, i: int) -> bool {
    0 <= i && i + 2 <= s.len() && s[i] == 58 && s[i + 1] == 58
}

/// Splits `alias::module::function` into its three parts: at the first
/// separator, then at the first separator after that; the function
/// part keeps any further separators. Fails exactly when the key has
/// fewer than two separators.
pub fn split_function_id(key: &Vec<u8>) -> (r: Result<(Vec<u8>, Vec<u8>, Vec<u8>), ConfigError>)
    ensures
        match r {
            Ok(parts) => exists|i: int, j: int|
                {
                    &&& #[trigger] sep_at(key@, i)
                    &&& #[trigger] sep_at(key@, j)
                    &&& i + 2 <= j
                    &&& (forall|k: int| 0 <= k < i ==> !sep_at(key@, k))
                    &&& (forall|k: int| i + 2 <= k < j ==> !sep_at(key@, k))
                    &&& parts.0@ == key@.subrange(0, i)
                    &&& parts.1@ == key@.subrange(i + 2, j)
                    &&& parts.2@ == key@.subrange(j + 2, key@.len() as int)
                },
            Err(e) => e == ConfigError::BadFunctionId && !(exists|i: int, j: int|
                #[trigger] sep_at(key@, i) && #[trigger] sep_at(key@, j) && i + 2 <= j),
        },
{
    let n = key.len();
    let mut first: usize = 0;
    let mut found_first = false;
    let mut i: usize = 0;
    while !found_first && n >= 2 && i <= n - 2
        invariant
            0 <= i,
            i <= n,
            n == key@.len(),
            i + 2 <= n + 2,
            !found_first ==> forall|k: int| 0 <= k < i ==> !sep_at(key@, k),
            found_first ==> sep_at(key@, first as int) && (forall|k: int|
                0 <= k < first ==> !sep_at(key@, k)),
        decreases n - i + (if found_first {
            0int
        } else {
            1int
        }),
    {
        if key[i] == 58 && key[i + 1] == 58 {
            first = i;
            found_first = true;
        } else {
            i = i + 1;
        }
    }
    if !found_first {
        proof {
            assert forall|a: int, b: int|
                !(#[trigger] sep_at(key@, a) && #[trigger] sep_at(key@, b) && a + 2 <= b) by {
                if sep_at(key@, a) {
                    assert(a + 2 <= n);
                    assert(!sep_at(key@, a));
                }
            }
        }
        return Err(ConfigError::BadFunctionId);
    }
    let mut second: usize = 0;
    let mut found_second = false;
    let mut j: usize = first + 2;
    while !found_second && n >= 2 && j <= n - 2
        invariant
            first + 2 <= j,
            j <= n + 2,
            n == key@.len(),
            sep_at(key@, first as int),
            forall|k: int| 0 <= k < first ==> !sep_at(key@, k),
            !found_second ==> forall|k: int| first + 2 <= k < j ==> !sep_at(key@, k),
            found_second ==> sep_at(key@, second as int) && first + 2 <= second && (forall|
                k: int,
            |
                first + 2 <= k < second ==> !sep_at(key@, k)),
        decreases n + 2 - j + (if found_second {
            0int
        } else {
            1int
        }),
    {
        if key[j] == 58 && key[j + 1] == 58 {
            second = j;
            found_second = true;
        } else {
            j = j + 1;
        }
    }
    if !found_second {
        proof {
            assert forall|a: int, b: int|
                !(#[trigger] sep_at(key@, a) && #[trigger] sep_at(key@, b) && a + 2 <= b) by {
                if sep_at(key@, a) && sep_at(key@, b) && a + 2 <= b {
                    assert(first <= a);
                    assert(first + 2 <= b);
                    assert(!sep_at(key@, b));
                }
            }
        }
        return Err(ConfigError::BadFunctionId);
    }
    let mut alias: Vec<u8> = Vec::new();
    let mut k: usize = 0;
    while k < first
        invariant
            0 <= k <= first,
            first < n == key@.len(),
            alias@ =~= key@.subrange(0, k as int),
        decreases first - k,
    {
        alias.push(key[k]);
        proof {
            assert(key@.subrange(0, k + 1) =~= key@.subrange(0, k as int) + seq![key@[k as int]]);
        }
        k = k + 1;
    }
    let mut module: Vec<u8> = Vec::new();
    let mut k2: usize = first + 2;
    while k2 < second
        invariant
            first + 2 <= k2 <= second,
            second < n == key@.len(),
            module@ =~= key@.subrange(first + 2, k2 as int),
        decreases second - k2,
    {
        module.push(key[k2]);
        proof {
            assert(key@.subrange(first + 2, k2 + 1) =~= key@.subrange(first + 2, k2 as int)
                + seq![key@[k2 as int]]);
        }
        k2 = k2 + 1;
    }
    let mut function: Vec<u8> = Vec::new();
    let mut k3: usize = second + 2;
    while k3 < n
        invariant
            second + 2 <= k3 <= n,
            n == key@.len(),
            function@ =~= key@.subrange(second + 2, k3 as int),
        decreases n - k3,
    {
        function.push(key[k3]);
        proof {
            assert(key@.subrange(second + 2, k3 + 1) =~= key@.subrange(second + 2, k3 as int)
                + seq![key@[k3 as int]]);
        }
        k3 = k3 + 1;
    }
    proof {
        assert(sep_at(key@, first as int) && sep_at(key@, second as int) && first + 2 <= second);
    }
    Ok((alias, module, function))
}

/// The ledger endpoint the node talks to: one of the well-known
/// networks, or a custom URL (validated by whatever opens the
/// connection).
#[derive(Clone, Debug, PartialEq, Eq)]
pub enum AptosBaseUrl {
    Mainnet,
    Devnet,
    Testnet,
    Custom(Vec<u8>),
}

/// ASCII whitespace, as trimmed off an endpoint argument.
pub open spec fn is_space(b: u8) -> bool {
    b == 9 || b == 10 || b == 11 || b == 12 || b == 13 || b == 32
}

/// The ASCII lowercase of one byte.
pub open spec fn lower_byte(b: u8) -> u8 {
    if 65 <= b <= 90 {
        (b + 32) as u8
    } else {
        b
    }
}

/// The ASCII lowercase of a byte string.
pub open spec fn lower_of(s: Seq<u8>) -> Seq<u8> {
    s.map_values(|b: u8| lower_byte(b))
}

/// Checks one byte for ASCII whitespace.
pub fn is_space_byte(b: u8) -> (r: bool)
    ensures
        r == is_space(b),
{
    b == 9 || b == 10 || b == 11 || b == 12 || b == 13 || b == 32
}

/// `s` with ASCII whitespace trimmed off both ends.
pub open spec fn trimmed_is(s: Seq<u8>, lo: int, hi: int) -> bool {
    &&& 0 <= lo <= hi <= s.len()
    &&& (forall|k: int| 0 <= k < lo ==> is_space(#[trigger] s[k]))
    &&& (forall|k: int| hi <= k < s.len() ==> is_space(#[trigger] s[k]))
    &&& (lo < hi ==> !is_space(s[lo]) && !is_space(s[hi - 1]))
}

/// Reads the endpoint argument: after trimming, the names of the three
/// well-known networks (in any letter case) select them; anything
/// else is kept, trimmed but otherwise untouched, as a custom URL.
pub fn parse_aptos_url(rpc: &Vec<u8>) -> (r: AptosBaseUrl)
    ensures
        exists|lo: int, hi: int|
            {
                &&& #[trigger] trimmed_is(rpc@, lo, hi)
                &&& {
                    let t = rpc@.subrange(lo, hi);
                    let l = lower_of(t);
                    if l =~= seq![109u8, 97, 105, 110, 110, 101, 116] {
                        r == AptosBaseUrl::Mainnet
                    } else if l =~= seq![100u8, 101, 118, 110, 101, 116] {
                        r == AptosBaseUrl::Devnet
                    } else if l =~= seq![116u8, 101, 115, 116, 110, 101, 116] {
                        r == AptosBaseUrl::Testnet
                    } else {
                        r matches AptosBaseUrl::Custom(u) && u@ == t
                    }
                }
            },
{
    let n = rpc.len();
    let mut lo: usize = 0;
    while lo < n && is_space_byte(rpc[lo])
        invariant
            0 <= lo <= n,
            n == rpc@.len(),
            forall|k: int| 0 <= k < lo ==> is_space(#[trigger] rpc@[k]),
        decreases n - lo,
    {
        lo = lo + 1;
    }
    let mut hi: usize = n;
    while hi > lo && is_space_byte(rpc[hi - 1])
        invariant
            lo <= hi <= n,
            n == rpc@.len(),
            forall|k: int| 0 <= k < lo ==> is_space(#[trigger] rpc@[k]),
            forall|k: int| hi <= k < n ==> is_space(#[trigger] rpc@[k]),
        decreases hi,
    {
        hi = hi - 1;
    }
    proof {
        assert(trimmed_is(rpc@, lo as int, hi as int));
    }
    let mut trimmed: Vec<u8> = Vec::new();
    let mut lowered: Vec<u8> = Vec::new();
    let mut k: usize = lo;
    while k < hi
        invariant
            lo <= k <= hi <= n,
            n == rpc@.len(),
            trimmed@ =~= rpc@.subrange(lo as int, k as int),
            lowered@ =~= lower_of(rpc@.subrange(lo as int, k as int)),
        decreases hi - k,
    {
        let b = rpc[k];
        trimmed.push(b);
        let low = if 65 <= b && b <= 90 {
            b + 32
        } else {
            b
        };
        lowered.push(low);
        proof {
            assert(rpc@.subrange(lo as int, k + 1) =~= rpc@.subrange(lo as int, k as int) + seq![
                rpc@[k as int],
            ]);
            assert(lower_of(rpc@.subrange(lo as int, k + 1)) =~= lower_of(
                rpc@.subrange(lo as int, k as int),
            ) + seq![lower_byte(rpc@[k as int])]);
        }
        k = k + 1;
    }
    let mainnet: Vec<u8> = vec![109u8, 97, 105, 110, 110, 101, 116];
    let devnet: Vec<u8> = vec![100u8, 101, 118, 110, 101, 116];
    let testnet: Vec<u8> = vec![116u8, 101, 115, 116, 110, 101, 116];
    if vec_bytes_eq(&lowered, &mainnet) {
        AptosBaseUrl::Mainnet
    } else if vec_bytes_eq(&lowered, &devnet) {
        AptosBaseUrl::Devnet
    } else if vec_bytes_eq(&lowered, &testnet) {
        AptosBaseUrl::Testnet
    } else {
        AptosBaseUrl::Custom(trimmed)
    }
}

/// The package's named addresses, as resolved by the build.
pub struct AddressTable {
    pub entries: Vec<(Vec<u8>, AccountAddress)>,
}

/// The first entry of the table carrying `name`, if any.
pub open spec fn first_alias_index(entries: Seq<(Vec<u8>, AccountAddress)>, name: Seq<u8>) -> Option<
    int,
>
    decreases entries.len(),
{
    if entries.len() == 0 {
        None
    } else if entries[0].0@ == name {
        Some(0int)
    } else {
        match first_alias_index(entries.skip(1), name) {
            None => None,
            Some(i) => Some(i + 1),
        }
    }
}

impl AddressTable {
    /// The address a name resolves to: the first entry of that name.
    pub fn resolve(&self, name: &Vec<u8>) -> (r: Option<&AccountAddress>)
        ensures
            match r {
                Some(addr) => first_alias_index(self.entries@, name@) is Some && *addr
                    == self.entries@[first_alias_index(self.entries@, name@)->Some_0].1,
                None => first_alias_index(self.entries@, name@) is None,
            },
    {
        let mut i: usize = 0;
        while i < self.entries.len()
            invariant
                0 <= i <= self.entries@.len(),
                forall|j: int| 0 <= j < i ==> (#[trigger] self.entries@[j]).0@ != name@,
            decreases self.entries@.len() - i,
        {
            if vec_bytes_eq(&self.entries[i].0, name) {
                proof {
                    lemma_first_alias_hit(self.entries@, name@, i as int);
                }
                return Some(&self.entries[i].1);
            }
            i = i + 1;
        }
        proof {
            lemma_first_alias_miss(self.entries@, name@);
        }
        None
    }
}

proof fn lemma_first_alias_hit(
    entries: Seq<(Vec<u8>, AccountAddress)>,
    name: Seq<u8>,
    i: int,
)
    requires
        0 <= i < entries.len(),
        entries[i].0@ == name,
        forall|j: int| 0 <= j < i ==> (#[trigger] entries[j]).0@ != name,
    ensures
        first_alias_index(entries, name) == Some(i),
    decreases i,
{
    if i > 0 {
        assert(entries.skip(1)[i - 1] == entries[i]);
        assert(forall|j: int|
            0 <= j < i - 1 ==> #[trigger] entries.skip(1)[j] == entries[j + 1]);
        lemma_first_alias_hit(entries.skip(1), name, i - 1);
    }
}

proof fn lemma_first_alias_miss(entries: Seq<(Vec<u8>, AccountAddress)>, name: Seq<u8>)
    requires
        forall|j: int| 0 <= j < entries.len() ==> (#[trigger] entries[j]).0@ != name,
    ensures
        first_alias_index(entries, name) is None,
    decreases entries.len(),
{
    if entries.len() > 0 {
        assert(forall|j: int|
            0 <= j < entries.skip(1).len() ==> #[trigger] entries.skip(1)[j] == entries[j + 1]);
        lemma_first_alias_miss(entries.skip(1), name);
    }
}

/// Copies the sizing knobs of a manifest section into a circuit
/// config.
pub fn circuit_config_of(conf: &CircuitTomlConfig) -> (r: CircuitConfig)
    ensures
        r.max_step_row == conf.max_step_row,
        r.stack_ops_num == conf.stack_ops_num,
        r.locals_ops_num == conf.locals_ops_num,
        r.global_ops_num == conf.global_ops_num,
        r.max_frame_index == conf.max_frame_index,
        r.max_locals_size == conf.max_locals_size,
        r.max_stack_size == conf.max_stack_size,
        r.word_size == conf.word_size,
{
    CircuitConfig {
        max_step_row: conf.max_step_row,
        stack_ops_num: conf.stack_ops_num,
        locals_ops_num: conf.locals_ops_num,
        global_ops_num: conf.global_ops_num,
        max_frame_index: conf.max_frame_index,
        max_locals_size: conf.max_locals_size,
        max_stack_size: conf.max_stack_size,
        word_size: conf.word_size,
    }
}

/// Builds the key-generation config for one manifest section: splits
/// its `alias::module::function` key, resolves the alias, and carries
/// the demonstration-run arguments and sizing knobs over unchanged.
pub fn parse_entry_function_section(
    key: &Vec<u8>,
    conf: CircuitTomlConfig,
    addresses: &AddressTable,
) -> (r: Result<EntryFunctionConfig, ConfigError>)
    ensures
        (!(exists|i: int, j: int|
            #[trigger] sep_at(key@, i) && #[trigger] sep_at(key@, j) && i + 2 <= j)) ==> (
        r matches Err(e) && e == ConfigError::BadFunctionId),
        r matches Ok(c) ==> {
            &&& c.demo_run_config.args == conf.args
            &&& c.demo_run_config.ty_args == conf.ty_args
            &&& c.circuit_config.max_step_row == conf.max_step_row
            &&& c.circuit_config.word_size == conf.word_size
            &&& exists|i: int, j: int|
                {
                    &&& #[trigger] sep_at(key@, i)
                    &&& #[trigger] sep_at(key@, j)
                    &&& i + 2 <= j
                    &&& (forall|k: int| 0 <= k < i ==> !sep_at(key@, k))
                    &&& (forall|k: int| i + 2 <= k < j ==> !sep_at(key@, k))
                    &&& c.entry_module_name@ == key@.subrange(i + 2, j)
                    &&& c.entry_function@ == key@.subrange(j + 2, key@.len() as int)
                    &&& first_alias_index(addresses.entries@, key@.subrange(0, i)) is Some
                    &&& c.entry_module_address.bytes@ == addresses.entries@[first_alias_index(
                        addresses.entries@,
                        key@.subrange(0, i),
                    )->Some_0].1.bytes@
                }
        },
{
    let (alias, module, function) = match split_function_id(key) {
        Ok(parts) => parts,
        Err(e) => {
            return Err(e);
        },
    };
    let address = match addresses.resolve(&alias) {
        Some(addr) => AccountAddress { bytes: copy_bytes(&addr.bytes) },
        None => {
            return Err(ConfigError::UnknownAddress);
        },
    };
    let circuit_config = circuit_config_of(&conf);
    Ok(
        EntryFunctionConfig {
            entry_module_address: address,
            entry_module_name: module,
            entry_function: function,
            demo_run_config: DemoRunConfig { args: conf.args, ty_args: conf.ty_args },
            circuit_config,
        },
    )
}

} // verus!
