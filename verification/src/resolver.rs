//! Module and verification-key resolution for a query: locating the
//! entry function inside the target module and assembling the view
//! requests and responses that fetch its verification material.
//!
//! The ledger's view calls themselves are performed by the surrounding
//! application; this module builds each request (byte arguments as
//! hex-prefixed strings, the function index as a number) and turns the
//! responses into `EntryFunctionZkParameters`, exactly.

use vstd::prelude::*;
use crate::codec::le_bytes;
use crate::codec::encode_u16_le;
use crate::codec::push_all;
use crate::types::EntryFunctionZkParameters;

verus! {

/// Name of the on-chain registry module whose view functions serve
/// module bytes and verification material.
pub const AGGER_REGISTRY_MODULE_NAME: &'static str = "registry";

/// Why resolving a query's verification material failed. Each failure
/// is fatal for that query only.
#[derive(Clone, Copy, Debug, PartialEq, Eq, Structural)]
pub enum ResolveError {
    /// The registry has no module under the query's address and name.
    ModuleNotFound,
    /// The module has no function definition named by the query.
    FunctionNotFound,
    /// The circuit-config view returned no value.
    MissingConfig,
    /// The verifying-key view returned no value.
    MissingVk,
    /// The setup-parameter view returned no value.
    MissingParam,
}

/// The registry view functions the resolver invokes.
#[derive(Clone, Copy, Debug, PartialEq, Eq, Structural)]
pub enum ViewFunction {
    GetModule,
    GetConfig,
    GetVk,
    GetParam,
}

/// One argument of a view call: module bytes as a hex-prefixed string,
/// or the entry-function index as a number.
#[derive(Clone, Debug, PartialEq, Eq)]
pub enum ViewArg {
    Hex(String),
    Index(u16),
}

/// A read-only call against the registry module at a pinned version.
#[derive(Clone, Debug, PartialEq, Eq)]
pub struct ViewRequest {
    pub function: ViewFunction,
    pub args: Vec<ViewArg>,
}

/// The lowercase hex digit for a value below 16.
pub open spec fn hex_digit(n: u8) -> char {
    if n < 10 {
        (48 + n) as char
    } else {
        (87 + n) as char
    }
}

/// The lowercase hex form of a byte string, two digits per byte.
pub open spec fn hex_of(s: Seq<u8>) -> Seq<char>
    decreases s.len(),
{
    if s.len() == 0 {
        Seq::empty()
    } else {
        seq![hex_digit(s[0] / 16), hex_digit(s[0] % 16)] + hex_of(s.skip(1))
    }
}

/// The hex-prefixed string form of a byte argument, as the on-chain
/// view convention wants it.
pub open spec fn hex_literal_of(s: Seq<u8>) -> Seq<char> {
    seq!['0', 'x'] + hex_of(s)
}

/// Relies on hex::encode: two lowercase hex digits for each input
/// byte, in order; the prefix is literal.
#[verifier::external_body]
fn hex_arg_string(bytes: &Vec<u8>) -> (r: String)
    ensures
        r@ == hex_literal_of(bytes@),
{
    let mut out = String::from("0x");
    out.push_str(&hex::encode(bytes));
    out
}

/// The hex-prefixed argument for a byte string.
pub fn hex_arg(bytes: &Vec<u8>) -> (r: ViewArg)
    ensures
        r matches ViewArg::Hex(s) && s@ == hex_literal_of(bytes@),
{
    ViewArg::Hex(hex_arg_string(bytes))
}

/// The view request that fetches a module's bytes: `get_module` with
/// the address and name as hex literals.
pub fn build_get_module_request(module_address: &Vec<u8>, module_name: &Vec<u8>) -> (r:
    ViewRequest)
    ensures
        r.function is GetModule,
        r.args@.len() == 2,
        r.args@[0] matches ViewArg::Hex(s) && s@ == hex_literal_of(module_address@),
        r.args@[1] matches ViewArg::Hex(s) && s@ == hex_literal_of(module_name@),
{
    let mut args: Vec<ViewArg> = Vec::new();
    args.push(hex_arg(module_address));
    args.push(hex_arg(module_name));
    ViewRequest { function: ViewFunction::GetModule, args }
}

/// One of the three material requests: the named view function with
/// the address, the name, and the entry-function index.
pub fn build_material_request(
    function: ViewFunction,
    module_address: &Vec<u8>,
    module_name: &Vec<u8>,
    function_index: u16,
) -> (r: ViewRequest)
    ensures
        r.function == function,
        r.args@.len() == 3,
        r.args@[0] matches ViewArg::Hex(s) && s@ == hex_literal_of(module_address@),
        r.args@[1] matches ViewArg::Hex(s) && s@ == hex_literal_of(module_name@),
        r.args@[2] matches ViewArg::Index(i) && i == function_index,
{
    let mut args: Vec<ViewArg> = Vec::new();
    args.push(hex_arg(module_address));
    args.push(hex_arg(module_name));
    args.push(ViewArg::Index(function_index));
    ViewRequest { function, args }
}

/// The three requests that fetch an entry function's verification
/// material, issued together at one version: its circuit config, its
/// verifying key, and its setup parameter.
pub fn build_material_requests(
    module_address: &Vec<u8>,
    module_name: &Vec<u8>,
    function_index: u16,
) -> (r: (ViewRequest, ViewRequest, ViewRequest))
    ensures
        r.0.function is GetConfig && r.1.function is GetVk && r.2.function is GetParam,
        forall|a: Seq<ViewArg>|
            (a == r.0.args@ || a == r.1.args@ || a == r.2.args@) ==> a.len() == 3 && (
            #[trigger] a[0] matches ViewArg::Hex(s) && s@ == hex_literal_of(module_address@)) && (
            a[1] matches ViewArg::Hex(s) && s@ == hex_literal_of(module_name@)) && (
            a[2] matches ViewArg::Index(i) && i == function_index),
{
    let config = build_material_request(
        ViewFunction::GetConfig,
        module_address,
        module_name,
        function_index,
    );
    let vk = build_material_request(
        ViewFunction::GetVk,
        module_address,
        module_name,
        function_index,
    );
    let param = build_material_request(
        ViewFunction::GetParam,
        module_address,
        module_name,
        function_index,
    );
    (config, vk, param)
}

/// The first position of `name` among a module's function
/// definitions, if any.
pub open spec fn first_def_index(defs: Seq<Seq<u8>>, name: Seq<u8>) -> Option<int>
    decreases defs.len(),
{
    if defs.len() == 0 {
        None
    } else if defs[0] == name {
        Some(0int)
    } else {
        match first_def_index(defs.skip(1), name) {
            None => None,
            Some(i) => Some(i + 1),
        }
    }
}

/// Locates the entry function inside the module: the 0-based index of
/// the first function definition whose name equals `name`. The binary
/// format keeps such indices within u16.
pub fn find_function_index(defs: &Vec<Vec<u8>>, name: &Vec<u8>) -> (r: Option<u16>)
    requires
        defs@.len() <= 0x1_0000,
    ensures
        match r {
            Some(i) => first_def_index(defs.deep_view(), name@) == Some(i as int),
            None => first_def_index(defs.deep_view(), name@) is None,
        },
{
    let ghost dv = defs.deep_view();
    let mut i: usize = 0;
    while i < defs.len()
        invariant
            0 <= i <= defs@.len(),
            defs@.len() <= 0x1_0000,
            dv == defs.deep_view(),
            dv.len() == defs@.len(),
            forall|j: int| 0 <= j < i ==> dv[j] != name@,
            forall|j: int| 0 <= j < dv.len() ==> dv[j] == defs@[j]@,
        decreases defs@.len() - i,
    {
        if vec_bytes_eq(&defs[i], name) {
            proof {
                lemma_first_def_index_hit(dv, name@, i as int);
            }
            return Some(i as u16);
        }
        i = i + 1;
    }
    proof {
        lemma_first_def_index_miss(dv, name@);
    }
    None
}

/// Whether two byte vectors hold the same bytes.
pub fn vec_bytes_eq(a: &Vec<u8>, b: &Vec<u8>) -> (r: bool)
    ensures
        r == (a@ == b@),
{
    if a.len() != b.len() {
        proof {
            assert(a@.len() != b@.len());
        }
        return false;
    }
    let mut i: usize = 0;
    while i < a.len()
        invariant
            0 <= i <= a@.len(),
            a@.len() == b@.len(),
            forall|j: int| 0 <= j < i ==> a@[j] == b@[j],
        decreases a@.len() - i,
    {
        if a[i] != b[i] {
            return false;
        }
        i = i + 1;
    }
    proof {
        assert(a@ =~= b@);
    }
    true
}

proof fn lemma_first_def_index_hit(defs: Seq<Seq<u8>>, name: Seq<u8>, i: int)
    requires
        0 <= i < defs.len(),
        defs[i] == name,
        forall|j: int| 0 <= j < i ==> defs[j] != name,
    ensures
        first_def_index(defs, name) == Some(i),
    decreases i,
{
    if i == 0 {
    } else {
        assert(defs[0] != name);
        assert(defs.skip(1)[i - 1] == defs[i]);
        assert(forall|j: int| 0 <= j < i - 1 ==> #[trigger] defs.skip(1)[j] == defs[j + 1]);
        lemma_first_def_index_hit(defs.skip(1), name, i - 1);
    }
}

proof fn lemma_first_def_index_miss(defs: Seq<Seq<u8>>, name: Seq<u8>)
    requires
        forall|j: int| 0 <= j < defs.len() ==> defs[j] != name,
    ensures
        first_def_index(defs, name) is None,
    decreases defs.len(),
{
    if defs.len() > 0 {
        assert(forall|j: int|
            0 <= j < defs.skip(1).len() ==> #[trigger] defs.skip(1)[j] == defs[j + 1]);
        lemma_first_def_index_miss(defs.skip(1), name);
    }
}

/// Locates the entry function or reports that the module lacks it:
/// the resolver's step between the module view and the material
/// views.
pub fn locate_entry_function(defs: &Vec<Vec<u8>>, name: &Vec<u8>) -> (r: Result<
    u16,
    ResolveError,
>)
    requires
        defs@.len() <= 0x1_0000,
    ensures
        match r {
            Ok(i) => first_def_index(defs.deep_view(), name@) == Some(i as int),
            Err(e) => e == ResolveError::FunctionNotFound && first_def_index(
                defs.deep_view(),
                name@,
            ) is None,
        },
{
    match find_function_index(defs, name) {
        Some(i) => Ok(i),
        None => Err(ResolveError::FunctionNotFound),
    }
}

/// Appends the entry function's index to the verifying key, as two
/// little-endian bytes: the on-chain verifier reads the index back
/// from the key's tail.
pub fn extend_vk_with_func_info(vk: &mut Vec<u8>, entry_function_index: u16)
    ensures
        final(vk)@ == old(vk)@ + le_bytes(entry_function_index as nat, 2),
{
    let tail = encode_u16_le(entry_function_index);
    push_all(vk, &tail);
}

/// Splits an extended verifying key back into the key bytes and the
/// entry-function index: defined exactly on keys of at least two
/// bytes.
pub fn split_vk(vk: &Vec<u8>) -> (r: Option<(Vec<u8>, u16)>)
    ensures
        vk@.len() >= 2 ==> (r matches Some((body, i)) && body@ == vk@.take(vk@.len() - 2)
            && le_bytes(i as nat, 2) == vk@.skip(vk@.len() - 2)),
        vk@.len() < 2 ==> r is None,
{
    let n = vk.len();
    if n < 2 {
        return None;
    }
    let lo = vk[n - 2];
    let hi = vk[n - 1];
    let index = lo as u16 + 256 * (hi as u16);
    let mut body: Vec<u8> = Vec::new();
    let mut i: usize = 0;
    while i < n - 2
        invariant
            0 <= i <= n - 2,
            n == vk@.len(),
            body@ =~= vk@.subrange(0, i as int),
        decreases n - 2 - i,
    {
        body.push(vk[i]);
        proof {
            assert(vk@.subrange(0, i + 1) =~= vk@.subrange(0, i as int) + seq![vk@[i as int]]);
        }
        i = i + 1;
    }
    proof {
        assert(body@ =~= vk@.take(vk@.len() - 2));
        assert(le_bytes(index as nat, 2) =~= seq![(index as nat % 256) as u8] + le_bytes(
            index as nat / 256,
            1,
        ));
        assert(le_bytes(index as nat / 256, 1) =~= seq![(index as nat / 256 % 256) as u8]
            + le_bytes(index as nat / 256 / 256, 0));
        assert(index as nat % 256 == lo && index as nat / 256 == hi) by (nonlinear_arith)
            requires
                index == lo as u16 + 256 * (hi as u16),
                lo < 256,
                hi < 256,
        ;
        assert(le_bytes(index as nat, 2) =~= vk@.skip(vk@.len() - 2));
    }
    Some((body, index))
}

/// Turns the module view's response into the module bytes, or the
/// error that the registry has no such module.
pub fn module_response(response: Option<Vec<u8>>) -> (r: Result<Vec<u8>, ResolveError>)
    ensures
        match response {
            Some(bytes) => r matches Ok(b) && b@ == bytes@,
            None => (r matches Err(e) && e == ResolveError::ModuleNotFound),
        },
{
    match response {
        Some(bytes) => Ok(bytes),
        None => Err(ResolveError::ModuleNotFound),
    }
}

/// Assembles the three material responses into the query's
/// verification parameters; a missing value names the view that
/// failed, the config checked first, then the key, then the
/// parameter.
pub fn finalize_vp(
    config: Option<Vec<u8>>,
    vk: Option<Vec<u8>>,
    param: Option<Vec<u8>>,
) -> (r: Result<EntryFunctionZkParameters, ResolveError>)
    ensures
        config is None ==> (r matches Err(e) && e == ResolveError::MissingConfig),
        config is Some && vk is None ==> (r matches Err(e) && e == ResolveError::MissingVk),
        config is Some && vk is Some && param is None ==> (r matches Err(e) && e
            == ResolveError::MissingParam),
        (match (config, vk, param) {
            (Some(c), Some(k), Some(p)) => r matches Ok(vp) && vp.config@ == c@ && vp.vk@ == k@
                && vp.param@ == p@,
            _ => true,
        }),
{
    let config = match config {
        Some(c) => c,
        None => {
            return Err(ResolveError::MissingConfig);
        },
    };
    let vk = match vk {
        Some(k) => k,
        None => {
            return Err(ResolveError::MissingVk);
        },
    };
    let param = match param {
        Some(p) => p,
        None => {
            return Err(ResolveError::MissingParam);
        },
    };
    Ok(EntryFunctionZkParameters { config, vk, param })
}

} // verus!
