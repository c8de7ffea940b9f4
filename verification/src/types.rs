//! Data model of the proving pipeline: on-chain records as the node
//! decodes them, and the material a proving task carries.

use vstd::prelude::*;

verus! {

/// Length in bytes of an on-chain account address.
pub const ACCOUNT_ADDRESS_LENGTH: usize = 32;

/// A 32-byte on-chain account identifier.
#[derive(Clone, Debug, PartialEq, Eq)]
pub struct AccountAddress {
    pub bytes: Vec<u8>,
}

impl AccountAddress {
    /// An address is well formed when it holds exactly 32 bytes.
    pub open spec fn wf(&self) -> bool {
        self.bytes@.len() == ACCOUNT_ADDRESS_LENGTH
    }

    /// Builds an address from raw bytes; exactly 32 bytes are accepted.
    pub fn from_bytes(bytes: Vec<u8>) -> (r: Result<AccountAddress, DecodeError>)
        ensures
            bytes@.len() == ACCOUNT_ADDRESS_LENGTH ==> (r matches Ok(a) && a.bytes@ == bytes@
                && a.wf()),
            bytes@.len() != ACCOUNT_ADDRESS_LENGTH ==> (r matches Err(e) && e
                == DecodeError::BadAddressLength),
    {
        if bytes.len() == ACCOUNT_ADDRESS_LENGTH {
            Ok(AccountAddress { bytes })
        } else {
            Err(DecodeError::BadAddressLength)
        }
    }
}

/// A copy of a byte vector, equal to it element for element.
pub fn copy_bytes(src: &Vec<u8>) -> (r: Vec<u8>)
    ensures
        r@ == src@,
{
    let mut out: Vec<u8> = Vec::new();
    let mut i: usize = 0;
    while i < src.len()
        invariant
            0 <= i <= src@.len(),
            out@ =~= src@.subrange(0, i as int),
        decreases src@.len() - i,
    {
        out.push(src[i]);
        proof {
            assert(src@.subrange(0, i + 1) =~= src@.subrange(0, i as int) + seq![src@[i as int]]);
        }
        i = i + 1;
    }
    proof {
        assert(src@.subrange(0, src@.len() as int) =~= src@);
    }
    out
}

/// A copy of a list of byte vectors, equal to it element for element.
pub fn copy_bytes_list(src: &Vec<Vec<u8>>) -> (r: Vec<Vec<u8>>)
    ensures
        r.deep_view() == src.deep_view(),
        r@.len() == src@.len(),
{
    let mut out: Vec<Vec<u8>> = Vec::new();
    let mut i: usize = 0;
    while i < src.len()
        invariant
            0 <= i <= src@.len(),
            out.deep_view() =~= src.deep_view().subrange(0, i as int),
            out@.len() == i,
        decreases src@.len() - i,
    {
        let ghost dprev = out.deep_view();
        let item = copy_bytes(&src[i]);
        proof {
            assert(item.deep_view() =~= src@[i as int].deep_view());
        }
        out.push(item);
        proof {
            assert(out.deep_view() =~= dprev.push(item.deep_view()));
            assert(src.deep_view()[i as int] == src@[i as int].deep_view());
            assert(src.deep_view().subrange(0, i + 1) =~= src.deep_view().subrange(0, i as int)
                + seq![src.deep_view()[i as int]]);
        }
        i = i + 1;
    }
    proof {
        assert(src.deep_view().subrange(0, src.deep_view().len() as int) =~= src.deep_view());
    }
    out
}

/// A copy of a worker outcome, equal to it byte for byte.
pub fn copy_outcome(src: &ProofOutcome) -> (r: ProofOutcome)
    ensures
        r is Ok <==> src is Ok,
        (match (src, r) {
            (Ok(a), Ok(b)) => a@ == b@,
            (Err(a), Err(b)) => a@ == b@,
            _ => true,
        }),
{
    match src {
        Ok(b) => Ok(copy_bytes(b)),
        Err(m) => Err(copy_bytes(m)),
    }
}

/// Why a byte string failed to decode into a record of the data model.
#[derive(Clone, Copy, Debug, PartialEq, Eq, Structural)]
pub enum DecodeError {
    /// The input ended before the record did.
    Truncated,
    /// A length prefix was not in canonical form.
    NonCanonicalLength,
    /// A length prefix exceeded the format's limit.
    LengthOverflow,
    /// An option tag byte was neither 0 nor 1.
    InvalidOptionTag,
    /// A boolean byte was neither 0 nor 1.
    InvalidBool,
    /// Bytes remained after the record's end where none may.
    TrailingBytes,
    /// An account address field did not hold exactly 32 bytes.
    BadAddressLength,
}

/// Mathematical image of a `Query`.
#[verifier::ext_equal]
pub ghost struct QueryS {
    pub module_address: Seq<u8>,
    pub module_name: Seq<u8>,
    pub function_name: Seq<u8>,
    pub deadline: u64,
    pub args: Seq<Seq<u8>>,
    pub ty_args: Seq<Seq<u8>>,
    pub success: Option<bool>,
    pub result: Option<Seq<u8>>,
}

/// On-chain query record, as stored in the contract's query table.
#[derive(Clone, Debug, PartialEq, Eq)]
pub struct Query {
    pub module_address: Vec<u8>,
    pub module_name: Vec<u8>,
    pub function_name: Vec<u8>,
    pub deadline: u64,
    pub args: Vec<Vec<u8>>,
    pub ty_args: Vec<Vec<u8>>,
    pub success: Option<bool>,
    pub result: Option<Vec<u8>>,
}

impl Query {
    /// A copy of this record, equal to it field for field.
    pub fn duplicate(&self) -> (r: Query)
        ensures
            r@ == self@,
    {
        Query {
            module_address: copy_bytes(&self.module_address),
            module_name: copy_bytes(&self.module_name),
            function_name: copy_bytes(&self.function_name),
            deadline: self.deadline,
            args: copy_bytes_list(&self.args),
            ty_args: copy_bytes_list(&self.ty_args),
            success: self.success,
            result: (match &self.result {
                Some(b) => Some(copy_bytes(b)),
                None => None,
            }),
        }
    }
}

impl View for Query {
    type V = QueryS;

    open spec fn view(&self) -> QueryS {
        QueryS {
            module_address: self.module_address@,
            module_name: self.module_name@,
            function_name: self.function_name@,
            deadline: self.deadline,
            args: self.args.deep_view(),
            ty_args: self.ty_args.deep_view(),
            success: self.success,
            result: (match self.result {
                Some(b) => Some(b@),
                None => None,
            }),
        }
    }
}

/// Mathematical image of a `NewQueryEvent`.
#[verifier::ext_equal]
pub ghost struct NewQueryEventS {
    pub user: Seq<u8>,
    pub id: u64,
}

/// Event the contract emits when a user submits a query.
#[derive(Clone, Debug, PartialEq, Eq)]
pub struct NewQueryEvent {
    pub user: AccountAddress,
    pub id: u64,
}

impl View for NewQueryEvent {
    type V = NewQueryEventS;

    open spec fn view(&self) -> NewQueryEventS {
        NewQueryEventS { user: self.user.bytes@, id: self.id }
    }
}

/// Mathematical image of a `Queries` resource: the counter, the table
/// handle, and the table length.
#[verifier::ext_equal]
pub ghost struct QueriesS {
    pub query_counter: u64,
    pub handle: Seq<u8>,
    pub length: u64,
}

/// Handle of an on-chain table.
#[derive(Clone, Debug, PartialEq, Eq)]
pub struct Table {
    pub handle: AccountAddress,
}

/// An on-chain table together with its length.
#[derive(Clone, Debug, PartialEq, Eq)]
pub struct TableWithLength {
    pub inner: Table,
    pub length: u64,
}

/// The contract resource that indexes all submitted queries.
#[derive(Clone, Debug, PartialEq, Eq)]
pub struct Queries {
    pub query_counter: u64,
    pub queries: TableWithLength,
}

impl View for Queries {
    type V = QueriesS;

    open spec fn view(&self) -> QueriesS {
        QueriesS {
            query_counter: self.query_counter,
            handle: self.queries.inner.handle.bytes@,
            length: self.queries.length,
        }
    }
}

/// Mathematical image of a `UserQuery`.
#[verifier::ext_equal]
pub ghost struct UserQueryS {
    pub version: u64,
    pub sequence_number: u64,
    pub user: Seq<u8>,
    pub id: u64,
    pub query: QueryS,
}

/// A fully resolved query: the on-chain record together with the event
/// position and the ledger version the reads were pinned to.
/// Its identity throughout the pipeline is `sequence_number`.
#[derive(Clone, Debug, PartialEq, Eq)]
pub struct UserQuery {
    /// Ledger version at which the query event was observed.
    pub version: u64,
    /// Position of the event on its handle; the pipeline's primary key.
    pub sequence_number: u64,
    pub user: AccountAddress,
    pub id: u64,
    pub query: Query,
}

impl UserQuery {
    /// A copy of this record, equal to it field for field.
    pub fn duplicate(&self) -> (r: UserQuery)
        ensures
            r@ == self@,
            r.sequence_number == self.sequence_number,
    {
        UserQuery {
            version: self.version,
            sequence_number: self.sequence_number,
            user: AccountAddress { bytes: copy_bytes(&self.user.bytes) },
            id: self.id,
            query: self.query.duplicate(),
        }
    }
}

impl View for UserQuery {
    type V = UserQueryS;

    open spec fn view(&self) -> UserQueryS {
        UserQueryS {
            version: self.version,
            sequence_number: self.sequence_number,
            user: self.user.bytes@,
            id: self.id,
            query: self.query@,
        }
    }
}

/// Per-function verification material registered on-chain: serialized
/// circuit sizing, the verifying key bytes (with a trailing
/// little-endian u16 entry-function index appended), and the serialized
/// setup parameter.
#[derive(Clone, Debug, PartialEq, Eq)]
pub struct VerificationParameters {
    pub config: Vec<u8>,
    pub vk: Vec<u8>,
    pub param: Vec<u8>,
}

impl VerificationParameters {
    pub fn new(config: Vec<u8>, vk: Vec<u8>, param: Vec<u8>) -> (r: VerificationParameters)
        ensures
            r.config@ == config@,
            r.vk@ == vk@,
            r.param@ == param@,
    {
        VerificationParameters { config, vk, param }
    }
}

/// The same verification material, as the resolver hands it out.
#[derive(Clone, Debug, PartialEq, Eq)]
pub struct EntryFunctionZkParameters {
    pub config: Vec<u8>,
    pub vk: Vec<u8>,
    pub param: Vec<u8>,
}

/// One unit of proving work: a resolved query, the module bytes it
/// targets (the target module and any dependencies), and the
/// verification material for its entry function.
#[derive(Clone, Debug, PartialEq, Eq)]
pub struct ProveTask {
    pub query: UserQuery,
    pub modules: Vec<Vec<u8>>,
    pub vp: VerificationParameters,
}

/// Durable outcome of proving one query. On success `result` holds the
/// proof bytes; on failure it holds the UTF-8 root-cause message.
/// `submitted` is false until the proof goes on-chain, which this core
/// never does.
#[derive(Clone, Debug, PartialEq, Eq)]
pub struct UserQueryProvingResult {
    pub success: bool,
    pub result: Vec<u8>,
    pub submitted: bool,
}

/// Mathematical image of a `UserQueryProvingResult`.
#[verifier::ext_equal]
pub ghost struct UserQueryProvingResultS {
    pub success: bool,
    pub result: Seq<u8>,
    pub submitted: bool,
}

impl View for UserQueryProvingResult {
    type V = UserQueryProvingResultS;

    open spec fn view(&self) -> UserQueryProvingResultS {
        UserQueryProvingResultS {
            success: self.success,
            result: self.result@,
            submitted: self.submitted,
        }
    }
}

/// Outcome a prover worker reports for one task: proof bytes, or the
/// failure message as bytes.
pub type ProofOutcome = Result<Vec<u8>, Vec<u8>>;

impl UserQueryProvingResult {
    /// Wraps a worker outcome into its durable form: the success flag,
    /// the proof bytes or the failure message, and `submitted` false.
    pub fn from_outcome(outcome: ProofOutcome) -> (r: UserQueryProvingResult)
        ensures
            r.success == outcome is Ok,
            r.result@ == (match outcome {
                Ok(proof) => proof@,
                Err(message) => message@,
            }),
            !r.submitted,
    {
        match outcome {
            Ok(proof) => UserQueryProvingResult { success: true, result: proof, submitted: false },
            Err(message) => UserQueryProvingResult {
                success: false,
                result: message,
                submitted: false,
            },
        }
    }
}

/// Circuit sizing knobs for the zk virtual machine, each optional.
#[derive(Clone, Copy, Debug, PartialEq, Eq)]
pub struct CircuitConfig {
    pub max_step_row: Option<usize>,
    pub stack_ops_num: Option<usize>,
    pub locals_ops_num: Option<usize>,
    pub global_ops_num: Option<usize>,
    pub max_frame_index: Option<usize>,
    pub max_locals_size: Option<usize>,
    pub max_stack_size: Option<usize>,
    pub word_size: Option<usize>,
}

impl Default for CircuitConfig {
    /// The empty configuration: every knob left to the circuit's default.
    fn default() -> (r: CircuitConfig)
        ensures
            r.max_step_row is None,
            r.stack_ops_num is None,
            r.locals_ops_num is None,
            r.global_ops_num is None,
            r.max_frame_index is None,
            r.max_locals_size is None,
            r.max_stack_size is None,
            r.word_size is None,
    {
        CircuitConfig {
            max_step_row: None,
            stack_ops_num: None,
            locals_ops_num: None,
            global_ops_num: None,
            max_frame_index: None,
            max_locals_size: None,
            max_stack_size: None,
            word_size: None,
        }
    }
}

/// Per-entry-function section of a package manifest: circuit sizing
/// knobs and the demonstration-run arguments, all as written in the
/// manifest.
#[derive(Clone, Debug, PartialEq, Eq)]
pub struct CircuitTomlConfig {
    pub max_step_row: Option<usize>,
    pub stack_ops_num: Option<usize>,
    pub locals_ops_num: Option<usize>,
    pub global_ops_num: Option<usize>,
    pub max_frame_index: Option<usize>,
    pub max_locals_size: Option<usize>,
    pub max_stack_size: Option<usize>,
    pub word_size: Option<usize>,
    pub args: Option<Vec<String>>,
    pub ty_args: Option<Vec<String>>,
}

/// Demonstration-run arguments for key generation, kept as textual
/// transaction-argument and type-tag literals.
#[derive(Clone, Debug, PartialEq, Eq)]
pub struct DemoRunConfig {
    pub args: Option<Vec<String>>,
    pub ty_args: Option<Vec<String>>,
}

/// Everything key generation needs for one entry function: where it
/// lives, the demonstration run, and the circuit sizing.
#[derive(Clone, Debug, PartialEq, Eq)]
pub struct EntryFunctionConfig {
    pub entry_module_address: AccountAddress,
    pub entry_module_name: Vec<u8>,
    pub entry_function: Vec<u8>,
    pub demo_run_config: DemoRunConfig,
    pub circuit_config: CircuitConfig,
}

} // verus!
