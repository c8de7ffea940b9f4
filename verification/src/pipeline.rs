//! The orchestrator's core: where ingestion resumes after a restart,
//! and what one full pass of the pipeline writes to the store.
//!
//! `run_pipeline` threads the verified pieces together over models of
//! the ledger, the on-chain registry and the prover: for every event
//! the ledger exposes from the resume point on, it resolves the
//! query's verification material, makes the query durable, and records
//! the proving outcome — exactly once per sequence number, the query
//! always before its proof.

use vstd::prelude::*;
use crate::ingest::LedgerModel;
use crate::ingest::resolved_query;
use crate::resolver::find_function_index;
use crate::resolver::first_def_index;
use crate::store::AggerStore;
use crate::types::AccountAddress;
use crate::types::ProofOutcome;
use crate::types::QueryS;
use crate::types::UserQuery;
use crate::types::UserQueryProvingResultS;
use crate::types::copy_bytes;
use crate::types::copy_outcome;

verus! {

/// Sequence number to resume ingestion from, given the last sequence
/// number with a durable proof outcome (if any): the next one, or 0 on
/// a cold start.
pub fn resume_start(last_proved: Option<u64>) -> (r: u64)
    requires
        last_proved is Some ==> last_proved->0 < u64::MAX,
    ensures
        match last_proved {
            Some(n) => r == n + 1,
            None => r == 0,
        },
{
    match last_proved {
        Some(n) => n + 1,
        None => 0,
    }
}

/// One module registered on-chain: its location, its bytes, the names
/// of its function definitions in definition order, and the
/// verification material of its entry functions.
pub struct RegistryEntry {
    pub module_address: Vec<u8>,
    pub module_name: Vec<u8>,
    pub module_bytes: Vec<u8>,
    pub function_defs: Vec<Vec<u8>>,
    pub config: Vec<u8>,
    pub vk: Vec<u8>,
    pub param: Vec<u8>,
}

/// Mathematical image of a `RegistryEntry`.
#[verifier::ext_equal]
pub ghost struct RegistryEntryS {
    pub module_address: Seq<u8>,
    pub module_name: Seq<u8>,
    pub module_bytes: Seq<u8>,
    pub function_defs: Seq<Seq<u8>>,
    pub config: Seq<u8>,
    pub vk: Seq<u8>,
    pub param: Seq<u8>,
}

impl DeepView for RegistryEntry {
    type V = RegistryEntryS;

    open spec fn deep_view(&self) -> RegistryEntryS {
        RegistryEntryS {
            module_address: self.module_address@,
            module_name: self.module_name@,
            module_bytes: self.module_bytes@,
            function_defs: self.function_defs.deep_view(),
            config: self.config@,
            vk: self.vk@,
            param: self.param@,
        }
    }
}

/// The registry as the resolver sees it.
pub struct RegistryModel {
    pub entries: Vec<RegistryEntry>,
}

/// The first registered entry for a module address and name, if any.
pub open spec fn find_entry(entries: Seq<RegistryEntryS>, addr: Seq<u8>, name: Seq<u8>) -> Option<
    int,
>
    decreases entries.len(),
{
    if entries.len() == 0 {
        None
    } else if entries[0].module_address == addr && entries[0].module_name == name {
        Some(0int)
    } else {
        match find_entry(entries.skip(1), addr, name) {
            None => None,
            Some(i) => Some(i + 1),
        }
    }
}

/// Whether the registry resolves a query: it has the query's module,
/// and that module has a function definition of the query's name.
pub open spec fn resolves(entries: Seq<RegistryEntryS>, q: QueryS) -> bool {
    match find_entry(entries, q.module_address, q.module_name) {
        None => false,
        Some(i) => first_def_index(entries[i].function_defs, q.function_name) is Some,
    }
}

impl RegistryModel {
    /// Every module's definition count fits the binary format's u16
    /// index space.
    pub open spec fn wf(&self) -> bool {
        forall|i: int|
            0 <= i < self.entries@.len() ==> (#[trigger] self.entries@[i]).function_defs@.len()
                <= 0x1_0000
    }

    /// Looks a module up by address and name; the first registered
    /// entry wins.
    pub fn lookup(&self, addr: &Vec<u8>, name: &Vec<u8>) -> (r: Option<&RegistryEntry>)
        ensures
            match r {
                Some(entry) => find_entry(self.entries.deep_view(), addr@, name@) is Some
                    && entry.deep_view() == self.entries.deep_view()[find_entry(
                    self.entries.deep_view(),
                    addr@,
                    name@,
                )->Some_0],
                None => find_entry(self.entries.deep_view(), addr@, name@) is None,
            },
    {
        let ghost dv = self.entries.deep_view();
        proof {
            assert(forall|j: int|
                0 <= j < dv.len() ==> #[trigger] dv[j] == self.entries@[j].deep_view());
        }
        let mut i: usize = 0;
        while i < self.entries.len()
            invariant
                0 <= i <= self.entries@.len(),
                dv == self.entries.deep_view(),
                dv.len() == self.entries@.len(),
                forall|j: int| 0 <= j < dv.len() ==> #[trigger] dv[j]
                    == self.entries@[j].deep_view(),
                forall|j: int|
                    0 <= j < i ==> !((#[trigger] dv[j]).module_address == addr@
                        && dv[j].module_name == name@),
            decreases self.entries@.len() - i,
        {
            let entry = &self.entries[i];
            if crate::resolver::vec_bytes_eq(&entry.module_address, addr)
                && crate::resolver::vec_bytes_eq(&entry.module_name, name) {
                proof {
                    lemma_find_entry_hit(dv, addr@, name@, i as int);
                }
                return Some(entry);
            }
            i = i + 1;
        }
        proof {
            lemma_find_entry_miss(dv, addr@, name@);
        }
        None
    }
}

proof fn lemma_find_entry_hit(entries: Seq<RegistryEntryS>, addr: Seq<u8>, name: Seq<u8>, i: int)
    requires
        0 <= i < entries.len(),
        entries[i].module_address == addr && entries[i].module_name == name,
        forall|j: int|
            0 <= j < i ==> !((#[trigger] entries[j]).module_address == addr
                && entries[j].module_name == name),
    ensures
        find_entry(entries, addr, name) == Some(i),
    decreases i,
{
    if i == 0 {
    } else {
        assert(!(entries[0].module_address == addr && entries[0].module_name == name));
        assert(entries.skip(1)[i - 1] == entries[i]);
        assert(forall|j: int|
            0 <= j < i - 1 ==> #[trigger] entries.skip(1)[j] == entries[j + 1]);
        lemma_find_entry_hit(entries.skip(1), addr, name, i - 1);
    }
}

proof fn lemma_find_entry_miss(entries: Seq<RegistryEntryS>, addr: Seq<u8>, name: Seq<u8>)
    requires
        forall|j: int|
            0 <= j < entries.len() ==> !((#[trigger] entries[j]).module_address == addr
                && entries[j].module_name == name),
    ensures
        find_entry(entries, addr, name) is None,
    decreases entries.len(),
{
    if entries.len() > 0 {
        assert(forall|j: int|
            0 <= j < entries.skip(1).len() ==> #[trigger] entries.skip(1)[j] == entries[j + 1]);
        lemma_find_entry_miss(entries.skip(1), addr, name);
    }
}

proof fn lemma_find_entry_range(entries: Seq<RegistryEntryS>, addr: Seq<u8>, name: Seq<u8>)
    ensures
        find_entry(entries, addr, name) matches Some(i) ==> 0 <= i < entries.len()
            && entries[i].module_address == addr && entries[i].module_name == name,
    decreases entries.len(),
{
    if entries.len() > 0 {
        lemma_find_entry_range(entries.skip(1), addr, name);
        if find_entry(entries, addr, name) is Some {
            let i = find_entry(entries, addr, name)->Some_0;
            if i > 0 {
                assert(entries.skip(1)[i - 1] == entries[i]);
            }
        }
    }
}

/// The proving engine as the pipeline sees it: one outcome per event
/// position.
pub struct ProverModel {
    pub outcomes: Vec<ProofOutcome>,
}

/// The durable form a worker outcome is recorded under.
pub open spec fn durable_outcome(outcomes: Seq<ProofOutcome>, seq: int) -> UserQueryProvingResultS {
    UserQueryProvingResultS {
        success: outcomes[seq] is Ok,
        result: (match outcomes[seq] {
            Ok(proof_bytes) => proof_bytes@,
            Err(message) => message@,
        }),
        submitted: false,
    }
}

impl ProverModel {
    /// The outcome the engine reports for the task at `seq`.
    pub fn outcome_at(&self, seq: u64) -> (r: ProofOutcome)
        requires
            (seq as int) < self.outcomes@.len(),
        ensures
            r is Ok <==> self.outcomes@[seq as int] is Ok,
            (match (r, self.outcomes@[seq as int]) {
                (Ok(a), Ok(b)) => a@ == b@,
                (Err(a), Err(b)) => a@ == b@,
                _ => true,
            }),
    {
        let n = self.outcomes.len();
        proof {
            assert(seq < n as u64);
        }
        copy_outcome(&self.outcomes[seq as usize])
    }
}

/// What one pass of the pipeline did: where it resumed, and the
/// sequence numbers it worked through, in order.
pub struct PipelineReport {
    pub start: u64,
    pub processed: Vec<u64>,
}

/// What holds of position `start + i` once the pipeline has worked
/// through it: a resolved event has its query stored (the first write
/// winning) and its outcome recorded; an unresolved one left nothing.
pub open spec fn position_settled(
    qm: Map<u64, crate::types::UserQueryS>,
    pm: Map<u64, UserQueryProvingResultS>,
    qm0: Map<u64, crate::types::UserQueryS>,
    pm0: Map<u64, UserQueryProvingResultS>,
    reg: Seq<RegistryEntryS>,
    events: Seq<crate::ingest::EventRecord>,
    outcomes: Seq<ProofOutcome>,
    start: int,
    i: int,
) -> bool {
    let c = (start + i) as u64;
    let e = events[i + start];
    if resolves(reg, e@.query) {
        &&& qm.dom().contains(c)
        &&& qm[c] == (if qm0.dom().contains(c) {
            qm0[c]
        } else {
            resolved_query(e@, c)
        })
        &&& pm.dom().contains(c)
        &&& pm[c] == durable_outcome(outcomes, c as int)
    } else {
        &&& (qm.dom().contains(c) <==> qm0.dom().contains(c))
        &&& (qm0.dom().contains(c) ==> qm[c] == qm0[c])
        &&& !pm.dom().contains(c)
    }
}

/// Runs the pipeline once over everything the ledger exposes: resumes
/// at the sequence number after the last proved one, and for each
/// event from there on — in order, gap-free — resolves it against the
/// registry, makes the query durable, and records the prover's
/// outcome. An event the registry cannot resolve is passed over with
/// nothing written. Sequence numbers below the resume point are not
/// touched, so no proved event is ever re-proved.
#[verifier::rlimit(100)]
#[verifier::loop_isolation(false)]
pub fn run_pipeline(
    store: &mut AggerStore,
    ledger: &LedgerModel,
    registry: &RegistryModel,
    prover: &ProverModel,
) -> (r: PipelineReport)
    requires
        old(store).wf(),
        registry.wf(),
        prover.outcomes@.len() >= ledger.events@.len(),
        forall|k: u64| #[trigger]
            old(store).proofs_map().dom().contains(k) ==> k < u64::MAX,
    ensures
        final(store).wf(),
        // where the pass resumed
        (old(store).proofs_map().dom() =~= Set::<u64>::empty() ==> r.start == 0),
        old(store).proofs_map().dom() =~= Set::<u64>::empty() || (r.start >= 1 && old(
            store,
        ).proofs_map().dom().contains((r.start - 1) as u64)),
        forall|k: u64| #[trigger] old(store).proofs_map().dom().contains(k) ==> k < r.start,
        // which events it worked through: all of them from the resume
        // point on, in order
        r.processed@.len() == (if (r.start as int) < ledger.events@.len() {
            ledger.events@.len() - r.start as int
        } else {
            0
        }),
        forall|i: int|
            0 <= i < r.processed@.len() ==> #[trigger] r.processed@[i] == r.start + i,
        // sequence numbers outside the processed range are untouched
        forall|k: u64|
            (k < r.start || k >= r.start + r.processed@.len()) ==> ((#[trigger] final(store).queries_map().dom().contains(k) <==> old(store).queries_map().dom().contains(k))
                && (old(store).queries_map().dom().contains(k) ==> final(store).queries_map()[k] == old(store).queries_map()[k]) && (final(store).proofs_map().dom().contains(k) <==> old(store).proofs_map().dom().contains(k)) && (
            old(store).proofs_map().dom().contains(k) ==> final(store).proofs_map()[k] == old(
                store,
            ).proofs_map()[k])),
        // each processed event: resolved ones get their query stored
        // (the first write winning) and their outcome recorded; others
        // get nothing
        forall|i: int|
            0 <= i < r.processed@.len() ==> #[trigger] position_settled(
                final(store).queries_map(),
                final(store).proofs_map(),
                old(store).queries_map(),
                old(store).proofs_map(),
                registry.entries.deep_view(),
                ledger.events@,
                prover.outcomes@,
                r.start as int,
                i,
            ),
{
    let last = store.last_proved_event_number();
    let start = resume_start(last);
    let mut processed: Vec<u64> = Vec::new();
    let ghost reg = registry.entries.deep_view();
    proof {
        if last is None {
            assert(old(store).proofs_map().dom() =~= Set::<u64>::empty());
        }
    }
    let elen: usize = ledger.events.len();
    if start >= elen as u64 {
        return PipelineReport { start, processed };
    }
    let end: u64 = elen as u64;
    let mut cur: u64 = start;
    while cur < end
        invariant
            store.wf(),
            registry.wf(),
            reg == registry.entries.deep_view(),
            prover.outcomes@.len() >= ledger.events@.len(),
            start <= cur <= end,
            end == elen as u64,
            elen == ledger.events@.len(),
            end == ledger.events@.len(),
            processed@.len() == cur - start,
            forall|i: int| 0 <= i < processed@.len() ==> #[trigger] processed@[i] == start + i,
            forall|k: u64| #[trigger]
                old(store).proofs_map().dom().contains(k) ==> k < start,
            // untouched outside [start, cur)
            forall|k: u64|
                (k < start || k >= cur) ==> ((#[trigger] store.queries_map().dom().contains(k)
                    <==> old(store).queries_map().dom().contains(k)) && (old(
                    store,
                ).queries_map().dom().contains(k) ==> store.queries_map()[k] == old(
                    store,
                ).queries_map()[k]) && (store.proofs_map().dom().contains(k) <==> old(
                    store,
                ).proofs_map().dom().contains(k)) && (old(
                    store,
                ).proofs_map().dom().contains(k) ==> store.proofs_map()[k] == old(
                    store,
                ).proofs_map()[k])),
            // settled positions
            forall|i: int|
                0 <= i < processed@.len() ==> #[trigger] position_settled(
                    store.queries_map(),
                    store.proofs_map(),
                    old(store).queries_map(),
                    old(store).proofs_map(),
                    reg,
                    ledger.events@,
                    prover.outcomes@,
                    start as int,
                    i,
                ),
        decreases end - cur,
    {
        let e = &ledger.events[cur as usize];
        proof {
            assert(forall|j: int|
                0 <= j < reg.len() ==> #[trigger] reg[j] == registry.entries@[j].deep_view());
        }
        let resolved = match registry.lookup(&e.query.module_address, &e.query.module_name) {
            Some(entry) => {
                proof {
                    lemma_find_entry_range(reg, e@.query.module_address, e@.query.module_name);
                    let idx = find_entry(reg, e@.query.module_address, e@.query.module_name)
                        ->Some_0;
                    assert(entry.deep_view() == reg[idx]);
                    assert(entry.function_defs@.len() == entry.function_defs.deep_view().len());
                    assert(reg[idx].function_defs.len()
                        == registry.entries@[idx].function_defs@.len());
                }
                find_function_index(&entry.function_defs, &e.query.function_name).is_some()
            },
            None => false,
        };
        proof {
            assert(resolved == resolves(reg, e@.query));
        }
        let ghost st0 = *store;
        let ghost processed0 = processed@;
        if resolved {
            let q = UserQuery {
                version: e.version,
                sequence_number: cur,
                user: AccountAddress { bytes: copy_bytes(&e.user.bytes) },
                id: e.id,
                query: e.query.duplicate(),
            };
            proof {
                assert(q@ == resolved_query(e@, cur));
            }
            store.put_query(q);
            let outcome = prover.outcome_at(cur);
            let put = store.put_proof(cur, outcome);
            proof {
                assert(put is Ok);
                assert(store.proofs_map()[cur] == durable_outcome(prover.outcomes@, cur as int));
            }
        }
        processed.push(cur);
        proof {
            assert(processed@ =~= processed0.push(cur));
            assert(store.queries_map() == st0.queries_map() || store.queries_map()
                == st0.queries_map().insert(cur, resolved_query(e@, cur)));
            assert(store.proofs_map() == st0.proofs_map() || store.proofs_map()
                == st0.proofs_map().insert(cur, durable_outcome(prover.outcomes@, cur as int)));
            assert forall|i: int| 0 <= i < processed@.len() implies #[trigger] position_settled(
                store.queries_map(),
                store.proofs_map(),
                old(store).queries_map(),
                old(store).proofs_map(),
                reg,
                ledger.events@,
                prover.outcomes@,
                start as int,
                i,
            ) by {
                let c = (start + i) as u64;
                let ev = ledger.events@[i + start];
                if i < processed@.len() - 1 {
                    assert(c < cur);
                    assert(0 <= i < processed0.len());
                    assert(processed0[i] == start + i);
                    assert(position_settled(
                        st0.queries_map(),
                        st0.proofs_map(),
                        old(store).queries_map(),
                        old(store).proofs_map(),
                        reg,
                        ledger.events@,
                        prover.outcomes@,
                        start as int,
                        i,
                    ));
                    assert(store.queries_map().dom().contains(c)
                        <==> st0.queries_map().dom().contains(c));
                    assert(st0.queries_map().dom().contains(c) ==> store.queries_map()[c]
                        == st0.queries_map()[c]);
                    assert(store.proofs_map().dom().contains(c)
                        <==> st0.proofs_map().dom().contains(c));
                    assert(st0.proofs_map().dom().contains(c) ==> store.proofs_map()[c]
                        == st0.proofs_map()[c]);
                } else {
                    assert(c == cur);
                    assert(ev == ledger.events@[cur as int]);
                    assert(ev@ == e@);
                    assert(st0.queries_map().dom().contains(c) <==> old(
                        store,
                    ).queries_map().dom().contains(c));
                    assert(old(store).queries_map().dom().contains(c)
                        ==> st0.queries_map()[c] == old(store).queries_map()[c]);
                    assert(!old(store).proofs_map().dom().contains(c));
                    assert(!st0.proofs_map().dom().contains(c));
                    if resolves(reg, ev@.query) {
                        assert(store.queries_map().dom().contains(c));
                        assert(store.queries_map()[c] == (if old(
                            store,
                        ).queries_map().dom().contains(c) {
                            old(store).queries_map()[c]
                        } else {
                            resolved_query(ev@, c)
                        }));
                        assert(store.proofs_map().dom().contains(c));
                        assert(store.proofs_map()[c] == durable_outcome(
                            prover.outcomes@,
                            c as int,
                        ));
                    } else {
                        assert(*store == st0);
                    }
                }
            }
        }
        cur = cur + 1;
    }
    PipelineReport { start, processed }
}

} // verus!
