//! Query ingestion: tailing the contract's event handle as a
//! restartable, gap-free sequence of resolved queries.
//!
//! The surrounding application performs the ledger reads; every
//! decision of the loop — how a poll outcome moves the cursor, how the
//! raw bytes of an event, resource and table item become a
//! `UserQuery` — is a verified function here.

use vstd::prelude::*;
use crate::codec::decode_new_query_event;
use crate::codec::decode_queries_resource;
use crate::codec::decode_query_record;
use crate::codec::new_query_event_parse;
use crate::codec::queries_parse;
use crate::codec::query_parse;
use crate::types::AccountAddress;
use crate::types::DecodeError;
use crate::types::NewQueryEvent;
use crate::types::Query;
use crate::types::QueryS;
use crate::types::UserQuery;
use crate::types::UserQueryS;
use crate::types::copy_bytes;

verus! {

/// A ledger read that failed; the code stands for the transport's own
/// error.
#[derive(Clone, Copy, Debug, PartialEq, Eq, Structural)]
pub struct LedgerError {
    pub code: u64,
}

/// One event of the handle, already resolved to the on-chain record it
/// points at: what a successful poll of the ledger yields.
#[derive(Clone, Debug, PartialEq, Eq)]
pub struct EventRecord {
    /// Ledger version at which the event was committed.
    pub version: u64,
    pub user: AccountAddress,
    pub id: u64,
    pub query: Query,
}

/// Mathematical image of an `EventRecord`.
#[verifier::ext_equal]
pub ghost struct EventRecordS {
    pub version: u64,
    pub user: Seq<u8>,
    pub id: u64,
    pub query: QueryS,
}

impl View for EventRecord {
    type V = EventRecordS;

    open spec fn view(&self) -> EventRecordS {
        EventRecordS {
            version: self.version,
            user: self.user.bytes@,
            id: self.id,
            query: self.query@,
        }
    }
}

impl EventRecord {
    /// A copy of this record, equal to it field for field.
    pub fn duplicate(&self) -> (r: EventRecord)
        ensures
            r@ == self@,
    {
        EventRecord {
            version: self.version,
            user: AccountAddress { bytes: copy_bytes(&self.user.bytes) },
            id: self.id,
            query: self.query.duplicate(),
        }
    }
}

/// What one poll of the event handle produced.
pub enum EventResponse {
    /// The event at the polled position, fully resolved.
    Event(EventRecord),
    /// The ledger has no event at that position yet.
    NotReady,
    /// The read failed.
    Failed(LedgerError),
}

/// What the ingestion loop does after one poll.
pub enum IngestStep {
    /// Hand this resolved query to the consumer.
    Produce(UserQuery),
    /// Sleep, then poll the same position again.
    Wait,
    /// Report this error to the consumer; the position is not
    /// advanced, so the next poll retries it.
    Report(LedgerError),
}

/// The UserQuery an event at position `cur` resolves to.
pub open spec fn resolved_query(e: EventRecordS, cur: u64) -> UserQueryS {
    UserQueryS { version: e.version, sequence_number: cur, user: e.user, id: e.id, query: e.query }
}

/// One turn of the ingestion loop: from the cursor and the poll
/// outcome to what is yielded and where the cursor goes. An event
/// advances the cursor; an empty poll and a failed poll leave it where
/// it is, so no event is ever skipped.
pub fn ingest_step(cur: u64, response: EventResponse) -> (r: (IngestStep, u64))
    requires
        cur < u64::MAX,
    ensures
        match response {
            EventResponse::Event(e) => (r.0 matches IngestStep::Produce(q) && q@
                == resolved_query(e@, cur) && q.sequence_number == cur) && r.1 == cur + 1,
            EventResponse::NotReady => r.0 is Wait && r.1 == cur,
            EventResponse::Failed(err) => (r.0 matches IngestStep::Report(e2) && e2 == err)
                && r.1 == cur,
        },
{
    match response {
        EventResponse::Event(e) => {
            let q = UserQuery {
                version: e.version,
                sequence_number: cur,
                user: e.user,
                id: e.id,
                query: e.query,
            };
            (IngestStep::Produce(q), cur + 1)
        },
        EventResponse::NotReady => (IngestStep::Wait, cur),
        EventResponse::Failed(err) => (IngestStep::Report(err), cur),
    }
}

/// Restartability under a transient error: a failed poll at `cur`
/// reports the error without advancing, and the next poll of the
/// recovered ledger yields the query with sequence number `cur`
/// itself.
pub fn recover_after_error(cur: u64, err: LedgerError, e: EventRecord) -> (r: (
    (IngestStep, u64),
    (IngestStep, u64),
))
    requires
        cur < u64::MAX,
    ensures
        (r.0.0 matches IngestStep::Report(e2) && e2 == err) && r.0.1 == cur,
        (r.1.0 matches IngestStep::Produce(q) && q.sequence_number == cur && q@
            == resolved_query(e@, cur)),
        r.1.1 == cur + 1,
{
    let ghost ev = e@;
    let first = ingest_step(cur, EventResponse::Failed(err));
    let second = ingest_step(first.1, EventResponse::Event(e));
    ((first.0, first.1), second)
}

/// A ledger exposing events 0 up to the length of `events`: the model
/// the gap-free ingestion law is stated over.
pub struct LedgerModel {
    pub events: Vec<EventRecord>,
}

impl LedgerModel {
    /// The poll of position `at`: the event there, or not-ready past
    /// the end.
    pub fn poll(&self, at: u64) -> (r: EventResponse)
        ensures
            (at as int) < self.events@.len() ==> (r matches EventResponse::Event(e) && e@
                == self.events@[at as int]@),
            (at as int) >= self.events@.len() ==> r is NotReady,
    {
        if at < self.events.len() as u64 {
            EventResponse::Event(self.events[at as usize].duplicate())
        } else {
            EventResponse::NotReady
        }
    }
}

/// Gap-free ingestion: polling a ledger that exposes events 0 up to M
/// from `start` yields exactly the queries numbered `start`,
/// `start + 1`, … up to `M - 1`, in order, each resolved from its own
/// event.
pub fn collect_available(ledger: &LedgerModel, start: u64) -> (r: Vec<UserQuery>)
    ensures
        r@.len() == (if (start as int) < ledger.events@.len() {
            ledger.events@.len() - start as int
        } else {
            0
        }),
        forall|i: int|
            0 <= i < r@.len() ==> (#[trigger] r@[i]).sequence_number == start + i && r@[i]@
                == resolved_query(ledger.events@[start + i]@, (start + i) as u64),
    {
    let mut out: Vec<UserQuery> = Vec::new();
    let mut cur: u64 = start;
    if start >= ledger.events.len() as u64 {
        return out;
    }
    let end: u64 = ledger.events.len() as u64;
    while cur < end
        invariant
            start <= cur <= end,
            end == ledger.events@.len(),
            out@.len() == cur - start,
            forall|i: int|
                0 <= i < out@.len() ==> (#[trigger] out@[i]).sequence_number == start + i
                    && out@[i]@ == resolved_query(ledger.events@[start + i]@, (start + i) as u64),
        decreases end - cur,
    {
        let response = ledger.poll(cur);
        let (step, next) = ingest_step(cur, response);
        match step {
            IngestStep::Produce(q) => {
                out.push(q);
            },
            IngestStep::Wait => {
                proof {
                    assert(false);
                }
            },
            IngestStep::Report(_) => {
                proof {
                    assert(false);
                }
            },
        }
        cur = next;
    }
    out
}

/// Second stage of resolving one event: the raw bytes of the event
/// payload, decoded into the user and id of the new query.
pub fn decode_event_payload(payload: &Vec<u8>) -> (r: Result<NewQueryEvent, DecodeError>)
    ensures
        match new_query_event_parse(payload@) {
            Some((e, c)) => if c == payload@.len() {
                r matches Ok(out) && out@ == e
            } else {
                r is Err
            },
            None => r is Err,
        },
{
    decode_new_query_event(payload)
}

/// Third stage: the `Queries` resource of the submitting account,
/// read at the event's version, decoded to reach its table handle.
pub fn decode_queries_bytes(resource: &Vec<u8>) -> (r: Result<Vec<u8>, DecodeError>)
    ensures
        match queries_parse(resource@) {
            Some((v, c)) => if c == resource@.len() {
                r matches Ok(h) && h@ == v.handle
            } else {
                r is Err
            },
            None => r is Err,
        },
{
    match decode_queries_resource(resource) {
        Ok(v) => Ok(v.queries.inner.handle.bytes),
        Err(e) => Err(e),
    }
}

/// Last stage: the table item keyed by the query id, decoded into the
/// on-chain `Query`, assembled with the event's position and version
/// into the resolved record.
pub fn assemble_user_query(
    version: u64,
    sequence_number: u64,
    event: NewQueryEvent,
    table_value: &Vec<u8>,
) -> (r: Result<UserQuery, DecodeError>)
    ensures
        match query_parse(table_value@) {
            Some((q, c)) => if c == table_value@.len() {
                r matches Ok(out) && out@ == (UserQueryS {
                    version,
                    sequence_number,
                    user: event.user.bytes@,
                    id: event.id,
                    query: q,
                })
            } else {
                r is Err
            },
            None => r is Err,
        },
{
    match decode_query_record(table_value) {
        Ok(query) => Ok(
            UserQuery { version, sequence_number, user: event.user, id: event.id, query },
        ),
        Err(e) => Err(e),
    }
}

/// The decimal digits of `n`, most significant first: the on-chain
/// convention for table keys of integer type.
pub open spec fn dec_str(n: nat) -> Seq<u8>
    decreases n,
{
    if n < 10 {
        seq![(48 + n) as u8]
    } else {
        dec_str(n / 10) + seq![(48 + n % 10) as u8]
    }
}

/// Writes a query id as its decimal-digit string, the key form for
/// table lookups of `u64`.
pub fn table_key_digits(n: u64) -> (r: Vec<u8>)
    ensures
        r@ == dec_str(n as nat),
{
    let mut digits: Vec<u8> = Vec::new();
    let mut m: u64 = n;
    loop
        invariant
            dec_str(n as nat) =~= dec_str(m as nat) + digits@,
        decreases m,
    {
        let ghost m0 = m as nat;
        let d = (m % 10) as u8;
        let rest = m / 10;
        if rest == 0 {
            let mut out: Vec<u8> = Vec::new();
            out.push(48 + d);
            let mut i: usize = 0;
            while i < digits.len()
                invariant
                    0 <= i <= digits@.len(),
                    out@ =~= seq![(48 + m0 % 10) as u8] + digits@.subrange(0, i as int),
                    m0 < 10,
                decreases digits@.len() - i,
            {
                out.push(digits[i]);
                proof {
                    assert(digits@.subrange(0, i + 1) =~= digits@.subrange(0, i as int) + seq![
                        digits@[i as int],
                    ]);
                }
                i = i + 1;
            }
            proof {
                assert(digits@.subrange(0, digits@.len() as int) =~= digits@);
                assert(dec_str(m0) =~= seq![(48 + m0 % 10) as u8]);
            }
            return out;
        }
        proof {
            assert(dec_str(m0) =~= dec_str(m0 / 10) + seq![(48 + m0 % 10) as u8]);
        }
        let mut with_d: Vec<u8> = Vec::new();
        with_d.push(48 + d);
        let mut j: usize = 0;
        while j < digits.len()
            invariant
                0 <= j <= digits@.len(),
                with_d@ =~= seq![(48 + m0 % 10) as u8] + digits@.subrange(0, j as int),
            decreases digits@.len() - j,
        {
            with_d.push(digits[j]);
            proof {
                assert(digits@.subrange(0, j + 1) =~= digits@.subrange(0, j as int) + seq![
                    digits@[j as int],
                ]);
            }
            j = j + 1;
        }
        proof {
            assert(digits@.subrange(0, digits@.len() as int) =~= digits@);
        }
        digits = with_d;
        m = rest;
    }
}

} // verus!
