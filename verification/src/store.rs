//! Durable store for queries and proof outcomes, keyed by event
//! sequence number.
//!
//! Two column families hold the pipeline's state: `queries` maps a
//! sequence number to the resolved `UserQuery`, `proofs` maps it to the
//! proving outcome. The store keeps three invariants: each family holds
//! at most one value per key, a key once written is never rewritten
//! with a different value (the first write wins), and every key in
//! `proofs` is also in `queries`.

use vstd::prelude::*;
use crate::codec::decode_u64_le;
use crate::codec::encode_u64_le;
use crate::codec::le_bytes;
use crate::types::DecodeError;
use crate::types::ProofOutcome;
use crate::types::UserQuery;
use crate::types::UserQueryProvingResult;
use crate::types::UserQueryProvingResultS;
use crate::types::UserQueryS;

verus! {

/// Name of the column family that stores resolved queries.
pub const QUERY_COLUMN_FAMILY_NAME: &'static str = "queries";

/// Name of the column family that stores proof outcomes.
pub const PROOF_COLUMN_FAMILY_NAME: &'static str = "proofs";

/// Store key: a sequence number, encoded as 8 little-endian bytes.
#[derive(Clone, Copy, Debug, PartialEq, Eq, Structural)]
pub struct UserQueryKey {
    pub sequence_number: u64,
}

impl From<u64> for UserQueryKey {
    fn from(value: u64) -> (r: UserQueryKey) {
        UserQueryKey { sequence_number: value }
    }
}

impl vstd::std_specs::convert::FromSpecImpl<u64> for UserQueryKey {
    open spec fn obeys_from_spec() -> bool {
        true
    }

    open spec fn from_spec(value: u64) -> UserQueryKey {
        UserQueryKey { sequence_number: value }
    }
}

impl UserQueryKey {
    /// The canonical byte form of this key.
    pub fn encode_key(&self) -> (r: Vec<u8>)
        ensures
            r@ == le_bytes(self.sequence_number as nat, 8),
            r@.len() == 8,
    {
        encode_u64_le(self.sequence_number)
    }

    /// Reads a key back from its canonical byte form: exactly 8
    /// little-endian bytes.
    pub fn decode_key(data: &Vec<u8>) -> (r: Result<UserQueryKey, DecodeError>)
        ensures
            data@.len() == 8 ==> (r matches Ok(k) && le_bytes(k.sequence_number as nat, 8)
                == data@),
            data@.len() != 8 ==> r is Err,
    {
        if data.len() != 8 {
            return Err(DecodeError::TrailingBytes);
        }
        match decode_u64_le(data, 0) {
            Ok((n, _)) => {
                proof {
                    assert(data@.subrange(0, 8) =~= data@);
                }
                Ok(UserQueryKey { sequence_number: n })
            },
            Err(e) => Err(e),
        }
    }
}

/// Schema marker: `queries` column family, `UserQueryKey` to
/// `UserQuery`.
#[derive(Clone, Copy, Debug)]
pub struct UserQuerySchema;

/// Schema marker: `proofs` column family, `UserQueryKey` to
/// `UserQueryProvingResult`.
#[derive(Clone, Copy, Debug)]
pub struct UserQueryProofSchema;

/// Why a store write was refused.
#[derive(Clone, Copy, Debug, PartialEq, Eq, Structural)]
pub enum StoreError {
    /// A proof outcome was offered for a sequence number with no
    /// stored query.
    QueryMissing,
    /// A proof outcome was offered twice for one sequence number.
    ProofExists,
}

/// The map a family's entry list denotes, values taken to their
/// mathematical images. Later entries would win, but well-formed
/// stores never hold a key twice.
pub open spec fn entries_map<V: View>(entries: Seq<(u64, V)>) -> Map<u64, V::V>
    decreases entries.len(),
{
    if entries.len() == 0 {
        Map::empty()
    } else {
        entries_map(entries.drop_last()).insert(entries.last().0, entries.last().1@)
    }
}

/// Whether some entry of the list carries key `k`.
pub open spec fn has_key<V: View>(entries: Seq<(u64, V)>, k: u64) -> bool {
    exists|i: int| 0 <= i < entries.len() && (#[trigger] entries[i]).0 == k
}

/// Whether no key repeats in the list.
pub open spec fn distinct_keys<V: View>(entries: Seq<(u64, V)>) -> bool {
    forall|i: int, j: int|
        0 <= i < j < entries.len() ==> (#[trigger] entries[i]).0 != (#[trigger] entries[j]).0
}

/// On a list without repeated keys, the denoted map has exactly the
/// listed keys, each bound to its entry's value.
pub proof fn lemma_entries_map<V: View>(entries: Seq<(u64, V)>)
    requires
        distinct_keys(entries),
    ensures
        forall|k: u64| #[trigger]
            entries_map(entries).dom().contains(k) <==> has_key(entries, k),
        forall|i: int|
            0 <= i < entries.len() ==> entries_map(entries)[(#[trigger] entries[i]).0]
                == entries[i].1@,
    decreases entries.len(),
{
    if entries.len() > 0 {
        let prefix = entries.drop_last();
        let last = entries.last();
        assert(forall|i: int| 0 <= i < prefix.len() ==> #[trigger] prefix[i] == entries[i]);
        assert(distinct_keys(prefix));
        lemma_entries_map(prefix);
        assert(entries_map(entries) == entries_map(prefix).insert(last.0, last.1@));
        assert(entries[entries.len() - 1] == last);
        assert(has_key(entries, last.0));
        assert forall|k: u64| #[trigger]
            entries_map(entries).dom().contains(k) implies has_key(entries, k) by {
            if k != last.0 {
                assert(entries_map(prefix).dom().contains(k));
                assert(has_key(prefix, k));
                let i = choose|i: int| 0 <= i < prefix.len() && (#[trigger] prefix[i]).0 == k;
                assert(entries[i].0 == k);
            }
        }
        assert forall|k: u64|
            has_key(entries, k) implies #[trigger] entries_map(entries).dom().contains(k) by {
            if k != last.0 {
                let i = choose|i: int| 0 <= i < entries.len() && (#[trigger] entries[i]).0 == k;
                assert(i < prefix.len());
                assert(prefix[i].0 == k);
                assert(has_key(prefix, k));
                assert(entries_map(prefix).dom().contains(k));
            }
        }
        assert forall|i: int|
            0 <= i < entries.len() implies entries_map(entries)[(#[trigger] entries[i]).0]
                == entries[i].1@ by {
            if i < entries.len() - 1 {
                assert(prefix[i] == entries[i]);
                assert(entries[i].0 != last.0);
                assert(entries_map(prefix)[prefix[i].0] == prefix[i].1@);
            }
        }
    }
}

/// In-memory image of the node's durable store: the two column
/// families as entry lists.
#[derive(Debug)]
pub struct AggerStore {
    pub queries: Vec<(u64, UserQuery)>,
    pub proofs: Vec<(u64, UserQueryProvingResult)>,
}

impl AggerStore {
    /// The `queries` family as a map.
    pub open spec fn queries_map(&self) -> Map<u64, UserQueryS> {
        entries_map(self.queries@)
    }

    /// The `proofs` family as a map.
    pub open spec fn proofs_map(&self) -> Map<u64, UserQueryProvingResultS> {
        entries_map(self.proofs@)
    }

    /// Store invariant: no key is listed twice in a family, every
    /// query is stored under its own sequence number, and every
    /// proof's key has a stored query.
    pub open spec fn wf(&self) -> bool {
        &&& distinct_keys(self.queries@)
        &&& distinct_keys(self.proofs@)
        &&& forall|i: int|
            0 <= i < self.queries@.len() ==> (#[trigger] self.queries@[i]).1.sequence_number
                == self.queries@[i].0
        &&& forall|k: u64| #[trigger]
            has_key(self.proofs@, k) ==> has_key(self.queries@, k)
    }

    /// At most one durable query per sequence number: on a
    /// well-formed store, two listed entries of the queries family
    /// with the same key are the same entry, so a lookup has exactly
    /// one value to return.
    pub proof fn lemma_at_most_one_query(&self)
        requires
            self.wf(),
        ensures
            forall|i: int, j: int|
                0 <= i < self.queries@.len() && 0 <= j < self.queries@.len() && (
                #[trigger] self.queries@[i]).0 == (#[trigger] self.queries@[j]).0 ==> i == j,
    {
    }

    /// Every key of `proofs` is a key of `queries`: a proof outcome is
    /// only ever recorded for a query that was first made durable.
    pub proof fn lemma_query_before_proof(&self)
        requires
            self.wf(),
        ensures
            forall|k: u64| #[trigger]
                self.proofs_map().dom().contains(k) ==> self.queries_map().dom().contains(k),
    {
        lemma_entries_map(self.queries@);
        lemma_entries_map(self.proofs@);
    }

    /// An empty store.
    pub fn new() -> (r: AggerStore)
        ensures
            r.wf(),
            r.queries_map() == Map::<u64, UserQueryS>::empty(),
            r.proofs_map() == Map::<u64, UserQueryProvingResultS>::empty(),
    {
        AggerStore { queries: Vec::new(), proofs: Vec::new() }
    }

    /// Looks up the index of `seq` in a family's entry list.
    fn find_entry_query(&self, seq: u64) -> (r: Option<usize>)
        ensures
            match r {
                Some(i) => i < self.queries@.len() && self.queries@[i as int].0 == seq,
                None => !has_key(self.queries@, seq),
            },
    {
        let mut i: usize = 0;
        while i < self.queries.len()
            invariant
                0 <= i <= self.queries@.len(),
                forall|j: int| 0 <= j < i ==> (#[trigger] self.queries@[j]).0 != seq,
            decreases self.queries@.len() - i,
        {
            if self.queries[i].0 == seq {
                return Some(i);
            }
            i = i + 1;
        }
        None
    }

    /// Looks up the index of `seq` in the proofs entry list.
    fn find_entry_proof(&self, seq: u64) -> (r: Option<usize>)
        ensures
            match r {
                Some(i) => i < self.proofs@.len() && self.proofs@[i as int].0 == seq,
                None => !has_key(self.proofs@, seq),
            },
    {
        let mut i: usize = 0;
        while i < self.proofs.len()
            invariant
                0 <= i <= self.proofs@.len(),
                forall|j: int| 0 <= j < i ==> (#[trigger] self.proofs@[j]).0 != seq,
            decreases self.proofs@.len() - i,
        {
            if self.proofs[i].0 == seq {
                return Some(i);
            }
            i = i + 1;
        }
        None
    }

    /// Makes a resolved query durable under its own sequence number.
    /// The first write of a key wins: a later write of the same key
    /// leaves the stored value as it was, so a key is never rewritten
    /// with a different query. Returns whether the query was inserted.
    pub fn put_query(&mut self, q: UserQuery) -> (r: bool)
        requires
            old(self).wf(),
        ensures
            final(self).wf(),
            r == !old(self).queries_map().dom().contains(q.sequence_number),
            final(self).queries_map() == (if old(self).queries_map().dom().contains(
                q.sequence_number,
            ) {
                old(self).queries_map()
            } else {
                old(self).queries_map().insert(q.sequence_number, q@)
            }),
            final(self).proofs_map() == old(self).proofs_map(),
    {
        proof {
            lemma_entries_map(old(self).queries@);
        }
        let seq = q.sequence_number;
        match self.find_entry_query(seq) {
            Some(_) => false,
            None => {
                let ghost entries0 = self.queries@;
                self.queries.push((seq, q));
                proof {
                    assert(self.queries@.drop_last() =~= entries0);
                    assert(distinct_keys(self.queries@)) by {
                        assert(forall|i: int|
                            0 <= i < entries0.len() ==> #[trigger] self.queries@[i]
                                == entries0[i]);
                    }
                    assert(forall|k: u64| #[trigger]
                        has_key(self.proofs@, k) ==> has_key(self.queries@, k)) by {
                        assert(forall|i: int|
                            0 <= i < entries0.len() ==> #[trigger] self.queries@[i]
                                == entries0[i]);
                        assert(forall|k: u64| #[trigger]
                            has_key(entries0, k) ==> has_key(self.queries@, k));
                    }
                }
                true
            },
        }
    }

    /// Records the proving outcome for `seq`, wrapped into its durable
    /// form. Refused when no query is stored under `seq`, and when an
    /// outcome already is: an outcome is recorded at most once, for a
    /// known query only.
    pub fn put_proof(&mut self, seq: u64, outcome: ProofOutcome) -> (r: Result<(), StoreError>)
        requires
            old(self).wf(),
        ensures
            final(self).wf(),
            final(self).queries_map() == old(self).queries_map(),
            !old(self).queries_map().dom().contains(seq) ==> (r matches Err(e) && e
                == StoreError::QueryMissing && final(self).proofs_map() == old(
                self,
            ).proofs_map()),
            old(self).queries_map().dom().contains(seq) && old(self).proofs_map().dom().contains(
                seq,
            ) ==> (r matches Err(e) && e == StoreError::ProofExists && final(self).proofs_map()
                == old(self).proofs_map()),
            old(self).queries_map().dom().contains(seq) && !old(
                self,
            ).proofs_map().dom().contains(seq) ==> (r is Ok && final(self).proofs_map() == old(
                self,
            ).proofs_map().insert(
                seq,
                UserQueryProvingResultS {
                    success: outcome is Ok,
                    result: (match outcome {
                        Ok(proof_bytes) => proof_bytes@,
                        Err(message) => message@,
                    }),
                    submitted: false,
                },
            )),
    {
        proof {
            lemma_entries_map(old(self).queries@);
            lemma_entries_map(old(self).proofs@);
        }
        if self.find_entry_query(seq).is_none() {
            return Err(StoreError::QueryMissing);
        }
        if self.find_entry_proof(seq).is_some() {
            return Err(StoreError::ProofExists);
        }
        let value = UserQueryProvingResult::from_outcome(outcome);
        let ghost entries0 = self.proofs@;
        self.proofs.push((seq, value));
        proof {
            assert(self.proofs@.drop_last() =~= entries0);
            assert(forall|i: int|
                0 <= i < entries0.len() ==> #[trigger] self.proofs@[i] == entries0[i]);
            assert(distinct_keys(self.proofs@));
            assert forall|k: u64| #[trigger]
                has_key(self.proofs@, k) implies has_key(self.queries@, k) by {
                let i = choose|i: int|
                    0 <= i < self.proofs@.len() && (#[trigger] self.proofs@[i]).0 == k;
                if i < self.proofs@.len() - 1 {
                    assert(entries0[i].0 == k);
                    assert(has_key(entries0, k));
                } else {
                    assert(k == seq);
                }
            }
        }
        Ok(())
    }

    /// The stored query for `seq`, if any.
    pub fn get_query(&self, seq: u64) -> (r: Option<&UserQuery>)
        requires
            self.wf(),
        ensures
            match r {
                Some(q) => self.queries_map().dom().contains(seq) && q@ == self.queries_map()[seq]
                    && q.sequence_number == seq,
                None => !self.queries_map().dom().contains(seq),
            },
    {
        proof {
            lemma_entries_map(self.queries@);
        }
        match self.find_entry_query(seq) {
            Some(i) => {
                let entry = &self.queries[i];
                proof {
                    assert(entry.1@ == self.queries_map()[seq]);
                }
                Some(&entry.1)
            },
            None => None,
        }
    }

    /// The stored proving outcome for `seq`, if any.
    pub fn get_proof(&self, seq: u64) -> (r: Option<&UserQueryProvingResult>)
        requires
            self.wf(),
        ensures
            match r {
                Some(p) => self.proofs_map().dom().contains(seq) && p@ == self.proofs_map()[seq],
                None => !self.proofs_map().dom().contains(seq),
            },
    {
        proof {
            lemma_entries_map(self.proofs@);
        }
        match self.find_entry_proof(seq) {
            Some(i) => Some(&self.proofs[i].1),
            None => None,
        }
    }

    /// The greatest sequence number with a recorded proof outcome, if
    /// any: where a restarted node resumes from.
    pub fn last_proved_event_number(&self) -> (r: Option<u64>)
        requires
            self.wf(),
        ensures
            match r {
                Some(m) => self.proofs_map().dom().contains(m) && forall|k: u64| #[trigger]
                    self.proofs_map().dom().contains(k) ==> k <= m,
                None => self.proofs_map().dom() =~= Set::<u64>::empty(),
            },
    {
        proof {
            lemma_entries_map(self.proofs@);
        }
        let mut best: Option<u64> = None;
        let mut i: usize = 0;
        while i < self.proofs.len()
            invariant
                0 <= i <= self.proofs@.len(),
                match best {
                    Some(m) => has_key(self.proofs@, m) && forall|j: int|
                        0 <= j < i ==> (#[trigger] self.proofs@[j]).0 <= m,
                    None => i == 0,
                },
            decreases self.proofs@.len() - i,
        {
            let k = self.proofs[i].0;
            best = match best {
                Some(m) => if k > m {
                    Some(k)
                } else {
                    Some(m)
                },
                None => Some(k),
            };
            i = i + 1;
        }
        best
    }

    /// The stored query with the greatest sequence number, if any.
    pub fn last_seen_event(&self) -> (r: Option<&UserQuery>)
        requires
            self.wf(),
        ensures
            match r {
                Some(q) => self.queries_map().dom().contains(q.sequence_number) && q@
                    == self.queries_map()[q.sequence_number] && forall|k: u64| #[trigger]
                    self.queries_map().dom().contains(k) ==> k <= q.sequence_number,
                None => self.queries_map().dom() =~= Set::<u64>::empty(),
            },
    {
        proof {
            lemma_entries_map(self.queries@);
        }
        let mut best: Option<usize> = None;
        let mut i: usize = 0;
        while i < self.queries.len()
            invariant
                0 <= i <= self.queries@.len(),
                match best {
                    Some(b) => b < i && forall|j: int|
                        0 <= j < i ==> (#[trigger] self.queries@[j]).0 <= self.queries@[
                            b as int
                        ].0,
                    None => i == 0,
                },
            decreases self.queries@.len() - i,
        {
            let k = self.queries[i].0;
            best = match best {
                Some(b) => if k > self.queries[b].0 {
                    Some(i)
                } else {
                    Some(b)
                },
                None => Some(i),
            };
            i = i + 1;
        }
        match best {
            Some(b) => Some(&self.queries[b].1),
            None => None,
        }
    }
}

} // verus!
