//! Batching reference entries for ingestion into the vector service.
use vstd::prelude::*;
use vstd::string::*;
use crate::error::AppError;
use crate::reference::{is_invalid_label_error, label_code, label_to_u8};

verus! {

/// Payload stored with an ingested point.
pub struct IngestPayload {
    pub label: String,
}

/// Whether an existing collection already holding `existing_points` points
/// is left as it is rather than ingested again.
pub fn should_skip_ingestion(existing_points: u64) -> (b: bool)
    ensures
        b == (existing_points > 0),
{
    existing_points > 0
}

/// Message when the dataset yields no point.
pub open spec fn nothing_ingested_text() -> Seq<char> {
    "Reference dataset ingestion did not import any vectors"@
}

/// Points waiting to be sent, with the numbering of the points and the count
/// of those already sent. Points are numbered from 1 in the order they are
/// accepted.
pub struct IngestBatcher {
    batch_size: usize,
    next_id: u64,
    processed: u64,
    ids: Vec<u64>,
    payloads: Vec<IngestPayload>,
}

impl IngestBatcher {
    /// Points per batch.
    pub closed spec fn batch_size(&self) -> nat {
        self.batch_size as nat
    }

    /// Number the next accepted point will get.
    pub closed spec fn next_id(&self) -> nat {
        self.next_id as nat
    }

    /// Points already sent.
    pub closed spec fn processed(&self) -> nat {
        self.processed as nat
    }

    /// Numbers of the points waiting to be sent.
    pub closed spec fn pending_ids(&self) -> Seq<u64> {
        self.ids@
    }

    /// Labels of the points waiting to be sent.
    pub closed spec fn pending_labels(&self) -> Seq<Seq<char>> {
        self.payloads@.map_values(|p: IngestPayload| p.label@)
    }

    /// Every accepted point is either sent or waiting; the waiting ones
    /// carry the numbers just below the next one.
    pub closed spec fn wf(&self) -> bool {
        &&& self.next_id >= 1
        &&& self.ids@.len() == self.payloads@.len()
        &&& self.processed + self.ids@.len() == self.next_id - 1
        &&& forall|i: int|
            0 <= i < self.ids@.len() ==> #[trigger] self.ids@[i] == self.next_id - self.ids@.len()
                + i
    }

    /// A batcher with nothing accepted.
    pub fn new(batch_size: usize) -> (b: IngestBatcher)
        ensures
            b.wf(),
            b.batch_size() == batch_size,
            b.next_id() == 1,
            b.processed() == 0,
            b.pending_ids() == Seq::<u64>::empty(),
            b.pending_labels() == Seq::<Seq<char>>::empty(),
    {
        let b = IngestBatcher {
            batch_size,
            next_id: 1,
            processed: 0,
            ids: Vec::new(),
            payloads: Vec::new(),
        };
        assert(b.pending_labels() =~= Seq::<Seq<char>>::empty());
        b
    }

    /// Accepts a point with label `label`, numbered `next_id`. Answers
    /// whether the batch is now full and must be sent. A label other than
    /// "fraud" or "legit" is an error, and then nothing changes.
    pub fn accept(&mut self, label: String) -> (r: Result<bool, AppError>)
        requires
            old(self).wf(),
            old(self).next_id() < u64::MAX,
        ensures
            final(self).wf(),
            final(self).batch_size() == old(self).batch_size(),
            final(self).processed() == old(self).processed(),
            match r {
                Ok(full) => {
                    &&& label_code(label@) is Some
                    &&& final(self).pending_ids() == old(self).pending_ids().push(
                        old(self).next_id() as u64,
                    )
                    &&& final(self).pending_labels() == old(self).pending_labels().push(label@)
                    &&& final(self).next_id() == old(self).next_id() + 1
                    &&& full == (final(self).pending_ids().len() >= final(self).batch_size())
                },
                Err(e) => {
                    &&& label_code(label@) is None
                    &&& is_invalid_label_error(e, label@)
                    &&& final(self).pending_ids() == old(self).pending_ids()
                    &&& final(self).pending_labels() == old(self).pending_labels()
                    &&& final(self).next_id() == old(self).next_id()
                },
            },
    {
        match label_to_u8(label.as_str()) {
            Ok(_) => {},
            Err(e) => return Err(e),
        }
        let ghost old_labels = self.pending_labels();
        let ghost label_view = label@;
        let id = self.next_id;
        self.ids.push(id);
        self.payloads.push(IngestPayload { label });
        self.next_id = self.next_id + 1;
        assert(self.pending_labels() =~= old_labels.push(label_view));
        Ok(self.ids.len() >= self.batch_size)
    }

    /// Whether points are waiting to be sent.
    pub fn has_pending(&self) -> (b: bool)
        ensures
            b == (self.pending_ids().len() > 0),
    {
        self.ids.len() > 0
    }

    /// Numbers of the points waiting to be sent.
    pub fn pending_ids_vec(&self) -> (ids: &Vec<u64>)
        ensures
            ids@ == self.pending_ids(),
    {
        &self.ids
    }

    /// Payloads of the points waiting to be sent.
    pub fn pending_payloads(&self) -> (p: &Vec<IngestPayload>)
        ensures
            p@.map_values(|q: IngestPayload| q.label@) == self.pending_labels(),
    {
        &self.payloads
    }

    /// Records that the waiting points were sent.
    pub fn mark_sent(&mut self)
        requires
            old(self).wf(),
        ensures
            final(self).wf(),
            final(self).processed() == old(self).processed() + old(self).pending_ids().len(),
            final(self).pending_ids() == Seq::<u64>::empty(),
            final(self).pending_labels() == Seq::<Seq<char>>::empty(),
            final(self).next_id() == old(self).next_id(),
            final(self).batch_size() == old(self).batch_size(),
    {
        self.processed = self.processed + self.ids.len() as u64;
        self.ids = Vec::new();
        self.payloads = Vec::new();
        assert(self.pending_labels() =~= Seq::<Seq<char>>::empty());
    }

    /// Number the next accepted point will get.
    pub fn next_point_id(&self) -> (n: u64)
        ensures
            n == self.next_id(),
    {
        self.next_id
    }

    /// Points sent so far.
    pub fn processed_count(&self) -> (n: u64)
        ensures
            n == self.processed(),
    {
        self.processed
    }

    /// Ends the ingestion: it is an error when no point was sent.
    pub fn finish(&self) -> (r: Result<(), AppError>)
        ensures
            match r {
                Ok(()) => self.processed() > 0,
                Err(e) => {
                    &&& self.processed() == 0
                    &&& e matches AppError::Startup(m) && m@ == nothing_ingested_text()
                },
            },
    {
        if self.processed == 0 {
            return Err(
                AppError::Startup(
                    String::from_str("Reference dataset ingestion did not import any vectors"),
                ),
            );
        }
        Ok(())
    }
}

} // verus!
