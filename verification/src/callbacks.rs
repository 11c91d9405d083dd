//! The callbacks through which an application gives records their meaning.
//!
//! `Input` carries the command and *all* its non-determinism (timestamps,
//! random numbers) so that the same input replayed from the log evolves the
//! record identically. Each callback therefore comes with a specification
//! function: what it answers, what it makes of the record and what it leaves in
//! the output is determined by its arguments.
//!
//! Specifications speak of records without their header word (`body`): the
//! structural bits are the store's business.
use crate::record::{RecordPtr, RecordSizeInfo, RecordView};
use vstd::prelude::*;

verus! {

/// Result of an in-place update callback.
#[derive(Clone, Copy, Debug, PartialEq, Eq, Structural)]
pub enum InPlaceResult {
    Updated,
    /// Does not fit (or is otherwise not possible) in place: copy to the tail.
    NeedCopy,
    /// The record is logically expired: tombstone it and continue as if the
    /// key did not exist.
    Expired,
    /// Do nothing (e.g. SETNX on an existing key); reports `Status::Found`.
    Cancel,
    /// Tombstone this record and stop, without falling through to the
    /// initial-update path. GETDEL is the motivating command: it needs the old
    /// value *and* the deletion in one atomic pass.
    Delete,
}

/// What the copy-to-tail path should do with a record it could not update in
/// place.
#[derive(Clone, Copy, Debug, PartialEq, Eq, Structural)]
pub enum CopyDecision {
    /// Allocate a new record and run `copy_updater`.
    Copy,
    /// Leave the record alone (e.g. SETNX on an existing key).
    Cancel,
    /// Append a tombstone instead of a new value. The callback has already
    /// written whatever reply it owes out of the old record.
    Delete,
}

/// A record without its header word.
pub open spec fn body(r: RecordView) -> RecordView {
    r.with_word(0)
}

/// The blank record a writer callback fills in.
pub open spec fn fresh(key: Seq<u8>, size: RecordSizeInfo) -> RecordView {
    RecordView {
        word: 0,
        key,
        buf: crate::bytes::zeros(size.value_cap as nat),
        len: 0,
        flags: if size.has_expiration {
            1
        } else {
            0
        },
        exp: 0,
    }
}

/// What a callback may do to a record: rewrite value and expiration.
pub open spec fn rewritten(after: RecordView, before: RecordView) -> bool {
    after.same_frame(before) && after.wf()
}

/// Asking again gives the same answer and adds nothing to the output, so that
/// an operation that had to wait for space can start over.
pub open spec fn asks_alike<F: SessionFunctions>(
    key: Seq<u8>,
    input: F::Input,
    rec: RecordView,
    o: F::OutputView,
) -> bool {
    &&& ({
        let n = F::need_initial_update_spec(key, input, o);
        F::need_initial_update_spec(key, input, n.1) == n
    })
    &&& ({
        let d = F::need_copy_update_spec(key, input, rec, o);
        F::need_copy_update_spec(key, input, rec, d.1) == d
    })
    &&& ({
        let i = F::in_place_updater_spec(key, input, rec, o);
        let d = F::need_copy_update_spec(key, input, rec, i.2);
        let again = F::in_place_updater_spec(key, input, rec, d.1);
        i.0 is NeedCopy ==> again.0 is NeedCopy && F::need_copy_update_spec(
            key,
            input,
            rec,
            again.2,
        ) == d
    })
    &&& ({
        let w = F::in_place_writer_spec(key, input, rec, o);
        !w.0 ==> !F::in_place_writer_spec(key, input, rec, w.2).0 && F::in_place_writer_spec(
            key,
            input,
            rec,
            w.2,
        ).2 == w.2
    })
}

/// What the store relies on when it starts an operation over: asking again is
/// harmless, whatever is asked.
pub open spec fn steady<F: SessionFunctions>() -> bool {
    forall|key: Seq<u8>, input: F::Input, rec: RecordView, o: F::OutputView| #[trigger]
        asks_alike::<F>(key, input, rec, o)
}

pub proof fn lemma_steady<F: SessionFunctions>(
    key: Seq<u8>,
    input: F::Input,
    rec: RecordView,
    o: F::OutputView,
)
    requires
        steady::<F>(),
    ensures
        asks_alike::<F>(key, input, rec, o),
{
}

/// What callbacks are told once an operation on a key is done.
pub enum Notice {
    /// `post_initial_writer`
    Written(Seq<u8>),
    /// `post_initial_updater`
    Made(Seq<u8>),
    /// `post_copy_updater`
    Copied(Seq<u8>),
    /// `post_deleter`
    Removed(Seq<u8>),
}

pub trait SessionFunctions {
    type Input;

    type Output;

    /// What specifications see of an output.
    type OutputView;

    open spec fn out_view(o: Self::Output) -> Self::OutputView {
        arbitrary()
    }

    /// What the callbacks were told so far, oldest first.
    open spec fn told(&self) -> Seq<Notice> {
        arbitrary()
    }

    open spec fn reader_spec(
        key: Seq<u8>,
        input: Self::Input,
        rec: RecordView,
        o: Self::OutputView,
    ) -> (bool, Self::OutputView) {
        arbitrary()
    }

    open spec fn upsert_size_spec(key: Seq<u8>, input: Self::Input) -> RecordSizeInfo {
        arbitrary()
    }

    open spec fn initial_writer_spec(
        key: Seq<u8>,
        input: Self::Input,
        rec: RecordView,
        o: Self::OutputView,
    ) -> (RecordView, Self::OutputView) {
        arbitrary()
    }

    open spec fn in_place_writer_spec(
        key: Seq<u8>,
        input: Self::Input,
        rec: RecordView,
        o: Self::OutputView,
    ) -> (bool, RecordView, Self::OutputView) {
        arbitrary()
    }

    open spec fn need_initial_update_spec(
        key: Seq<u8>,
        input: Self::Input,
        o: Self::OutputView,
    ) -> (bool, Self::OutputView) {
        arbitrary()
    }

    open spec fn initial_size_spec(key: Seq<u8>, input: Self::Input) -> RecordSizeInfo {
        arbitrary()
    }

    open spec fn initial_updater_spec(
        key: Seq<u8>,
        input: Self::Input,
        rec: RecordView,
        o: Self::OutputView,
    ) -> (RecordView, Self::OutputView) {
        arbitrary()
    }

    open spec fn in_place_updater_spec(
        key: Seq<u8>,
        input: Self::Input,
        rec: RecordView,
        o: Self::OutputView,
    ) -> (InPlaceResult, RecordView, Self::OutputView) {
        arbitrary()
    }

    open spec fn need_copy_update_spec(
        key: Seq<u8>,
        input: Self::Input,
        rec: RecordView,
        o: Self::OutputView,
    ) -> (CopyDecision, Self::OutputView) {
        arbitrary()
    }

    open spec fn copy_size_spec(key: Seq<u8>, input: Self::Input, rec: RecordView) -> RecordSizeInfo {
        arbitrary()
    }

    open spec fn copy_updater_spec(
        key: Seq<u8>,
        input: Self::Input,
        old_rec: RecordView,
        rec: RecordView,
        o: Self::OutputView,
    ) -> (RecordView, Self::OutputView) {
        arbitrary()
    }

    // ---- Read ----
    /// Transform the found value into `out`. Return false to report NotFound
    /// (e.g. the record is expired).
    fn reader(
        &mut self,
        key: &[u8],
        input: &Self::Input,
        rec: &RecordPtr,
        out: &mut Self::Output,
    ) -> (r: bool)
        requires
            rec.wf(),
        ensures
            final(self).told() == old(self).told(),
            (r, Self::out_view(*final(out))) == Self::reader_spec(
                key@,
                *input,
                body(rec@),
                Self::out_view(*old(out)),
            ),
    ;

    // ---- Upsert (blind write) ----
    fn upsert_size(&mut self, key: &[u8], input: &Self::Input) -> (r: RecordSizeInfo)
        ensures
            final(self).told() == old(self).told(),
            r == Self::upsert_size_spec(key@, *input),
            r.key_len == key@.len(),
    ;

    fn initial_writer(
        &mut self,
        key: &[u8],
        input: &Self::Input,
        rec: &mut RecordPtr,
        out: &mut Self::Output,
    )
        requires
            old(rec).wf(),
            body(old(rec)@) == fresh(key@, Self::upsert_size_spec(key@, *input)),
        ensures
            final(self).told() == old(self).told(),
            rewritten(final(rec)@, old(rec)@),
            (body(final(rec)@), Self::out_view(*final(out))) == Self::initial_writer_spec(
                key@,
                *input,
                body(old(rec)@),
                Self::out_view(*old(out)),
            ),
    ;

    fn post_initial_writer(
        &mut self,
        key: &[u8],
        input: &Self::Input,
        rec: &RecordPtr,
        out: &mut Self::Output,
    )
        ensures
            final(self).told() == old(self).told().push(Notice::Written(key@)),
            Self::out_view(*final(out)) == Self::out_view(*old(out)),
    ;

    /// Overwrite in place; return false if the new value does not fit, and
    /// leave the record alone then.
    fn in_place_writer(
        &mut self,
        key: &[u8],
        input: &Self::Input,
        rec: &mut RecordPtr,
        out: &mut Self::Output,
    ) -> (r: bool)
        requires
            old(rec).wf(),
        ensures
            final(self).told() == old(self).told(),
            rewritten(final(rec)@, old(rec)@),
            !r ==> final(rec)@ == old(rec)@,
            (r, body(final(rec)@), Self::out_view(*final(out))) == Self::in_place_writer_spec(
                key@,
                *input,
                body(old(rec)@),
                Self::out_view(*old(out)),
            ),
    ;

    // ---- RMW (Modify) ----
    fn need_initial_update(
        &mut self,
        key: &[u8],
        input: &Self::Input,
        out: &mut Self::Output,
    ) -> (r: bool)
        ensures
            final(self).told() == old(self).told(),
            (r, Self::out_view(*final(out))) == Self::need_initial_update_spec(
                key@,
                *input,
                Self::out_view(*old(out)),
            ),
    ;

    fn initial_size(&mut self, key: &[u8], input: &Self::Input) -> (r: RecordSizeInfo)
        ensures
            final(self).told() == old(self).told(),
            r == Self::initial_size_spec(key@, *input),
            r.key_len == key@.len(),
    ;

    fn initial_updater(
        &mut self,
        key: &[u8],
        input: &Self::Input,
        rec: &mut RecordPtr,
        out: &mut Self::Output,
    )
        requires
            old(rec).wf(),
            body(old(rec)@) == fresh(key@, Self::initial_size_spec(key@, *input)),
        ensures
            final(self).told() == old(self).told(),
            rewritten(final(rec)@, old(rec)@),
            (body(final(rec)@), Self::out_view(*final(out))) == Self::initial_updater_spec(
                key@,
                *input,
                body(old(rec)@),
                Self::out_view(*old(out)),
            ),
    ;

    fn post_initial_updater(
        &mut self,
        key: &[u8],
        input: &Self::Input,
        rec: &RecordPtr,
        out: &mut Self::Output,
    )
        ensures
            final(self).told() == old(self).told().push(Notice::Made(key@)),
            Self::out_view(*final(out)) == Self::out_view(*old(out)),
    ;

    /// Update in place. Unless it answers `Updated`, it leaves the record alone.
    fn in_place_updater(
        &mut self,
        key: &[u8],
        input: &Self::Input,
        rec: &mut RecordPtr,
        out: &mut Self::Output,
    ) -> (r: InPlaceResult)
        requires
            old(rec).wf(),
        ensures
            final(self).told() == old(self).told(),
            rewritten(final(rec)@, old(rec)@),
            !(r is Updated) ==> final(rec)@ == old(rec)@,
            (r, body(final(rec)@), Self::out_view(*final(out))) == Self::in_place_updater_spec(
                key@,
                *input,
                body(old(rec)@),
                Self::out_view(*old(out)),
            ),
    ;

    fn need_copy_update(
        &mut self,
        key: &[u8],
        input: &Self::Input,
        old_rec: &RecordPtr,
        out: &mut Self::Output,
    ) -> (r: CopyDecision)
        requires
            old_rec.wf(),
        ensures
            final(self).told() == old(self).told(),
            (r, Self::out_view(*final(out))) == Self::need_copy_update_spec(
                key@,
                *input,
                body(old_rec@),
                Self::out_view(*old(out)),
            ),
    ;

    fn copy_size(&mut self, key: &[u8], input: &Self::Input, old_rec: &RecordPtr) -> (r:
        RecordSizeInfo)
        requires
            old_rec.wf(),
        ensures
            final(self).told() == old(self).told(),
            r == Self::copy_size_spec(key@, *input, body(old_rec@)),
            r.key_len == key@.len(),
    ;

    fn copy_updater(
        &mut self,
        key: &[u8],
        input: &Self::Input,
        old_rec: &RecordPtr,
        rec: &mut RecordPtr,
        out: &mut Self::Output,
    )
        requires
            old_rec.wf(),
            old(rec).wf(),
            body(old(rec)@) == fresh(key@, Self::copy_size_spec(key@, *input, body(old_rec@))),
            exists|o: Self::OutputView| #[trigger]
                Self::need_copy_update_spec(key@, *input, body(old_rec@), o) == (
                    CopyDecision::Copy,
                    Self::out_view(*old(out)),
                ),
        ensures
            final(self).told() == old(self).told(),
            rewritten(final(rec)@, old(rec)@),
            (body(final(rec)@), Self::out_view(*final(out))) == Self::copy_updater_spec(
                key@,
                *input,
                body(old_rec@),
                body(old(rec)@),
                Self::out_view(*old(out)),
            ),
    ;

    fn post_copy_updater(
        &mut self,
        key: &[u8],
        input: &Self::Input,
        rec: &RecordPtr,
        out: &mut Self::Output,
    )
        ensures
            final(self).told() == old(self).told().push(Notice::Copied(key@)),
            Self::out_view(*final(out)) == Self::out_view(*old(out)),
    ;

    // ---- Delete ----
    /// Called after a record was tombstoned (in place or via a new tombstone record).
    fn post_deleter(&mut self, key: &[u8])
        ensures
            final(self).told() == old(self).told().push(Notice::Removed(key@)),
    ;
}

} // verus!
