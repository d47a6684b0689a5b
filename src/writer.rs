//! The encoding session of one archive: takes entries and their contents in
//! order, hands back the bytes to send, and checks that each file's contents
//! match the size its header declared.
use vstd::prelude::*;
use crate::tar::{
    ArchiveEntry, EncodeError, EntryKind, archive, declared_size, encode_header,
    entry_header_bytes, fields_fit, law_archive_round_trip, name_ok, pad_len, padding, read_archive,
    readable, record, records, terminator, terminator_blocks, unpacked_of, zeros,
};

verus! {

/// Where an encoding session stands.
#[derive(Clone, Copy, Debug, PartialEq, Eq, Structural)]
pub enum WriterPhase {
    /// Between entries.
    Ready,
    /// Inside a file's contents.
    InFile,
    /// The terminator has been handed out; nothing follows.
    Completed,
    /// An error ended the session.
    Failed,
}

pub struct ArchiveWriter {
    phase: WriterPhase,
    remaining: u64,
    size: u64,
    entries: Ghost<Seq<ArchiveEntry>>,
    contents: Ghost<Seq<Seq<u8>>>,
    current: Ghost<ArchiveEntry>,
    data: Ghost<Seq<u8>>,
    partial: Ghost<Seq<u8>>,
    emitted: Ghost<Seq<u8>>,
}

/// A session in `phase` leaves an error in `Failed`, except a completed
/// one, which stays completed.
pub open spec fn phase_after_error(phase: WriterPhase) -> WriterPhase {
    if phase == WriterPhase::Completed {
        WriterPhase::Completed
    } else {
        WriterPhase::Failed
    }
}

impl ArchiveWriter {
    pub closed spec fn phase(&self) -> WriterPhase {
        self.phase
    }

    /// Every byte handed out so far, in order.
    pub closed spec fn emitted(&self) -> Seq<u8> {
        self.emitted@
    }

    /// The entries whose records are complete.
    pub closed spec fn entries(&self) -> Seq<ArchiveEntry> {
        self.entries@
    }

    /// The contents of those entries.
    pub closed spec fn contents(&self) -> Seq<Seq<u8>> {
        self.contents@
    }

    /// The file being written, while in `InFile`, or cut short, in `Failed`.
    pub closed spec fn current(&self) -> ArchiveEntry {
        self.current@
    }

    /// The contents of that file handed out so far.
    pub closed spec fn current_data(&self) -> Seq<u8> {
        self.data@
    }

    /// In `Failed`: what was handed out after the last complete record.
    pub closed spec fn unfinished(&self) -> Seq<u8> {
        self.partial@
    }

    pub closed spec fn wf(&self) -> bool {
        &&& readable(self.entries@, self.contents@)
        &&& match self.phase {
            WriterPhase::Ready => self.emitted@ == records(self.entries@, self.contents@),
            WriterPhase::InFile => {
                &&& self.current@.kind == EntryKind::File
                &&& name_ok(self.current@) && fields_fit(self.current@)
                &&& self.size == self.current@.size
                &&& self.data@.len() + self.remaining == self.size
                &&& self.emitted@ == records(self.entries@, self.contents@) + entry_header_bytes(
                    self.current@,
                ) + self.data@
            },
            WriterPhase::Completed => self.emitted@ == archive(self.entries@, self.contents@),
            WriterPhase::Failed => {
                &&& self.emitted@ == records(self.entries@, self.contents@) + self.partial@
                &&& self.partial@.len() == 0 || {
                    &&& self.current@.kind == EntryKind::File
                    &&& self.data@.len() <= self.current@.size
                    &&& self.partial@ == entry_header_bytes(self.current@) + self.data@
                }
            },
        }
    }

    /// A session with nothing written.
    pub fn new() -> (w: ArchiveWriter)
        ensures
            w.wf(),
            w.phase() == WriterPhase::Ready,
            w.emitted() == Seq::<u8>::empty(),
            w.entries() == Seq::<ArchiveEntry>::empty(),
    {
        ArchiveWriter {
            phase: WriterPhase::Ready,
            remaining: 0,
            size: 0,
            entries: Ghost(Seq::empty()),
            contents: Ghost(Seq::empty()),
            current: Ghost(arbitrary()),
            data: Ghost(Seq::empty()),
            partial: Ghost(Seq::empty()),
            emitted: Ghost(Seq::empty()),
        }
    }

    pub fn current_phase(&self) -> (r: WriterPhase)
        ensures
            r == self.phase(),
    {
        self.phase
    }

    /// Ends the session on an error: what was handed out stays as it is.
    fn stop(&mut self)
        requires
            old(self).wf(),
        ensures
            final(self).wf(),
            final(self).phase() == phase_after_error(old(self).phase()),
            final(self).emitted() == old(self).emitted(),
            final(self).entries() == old(self).entries(),
            final(self).contents() == old(self).contents(),
    {
        if self.phase == WriterPhase::Completed {
            return;
        }
        proof {
            if self.phase == WriterPhase::InFile {
                self.partial@ = entry_header_bytes(self.current@) + self.data@;
                assert(self.emitted@ =~= records(self.entries@, self.contents@) + self.partial@);
            } else if self.phase == WriterPhase::Ready {
                self.partial@ = Seq::empty();
                assert(self.emitted@ =~= records(self.entries@, self.contents@) + self.partial@);
            }
        }
        self.phase = WriterPhase::Failed;
    }

    /// Starts an entry and returns what precedes its data. A directory's
    /// record is then complete; a file's contents follow through
    /// `write_data`, and `end_entry` closes it.
    pub fn begin_entry(&mut self, e: &ArchiveEntry) -> (r: Result<Vec<u8>, EncodeError>)
        requires
            old(self).wf(),
        ensures
            final(self).wf(),
            r is Ok <==> (old(self).phase() == WriterPhase::Ready && name_ok(*e) && fields_fit(*e)),
            match r {
                Ok(h) => {
                    &&& h@ == entry_header_bytes(*e)
                    &&& final(self).emitted() == old(self).emitted() + h@
                    &&& if e.kind == EntryKind::Directory {
                        &&& final(self).phase() == WriterPhase::Ready
                        &&& final(self).entries() == old(self).entries().push(*e)
                        &&& final(self).contents() == old(self).contents().push(Seq::empty())
                    } else {
                        &&& final(self).phase() == WriterPhase::InFile
                        &&& final(self).entries() == old(self).entries()
                        &&& final(self).current() == *e
                        &&& final(self).current_data() == Seq::<u8>::empty()
                    }
                },
                Err(err) => {
                    &&& final(self).phase() == phase_after_error(old(self).phase())
                    &&& final(self).emitted() == old(self).emitted()
                    &&& err == if old(self).phase() != WriterPhase::Ready {
                        EncodeError::OutOfOrder
                    } else if !name_ok(*e) {
                        EncodeError::InvalidName
                    } else {
                        EncodeError::FieldOverflow
                    }
                },
            },
    {
        if self.phase != WriterPhase::Ready {
            self.stop();
            return Err(EncodeError::OutOfOrder);
        }
        match encode_header(e) {
            Err(err) => {
                self.stop();
                Err(err)
            },
            Ok(h) => {
                proof {
                    self.emitted@ = self.emitted@ + h@;
                }
                if e.kind == EntryKind::Directory {
                    proof {
                        let es = self.entries@.push(*e);
                        let ds = self.contents@.push(Seq::<u8>::empty());
                        assert(es.drop_last() =~= self.entries@);
                        assert(ds.drop_last() =~= self.contents@);
                        assert(record(*e, Seq::empty()) =~= h@);
                        assert forall|i: int| 0 <= i < es.len() implies name_ok(#[trigger] es[i])
                            && fields_fit(es[i]) by {
                            if i < es.len() - 1 {
                                assert(es[i] == self.entries@[i]);
                            }
                        }
                        assert forall|i: int| 0 <= i < es.len() implies (#[trigger] ds[i]).len()
                            == declared_size(es[i]) by {
                            if i < es.len() - 1 {
                                assert(es[i] == self.entries@[i]);
                                assert(ds[i] == self.contents@[i]);
                            }
                        }
                        self.entries@ = es;
                        self.contents@ = ds;
                    }
                } else {
                    self.phase = WriterPhase::InFile;
                    self.remaining = e.size;
                    self.size = e.size;
                    proof {
                        self.current@ = *e;
                        self.data@ = Seq::empty();
                        assert(self.emitted@ =~= records(self.entries@, self.contents@)
                            + entry_header_bytes(*e) + Seq::<u8>::empty());
                    }
                }
                Ok(h)
            },
        }
    }

    /// Passes on a piece of the current file's contents. Contents beyond the
    /// declared size (the file grew) end the session with `SizeMismatch`.
    pub fn write_data(&mut self, chunk: Vec<u8>) -> (r: Result<Vec<u8>, EncodeError>)
        requires
            old(self).wf(),
        ensures
            final(self).wf(),
            r is Ok <==> (old(self).phase() == WriterPhase::InFile && old(self).current_data().len()
                + chunk@.len() <= old(self).current().size),
            match r {
                Ok(d) => {
                    &&& d@ == chunk@
                    &&& final(self).phase() == WriterPhase::InFile
                    &&& final(self).emitted() == old(self).emitted() + chunk@
                    &&& final(self).current_data() == old(self).current_data() + chunk@
                    &&& final(self).current() == old(self).current()
                    &&& final(self).entries() == old(self).entries()
                },
                Err(err) => {
                    &&& final(self).phase() == phase_after_error(old(self).phase())
                    &&& final(self).emitted() == old(self).emitted()
                    &&& err == if old(self).phase() != WriterPhase::InFile {
                        EncodeError::OutOfOrder
                    } else {
                        EncodeError::SizeMismatch
                    }
                },
            },
    {
        if self.phase != WriterPhase::InFile {
            self.stop();
            return Err(EncodeError::OutOfOrder);
        }
        let n = chunk.len() as u64;
        if n > self.remaining {
            self.stop();
            return Err(EncodeError::SizeMismatch);
        }
        self.remaining = self.remaining - n;
        proof {
            self.data@ = self.data@ + chunk@;
            self.emitted@ = self.emitted@ + chunk@;
            assert(self.emitted@ =~= records(self.entries@, self.contents@) + entry_header_bytes(
                self.current@,
            ) + self.data@);
        }
        Ok(chunk)
    }

    /// Closes the current file and returns its padding. Contents short of the
    /// declared size (the file shrank) end the session with `SizeMismatch`.
    pub fn end_entry(&mut self) -> (r: Result<Vec<u8>, EncodeError>)
        requires
            old(self).wf(),
        ensures
            final(self).wf(),
            r is Ok <==> (old(self).phase() == WriterPhase::InFile && old(self).current_data().len()
                == old(self).current().size),
            match r {
                Ok(p) => {
                    &&& p@ == zeros(pad_len(old(self).current().size as nat))
                    &&& final(self).phase() == WriterPhase::Ready
                    &&& final(self).emitted() == old(self).emitted() + p@
                    &&& final(self).entries() == old(self).entries().push(old(self).current())
                    &&& final(self).contents() == old(self).contents().push(
                        old(self).current_data(),
                    )
                },
                Err(err) => {
                    &&& final(self).phase() == phase_after_error(old(self).phase())
                    &&& final(self).emitted() == old(self).emitted()
                    &&& err == if old(self).phase() != WriterPhase::InFile {
                        EncodeError::OutOfOrder
                    } else {
                        EncodeError::SizeMismatch
                    }
                },
            },
    {
        if self.phase != WriterPhase::InFile {
            self.stop();
            return Err(EncodeError::OutOfOrder);
        }
        if self.remaining != 0 {
            self.stop();
            return Err(EncodeError::SizeMismatch);
        }
        let p = padding(self.size);
        self.phase = WriterPhase::Ready;
        proof {
            let es = self.entries@.push(self.current@);
            let ds = self.contents@.push(self.data@);
            assert(es.drop_last() =~= self.entries@);
            assert(ds.drop_last() =~= self.contents@);
            self.emitted@ = self.emitted@ + p@;
            assert(self.emitted@ =~= records(es, ds));
            assert forall|i: int| 0 <= i < es.len() implies name_ok(#[trigger] es[i]) && fields_fit(
                es[i],
            ) by {
                if i < es.len() - 1 {
                    assert(es[i] == self.entries@[i]);
                }
            }
            assert forall|i: int| 0 <= i < es.len() implies (#[trigger] ds[i]).len() == declared_size(
                es[i],
            ) by {
                if i < es.len() - 1 {
                    assert(es[i] == self.entries@[i]);
                    assert(ds[i] == self.contents@[i]);
                }
            }
            self.entries@ = es;
            self.contents@ = ds;
        }
        Ok(p)
    }

    /// Ends the archive between entries and returns its terminator.
    pub fn finish(&mut self) -> (r: Result<Vec<u8>, EncodeError>)
        requires
            old(self).wf(),
        ensures
            final(self).wf(),
            final(self).entries() == old(self).entries(),
            final(self).contents() == old(self).contents(),
            r is Ok <==> old(self).phase() == WriterPhase::Ready,
            match r {
                Ok(t) => {
                    &&& t@ == terminator()
                    &&& final(self).phase() == WriterPhase::Completed
                    &&& final(self).emitted() == old(self).emitted() + t@
                },
                Err(err) => {
                    &&& err == EncodeError::OutOfOrder
                    &&& final(self).phase() == phase_after_error(old(self).phase())
                    &&& final(self).emitted() == old(self).emitted()
                },
            },
    {
        if self.phase != WriterPhase::Ready {
            self.stop();
            return Err(EncodeError::OutOfOrder);
        }
        let t = terminator_blocks();
        self.phase = WriterPhase::Completed;
        proof {
            self.emitted@ = self.emitted@ + t@;
        }
        Ok(t)
    }

    /// Ends the session on an error found outside the encoder (an entry that
    /// could not be read). A completed session stays completed.
    pub fn fail(&mut self)
        requires
            old(self).wf(),
        ensures
            final(self).wf(),
            final(self).phase() == phase_after_error(old(self).phase()),
            final(self).emitted() == old(self).emitted(),
    {
        self.stop();
    }
}

/// A session that completed has handed out exactly the archive of its
/// entries, its bytes end with the terminator, and a reader gets back every
/// entry with its exact contents, in order.
pub proof fn law_completed_ends_with_terminator(w: ArchiveWriter)
    requires
        w.wf(),
        w.phase() == WriterPhase::Completed,
    ensures
        w.emitted() == archive(w.entries(), w.contents()),
        w.emitted().len() >= 1024,
        w.emitted().skip(w.emitted().len() - 1024) == terminator(),
        read_archive(w.emitted()) == Seq::new(
            w.entries().len(),
            |i: int| unpacked_of(w.entries()[i], w.contents()[i]),
        ),
{
    assert(w.emitted().skip(w.emitted().len() - 1024) =~= terminator());
    law_archive_round_trip(w.entries(), w.contents());
}

/// A session that has not completed has handed out only whole records and,
/// after them, at most one entry's header with no more data than it
/// declared: no terminator was ever appended. This holds of a failed
/// session too.
pub proof fn law_unfinished_has_no_terminator(w: ArchiveWriter)
    requires
        w.wf(),
        w.phase() != WriterPhase::Completed,
    ensures
        w.phase() == WriterPhase::Ready ==> w.emitted() == records(w.entries(), w.contents()),
        w.phase() == WriterPhase::InFile ==> w.emitted() == records(w.entries(), w.contents())
            + entry_header_bytes(w.current()) + w.current_data() && w.current_data().len()
            <= w.current().size,
        w.phase() == WriterPhase::Failed ==> w.emitted() == records(w.entries(), w.contents())
            + w.unfinished() && (w.unfinished().len() == 0 || (w.unfinished() == entry_header_bytes(
            w.current()) + w.current_data() && w.current_data().len() <= w.current().size)),
{
}

/// Every complete record's data is exactly the declared number of bytes,
/// and its entry passed the name and field checks.
pub proof fn law_contents_match_sizes(w: ArchiveWriter, i: int)
    requires
        w.wf(),
        0 <= i < w.entries().len(),
    ensures
        w.contents()[i].len() == declared_size(w.entries()[i]),
        name_ok(w.entries()[i]) && fields_fit(w.entries()[i]),
{
}

} // verus!
