//! The in-memory side of the store: the insertion-ordered index of notes
//! and the monotonic id allocator, owned together by one `Store` value.
//!
//! One `Store` is built per process, from the replayed log, and every
//! request handler works through it. The surrounding program guards the
//! whole value with one mutual-exclusion lock, so a snapshot never sees a
//! half-applied append; nothing here performs I/O, so no lock is held
//! across file work.

use crate::codec::clone_note;
use crate::codec::Note;
use crate::codec::NoteDto;
use crate::codec::NoteView;
use crate::date::NoteDate;
use crate::log::append_note;
use vstd::prelude::*;

verus! {

/// The index of all notes in insertion order, and the counter the next
/// created note takes its id from.
pub struct Store {
    pub notes: Vec<Note>,
    pub next_id: usize,
}

/// The last note in insertion order that names `user` as its sender or its
/// receiver.
pub open spec fn spec_latest_for(notes: Seq<NoteView>, user: Seq<char>) -> Option<NoteView>
    decreases notes.len(),
{
    if notes.len() == 0 {
        None
    } else if notes.last().sender == user || notes.last().reciever == user {
        Some(notes.last())
    } else {
        spec_latest_for(notes.drop_last(), user)
    }
}

impl Store {
    /// The store's contents as mathematical values, in insertion order.
    pub open spec fn contents(&self) -> Seq<NoteView> {
        self.notes.deep_view()
    }

    /// Builds the store from the replayed notes. The id counter is seeded
    /// one past the largest replayed id, and to 0 when nothing was
    /// replayed.
    pub fn initialize(notes: Vec<Note>) -> (s: Store)
        requires
            forall|i: int| 0 <= i < notes@.len() ==> (#[trigger] notes@[i]).id < usize::MAX,
        ensures
            s.notes == notes,
            notes@.len() == 0 ==> s.next_id == 0,
            notes@.len() > 0 ==> (exists|i: int|
                0 <= i < notes@.len() && s.next_id == (#[trigger] notes@[i]).id + 1),
            forall|i: int| 0 <= i < notes@.len() ==> (#[trigger] notes@[i]).id < s.next_id,
    {
        if notes.len() == 0 {
            return Store { notes, next_id: 0 };
        }
        let mut max_id: usize = notes[0].id;
        let ghost w: int = 0;
        let mut k: usize = 1;
        while k < notes.len()
            invariant
                1 <= k <= notes@.len(),
                0 <= w < k,
                max_id == notes@[w].id,
                forall|i: int| 0 <= i < k ==> (#[trigger] notes@[i]).id <= max_id,
                forall|i: int| 0 <= i < notes@.len() ==> (#[trigger] notes@[i]).id < usize::MAX,
            decreases notes@.len() - k,
        {
            if notes[k].id > max_id {
                max_id = notes[k].id;
                proof {
                    w = k as int;
                }
            }
            k += 1;
        }
        Store { notes, next_id: max_id + 1 }
    }

    /// Hands out the next id: the counter's value, which no earlier or
    /// later call of this store can also return.
    pub fn get_id(&mut self) -> (id: usize)
        requires
            old(self).next_id < usize::MAX,
        ensures
            id == old(self).next_id,
            final(self).next_id == old(self).next_id + 1,
            final(self).notes == old(self).notes,
    {
        let id = self.next_id;
        self.next_id = self.next_id + 1;
        id
    }

    /// Adds a note at the end of the index; nothing is removed or
    /// reordered.
    pub fn append(&mut self, note: Note)
        ensures
            final(self).notes@ == old(self).notes@.push(note),
            final(self).contents() == old(self).contents().push(note@),
            final(self).next_id == old(self).next_id,
    {
        self.notes.push(note);
        proof {
            assert(self.contents() =~= old(self).contents().push(note@));
        }
    }

    /// A full copy of the index, in insertion order.
    pub fn snapshot(&self) -> (r: Vec<Note>)
        ensures
            r.deep_view() == self.contents(),
    {
        let mut out: Vec<Note> = Vec::new();
        let mut k: usize = 0;
        while k < self.notes.len()
            invariant
                k <= self.notes@.len(),
                out@.len() == k,
                forall|i: int| 0 <= i < k ==> (#[trigger] out@[i])@ == self.notes@[i]@,
            decreases self.notes@.len() - k,
        {
            let ghost pv = out@;
            let copy = clone_note(&self.notes[k]);
            out.push(copy);
            proof {
                assert(out@ == pv.push(copy));
                assert(forall|i: int| 0 <= i < k ==> out@[i] == pv[i]);
            }
            k += 1;
        }
        proof {
            assert forall|i: int| 0 <= i < self.notes@.len() implies out.deep_view()[i]
                == self.contents()[i] by {
                assert(out.deep_view()[i] == out@[i]@);
                assert(self.contents()[i] == self.notes@[i]@);
            }
            assert(out.deep_view() =~= self.contents());
        }
        out
    }

    /// The most recent note involving `user`, or nothing when no note
    /// names it.
    pub fn latest_for(&self, user: &String) -> (r: Option<Note>)
        ensures
            r.deep_view() == spec_latest_for(self.contents(), user@),
    {
        let mut k: usize = self.notes.len();
        proof {
            assert(self.contents().take(k as int) =~= self.contents());
        }
        while k > 0
            invariant
                k <= self.notes@.len(),
                spec_latest_for(self.contents(), user@) == spec_latest_for(
                    self.contents().take(k as int),
                    user@,
                ),
            decreases k,
        {
            k = k - 1;
            let ghost pre = self.contents().take(k + 1);
            proof {
                assert(pre.last() == self.contents()[k as int]);
                assert(pre.drop_last() =~= self.contents().take(k as int));
                assert(self.contents()[k as int] == self.notes@[k as int]@);
            }
            let n = &self.notes[k];
            if n.sender.eq(user) || n.reciever.eq(user) {
                let found = clone_note(n);
                proof {
                    assert(pre.last().sender == user@ || pre.last().reciever == user@);
                    assert(spec_latest_for(pre, user@) == Some(found@));
                }
                return Some(found);
            }
            proof {
                assert(!(pre.last().sender == user@ || pre.last().reciever == user@));
            }
        }
        proof {
            assert(self.contents().take(0) =~= Seq::<NoteView>::empty());
        }
        None
    }

    /// The compute core of one create request: takes the next id, builds
    /// the note (a missing receiver falls back to the sender), always adds
    /// it to the index, and when the request asks for persistence also
    /// returns the log entry the caller must write to the file.
    pub fn create_note(&mut self, dto: NoteDto, date: NoteDate) -> (r: (Note, Option<String>))
        requires
            old(self).next_id < usize::MAX,
            date.wf(),
        ensures
            r.0@ == (NoteView {
                id: old(self).next_id as nat,
                text: dto.text@,
                date: date,
                sender: dto.sender@,
                reciever: match dto.reciever {
                    Some(v) => v@,
                    None => dto.sender@,
                },
            }),
            final(self).contents() == old(self).contents().push(r.0@),
            final(self).next_id == old(self).next_id + 1,
            match r.1 {
                Some(entry) => dto.persist && entry@ == crate::codec::spec_encode(r.0@)
                    + crate::codec::record_delim(),
                None => !dto.persist,
            },
    {
        let id = self.get_id();
        let sender = dto.sender;
        let reciever = match dto.reciever {
            Some(v) => v,
            None => sender.clone(),
        };
        let note = Note { id, text: dto.text, date, reciever, sender };
        let entry = if dto.persist {
            Some(append_note(&note))
        } else {
            None
        };
        let copy = clone_note(&note);
        self.append(copy);
        (note, entry)
    }
}

/// The ids a store hands out over `n` consecutive `get_id` calls starting
/// from counter value `c`: each call returns the counter and steps it by
/// one.
pub open spec fn ids_issued(c: nat, n: nat) -> Seq<nat> {
    Seq::new(n, |k: int| (c + k) as nat)
}

/// Id uniqueness: however many ids one store hands out, they are pairwise
/// distinct and strictly increasing in the order they were issued.
pub proof fn lemma_issued_ids_distinct(c: nat, n: nat)
    ensures
        forall|j: int, k: int|
            0 <= j < k < n ==> ids_issued(c, n)[j] < ids_issued(c, n)[k],
        forall|j: int, k: int|
            0 <= j < k < n ==> ids_issued(c, n)[j] != ids_issued(c, n)[k],
{
}

} // verus!

