//! The append-only log: the text of a whole log file to and from the notes
//! it stores.
//!
//! The file is a run of records, each followed by the record delimiter.
//! Replay splits the whole contents on that delimiter, passes over empty
//! chunks, and decodes the rest in file order; the first undecodable record
//! aborts the replay, so a store never comes up on an unreadable log.
//! Reading and writing the file itself is the surrounding program's work:
//! it hands the contents in and writes returned entries out.

use crate::codec::decode;
use crate::codec::encode;
use crate::codec::field_fits;
use crate::codec::has_field_delim;
use crate::codec::lemma_concat_not_contains;
use crate::codec::lemma_digits_clean;
use crate::codec::lemma_encode_decode;
use crate::codec::record_delim;
use crate::codec::record_delim_str;
use crate::codec::spec_decode;
use crate::codec::spec_encode;
use crate::codec::DecodeError;
use crate::codec::Note;
use crate::codec::NoteView;
use crate::date::lemma_format_date_clean;
use crate::digits::lemma_spec_dec_digits;
use crate::split::lemma_split_on_append;
use crate::split::split_on;
use crate::split::split_str;
use vstd::prelude::*;

verus! {

/// The notes read from a sequence of record chunks: empty chunks are passed
/// over, and the first bad record aborts the whole replay.
pub open spec fn spec_decode_all(chunks: Seq<Seq<char>>) -> Result<Seq<NoteView>, DecodeError>
    decreases chunks.len(),
{
    if chunks.len() == 0 {
        Ok(Seq::empty())
    } else if chunks.first().len() == 0 {
        spec_decode_all(chunks.drop_first())
    } else {
        match spec_decode(chunks.first()) {
            Err(e) => Err(e),
            Ok(n) => match spec_decode_all(chunks.drop_first()) {
                Err(e) => Err(e),
                Ok(rest) => Ok(seq![n] + rest),
            },
        }
    }
}

/// What replaying a whole log file yields.
pub open spec fn spec_replay(s: Seq<char>) -> Result<Seq<NoteView>, DecodeError> {
    spec_decode_all(split_on(s, record_delim()))
}

fn decode_chunks(chunks: &Vec<String>, from: usize) -> (r: Result<Vec<Note>, DecodeError>)
    requires
        from <= chunks.len(),
    ensures
        match r {
            Ok(v) => spec_decode_all(chunks.deep_view().skip(from as int)) == Ok::<
                Seq<NoteView>,
                DecodeError,
            >(v.deep_view()),
            Err(e) => spec_decode_all(chunks.deep_view().skip(from as int)) == Err::<
                Seq<NoteView>,
                DecodeError,
            >(e),
        },
    decreases chunks.len() - from,
{
    let ghost tail = chunks.deep_view().skip(from as int);
    if from == chunks.len() {
        let v: Vec<Note> = Vec::new();
        proof {
            assert(tail =~= Seq::<Seq<char>>::empty());
            assert(v.deep_view() =~= Seq::<NoteView>::empty());
        }
        Ok(v)
    } else {
        proof {
            assert(tail.first() == chunks.deep_view()[from as int]);
            assert(tail.drop_first() =~= chunks.deep_view().skip(from as int + 1));
            assert(chunks.deep_view()[from as int] == chunks@[from as int]@);
        }
        if chunks[from].as_str().unicode_len() == 0 {
            let r2 = decode_chunks(chunks, from + 1);
            proof {
                assert(tail.first().len() == 0);
                assert(spec_decode_all(tail) == spec_decode_all(
                    chunks.deep_view().skip(from as int + 1),
                ));
            }
            r2
        } else {
            match decode(chunks[from].as_str()) {
                Err(e) => {
                    proof {
                        assert(spec_decode_all(tail) == Err::<Seq<NoteView>, DecodeError>(e));
                    }
                    Err(e)
                },
                Ok(n) => match decode_chunks(chunks, from + 1) {
                    Err(e) => Err(e),
                    Ok(rest) => {
                        let mut rest = rest;
                        let ghost rv = rest.deep_view();
                        rest.insert(0, n);
                        proof {
                            assert(rest.deep_view() =~= seq![n@] + rv);
                            assert(spec_decode_all(tail) == Ok::<Seq<NoteView>, DecodeError>(
                                seq![n@] + rv,
                            ));
                        }
                        Ok(rest)
                    },
                },
            }
        }
    }
}

/// Replays a whole log file's contents: every stored note, in file order.
pub fn load_data(contents: &str) -> (r: Result<Vec<Note>, DecodeError>)
    ensures
        match r {
            Ok(v) => spec_replay(contents@) == Ok::<Seq<NoteView>, DecodeError>(v.deep_view()),
            Err(e) => spec_replay(contents@) == Err::<Seq<NoteView>, DecodeError>(e),
        },
{
    let rd = record_delim_str();
    let chunks = split_str(contents, rd);
    proof {
        assert(chunks.deep_view().skip(0) =~= chunks.deep_view());
    }
    decode_chunks(&chunks, 0)
}

/// The log entry one note appends to the file: its record, followed by the
/// record delimiter.
pub fn append_note(note: &Note) -> (r: String)
    requires
        note.date.wf(),
    ensures
        r@ == spec_encode(note@) + record_delim(),
{
    let mut out = encode(note);
    out.append(record_delim_str());
    out
}

/// The file contents after appending each note's log entry in turn to an
/// empty file.
pub open spec fn spec_log_of(notes: Seq<NoteView>) -> Seq<char>
    decreases notes.len(),
{
    if notes.len() == 0 {
        Seq::empty()
    } else {
        spec_encode(notes.first()) + record_delim() + spec_log_of(notes.drop_first())
    }
}

/// A note the log can carry intact: each free-text field fits its place in
/// the record, and none holds a newline, the character that opens and
/// closes the record delimiter.
pub open spec fn clean_note(n: NoteView) -> bool {
    &&& n.date.wf()
    &&& n.id <= usize::MAX
    &&& field_fits(n.text) && !n.text.contains('\n')
    &&& field_fits(n.sender) && !n.sender.contains('\n')
    &&& !has_field_delim(n.reciever) && !n.reciever.contains('\n')
}

/// A clean note's record holds no newline, so no record delimiter can arise
/// inside or straddling it.
proof fn lemma_encode_clean(n: NoteView)
    requires
        clean_note(n),
    ensures
        !spec_encode(n).contains('\n'),
        spec_encode(n).len() > 0,
{
    let fd = crate::codec::field_delim();
    let f0 = crate::digits::spec_dec(n.id as int);
    let f2 = crate::date::spec_format_date(n.date);
    lemma_spec_dec_digits(n.id as int);
    lemma_digits_clean(f0);
    lemma_format_date_clean(n.date);
    assert(!fd.contains('\n')) by {
        if fd.contains('\n') {
            let i = choose|i: int| 0 <= i < fd.len() && fd[i] == '\n';
        }
    }
    lemma_concat_not_contains(f0, fd, '\n');
    lemma_concat_not_contains(f0 + fd, n.text, '\n');
    lemma_concat_not_contains(f0 + fd + n.text, fd, '\n');
    lemma_concat_not_contains(f0 + fd + n.text + fd, f2, '\n');
    lemma_concat_not_contains(f0 + fd + n.text + fd + f2, fd, '\n');
    lemma_concat_not_contains(f0 + fd + n.text + fd + f2 + fd, n.sender, '\n');
    lemma_concat_not_contains(f0 + fd + n.text + fd + f2 + fd + n.sender, fd, '\n');
    lemma_concat_not_contains(f0 + fd + n.text + fd + f2 + fd + n.sender + fd, n.reciever, '\n');
}

/// Order preservation: a log written by appending clean notes in order
/// replays to exactly those notes, in the same order.
#[verifier::rlimit(100)]
pub proof fn lemma_replay_round_trip(notes: Seq<NoteView>)
    requires
        forall|i: int| 0 <= i < notes.len() ==> clean_note(#[trigger] notes[i]),
    ensures
        spec_replay(spec_log_of(notes)) == Ok::<Seq<NoteView>, DecodeError>(notes),
    decreases notes.len(),
{
    let rd = record_delim();
    if notes.len() == 0 {
        let chunks = split_on(spec_log_of(notes), rd);
        assert(chunks =~= seq![Seq::<char>::empty()]);
        assert(spec_decode_all(Seq::<Seq<char>>::empty()) == Ok::<Seq<NoteView>, DecodeError>(
            Seq::empty(),
        ));
        assert(chunks.drop_first() =~= Seq::<Seq<char>>::empty());
        assert(chunks.first().len() == 0);
        assert(spec_decode_all(chunks) == spec_decode_all(chunks.drop_first()));
        assert(notes =~= Seq::<NoteView>::empty());
    } else {
        let n0 = notes.first();
        let e0 = spec_encode(n0);
        let rest = spec_log_of(notes.drop_first());
        lemma_encode_clean(n0);
        assert(spec_log_of(notes) =~= e0 + rd + rest);
        lemma_split_on_append(e0, rd, rest);
        lemma_replay_round_trip(notes.drop_first());
        lemma_encode_decode(n0);
        let chunks = seq![e0] + split_on(rest, rd);
        assert(chunks.first() == e0);
        assert(chunks.drop_first() =~= split_on(rest, rd));
        assert(spec_decode_all(chunks) == Ok::<Seq<NoteView>, DecodeError>(
            seq![n0] + notes.drop_first(),
        ));
        assert(seq![n0] + notes.drop_first() =~= notes);
    }
}

} // verus!
