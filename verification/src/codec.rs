//! The record codec: one note to and from its delimited on-disk text form.
//!
//! A record is the five fields `id`, `text`, `date`, `sender`, `receiver`
//! joined by the field delimiter, with no escaping. A field that itself
//! holds the delimiter therefore makes the record ambiguous; the format is
//! kept as it is for compatibility with existing logs.

use crate::date::lemma_date_round_trip;
use crate::date::lemma_format_date_clean;
use crate::date::parse_date;
use crate::date::push_date;
use crate::date::spec_format_date;
use crate::date::spec_parse_date;
use crate::date::NoteDate;
use crate::digits::all_digits;
use crate::digits::is_digit;
use crate::digits::lemma_dec_round_trip;
use crate::digits::lemma_spec_dec_digits;
use crate::digits::parse_usize_or_zero;
use crate::digits::push_dec_usize;
use crate::digits::spec_dec;
use crate::digits::spec_parse_usize;
use crate::split::lemma_split_on_append_at;
use crate::split::lemma_split_on_whole_at;
use crate::split::match_at;
use crate::split::split_on;
use crate::split::split_str;
use vstd::prelude::*;

verus! {

/// One stored message.
#[derive(Clone, Debug)]
pub struct Note {
    pub id: usize,
    pub text: String,
    pub date: NoteDate,
    pub reciever: String,
    pub sender: String,
}

/// The mathematical content of a `Note`.
#[verifier::ext_equal]
pub ghost struct NoteView {
    pub id: nat,
    pub text: Seq<char>,
    pub date: NoteDate,
    pub reciever: Seq<char>,
    pub sender: Seq<char>,
}

impl View for Note {
    type V = NoteView;

    open spec fn view(&self) -> NoteView {
        NoteView {
            id: self.id as nat,
            text: self.text@,
            date: self.date,
            reciever: self.reciever@,
            sender: self.sender@,
        }
    }
}

impl DeepView for Note {
    type V = NoteView;

    open spec fn deep_view(&self) -> NoteView {
        self.view()
    }
}

/// A creation request: the note's content, and whether to write it to the
/// log file or keep it in memory only.
#[derive(Clone, Debug)]
pub struct NoteDto {
    pub text: String,
    pub sender: String,
    pub reciever: Option<String>,
    pub persist: bool,
}

/// Why a record cannot be decoded. A malformed date is fatal; a malformed
/// id is no error at all: it reads as id 0.
#[derive(Clone, Copy, PartialEq, Eq, Structural, Debug)]
pub enum DecodeError {
    /// The record has fewer than four fields.
    MissingFields,
    /// The record's date field is not in the on-disk date form.
    BadDate,
}

/// The field delimiter: three section signs.
pub open spec fn field_delim() -> Seq<char> {
    seq!['\u{a7}', '\u{a7}', '\u{a7}']
}

/// The record delimiter: a section-bang-section line of its own.
pub open spec fn record_delim() -> Seq<char> {
    seq!['\n', '\u{a7}', '!', '\u{a7}', '\n']
}

pub fn field_delim_str() -> (r: &'static str)
    ensures
        r@ == field_delim(),
{
    let s = "\u{a7}\u{a7}\u{a7}";
    proof {
        reveal_strlit("\u{a7}\u{a7}\u{a7}");
        assert(s@ =~= field_delim());
    }
    s
}

pub fn record_delim_str() -> (r: &'static str)
    ensures
        r@ == record_delim(),
{
    let s = "\n\u{a7}!\u{a7}\n";
    proof {
        reveal_strlit("\n\u{a7}!\u{a7}\n");
        assert(s@ =~= record_delim());
    }
    s
}

/// A field that cannot disturb the record around it: it holds neither the
/// section sign of the field delimiter nor the newline of the record
/// delimiter.
pub open spec fn clean_field(s: Seq<char>) -> bool {
    !s.contains('\u{a7}') && !s.contains('\n')
}

/// The field delimiter occurs somewhere inside `s`.
pub open spec fn has_field_delim(s: Seq<char>) -> bool {
    exists|j: int| 0 <= j && j + 3 <= s.len() && #[trigger] s.subrange(j, j + 3) == field_delim()
}

/// A field the codec can carry intact through a middle position of a
/// record: the field delimiter does not occur in it, and it does not end
/// with a section sign, which would fuse with the delimiter written after
/// it.
pub open spec fn field_fits(s: Seq<char>) -> bool {
    &&& !has_field_delim(s)
    &&& (s.len() > 0 ==> s.last() != '\u{a7}')
}

/// No occurrence of the field delimiter starts inside a fitting field,
/// whatever follows the delimiter written after it.
proof fn lemma_field_no_early_match(f: Seq<char>, t: Seq<char>)
    requires
        field_fits(f),
    ensures
        forall|j: int| 0 <= j < f.len() ==> !match_at(f + field_delim() + t, field_delim(), j),
{
    let fd = field_delim();
    let s = f + fd + t;
    assert forall|j: int| 0 <= j < f.len() implies !match_at(s, fd, j) by {
        if match_at(s, fd, j) {
            assert(s.subrange(j, j + 3)[0] == fd[0]);
            assert(s.subrange(j, j + 3)[1] == fd[1]);
            assert(s.subrange(j, j + 3)[2] == fd[2]);
            if j + 3 <= f.len() {
                assert(f.subrange(j, j + 3) =~= fd);
                assert(has_field_delim(f));
            } else if j + 2 == f.len() {
                assert(f.last() == s[j + 1]);
            } else {
                assert(j + 1 == f.len());
                assert(f.last() == s[j]);
            }
        }
    }
}

/// The field delimiter cannot occur anywhere in a record's last field when
/// that field does not hold it.
proof fn lemma_last_field_no_match(f: Seq<char>)
    requires
        !has_field_delim(f),
    ensures
        forall|j: int| !match_at(f, field_delim(), j),
{
    assert forall|j: int| !match_at(f, field_delim(), j) by {
        if match_at(f, field_delim(), j) {
            assert(f.subrange(j, j + 3) == field_delim());
            assert(has_field_delim(f));
        }
    }
}

/// A field without the section sign anywhere certainly fits.
pub proof fn lemma_no_sign_fits(s: Seq<char>)
    requires
        !s.contains('\u{a7}'),
    ensures
        field_fits(s),
{
    if has_field_delim(s) {
        let j = choose|j: int|
            0 <= j && j + 3 <= s.len() && #[trigger] s.subrange(j, j + 3) == field_delim();
        assert(s.subrange(j, j + 3)[0] == '\u{a7}');
        assert(s[j] == '\u{a7}');
        assert(s.contains('\u{a7}'));
    }
    if s.len() > 0 && s.last() == '\u{a7}' {
        assert(s[s.len() - 1] == '\u{a7}');
        assert(s.contains('\u{a7}'));
    }
}

/// The on-disk text of one note: its five fields joined by the field
/// delimiter, the receiver written even when it equals the sender.
pub open spec fn spec_encode(n: NoteView) -> Seq<char> {
    spec_dec(n.id as int) + field_delim() + n.text + field_delim() + spec_format_date(n.date)
        + field_delim() + n.sender + field_delim() + n.reciever
}

/// How one record reads back: split on the field delimiter; the id field
/// reads as a number or as 0; the date field must parse or the record is
/// rejected; a fourth-field-only record reuses the sender as receiver.
pub open spec fn spec_decode(r: Seq<char>) -> Result<NoteView, DecodeError> {
    let fs = split_on(r, field_delim());
    if fs.len() < 4 {
        Err(DecodeError::MissingFields)
    } else {
        match spec_parse_date(fs[2]) {
            None => Err(DecodeError::BadDate),
            Some(dt) => Ok(
                NoteView {
                    id: (match spec_parse_usize(fs[0]) {
                        Some(v) => v,
                        None => 0,
                    }) as nat,
                    text: fs[1],
                    date: dt,
                    sender: fs[3],
                    reciever: if fs.len() >= 5 {
                        fs[4]
                    } else {
                        fs[3]
                    },
                },
            ),
        }
    }
}

/// Encodes one note as a record.
pub fn encode(note: &Note) -> (r: String)
    requires
        note.date.wf(),
    ensures
        r@ == spec_encode(note@),
{
    let mut out = String::new();
    push_dec_usize(&mut out, note.id);
    out.append(field_delim_str());
    out.append(note.text.as_str());
    out.append(field_delim_str());
    push_date(&mut out, &note.date);
    out.append(field_delim_str());
    out.append(note.sender.as_str());
    out.append(field_delim_str());
    out.append(note.reciever.as_str());
    proof {
        assert(out@ =~= spec_encode(note@));
    }
    out
}

/// Decodes one record.
pub fn decode(record: &str) -> (r: Result<Note, DecodeError>)
    ensures
        match r {
            Ok(n) => spec_decode(record@) == Ok::<NoteView, DecodeError>(n@),
            Err(e) => spec_decode(record@) == Err::<NoteView, DecodeError>(e),
        },
{
    let fd = field_delim_str();
    let fields = split_str(record, fd);
    proof {
        assert(fields.deep_view().len() == fields@.len());
    }
    if fields.len() < 4 {
        return Err(DecodeError::MissingFields);
    }
    proof {
        assert(fields.deep_view()[0] == fields@[0]@);
        assert(fields.deep_view()[1] == fields@[1]@);
        assert(fields.deep_view()[2] == fields@[2]@);
        assert(fields.deep_view()[3] == fields@[3]@);
        if fields@.len() >= 5 {
            assert(fields.deep_view()[4] == fields@[4]@);
        }
    }
    let dt = match parse_date(fields[2].as_str()) {
        None => {
            return Err(DecodeError::BadDate);
        },
        Some(dt) => dt,
    };
    let id = parse_usize_or_zero(fields[0].as_str());
    let text = fields[1].clone();
    let sender = fields[3].clone();
    let reciever = if fields.len() >= 5 {
        fields[4].clone()
    } else {
        fields[3].clone()
    };
    Ok(Note { id, text, date: dt, reciever, sender })
}

/// An equal copy of a note.
pub fn clone_note(n: &Note) -> (r: Note)
    ensures
        r@ == n@,
{
    Note {
        id: n.id,
        text: n.text.clone(),
        date: n.date,
        reciever: n.reciever.clone(),
        sender: n.sender.clone(),
    }
}

/// No sequence made only of decimal digits holds a delimiter character.
pub proof fn lemma_digits_clean(s: Seq<char>)
    requires
        all_digits(s),
    ensures
        clean_field(s),
{
    if s.contains('\u{a7}') {
        let i = choose|i: int| 0 <= i < s.len() && s[i] == '\u{a7}';
        assert(is_digit(s[i]));
    }
    if s.contains('\n') {
        let i = choose|i: int| 0 <= i < s.len() && s[i] == '\n';
        assert(is_digit(s[i]));
    }
}

/// A concatenation holds a character only where one of its parts does.
pub proof fn lemma_concat_not_contains(a: Seq<char>, b: Seq<char>, c: char)
    requires
        !a.contains(c),
        !b.contains(c),
    ensures
        !(a + b).contains(c),
{
    if (a + b).contains(c) {
        let i = choose|i: int| 0 <= i < (a + b).len() && (a + b)[i] == c;
        if i < a.len() {
            assert(a[i] == c);
        } else {
            assert(b[i - a.len()] == c);
        }
    }
}

/// Round trip: a note decodes from its own encoding unchanged, as long as
/// the record around each field stays intact: the field delimiter occurs
/// in no field, and neither text nor sender ends with a section sign (a
/// trailing sign would fuse with the delimiter written after the field).
#[verifier::rlimit(100)]
pub proof fn lemma_encode_decode(n: NoteView)
    requires
        n.date.wf(),
        n.id <= usize::MAX,
        field_fits(n.text),
        field_fits(n.sender),
        !has_field_delim(n.reciever),
    ensures
        spec_decode(spec_encode(n)) == Ok::<NoteView, DecodeError>(n),
{
    let fd = field_delim();
    let f0 = spec_dec(n.id as int);
    let f2 = spec_format_date(n.date);
    lemma_spec_dec_digits(n.id as int);
    lemma_digits_clean(f0);
    lemma_no_sign_fits(f0);
    lemma_format_date_clean(n.date);
    lemma_no_sign_fits(f2);
    let t3 = n.sender + fd + n.reciever;
    let t2 = f2 + fd + t3;
    let t1 = n.text + fd + t2;
    assert(spec_encode(n) =~= f0 + fd + t1);
    lemma_field_no_early_match(f0, t1);
    lemma_split_on_append_at(f0, fd, t1);
    lemma_field_no_early_match(n.text, t2);
    lemma_split_on_append_at(n.text, fd, t2);
    lemma_field_no_early_match(f2, t3);
    lemma_split_on_append_at(f2, fd, t3);
    lemma_field_no_early_match(n.sender, n.reciever);
    lemma_split_on_append_at(n.sender, fd, n.reciever);
    lemma_last_field_no_match(n.reciever);
    lemma_split_on_whole_at(n.reciever, fd);
    let fs = split_on(spec_encode(n), fd);
    assert(fs =~= seq![f0, n.text, f2, n.sender, n.reciever]);
    lemma_dec_round_trip(n.id as usize);
    lemma_date_round_trip(n.date);
    assert(spec_decode(spec_encode(n)) == Ok::<NoteView, DecodeError>(n));
}

} // verus!
