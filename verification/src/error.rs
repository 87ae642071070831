//! Diagnostics: an ordered sequence of error entries, each a primary message
//! tied to a source location plus attached note lines. The builder methods
//! and the final rendering are specified exactly, down to the characters.
use crate::numbers::dec_digits;
use crate::text::chars_of;
use crate::text::string_from_chars;
use crate::tokens::loc_repr;
use crate::tokens::push_location;
use crate::tokens::Location;
use vstd::prelude::*;

verus! {

/// One diagnostic: a primary message and its attached notes.
#[derive(Debug)]
pub struct ErrEntry {
    pub msg: String,
    pub notes: Vec<String>,
}

/// Mathematical image of an entry.
#[verifier::ext_equal]
pub ghost struct EntryV {
    pub msg: Seq<char>,
    pub notes: Seq<Seq<char>>,
}

impl View for ErrEntry {
    type V = EntryV;

    open spec fn view(&self) -> EntryV {
        EntryV { msg: self.msg@, notes: self.notes@.map_values(|n: String| n@) }
    }
}

/// Accumulated diagnostics, in the order they were raised.
#[derive(Debug)]
pub struct LispErrors {
    errs: Vec<ErrEntry>,
}

impl View for LispErrors {
    type V = Seq<EntryV>;

    closed spec fn view(&self) -> Seq<EntryV> {
        self.errs@.map_values(|e: ErrEntry| e@)
    }
}

/// The separator between a location and the message that follows it.
pub open spec fn sep_chars() -> Seq<char> {
    seq![' ', '-', ' ']
}

/// The prefix of a note line.
pub open spec fn note_chars() -> Seq<char> {
    seq!['N', 'O', 'T', 'E', ':', ' ']
}

/// The message of a primary entry: `<file>:<line>:<col> - <message>`.
pub open spec fn entry_msg(loc: crate::tokens::LocV, msg: Seq<char>) -> Seq<char> {
    loc_repr(loc) + sep_chars() + msg
}

/// The text of a note: `NOTE: ` then, when a location is given,
/// `<location> - `, then the note's message.
pub open spec fn note_msg(loc: Option<crate::tokens::LocV>, msg: Seq<char>) -> Seq<char> {
    match loc {
        Some(l) => note_chars() + loc_repr(l) + sep_chars() + msg,
        None => note_chars() + msg,
    }
}

/// Rendering of one entry's notes: each on its own indented line.
pub open spec fn notes_repr(notes: Seq<Seq<char>>) -> Seq<char>
    decreases notes.len(),
{
    if notes.len() == 0 {
        Seq::empty()
    } else {
        notes_repr(notes.drop_last()) + seq!['\n', '\t'] + notes.last()
    }
}

/// Rendering of a sequence of entries: each primary message followed by its
/// indented notes, concatenated in order.
pub open spec fn entries_repr(es: Seq<EntryV>) -> Seq<char>
    decreases es.len(),
{
    if es.len() == 0 {
        Seq::empty()
    } else {
        entries_repr(es.drop_last()) + es.last().msg + notes_repr(es.last().notes)
    }
}

impl LispErrors {
    /// A fresh, empty set of diagnostics.
    pub fn new() -> (r: LispErrors)
        ensures
            r@ == Seq::<EntryV>::empty(),
    {
        LispErrors { errs: Vec::new() }
    }

    /// Appends a primary entry `<loc> - <err>` with no notes yet.
    pub fn error(self, loc: &Location, err: &str) -> (r: LispErrors)
        ensures
            r@ == self@.push(EntryV { msg: entry_msg(loc@, err@), notes: Seq::empty() }),
    {
        let mut text: Vec<char> = Vec::new();
        push_location(loc, &mut text);
        text.push(' ');
        text.push('-');
        text.push(' ');
        let mut err_chars = chars_of(err);
        text.append(&mut err_chars);
        assert(text@ =~= entry_msg(loc@, err@));
        let mut errs = self.errs;
        errs.push(ErrEntry { msg: string_from_chars(&text), notes: Vec::new() });
        let r = LispErrors { errs };
        proof {
            assert(r@ =~~= self@.push(
                EntryV { msg: entry_msg(loc@, err@), notes: Seq::empty() },
            ));
        }
        r
    }

    /// Appends a note line to the most recently added entry; with no entry
    /// yet, the note is dropped.
    pub fn note(self, loc: Option<&Location>, err: &str) -> (r: LispErrors)
        ensures
            self@.len() == 0 ==> r@ == self@,
            self@.len() > 0 ==> {
                let lv = match loc {
                    Some(l) => Some(l@),
                    None => None,
                };
                let last = self@.last();
                r@ == self@.drop_last().push(
                    EntryV { msg: last.msg, notes: last.notes.push(note_msg(lv, err@)) },
                )
            },
    {
        let n = self.errs.len();
        if n == 0 {
            return self;
        }
        let mut text: Vec<char> = Vec::new();
        text.push('N');
        text.push('O');
        text.push('T');
        text.push('E');
        text.push(':');
        text.push(' ');
        match loc {
            Some(l) => {
                push_location(l, &mut text);
                text.push(' ');
                text.push('-');
                text.push(' ');
            },
            None => {},
        }
        let mut err_chars = chars_of(err);
        text.append(&mut err_chars);
        let ghost lv = match loc {
            Some(l) => Some(l@),
            None => None::<crate::tokens::LocV>,
        };
        assert(text@ =~= note_msg(lv, err@));
        let mut errs = self.errs;
        let mut last = errs.remove(n - 1);
        last.notes.push(string_from_chars(&text));
        errs.push(last);
        let r = LispErrors { errs };
        proof {
            let last0 = self@.last();
            assert(r@ =~~= self@.drop_last().push(
                EntryV { msg: last0.msg, notes: last0.notes.push(note_msg(lv, err@)) },
            ));
        }
        r
    }

    /// Moves every entry of `other` to the end of `self`, in order.
    pub fn extend(&mut self, other: LispErrors)
        ensures
            final(self)@ == old(self)@ + other@,
    {
        let mut o = other;
        let ghost osnap = o@;
        self.errs.append(&mut o.errs);
        assert(self@ =~= old(self)@ + osnap);
    }

    /// The rendered text of all entries, primary messages and indented notes
    /// concatenated in order.
    pub fn render(&self) -> (r: String)
        ensures
            r@ == entries_repr(self@),
    {
        let mut text: Vec<char> = Vec::new();
        let n = self.errs.len();
        let mut i: usize = 0;
        while i < n
            invariant
                0 <= i <= n,
                n == self.errs.len(),
                text@ == entries_repr(self@.take(i as int)),
            decreases n - i,
        {
            let entry = &self.errs[i];
            let mut msg_chars = chars_of(entry.msg.as_str());
            text.append(&mut msg_chars);
            let m = entry.notes.len();
            proof {
                assert(self@[i as int].notes.take(0) =~= Seq::<Seq<char>>::empty());
                assert(text@ =~= entries_repr(self@.take(i as int)) + self@[i as int].msg
                    + notes_repr(self@[i as int].notes.take(0)));
            }
            let mut j: usize = 0;
            while j < m
                invariant
                    0 <= j <= m,
                    0 <= i < n,
                    n == self.errs.len(),
                    m == self.errs[i as int].notes.len(),
                    text@ == entries_repr(self@.take(i as int)) + self@[i as int].msg
                        + notes_repr(self@[i as int].notes.take(j as int)),
                decreases m - j,
            {
                text.push('\n');
                text.push('\t');
                let mut note_chars_v = chars_of(self.errs[i].notes[j].as_str());
                text.append(&mut note_chars_v);
                proof {
                    let nv = self@[i as int].notes;
                    assert(nv.take(j + 1).drop_last() =~= nv.take(j as int));
                    assert(nv.take(j + 1).last() == nv[j as int]);
                    assert(text@ =~= entries_repr(self@.take(i as int)) + self@[i as int].msg
                        + notes_repr(nv.take(j + 1)));
                }
                j += 1;
            }
            proof {
                let es = self@;
                assert(es[i as int].notes.take(m as int) =~= es[i as int].notes);
                assert(es.take(i + 1).drop_last() =~= es.take(i as int));
                assert(es.take(i + 1).last() == es[i as int]);
                assert(text@ =~= entries_repr(es.take(i + 1)));
            }
            i += 1;
        }
        assert(self@.take(n as int) =~= self@);
        string_from_chars(&text)
    }
}

} // verus!
