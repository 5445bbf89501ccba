//! Reading a whole timesheet into the store, line by line.

use vstd::prelude::*;
use crate::date::Date;
use crate::legacy_parser::{line_from_text, parse_line_chars, ParseError};
use crate::record::Part;
use crate::storage::Storage;
use crate::text::{chars_of, find_char, first_index, lemma_first_index, slice_of, string_of};

verus! {

/// The lines of `s`: what stands between its line feeds. A line feed at the
/// very end ends the last line and begins no other.
pub open spec fn lines(s: Seq<char>) -> Seq<Seq<char>>
    decreases s.len(),
{
    if s.len() == 0 {
        Seq::empty()
    } else {
        let i = first_index(s, '\n');
        if 0 <= i < s.len() {
            seq![s.take(i)] + lines(s.skip(i + 1))
        } else {
            seq![s]
        }
    }
}

/// The error for which `line` is reported, if it is: a line that holds
/// nothing to read is passed over, not reported.
pub open spec fn line_failure(line: Seq<char>) -> Option<ParseError> {
    match line_from_text(line) {
        Ok(_) => None,
        Err(ParseError::Empty) => None,
        Err(e) => Some(e),
    }
}

/// The store after `line` was read into it: the day that the line writes
/// stands in the place of what was recorded for its date; any other line
/// changes nothing.
pub open spec fn import_line(store: Map<Date, Seq<Part>>, line: Seq<char>) -> Map<
    Date,
    Seq<Part>,
> {
    match line_from_text(line) {
        Ok(day) => store.insert(day.date, day.parts),
        Err(_) => store,
    }
}

/// The store after the lines were read into it, one after the other.
pub open spec fn import_lines(store: Map<Date, Seq<Part>>, ls: Seq<Seq<char>>) -> Map<
    Date,
    Seq<Part>,
>
    decreases ls.len(),
{
    if ls.len() == 0 {
        store
    } else {
        import_lines(import_line(store, ls[0]), ls.drop_first())
    }
}

/// A line that could not be read, as contracts see it.
pub struct FailureView {
    pub line: int,
    pub text: Seq<char>,
    pub error: ParseError,
}

/// The lines of `ls` that are reported, in order, the first of `ls` being
/// line number `number`.
pub open spec fn failed_lines(ls: Seq<Seq<char>>, number: int) -> Seq<FailureView>
    decreases ls.len(),
{
    if ls.len() == 0 {
        Seq::empty()
    } else {
        let rest = failed_lines(ls.drop_first(), number + 1);
        match line_failure(ls[0]) {
            Some(error) => seq![FailureView { line: number, text: ls[0], error }] + rest,
            None => rest,
        }
    }
}

/// The number of `ls` that write a day.
pub open spec fn imported_count(ls: Seq<Seq<char>>) -> int
    decreases ls.len(),
{
    if ls.len() == 0 {
        0
    } else {
        (if line_from_text(ls[0]) is Ok {
            1int
        } else {
            0int
        }) + imported_count(ls.drop_first())
    }
}

/// A line that could not be read: its number in the text, counted from 1,
/// what it holds, and why it writes no day.
#[derive(Debug)]
pub struct LineFailure {
    pub line: usize,
    pub text: String,
    pub error: ParseError,
}

impl View for LineFailure {
    type V = FailureView;

    open spec fn view(&self) -> FailureView {
        FailureView { line: self.line as int, text: self.text@, error: self.error }
    }
}

/// The views of `failures`, one for one.
pub open spec fn failure_views(failures: Seq<LineFailure>) -> Seq<FailureView> {
    Seq::new(failures.len(), |i: int| failures[i]@)
}

/// What became of a text that was read into the store: how many of its lines
/// were recorded, and which were not and why.
#[derive(Debug)]
pub struct ImportReport {
    pub imported: usize,
    pub failures: Vec<LineFailure>,
}

/// The lines of a text that does not end where a line does.
pub proof fn lemma_lines_step(s: Seq<char>, pos: int)
    requires
        0 <= pos < s.len(),
    ensures
        ({
            let rest = s.skip(pos);
            let i = first_index(rest, '\n');
            &&& 0 <= i <= rest.len()
            &&& lines(rest) == seq![rest.take(i)] + lines(
                s.skip(if i < rest.len() {
                    pos + i + 1
                } else {
                    s.len() as int
                }),
            )
        }),
{
    let rest = s.skip(pos);
    let i = first_index(rest, '\n');
    lemma_first_index(rest, '\n');
    if i < rest.len() {
        assert(rest.skip(i + 1) =~= s.skip(pos + i + 1));
    } else {
        assert(rest.take(i) =~= rest);
        assert(lines(s.skip(s.len() as int)) =~= Seq::<Seq<char>>::empty());
    }
}

impl Storage {
    /// Reads `text` as a timesheet. Each line that writes a day is recorded,
    /// its day in the place of what was recorded for its date. A line that
    /// holds nothing to read is passed over. Any other line is reported with
    /// its number, and the lines after it are read all the same.
    pub fn import_legacy(&mut self, text: &str) -> (r: ImportReport)
        requires
            old(self).wf(),
        ensures
            final(self).wf(),
            final(self)@ == import_lines(old(self)@, lines(text@)),
            failure_views(r.failures@) == failed_lines(lines(text@), 1),
            r.imported == imported_count(lines(text@)),
            final(self).fee() == old(self).fee(),
    {
        let v = chars_of(text);
        let n = v.len();
        let mut failures: Vec<LineFailure> = Vec::new();
        let mut imported: usize = 0;
        let mut number: usize = 1;
        let mut pos: usize = 0;
        proof {
            assert(v@.skip(0) =~= v@);
            assert(failure_views(failures@) =~= Seq::<FailureView>::empty());
        }
        while pos < n
            invariant
                pos <= n,
                n == v.len(),
                v@ == text@,
                self.wf(),
                self.fee() == old(self).fee(),
                number <= pos + 1,
                imported <= pos,
                import_lines(self@, lines(v@.skip(pos as int))) == import_lines(
                    old(self)@,
                    lines(v@),
                ),
                failure_views(failures@) + failed_lines(lines(v@.skip(pos as int)), number as int)
                    == failed_lines(lines(v@), 1),
                imported + imported_count(lines(v@.skip(pos as int))) == imported_count(lines(v@)),
            decreases n - pos,
        {
            let end = find_char(&v, pos, '\n');
            let line = slice_of(&v, pos, end);
            let next = if end < n {
                end + 1
            } else {
                n
            };
            let ghost rest_lines = lines(v@.skip(next as int));
            let ghost before = failure_views(failures@);
            proof {
                lemma_lines_step(v@, pos as int);
                assert(line@ =~= v@.skip(pos as int).take(end - pos));
                let ls = lines(v@.skip(pos as int));
                assert(ls[0] == line@);
                assert(ls.drop_first() =~= rest_lines);
            }
            match parse_line_chars(&line) {
                Ok(day) => {
                    self.add_day_force(day);
                    imported = imported + 1;
                },
                Err(ParseError::Empty) => {},
                Err(error) => {
                    failures.push(LineFailure { line: number, text: string_of(&line), error });
                    proof {
                        let f = FailureView { line: number as int, text: line@, error };
                        assert(failure_views(failures@) =~= before.push(f));
                        assert(before.push(f) + failed_lines(rest_lines, number + 1) =~= before + (
                        seq![f] + failed_lines(rest_lines, number + 1)));
                    }
                },
            }
            if next < n {
                number = number + 1;
            } else {
                proof {
                    assert(rest_lines =~= Seq::<Seq<char>>::empty());
                }
            }
            pos = next;
        }
        proof {
            assert(lines(v@.skip(n as int)) =~= Seq::<Seq<char>>::empty());
            assert(failure_views(failures@) + Seq::<FailureView>::empty() =~= failure_views(
                failures@,
            ));
        }
        ImportReport { imported, failures }
    }
}

} // verus!
