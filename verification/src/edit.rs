//! The text that is handed to an editor, to be read back into the store
//! once it was changed.

use vstd::prelude::*;
use crate::date::Date;
use crate::legacy_writer::day_text;
use crate::record::{Day, DayView, Part};
use crate::storage::Storage;

verus! {

/// The texts with a line feed between each two.
pub open spec fn join_lines(texts: Seq<Seq<char>>) -> Seq<char>
    decreases texts.len(),
{
    if texts.len() == 0 {
        Seq::empty()
    } else if texts.len() == 1 {
        texts[0]
    } else {
        join_lines(texts.drop_last()) + seq!['\n'] + texts.last()
    }
}

/// The lines of those of `dates` for which the store holds a day, in the
/// order of `dates`.
pub open spec fn recorded_texts(store: Map<Date, Seq<Part>>, dates: Seq<Date>) -> Seq<Seq<char>>
    decreases dates.len(),
{
    if dates.len() == 0 {
        Seq::empty()
    } else {
        let before = recorded_texts(store, dates.drop_last());
        let date = dates.last();
        if store.contains_key(date) {
            before.push(day_text(DayView { date, parts: store[date] }))
        } else {
            before
        }
    }
}

/// The comment that explains the line format above a day that is begun in
/// the editor.
pub open spec fn edit_template() -> Seq<char> {
    "# Lines starting with '#' will be ignored\n"@ + "# Default date is today!\n"@
        + "# Date         Parts w/o and w/ factor (0.5)  Comment\n"@
        + "# 2016-04-25   08:00-12:00  13:00-17:00-0.5   # comment\n"@
}

/// The text to edit. It holds the lines of those of `dates` that are
/// recorded. Where none is, it holds the line of `today` if that is
/// recorded, and else the template with the bare date of `today` below it.
pub open spec fn edit_text(store: Map<Date, Seq<Part>>, dates: Seq<Date>, today: Date) -> Seq<
    char,
> {
    let texts = recorded_texts(store, dates);
    if texts.len() > 0 {
        join_lines(texts)
    } else if store.contains_key(today) {
        day_text(DayView { date: today, parts: store[today] })
    } else {
        edit_template() + day_text(DayView { date: today, parts: Seq::empty() })
    }
}

impl Storage {
    /// The text to hand to the editor for `dates`, or for `today` where none
    /// of them is recorded. Read back with `import_legacy`, each of its lines
    /// stands in the place of the day it was written from.
    pub fn edit_text(&self, dates: &Vec<Date>, today: Date) -> (r: String)
        requires
            self.wf(),
            today.wf(),
        ensures
            r@ == edit_text(self@, dates@, today),
    {
        let mut out = String::new();
        let mut found: usize = 0;
        let mut i: usize = 0;
        while i < dates.len()
            invariant
                i <= dates.len(),
                self.wf(),
                found <= i,
                found == recorded_texts(self@, dates@.take(i as int)).len(),
                out@ == join_lines(recorded_texts(self@, dates@.take(i as int))),
            decreases dates.len() - i,
        {
            let date = dates[i];
            proof {
                let next = dates@.take(i as int + 1);
                assert(next.drop_last() =~= dates@.take(i as int));
                assert(next.last() == date);
            }
            match self.get_day(date.year, date.month, date.day) {
                Some(day) => {
                    let ghost before = recorded_texts(self@, dates@.take(i as int));
                    if found > 0 {
                        out.append("\n");
                        proof {
                            reveal_strlit("\n");
                            assert("\n"@ =~= seq!['\n']);
                        }
                    }
                    let line = day.as_legacy();
                    out.append(line.as_str());
                    found = found + 1;
                    proof {
                        let after = before.push(line@);
                        assert(after.drop_last() =~= before);
                        assert(day@ == (DayView { date, parts: self@[date] }));
                        if before.len() == 0 {
                            assert(out@ =~= line@);
                        }
                    }
                },
                None => {},
            }
            i = i + 1;
        }
        proof {
            assert(dates@.take(i as int) =~= dates@);
        }
        if found > 0 {
            return out;
        }
        assert(out@ =~= Seq::<char>::empty());
        match self.get_day(today.year, today.month, today.day) {
            Some(day) => {
                proof {
                    assert(day@ == (DayView { date: today, parts: self@[today] }));
                }
                day.as_legacy()
            },
            None => {
                out.append("# Lines starting with '#' will be ignored\n");
                out.append("# Default date is today!\n");
                out.append("# Date         Parts w/o and w/ factor (0.5)  Comment\n");
                out.append("# 2016-04-25   08:00-12:00  13:00-17:00-0.5   # comment\n");
                let line = Day::new(today).as_legacy();
                out.append(line.as_str());
                out
            },
        }
    }
}

} // verus!
