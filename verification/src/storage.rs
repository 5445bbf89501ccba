//! The store: at most one day per calendar date, and the fee.

use vstd::prelude::*;
use crate::date::{lemma_key_injective, Date};
use crate::record::{Day, DayView, Part};

verus! {

/// The views of `days`, one for one.
pub open spec fn day_views(days: Seq<Day>) -> Seq<DayView> {
    Seq::new(days.len(), |i: int| days[i]@)
}

/// The days stand in the order of the calendar, each date once.
pub open spec fn chronological(days: Seq<DayView>) -> bool {
    forall|i: int, j: int|
        0 <= i < j < days.len() ==> (#[trigger] days[i]).date.key() < (#[trigger] days[j]).date.key()
}

/// Every day of `days` is well formed.
pub open spec fn days_wf(days: Seq<DayView>) -> bool {
    forall|i: int| 0 <= i < days.len() ==> (#[trigger] days[i]).wf()
}

/// One of `days` has the date `date`.
pub open spec fn has_date(days: Seq<DayView>, date: Date) -> bool {
    exists|i: int| 0 <= i < days.len() && (#[trigger] days[i]).date == date
}

/// An index in `days` of a day with the date `date`, where there is one.
pub open spec fn index_of_date(days: Seq<DayView>, date: Date) -> int {
    choose|i: int| 0 <= i < days.len() && (#[trigger] days[i]).date == date
}

/// The days as a map from each date to the parts recorded for it.
pub open spec fn day_map(days: Seq<DayView>) -> Map<Date, Seq<Part>> {
    Map::new(|d: Date| has_date(days, d), |d: Date| days[index_of_date(days, d)].parts)
}

/// In days in calendar order, the map has each day under its date.
pub proof fn lemma_day_map_at(days: Seq<DayView>, i: int)
    requires
        chronological(days),
        0 <= i < days.len(),
    ensures
        day_map(days).contains_key(days[i].date),
        day_map(days)[days[i].date] == days[i].parts,
{
    let d = days[i].date;
    assert(has_date(days, d));
    let k = index_of_date(days, d);
    assert(0 <= k < days.len() && days[k].date == d);
    if k < i {
        assert(days[k].date.key() < days[i].date.key());
    } else if i < k {
        assert(days[i].date.key() < days[k].date.key());
    }
}

/// A day put into calendar order at its place is a day put into the map.
pub proof fn lemma_day_map_insert(days: Seq<DayView>, i: int, day: DayView)
    requires
        chronological(days),
        0 <= i <= days.len(),
        forall|k: int| 0 <= k < i ==> (#[trigger] days[k]).date.key() < day.date.key(),
        forall|k: int| i <= k < days.len() ==> day.date.key() < (#[trigger] days[k]).date.key(),
    ensures
        chronological(days.insert(i, day)),
        day_map(days.insert(i, day)) == day_map(days).insert(day.date, day.parts),
{
    let after = days.insert(i, day);
    assert forall|a: int, b: int| 0 <= a < b < after.len() implies (#[trigger] after[a]).date.key()
        < (#[trigger] after[b]).date.key() by {
        let x = if a < i { days[a] } else if a == i { day } else { days[a - 1] };
        let y = if b < i { days[b] } else if b == i { day } else { days[b - 1] };
        assert(after[a] == x);
        assert(after[b] == y);
    }
    let m1 = day_map(after);
    let m2 = day_map(days).insert(day.date, day.parts);
    assert forall|d: Date| m1.contains_key(d) <==> m2.contains_key(d) by {
        if has_date(after, d) {
            let k = index_of_date(after, d);
            if k < i {
                assert(days[k].date == d);
            } else if k > i {
                assert(days[k - 1].date == d);
            }
        }
        if has_date(days, d) {
            let k = index_of_date(days, d);
            if k < i {
                assert(after[k].date == d);
            } else {
                assert(after[k + 1].date == d);
            }
        }
        if d == day.date {
            assert(after[i].date == d);
        }
    }
    assert forall|d: Date| m1.contains_key(d) implies m1[d] == m2[d] by {
        let k = index_of_date(after, d);
        lemma_day_map_at(after, k);
        if k < i {
            lemma_day_map_at(days, k);
            lemma_key_injective(days[k].date, day.date);
        } else if k > i {
            lemma_day_map_at(days, k - 1);
            lemma_key_injective(days[k - 1].date, day.date);
        }
    }
    assert(m1 =~= m2);
}

/// A day put in the place of the day of the same date is a day put into the
/// map.
pub proof fn lemma_day_map_update(days: Seq<DayView>, i: int, day: DayView)
    requires
        chronological(days),
        0 <= i < days.len(),
        days[i].date == day.date,
    ensures
        chronological(days.update(i, day)),
        day_map(days.update(i, day)) == day_map(days).insert(day.date, day.parts),
{
    let after = days.update(i, day);
    assert forall|a: int, b: int| 0 <= a < b < after.len() implies (#[trigger] after[a]).date.key()
        < (#[trigger] after[b]).date.key() by {
        assert(after[a].date == days[a].date);
        assert(after[b].date == days[b].date);
    }
    let m1 = day_map(after);
    let m2 = day_map(days).insert(day.date, day.parts);
    assert forall|d: Date| m1.contains_key(d) <==> m2.contains_key(d) by {
        if has_date(after, d) {
            let k = index_of_date(after, d);
            assert(days[k].date == d);
        }
        if has_date(days, d) {
            let k = index_of_date(days, d);
            assert(after[k].date == d);
        }
        if d == day.date {
            assert(after[i].date == d);
        }
    }
    assert forall|d: Date| m1.contains_key(d) implies m1[d] == m2[d] by {
        let k = index_of_date(after, d);
        lemma_day_map_at(after, k);
        if k != i {
            lemma_day_map_at(days, k);
            lemma_key_injective(days[k].date, day.date);
            if k < i {
                assert(days[k].date.key() < days[i].date.key());
            } else {
                assert(days[i].date.key() < days[k].date.key());
            }
        }
    }
    assert(m1 =~= m2);
}

/// A day taken out of the days is a date taken out of the map.
pub proof fn lemma_day_map_remove(days: Seq<DayView>, i: int)
    requires
        chronological(days),
        0 <= i < days.len(),
    ensures
        chronological(days.remove(i)),
        day_map(days.remove(i)) == day_map(days).remove(days[i].date),
{
    let after = days.remove(i);
    let gone = days[i].date;
    assert forall|a: int, b: int| 0 <= a < b < after.len() implies (#[trigger] after[a]).date.key()
        < (#[trigger] after[b]).date.key() by {
        let x = if a < i { days[a] } else { days[a + 1] };
        let y = if b < i { days[b] } else { days[b + 1] };
        assert(after[a] == x);
        assert(after[b] == y);
    }
    let m1 = day_map(after);
    let m2 = day_map(days).remove(gone);
    assert forall|d: Date| m1.contains_key(d) <==> m2.contains_key(d) by {
        if has_date(after, d) {
            let k = index_of_date(after, d);
            let k0 = if k < i { k } else { k + 1 };
            assert(days[k0].date == d);
            if k0 < i {
                assert(days[k0].date.key() < days[i].date.key());
            } else {
                assert(days[i].date.key() < days[k0].date.key());
            }
        }
        if has_date(days, d) && d != gone {
            let k = index_of_date(days, d);
            if k < i {
                assert(after[k].date == d);
            } else {
                assert(after[k - 1].date == d);
            }
        }
    }
    assert forall|d: Date| m1.contains_key(d) implies m1[d] == m2[d] by {
        let k = index_of_date(after, d);
        lemma_day_map_at(after, k);
        let k0 = if k < i { k } else { k + 1 };
        lemma_day_map_at(days, k0);
    }
    assert(m1 =~= m2);
}

/// The map of the days says in full what the days are: two sequences of
/// days in calendar order with the same map are the same sequence. So what a
/// contract says of the map of a well-formed store, it says of its days.
pub proof fn lemma_days_determined(a: Seq<DayView>, b: Seq<DayView>)
    requires
        chronological(a),
        chronological(b),
        day_map(a) == day_map(b),
    ensures
        a == b,
    decreases a.len(),
{
    if a.len() == 0 {
        if b.len() > 0 {
            lemma_day_map_at(b, 0);
            assert(has_date(a, b[0].date));
        }
        assert(a =~= b);
    } else if b.len() == 0 {
        lemma_day_map_at(a, 0);
        assert(has_date(b, a[0].date));
    } else {
        lemma_day_map_at(a, 0);
        lemma_day_map_at(b, 0);
        assert(has_date(b, a[0].date));
        assert(has_date(a, b[0].date));
        let j = index_of_date(b, a[0].date);
        let i = index_of_date(a, b[0].date);
        if i > 0 {
            assert(a[0].date.key() < a[i].date.key());
        }
        if j > 0 {
            assert(b[0].date.key() < b[j].date.key());
        }
        lemma_key_injective(a[0].date, b[0].date);
        assert(a[0].date == b[0].date);
        assert(a[0] == b[0]);
        lemma_day_map_remove(a, 0);
        lemma_day_map_remove(b, 0);
        lemma_days_determined(a.remove(0), b.remove(0));
        assert forall|k: int| 0 <= k < a.len() implies a[k] == b[k] by {
            if k > 0 {
                assert(a.remove(0)[k - 1] == a[k]);
                assert(b.remove(0)[k - 1] == b[k]);
            }
        }
        assert(a.len() == b.len()) by {
            assert(a.remove(0).len() == b.remove(0).len());
        }
        assert(a =~= b);
    }
}

/// A day that is recorded by force on a date that holds one leaves nothing of
/// the old day: the store is as if the old day had never been recorded.
pub proof fn lemma_force_replaces(store: Map<Date, Seq<Part>>, old_day: DayView, new_day: DayView)
    requires
        old_day.date == new_day.date,
    ensures
        store.insert(old_day.date, old_day.parts).insert(new_day.date, new_day.parts)
            == store.insert(new_day.date, new_day.parts),
        store.insert(old_day.date, old_day.parts).insert(new_day.date, new_day.parts)[new_day.date]
            == new_day.parts,
{
    assert(store.insert(old_day.date, old_day.parts).insert(new_day.date, new_day.parts)
        =~= store.insert(new_day.date, new_day.parts));
}

/// Days in calendar order are as many as their dates allow.
pub proof fn lemma_chronological_len(days: Seq<DayView>)
    requires
        chronological(days),
    ensures
        days.len() <= 0x1_0000_0000,
    decreases days.len(),
{
    lemma_chronological_keys(days, days.len() as int - 1);
}

/// In calendar order the key of a day is at least its index.
proof fn lemma_chronological_keys(days: Seq<DayView>, i: int)
    requires
        chronological(days),
        -1 <= i < days.len(),
    ensures
        i >= 0 ==> days[i].date.key() >= i,
    decreases i + 1,
{
    if i > 0 {
        lemma_chronological_keys(days, i - 1);
        assert(days[i - 1].date.key() < days[i].date.key());
    }
}

/// The map that holds each of `days` under its date, a later day in the
/// place of an earlier one of the same date.
pub open spec fn collected(days: Seq<DayView>) -> Map<Date, Seq<Part>>
    decreases days.len(),
{
    if days.len() == 0 {
        Map::empty()
    } else {
        collected(days.drop_last()).insert(days.last().date, days.last().parts)
    }
}

/// The day at `index` is well formed and the first of its date.
pub open spec fn fits(days: Seq<DayView>, index: int) -> bool {
    days[index].wf() && !collected(days.take(index)).contains_key(days[index].date)
}

/// Why a list of days is not the content of a store.
#[derive(Clone, Copy, Debug, PartialEq, Eq, Structural)]
pub enum SnapshotError {
    /// The day at `index` is not well formed.
    InvalidDay { index: usize },
    /// The day at `index` has the date of a day before it.
    DuplicateKey { index: usize },
}

/// All recorded days, at most one per date, and the fee that is charged for
/// an hour, in hundredths of the currency unit.
#[derive(Debug)]
pub struct Storage {
    days: Vec<Day>,
    fee: u32,
}

impl View for Storage {
    type V = Map<Date, Seq<Part>>;

    /// The store as a map from each recorded date to its parts.
    open spec fn view(&self) -> Map<Date, Seq<Part>> {
        day_map(self.days())
    }
}

impl Storage {
    /// The recorded days in the order of the calendar.
    pub closed spec fn days(&self) -> Seq<DayView> {
        day_views(self.days@)
    }

    /// The fee for an hour, in hundredths of the currency unit.
    pub closed spec fn fee(&self) -> u32 {
        self.fee
    }

    /// A store is well formed when its days stand in calendar order, each
    /// date at most once, and each day is well formed.
    pub open spec fn wf(&self) -> bool {
        chronological(self.days()) && days_wf(self.days())
    }

    /// The empty store: no day, and a fee of nothing.
    pub fn new() -> (r: Storage)
        ensures
            r.wf(),
            r.days() == Seq::<DayView>::empty(),
            r@ == Map::<Date, Seq<Part>>::empty(),
            r.fee() == 0,
    {
        let r = Storage { days: Vec::new(), fee: 0 };
        proof {
            assert(r.days() =~= Seq::<DayView>::empty());
            assert(r@ =~= Map::<Date, Seq<Part>>::empty());
        }
        r
    }

    /// The store of the given fee and days, whatever the order of the days.
    /// A day that is not well formed is refused, and so is a second day for
    /// one date: the first day that does not fit is named.
    pub fn from_days(fee: u32, days: &Vec<Day>) -> (r: Result<Storage, SnapshotError>)
        ensures
            match r {
                Ok(store) => {
                    &&& store.wf()
                    &&& store.fee() == fee
                    &&& store@ == collected(day_views(days@))
                    &&& forall|i: int| 0 <= i < days@.len() ==> fits(day_views(days@), i)
                },
                Err(SnapshotError::InvalidDay { index }) => {
                    &&& index < days@.len()
                    &&& forall|i: int| 0 <= i < index ==> fits(day_views(days@), i)
                    &&& !days@[index as int].wf()
                },
                Err(SnapshotError::DuplicateKey { index }) => {
                    &&& index < days@.len()
                    &&& forall|i: int| 0 <= i < index ==> fits(day_views(days@), i)
                    &&& days@[index as int].wf()
                    &&& !fits(day_views(days@), index as int)
                },
            },
    {
        let ghost all = day_views(days@);
        let mut store = Storage::new();
        store.set_fee(fee);
        let mut i: usize = 0;
        proof {
            assert(all.take(0) =~= Seq::<DayView>::empty());
        }
        while i < days.len()
            invariant
                i <= days.len(),
                all == day_views(days@),
                store.wf(),
                store.fee() == fee,
                store@ == collected(all.take(i as int)),
                forall|k: int| 0 <= k < i ==> fits(all, k),
            decreases days.len() - i,
        {
            proof {
                assert(all.take(i as int + 1).drop_last() =~= all.take(i as int));
                assert(all[i as int] == days@[i as int]@);
            }
            if !days[i].is_valid() {
                return Err(SnapshotError::InvalidDay { index: i });
            }
            if !store.add_day(days[i].duplicate()) {
                return Err(SnapshotError::DuplicateKey { index: i });
            }
            i = i + 1;
        }
        proof {
            assert(all.take(i as int) =~= all);
        }
        Ok(store)
    }

    /// The fee for an hour, in hundredths of the currency unit.
    pub fn get_fee(&self) -> (r: u32)
        ensures
            r == self.fee(),
    {
        self.fee
    }

    /// Sets the fee for an hour, in hundredths of the currency unit. The days
    /// stay as they are.
    pub fn set_fee(&mut self, value: u32)
        ensures
            final(self).fee() == value,
            final(self).days() == old(self).days(),
    {
        self.fee = value;
    }

    /// The number of recorded days.
    pub fn len(&self) -> (r: usize)
        ensures
            r == self.days().len(),
    {
        self.days.len()
    }

    /// The day at `index` in calendar order.
    pub fn day_at(&self, index: usize) -> (r: &Day)
        requires
            index < self.days().len(),
        ensures
            r@ == self.days()[index as int],
    {
        &self.days[index]
    }

    /// All recorded days in the order of the calendar.
    pub fn all_days(&self) -> (r: &Vec<Day>)
        ensures
            day_views(r@) == self.days(),
    {
        &self.days
    }

    /// The index of the first day that is not before `date`.
    fn position(&self, date: &Date) -> (r: usize)
        requires
            self.wf(),
        ensures
            r <= self.days().len(),
            forall|k: int| 0 <= k < r ==> (#[trigger] self.days()[k]).date.key() < date.key(),
            forall|k: int|
                r <= k < self.days().len() ==> date.key() <= (#[trigger] self.days()[k]).date.key(),
    {
        let mut i: usize = 0;
        while i < self.days.len() && self.days[i].date.is_before(date)
            invariant
                i <= self.days.len(),
                forall|k: int| 0 <= k < i ==> (#[trigger] self.days()[k]).date.key() < date.key(),
            decreases self.days.len() - i,
        {
            i = i + 1;
        }
        proof {
            assert forall|k: int| i <= k < self.days().len() implies date.key() <= (
            #[trigger] self.days()[k]).date.key() by {
                if k > i {
                    assert(self.days()[i as int].date.key() < self.days()[k].date.key());
                }
            }
        }
        i
    }

    /// Whether the day at `index` is there and has the date `date`.
    fn holds(&self, index: usize, date: &Date) -> (r: bool)
        requires
            self.wf(),
            index <= self.days().len(),
            forall|k: int| 0 <= k < index ==> (#[trigger] self.days()[k]).date.key() < date.key(),
            forall|k: int|
                index <= k < self.days().len() ==> date.key() <= (
                #[trigger] self.days()[k]).date.key(),
        ensures
            r == self@.contains_key(*date),
            r ==> index < self.days().len() && self.days()[index as int].date == *date,
            r ==> self@[*date] == self.days()[index as int].parts,
    {
        let found = index < self.days.len() && self.days[index].date.sort_key() == date.sort_key();
        proof {
            let days = self.days();
            if found {
                lemma_key_injective(days[index as int].date, *date);
                lemma_day_map_at(days, index as int);
            } else if has_date(days, *date) {
                let k = index_of_date(days, *date);
                if k > index {
                    assert(days[index as int].date.key() < days[k].date.key());
                    assert(date.key() <= days[index as int].date.key());
                }
            }
        }
        found
    }

    /// The day recorded for the date, if there is one.
    pub fn get_day(&self, year: u16, month: u8, day: u8) -> (r: Option<&Day>)
        requires
            self.wf(),
        ensures
            r is Some <==> self@.contains_key(Date { year, month, day }),
            r matches Some(d) ==> d.date == (Date { year, month, day }) && d.parts@ == self@[d.date]
                && d.wf(),
    {
        let date = Date { year, month, day };
        let i = self.position(&date);
        if self.holds(i, &date) {
            assert(self.days()[i as int].wf());
            Some(&self.days[i])
        } else {
            None
        }
    }

    /// Whether a day is recorded for `date`.
    pub fn contains(&self, date: &Date) -> (r: bool)
        requires
            self.wf(),
        ensures
            r == self@.contains_key(*date),
    {
        let i = self.position(date);
        self.holds(i, date)
    }

    /// Records `day` if nothing is recorded for its date yet. Says whether it
    /// did; where it did not, the store is as before.
    pub fn add_day(&mut self, day: Day) -> (r: bool)
        requires
            old(self).wf(),
            day.wf(),
        ensures
            final(self).wf(),
            r == !old(self)@.contains_key(day.date),
            r ==> final(self)@ == old(self)@.insert(day.date, day.parts@),
            !r ==> final(self).days() == old(self).days(),
            final(self).fee() == old(self).fee(),
    {
        let i = self.position(&day.date);
        if self.holds(i, &day.date) {
            return false;
        }
        let ghost before = self.days();
        let ghost view = day@;
        proof {
            assert forall|k: int| i <= k < before.len() implies view.date.key() < (
            #[trigger] before[k]).date.key() by {
                lemma_key_injective(before[k].date, view.date);
                if before[k].date == view.date {
                    assert(has_date(before, view.date));
                }
            }
            lemma_day_map_insert(before, i as int, view);
        }
        self.days.insert(i, day);
        proof {
            assert(self.days() =~= before.insert(i as int, view));
        }
        true
    }

    /// Records `day`, in the place of what was recorded for its date, if
    /// anything was.
    pub fn add_day_force(&mut self, day: Day)
        requires
            old(self).wf(),
            day.wf(),
        ensures
            final(self).wf(),
            final(self)@ == old(self)@.insert(day.date, day.parts@),
            final(self).fee() == old(self).fee(),
    {
        let i = self.position(&day.date);
        let ghost before = self.days();
        let ghost view = day@;
        if self.holds(i, &day.date) {
            proof {
                lemma_day_map_update(before, i as int, view);
            }
            self.days.set(i, day);
            proof {
                assert(self.days() =~= before.update(i as int, view));
            }
        } else {
            proof {
                assert forall|k: int| i <= k < before.len() implies view.date.key() < (
                #[trigger] before[k]).date.key() by {
                    lemma_key_injective(before[k].date, view.date);
                    if before[k].date == view.date {
                        assert(has_date(before, view.date));
                    }
                }
                lemma_day_map_insert(before, i as int, view);
            }
            self.days.insert(i, day);
            proof {
                assert(self.days() =~= before.insert(i as int, view));
            }
        }
    }

    /// Removes what is recorded for `date`. Says whether there was anything.
    pub fn remove_day(&mut self, date: Date) -> (r: bool)
        requires
            old(self).wf(),
        ensures
            final(self).wf(),
            r == old(self)@.contains_key(date),
            final(self)@ == old(self)@.remove(date),
            !r ==> final(self).days() == old(self).days(),
            final(self).fee() == old(self).fee(),
    {
        let i = self.position(&date);
        let ghost before = self.days();
        if self.holds(i, &date) {
            proof {
                lemma_day_map_remove(before, i as int);
            }
            self.days.remove(i);
            proof {
                assert(self.days() =~= before.remove(i as int));
            }
            true
        } else {
            proof {
                assert(self@.remove(date) =~= self@);
            }
            false
        }
    }

    /// Appends `part` to the day of `date`, which begins with it if nothing
    /// was recorded for the date. A part or a date that is not well formed is
    /// not recorded: the result says so and the store is as before.
    pub fn add_part(&mut self, date: Date, part: Part) -> (r: bool)
        requires
            old(self).wf(),
        ensures
            final(self).wf(),
            r == (date.wf() && part.wf()),
            r ==> final(self)@ == old(self)@.insert(
                date,
                (if old(self)@.contains_key(date) {
                    old(self)@[date]
                } else {
                    Seq::<Part>::empty()
                }).push(part),
            ),
            !r ==> final(self).days() == old(self).days(),
            final(self).fee() == old(self).fee(),
    {
        if !date.is_valid() || !part.is_valid() {
            return false;
        }
        let i = self.position(&date);
        let mut day = if self.holds(i, &date) {
            self.days[i].duplicate()
        } else {
            Day::new(date)
        };
        proof {
            if old(self)@.contains_key(date) {
                assert(self.days()[i as int].wf());
            }
        }
        day.push_part(part);
        self.add_day_force(day);
        true
    }
}

} // verus!
