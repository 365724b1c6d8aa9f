//! How the service splits its work: which machines are new to the database,
//! which lists are handled by two workers, and the batches in which serial
//! numbers go to Dell and computers go to the database.
use vstd::prelude::*;

use crate::tanium::{computer_views, Computer};
use crate::text::string_views;

verus! {

/// The largest number of items that one batch holds.
pub const BATCH_SIZE: usize = 100;

/// `s` cut into batches of `BATCH_SIZE` items, in order; the last batch holds
/// what is left and may be shorter (or empty, when `s` is).
pub open spec fn batches_of<T>(s: Seq<T>) -> Seq<Seq<T>>
    decreases s.len(),
{
    if s.len() <= BATCH_SIZE {
        seq![s]
    } else {
        seq![s.take(BATCH_SIZE as int)] + batches_of(s.skip(BATCH_SIZE as int))
    }
}

/// What a list of batches holds.
pub open spec fn batch_views<T>(batches: Seq<Vec<T>>) -> Seq<Seq<T>> {
    batches.map_values(|b: Vec<T>| b@)
}

/// The batches in which a list is handed on: all of its items, in order,
/// cut into batches of `BATCH_SIZE`; an empty list gives no batch.
pub open spec fn spec_dispatch_batches<T>(items: Seq<T>) -> Seq<Seq<T>> {
    if items.len() == 0 {
        Seq::empty()
    } else {
        batches_of(items)
    }
}

/// Cuts a list into the batches in which it is sent on to Dell or to the
/// database: every item, in order, at most `BATCH_SIZE` to a batch.
pub fn dispatch_batches<T>(items: Vec<T>) -> (batches: Vec<Vec<T>>)
    ensures
        batch_views(batches@) == spec_dispatch_batches(items@),
{
    let mut rest = items;
    let mut batches: Vec<Vec<T>> = Vec::new();
    if rest.len() == 0 {
        assert(batch_views(batches@) =~= Seq::<Seq<T>>::empty());
        return batches;
    }
    let ghost all = rest@;
    while rest.len() > BATCH_SIZE
        invariant
            batch_views(batches@) + batches_of(rest@) == batches_of(all),
        decreases rest.len(),
    {
        let tail = rest.split_off(BATCH_SIZE);
        let ghost whole = rest@ + tail@;
        assert(whole.take(BATCH_SIZE as int) =~= rest@);
        assert(whole.skip(BATCH_SIZE as int) =~= tail@);
        let ghost before = batch_views(batches@);
        assert(batches_of(whole) == seq![rest@] + batches_of(tail@));
        batches.push(rest);
        assert(batch_views(batches@) =~= before.push(rest@));
        assert(batch_views(batches@) + batches_of(tail@) =~= before + batches_of(whole));
        rest = tail;
    }
    let ghost before = batch_views(batches@);
    let ghost last_batch = rest@;
    batches.push(rest);
    assert(batch_views(batches@) =~= before.push(last_batch));
    assert(batches_of(last_batch) == seq![last_batch]);
    assert(batch_views(batches@) =~= before + batches_of(last_batch));
    batches
}

/// Putting the batches of `s` back together gives `s`; every batch holds at
/// most `BATCH_SIZE` items, and every batch but the last holds exactly that many.
pub proof fn lemma_batches_of<T>(s: Seq<T>)
    ensures
        batches_of(s).len() >= 1,
        batches_of(s).flatten() == s,
        forall|i: int| 0 <= i < batches_of(s).len() ==> #[trigger] batches_of(s)[i].len() <= BATCH_SIZE,
        forall|i: int| 0 <= i < batches_of(s).len() - 1 ==> #[trigger] batches_of(s)[i].len() == BATCH_SIZE,
        s.len() > 0 ==> forall|i: int| 0 <= i < batches_of(s).len() ==> #[trigger] batches_of(s)[i].len() > 0,
    decreases s.len(),
{
    let b = batches_of(s);
    if s.len() <= BATCH_SIZE {
        assert(b.drop_first() =~= Seq::<Seq<T>>::empty());
        assert(b.drop_first().flatten() =~= Seq::<T>::empty());
        assert(b.first() == s);
        assert(b.flatten() =~= s);
    } else {
        let rest = s.skip(BATCH_SIZE as int);
        lemma_batches_of(rest);
        assert(b.drop_first() =~= batches_of(rest));
        assert(b.first() == s.take(BATCH_SIZE as int));
        assert(b.flatten() =~= s);
        assert forall|i: int| 0 <= i < b.len() implies #[trigger] b[i].len() <= BATCH_SIZE by {
            if i > 0 {
                assert(b[i] == batches_of(rest)[i - 1]);
            }
        }
        assert forall|i: int| 0 <= i < b.len() - 1 implies #[trigger] b[i].len() == BATCH_SIZE by {
            if i > 0 {
                assert(b[i] == batches_of(rest)[i - 1]);
            }
        }
        assert forall|i: int| 0 <= i < b.len() implies #[trigger] b[i].len() > 0 by {
            if i > 0 {
                assert(b[i] == batches_of(rest)[i - 1]);
            }
        }
    }
}

/// Every item of the list is handed on exactly once and in order: putting the
/// batches back together gives the list, and every batch holds between one and
/// `BATCH_SIZE` items.
pub proof fn lemma_dispatch_batches<T>(items: Seq<T>)
    ensures
        spec_dispatch_batches(items).flatten() == items,
        forall|i: int|
            0 <= i < spec_dispatch_batches(items).len() ==> 0 < #[trigger] spec_dispatch_batches(
                items,
            )[i].len() <= BATCH_SIZE,
{
    if items.len() == 0 {
        assert(spec_dispatch_batches(items).flatten() =~= items);
    } else {
        lemma_batches_of(items);
    }
}

/// The computers of `in_tanium` whose serial number is not in `in_db`, in order.
pub open spec fn missing_from(
    in_tanium: Seq<(Seq<char>, Seq<char>)>,
    in_db: Seq<Seq<char>>,
) -> Seq<(Seq<char>, Seq<char>)>
    decreases in_tanium.len(),
{
    if in_tanium.len() == 0 {
        Seq::empty()
    } else {
        let prev = missing_from(in_tanium.drop_last(), in_db);
        if in_db.contains(in_tanium.last().1) {
            prev
        } else {
            prev.push(in_tanium.last())
        }
    }
}

/// The machines reported missing are machines of Tanium that the database
/// lacks, and every machine of Tanium that the database lacks is reported.
pub proof fn lemma_missing_from(in_tanium: Seq<(Seq<char>, Seq<char>)>, in_db: Seq<Seq<char>>)
    ensures
        forall|k: int|
            0 <= k < missing_from(in_tanium, in_db).len() ==> {
                &&& in_tanium.contains(#[trigger] missing_from(in_tanium, in_db)[k])
                &&& !in_db.contains(missing_from(in_tanium, in_db)[k].1)
            },
        forall|k: int|
            0 <= k < in_tanium.len() && !in_db.contains(#[trigger] in_tanium[k].1)
                ==> missing_from(in_tanium, in_db).contains(in_tanium[k]),
    decreases in_tanium.len(),
{
    if in_tanium.len() > 0 {
        let prev_t = in_tanium.drop_last();
        lemma_missing_from(prev_t, in_db);
        let prev = missing_from(prev_t, in_db);
        let all = missing_from(in_tanium, in_db);
        assert forall|k: int| 0 <= k < all.len() implies {
            &&& in_tanium.contains(#[trigger] all[k])
            &&& !in_db.contains(all[k].1)
        } by {
            if k < prev.len() {
                assert(all[k] == prev[k]);
                let j = choose|j: int| 0 <= j < prev_t.len() && prev_t[j] == prev[k];
                assert(in_tanium[j] == prev_t[j]);
            } else {
                assert(all[k] == in_tanium[in_tanium.len() - 1]);
            }
        }
        assert forall|k: int| 0 <= k < in_tanium.len() && !in_db.contains(#[trigger] in_tanium[k].1)
            implies all.contains(in_tanium[k]) by {
            if k < prev_t.len() {
                assert(prev_t[k] == in_tanium[k]);
                let j = choose|j: int| 0 <= j < prev.len() && prev[j] == prev_t[k];
                assert(all[j] == prev[j]);
            } else {
                assert(all[all.len() - 1] == in_tanium[k]);
            }
        }
    }
}

/// The machines reported missing are exactly the machines of Tanium whose
/// serial number the database lacks, in order, each as often as Tanium lists it.
pub proof fn lemma_missing_from_filter(in_tanium: Seq<(Seq<char>, Seq<char>)>, in_db: Seq<Seq<char>>)
    ensures
        missing_from(in_tanium, in_db) == in_tanium.filter(
            |c: (Seq<char>, Seq<char>)| !in_db.contains(c.1),
        ),
    decreases in_tanium.len(),
{
    reveal(Seq::filter);
    if in_tanium.len() > 0 {
        lemma_missing_from_filter(in_tanium.drop_last(), in_db);
    }
}

/// True when `serial` is one of `serials`.
fn contains_string(serials: &Vec<String>, serial: &String) -> (found: bool)
    ensures
        found == string_views(serials@).contains(serial@),
{
    let n = serials.len();
    let mut k: usize = 0;
    while k < n
        invariant
            n == serials.len(),
            k <= n,
            forall|j: int| 0 <= j < k ==> serials@[j]@ != serial@,
        decreases n - k,
    {
        if serials[k] == *serial {
            assert(string_views(serials@)[k as int] == serial@);
            return true;
        }
        k = k + 1;
    }
    proof {
        if string_views(serials@).contains(serial@) {
            let j = choose|j: int|
                0 <= j < string_views(serials@).len() && string_views(serials@)[j] == serial@;
            assert(serials@[j]@ == serial@);
        }
    }
    false
}

/// The computers known to Tanium that the database does not hold yet: those
/// whose serial number is not among the serial numbers of the database.
pub fn missing_records(in_tanium: Vec<Computer>, in_db: &Vec<String>) -> (missing: Vec<Computer>)
    ensures
        computer_views(missing@) == missing_from(computer_views(in_tanium@), string_views(in_db@)),
{
    let ghost all = computer_views(in_tanium@);
    let ghost db = string_views(in_db@);
    let mut missing: Vec<Computer> = Vec::new();
    let n = in_tanium.len();
    let mut i: usize = 0;
    while i < n
        invariant
            n == in_tanium.len(),
            all == computer_views(in_tanium@),
            db == string_views(in_db@),
            i <= n,
            computer_views(missing@) == missing_from(all.take(i as int), db),
        decreases n - i,
    {
        let c = &in_tanium[i];
        assert(all.take(i + 1).drop_last() =~= all.take(i as int));
        assert(all.take(i + 1).last() == c@);
        if !contains_string(in_db, &c.serial_number) {
            let ghost before = missing@;
            missing.push(Computer { name: c.name.clone(), serial_number: c.serial_number.clone() });
            assert(computer_views(missing@) =~= computer_views(before).push(c@));
        }
        i = i + 1;
    }
    assert(all.take(n as int) =~= all);
    missing
}

/// Above this many serial numbers, two workers query Dell.
pub const PARALLEL_THRESHOLD: usize = 100;

/// The serial numbers for each worker: with more than `PARALLEL_THRESHOLD`
/// of them, the first half (rounded down) for one worker and the rest for a
/// second one; otherwise all of them for one worker.
pub fn split_dell_work(serials: Vec<String>) -> (work: (Vec<String>, Option<Vec<String>>))
    ensures
        serials.len() > PARALLEL_THRESHOLD ==> {
            &&& work.0@ == serials@.take((serials.len() / 2) as int)
            &&& work.1 matches Some(second) && second@ == serials@.skip((serials.len() / 2) as int)
        },
        serials.len() <= PARALLEL_THRESHOLD ==> work.0@ == serials@ && work.1 is None,
{
    let mut first = serials;
    if first.len() > PARALLEL_THRESHOLD {
        let half = first.len() / 2;
        let second = first.split_off(half);
        (first, Some(second))
    } else {
        (first, None)
    }
}

/// The largest number of records that one import request carries.
pub const IMPORT_LIMIT: usize = 5000;

/// The records for the import requests: with more than `IMPORT_LIMIT` of
/// them, the first `IMPORT_LIMIT` and the rest; otherwise all of them.
pub fn split_import_data(records: Vec<(String, String)>) -> (parts: (
    Vec<(String, String)>,
    Option<Vec<(String, String)>>,
))
    ensures
        records.len() > IMPORT_LIMIT ==> {
            &&& parts.0@ == records@.take(IMPORT_LIMIT as int)
            &&& parts.1 matches Some(rest) && rest@ == records@.skip(IMPORT_LIMIT as int)
        },
        records.len() <= IMPORT_LIMIT ==> parts.0@ == records@ && parts.1 is None,
{
    let mut first = records;
    if first.len() > IMPORT_LIMIT {
        let rest = first.split_off(IMPORT_LIMIT);
        (first, Some(rest))
    } else {
        (first, None)
    }
}

} // verus!
