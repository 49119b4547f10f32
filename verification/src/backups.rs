//! The retention engine: dated snapshots with an isolation metric, and the
//! order in which they should be evicted to keep the surviving set spread
//! across the original time range.
//!
//! A snapshot's isolation is the smaller of the gaps to its two temporal
//! neighbours in the current set; the earliest and latest members carry a
//! sentinel maximum so they are preferred last. Eviction picks the member
//! with the smallest isolation, breaking ties towards the older date, and
//! recomputes the survivors' isolations.

use vstd::prelude::*;
use crate::dates::BackupDate;
use crate::dates::date_before;
use crate::dates::date_seconds_spec;
use crate::dates::lemma_date_order;
use crate::dates::valid_date;

verus! {

/// A snapshot's distance to the rest of the set: the smaller gap to its
/// temporal neighbours, in seconds, or the sentinel for the endpoints.
#[derive(Clone, Copy, PartialEq, Eq, Structural, Debug)]
pub enum Isolation {
    Finite(u64),
    Max,
}

/// One backup snapshot: its date, where it lives, how many bytes its
/// regular files hold, and its current isolation.
pub struct Backup {
    pub date: BackupDate,
    pub path: String,
    pub size: u64,
    pub isolation: Isolation,
}

/// A backup's position on the second axis.
pub open spec fn bsec(b: Backup) -> int {
    date_seconds_spec(b.date)
}

/// The fields of a backup that never change: date, path and size.
pub open spec fn bcore(b: Backup) -> (BackupDate, Seq<char>, u64) {
    (b.date, b.path@, b.size)
}

/// The immutable fields of every member, in order.
pub open spec fn cores(s: Seq<Backup>) -> Seq<(BackupDate, Seq<char>, u64)> {
    Seq::new(s.len(), |i: int| bcore(s[i]))
}

/// Every member's date, in order.
pub open spec fn dates_of(s: Seq<Backup>) -> Seq<BackupDate> {
    Seq::new(s.len(), |i: int| s[i].date)
}

/// No two members on the same date.
pub open spec fn distinct_dates(s: Seq<Backup>) -> bool {
    forall|i: int, j: int|
        0 <= i < j < s.len() ==> (#[trigger] s[i]).date != (#[trigger] s[j]).date
}

/// Backups equal in every observable field.
pub open spec fn beq(a: Backup, b: Backup) -> bool {
    bcore(a) == bcore(b) && a.isolation == b.isolation
}

/// Sequences of backups equal member by member.
pub open spec fn seq_beq(a: Seq<Backup>, b: Seq<Backup>) -> bool {
    a.len() == b.len() && forall|i: int| 0 <= i < a.len() ==> beq(#[trigger] a[i], b[i])
}

pub open spec fn valid_dates(s: Seq<Backup>) -> bool {
    forall|i: int| 0 <= i < s.len() ==> valid_date(#[trigger] s[i].date)
}

pub open spec fn sorted_by_date(s: Seq<Backup>) -> bool {
    forall|i: int, j: int| 0 <= i < j < s.len() ==> bsec(#[trigger] s[i]) <= bsec(#[trigger] s[j])
}

/// Sorted with no two members on the same instant.
pub open spec fn strictly_sorted_by_date(s: Seq<Backup>) -> bool {
    forall|i: int, j: int| 0 <= i < j < s.len() ==> bsec(#[trigger] s[i]) < bsec(#[trigger] s[j])
}

/// The isolation position `i` of a date-sorted list should carry: the
/// sentinel at the endpoints, else the smaller gap to the two neighbours.
pub open spec fn iso_at(s: Seq<Backup>, i: int) -> Isolation {
    if i == 0 || i == s.len() - 1 {
        Isolation::Max
    } else {
        let left = bsec(s[i]) - bsec(s[i - 1]);
        let right = bsec(s[i + 1]) - bsec(s[i]);
        Isolation::Finite(
            (if left <= right {
                left
            } else {
                right
            }) as u64,
        )
    }
}

/// Every member's isolation agrees with the set's current membership.
pub open spec fn isolations_ok(s: Seq<Backup>) -> bool {
    forall|i: int| 0 <= i < s.len() ==> (#[trigger] s[i]).isolation == iso_at(s, i)
}

/// The same members with isolations recomputed.
pub open spec fn with_isolations(s: Seq<Backup>) -> Seq<Backup> {
    Seq::new(s.len(), |i: int| Backup { isolation: iso_at(s, i), ..s[i] })
}

pub open spec fn sum_sizes(s: Seq<Backup>) -> int
    decreases s.len(),
{
    if s.len() == 0 {
        0
    } else {
        sum_sizes(s.drop_last()) + s.last().size
    }
}

/// The strict order on isolations: every finite gap is below the sentinel.
pub open spec fn iso_lt(a: Isolation, b: Isolation) -> bool {
    match (a, b) {
        (Isolation::Finite(x), Isolation::Finite(y)) => x < y,
        (Isolation::Finite(_), Isolation::Max) => true,
        _ => false,
    }
}

/// The eviction order: smaller isolation first, ties towards the older
/// date.
pub open spec fn key_lt(a: Backup, b: Backup) -> bool {
    iso_lt(a.isolation, b.isolation) || (a.isolation == b.isolation && bsec(a) < bsec(b))
}

impl Backup {
    /// A snapshot as discovery first sees it, before any isolation has
    /// been computed.
    pub fn new(creation_date: BackupDate, path: String, size: u64) -> (r: Backup)
        ensures
            r.date == creation_date,
            r.path@ == path@,
            r.size == size,
            r.isolation == Isolation::Finite(0u64),
    {
        Backup { date: creation_date, path, size, isolation: Isolation::Finite(0) }
    }
}

/// Exec counterpart of `key_lt`: does `a` leave before `b`?
fn backup_key_lt(a: &Backup, b: &Backup) -> (r: bool)
    requires
        valid_date(a.date),
        valid_date(b.date),
    ensures
        r == key_lt(*a, *b),
{
    proof {
        lemma_date_order(a.date, b.date);
    }
    match (a.isolation, b.isolation) {
        (Isolation::Finite(x), Isolation::Finite(y)) => {
            if x < y {
                true
            } else if x == y {
                date_before(&a.date, &b.date)
            } else {
                false
            }
        },
        (Isolation::Finite(_), Isolation::Max) => true,
        (Isolation::Max, Isolation::Finite(_)) => false,
        (Isolation::Max, Isolation::Max) => date_before(&a.date, &b.date),
    }
}

/// Removing a member removes exactly its immutable fields from the list's
/// cores.
proof fn lemma_cores_remove(s: Seq<Backup>, i: int)
    requires
        0 <= i < s.len(),
    ensures
        cores(s.remove(i)) =~= cores(s).remove(i),
{
}

/// Inserting a member inserts exactly its immutable fields into the list's
/// cores.
proof fn lemma_cores_insert(s: Seq<Backup>, i: int, b: Backup)
    requires
        0 <= i <= s.len(),
    ensures
        cores(s.insert(i, b)) =~= cores(s).insert(i, bcore(b)),
{
}

/// Removing a member removes exactly its date from the list's dates.
proof fn lemma_dates_remove(s: Seq<Backup>, i: int)
    requires
        0 <= i < s.len(),
    ensures
        dates_of(s.remove(i)) =~= dates_of(s).remove(i),
{
}

/// Inserting a member inserts exactly its date into the list's dates.
proof fn lemma_dates_insert(s: Seq<Backup>, i: int, b: Backup)
    requires
        0 <= i <= s.len(),
    ensures
        dates_of(s.insert(i, b)) =~= dates_of(s).insert(i, b.date),
{
}

/// Isolation targets depend on the dates alone.
proof fn lemma_iso_at_congruence(s1: Seq<Backup>, s2: Seq<Backup>, i: int)
    requires
        0 <= i < s1.len(),
        s1.len() == s2.len(),
        forall|j: int| 0 <= j < s1.len() ==> (#[trigger] s1[j]).date == s2[j].date,
    ensures
        iso_at(s1, i) == iso_at(s2, i),
{
    assert(s1[i].date == s2[i].date);
    if 0 < i < s1.len() - 1 {
        assert(s1[i - 1].date == s2[i - 1].date);
        assert(s1[i + 1].date == s2[i + 1].date);
    }
}

/// Whether the list is already ordered by date, oldest first.
fn is_sorted_by_date(backups: &Vec<Backup>) -> (r: bool)
    requires
        valid_dates(backups@),
    ensures
        r == sorted_by_date(backups@),
{
    let len = backups.len();
    if len <= 1 {
        return true;
    }
    let mut i: usize = 1;
    while i < len
        invariant
            1 <= i <= len == backups@.len(),
            valid_dates(backups@),
            sorted_by_date(backups@.take(i as int)),
        decreases len - i,
    {
        proof {
            lemma_date_order(backups@[i - 1].date, backups@[i as int].date);
        }
        if date_before(&backups[i].date, &backups[i - 1].date) {
            return false;
        }
        proof {
            assert forall|p: int, q: int| 0 <= p < q < i + 1 implies bsec(#[trigger] backups@[p])
                <= bsec(#[trigger] backups@[q]) by {
                assert(backups@.take(i as int)[p] == backups@[p]);
                if q < i {
                    assert(backups@.take(i as int)[q] == backups@[q]);
                } else {
                    assert(backups@.take(i as int)[i - 1] == backups@[i - 1]);
                }
            }
            assert(sorted_by_date(backups@.take(i + 1)));
        }
        i = i + 1;
    }
    proof {
        assert(backups@.take(backups@.len() as int) =~= backups@);
    }
    true
}

/// Orders the list by date, oldest first, keeping the same members.
fn sort_backups_by_date(backups: &mut Vec<Backup>)
    requires
        valid_dates(old(backups)@),
    ensures
        final(backups)@.len() == old(backups)@.len(),
        sorted_by_date(final(backups)@),
        valid_dates(final(backups)@),
        cores(final(backups)@).to_multiset() == cores(old(backups)@).to_multiset(),
        dates_of(final(backups)@).to_multiset() == dates_of(old(backups)@).to_multiset(),
    decreases old(backups)@.len(),
{
    broadcast use vstd::seq_lib::group_to_multiset_ensures;
    broadcast use vstd::seq_lib::to_multiset_insert;
    broadcast use vstd::multiset::group_multiset_axioms;

    let len = backups.len();
    if len <= 1 {
        return ;
    }
    let mut i: usize = 1;
    while i < len
        invariant
            1 <= i <= len == backups@.len(),
            valid_dates(backups@),
            sorted_by_date(backups@.take(i as int)),
            cores(backups@).to_multiset() == cores(old(backups)@).to_multiset(),
            dates_of(backups@).to_multiset() == dates_of(old(backups)@).to_multiset(),
        decreases len - i,
    {
        let ghost before = backups@;
        let x = backups.remove(i);
        proof {
            lemma_cores_remove(before, i as int);
            assert(backups@.take(i as int) =~= before.take(i as int));
        }
        let mut pos: usize = 0;
        let mut searching: bool = true;
        while searching && pos < i
            invariant
                0 <= pos <= i < before.len(),
                backups@ == before.remove(i as int),
                valid_dates(before),
                valid_date(x.date),
                x == before[i as int],
                sorted_by_date(before.take(i as int)),
                backups@.take(i as int) =~= before.take(i as int),
                forall|j: int| 0 <= j < pos ==> bsec(#[trigger] backups@[j]) <= bsec(x),
                !searching ==> pos < i && bsec(x) < bsec(backups@[pos as int]),
            decreases i - pos + (if searching {
                1int
            } else {
                0int
            }),
        {
            proof {
                lemma_date_order(x.date, backups@[pos as int].date);
            }
            if date_before(&x.date, &backups[pos].date) {
                searching = false;
            } else {
                pos = pos + 1;
            }
        }
        let ghost removed = backups@;
        backups.insert(pos, x);
        proof {
            lemma_cores_insert(removed, pos as int, x);
            let cb = cores(before);
            let e = cb[i as int];
            assert(bcore(x) == e);
            vstd::seq_lib::to_multiset_remove(cb, i as int);
            assert(cores(removed) =~= cb.remove(i as int));
            assert(cores(backups@) =~= cores(removed).insert(pos as int, e));
            vstd::seq_lib::to_multiset_insert(cores(removed), pos as int, e);
            assert(cb.contains(e));
            vstd::seq_lib::to_multiset_contains(cb, e);
            assert(cb.to_multiset().count(e) > 0);
            assert(cb.to_multiset().remove(e).insert(e) =~= cb.to_multiset());
            assert(cores(backups@).to_multiset() =~= cores(before).to_multiset());
            lemma_dates_remove(before, i as int);
            lemma_dates_insert(removed, pos as int, x);
            let db = dates_of(before);
            let ed = db[i as int];
            vstd::seq_lib::to_multiset_remove(db, i as int);
            assert(dates_of(removed) =~= db.remove(i as int));
            assert(dates_of(backups@) =~= dates_of(removed).insert(pos as int, ed));
            vstd::seq_lib::to_multiset_insert(dates_of(removed), pos as int, ed);
            assert(db.contains(ed));
            vstd::seq_lib::to_multiset_contains(db, ed);
            assert(db.to_multiset().count(ed) > 0);
            assert(db.to_multiset().remove(ed).insert(ed) =~= db.to_multiset());
            assert(dates_of(backups@).to_multiset() =~= dates_of(before).to_multiset());
            let w = backups@;
            assert forall|p: int, q: int| 0 <= p < q < i + 1 implies bsec(#[trigger] w[p]) <= bsec(
                #[trigger] w[q],
            ) by {
                assert(forall|j: int|
                    0 <= j < i ==> removed[j] == #[trigger] before.take(i as int)[j]);
                if p < pos && q < pos {
                } else if q == pos {
                    assert(w[q] == x);
                } else if p == pos {
                    assert(w[p] == x);
                    assert(w[q] == removed[q - 1]);
                    assert(bsec(x) <= bsec(removed[pos as int]));
                    assert(bsec(removed[pos as int]) <= bsec(removed[q - 1]));
                } else if p < pos {
                    assert(w[p] == removed[p]);
                    assert(w[q] == removed[q - 1]);
                } else {
                    assert(w[p] == removed[p - 1]);
                    assert(w[q] == removed[q - 1]);
                }
            }
            assert(sorted_by_date(backups@.take(i + 1)));
        }
        i = i + 1;
    }
    proof {
        if len > 0 {
            assert(backups@.take(backups@.len() as int) =~= backups@);
        }
    }
}

/// The isolations a date-sorted list should carry, member by member.
fn compute_isolations(backups: &Vec<Backup>) -> (r: Vec<Isolation>)
    requires
        sorted_by_date(backups@),
        valid_dates(backups@),
    ensures
        r@.len() == backups@.len(),
        forall|i: int| 0 <= i < r@.len() ==> r@[i] == iso_at(backups@, i),
{
    let len = backups.len();
    let mut isolations: Vec<Isolation> = Vec::new();
    let mut index: usize = 0;
    while index < len
        invariant
            0 <= index <= len == backups@.len(),
            sorted_by_date(backups@),
            valid_dates(backups@),
            isolations@.len() == index,
            forall|i: int| 0 <= i < index ==> isolations@[i] == iso_at(backups@, i),
        decreases len - index,
    {
        if index == 0 || index == len - 1 {
            isolations.push(Isolation::Max);
        } else {
            let prev = backups[index - 1].date.to_seconds();
            let curr = backups[index].date.to_seconds();
            let next = backups[index + 1].date.to_seconds();
            let left = curr - prev;
            let right = next - curr;
            isolations.push(
                Isolation::Finite(
                    if left <= right {
                        left
                    } else {
                        right
                    },
                ),
            );
        }
        index = index + 1;
    }
    isolations
}

/// Re-sorts the list by date and recomputes every member's isolation.
/// On a list that is already sorted this changes no member's immutable
/// fields, and on one whose isolations are already consistent it changes
/// nothing at all: the operation is idempotent.
pub fn update_isolations(backups: &mut Vec<Backup>)
    requires
        valid_dates(old(backups)@),
    ensures
        final(backups)@.len() == old(backups)@.len(),
        valid_dates(final(backups)@),
        sorted_by_date(final(backups)@),
        isolations_ok(final(backups)@),
        cores(final(backups)@).to_multiset() == cores(old(backups)@).to_multiset(),
        dates_of(final(backups)@).to_multiset() == dates_of(old(backups)@).to_multiset(),
        sorted_by_date(old(backups)@) ==> cores(final(backups)@) == cores(old(backups)@),
        sorted_by_date(old(backups)@) && isolations_ok(old(backups)@) ==> seq_beq(
            final(backups)@,
            old(backups)@,
        ),
{
    let presorted = is_sorted_by_date(backups);
    if !presorted {
        sort_backups_by_date(backups);
    }
    let ghost sorted = backups@;
    let isolations = compute_isolations(backups);
    let len = backups.len();
    let mut i: usize = 0;
    while i < len
        invariant
            0 <= i <= len == backups@.len() == sorted.len(),
            isolations@.len() == len,
            forall|j: int| 0 <= j < len ==> isolations@[j] == iso_at(sorted, j),
            forall|j: int| 0 <= j < len ==> bcore(#[trigger] backups@[j]) == bcore(sorted[j]),
            forall|j: int| 0 <= j < i ==> (#[trigger] backups@[j]).isolation == iso_at(sorted, j),
            forall|j: int| i <= j < len ==> (#[trigger] backups@[j]).isolation == sorted[j].isolation,
        decreases len - i,
    {
        let updated = Backup {
            date: backups[i].date,
            path: backups[i].path.clone(),
            size: backups[i].size,
            isolation: isolations[i],
        };
        backups[i] = updated;
        i = i + 1;
    }
    proof {
        assert forall|j: int| 0 <= j < len implies (#[trigger] backups@[j]).isolation == iso_at(
            backups@,
            j,
        ) by {
            lemma_iso_at_congruence(sorted, backups@, j);
        }
        assert(cores(backups@) =~= cores(sorted));
        assert(dates_of(backups@) =~= dates_of(sorted));
        if presorted {
            lemma_update_identity(old(backups)@, backups@);
        }
    }
}

/// When the list was already sorted, recomputing isolations keeps every
/// member's immutable fields in place; when the isolations were already
/// consistent too, it keeps every member untouched.
proof fn lemma_update_identity(old_s: Seq<Backup>, new_s: Seq<Backup>)
    requires
        new_s.len() == old_s.len(),
        forall|j: int| 0 <= j < new_s.len() ==> bcore(#[trigger] new_s[j]) == bcore(old_s[j]),
        forall|j: int| 0 <= j < new_s.len() ==> (#[trigger] new_s[j]).isolation == iso_at(old_s, j),
    ensures
        cores(new_s) == cores(old_s),
        isolations_ok(old_s) ==> seq_beq(new_s, old_s),
{
    assert(cores(new_s) =~= cores(old_s));
}

/// Prefixes never sum to more than the whole list.
proof fn lemma_sum_sizes_prefix(s: Seq<Backup>, i: int)
    requires
        0 <= i <= s.len(),
    ensures
        sum_sizes(s.take(i)) <= sum_sizes(s),
    decreases s.len() - i,
{
    if i == s.len() {
        assert(s.take(i) =~= s);
    } else {
        assert(s.take(i + 1).drop_last() =~= s.take(i));
        assert(s.take(i + 1).last() == s[i]);
        lemma_sum_sizes_prefix(s, i + 1);
    }
}

/// Two lists with the same dates as a multiset either both repeat a date
/// or neither does.
proof fn lemma_distinct_transfer(a: Seq<BackupDate>, b: Seq<BackupDate>)
    requires
        a.to_multiset() == b.to_multiset(),
    ensures
        a.no_duplicates() <==> b.no_duplicates(),
{
    if a.no_duplicates() {
        a.lemma_multiset_has_no_duplicates();
        b.lemma_multiset_has_no_duplicates_conv();
    }
    if b.no_duplicates() {
        b.lemma_multiset_has_no_duplicates();
        a.lemma_multiset_has_no_duplicates_conv();
    }
}

/// A sorted list whose adjacent members sit on distinct instants is
/// strictly sorted.
proof fn lemma_strict_from_adjacent(s: Seq<Backup>)
    requires
        sorted_by_date(s),
        forall|j: int| 0 < j < s.len() ==> bsec(#[trigger] s[j - 1]) < bsec(s[j]),
    ensures
        strictly_sorted_by_date(s),
{
    assert forall|p: int, q: int| 0 <= p < q < s.len() implies bsec(#[trigger] s[p]) < bsec(
        #[trigger] s[q],
    ) by {
        assert(bsec(s[q - 1]) < bsec(s[q]));
    }
}

/// Two adjacent members on the same date witness a repeated date in any
/// list with the same dates.
proof fn lemma_dup_found(sorted: Seq<Backup>, input: Seq<Backup>, i: int)
    requires
        dates_of(sorted).to_multiset() == dates_of(input).to_multiset(),
        0 < i < sorted.len(),
        sorted[i - 1].date == sorted[i].date,
    ensures
        !distinct_dates(input),
{
    assert(dates_of(sorted)[i - 1] == dates_of(sorted)[i]);
    assert(!dates_of(sorted).no_duplicates());
    lemma_distinct_transfer(dates_of(sorted), dates_of(input));
    let (p, q) = choose|p: int, q: int|
        0 <= p < input.len() && 0 <= q < input.len() && p != q && #[trigger] dates_of(input)[p]
            == #[trigger] dates_of(input)[q];
    if p < q {
        assert(input[p].date == input[q].date);
    } else {
        assert(input[q].date == input[p].date);
    }
}

/// A strictly sorted list repeats no date, and neither does any list with
/// the same dates.
proof fn lemma_distinct_from_strict(sorted: Seq<Backup>, input: Seq<Backup>)
    requires
        dates_of(sorted).to_multiset() == dates_of(input).to_multiset(),
        valid_dates(sorted),
        strictly_sorted_by_date(sorted),
    ensures
        distinct_dates(input),
{
    assert forall|p: int, q: int|
        0 <= p < q < sorted.len() implies (#[trigger] sorted[p]).date != (
    #[trigger] sorted[q]).date by {
        lemma_date_order(sorted[p].date, sorted[q].date);
    }
    assert(dates_of(sorted).no_duplicates()) by {
        assert forall|p: int, q: int|
            0 <= p < sorted.len() && 0 <= q < sorted.len() && p != q implies #[trigger] dates_of(
            sorted,
        )[p] != #[trigger] dates_of(sorted)[q] by {
            if p < q {
                assert(sorted[p].date != sorted[q].date);
            } else {
                assert(sorted[q].date != sorted[p].date);
            }
        }
    }
    lemma_distinct_transfer(dates_of(sorted), dates_of(input));
    assert forall|p: int, q: int|
        0 <= p < q < input.len() implies (#[trigger] input[p]).date != (
    #[trigger] input[q]).date by {
        assert(dates_of(input)[p] != dates_of(input)[q]);
    }
}

/// A folder of snapshots: where it lives, its members, and the total byte
/// count of their regular files as it stood when the folder was read.
/// `total_files_size` is that original aggregate; eviction never changes
/// it, the caller tracks the residual itself.
pub struct BackupsFolder {
    pub path: String,
    pub backups: Vec<Backup>,
    pub total_files_size: u64,
}

impl BackupsFolder {
    /// What the engine maintains about its list: calendar dates, strictly
    /// ascending (so dates are pairwise distinct), isolations consistent
    /// with the membership.
    pub open spec fn wf(&self) -> bool {
        &&& valid_dates(self.backups@)
        &&& strictly_sorted_by_date(self.backups@)
        &&& isolations_ok(self.backups@)
    }

    /// Builds the folder the eviction engine works on: sorts the snapshots
    /// by date, computes every isolation, and records the aggregate size.
    /// Returns nothing exactly when a date is outside the calendar, two
    /// snapshots share a date, or the sizes together overflow 64 bits.
    #[verifier::loop_isolation(false)]
    pub fn new(path: String, backups: Vec<Backup>) -> (r: Option<BackupsFolder>)
        ensures
            r is Some <==> (valid_dates(backups@) && distinct_dates(backups@) && sum_sizes(
                backups@,
            ) <= u64::MAX),
            r is Some ==> {
                let f = r->0;
                &&& f.wf()
                &&& f.path@ == path@
                &&& f.total_files_size == sum_sizes(backups@)
                &&& f.backups@.len() == backups@.len()
                &&& cores(f.backups@).to_multiset() == cores(backups@).to_multiset()
            },
    {
        let ghost input = backups@;
        let len = backups.len();

        // Every date must lie in the calendar.
        let mut i: usize = 0;
        while i < len
            invariant
                0 <= i <= len == backups@.len(),
                backups@ == input,
                forall|j: int| 0 <= j < i ==> valid_date((#[trigger] input[j]).date),
            decreases len - i,
        {
            if !backups[i].date.is_valid() {
                return None;
            }
            i = i + 1;
        }

        // The aggregate size must fit in 64 bits.
        let mut total: u64 = 0;
        let mut i: usize = 0;
        while i < len
            invariant
                0 <= i <= len == backups@.len(),
                backups@ == input,
                total == sum_sizes(input.take(i as int)),
            decreases len - i,
        {
            proof {
                assert(input.take(i + 1).drop_last() =~= input.take(i as int));
                assert(input.take(i + 1).last() == input[i as int]);
            }
            total = match total.checked_add(backups[i].size) {
                Some(t) => t,
                None => {
                    proof {
                        lemma_sum_sizes_prefix(input, i + 1);
                    }
                    return None;
                },
            };
            i = i + 1;
        }
        proof {
            assert(input.take(len as int) =~= input);
        }

        let mut backups = backups;
        update_isolations(&mut backups);

        // Dates must be pairwise distinct; on the sorted list, a repeat
        // would sit next to its twin.
        let ghost sorted = backups@;
        let len = backups.len();
        let mut i: usize = 1;
        while i < len
            invariant
                1 <= i <= len == sorted.len() || (len == 0 && i == 1),
                backups@ == sorted,
                valid_dates(sorted),
                sorted_by_date(sorted),
                dates_of(sorted).to_multiset() == dates_of(input).to_multiset(),
                forall|j: int| 0 < j < i ==> bsec(#[trigger] sorted[j - 1]) < bsec(sorted[j]),
            decreases len - i,
        {
            proof {
                lemma_date_order(sorted[i - 1].date, sorted[i as int].date);
            }
            if backups[i - 1].date == backups[i].date {
                proof {
                    lemma_dup_found(sorted, input, i as int);
                }
                return None;
            }
            i = i + 1;
        }
        proof {
            lemma_strict_from_adjacent(sorted);
            lemma_distinct_from_strict(sorted, input);
        }
        Some(BackupsFolder { path, backups, total_files_size: total })
    }
}

/// The position the eviction rule picks from a non-empty list: the least
/// (isolation, date) key, the earliest such position on a full tie.
pub open spec fn best_index(s: Seq<Backup>) -> int
    recommends
        s.len() > 0,
    decreases s.len(),
{
    if s.len() <= 1 {
        0
    } else {
        let r = 1 + best_index(s.drop_first());
        if key_lt(s[r], s[0]) {
            r
        } else {
            0
        }
    }
}

/// `best_index` points at a member no other member beats, and beats every
/// member before it.
pub proof fn lemma_best_index(s: Seq<Backup>)
    requires
        s.len() > 0,
    ensures
        0 <= best_index(s) < s.len(),
        forall|j: int| 0 <= j < s.len() ==> !key_lt(#[trigger] s[j], s[best_index(s)]),
        forall|j: int| 0 <= j < best_index(s) ==> key_lt(s[best_index(s)], #[trigger] s[j]),
    decreases s.len(),
{
    if s.len() > 1 {
        let t = s.drop_first();
        lemma_best_index(t);
        let rt = best_index(t);
        let r = 1 + rt;
        assert(forall|j: int| 0 <= j < t.len() ==> t[j] == s[j + 1]);
        if key_lt(s[r], s[0]) {
            assert(best_index(s) == r);
            assert forall|j: int| 0 <= j < s.len() implies !key_lt(#[trigger] s[j], s[r]) by {
                if j >= 1 {
                    assert(!key_lt(t[j - 1], t[rt]));
                }
            }
            assert forall|j: int| 0 <= j < r implies key_lt(s[r], #[trigger] s[j]) by {
                if j >= 1 {
                    assert(key_lt(t[rt], t[j - 1]));
                }
            }
        } else {
            assert(best_index(s) == 0);
            assert forall|j: int| 0 <= j < s.len() implies !key_lt(#[trigger] s[j], s[0]) by {
                if j >= 1 {
                    assert(!key_lt(t[j - 1], t[rt]));
                    lemma_key_not_lt_trans(s[j], s[r], s[0]);
                }
            }
        }
    }
}

/// Not beating is transitive under the eviction order.
proof fn lemma_key_not_lt_trans(a: Backup, b: Backup, c: Backup)
    requires
        !key_lt(a, b),
        !key_lt(b, c),
    ensures
        !key_lt(a, c),
{
}

/// Removing a member keeps the rest strictly sorted on their dates.
proof fn lemma_remove_keeps_order(s: Seq<Backup>, k: int)
    requires
        0 <= k < s.len(),
        strictly_sorted_by_date(s),
        valid_dates(s),
    ensures
        strictly_sorted_by_date(s.remove(k)),
        valid_dates(s.remove(k)),
{
    let t = s.remove(k);
    assert forall|p: int, q: int| 0 <= p < q < t.len() implies bsec(#[trigger] t[p]) < bsec(
        #[trigger] t[q],
    ) by {
        if p < k && q < k {
        } else if p < k {
            assert(t[q] == s[q + 1]);
        } else {
            assert(t[p] == s[p + 1]);
            assert(t[q] == s[q + 1]);
        }
    }
    assert forall|p: int| 0 <= p < t.len() implies valid_date((#[trigger] t[p]).date) by {
        if p < k {
        } else {
            assert(t[p] == s[p + 1]);
        }
    }
}

/// A position nothing beats, with everything before it beaten, is the one
/// the eviction rule picks.
proof fn lemma_scan_finds_best(s: Seq<Backup>, best: int)
    requires
        s.len() > 0,
        0 <= best < s.len(),
        forall|j: int| 0 <= j < s.len() ==> !key_lt(#[trigger] s[j], s[best]),
        forall|j: int| 0 <= j < best ==> key_lt(s[best], #[trigger] s[j]),
    ensures
        best == best_index(s),
{
    lemma_best_index(s);
    let k = best_index(s);
    if best < k {
        assert(key_lt(s[k], s[best]));
        assert(!key_lt(s[k], s[best]));
    }
    if best > k {
        assert(key_lt(s[best], s[k]));
        assert(!key_lt(s[best], s[k]));
    }
}

/// A recomputed list whose cores match the survivors is, member by member,
/// the survivors with fresh isolations, and stays strictly sorted.
#[verifier::rlimit(80)]
proof fn lemma_pop_post(s: Seq<Backup>, out: Seq<Backup>, k: int)
    requires
        0 <= k < s.len(),
        strictly_sorted_by_date(s),
        valid_dates(s),
        cores(out) == cores(s.remove(k)),
        isolations_ok(out),
        out.len() == s.len() - 1,
    ensures
        seq_beq(out, with_isolations(s.remove(k))),
        strictly_sorted_by_date(out),
{
    let removed = s.remove(k);
    lemma_remove_keeps_order(s, k);
    assert forall|p: int| 0 <= p < out.len() implies (#[trigger] out[p]).date == removed[p].date by {
        assert(bcore(out[p]) == cores(out)[p]);
        assert(cores(out)[p] == cores(removed)[p]);
    }
    assert forall|j: int| 0 <= j < out.len() implies beq(
        #[trigger] out[j],
        with_isolations(removed)[j],
    ) by {
        assert(bcore(out[j]) == cores(out)[j]);
        lemma_iso_at_congruence(out, removed, j);
    }
    assert forall|p: int, q: int| 0 <= p < q < out.len() implies bsec(#[trigger] out[p]) < bsec(
        #[trigger] out[q],
    ) by {
        assert(bcore(out[p]) == cores(removed)[p]);
        assert(bcore(out[q]) == cores(removed)[q]);
    }
}

impl BackupsFolder {
    /// Removes and returns the snapshot the retention rule gives up first:
    /// the smallest isolation, the older date on a tie. The survivors'
    /// isolations are recomputed. An empty folder yields nothing and stays
    /// as it is.
    #[verifier::loop_isolation(false)]
    #[verifier::rlimit(100)]
    fn pop_best_candidate_for_deletion(&mut self) -> (r: Option<Backup>)
        requires
            old(self).wf(),
        ensures
            final(self).wf(),
            final(self).path == old(self).path,
            final(self).total_files_size == old(self).total_files_size,
            old(self).backups@.len() == 0 ==> r is None && final(self).backups@ == old(
                self,
            ).backups@,
            old(self).backups@.len() > 0 ==> {
                let s = old(self).backups@;
                let k = best_index(s);
                &&& r == Some(s[k])
                &&& final(self).backups@.len() == s.len() - 1
                &&& seq_beq(final(self).backups@, with_isolations(s.remove(k)))
            },
    {
        let ghost s = self.backups@;
        let len = self.backups.len();
        if len == 0 {
            return None;
        }
        let mut best: usize = 0;
        let mut i: usize = 1;
        while i < len
            invariant
                1 <= i <= len,
                0 <= best < i,
                forall|j: int| 0 <= j < i ==> !key_lt(#[trigger] s[j], s[best as int]),
                forall|j: int| 0 <= j < best ==> key_lt(s[best as int], #[trigger] s[j]),
            decreases len - i,
        {
            if backup_key_lt(&self.backups[i], &self.backups[best]) {
                best = i;
            }
            i = i + 1;
        }
        proof {
            lemma_scan_finds_best(s, best as int);
            lemma_remove_keeps_order(s, best_index(s));
        }
        let victim = self.backups.remove(best);
        update_isolations(&mut self.backups);
        proof {
            lemma_pop_post(s, self.backups@, best as int);
        }
        Some(victim)
    }

    /// An independent copy: same members, same path, same recorded size.
    fn duplicate(&self) -> (r: BackupsFolder)
        ensures
            r.path == self.path,
            r.total_files_size == self.total_files_size,
            r.backups@ == self.backups@,
    {
        let len = self.backups.len();
        let mut list: Vec<Backup> = Vec::new();
        let mut i: usize = 0;
        while i < len
            invariant
                0 <= i <= len == self.backups@.len(),
                list@.len() == i,
                forall|j: int| 0 <= j < i ==> #[trigger] list@[j] == self.backups@[j],
            decreases len - i,
        {
            let b = Backup {
                date: self.backups[i].date,
                path: self.backups[i].path.clone(),
                size: self.backups[i].size,
                isolation: self.backups[i].isolation,
            };
            list.push(b);
            i = i + 1;
        }
        proof {
            assert(list@ =~= self.backups@);
        }
        BackupsFolder {
            path: self.path.clone(),
            backups: list,
            total_files_size: self.total_files_size,
        }
    }

    /// The lazy eviction sequence: each step yields the next victim and an
    /// independent snapshot of what would remain. The folder itself is not
    /// touched; the iterator works on its own copy.
    pub fn iter_backups_in_deletion_order(&self) -> (r: DeletionOrderBackupIterator)
        ensures
            r.remaining().path == self.path,
            r.remaining().total_files_size == self.total_files_size,
            r.remaining().backups@ == self.backups@,
    {
        DeletionOrderBackupIterator { remaining_backups: self.duplicate() }
    }
}

/// Yields `(victim, residual folder)` pairs, smallest isolation first,
/// until the working copy is empty.
pub struct DeletionOrderBackupIterator {
    remaining_backups: BackupsFolder,
}

impl DeletionOrderBackupIterator {
    /// The working copy the next step will pop from.
    pub closed spec fn remaining(&self) -> BackupsFolder {
        self.remaining_backups
    }

    /// One eviction step: pops the best candidate and hands it out with an
    /// independent copy of the surviving state. The step is a function of
    /// the working copy alone, so runs from equal folders yield equal
    /// victim sequences.
    pub fn next(&mut self) -> (r: Option<(Backup, BackupsFolder)>)
        requires
            old(self).remaining().wf(),
        ensures
            final(self).remaining().wf(),
            final(self).remaining().path == old(self).remaining().path,
            final(self).remaining().total_files_size == old(self).remaining().total_files_size,
            old(self).remaining().backups@.len() == 0 ==> r is None
                && final(self).remaining().backups@ == old(self).remaining().backups@,
            old(self).remaining().backups@.len() > 0 ==> {
                let s = old(self).remaining().backups@;
                let k = best_index(s);
                &&& r is Some
                &&& (r->0).0 == s[k]
                &&& seq_beq(final(self).remaining().backups@, with_isolations(s.remove(k)))
                &&& (r->0).1.backups@ == final(self).remaining().backups@
                &&& (r->0).1.path == final(self).remaining().path
                &&& (r->0).1.total_files_size == final(self).remaining().total_files_size
                &&& (r->0).1.wf()
            },
    {
        match self.remaining_backups.pop_best_candidate_for_deletion() {
            Some(best_candidate) => Some((best_candidate, self.remaining_backups.duplicate())),
            None => None,
        }
    }
}

/// The whole eviction sequence of a folder state: what the iterator yields,
/// step by step, as a function of the starting list alone.
pub open spec fn evictions(s: Seq<Backup>) -> Seq<Backup>
    decreases s.len(),
    via evictions_decreases
{
    if s.len() == 0 {
        Seq::empty()
    } else {
        seq![s[best_index(s)]] + evictions(with_isolations(s.remove(best_index(s))))
    }
}

#[via_fn]
proof fn evictions_decreases(s: Seq<Backup>) {
    if s.len() > 0 {
        lemma_best_index(s);
    }
}

/// Recomputing isolations keeps the members and their order, re-establishes
/// consistency, and preserves well-formedness.
proof fn lemma_wi_wf(t: Seq<Backup>)
    requires
        strictly_sorted_by_date(t),
        valid_dates(t),
    ensures
        with_isolations(t).len() == t.len(),
        cores(with_isolations(t)) == cores(t),
        forall|j: int| 0 <= j < t.len() ==> (#[trigger] with_isolations(t)[j]).date == t[j].date,
        isolations_ok(with_isolations(t)),
        strictly_sorted_by_date(with_isolations(t)),
        valid_dates(with_isolations(t)),
{
    let w = with_isolations(t);
    assert(cores(w) =~= cores(t));
    assert forall|j: int| 0 <= j < w.len() implies (#[trigger] w[j]).isolation == iso_at(w, j) by {
        lemma_iso_at_congruence(t, w, j);
    }
}

/// With three or more members, the eviction rule picks an interior one:
/// the endpoints carry the sentinel, and any interior member beats them.
proof fn lemma_best_interior(s: Seq<Backup>)
    requires
        isolations_ok(s),
        strictly_sorted_by_date(s),
        s.len() >= 3,
    ensures
        0 < best_index(s) < s.len() - 1,
{
    lemma_best_index(s);
    let k = best_index(s);
    assert(s[0].isolation == Isolation::Max);
    assert(s[s.len() - 1].isolation == Isolation::Max);
    assert(s[1].isolation == iso_at(s, 1));
    if k == 0 || k == s.len() - 1 {
        assert(key_lt(s[1], s[k]));
        assert(!key_lt(s[1], s[k]));
    }
}

/// With one or two members the eviction rule picks the oldest: both carry
/// the sentinel, and the tie breaks towards the older date.
proof fn lemma_best_two(s: Seq<Backup>)
    requires
        isolations_ok(s),
        strictly_sorted_by_date(s),
        1 <= s.len() <= 2,
    ensures
        best_index(s) == 0,
{
    if s.len() == 2 {
        assert(s[0].isolation == Isolation::Max);
        assert(s[1].isolation == Isolation::Max);
        assert(best_index(s.drop_first()) == 0);
        assert(s.drop_first()[0] == s[1]);
        assert(!key_lt(s[1], s[0]));
    }
}

/// The laws of the eviction sequence over a well-formed list: it yields
/// exactly as many items as the list holds; the items are the list's
/// members (as a multiset of date, path and size); every yield before the
/// last two avoids both endpoints; and the endpoints come last, the
/// earliest then the latest.
/// The eviction sequence yields exactly as many items as the list holds,
/// and the items are exactly the list's members: the same multiset of
/// (date, path, size) triples.
pub proof fn lemma_evictions_count(s: Seq<Backup>)
    ensures
        evictions(s).len() == s.len(),
        cores(evictions(s)).to_multiset() == cores(s).to_multiset(),
    decreases s.len(),
{
    broadcast use vstd::multiset::group_multiset_axioms;

    if s.len() == 0 {
        assert(cores(evictions(s)) =~= cores(s));
        return ;
    }
    lemma_best_index(s);
    let k = best_index(s);
    let removed = s.remove(k);
    let rest = with_isolations(removed);
    assert(cores(rest) =~= cores(removed));
    lemma_evictions_count(rest);
    let ev = evictions(s);
    assert(ev == seq![s[k]] + evictions(rest));
    assert(cores(ev) =~= cores(seq![s[k]] + evictions(rest)));
    assert(cores(evictions(rest)).insert(0, bcore(s[k])) =~= cores(ev));
    vstd::seq_lib::to_multiset_insert(cores(evictions(rest)), 0, bcore(s[k]));
    vstd::seq_lib::to_multiset_remove(cores(s), k);
    assert(cores(removed) =~= cores(s).remove(k));
    let e = cores(s)[k];
    assert(bcore(s[k]) == e);
    assert(cores(s).contains(e));
    vstd::seq_lib::to_multiset_contains(cores(s), e);
    assert(cores(s).to_multiset().remove(e).insert(e) =~= cores(s).to_multiset());
    assert(cores(ev).to_multiset() == cores(s).to_multiset());
}

/// The endpoints of a well-formed list leave last: every yield before the
/// final two lies strictly inside the original time range, then the
/// earliest member leaves, then the latest.
#[verifier::rlimit(100)]
pub proof fn lemma_evictions_endpoints(s: Seq<Backup>)
    requires
        valid_dates(s),
        strictly_sorted_by_date(s),
        isolations_ok(s),
    ensures
        s.len() == 1 ==> evictions(s)[0] == s[0],
        s.len() >= 2 ==> evictions(s)[s.len() - 2] == s[0] && evictions(s)[s.len() - 1] == s[s.len()
            - 1],
        s.len() >= 2 ==> forall|j: int|
            0 <= j < s.len() - 2 ==> bsec(#[trigger] evictions(s)[j]) != bsec(s[0]) && bsec(
                evictions(s)[j],
            ) != bsec(s[s.len() - 1]),
    decreases s.len(),
{
    if s.len() == 0 {
        return ;
    }
    lemma_best_index(s);
    let k = best_index(s);
    let removed = s.remove(k);
    let rest = with_isolations(removed);
    lemma_remove_keeps_order(s, k);
    lemma_wi_wf(removed);
    lemma_evictions_count(rest);
    lemma_evictions_endpoints(rest);
    let ev = evictions(s);
    assert(ev == seq![s[k]] + evictions(rest));
    assert(ev.len() == s.len());

    if s.len() == 1 {
        assert(ev[0] == s[0]);
    } else if s.len() == 2 {
        lemma_best_two(s);
        assert(removed[0] == s[1]);
        assert(s[1].isolation == Isolation::Max);
        assert(rest[0] == s[1]);
        assert(ev[0] == s[0]);
        assert(ev[1] == evictions(rest)[0]);
        assert(evictions(rest)[0] == s[1]);
    } else {
        lemma_best_interior(s);
        assert(removed[0] == s[0]);
        assert(removed[removed.len() - 1] == s[s.len() - 1]);
        assert(s[0].isolation == Isolation::Max);
        assert(s[s.len() - 1].isolation == Isolation::Max);
        assert(iso_at(removed, 0) == Isolation::Max);
        assert(iso_at(removed, removed.len() - 1) == Isolation::Max);
        assert(rest[0] == s[0]);
        assert(rest[rest.len() - 1] == s[s.len() - 1]);
        let n = s.len();
        assert(evictions(rest)[n - 3] == rest[0]);
        assert(evictions(rest)[n - 2] == rest[n - 2]);
        assert(ev[n - 2] == evictions(rest)[n - 3]);
        assert(ev[n - 1] == evictions(rest)[n - 2]);
        assert forall|j: int| 0 <= j < n - 2 implies bsec(#[trigger] ev[j]) != bsec(s[0]) && bsec(
            ev[j],
        ) != bsec(s[n - 1]) by {
            if j == 0 {
                assert(ev[0] == s[k]);
                assert(bsec(s[0]) < bsec(s[k]));
                assert(bsec(s[k]) < bsec(s[n - 1]));
            } else {
                assert(ev[j] == evictions(rest)[j - 1]);
                if n - 1 >= 2 && j - 1 < n - 3 {
                    assert(bsec(evictions(rest)[j - 1]) != bsec(rest[0]));
                    assert(bsec(evictions(rest)[j - 1]) != bsec(rest[rest.len() - 1]));
                }
            }
        }
    }
}

/// One step of the eviction sequence: the first yield is the member at
/// `best_index`, and what follows is the eviction sequence of the surviving
/// state — exactly what `DeletionOrderBackupIterator::next` promises of one
/// call, so the model describes the iterator step by step.
pub proof fn lemma_evictions_step(s: Seq<Backup>)
    requires
        s.len() > 0,
    ensures
        evictions(s).len() == s.len(),
        evictions(s)[0] == s[best_index(s)],
        evictions(s).drop_first() == evictions(with_isolations(s.remove(best_index(s)))),
{
    lemma_evictions_count(s);
    let k = best_index(s);
    let rest = with_isolations(s.remove(k));
    assert(evictions(s) == seq![s[k]] + evictions(rest));
    assert(evictions(s).drop_first() =~= evictions(rest));
}

/// Equal members compare equally under the eviction rule.
proof fn lemma_best_index_congruence(s1: Seq<Backup>, s2: Seq<Backup>)
    requires
        seq_beq(s1, s2),
        s1.len() > 0,
    ensures
        best_index(s1) == best_index(s2),
    decreases s1.len(),
{
    if s1.len() > 1 {
        let t1 = s1.drop_first();
        let t2 = s2.drop_first();
        assert forall|j: int| 0 <= j < t1.len() implies beq(#[trigger] t1[j], t2[j]) by {
            assert(beq(s1[j + 1], s2[j + 1]));
        }
        lemma_best_index_congruence(t1, t2);
        lemma_best_index(s1);
        lemma_best_index(t1);
        let r = 1 + best_index(t1);
        assert(beq(s1[r], s2[r]));
        assert(beq(s1[0], s2[0]));
        assert(key_lt(s1[r], s1[0]) == key_lt(s2[r], s2[0]));
    }
}

/// Equal lists evolve equally: each step pops the same position and leaves
/// members equal field by field.
pub proof fn lemma_evictions_congruence(s1: Seq<Backup>, s2: Seq<Backup>)
    requires
        seq_beq(s1, s2),
    ensures
        seq_beq(evictions(s1), evictions(s2)),
    decreases s1.len(),
{
    if s1.len() == 0 {
        return ;
    }
    lemma_best_index(s1);
    lemma_best_index_congruence(s1, s2);
    let k = best_index(s1);
    let r1 = with_isolations(s1.remove(k));
    let r2 = with_isolations(s2.remove(k));
    assert forall|j: int| 0 <= j < r1.len() implies beq(#[trigger] r1[j], r2[j]) by {
        assert forall|p: int| 0 <= p < s1.remove(k).len() implies beq(
            #[trigger] s1.remove(k)[p],
            s2.remove(k)[p],
        ) by {
            if p < k {
                assert(beq(s1[p], s2[p]));
            } else {
                assert(beq(s1[p + 1], s2[p + 1]));
            }
        }
        assert forall|p: int|
            0 <= p < s1.remove(k).len() implies (#[trigger] s1.remove(k)[p]).date == s2.remove(
            k,
        )[p].date by {
            assert(beq(s1.remove(k)[p], s2.remove(k)[p]));
        }
        lemma_iso_at_congruence(s1.remove(k), s2.remove(k), j);
    }
    lemma_evictions_congruence(r1, r2);
    let ev1 = evictions(s1);
    let ev2 = evictions(s2);
    assert(ev1 == seq![s1[k]] + evictions(r1));
    assert(ev2 == seq![s2[k]] + evictions(r2));
    assert forall|j: int| 0 <= j < ev1.len() implies beq(#[trigger] ev1[j], ev2[j]) by {
        if j == 0 {
            assert(beq(s1[k], s2[k]));
        } else {
            assert(ev1[j] == evictions(r1)[j - 1]);
            assert(ev2[j] == evictions(r2)[j - 1]);
        }
    }
}

/// Determinism of the engine: two folder states holding the same snapshots
/// (same date, path and size at every position), each with consistent
/// isolations, yield the same eviction sequence, member for member.
pub proof fn lemma_eviction_order_deterministic(s1: Seq<Backup>, s2: Seq<Backup>)
    requires
        cores(s1) == cores(s2),
        isolations_ok(s1),
        isolations_ok(s2),
    ensures
        cores(evictions(s1)) == cores(evictions(s2)),
{
    assert(s1.len() == cores(s1).len());
    assert(s1.len() == s2.len());
    assert forall|p: int| 0 <= p < s1.len() implies (#[trigger] s1[p]).date == s2[p].date by {
        assert(bcore(s1[p]) == cores(s1)[p]);
        assert(bcore(s2[p]) == cores(s2)[p]);
    }
    assert forall|j: int| 0 <= j < s1.len() implies beq(#[trigger] s1[j], s2[j]) by {
        assert(bcore(s1[j]) == cores(s1)[j]);
        assert(bcore(s2[j]) == cores(s2)[j]);
        lemma_iso_at_congruence(s1, s2, j);
    }
    lemma_evictions_congruence(s1, s2);
    assert(cores(evictions(s1)) =~= cores(evictions(s2)));
}

/// The set of positions that carry the sentinel.
pub open spec fn sentinel_indices(s: Seq<Backup>) -> Set<int> {
    Set::new(|i: int| 0 <= i < s.len() && s[i].isolation == Isolation::Max)
}

/// In a non-empty list with consistent isolations, the sentinel sits at
/// the endpoints and nowhere else: one member when the list is a
/// singleton, exactly two otherwise.
pub proof fn lemma_sentinel_count(s: Seq<Backup>)
    requires
        isolations_ok(s),
        s.len() > 0,
    ensures
        forall|i: int|
            0 <= i < s.len() ==> (((#[trigger] s[i]).isolation == Isolation::Max) <==> (i == 0 || i
                == s.len() - 1)),
        sentinel_indices(s).len() == if s.len() == 1 {
            1int
        } else {
            2int
        },
{
    broadcast use vstd::set::group_set_axioms;

    if s.len() == 1 {
        assert(sentinel_indices(s) =~= Set::empty().insert(0int));
    } else {
        assert(sentinel_indices(s) =~= Set::empty().insert(0int).insert(s.len() - 1));
    }
}

/// An interior member's isolation is exactly the smaller gap to its two
/// neighbours, so it never exceeds the distance to either of them.
pub proof fn lemma_interior_isolation(s: Seq<Backup>, i: int)
    requires
        valid_dates(s),
        strictly_sorted_by_date(s),
        isolations_ok(s),
        0 < i < s.len() - 1,
    ensures
        ({
            let left = bsec(s[i]) - bsec(s[i - 1]);
            let right = bsec(s[i + 1]) - bsec(s[i]);
            let gap = if left <= right {
                left
            } else {
                right
            };
            s[i].isolation == Isolation::Finite(gap as u64) && 0 < gap <= left && gap <= right
        }),
{
    crate::dates::lemma_date_seconds_bound(s[i - 1].date);
    crate::dates::lemma_date_seconds_bound(s[i].date);
    crate::dates::lemma_date_seconds_bound(s[i + 1].date);
}

/// A finite isolation split for display: whole days, then the hours,
/// minutes and seconds of the remainder.
pub fn split_duration(secs: u64) -> (r: (u64, u64, u64, u64))
    ensures
        r.0 == secs / 86400,
        r.1 == (secs / 3600) % 24,
        r.2 == (secs / 60) % 60,
        r.3 == secs % 60,
{
    (secs / 86400, (secs / 3600) % 24, (secs / 60) % 60, secs % 60)
}

/// Whether the aggregate size is over the ceiling, so that eviction must
/// begin at all.
pub fn cleanup_needed(total_size: u64, max_size: u64) -> (r: bool)
    ensures
        r == (total_size > max_size),
{
    total_size > max_size
}

/// One driver step: the residual size after acting on a victim, and
/// whether the run may stop. A failed action frees nothing, so the
/// residual only shrinks on success; the run stops once the residual is
/// at or below the ceiling.
pub fn process_step(residual_size: u64, victim_size: u64, action_succeeded: bool, max_size: u64) -> (r: (
    u64,
    bool,
))
    requires
        action_succeeded ==> victim_size <= residual_size,
    ensures
        action_succeeded ==> r.0 == residual_size - victim_size,
        !action_succeeded ==> r.0 == residual_size,
        r.1 == (r.0 <= max_size),
{
    let next = if action_succeeded {
        residual_size - victim_size
    } else {
        residual_size
    };
    (next, next <= max_size)
}

} // verus!
