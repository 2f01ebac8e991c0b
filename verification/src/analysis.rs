//! The cookies seen most often on a date.

use crate::date::FilterDate;
use crate::entry::{views, LogEntry, LogEntryView};
use crate::timestamp::date_of;
use vstd::hash_map::StringHashMap;
use vstd::prelude::*;

verus! {

/// Whether the entry was written on the date, by the calendar of the
/// entry's own offset.
pub open spec fn seen_on(e: LogEntryView, date: FilterDate) -> bool {
    date_of(e.timestamp) == date
}

/// How many of the entries were written on the date and name the cookie.
pub open spec fn sightings(entries: Seq<LogEntryView>, date: FilterDate, cookie: Seq<char>) -> nat
    decreases entries.len(),
{
    if entries.len() == 0 {
        0
    } else {
        let before = sightings(entries.drop_last(), date, cookie);
        if seen_on(entries.last(), date) && entries.last().cookie == cookie {
            before + 1
        } else {
            before
        }
    }
}

/// Whether the cookie was seen on the date, and no cookie more often.
pub open spec fn is_most_frequent(entries: Seq<LogEntryView>, date: FilterDate, cookie: Seq<char>)
    -> bool {
    &&& sightings(entries, date, cookie) > 0
    &&& forall|other: Seq<char>|
        sightings(entries, date, other) <= sightings(entries, date, cookie)
}

/// The cookies seen most often on the date: all that share the highest
/// count, and none where no entry was written on the date.
pub open spec fn most_frequent(entries: Seq<LogEntryView>, date: FilterDate) -> Set<Seq<char>> {
    Set::new(|cookie: Seq<char>| is_most_frequent(entries, date, cookie))
}

/// A cookie is seen at most as often as there are entries, and only where
/// an entry on the date names it.
pub proof fn lemma_sightings(entries: Seq<LogEntryView>, date: FilterDate, cookie: Seq<char>)
    ensures
        sightings(entries, date, cookie) <= entries.len(),
        sightings(entries, date, cookie) > 0 <==> exists|i: int|
            0 <= i < entries.len() && seen_on(#[trigger] entries[i], date) && entries[i].cookie
                == cookie,
    decreases entries.len(),
{
    if entries.len() > 0 {
        let front = entries.drop_last();
        lemma_sightings(front, date, cookie);
        if sightings(entries, date, cookie) > 0 {
            if seen_on(entries.last(), date) && entries.last().cookie == cookie {
                assert(entries[entries.len() - 1] == entries.last());
            } else {
                let i = choose|i: int|
                    0 <= i < front.len() && seen_on(#[trigger] front[i], date) && front[i].cookie
                        == cookie;
                assert(entries[i] == front[i]);
            }
        }
        if exists|i: int|
            0 <= i < entries.len() && seen_on(#[trigger] entries[i], date) && entries[i].cookie
                == cookie {
            let i = choose|i: int|
                0 <= i < entries.len() && seen_on(#[trigger] entries[i], date) && entries[i].cookie
                    == cookie;
            if i < front.len() {
                assert(front[i] == entries[i]);
            }
        }
    }
}

/// The test that tells the entries written on the date that name the
/// cookie.
pub open spec fn sighting_of(date: FilterDate, cookie: Seq<char>) -> spec_fn(LogEntryView) -> bool {
    |e: LogEntryView| seen_on(e, date) && e.cookie == cookie
}

/// The sightings of a cookie are the entries that pass the test, counted.
pub proof fn lemma_sightings_are_counted(
    entries: Seq<LogEntryView>,
    date: FilterDate,
    cookie: Seq<char>,
)
    ensures
        sightings(entries, date, cookie) == entries.filter(sighting_of(date, cookie)).len(),
    decreases entries.len(),
{
    reveal(Seq::filter);
    if entries.len() > 0 {
        lemma_sightings_are_counted(entries.drop_last(), date, cookie);
    }
}

fn is_on(e: &LogEntry, date: &FilterDate) -> (b: bool)
    ensures
        b == seen_on(e@, *date),
{
    e.timestamp.date() == *date
}

/// Whether one of the strings is the cookie.
pub open spec fn names(cookies: Seq<String>, cookie: Seq<char>) -> bool {
    exists|k: int| 0 <= k < cookies.len() && (#[trigger] cookies[k])@ == cookie
}

/// The cookies that the strings name.
pub open spec fn cookie_set(cookies: Seq<String>) -> Set<Seq<char>> {
    Set::new(|cookie: Seq<char>| names(cookies, cookie))
}

/// Whether no two of the strings are the same cookie.
pub open spec fn no_repeats(cookies: Seq<String>) -> bool {
    forall|a: int, b: int|
        0 <= a < b < cookies.len() ==> (#[trigger] cookies[a])@ != (#[trigger] cookies[b])@
}

/// How often each cookie was seen on one date, and the highest of these
/// counts.
pub(crate) struct FrequencyTally {
    counts: StringHashMap<usize>,
    max_hits: usize,
}

impl FrequencyTally {
    /// The count of each cookie that was seen.
    pub(crate) closed spec fn counts(&self) -> Map<Seq<char>, usize> {
        self.counts@
    }

    /// The highest count, 0 where no cookie was seen.
    pub(crate) closed spec fn max_hits(&self) -> usize {
        self.max_hits
    }

    /// Whether this is the tally of the entries written on the date.
    pub(crate) open spec fn tallies(&self, entries: Seq<LogEntryView>, date: FilterDate) -> bool {
        &&& forall|c: Seq<char>| #[trigger]
            self.counts().contains_key(c) <==> sightings(entries, date, c) > 0
        &&& forall|c: Seq<char>| #[trigger]
            self.counts().contains_key(c) ==> self.counts()[c] == sightings(entries, date, c)
        &&& forall|c: Seq<char>| #[trigger] sightings(entries, date, c) <= self.max_hits()
        &&& self.max_hits() > 0 ==> exists|c: Seq<char>| #[trigger]
            sightings(entries, date, c) == self.max_hits()
    }

    /// Counts the entries written on the date, cookie by cookie.
    pub(crate) fn of(entries: &Vec<LogEntry>, date: &FilterDate) -> (t: FrequencyTally)
        ensures
            t.tallies(views(entries@), *date),
    {
        let mut t = FrequencyTally { counts: StringHashMap::new(), max_hits: 0 };
        let ghost all = views(entries@);
        let mut i: usize = 0;
        while i < entries.len()
            invariant
                i <= entries@.len(),
                all == views(entries@),
                t.tallies(all.take(i as int), *date),
            decreases entries@.len() - i,
        {
            let ghost seen = all.take(i as int);
            let ghost next = all.take(i + 1);
            let ghost old_t = t;
            let entry = &entries[i];
            proof {
                assert(next.drop_last() =~= seen);
                assert(next.last() == entry@);
                lemma_sightings(seen, *date, entry.cookie@);
                assert(t.counts().contains_key(entry.cookie@) ==> t.counts()[entry.cookie@]
                    == sightings(seen, *date, entry.cookie@));
                assert(!t.counts().contains_key(entry.cookie@) ==> sightings(
                    seen,
                    *date,
                    entry.cookie@,
                ) == 0);
            }
            if is_on(entry, date) {
                let hits: usize = match t.counts.get(entry.cookie.as_str()) {
                    Some(n) => *n + 1,
                    None => 1,
                };
                t.counts.insert(entry.cookie.clone(), hits);
                if hits > t.max_hits {
                    t.max_hits = hits;
                }
                proof {
                    assert(hits == sightings(next, *date, entry.cookie@));
                    assert forall|c: Seq<char>| #[trigger]
                        t.counts().contains_key(c) <==> sightings(next, *date, c) > 0 by {
                        assert(old_t.counts().contains_key(c) <==> sightings(seen, *date, c) > 0);
                    }
                    assert forall|c: Seq<char>| #[trigger]
                        t.counts().contains_key(c) implies t.counts()[c] == sightings(
                        next,
                        *date,
                        c,
                    ) by {
                        if c != entry.cookie@ {
                            assert(old_t.counts().contains_key(c));
                        }
                    }
                    assert forall|c: Seq<char>| #[trigger]
                        sightings(next, *date, c) <= t.max_hits() by {
                        assert(sightings(seen, *date, c) <= old_t.max_hits());
                    }
                    if hits <= old_t.max_hits() {
                        let w = choose|c: Seq<char>| #[trigger]
                            sightings(seen, *date, c) == old_t.max_hits();
                        assert(sightings(next, *date, w) == t.max_hits());
                    }
                }
            } else {
                proof {
                    assert forall|c: Seq<char>|
                        sightings(next, *date, c) == sightings(seen, *date, c) by {}
                    if old_t.max_hits() > 0 {
                        let w = choose|c: Seq<char>| #[trigger]
                            sightings(seen, *date, c) == old_t.max_hits();
                        assert(sightings(next, *date, w) == t.max_hits());
                    }
                }
            }
            i += 1;
        }
        proof {
            assert(all.take(i as int) =~= all);
        }
        t
    }
}

impl FrequencyTally {
    /// The cookies with the highest count, each once, in the order in which
    /// the entries first name them.
    pub(crate) fn leaders(self, entries: &Vec<LogEntry>, date: &FilterDate) -> (r: Vec<String>)
        requires
            self.tallies(views(entries@), *date),
        ensures
            cookie_set(r@) == most_frequent(views(entries@), *date),
            no_repeats(r@),
    {
        let mut t = self;
        let mut r: Vec<String> = Vec::new();
        let ghost all = views(entries@);
        let mut j: usize = 0;
        while j < entries.len()
            invariant
                j <= entries@.len(),
                all == views(entries@),
                self.tallies(all, *date),
                t.max_hits() == self.max_hits(),
                forall|c: Seq<char>| #[trigger]
                    t.counts().contains_key(c) <==> self.counts().contains_key(c) && !names(r@, c),
                forall|c: Seq<char>| #[trigger]
                    t.counts().contains_key(c) ==> t.counts()[c] == self.counts()[c],
                no_repeats(r@),
                forall|k: int| 0 <= k < r@.len() ==> is_most_frequent(all, *date, (#[trigger] r@[k])@),
                forall|c: Seq<char>|
                    is_most_frequent(all, *date, c) && #[trigger] sightings(
                        all.take(j as int),
                        *date,
                        c,
                    ) > 0 ==> names(r@, c),
            decreases entries@.len() - j,
        {
            let ghost seen = all.take(j as int);
            let ghost next = all.take(j + 1);
            let ghost old_r = r@;
            let ghost old_t = t;
            let entry = &entries[j];
            let ghost cookie = entry.cookie@;
            proof {
                assert(next.drop_last() =~= seen);
                assert(next.last() == entry@);
                assert(all[j as int] == entry@);
                lemma_sightings(all, *date, cookie);
                lemma_leader_has_max_hits(self, all, *date, cookie);
                assert(self.counts().contains_key(cookie) <==> sightings(all, *date, cookie) > 0);
                assert(t.counts().contains_key(cookie) <==> self.counts().contains_key(cookie)
                    && !names(r@, cookie));
            }
            let mut leads = false;
            if is_on(entry, date) {
                if let Some(n) = t.counts.get(entry.cookie.as_str()) {
                    leads = *n == t.max_hits;
                }
            }
            if leads {
                t.counts.remove(entry.cookie.as_str());
                r.push(entry.cookie.clone());
                proof {
                    let last = old_r.len() as int;
                    assert(r@[last]@ == cookie);
                    assert(forall|k: int| 0 <= k < last ==> r@[k] == old_r[k]);
                    assert forall|c: Seq<char>| names(r@, c) <==> names(old_r, c) || c
                        == cookie by {
                        if names(old_r, c) {
                            let k = choose|k: int|
                                0 <= k < old_r.len() && (#[trigger] old_r[k])@ == c;
                            assert(r@[k]@ == c);
                        }
                        if names(r@, c) && c != cookie {
                            let k = choose|k: int| 0 <= k < r@.len() && (#[trigger] r@[k])@ == c;
                            assert(old_r[k]@ == c);
                        }
                    }
                    assert forall|a: int, b: int| 0 <= a < b < r@.len() implies (#[trigger] r@[a])@
                        != (#[trigger] r@[b])@ by {
                        if b == last {
                            assert(old_r[a]@ == r@[a]@);
                        }
                    }
                    assert forall|c: Seq<char>| #[trigger]
                        t.counts().contains_key(c) <==> self.counts().contains_key(c) && !names(
                            r@,
                            c,
                        ) by {
                        assert(old_t.counts().contains_key(c) <==> self.counts().contains_key(c)
                            && !names(old_r, c));
                    }
                    assert forall|c: Seq<char>| #[trigger]
                        t.counts().contains_key(c) implies t.counts()[c] == self.counts()[c] by {
                        assert(old_t.counts().contains_key(c));
                    }
                }
            }
            proof {
                assert forall|c: Seq<char>|
                    is_most_frequent(all, *date, c) && #[trigger] sightings(next, *date, c)
                        > 0 implies names(r@, c) by {
                    if sightings(seen, *date, c) > 0 {
                        assert(names(old_r, c));
                        let k = choose|k: int| 0 <= k < old_r.len() && (#[trigger] old_r[k])@ == c;
                        assert(r@[k]@ == c);
                    } else {
                        assert(c == cookie && seen_on(entry@, *date));
                        lemma_leader_has_max_hits(self, all, *date, c);
                        if !leads {
                            assert(names(old_r, c));
                        } else {
                            assert(r@[old_r.len() as int]@ == c);
                        }
                    }
                }
            }
            j += 1;
        }
        proof {
            assert(all.take(j as int) =~= all);
            assert forall|c: Seq<char>| names(r@, c) implies is_most_frequent(all, *date, c) by {
                let k = choose|k: int| 0 <= k < r@.len() && (#[trigger] r@[k])@ == c;
                assert(is_most_frequent(all, *date, r@[k]@));
            }
            assert(cookie_set(r@) =~= most_frequent(all, *date));
        }
        r
    }
}

/// Under a tally, the cookies seen most often are those whose count is the
/// highest count, which is then above 0.
pub(crate) proof fn lemma_leader_has_max_hits(
    t: FrequencyTally,
    entries: Seq<LogEntryView>,
    date: FilterDate,
    cookie: Seq<char>,
)
    requires
        t.tallies(entries, date),
    ensures
        is_most_frequent(entries, date, cookie) <==> sightings(entries, date, cookie) > 0
            && sightings(entries, date, cookie) == t.max_hits(),
{
    if sightings(entries, date, cookie) > 0 {
        assert(sightings(entries, date, cookie) <= t.max_hits());
        let w = choose|c: Seq<char>| #[trigger] sightings(entries, date, c) == t.max_hits();
        if is_most_frequent(entries, date, cookie) {
            assert(sightings(entries, date, w) <= sightings(entries, date, cookie));
        }
        if sightings(entries, date, cookie) == t.max_hits() {
            assert forall|other: Seq<char>|
                sightings(entries, date, other) <= sightings(entries, date, cookie) by {
                assert(sightings(entries, date, other) <= t.max_hits());
            }
        }
    }
}

/// Strings that name each cookie once name as many cookies as there are
/// strings.
pub proof fn lemma_cookie_set_len(cookies: Seq<String>)
    requires
        no_repeats(cookies),
    ensures
        cookie_set(cookies).finite(),
        cookie_set(cookies).len() == cookies.len(),
    decreases cookies.len(),
{
    if cookies.len() == 0 {
        assert(cookie_set(cookies) =~= Set::<Seq<char>>::empty());
    } else {
        let front = cookies.drop_last();
        let last = cookies.last()@;
        assert(forall|k: int| 0 <= k < front.len() ==> front[k] == cookies[k]);
        lemma_cookie_set_len(front);
        assert(!cookie_set(front).contains(last)) by {
            if names(front, last) {
                let k = choose|k: int| 0 <= k < front.len() && (#[trigger] front[k])@ == last;
                assert(cookies[k]@ != cookies[cookies.len() - 1]@);
            }
        }
        assert forall|c: Seq<char>| names(cookies, c) <==> names(front, c) || c == last by {
            if names(front, c) {
                let k = choose|k: int| 0 <= k < front.len() && (#[trigger] front[k])@ == c;
                assert(cookies[k]@ == c);
            }
            if c == last {
                assert(cookies[cookies.len() - 1]@ == c);
            }
            if names(cookies, c) && c != last {
                let k = choose|k: int| 0 <= k < cookies.len() && (#[trigger] cookies[k])@ == c;
                assert(front[k]@ == c);
            }
        }
        assert(cookie_set(cookies) =~= cookie_set(front).insert(last));
    }
}

/// Whether one of the entries was written on the date.
pub open spec fn any_seen_on(entries: Seq<LogEntryView>, date: FilterDate) -> bool {
    exists|i: int| 0 <= i < entries.len() && seen_on(#[trigger] entries[i], date)
}

/// The cookies that were seen most often on the date, each once: every
/// cookie whose count on that date is the highest, however many share it.
/// Where no entry was written on the date there is none.
pub fn get_max_freq_date(cookie_stamps: &Vec<LogEntry>, filter_date: &FilterDate) -> (r: Vec<
    String,
>)
    ensures
        cookie_set(r@) == most_frequent(views(cookie_stamps@), *filter_date),
        no_repeats(r@),
        most_frequent(views(cookie_stamps@), *filter_date).finite(),
        r@.len() == most_frequent(views(cookie_stamps@), *filter_date).len(),
        r@.len() > 0 <==> any_seen_on(views(cookie_stamps@), *filter_date),
{
    let tally = FrequencyTally::of(cookie_stamps, filter_date);
    let ghost all = views(cookie_stamps@);
    let ghost t = tally;
    let r = tally.leaders(cookie_stamps, filter_date);
    proof {
        lemma_cookie_set_len(r@);
        if r@.len() > 0 {
            assert(names(r@, r@[0]@));
            assert(cookie_set(r@).contains(r@[0]@));
            lemma_sightings(all, *filter_date, r@[0]@);
        }
        if any_seen_on(all, *filter_date) {
            let i = choose|i: int| 0 <= i < all.len() && seen_on(#[trigger] all[i], *filter_date);
            lemma_sightings(all, *filter_date, all[i].cookie);
            assert(sightings(all, *filter_date, all[i].cookie) <= t.max_hits());
            let w = choose|c: Seq<char>| #[trigger] sightings(all, *filter_date, c) == t.max_hits();
            lemma_leader_has_max_hits(t, all, *filter_date, w);
            assert(cookie_set(r@).contains(w));
        }
    }
    r
}

/// Where no entry was written on the date, no cookie was seen most often.
pub proof fn lemma_no_sighting_no_leader(entries: Seq<LogEntryView>, date: FilterDate)
    requires
        !any_seen_on(entries, date),
    ensures
        most_frequent(entries, date) == Set::<Seq<char>>::empty(),
{
    assert forall|c: Seq<char>| !is_most_frequent(entries, date, c) by {
        lemma_sightings(entries, date, c);
    }
    assert(most_frequent(entries, date) =~= Set::<Seq<char>>::empty());
}

/// Beside a cookie that was seen most often, the cookies seen most often
/// are those that were seen as often as it: all of them, and only them.
pub proof fn lemma_ties_share_the_lead(
    entries: Seq<LogEntryView>,
    date: FilterDate,
    leader: Seq<char>,
    other: Seq<char>,
)
    requires
        most_frequent(entries, date).contains(leader),
    ensures
        most_frequent(entries, date).contains(other) <==> sightings(entries, date, other)
            == sightings(entries, date, leader),
{
    if sightings(entries, date, other) == sightings(entries, date, leader) {
        assert forall|c: Seq<char>|
            sightings(entries, date, c) <= sightings(entries, date, other) by {
            assert(sightings(entries, date, c) <= sightings(entries, date, leader));
        }
    }
    if is_most_frequent(entries, date, other) {
        assert(sightings(entries, date, leader) <= sightings(entries, date, other));
        assert(sightings(entries, date, other) <= sightings(entries, date, leader));
    }
}

} // verus!
