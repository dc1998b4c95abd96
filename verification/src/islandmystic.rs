//! The win predicates and the two searches built on them.
//!
//! Whether an account name wins on a date is decided by a handful of draws
//! from a generator seeded from the name and the date. The primary locale
//! inspects up to eight draws; the secondary locale inspects one.

use crate::calendar::{
    first_day_number, is_date, last_day_number, lemma_day_number_names_one_date,
    lemma_day_number_range, Date,
};
use crate::names::{
    ascending, code_of_symbol, is_candidate, lemma_ascending_has_no_duplicates,
    lemma_candidate_has_place, lemma_filter_keeps_order, lemma_name_at_is_candidate,
    lemma_names_between_ascend, name_at, names_between, place_of_name, spell, spelled, symbol,
    NAMES, PER_FIRST, PER_PREFIX, SYMBOLS,
};
use crate::php5random::{advance, draw_at, seeded_window, Php5Random};
use rayon::iter::{IntoParallelRefIterator, ParallelIterator};
use vstd::prelude::*;
use vstd::string::*;

verus! {

/// The code point at place `i` of a name, zero past its end.
pub open spec fn code_at(name: Seq<char>, i: int) -> u32 {
    if 0 <= i < name.len() {
        name[i] as u32
    } else {
        0
    }
}

/// The seed for four code points and a date: the date written as the number
/// `yyyymmdd` plus a weighted sum of the code points, modulo 2^32.
pub open spec fn seed_of_codes(
    c0: u32,
    c1: u32,
    c2: u32,
    c3: u32,
    year: int,
    month: int,
    day: int,
) -> u32 {
    ((year * 10000 + month * 100 + day + 287234 * c0 + 71 * c1 + 97 * c2 + 1045 * c3)
        % 0x1_0000_0000) as u32
}

/// The seed for a name and a date. Only the first four code points of the
/// name count; a shorter name counts as padded with zeros.
pub open spec fn derive_seed(name: Seq<char>, year: int, month: int, day: int) -> u32 {
    seed_of_codes(
        code_at(name, 0),
        code_at(name, 1),
        code_at(name, 2),
        code_at(name, 3),
        year,
        month,
        day,
    )
}

/// The primary locale's decision, from the window of the freshly seeded
/// generator. The first draw modulo 3 chooses the branch. On 2 the second
/// draw must be odd, the seventh must leave 2, 3 or 4 modulo 23 and the
/// eighth 11 modulo 20. On 0 the eighth draw must leave 11 modulo 20. On 1
/// the name loses.
pub open spec fn primary_win(w: Seq<u32>) -> bool {
    if draw_at(w, 0) % 3 == 2 {
        &&& draw_at(w, 1) % 2 == 1
        &&& 1 < draw_at(w, 6) % 23 < 5
        &&& draw_at(w, 7) % 20 == 11
    } else {
        &&& draw_at(w, 0) % 3 == 0
        &&& draw_at(w, 7) % 20 == 11
    }
}

/// The secondary locale's decision: the first draw is a multiple of 920.
pub open spec fn secondary_win(w: Seq<u32>) -> bool {
    draw_at(w, 0) % 920 == 0
}

/// Whether a seed wins in the chosen locale.
#[verifier::opaque]
pub open spec fn seed_wins(seed: u32, english: bool) -> bool {
    if english {
        primary_win(seeded_window(seed))
    } else {
        secondary_win(seeded_window(seed))
    }
}

/// Whether `name` wins on the given date in the chosen locale.
pub open spec fn wins(name: Seq<char>, year: int, month: int, day: int, english: bool) -> bool {
    seed_wins(derive_seed(name, year, month, day), english)
}

/// Whether `name` wins on date `at` in the chosen locale.
pub open spec fn wins_on(name: Seq<char>, at: Date, english: bool) -> bool {
    wins(name, at.year as int, at.month as int, at.day as int, english)
}

/// Whether date `at` is stop `k` of the walk that starts at day number
/// `start` and moves `step` days at a time.
#[verifier::opaque]
pub open spec fn is_stop(at: Date, start: int, step: int, k: nat) -> bool {
    at.valid() && at.day_number() == start + k * step
}

/// Whether `name` loses at every one of the first `k` stops of a walk.
pub open spec fn loses_before(name: Seq<char>, start: int, step: int, k: nat, english: bool) -> bool {
    forall|at: Date, j: nat| j < k && #[trigger] is_stop(at, start, step, j) ==> !wins_on(name, at, english)
}

/// What the walk from `from` in steps of `step` days finds for `name`: the
/// first stop at which the name wins, or nothing where it wins at no stop
/// that is a date.
pub open spec fn is_first_win(
    found: Option<Date>,
    name: Seq<char>,
    from: Date,
    step: int,
    english: bool,
) -> bool {
    match found {
        Some(at) => {
            &&& wins_on(name, at, english)
            &&& exists|k: nat|
                {
                    &&& #[trigger] is_stop(at, from.day_number(), step, k)
                    &&& loses_before(name, from.day_number(), step, k, english)
                }
        },
        None => forall|k: nat| #[trigger] loses_before(name, from.day_number(), step, k, english),
    }
}

/// The names at places `lo` up to, not including, `hi` of the lexicographic
/// order that win on the given date, in that order.
pub open spec fn winners_between(
    lo: int,
    hi: int,
    year: int,
    month: int,
    day: int,
    english: bool,
) -> Seq<Seq<char>> {
    names_between(lo, hi).filter(|name: Seq<char>| wins(name, year, month, day, english))
}

/// The seed for four code points and a date, in wrapping 32-bit arithmetic.
pub fn seed_from_codes(c0: u32, c1: u32, c2: u32, c3: u32, year: i32, month: u8, day: u8) -> (seed:
    u32)
    ensures
        seed == seed_of_codes(c0, c1, c2, c3, year as int, month as int, day as int),
{
    let y: u32 = if year < 0 {
        (year as i64 + 0x1_0000_0000) as u32
    } else {
        year as u32
    };
    let date: u32 = y.wrapping_mul(10000);
    let date: u32 = wrapping_sum(date, month as u32 * 100, Ghost(year * 10000), Ghost(month * 100));
    let date: u32 = wrapping_sum(date, day as u32, Ghost(year * 10000 + month * 100), Ghost(day as int));
    let ghost yyyymmdd = year * 10000 + month * 100 + day;
    let t0: u32 = 287234u32.wrapping_mul(c0);
    let t1: u32 = 71u32.wrapping_mul(c1);
    let t2: u32 = 97u32.wrapping_mul(c2);
    let t3: u32 = 1045u32.wrapping_mul(c3);
    let sum: u32 = wrapping_sum(date, t0, Ghost(yyyymmdd), Ghost(287234 * c0));
    let sum: u32 = wrapping_sum(sum, t1, Ghost(yyyymmdd + 287234 * c0), Ghost(71 * c1));
    let sum: u32 = wrapping_sum(sum, t2, Ghost(yyyymmdd + 287234 * c0 + 71 * c1), Ghost(97 * c2));
    wrapping_sum(sum, t3, Ghost(yyyymmdd + 287234 * c0 + 71 * c1 + 97 * c2), Ghost(1045 * c3))
}

/// The wrapping sum of two 32-bit values that stand for the integers `a` and
/// `b` modulo 2^32 stands for `a + b`.
fn wrapping_sum(x: u32, y: u32, Ghost(a): Ghost<int>, Ghost(b): Ghost<int>) -> (sum: u32)
    requires
        x == a % 0x1_0000_0000,
        y == b % 0x1_0000_0000,
    ensures
        sum == (a + b) % 0x1_0000_0000,
{
    proof {
        vstd::arithmetic::div_mod::lemma_add_mod_noop(a, b, 0x1_0000_0000);
    }
    x.wrapping_add(y)
}

/// Whether a seed wins in the chosen locale, decided on a generator of its
/// own.
pub fn seed_check(seed: u32, english: bool) -> (won: bool)
    ensures
        won == seed_wins(seed, english),
{
    proof {
        reveal(seed_wins);
    }
    let mut rng = Php5Random::new(seed);
    let ghost w = seeded_window(seed);
    if !english {
        return nth_draw(&mut rng, Ghost(w), Ghost(0)) % 920 == 0;
    }
    let branch = nth_draw(&mut rng, Ghost(w), Ghost(0)) % 3;
    if branch == 2 {
        if nth_draw(&mut rng, Ghost(w), Ghost(1)) % 2 == 1 {
            nth_draw(&mut rng, Ghost(w), Ghost(2));
            nth_draw(&mut rng, Ghost(w), Ghost(3));
            nth_draw(&mut rng, Ghost(w), Ghost(4));
            nth_draw(&mut rng, Ghost(w), Ghost(5));
            let result = nth_draw(&mut rng, Ghost(w), Ghost(6)) % 23;
            return (result > 1 && result < 5) && (nth_draw(&mut rng, Ghost(w), Ghost(7)) % 20
                == 11);
        }
    } else if branch == 0 {
        nth_draw(&mut rng, Ghost(w), Ghost(1));
        nth_draw(&mut rng, Ghost(w), Ghost(2));
        nth_draw(&mut rng, Ghost(w), Ghost(3));
        nth_draw(&mut rng, Ghost(w), Ghost(4));
        nth_draw(&mut rng, Ghost(w), Ghost(5));
        nth_draw(&mut rng, Ghost(w), Ghost(6));
        return nth_draw(&mut rng, Ghost(w), Ghost(7)) % 20 == 11;
    }
    false
}

/// The names that begin with symbol `first` of the alphabet and win on the
/// given date, in lexicographic order.
pub fn winners_with_first(first: usize, year: i32, month: u8, day: u8, english: bool) -> (found:
    Vec<String>)
    requires
        first < SYMBOLS,
    ensures
        spelled(found@) == winners_between(
            first * PER_FIRST,
            (first + 1) * PER_FIRST,
            year as int,
            month as int,
            day as int,
            english,
        ),
{
    let lo = first * PER_FIRST;
    let hi = lo + PER_FIRST;
    let c0 = code_of_symbol(first);
    let ghost pred = |name: Seq<char>| wins(name, year as int, month as int, day as int, english);
    let mut found: Vec<String> = Vec::new();
    let mut at = lo;
    assert(names_between(lo as int, lo as int) =~= Seq::<Seq<char>>::empty());
    assert(spelled(found@) =~= Seq::<Seq<char>>::empty());
    proof {
        reveal(Seq::filter);
    }
    while at < hi
        invariant
            first < SYMBOLS,
            lo == first * PER_FIRST,
            hi == lo + PER_FIRST,
            lo <= at <= hi,
            c0 == symbol(first as int) as u32,
            pred == |name: Seq<char>| wins(name, year as int, month as int, day as int, english),
            spelled(found@) == names_between(lo as int, at as int).filter(pred),
        decreases hi - at,
    {
        let prefix = at / PER_PREFIX;
        let last = at % PER_PREFIX;
        let c1 = code_of_symbol((prefix / 37) % 37);
        let c2 = code_of_symbol(prefix % 37);
        let c3 = if last == 0 {
            0
        } else {
            code_of_symbol(last - 1)
        };
        let seed = seed_from_codes(c0, c1, c2, c3, year, month, day);
        assert(prefix / 1369 == first);
        assert(seed == derive_seed(name_at(at as int), year as int, month as int, day as int));
        let ghost before = found@;
        if seed_check(seed, english) {
            found.push(spell(at));
            assert(spelled(found@) =~= spelled(before).push(name_at(at as int)));
        }
        proof {
            let earlier = names_between(lo as int, at as int);
            assert(names_between(lo as int, at + 1) =~= earlier.push(name_at(at as int)));
            earlier.lemma_filter_push(name_at(at as int), pred);
        }
        at += 1;
    }
    found
}

/// `par_iter`, `map` and `collect` of rayon, handing each first symbol to
/// `winners_with_first` on a pool of worker threads. Claimed: the collected
/// vector holds, at the place of each first symbol, what that function
/// returns for it.
#[verifier::external_body]
fn winners_by_first(firsts: &Vec<usize>, year: i32, month: u8, day: u8, english: bool) -> (batches:
    Vec<Vec<String>>)
    requires
        forall|i: int| 0 <= i < firsts.len() ==> firsts[i] < SYMBOLS,
    ensures
        batches.len() == firsts.len(),
        forall|i: int|
            0 <= i < firsts.len() ==> spelled(#[trigger] batches[i]@) == winners_between(
                firsts[i] * PER_FIRST,
                (firsts[i] + 1) * PER_FIRST,
                year as int,
                month as int,
                day as int,
                english,
            ),
{
    firsts.par_iter().map(|first| winners_with_first(*first, year, month, day, english)).collect()
}

/// Draw `i` of the generator that started from window `w`.
fn nth_draw(rng: &mut Php5Random, Ghost(w): Ghost<Seq<u32>>, Ghost(i): Ghost<nat>) -> (out: u32)
    requires
        old(rng).wf(),
        old(rng).window() == advance(w, i),
    ensures
        final(rng).wf(),
        final(rng).window() == advance(w, i + 1),
        out == draw_at(w, i),
{
    assert(advance(advance(w, i), 0) == advance(w, i));
    rng.rand()
}

/// The searches and predicates of the Island Mystic.
pub struct IslandMystic;

impl IslandMystic {
    /// A generator seeded for the given name and date.
    pub fn new_rng(username: &str, year: i32, month: u8, day: u8) -> (rng: Php5Random)
        ensures
            rng.wf(),
            rng.window() == seeded_window(
                derive_seed(username@, year as int, month as int, day as int),
            ),
    {
        Php5Random::new(Self::seed(username, year, month, day))
    }

    /// The seed for the given name and date.
    pub fn seed(username: &str, year: i32, month: u8, day: u8) -> (seed: u32)
        ensures
            seed == derive_seed(username@, year as int, month as int, day as int),
    {
        let len = username.unicode_len();
        let c0: u32 = if len > 0 {
            username.get_char(0) as u32
        } else {
            0
        };
        let c1: u32 = if len > 1 {
            username.get_char(1) as u32
        } else {
            0
        };
        let c2: u32 = if len > 2 {
            username.get_char(2) as u32
        } else {
            0
        };
        let c3: u32 = if len > 3 {
            username.get_char(3) as u32
        } else {
            0
        };
        seed_from_codes(c0, c1, c2, c3, year, month, day)
    }

    /// Checks whether the given name wins on the given date in the primary
    /// locale.
    pub fn check_rust(username: &str, year: i32, month: u8, day: u8) -> (won: bool)
        ensures
            won == wins(username@, year as int, month as int, day as int, true),
    {
        seed_check(Self::seed(username, year, month, day), true)
    }

    /// Checks whether the given name wins on the given date in the secondary
    /// locale.
    pub fn check_non_english_rust(username: &str, year: i32, month: u8, day: u8) -> (won: bool)
        ensures
            won == wins(username@, year as int, month as int, day as int, false),
    {
        seed_check(Self::seed(username, year, month, day), false)
    }

    /// Checks whether `username` wins on `dt` in the primary locale.
    pub fn check(dt: &Date, username: &str) -> (won: bool)
        ensures
            won == wins_on(username@, *dt, true),
    {
        Self::check_rust(username, dt.year, dt.month, dt.day)
    }

    /// Checks whether `username` wins on `dt` in the secondary locale.
    pub fn check_non_english(dt: &Date, username: &str) -> (won: bool)
        ensures
            won == wins_on(username@, *dt, false),
    {
        Self::check_non_english_rust(username, dt.year, dt.month, dt.day)
    }

    /// Finds every name of three or four symbols that wins on the given
    /// date, in lexicographic order. The predicate is evaluated on a pool of
    /// worker threads; the result does not depend on how they share the work.
    pub fn brute_force_day_rust(year: i32, month: u8, day: u8, english: bool) -> (found: Vec<
        String,
    >)
        ensures
            spelled(found@) == winners_between(
                0,
                NAMES as int,
                year as int,
                month as int,
                day as int,
                english,
            ),
            ascending(spelled(found@)),
            spelled(found@).no_duplicates(),
            forall|name: Seq<char>| #[trigger]
                spelled(found@).contains(name) <==> is_candidate(name) && wins(
                    name,
                    year as int,
                    month as int,
                    day as int,
                    english,
                ),
    {
        proof {
            lemma_winners(year as int, month as int, day as int, english);
        }
        let mut firsts: Vec<usize> = Vec::new();
        let mut first: usize = 0;
        while first < SYMBOLS
            invariant
                first <= SYMBOLS,
                firsts.len() == first,
                forall|i: int| 0 <= i < first ==> firsts[i] == i,
            decreases SYMBOLS - first,
        {
            firsts.push(first);
            first += 1;
        }
        let batches = winners_by_first(&firsts, year, month, day, english);
        let ghost all = batches@;
        let ghost pred = |name: Seq<char>| wins(name, year as int, month as int, day as int, english);
        let mut found: Vec<String> = Vec::new();
        assert(names_between(0, 0) =~= Seq::<Seq<char>>::empty());
        assert(spelled(found@) =~= Seq::<Seq<char>>::empty());
        proof {
            reveal(Seq::filter);
        }
        for batch in it: batches
            invariant
                it.seq() == all,
                all.len() == SYMBOLS,
                pred == |name: Seq<char>| wins(name, year as int, month as int, day as int, english),
                forall|i: int|
                    0 <= i < SYMBOLS ==> spelled(#[trigger] all[i]@) == names_between(
                        i * PER_FIRST,
                        (i + 1) * PER_FIRST,
                    ).filter(pred),
                spelled(found@) == names_between(0, it.index() * PER_FIRST).filter(pred),
        {
            let ghost done = it.index() as int;
            let ghost before = found@;
            let mut batch = batch;
            found.append(&mut batch);
            proof {
                assert(spelled(found@) =~= spelled(before) + spelled(all[done]@));
                let head = names_between(0, done * PER_FIRST);
                let tail = names_between(done * PER_FIRST, (done + 1) * PER_FIRST);
                assert(names_between(0, (done + 1) * PER_FIRST) =~= head + tail);
                Seq::filter_distributes_over_add(head, tail, pred);
            }
        }
        found
    }

    /// Finds every name of three or four symbols that wins on `dt`, in
    /// lexicographic order.
    pub fn brute_force_day(dt: &Date, english: bool) -> (found: Vec<String>)
        ensures
            spelled(found@) == winners_between(
                0,
                NAMES as int,
                dt.year as int,
                dt.month as int,
                dt.day as int,
                english,
            ),
            ascending(spelled(found@)),
            spelled(found@).no_duplicates(),
            forall|name: Seq<char>| #[trigger]
                spelled(found@).contains(name) <==> is_candidate(name) && wins_on(
                    name,
                    *dt,
                    english,
                ),
    {
        Self::brute_force_day_rust(dt.year, dt.month, dt.day, english)
    }

    /// Walks from the given day in steps of `step` days, backwards for a
    /// negative step, and returns the first date on which `username` wins.
    /// Returns `None` for a step of zero, for a start that is no date, and
    /// where the walk leaves the supported years without a win.
    pub fn brute_force_user_rust(
        username: &str,
        year: i32,
        month: u8,
        day: u8,
        step: i64,
        english: bool,
    ) -> (found: Option<Date>)
        ensures
            step == 0 || !is_date(year as int, month as int, day as int) ==> found is None,
            step != 0 && is_date(year as int, month as int, day as int) ==> is_first_win(
                found,
                username@,
                Date { year, month, day },
                step as int,
                english,
            ),
            found is Some ==> found->0.valid(),
    {
        // safeguard against walks that never move
        if step == 0 {
            return None;
        }
        match Date::from_ymd_opt(year, month, day) {
            None => None,
            Some(from) => Self::brute_force_user(&from, username, step, english),
        }
    }

    /// Walks from `dt` in steps of `step` days, backwards for a negative
    /// step, and returns the first date on which `username` wins. Returns
    /// `None` for a step of zero and where the walk leaves the supported
    /// years without a win.
    pub fn brute_force_user(dt: &Date, username: &str, step: i64, english: bool) -> (found: Option<
        Date,
    >)
        requires
            dt.valid(),
        ensures
            step == 0 ==> found is None,
            step != 0 ==> is_first_win(found, username@, *dt, step as int, english),
            found is Some ==> found->0.valid(),
    {
        if step == 0 {
            return None;
        }
        let ghost start = dt.day_number();
        let ghost k: nat = 0;
        let mut at = *dt;
        loop
            invariant
                step != 0,
                dt.valid(),
                start == dt.day_number(),
                at.valid(),
                at.day_number() == start + k * step,
                loses_before(username@, start, step as int, k, english),
            decreases
                    if step > 0 {
                        last_day_number() - at.day_number()
                    } else {
                        at.day_number() - first_day_number()
                    },
        {
            proof {
                lemma_day_number_range(at);
            }
            let won = if english {
                Self::check(&at, username)
            } else {
                Self::check_non_english(&at, username)
            };
            if won {
                proof {
                    lemma_walk_has_found(username@, *dt, at, step as int, k, english);
                }
                return Some(at);
            }
            proof {
                lemma_loses_one_more(username@, at, start, step as int, k, english);
            }
            match at.checked_add_days(step) {
                None => {
                    proof {
                        lemma_walk_has_left(username@, at, start, step as int, k, english);
                    }
                    return None;
                },
                Some(next) => {
                    proof {
                        assert((k + 1) * step == k * step + step) by (nonlinear_arith);
                        k = k + 1;
                    }
                    at = next;
                },
            }
        }
    }
}

/// The winners among all names stand in ascending order, none of them twice,
/// and a name is among them exactly if the search tries it and it wins.
pub proof fn lemma_winners(year: int, month: int, day: int, english: bool)
    ensures
        ascending(winners_between(0, NAMES as int, year, month, day, english)),
        winners_between(0, NAMES as int, year, month, day, english).no_duplicates(),
        forall|name: Seq<char>| #[trigger]
            winners_between(0, NAMES as int, year, month, day, english).contains(name)
                <==> is_candidate(name) && wins(name, year, month, day, english),
{
    let all = names_between(0, NAMES as int);
    let keep = |name: Seq<char>| wins(name, year, month, day, english);
    let kept = all.filter(keep);
    lemma_names_between_ascend(0, NAMES as int);
    lemma_filter_keeps_order(all, keep);
    lemma_ascending_has_no_duplicates(kept);
    assert forall|name: Seq<char>| #[trigger] kept.contains(name) <==> is_candidate(name) && wins(
        name,
        year,
        month,
        day,
        english,
    ) by {
        if kept.contains(name) {
            let i = choose|i: int| 0 <= i < kept.len() && kept[i] == name;
            all.lemma_filter_pred(keep, i);
            all.lemma_filter_contains_rev(keep, name);
            let at = choose|at: int| 0 <= at < all.len() && all[at] == name;
            lemma_name_at_is_candidate(at);
        }
        if is_candidate(name) && wins(name, year, month, day, english) {
            lemma_candidate_has_place(name);
            let at = place_of_name(name);
            assert(all[at] == name);
            all.lemma_filter_contains(keep, at);
        }
    }
}

/// Two walks on the same inputs find the same date, or both find none.
pub proof fn lemma_first_win_is_unique(
    a: Option<Date>,
    b: Option<Date>,
    name: Seq<char>,
    from: Date,
    step: int,
    english: bool,
)
    requires
        is_first_win(a, name, from, step, english),
        is_first_win(b, name, from, step, english),
    ensures
        a == b,
{
    reveal(is_stop);
    let start = from.day_number();
    match (a, b) {
        (Some(x), Some(y)) => {
            let i = choose|i: nat| #[trigger]
                is_stop(x, start, step, i) && loses_before(name, start, step, i, english);
            let j = choose|j: nat| #[trigger]
                is_stop(y, start, step, j) && loses_before(name, start, step, j, english);
            if i < j {
                assert(is_stop(x, start, step, i));
            } else if j < i {
                assert(is_stop(y, start, step, j));
            } else {
                lemma_day_number_names_one_date(x, y);
            }
        },
        (Some(x), None) => {
            let i = choose|i: nat| #[trigger]
                is_stop(x, start, step, i) && loses_before(name, start, step, i, english);
            assert(loses_before(name, start, step, i + 1, english));
            assert(is_stop(x, start, step, i));
        },
        (None, Some(y)) => {
            let j = choose|j: nat| #[trigger]
                is_stop(y, start, step, j) && loses_before(name, start, step, j, english);
            assert(loses_before(name, start, step, j + 1, english));
            assert(is_stop(y, start, step, j));
        },
        (None, None) => {},
    }
}

/// A win at stop `k` after losses at all earlier stops is the first win.
proof fn lemma_walk_has_found(
    name: Seq<char>,
    from: Date,
    at: Date,
    step: int,
    k: nat,
    english: bool,
)
    requires
        wins_on(name, at, english),
        at.valid(),
        at.day_number() == from.day_number() + k * step,
        loses_before(name, from.day_number(), step, k, english),
    ensures
        is_first_win(Some(at), name, from, step, english),
{
    assert(is_stop(at, from.day_number(), step, k)) by {
        reveal(is_stop);
    }
    assert(exists|n: nat|
        {
            &&& #[trigger] is_stop(at, from.day_number(), step, n)
            &&& loses_before(name, from.day_number(), step, n, english)
        });
}

/// A name that has lost at the first `k` stops and loses at stop `k` has lost
/// at the first `k + 1` stops.
proof fn lemma_loses_one_more(
    name: Seq<char>,
    at: Date,
    start: int,
    step: int,
    k: nat,
    english: bool,
)
    requires
        at.valid(),
        at.day_number() == start + k * step,
        loses_before(name, start, step, k, english),
        !wins_on(name, at, english),
    ensures
        loses_before(name, start, step, k + 1, english),
{
    assert forall|other: Date, j: nat| j < k + 1 && #[trigger] is_stop(other, start, step, j) implies !wins_on(
        name,
        other,
        english,
    ) by {
        if j == k {
            reveal(is_stop);
            lemma_day_number_names_one_date(other, at);
        }
    }
}

/// Once a walk has stepped out of the supported years, no later stop is a
/// date: a name that has lost so far loses at every stop.
proof fn lemma_walk_has_left(
    name: Seq<char>,
    at: Date,
    start: int,
    step: int,
    k: nat,
    english: bool,
)
    requires
        at.valid(),
        at.day_number() == start + k * step,
        loses_before(name, start, step, k + 1, english),
        step != 0,
        !(first_day_number() <= at.day_number() + step <= last_day_number()),
    ensures
        forall|n: nat| #[trigger] loses_before(name, start, step, n, english),
{
    lemma_day_number_range(at);
    assert forall|n: nat| #[trigger] loses_before(name, start, step, n, english) by {
        assert forall|other: Date, j: nat| j < n && #[trigger] is_stop(other, start, step, j) implies !wins_on(
            name,
            other,
            english,
        ) by {
            if j > k {
                reveal(is_stop);
                lemma_day_number_range(other);
                assert(false) by (nonlinear_arith)
                    requires
                        j > k,
                        step != 0,
                        other.day_number() == start + j * step,
                        at.day_number() == start + k * step,
                        first_day_number() <= other.day_number() <= last_day_number(),
                        first_day_number() <= at.day_number() <= last_day_number(),
                        !(first_day_number() <= at.day_number() + step <= last_day_number()),
                ;
            }
        }
    }
}

} // verus!
