//! The account names that the exhaustive search tries: every name of three
//! or four symbols over a fixed alphabet, in lexicographic order.

use vstd::prelude::*;
use vstd::string::*;

verus! {

/// Number of symbols in the alphabet.
pub const SYMBOLS: usize = 37;

/// Number of names that share their first three symbols: the name of three
/// symbols itself and one longer name for each symbol.
pub const PER_PREFIX: usize = 38;

/// Number of names that share their first symbol.
pub const PER_FIRST: usize = 52022;

/// Number of names in all.
pub const NAMES: usize = 1924814;

/// The alphabet: digits, underscore and lower-case letters, in the order of
/// their code points.
pub open spec fn symbols() -> Seq<char> {
    "0123456789_abcdefghijklmnopqrstuvwxyz"@
}

/// Symbol `i` of the alphabet.
pub open spec fn symbol(i: int) -> char {
    symbols()[i]
}

/// The code point of symbol `i` of the alphabet.
pub open spec fn symbol_code(i: int) -> int {
    if i < 10 {
        48 + i
    } else if i == 10 {
        95
    } else {
        86 + i
    }
}

/// Whether `c` belongs to the alphabet.
pub open spec fn is_symbol(c: char) -> bool {
    ('0' <= c <= '9') || c == '_' || ('a' <= c <= 'z')
}

/// Whether `name` is one of the names that the search tries.
pub open spec fn is_candidate(name: Seq<char>) -> bool {
    &&& name.len() == 3 || name.len() == 4
    &&& forall|i: int| 0 <= i < name.len() ==> is_symbol(#[trigger] name[i])
}

/// The name spelled by three symbols and, where `last` is not zero, by
/// symbol `last - 1` after them.
pub open spec fn spelling(i0: int, i1: int, i2: int, last: int) -> Seq<char> {
    if last == 0 {
        seq![symbol(i0), symbol(i1), symbol(i2)]
    } else {
        seq![symbol(i0), symbol(i1), symbol(i2), symbol(last - 1)]
    }
}

/// The name at place `at` of the lexicographic order of all names.
pub open spec fn name_at(at: int) -> Seq<char> {
    let prefix = at / 38;
    spelling(prefix / 1369, (prefix / 37) % 37, prefix % 37, at % 38)
}

/// The names at places `lo` up to, not including, `hi`.
pub open spec fn names_between(lo: int, hi: int) -> Seq<Seq<char>> {
    Seq::new((hi - lo) as nat, |i: int| name_at(lo + i))
}

/// Where `a` comes before `b` in lexicographic order by code point, `p` is
/// the place that decides: the two agree before it, and there `a` ends while
/// `b` goes on, or `a` has the smaller symbol.
pub open spec fn decides(a: Seq<char>, b: Seq<char>, p: int) -> bool {
    &&& 0 <= p <= a.len()
    &&& p < b.len()
    &&& forall|i: int| 0 <= i < p ==> a[i] == b[i]
    &&& p < a.len() ==> (a[p] as u32) < (b[p] as u32)
}

/// Whether `a` comes before `b` in lexicographic order by code point.
pub open spec fn precedes(a: Seq<char>, b: Seq<char>) -> bool {
    exists|p: int| decides(a, b, p)
}

/// Whether each name of `s` comes before all that follow it.
pub open spec fn ascending(s: Seq<Seq<char>>) -> bool {
    forall|i: int, j: int| 0 <= i < j < s.len() ==> precedes(#[trigger] s[i], #[trigger] s[j])
}

/// The names that a vector of strings holds.
pub open spec fn spelled(v: Seq<String>) -> Seq<Seq<char>> {
    v.map_values(|s: String| s@)
}

/// The symbols of the alphabet have the code points 48 to 57, 95 and 97 to
/// 122, in this order.
pub proof fn lemma_symbol_codes(i: int)
    requires
        0 <= i < 37,
    ensures
        symbol(i) as u32 == symbol_code(i),
        is_symbol(symbol(i)),
        symbols().len() == 37,
{
    reveal_strlit("0123456789_abcdefghijklmnopqrstuvwxyz");
    assert(i == 0 || i == 1 || i == 2 || i == 3 || i == 4 || i == 5 || i == 6 || i == 7 || i == 8
        || i == 9 || i == 10 || i == 11 || i == 12 || i == 13 || i == 14 || i == 15 || i == 16 || i
        == 17 || i == 18 || i == 19 || i == 20 || i == 21 || i == 22 || i == 23 || i == 24 || i
        == 25 || i == 26 || i == 27 || i == 28 || i == 29 || i == 30 || i == 31 || i == 32 || i
        == 33 || i == 34 || i == 35 || i == 36);
}

/// The code point of symbol `i` of the alphabet.
pub fn code_of_symbol(i: usize) -> (code: u32)
    requires
        i < SYMBOLS,
    ensures
        code == symbol(i as int) as u32,
{
    proof {
        lemma_symbol_codes(i as int);
    }
    if i < 10 {
        48 + i as u32
    } else if i == 10 {
        95
    } else {
        86 + i as u32
    }
}

/// Appends symbol `i` of the alphabet to `name`.
fn push_symbol(name: &mut String, i: usize)
    requires
        i < SYMBOLS,
    ensures
        final(name)@ == old(name)@.push(symbol(i as int)),
{
    let alphabet = "0123456789_abcdefghijklmnopqrstuvwxyz";
    proof {
        reveal_strlit("0123456789_abcdefghijklmnopqrstuvwxyz");
    }
    let one = alphabet.substring_char(i, i + 1);
    assert(one@ =~= seq![symbol(i as int)]);
    name.append(one);
    assert(name@ =~= old(name)@.push(symbol(i as int)));
}

/// The name at place `at` of the lexicographic order of all names.
pub fn spell(at: usize) -> (name: String)
    requires
        at < NAMES,
    ensures
        name@ == name_at(at as int),
{
    let prefix = at / PER_PREFIX;
    let last = at % PER_PREFIX;
    let mut name = String::new();
    push_symbol(&mut name, prefix / 1369);
    push_symbol(&mut name, (prefix / 37) % 37);
    push_symbol(&mut name, prefix % 37);
    if last != 0 {
        push_symbol(&mut name, last - 1);
    }
    assert(name@ =~= name_at(at as int));
    name
}

/// The place of a symbol in the alphabet.
pub open spec fn place_of(c: char) -> int {
    if '0' <= c <= '9' {
        c as u32 - 48
    } else if c == '_' {
        10
    } else {
        c as u32 - 86
    }
}

/// The place of a name in the lexicographic order of all names.
pub open spec fn place_of_name(name: Seq<char>) -> int {
    ((place_of(name[0]) * 37 + place_of(name[1])) * 37 + place_of(name[2])) * 38 + if name.len()
        == 3 {
        0
    } else {
        place_of(name[3]) + 1
    }
}

/// Every symbol of the alphabet stands at its place, and only they do.
pub proof fn lemma_place_of_symbol(c: char)
    requires
        is_symbol(c),
    ensures
        0 <= place_of(c) < 37,
        symbol(place_of(c)) == c,
{
    let i = place_of(c);
    lemma_symbol_codes(i);
}

/// Each place of the order holds a name that the search tries.
pub proof fn lemma_name_at_is_candidate(at: int)
    requires
        0 <= at < NAMES,
    ensures
        is_candidate(name_at(at)),
        place_of_name(name_at(at)) == at,
{
    let prefix = at / 38;
    let last = at % 38;
    let i0 = prefix / 1369;
    let i1 = (prefix / 37) % 37;
    let i2 = prefix % 37;
    lemma_symbol_codes(i0);
    lemma_symbol_codes(i1);
    lemma_symbol_codes(i2);
    if last != 0 {
        lemma_symbol_codes(last - 1);
    }
    let name = name_at(at);
    assert(place_of(name[0]) == i0);
    assert(place_of(name[1]) == i1);
    assert(place_of(name[2]) == i2);
}

/// Each name that the search tries holds a place of the order.
pub proof fn lemma_candidate_has_place(name: Seq<char>)
    requires
        is_candidate(name),
    ensures
        0 <= place_of_name(name) < NAMES,
        name_at(place_of_name(name)) == name,
{
    lemma_place_of_symbol(name[0]);
    lemma_place_of_symbol(name[1]);
    lemma_place_of_symbol(name[2]);
    if name.len() == 4 {
        lemma_place_of_symbol(name[3]);
    }
    let i0 = place_of(name[0]);
    let i1 = place_of(name[1]);
    let i2 = place_of(name[2]);
    let last = if name.len() == 3 {
        0
    } else {
        place_of(name[3]) + 1
    };
    let prefix = (i0 * 37 + i1) * 37 + i2;
    let at = prefix * 38 + last;
    assert(at == place_of_name(name));
    assert(at / 38 == prefix && at % 38 == last);
    assert(prefix / 1369 == i0 && (prefix / 37) % 37 == i1 && prefix % 37 == i2);
    assert(name_at(at) =~= name);
}

/// The order of the places is the lexicographic order of the names.
pub proof fn lemma_names_in_order(i: int, j: int)
    requires
        0 <= i < j < NAMES,
    ensures
        precedes(name_at(i), name_at(j)),
{
    let a = name_at(i);
    let b = name_at(j);
    let pa = i / 38;
    let pb = j / 38;
    let a0 = pa / 1369;
    let a1 = (pa / 37) % 37;
    let a2 = pa % 37;
    let b0 = pb / 1369;
    let b1 = (pb / 37) % 37;
    let b2 = pb % 37;
    lemma_symbol_codes(a0);
    lemma_symbol_codes(a1);
    lemma_symbol_codes(a2);
    lemma_symbol_codes(b0);
    lemma_symbol_codes(b1);
    lemma_symbol_codes(b2);
    if i % 38 != 0 {
        lemma_symbol_codes(i % 38 - 1);
    }
    if j % 38 != 0 {
        lemma_symbol_codes(j % 38 - 1);
    }
    assert(pa == (a0 * 37 + a1) * 37 + a2);
    assert(pb == (b0 * 37 + b1) * 37 + b2);
    if a0 != b0 {
        assert(a0 < b0);
        assert(decides(a, b, 0));
    } else if a1 != b1 {
        assert(a1 < b1);
        assert(decides(a, b, 1));
    } else if a2 != b2 {
        assert(a2 < b2);
        assert(decides(a, b, 2));
    } else {
        assert(pa == pb);
        assert(i % 38 < j % 38);
        assert(decides(a, b, 3));
    }
}

/// No name comes before itself.
pub proof fn lemma_precedes_is_strict(a: Seq<char>)
    ensures
        !precedes(a, a),
{
}

/// An ascending sequence holds no name twice.
pub proof fn lemma_ascending_has_no_duplicates(s: Seq<Seq<char>>)
    requires
        ascending(s),
    ensures
        s.no_duplicates(),
{
    assert forall|i: int, j: int| 0 <= i < s.len() && 0 <= j < s.len() && i != j implies s[i]
        != s[j] by {
        if i < j {
            assert(precedes(s[i], s[j]));
        } else {
            assert(precedes(s[j], s[i]));
        }
        lemma_precedes_is_strict(s[i]);
    }
}

/// The names between two places stand in ascending order.
pub proof fn lemma_names_between_ascend(lo: int, hi: int)
    requires
        0 <= lo <= hi <= NAMES,
    ensures
        ascending(names_between(lo, hi)),
{
    let s = names_between(lo, hi);
    assert forall|i: int, j: int| 0 <= i < j < s.len() implies precedes(
        #[trigger] s[i],
        #[trigger] s[j],
    ) by {
        lemma_names_in_order(lo + i, lo + j);
    }
}

/// What is left of an ascending sequence when some names are struck out
/// stands in ascending order.
pub proof fn lemma_filter_keeps_order(s: Seq<Seq<char>>, keep: spec_fn(Seq<char>) -> bool)
    requires
        ascending(s),
    ensures
        ascending(s.filter(keep)),
    decreases s.len(),
{
    reveal(Seq::filter);
    if s.len() > 0 {
        let front = s.drop_last();
        lemma_filter_keeps_order(front, keep);
        let kept = front.filter(keep);
        if keep(s.last()) {
            let all = kept.push(s.last());
            assert forall|i: int, j: int| 0 <= i < j < all.len() implies precedes(
                #[trigger] all[i],
                #[trigger] all[j],
            ) by {
                if j == kept.len() {
                    assert(kept.contains(kept[i]));
                    front.lemma_filter_contains_rev(keep, kept[i]);
                    let at = choose|at: int| 0 <= at < front.len() && front[at] == kept[i];
                    assert(s[at] == kept[i]);
                    assert(precedes(s[at], s[s.len() - 1]));
                } else {
                    assert(precedes(kept[i], kept[j]));
                }
            }
        }
    }
}

} // verus!
