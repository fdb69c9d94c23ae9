//! The shortest-unique-prefix finder.
//!
//! A name is shortened against the names that live beside it: the result is
//! the shortest leading part of the name, at least one character long and
//! shorter than the name, that exactly one of the sibling names starts with.
//! Where no such part exists the name stays whole.
//!
//! Names are compared character by character, so a prefix never ends inside
//! the encoding of a character.

use vstd::prelude::*;
use vstd::std_specs::iter::IteratorSpec;
use vstd::string::StrSliceExecFns;

verus! {

broadcast use vstd::string::group_string_axioms;

/// How many entries of `names` start with `p`. An entry that occurs twice
/// counts twice.
pub open spec fn count_with_prefix(names: Seq<Seq<char>>, p: Seq<char>) -> nat {
    names.filter(|n: Seq<char>| p.is_prefix_of(n)).len()
}

/// The first length `k` with `from <= k < c.len()` such that exactly one entry
/// of `names` starts with the first `k` characters of `c`; `c.len()` where
/// there is none.
pub open spec fn shortest_unique_len_from(names: Seq<Seq<char>>, c: Seq<char>, from: nat) -> nat
    decreases c.len() - from,
{
    if from >= c.len() {
        c.len()
    } else if count_with_prefix(names, c.take(from as int)) == 1 {
        from
    } else {
        shortest_unique_len_from(names, c, from + 1)
    }
}

/// The length of the shortest unique prefix of `c` among `names`. Length 0 is
/// never tried.
pub open spec fn shortest_unique_len(names: Seq<Seq<char>>, c: Seq<char>) -> nat {
    shortest_unique_len_from(names, c, 1)
}

/// The shortest unique prefix of `c` among `names`.
pub open spec fn shortest_unique_prefix(names: Seq<Seq<char>>, c: Seq<char>) -> Seq<char> {
    c.take(shortest_unique_len(names, c) as int)
}

/// Counting one entry more adds one exactly when that entry starts with `p`.
pub proof fn lemma_count_push(names: Seq<Seq<char>>, n: Seq<char>, p: Seq<char>)
    ensures
        count_with_prefix(names.push(n), p) == count_with_prefix(names, p) + if p.is_prefix_of(n) {
            1nat
        } else {
            0nat
        },
{
    reveal_with_fuel(Seq::filter, 2);
    assert(names.push(n).drop_last() =~= names);
}

/// The search from `from` ends at a length between `from` and the length of
/// `c`. What it ends at below the length of `c` is unique, and no length it
/// passed over is.
pub proof fn lemma_shortest_unique_len_from(names: Seq<Seq<char>>, c: Seq<char>, from: nat)
    requires
        from <= c.len(),
    ensures
        from <= shortest_unique_len_from(names, c, from) <= c.len(),
        shortest_unique_len_from(names, c, from) < c.len() ==> count_with_prefix(
            names,
            c.take(shortest_unique_len_from(names, c, from) as int),
        ) == 1,
        forall|j: int|
            from <= j < shortest_unique_len_from(names, c, from) ==> count_with_prefix(
                names,
                #[trigger] c.take(j),
            ) != 1,
    decreases c.len() - from,
{
    if from < c.len() && count_with_prefix(names, c.take(from as int)) != 1 {
        lemma_shortest_unique_len_from(names, c, from + 1);
    }
}

/// What the finder returns is a prefix of the candidate, and it is either the
/// whole candidate or a part of it, at least one character long, that exactly
/// one sibling starts with, while no shorter part of at least one character
/// has that property.
pub proof fn lemma_shortest_unique_prefix(names: Seq<Seq<char>>, c: Seq<char>)
    ensures
        shortest_unique_prefix(names, c).is_prefix_of(c),
        shortest_unique_prefix(names, c).len() == shortest_unique_len(names, c),
        c.len() > 0 ==> shortest_unique_prefix(names, c).len() >= 1,
        shortest_unique_prefix(names, c) == c || count_with_prefix(
            names,
            shortest_unique_prefix(names, c),
        ) == 1,
        forall|j: int|
            1 <= j < shortest_unique_len(names, c) ==> count_with_prefix(names, #[trigger] c.take(j))
                != 1,
{
    if c.len() >= 1 {
        lemma_shortest_unique_len_from(names, c, 1);
    }
    let k = shortest_unique_len(names, c);
    assert(c.take(k as int).is_prefix_of(c));
    if k == c.len() {
        assert(c.take(k as int) =~= c);
    }
}

/// A candidate of at most one character is returned unchanged, whatever its
/// siblings are.
pub proof fn lemma_single_char_unchanged(names: Seq<Seq<char>>, c: Seq<char>)
    requires
        c.len() <= 1,
    ensures
        shortest_unique_prefix(names, c) == c,
{
    assert(c.take(c.len() as int) =~= c);
}

/// The length found is the only one that fits its description: a length `k`
/// that is the whole length of `c` or unique, with no unique length between 1
/// and `k`, is the length of the shortest unique prefix.
pub proof fn lemma_shortest_unique_len_is(names: Seq<Seq<char>>, c: Seq<char>, k: nat)
    requires
        k <= c.len(),
        c.len() > 0 ==> k >= 1,
        k < c.len() ==> count_with_prefix(names, c.take(k as int)) == 1,
        forall|j: int| 1 <= j < k ==> count_with_prefix(names, #[trigger] c.take(j)) != 1,
    ensures
        shortest_unique_len(names, c) == k,
        shortest_unique_prefix(names, c) == c.take(k as int),
{
    lemma_shortest_unique_prefix(names, c);
    let m = shortest_unique_len(names, c);
    if c.len() > 0 {
        lemma_shortest_unique_len_from(names, c, 1);
        if m < k {
            assert(count_with_prefix(names, c.take(m as int)) != 1);
        }
        if k < m {
            assert(count_with_prefix(names, c.take(k as int)) != 1);
        }
    }
}

/// Among siblings that hold the candidate, a prefix of the candidate that
/// exactly one entry starts with picks out the candidate itself: every
/// sibling that starts with it is the candidate.
pub proof fn lemma_unique_match_is_candidate(names: Seq<Seq<char>>, c: Seq<char>, p: Seq<char>)
    requires
        names.contains(c),
        p.is_prefix_of(c),
        count_with_prefix(names, p) == 1,
    ensures
        forall|n: Seq<char>| #[trigger] names.contains(n) && p.is_prefix_of(n) ==> n == c,
{
    let pred = |n: Seq<char>| p.is_prefix_of(n);
    let matching = names.filter(pred);
    broadcast use vstd::seq_lib::group_filter_ensures;

    assert(pred(c));
    assert(matching.contains(c));
    assert forall|n: Seq<char>| #[trigger] names.contains(n) && p.is_prefix_of(n) implies n
        == c by {
        assert(pred(n));
        assert(matching.contains(n));
        assert(forall|x: Seq<char>| matching.contains(x) ==> x == matching[0]);
    }
}

/// A name shortened against siblings that hold it is a prefix of the name,
/// and either the whole name or told apart: no other sibling starts with it.
pub proof fn lemma_told_apart_or_whole(names: Seq<Seq<char>>, c: Seq<char>)
    requires
        names.contains(c),
    ensures
        shortest_unique_prefix(names, c).is_prefix_of(c),
        shortest_unique_prefix(names, c) == c || forall|n: Seq<char>| #[trigger]
            names.contains(n) && shortest_unique_prefix(names, c).is_prefix_of(n) ==> n == c,
{
    lemma_shortest_unique_prefix(names, c);
    let p = shortest_unique_prefix(names, c);
    if p != c {
        lemma_unique_match_is_candidate(names, c, p);
    }
}

/// Whether `s` starts with `pat`, character by character.
pub fn starts_with(s: &str, pat: &str) -> (r: bool)
    ensures
        r == pat@.is_prefix_of(s@),
{
    let mut hay = s.chars();
    let mut needle = pat.chars();
    let ghost mut k: int = 0;
    loop
        invariant
            0 <= k <= pat@.len(),
            k <= s@.len(),
            needle.remaining() == pat@.skip(k),
            hay.remaining() == s@.skip(k),
            pat@.take(k) == s@.take(k),
        decreases pat@.len() - k,
    {
        match needle.next() {
            None => {
                return true;
            },
            Some(c) => match hay.next() {
                None => {
                    return false;
                },
                Some(d) => {
                    if c != d {
                        return false;
                    }
                    proof {
                        k = k + 1;
                    }
                },
            },
        }
    }
}

/// The number of entries of `collection` that start with `p`.
pub fn count_starting_with(collection: &[String], p: &str) -> (n: usize)
    ensures
        n == count_with_prefix(collection.deep_view(), p@),
{
    let ghost names = collection.deep_view();
    let mut n: usize = 0;
    let mut i: usize = 0;
    proof {
        assert(names.take(0) =~= Seq::<Seq<char>>::empty());
    }
    while i < collection.len()
        invariant
            i <= collection.len(),
            names == collection.deep_view(),
            names.len() == collection.len(),
            n <= i,
            n == count_with_prefix(names.take(i as int), p@),
        decreases collection.len() - i,
    {
        proof {
            assert(names.take(i + 1) =~= names.take(i as int).push(names[i as int]));
            lemma_count_push(names.take(i as int), names[i as int], p@);
        }
        if starts_with(collection[i].as_str(), p) {
            n += 1;
        }
        i += 1;
    }
    proof {
        assert(names.take(i as int) =~= names);
    }
    n
}

/// Returns the shortest leading part of `prefix`, at least one character long
/// and shorter than `prefix`, that exactly one entry of `collection` starts
/// with, and `prefix` itself where there is no such part.
///
/// `collection` usually holds `prefix` itself; nothing depends on that. Only
/// matches are counted, so an empty collection leaves every name whole.
pub fn get_shortest<'p>(collection: &[String], prefix: &'p str) -> (r: &'p str)
    ensures
        r@ == shortest_unique_prefix(collection.deep_view(), prefix@),
        r@.is_prefix_of(prefix@),
        r@ == prefix@ || count_with_prefix(collection.deep_view(), r@) == 1,
        prefix@.len() > 0 ==> r@.len() >= 1,
        prefix@.len() <= 1 ==> r@ == prefix@,
        forall|j: int|
            1 <= j < r@.len() ==> count_with_prefix(
                collection.deep_view(),
                #[trigger] prefix@.take(j),
            ) != 1,
{
    let ghost names = collection.deep_view();
    proof {
        lemma_shortest_unique_prefix(names, prefix@);
        if prefix@.len() <= 1 {
            lemma_single_char_unchanged(names, prefix@);
        }
    }
    let len: usize = prefix.unicode_len();
    let mut size: usize = 1;
    while size < len
        invariant
            1 <= size,
            len == prefix@.len(),
            names == collection.deep_view(),
            shortest_unique_len_from(names, prefix@, size as nat) == shortest_unique_len(
                names,
                prefix@,
            ),
        decreases len - size,
    {
        let head = prefix.substring_char(0, size);
        if count_starting_with(collection, head) == 1 {
            proof {
                lemma_shortest_unique_prefix(names, prefix@);
            }
            return head;
        }
        size += 1;
    }
    proof {
        assert(prefix@.take(prefix@.len() as int) =~= prefix@);
    }
    prefix
}

} // verus!
