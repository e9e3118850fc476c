//! Predicates, aggregates and partitions over sequences.

use std::collections::{HashMap, HashSet};
use vstd::prelude::*;

verus! {

/// Whether every element of `s` equals every other one. An empty sequence
/// and one of a single element are uniform.
pub open spec fn uniform(s: Seq<u32>) -> bool {
    forall|i: int, j: int| 0 <= i < s.len() && 0 <= j < s.len() ==> s[i] == s[j]
}

/// Three times the same value is uniform.
pub proof fn lemma_uniform_repeated(x: u32)
    ensures
        uniform(seq![x, x, x]),
{
}

/// Two different values are not uniform.
pub proof fn lemma_uniform_distinct(x: u32, y: u32)
    requires
        x != y,
    ensures
        !uniform(seq![x, y]),
{
    let s = seq![x, y];
    assert(s[0] != s[1]);
}

/// A sequence is uniform exactly when it holds at most one distinct value.
pub proof fn lemma_uniform_distinct_values(s: Seq<u32>)
    ensures
        uniform(s) <==> s.to_set().len() <= 1,
{
    broadcast use vstd::set::group_set_axioms;

    vstd::seq_lib::seq_to_set_is_finite(s);
    if s.len() == 0 {
        s.lemma_cardinality_of_empty_set_is_0();
    } else {
        let rest = s.to_set().remove(s[0]);
        assert(s.to_set().contains(s[0]));
        if uniform(s) {
            assert forall|x: u32| !rest.contains(x) by {
                if s.contains(x) {
                    let i: int = choose|i: int| 0 <= i < s.len() && s[i] == x;
                    assert(s[i] == s[0]);
                }
            }
            assert(rest =~= Set::<u32>::empty());
        } else {
            let (i, j): (int, int) = choose|i: int, j: int|
                0 <= i < s.len() && 0 <= j < s.len() && s[i] != s[j];
            let other: u32 = if s[i] != s[0] {
                s[i]
            } else {
                s[j]
            };
            assert(s.contains(other));
            assert(rest.contains(other));
            assert(rest.len() >= 1) by {
                if rest.len() == 0 {
                    assert(rest =~= Set::<u32>::empty());
                }
            }
        }
    }
}

/// Whether all values in `lst` are equal. This holds of the empty list too.
pub fn all_equal(lst: Vec<u32>) -> (equal: bool)
    ensures
        equal == uniform(lst@),
{
    if lst.len() == 0 {
        return true;
    }
    let first: u32 = lst[0];
    let mut i: usize = 1;
    while i < lst.len()
        invariant
            1 <= i <= lst.len(),
            first == lst@[0],
            forall|k: int| 0 <= k < i ==> #[trigger] lst@[k] == first,
        decreases lst.len() - i,
    {
        if lst[i] != first {
            return false;
        }
        i = i + 1;
    }
    true
}

/// A sequence has no value twice exactly when it holds as many distinct
/// values as it has elements.
pub proof fn lemma_no_duplicates_distinct_values(s: Seq<u32>)
    ensures
        s.no_duplicates() <==> s.to_set().len() == s.len(),
{
    if s.no_duplicates() {
        s.unique_seq_to_set();
    }
    if s.to_set().len() == s.len() {
        s.lemma_no_dup_set_cardinality();
    }
}

/// Whether no value occurs twice in `lst`.
pub fn all_unique(lst: Vec<u32>) -> (unique: bool)
    ensures
        unique == lst@.no_duplicates(),
        unique == (lst@.to_set().len() == lst@.len()),
{
    broadcast use vstd::std_specs::hash::group_hash_axioms;

    let mut seen: HashSet<u32> = HashSet::new();
    let mut i: usize = 0;
    while i < lst.len()
        invariant
            i <= lst.len(),
            seen@ == lst@.take(i as int).to_set(),
            lst@.take(i as int).no_duplicates(),
        decreases lst.len() - i,
    {
        let fresh: bool = seen.insert(lst[i]);
        proof {
            let before = lst@.take(i as int);
            assert(lst@.take(i + 1) =~= before.push(lst@[i as int]));
            before.lemma_push_to_set_commute(lst@[i as int]);
            if !fresh {
                let j: int = choose|j: int| 0 <= j < before.len() && before[j] == lst@[i as int];
                assert(lst@[j] == lst@[i as int]);
                lemma_no_duplicates_distinct_values(lst@);
            }
        }
        if !fresh {
            return false;
        }
        i = i + 1;
    }
    proof {
        assert(lst@.take(i as int) =~= lst@);
        lemma_no_duplicates_distinct_values(lst@);
    }
    true
}

/// How often `val` occurs in `s`.
pub open spec fn occurrences(s: Seq<i32>, val: i32) -> nat {
    s.to_multiset().count(val)
}

/// A prefix never holds more occurrences of a value than the whole sequence.
pub proof fn lemma_occurrences_prefix(s: Seq<i32>, val: i32, n: int)
    requires
        0 <= n <= s.len(),
    ensures
        occurrences(s.take(n), val) <= occurrences(s, val),
{
    assert(s =~= s.take(n) + s.skip(n));
    vstd::seq_lib::lemma_multiset_commutative(s.take(n), s.skip(n));
}

/// Extending a sequence by one element raises the count of that element by
/// one and leaves every other count alone.
pub proof fn lemma_occurrences_push(s: Seq<i32>, x: i32, val: i32)
    ensures
        occurrences(s.push(x), val) == occurrences(s, val) + if x == val { 1nat } else { 0nat },
{
    vstd::seq_lib::to_multiset_build(s, x);
}

/// Counts the elements of `lst` that equal `val`.
pub fn count_occurrences(lst: &[i32], val: i32) -> (n: i32)
    requires
        occurrences(lst@, val) <= i32::MAX,
    ensures
        n == occurrences(lst@, val),
{
    let mut n: i32 = 0;
    let mut i: usize = 0;
    proof {
        lst@.take(0).to_multiset_ensures();
    }
    while i < lst.len()
        invariant
            i <= lst.len(),
            n == occurrences(lst@.take(i as int), val),
            occurrences(lst@, val) <= i32::MAX,
        decreases lst.len() - i,
    {
        proof {
            lemma_occurrences_push(lst@.take(i as int), lst[i as int], val);
            assert(lst@.take(i + 1) =~= lst@.take(i as int).push(lst[i as int]));
            lemma_occurrences_prefix(lst@, val, i + 1);
        }
        if lst[i] == val {
            n = n + 1;
        }
        i = i + 1;
    }
    proof {
        assert(lst@.take(i as int) =~= lst@);
    }
    n
}

/// The elements of `items` whose flag in `flags` equals `want`, in the
/// order in which they stand in `items`. The two sequences are read in
/// parallel.
pub open spec fn selected<T>(items: Seq<T>, flags: Seq<bool>, want: bool) -> Seq<T>
    recommends
        items.len() == flags.len(),
    decreases items.len(),
{
    if items.len() == 0 || flags.len() == 0 {
        Seq::empty()
    } else {
        let rest = selected(items.drop_last(), flags.drop_last(), want);
        if flags.last() == want {
            rest.push(items.last())
        } else {
            rest
        }
    }
}

/// Every element lands in exactly one of the two groups.
pub proof fn lemma_selected_partition<T>(items: Seq<T>, flags: Seq<bool>)
    requires
        items.len() == flags.len(),
    ensures
        selected(items, flags, true).len() + selected(items, flags, false).len() == items.len(),
    decreases items.len(),
{
    if items.len() > 0 {
        lemma_selected_partition(items.drop_last(), flags.drop_last());
    }
}

/// An element is in the group for `want` exactly when it stands at some
/// position whose flag is `want`.
pub proof fn lemma_selected_contains<T>(items: Seq<T>, flags: Seq<bool>, want: bool, x: T)
    requires
        items.len() == flags.len(),
    ensures
        selected(items, flags, want).contains(x) <==> exists|i: int|
            0 <= i < items.len() && flags[i] == want && items[i] == x,
    decreases items.len(),
{
    if items.len() > 0 {
        let init = items.drop_last();
        let init_flags = flags.drop_last();
        let rest = selected(init, init_flags, want);
        let last: int = items.len() - 1;
        lemma_selected_contains(init, init_flags, want, x);
        if selected(items, flags, want).contains(x) {
            if flags.last() == want && items.last() == x {
                assert(flags[last] == want && items[last] == x);
            } else {
                if flags.last() == want {
                    let j: int = choose|j: int| 0 <= j < rest.push(items.last()).len() && rest.push(items.last())[j] == x;
                    assert(rest[j] == x);
                }
                assert(rest.contains(x));
                let i: int = choose|i: int| 0 <= i < init.len() && init_flags[i] == want && init[i] == x;
                assert(flags[i] == want && items[i] == x);
            }
        }
        if exists|i: int| 0 <= i < items.len() && flags[i] == want && items[i] == x {
            let i: int = choose|i: int| 0 <= i < items.len() && flags[i] == want && items[i] == x;
            if i == last {
                assert(rest.push(items.last())[rest.len() as int] == x);
            } else {
                assert(init_flags[i] == want && init[i] == x);
                assert(rest.contains(x));
                let j: int = choose|j: int| 0 <= j < rest.len() && rest[j] == x;
                if flags.last() == want {
                    assert(rest.push(items.last())[j] == x);
                }
            }
        }
    }
}

/// Splits `lst` into the elements whose flag in `filter` is set and those
/// whose flag is clear. Each group keeps the order of `lst`.
///
/// The two slices are read in parallel, so they must be equally long; if
/// they are not, the result is `None`.
pub fn bifurcate<'a>(lst: &'a [&str], filter: &'a [bool]) -> (groups: Option<Vec<Vec<&'a str>>>)
    ensures
        groups is Some <==> lst@.len() == filter@.len(),
        groups matches Some(g) ==> {
            &&& g@.len() == 2
            &&& g@[0]@ == selected(lst@, filter@, true)
            &&& g@[1]@ == selected(lst@, filter@, false)
        },
{
    if lst.len() != filter.len() {
        return None;
    }
    let mut chosen: Vec<&'a str> = Vec::new();
    let mut others: Vec<&'a str> = Vec::new();
    let mut i: usize = 0;
    while i < lst.len()
        invariant
            i <= lst.len(),
            lst@.len() == filter@.len(),
            chosen@ == selected(lst@.take(i as int), filter@.take(i as int), true),
            others@ == selected(lst@.take(i as int), filter@.take(i as int), false),
        decreases lst.len() - i,
    {
        proof {
            assert(lst@.take(i + 1).drop_last() =~= lst@.take(i as int));
            assert(filter@.take(i + 1).drop_last() =~= filter@.take(i as int));
        }
        if filter[i] {
            chosen.push(lst[i]);
        } else {
            others.push(lst[i]);
        }
        i = i + 1;
    }
    proof {
        assert(lst@.take(i as int) =~= lst@);
        assert(filter@.take(i as int) =~= filter@);
    }
    let mut groups: Vec<Vec<&'a str>> = Vec::new();
    groups.push(chosen);
    groups.push(others);
    Some(groups)
}

/// Whether `flags` records, position by position, an answer that `f` can give
/// for the element of `items` at that position.
pub open spec fn answers<F: Fn(&str) -> bool>(f: &F, items: Seq<&str>, flags: Seq<bool>) -> bool {
    &&& flags.len() == items.len()
    &&& forall|i: int| 0 <= i < items.len() ==> call_ensures(f, (#[trigger] items[i],), flags[i])
}

/// Where `f` can only answer what `p` says, the two groups are the elements
/// that `p` holds of and the elements that it does not hold of.
pub proof fn lemma_answers_decided<F: Fn(&str) -> bool>(
    f: &F,
    p: spec_fn(&str) -> bool,
    items: Seq<&str>,
    flags: Seq<bool>,
)
    requires
        forall|x: &str, r: bool| #[trigger] call_ensures(f, (x,), r) ==> r == p(x),
        answers(f, items, flags),
    ensures
        selected(items, flags, true) == items.filter(p),
        selected(items, flags, false) == items.filter(|x: &str| !p(x)),
    decreases items.len(),
{
    let not_p = |x: &str| !p(x);
    reveal(Seq::filter);
    if items.len() > 0 {
        let init = items.drop_last();
        let init_flags = flags.drop_last();
        assert forall|i: int| 0 <= i < init.len() implies call_ensures(
            f,
            (#[trigger] init[i],),
            init_flags[i],
        ) by {
            assert(call_ensures(f, (items[i],), flags[i]));
        }
        lemma_answers_decided(f, p, init, init_flags);
        assert(call_ensures(f, (items[items.len() - 1],), flags[items.len() - 1]));
    }
}

/// Splits `lst` into the elements for which `f` answers `true` and those for
/// which it answers `false`. Each group keeps the order of `lst`.
///
/// `f` is asked once for each element, from the first to the last.
pub fn bifurcate_by<'a, F: Fn(&str) -> bool>(lst: &[&'a str], f: &F) -> (groups: Vec<Vec<&'a str>>)
    requires
        forall|i: int| 0 <= i < lst@.len() ==> call_requires(f, (#[trigger] lst@[i],)),
    ensures
        groups@.len() == 2,
        exists|flags: Seq<bool>|
            {
                &&& answers(f, lst@, flags)
                &&& groups@[0]@ == selected(lst@, flags, true)
                &&& groups@[1]@ == selected(lst@, flags, false)
            },
{
    let mut chosen: Vec<&'a str> = Vec::new();
    let mut others: Vec<&'a str> = Vec::new();
    let ghost mut flags: Seq<bool> = Seq::empty();
    let mut i: usize = 0;
    while i < lst.len()
        invariant
            i <= lst.len(),
            forall|k: int| 0 <= k < lst@.len() ==> call_requires(f, (#[trigger] lst@[k],)),
            answers(f, lst@.take(i as int), flags),
            chosen@ == selected(lst@.take(i as int), flags, true),
            others@ == selected(lst@.take(i as int), flags, false),
        decreases lst.len() - i,
    {
        let item: &'a str = lst[i];
        let keep: bool = f(item);
        proof {
            assert(lst@.take(i + 1).drop_last() =~= lst@.take(i as int));
            assert(flags.push(keep).drop_last() =~= flags);
            flags = flags.push(keep);
        }
        if keep {
            chosen.push(item);
        } else {
            others.push(item);
        }
        i = i + 1;
    }
    proof {
        assert(lst@.take(i as int) =~= lst@);
    }
    let mut groups: Vec<Vec<&'a str>> = Vec::new();
    groups.push(chosen);
    groups.push(others);
    groups
}

/// The contents of each vector of `v`, in the same order.
pub open spec fn rows(v: Seq<Vec<i32>>) -> Seq<Seq<i32>> {
    v.map_values(|row: Vec<i32>| row@)
}

/// How many groups of `size` elements it takes to hold `len` elements, the
/// last group being allowed to stay short.
pub open spec fn chunk_count(len: int, size: int) -> int
    recommends
        len >= 0,
        size > 0,
{
    (len + size - 1) / size
}

/// The group number `k`, counted from 0, of `s` cut into groups of `size`:
/// the elements from position `k * size` up to, but without, position
/// `(k + 1) * size`, or up to the end of `s` where that comes first.
pub open spec fn chunk_at(s: Seq<i32>, size: int, k: int) -> Seq<i32> {
    s.subrange(
        k * size,
        if (k + 1) * size <= s.len() {
            (k + 1) * size
        } else {
            s.len() as int
        },
    )
}

/// `s` cut into consecutive groups of `size` elements.
pub open spec fn chunked(s: Seq<i32>, size: int) -> Seq<Seq<i32>>
    recommends
        size > 0,
{
    Seq::new(chunk_count(s.len() as int, size) as nat, |k: int| chunk_at(s, size, k))
}

/// `count` groups of `size` hold `len` elements, with none to spare, exactly
/// when `count` is the number that `chunk_count` gives.
proof fn lemma_chunk_count(len: int, size: int, count: int)
    requires
        size > 0,
        len >= 0,
        count >= 0,
        len <= count * size,
        count > 0 ==> (count - 1) * size < len,
    ensures
        count == chunk_count(len, size),
{
    if count == 0 {
        assert(len == 0);
        vstd::arithmetic::div_mod::lemma_fundamental_div_mod_converse(size - 1, size, 0, size - 1);
    } else {
        assert((count - 1) * size == count * size - size) by (nonlinear_arith);
        let r: int = len + size - 1 - count * size;
        vstd::arithmetic::div_mod::lemma_fundamental_div_mod_converse(
            len + size - 1,
            size,
            count,
            r,
        );
    }
}

/// The groups hold every element between them: `count - 1` groups are too
/// few for `len` elements, and `count` groups are enough.
proof fn lemma_chunk_count_bounds(len: int, size: int)
    requires
        size > 0,
        len >= 0,
    ensures
        chunk_count(len, size) >= 0,
        len <= chunk_count(len, size) * size,
        len > 0 ==> (chunk_count(len, size) - 1) * size < len,
        len == 0 ==> chunk_count(len, size) == 0,
{
    let x: int = len + size - 1;
    let count: int = chunk_count(len, size);
    vstd::arithmetic::div_mod::lemma_fundamental_div_mod(x, size);
    vstd::arithmetic::div_mod::lemma_mod_bound(x, size);
    assert(size * count == count * size) by (nonlinear_arith);
    assert((count - 1) * size == count * size - size) by (nonlinear_arith);
    if count < 0 {
        assert(count * size <= -size) by (nonlinear_arith)
            requires
                count <= -1,
                size > 0,
        ;
    }
    if len == 0 && count > 0 {
        assert(count * size >= size) by (nonlinear_arith)
            requires
                count >= 1,
                size > 0,
        ;
    }
}

/// The groups written one after the other are the sequence that was cut:
/// flattening undoes chunking.
pub proof fn lemma_chunked_flatten(s: Seq<i32>, size: int)
    requires
        size > 0,
    ensures
        chunked(s, size).flatten() == s,
    decreases s.len(),
{
    let groups = chunked(s, size);
    let count: int = chunk_count(s.len() as int, size);
    lemma_chunk_count_bounds(s.len() as int, size);
    if s.len() == 0 {
        assert(groups =~= Seq::<Seq<i32>>::empty());
    } else {
        let cut: int = (count - 1) * size;
        assert(count >= 1) by {
            if count <= 0 {
                assert(count * size <= 0) by (nonlinear_arith)
                    requires
                        count <= 0,
                        size > 0,
                ;
            }
        }
        assert(cut >= 0) by (nonlinear_arith)
            requires
                cut == (count - 1) * size,
                count >= 1,
                size > 0,
        ;
        assert(count * size == cut + size) by (nonlinear_arith)
            requires
                cut == (count - 1) * size,
        ;
        let front = s.take(cut);
        assert(count - 1 > 0 ==> (count - 2) * size < cut) by (nonlinear_arith)
            requires
                cut == (count - 1) * size,
                size > 0,
        ;
        lemma_chunk_count(cut, size, count - 1);
        assert(groups.len() == count);
        assert(front.len() == cut);
        assert(chunked(front, size) =~= groups.drop_last()) by {
            assert forall|k: int| 0 <= k < count - 1 implies chunk_at(front, size, k) == chunk_at(
                s,
                size,
                k,
            ) by {
                assert(0 <= k * size <= (k + 1) * size <= cut) by (nonlinear_arith)
                    requires
                        0 <= k < count - 1,
                        cut == (count - 1) * size,
                        size > 0,
                ;
                assert(chunk_at(front, size, k) =~= chunk_at(s, size, k));
            }
        }
        assert(groups.last() =~= s.skip(cut));
        lemma_chunked_flatten(front, size);
        groups.drop_last().lemma_flatten_push(groups.last());
        assert(groups.drop_last().push(groups.last()) =~= groups);
        assert(front + s.skip(cut) =~= s);
    }
}

/// Cuts `lst` into consecutive groups of `size` elements. Only the last
/// group can be shorter; an empty list gives no group at all.
///
/// There are no groups of no elements: for a `size` of 0 the result is
/// `None`.
pub fn chunk(lst: &[i32], size: usize) -> (groups: Option<Vec<Vec<i32>>>)
    ensures
        groups is None <==> size == 0,
        groups matches Some(g) ==> rows(g@) == chunked(lst@, size as int),
{
    if size == 0 {
        return None;
    }
    let mut groups: Vec<Vec<i32>> = Vec::new();
    let mut start: usize = 0;
    proof {
        assert(0 * size == 0) by (nonlinear_arith);
    }
    while start < lst.len()
        invariant
            size > 0,
            start <= lst.len(),
            start == if groups@.len() * size <= lst@.len() {
                groups@.len() * size
            } else {
                lst@.len() as int
            },
            groups@.len() > 0 ==> (groups@.len() - 1) * size < lst@.len(),
            forall|k: int|
                0 <= k < groups@.len() ==> (#[trigger] groups@[k])@ == chunk_at(lst@, size as int, k),
        decreases lst.len() - start,
    {
        let end: usize = if lst.len() - start <= size {
            lst.len()
        } else {
            start + size
        };
        let ghost count: int = groups@.len() as int;
        proof {
            assert((count + 1) * size == count * size + size) by (nonlinear_arith);
        }
        let mut group: Vec<i32> = Vec::new();
        let mut j: usize = start;
        while j < end
            invariant
                start <= j <= end <= lst.len(),
                group@ == lst@.subrange(start as int, j as int),
            decreases end - j,
        {
            proof {
                assert(lst@.subrange(start as int, j + 1) =~= lst@.subrange(
                    start as int,
                    j as int,
                ).push(lst@[j as int]));
            }
            group.push(lst[j]);
            j = j + 1;
        }
        groups.push(group);
        start = end;
    }
    proof {
        let count: int = groups@.len() as int;
        lemma_chunk_count(lst@.len() as int, size as int, count);
        assert(rows(groups@) =~= chunked(lst@, size as int));
    }
    Some(groups)
}

/// `s` without its `None` elements.
pub open spec fn compacted(s: Seq<Option<i32>>) -> Seq<Option<i32>> {
    s.filter(|x: Option<i32>| x is Some)
}

/// Drops the `None` elements of `lst` and keeps the others in their order.
pub fn compact(lst: Vec<Option<i32>>) -> (present: Vec<Option<i32>>)
    ensures
        present@ == compacted(lst@),
{
    let mut present: Vec<Option<i32>> = Vec::new();
    let ghost keep = |x: Option<i32>| x is Some;
    let mut i: usize = 0;
    proof {
        reveal(Seq::filter);
        assert(lst@.take(0).filter(keep) =~= Seq::<Option<i32>>::empty());
    }
    while i < lst.len()
        invariant
            i <= lst.len(),
            keep == |x: Option<i32>| x is Some,
            present@ == lst@.take(i as int).filter(keep),
        decreases lst.len() - i,
    {
        proof {
            lst@.take(i as int).lemma_filter_push(lst@[i as int], keep);
            assert(lst@.take(i + 1) =~= lst@.take(i as int).push(lst@[i as int]));
        }
        if lst[i].is_some() {
            present.push(lst[i]);
        }
        i = i + 1;
    }
    proof {
        assert(lst@.take(i as int) =~= lst@);
    }
    present
}

/// Writes the lists of `lst` one after the other as a single list.
///
/// This takes away one level of nesting, which is all there is in a list of
/// lists of numbers.
pub fn deep_flatten(lst: Vec<Vec<i32>>) -> (flat: Vec<i32>)
    ensures
        flat@ == rows(lst@).flatten(),
{
    let mut flat: Vec<i32> = Vec::new();
    let mut i: usize = 0;
    proof {
        assert(rows(lst@).take(0) =~= Seq::<Seq<i32>>::empty());
    }
    while i < lst.len()
        invariant
            i <= lst.len(),
            flat@ == rows(lst@).take(i as int).flatten(),
        decreases lst.len() - i,
    {
        let row = &lst[i];
        let ghost before = flat@;
        let mut j: usize = 0;
        while j < row.len()
            invariant
                j <= row.len(),
                flat@ == before + row@.take(j as int),
            decreases row.len() - j,
        {
            proof {
                assert(row@.take(j + 1) =~= row@.take(j as int).push(row@[j as int]));
            }
            flat.push(row[j]);
            j = j + 1;
        }
        proof {
            assert(row@.take(j as int) =~= row@);
            rows(lst@).take(i as int).lemma_flatten_push(row@);
            assert(rows(lst@).take(i + 1) =~= rows(lst@).take(i as int).push(row@));
        }
        i = i + 1;
    }
    proof {
        assert(rows(lst@).take(i as int) =~= rows(lst@));
    }
    flat
}

/// The elements of `a` that do not occur in `b`, in their order in `a` and
/// as often as they occur there.
pub open spec fn without(a: Seq<i32>, b: Seq<i32>) -> Seq<i32> {
    a.filter(|x: i32| !b.contains(x))
}

/// The elements of `a` that do not occur in `b`. They keep their order, and
/// one that occurs several times in `a` does so in the result.
pub fn difference(a: &[i32], b: &[i32]) -> (rest: Vec<i32>)
    ensures
        rest@ == without(a@, b@),
{
    broadcast use vstd::std_specs::hash::group_hash_axioms;

    let mut excluded: HashSet<i32> = HashSet::new();
    let mut i: usize = 0;
    while i < b.len()
        invariant
            i <= b.len(),
            excluded@ == b@.take(i as int).to_set(),
        decreases b.len() - i,
    {
        proof {
            b@.take(i as int).lemma_push_to_set_commute(b@[i as int]);
            assert(b@.take(i + 1) =~= b@.take(i as int).push(b@[i as int]));
        }
        excluded.insert(b[i]);
        i = i + 1;
    }
    proof {
        assert(b@.take(i as int) =~= b@);
    }
    let mut rest: Vec<i32> = Vec::new();
    let ghost keep = |x: i32| !b@.contains(x);
    let mut k: usize = 0;
    proof {
        reveal(Seq::filter);
        assert(a@.take(0).filter(keep) =~= Seq::<i32>::empty());
    }
    while k < a.len()
        invariant
            k <= a.len(),
            excluded@ == b@.to_set(),
            keep == |x: i32| !b@.contains(x),
            rest@ == a@.take(k as int).filter(keep),
        decreases a.len() - k,
    {
        proof {
            a@.take(k as int).lemma_filter_push(a@[k as int], keep);
            assert(a@.take(k + 1) =~= a@.take(k as int).push(a@[k as int]));
        }
        let x: i32 = a[k];
        if !excluded.contains(&x) {
            rest.push(x);
        }
        k = k + 1;
    }
    proof {
        assert(a@.take(k as int) =~= a@);
    }
    rest
}

/// What `every` says of its result: if it is `true`, `f` has answered `true`
/// for each element; if it is `false`, `f` has answered `false` for one.
pub open spec fn every_answer<F: Fn(i32) -> bool>(f: &F, items: Seq<i32>, all: bool) -> bool {
    if all {
        forall|i: int| 0 <= i < items.len() ==> call_ensures(f, (#[trigger] items[i],), true)
    } else {
        exists|i: int| 0 <= i < items.len() && call_ensures(f, (#[trigger] items[i],), false)
    }
}

/// Where `f` can only answer what `p` says, the result of `every` is
/// whether `p` holds of all elements.
pub proof fn lemma_every_decided<F: Fn(i32) -> bool>(
    f: &F,
    p: spec_fn(i32) -> bool,
    items: Seq<i32>,
    all: bool,
)
    requires
        forall|x: i32, r: bool| #[trigger] call_ensures(f, (x,), r) ==> r == p(x),
        every_answer(f, items, all),
    ensures
        all == forall|i: int| 0 <= i < items.len() ==> p(#[trigger] items[i]),
{
    if all {
        assert forall|i: int| 0 <= i < items.len() implies p(#[trigger] items[i]) by {
            assert(call_ensures(f, (items[i],), true));
        }
    } else {
        let i: int = choose|i: int|
            0 <= i < items.len() && call_ensures(f, (#[trigger] items[i],), false);
        assert(!p(items[i]));
    }
}

/// Whether `f` answers `true` for every element of `lst`; for an empty
/// list it does.
///
/// `f` is asked for one element after the other, and no more once it has
/// answered `false`.
pub fn every<F: Fn(i32) -> bool>(lst: &[i32], f: &F) -> (all: bool)
    requires
        forall|i: int| 0 <= i < lst@.len() ==> call_requires(f, (#[trigger] lst@[i],)),
    ensures
        every_answer(f, lst@, all),
{
    let mut i: usize = 0;
    while i < lst.len()
        invariant
            i <= lst.len(),
            forall|k: int| 0 <= k < lst@.len() ==> call_requires(f, (#[trigger] lst@[k],)),
            forall|k: int| 0 <= k < i ==> call_ensures(f, (#[trigger] lst@[k],), true),
        decreases lst.len() - i,
    {
        if !f(lst[i]) {
            proof {
                assert(call_ensures(f, (lst@[i as int],), false));
            }
            return false;
        }
        i = i + 1;
    }
    true
}

/// The multiples of `step` from `step` itself up to `limit`, in ascending
/// order: `step`, `2 * step`, and so on. `limit` is the last of them when it
/// is a multiple itself, and there are none when `limit` is less than `step`.
pub open spec fn progression(step: int, limit: int) -> Seq<i32>
    recommends
        step > 0,
{
    Seq::new(
        if limit < step {
            0nat
        } else {
            (limit / step) as nat
        },
        |k: int| ((k + 1) * step) as i32,
    )
}

/// The multiples of the positive number `n` that are not above `lim`, in
/// ascending order.
pub fn arithmetic_progression(n: i32, lim: i32) -> (multiples: Vec<i32>)
    requires
        n > 0,
    ensures
        multiples@ == progression(n as int, lim as int),
{
    let mut multiples: Vec<i32> = Vec::new();
    if lim < n {
        return multiples;
    }
    let mut current: i32 = n;
    proof {
        assert((0 + 1) * n == n) by (nonlinear_arith);
    }
    loop
        invariant_except_break
            current == (multiples@.len() + 1) * n,
            forall|k: int| 0 <= k < multiples@.len() ==> #[trigger] multiples@[k] == (k + 1) * n,
        invariant
            n > 0,
            0 < current <= lim,
        ensures
            multiples@.len() * n <= lim < (multiples@.len() + 1) * n,
            forall|k: int| 0 <= k < multiples@.len() ==> #[trigger] multiples@[k] == (k + 1) * n,
        decreases lim - current,
    {
        let ghost count: int = multiples@.len() as int;
        proof {
            assert((count + 2) * n == (count + 1) * n + n) by (nonlinear_arith);
        }
        multiples.push(current);
        if lim - current < n {
            break ;
        }
        current = current + n;
    }
    proof {
        let count: int = multiples@.len() as int;
        assert((count + 1) * n == count * n + n) by (nonlinear_arith);
        vstd::arithmetic::div_mod::lemma_fundamental_div_mod_converse(
            lim as int,
            n as int,
            count,
            lim - count * n,
        );
        assert(multiples@ =~= progression(n as int, lim as int));
    }
    multiples
}

/// Whether `keys` records, position by position, a key that `f` can give
/// for the element of `items` at that position.
pub open spec fn keyed<F: Fn(&str) -> i32>(f: &F, items: Seq<&str>, keys: Seq<i32>) -> bool {
    &&& keys.len() == items.len()
    &&& forall|i: int| 0 <= i < items.len() ==> call_ensures(f, (#[trigger] items[i],), keys[i])
}

/// The map from each value that occurs in `keys` to the number of times it
/// occurs there.
pub open spec fn tally(keys: Seq<i32>) -> Map<i32, i32> {
    Map::new(|k: i32| keys.contains(k), |k: i32| occurrences(keys, k) as i32)
}

/// A value occurs in a sequence exactly when its count there is not zero,
/// and no count is above the length of the sequence.
pub proof fn lemma_occurrences_bounds(s: Seq<i32>, val: i32)
    ensures
        occurrences(s, val) <= s.len(),
        occurrences(s, val) > 0 <==> s.contains(val),
{
    broadcast use vstd::multiset::group_multiset_axioms;

    vstd::seq_lib::to_multiset_len(s);
    vstd::seq_lib::to_multiset_contains(s, val);
}

/// One more key raises its own count in the tally by one, from zero if it
/// is new, and leaves the other entries as they are.
pub proof fn lemma_tally_push(keys: Seq<i32>, key: i32)
    requires
        keys.len() < i32::MAX,
    ensures
        tally(keys.push(key)) == tally(keys).insert(key, (occurrences(keys, key) + 1) as i32),
{
    let grown = tally(keys.push(key));
    let updated = tally(keys).insert(key, (occurrences(keys, key) + 1) as i32);
    assert forall|k: i32| grown.contains_key(k) <==> updated.contains_key(k) by {
        vstd::seq_lib::lemma_seq_contains_after_push(keys, key, k);
    }
    assert forall|k: i32| grown.contains_key(k) implies grown[k] == updated[k] by {
        lemma_occurrences_push(keys, key, k);
    }
    assert(grown =~= updated);
}

/// Where `f` can only give the key that `key_of` says, the keys are those
/// that `key_of` gives for the elements, one by one.
pub proof fn lemma_keyed_decided<F: Fn(&str) -> i32>(
    f: &F,
    key_of: spec_fn(&str) -> i32,
    items: Seq<&str>,
    keys: Seq<i32>,
)
    requires
        forall|x: &str, k: i32| #[trigger] call_ensures(f, (x,), k) ==> k == key_of(x),
        keyed(f, items, keys),
    ensures
        keys == items.map_values(key_of),
{
    assert forall|i: int| 0 <= i < items.len() implies keys[i] == key_of(items[i]) by {
        assert(call_ensures(f, (items[i],), keys[i]));
    }
    assert(keys =~= items.map_values(key_of));
}

/// Counts the elements of `lst` by the key that `f` gives for each: the
/// result maps every key that came up to the number of elements it came up
/// for.
///
/// `f` is asked once for each element, from the first to the last. The
/// counts are `i32`, so the list may hold `i32::MAX` elements at most.
pub fn count_by<F: Fn(&str) -> i32>(lst: Vec<&str>, f: &F) -> (counts: HashMap<i32, i32>)
    requires
        lst@.len() <= i32::MAX,
        forall|i: int| 0 <= i < lst@.len() ==> call_requires(f, (#[trigger] lst@[i],)),
    ensures
        exists|keys: Seq<i32>| keyed(f, lst@, keys) && counts@ == tally(keys),
{
    broadcast use vstd::std_specs::hash::group_hash_axioms;

    let mut counts: HashMap<i32, i32> = HashMap::new();
    let ghost mut keys: Seq<i32> = Seq::empty();
    let mut i: usize = 0;
    proof {
        assert(counts@ =~= tally(keys));
    }
    while i < lst.len()
        invariant
            i <= lst.len(),
            lst@.len() <= i32::MAX,
            forall|k: int| 0 <= k < lst@.len() ==> call_requires(f, (#[trigger] lst@[k],)),
            keyed(f, lst@.take(i as int), keys),
            counts@ == tally(keys),
        decreases lst.len() - i,
    {
        let key: i32 = f(lst[i]);
        let seen: i32 = match counts.get(&key) {
            Some(n) => *n,
            None => 0,
        };
        proof {
            lemma_occurrences_bounds(keys, key);
            lemma_tally_push(keys, key);
        }
        counts.insert(key, seen + 1);
        proof {
            keys = keys.push(key);
        }
        i = i + 1;
    }
    proof {
        assert(lst@.take(i as int) =~= lst@);
    }
    counts
}

} // verus!
