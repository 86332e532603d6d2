//! Sorting a list of names into natural order.

use vstd::prelude::*;
use vstd::set_lib::{lemma_int_range, lemma_len_subset, lemma_subset_equality, set_int_range};
use crate::natural::{
    digit_runs, lemma_natural_order_equal, lemma_natural_order_reversed,
    lemma_natural_order_transitive, natural_order, runs_fit, NaturalKey,
};
use crate::order::Order;
use crate::text::texts;

verus! {

/// `order` lists every index below its length exactly once.
pub open spec fn is_permutation(order: Seq<usize>) -> bool {
    &&& forall|i: int| 0 <= i < order.len() ==> order[i] < order.len()
    &&& forall|i: int, j: int| 0 <= i < j < order.len() ==> order[i] != order[j]
}

/// A permutation leaves no index out: every index below its length stands
/// somewhere in it.
pub proof fn lemma_permutation_is_onto(order: Seq<usize>, index: int)
    requires
        is_permutation(order),
        0 <= index < order.len(),
    ensures
        exists|i: int| 0 <= i < order.len() && #[trigger] order[i] == index,
{
    let values = order.map_values(|v: usize| v as int);
    let range = set_int_range(0, order.len() as int);
    assert(values.no_duplicates());
    values.unique_seq_to_set();
    lemma_int_range(0, order.len() as int);
    assert(values.to_set().subset_of(range)) by {
        assert forall|x: int| values.to_set().contains(x) implies range.contains(x) by {
            let i = choose|i: int| 0 <= i < values.len() && values[i] == x;
            assert(order[i] < order.len());
        }
    }
    lemma_len_subset(values.to_set(), range);
    lemma_subset_equality(values.to_set(), range);
    assert(range.contains(index));
    assert(values.contains(index));
    let i = choose|i: int| 0 <= i < values.len() && values[i] == index;
    assert(order[i] == index);
}

/// The name at rank `i` of `order` does not come after the name at rank
/// `i + 1`.
pub open spec fn in_order_at(names: Seq<Seq<char>>, order: Seq<usize>, i: int) -> bool {
    natural_order(names[order[i] as int], names[order[i + 1] as int]) != Order::Greater
}

/// The names, taken in the sequence that `order` gives, are in natural
/// order: no name comes after any name further on.
pub open spec fn in_natural_order(names: Seq<Seq<char>>, order: Seq<usize>) -> bool {
    forall|i: int, j: int|
        0 <= i < j < order.len() ==> natural_order(
            names[#[trigger] order[i] as int],
            names[#[trigger] order[j] as int],
        ) != Order::Greater
}

/// Names of which each is in order with its successor are in order
/// throughout: no name comes after any name further on.
pub proof fn lemma_in_order_throughout(
    names: Seq<Seq<char>>,
    order: Seq<usize>,
    i: int,
    j: int,
)
    requires
        forall|k: int| 0 <= k && k + 1 < order.len() ==> in_order_at(names, order, k),
        0 <= i <= j < order.len(),
    ensures
        natural_order(names[order[i] as int], names[order[j] as int]) != Order::Greater,
    decreases j - i,
{
    let first = names[order[i] as int];
    if i == j {
        lemma_natural_order_equal(first, first);
    } else {
        let before = names[order[j - 1] as int];
        let last = names[order[j] as int];
        lemma_in_order_throughout(names, order, i, j - 1);
        assert(in_order_at(names, order, j - 1));
        lemma_natural_order_transitive(first, before, last);
    }
}

/// In a list in natural order, of two different names the one stands first
/// that natural order puts first: the place of every name among the others
/// is fixed by the names alone.
pub proof fn lemma_first_in_order_stands_first(
    names: Seq<Seq<char>>,
    order: Seq<usize>,
    i: int,
    j: int,
)
    requires
        in_natural_order(names, order),
        0 <= i < order.len(),
        0 <= j < order.len(),
        names[order[i] as int] != names[order[j] as int],
    ensures
        i < j <==> natural_order(names[order[i] as int], names[order[j] as int]) == Order::Less,
{
    let a = names[order[i] as int];
    let b = names[order[j] as int];
    lemma_natural_order_equal(a, b);
    lemma_natural_order_reversed(a, b);
    if i < j {
        assert(natural_order(names[order[i] as int], names[order[j] as int]) != Order::Greater);
    } else if j < i {
        assert(natural_order(names[order[j] as int], names[order[i] as int]) != Order::Greater);
    }
}

/// A name that cannot be sorted.
#[derive(Clone, Copy, Debug, PartialEq, Eq, Structural)]
pub struct NumberTooLarge {
    /// The index of the first name with a digit run above `u64::MAX`.
    pub index: usize,
}

/// The keys of all names, or the first name that has none.
fn keys_of(names: &Vec<String>) -> (r: Result<Vec<NaturalKey>, NumberTooLarge>)
    ensures
        match r {
            Ok(keys) => {
                &&& keys.len() == names.len()
                &&& forall|i: int| 0 <= i < names.len() ==> (#[trigger] keys[i])@ == names[i]@
                &&& forall|i: int|
                    0 <= i < names.len() ==> runs_fit(digit_runs(#[trigger] names[i]@))
            },
            Err(e) => {
                &&& e.index < names.len()
                &&& !runs_fit(digit_runs(names[e.index as int]@))
                &&& forall|i: int| 0 <= i < e.index ==> runs_fit(digit_runs(#[trigger] names[i]@))
            },
        },
{
    let mut keys: Vec<NaturalKey> = Vec::new();
    let mut i: usize = 0;
    while i < names.len()
        invariant
            i <= names.len(),
            keys.len() == i,
            forall|j: int| 0 <= j < i ==> (#[trigger] keys[j])@ == names[j]@,
            forall|j: int| 0 <= j < i ==> runs_fit(digit_runs(#[trigger] names[j]@)),
        decreases names.len() - i,
    {
        match NaturalKey::new(names[i].as_str()) {
            Ok(key) => {
                keys.push(key);
            },
            Err(_) => {
                return Err(NumberTooLarge { index: i });
            },
        }
        i += 1;
    }
    Ok(keys)
}

/// The natural order of a list of names, as the list of their indices.
///
/// The result lists every index once, and the names are in natural order in
/// it: no name comes after any name further on. There is a result exactly
/// when every digit run of every name fits in 64 bits; otherwise the first
/// name with a larger run is reported.
pub fn natural_sort(names: &Vec<String>) -> (r: Result<Vec<usize>, NumberTooLarge>)
    ensures
        match r {
            Ok(order) => {
                &&& order.len() == names.len()
                &&& is_permutation(order@)
                &&& in_natural_order(texts(names@), order@)
                &&& forall|i: int|
                    0 <= i < names.len() ==> runs_fit(digit_runs(#[trigger] names[i]@))
            },
            Err(e) => {
                &&& e.index < names.len()
                &&& !runs_fit(digit_runs(names[e.index as int]@))
                &&& forall|i: int| 0 <= i < e.index ==> runs_fit(digit_runs(#[trigger] names[i]@))
            },
        },
{
    let keys = match keys_of(names) {
        Ok(keys) => keys,
        Err(e) => {
            return Err(e);
        },
    };
    let n: usize = names.len();
    let ghost all = texts(names@);
    let mut order: Vec<usize> = Vec::new();
    let mut k: usize = 0;
    while k < n
        invariant
            k <= n,
            order.len() == k,
            forall|i: int| 0 <= i < k ==> order[i] == i,
        decreases n - k,
    {
        order.push(k);
        k += 1;
    }
    let mut i: usize = 1;
    while i < n
        invariant
            1 <= i,
            n == names.len(),
            keys.len() == n,
            order.len() == n,
            all == texts(names@),
            forall|x: int| 0 <= x < n ==> (#[trigger] keys[x])@ == names[x]@,
            is_permutation(order@),
            forall|x: int| 0 <= x && x + 1 < i ==> in_order_at(all, order@, x),
        decreases n - i,
    {
        let mut j: usize = i;
        while j > 0 && is_greater(&keys, order[j - 1], order[j])
            invariant
                j <= i < n,
                n == names.len(),
                keys.len() == n,
                order.len() == n,
                all == texts(names@),
                forall|x: int| 0 <= x < n ==> (#[trigger] keys[x])@ == names[x]@,
                is_permutation(order@),
                forall|x: int|
                    0 <= x < i && x != j && x + 1 != j ==> in_order_at(all, order@, x),
                j < i ==> in_order_at(all, order@, j as int),
                0 < j < i ==> natural_order(
                    all[order[j - 1] as int],
                    all[order[j + 1] as int],
                ) != Order::Greater,
            decreases j,
        {
            let ghost before = order@;
            let moved: usize = order[j];
            let passed: usize = order[j - 1];
            order.set(j, passed);
            order.set(j - 1, moved);
            proof {
                lemma_natural_order_reversed(all[passed as int], all[moved as int]);
                assert forall|x: int|
                    0 <= x < i && x != j - 1 && x + 1 != j - 1 implies in_order_at(
                    all,
                    order@,
                    x,
                ) by {
                    if x != j {
                        assert(in_order_at(all, before, x));
                    }
                }
                if 0 < j - 1 {
                    assert(in_order_at(all, before, j - 2));
                }
            }
            j -= 1;
        }
        i += 1;
    }
    proof {
        assert forall|x: int, y: int| 0 <= x < y < order.len() implies natural_order(
            all[#[trigger] order[x] as int],
            all[#[trigger] order[y] as int],
        ) != Order::Greater by {
            lemma_in_order_throughout(all, order@, x, y);
        }
    }
    Ok(order)
}

/// Whether the name at index `a` comes after the name at index `b`.
fn is_greater(keys: &Vec<NaturalKey>, a: usize, b: usize) -> (greater: bool)
    requires
        a < keys.len(),
        b < keys.len(),
    ensures
        greater == (natural_order(keys[a as int]@, keys[b as int]@) == Order::Greater),
{
    keys[a].compare(&keys[b]) == Order::Greater
}

/// The names in the sequence that `order` gives.
pub open spec fn arranged_by(names: Seq<Seq<char>>, order: Seq<usize>) -> Seq<Seq<char>> {
    Seq::new(order.len(), |i: int| names[order[i] as int])
}

/// `sorted` holds every name of `names` once, and is in natural order: none
/// of its names comes after any name further on.
pub open spec fn is_natural_arrangement(sorted: Seq<Seq<char>>, names: Seq<Seq<char>>) -> bool {
    exists|order: Seq<usize>|
        {
            &&& order.len() == names.len()
            &&& is_permutation(order)
            &&& in_natural_order(names, order)
            &&& sorted == #[trigger] arranged_by(names, order)
        }
}

/// The names in the sequence that `order` gives.
fn arranged(names: &Vec<String>, order: &Vec<usize>) -> (sorted: Vec<String>)
    requires
        forall|i: int| 0 <= i < order.len() ==> order[i] < names.len(),
    ensures
        texts(sorted@) == arranged_by(texts(names@), order@),
{
    let mut sorted: Vec<String> = Vec::new();
    let mut i: usize = 0;
    while i < order.len()
        invariant
            i <= order.len(),
            sorted.len() == i,
            forall|j: int| 0 <= j < order.len() ==> order[j] < names.len(),
            forall|j: int| 0 <= j < i ==> sorted[j]@ == names[order[j] as int]@,
        decreases order.len() - i,
    {
        sorted.push(names[order[i]].clone());
        i += 1;
    }
    assert(texts(sorted@) =~= arranged_by(texts(names@), order@));
    sorted
}

/// The names in natural order.
///
/// The result holds every name once, and no name comes after any name
/// further on. There is a result exactly when every digit run of every name fits in 64
/// bits; otherwise the first name with a larger run is reported.
pub fn sorted_names(names: &Vec<String>) -> (r: Result<Vec<String>, NumberTooLarge>)
    ensures
        match r {
            Ok(sorted) => {
                &&& is_natural_arrangement(texts(sorted@), texts(names@))
                &&& forall|i: int|
                    0 <= i < names.len() ==> runs_fit(digit_runs(#[trigger] names[i]@))
            },
            Err(e) => {
                &&& e.index < names.len()
                &&& !runs_fit(digit_runs(names[e.index as int]@))
                &&& forall|i: int| 0 <= i < e.index ==> runs_fit(digit_runs(#[trigger] names[i]@))
            },
        },
{
    match natural_sort(names) {
        Ok(order) => Ok(arranged(names, &order)),
        Err(e) => Err(e),
    }
}

} // verus!
