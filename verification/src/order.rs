//! Three-way order of integers and of sequences.

use vstd::prelude::*;

verus! {

/// The result of a three-way comparison of a first value with a second.
#[derive(Clone, Copy, Debug, PartialEq, Eq, Structural)]
pub enum Order {
    Less,
    Equal,
    Greater,
}

impl Order {
    /// The result of the same comparison with the two values exchanged.
    pub open spec fn reversed(self) -> Order {
        match self {
            Order::Less => Order::Greater,
            Order::Equal => Order::Equal,
            Order::Greater => Order::Less,
        }
    }

    /// The result of the same comparison with the two values exchanged.
    pub fn reverse(self) -> (r: Order)
        ensures
            r == self.reversed(),
    {
        match self {
            Order::Less => Order::Greater,
            Order::Equal => Order::Equal,
            Order::Greater => Order::Less,
        }
    }
}

/// How integer `a` stands to integer `b`.
pub open spec fn order_of(a: int, b: int) -> Order {
    if a < b {
        Order::Less
    } else if a == b {
        Order::Equal
    } else {
        Order::Greater
    }
}

/// The first index at or after `from`, inside both sequences, at which they
/// hold different items.
pub open spec fn first_difference_from<T>(a: Seq<T>, b: Seq<T>, from: int) -> Option<int>
    decreases a.len() - from,
{
    if from < 0 || from >= a.len() || from >= b.len() {
        None
    } else if a[from] != b[from] {
        Some(from)
    } else {
        first_difference_from(a, b, from + 1)
    }
}

/// The first index inside both sequences at which they hold different items.
pub open spec fn first_difference<T>(a: Seq<T>, b: Seq<T>) -> Option<int> {
    first_difference_from(a, b, 0)
}

/// `first_difference_from` finds the least differing index: below it the
/// sequences agree, and where it finds none they agree on every common index.
pub proof fn lemma_first_difference_from<T>(a: Seq<T>, b: Seq<T>, from: int)
    requires
        0 <= from,
    ensures
        match first_difference_from(a, b, from) {
            Some(i) => {
                &&& from <= i < a.len()
                &&& i < b.len()
                &&& a[i] != b[i]
                &&& forall|j: int| from <= j < i ==> a[j] == b[j]
            },
            None => forall|j: int| from <= j < a.len() && j < b.len() ==> a[j] == b[j],
        },
    decreases a.len() - from,
{
    if from < a.len() && from < b.len() && a[from] == b[from] {
        lemma_first_difference_from(a, b, from + 1);
    }
}

/// An index at which two sequences differ, with agreement on all indices
/// below it, is their first difference.
pub proof fn lemma_first_difference_at<T>(a: Seq<T>, b: Seq<T>, i: int)
    requires
        0 <= i < a.len(),
        i < b.len(),
        a[i] != b[i],
        forall|j: int| 0 <= j < i ==> a[j] == b[j],
    ensures
        first_difference(a, b) == Some(i),
{
    lemma_first_difference_from(a, b, 0);
}

/// Two sequences that agree on every common index have no first difference.
pub proof fn lemma_first_difference_none<T>(a: Seq<T>, b: Seq<T>)
    requires
        forall|j: int| 0 <= j < a.len() && j < b.len() ==> a[j] == b[j],
    ensures
        first_difference(a, b) is None,
{
    lemma_first_difference_from(a, b, 0);
}

/// Lexicographic order of two texts by code point: the first differing
/// character decides; where one text is a prefix of the other, the shorter
/// comes first.
pub open spec fn lexicographic_order(a: Seq<char>, b: Seq<char>) -> Order {
    match first_difference(a, b) {
        Some(i) => order_of(a[i] as int, b[i] as int),
        None => order_of(a.len() as int, b.len() as int),
    }
}

/// Exchanging the two texts reverses their lexicographic order.
pub proof fn lemma_lexicographic_reversed(a: Seq<char>, b: Seq<char>)
    ensures
        lexicographic_order(b, a) == lexicographic_order(a, b).reversed(),
{
    lemma_first_difference_from(a, b, 0);
    lemma_first_difference_from(b, a, 0);
}

/// Two texts are lexicographically equal exactly when they are the same text.
pub proof fn lemma_lexicographic_equal(a: Seq<char>, b: Seq<char>)
    ensures
        lexicographic_order(a, b) == Order::Equal <==> a == b,
{
    lemma_first_difference_from(a, b, 0);
    if lexicographic_order(a, b) == Order::Equal {
        assert(a =~= b);
    }
}

/// Lexicographic order is transitive: a text that does not come after a
/// second, which does not come after a third, does not come after the third.
pub proof fn lemma_lexicographic_transitive(a: Seq<char>, b: Seq<char>, c: Seq<char>)
    requires
        lexicographic_order(a, b) != Order::Greater,
        lexicographic_order(b, c) != Order::Greater,
    ensures
        lexicographic_order(a, c) != Order::Greater,
{
    lemma_first_difference_from(a, b, 0);
    lemma_first_difference_from(b, c, 0);
    match (first_difference(a, b), first_difference(b, c)) {
        (Some(p), Some(q)) => {
            let m = if p < q {
                p
            } else {
                q
            };
            lemma_first_difference_at(a, c, m);
        },
        (Some(p), None) => {
            lemma_first_difference_at(a, c, p);
        },
        (None, Some(q)) => {
            if q < a.len() {
                lemma_first_difference_at(a, c, q);
            } else {
                lemma_first_difference_none(a, c);
            }
        },
        (None, None) => {
            lemma_first_difference_none(a, c);
        },
    }
}

/// Lexicographic order of two texts by code point.
pub fn lexicographic(a: &Vec<char>, b: &Vec<char>) -> (o: Order)
    ensures
        o == lexicographic_order(a@, b@),
{
    let mut i: usize = 0;
    while i < a.len() && i < b.len()
        invariant
            i <= a.len(),
            i <= b.len(),
            forall|j: int| 0 <= j < i ==> a@[j] == b@[j],
        decreases a.len() - i,
    {
        if a[i] != b[i] {
            proof {
                lemma_first_difference_at(a@, b@, i as int);
            }
            return if a[i] < b[i] {
                Order::Less
            } else {
                Order::Greater
            };
        }
        i += 1;
    }
    proof {
        lemma_first_difference_none(a@, b@);
    }
    if a.len() < b.len() {
        Order::Less
    } else if a.len() == b.len() {
        Order::Equal
    } else {
        Order::Greater
    }
}

} // verus!
