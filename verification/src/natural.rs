//! Natural order of file names: the numbers embedded in two names are
//! compared as integers, and the names themselves break ties.

use vstd::prelude::*;
use crate::order::{
    first_difference, lemma_first_difference_at, lemma_first_difference_from,
    lemma_first_difference_none, lemma_lexicographic_equal, lemma_lexicographic_reversed,
    lemma_lexicographic_transitive,
    lexicographic, lexicographic_order, order_of, Order,
};
use crate::text::{chars_of, digit_of, digit_value, is_digit, is_digit_char};

verus! {

/// The values of the maximal runs of ASCII digits in a text, in the order in
/// which the runs occur. A character that is no digit ends the run before it;
/// a digit either extends the run that the character before it belongs to, or
/// starts a new one. Leading zeros do not change a value.
pub open spec fn digit_runs(s: Seq<char>) -> Seq<nat>
    decreases s.len(),
{
    if s.len() == 0 {
        Seq::empty()
    } else {
        let front = s.drop_last();
        let runs = digit_runs(front);
        if !is_digit(s.last()) {
            runs
        } else if front.len() > 0 && is_digit(front.last()) {
            runs.update(runs.len() - 1, 10 * runs.last() + digit_of(s.last()))
        } else {
            runs.push(digit_of(s.last()))
        }
    }
}

/// Every run value fits in 64 bits.
pub open spec fn runs_fit(runs: Seq<nat>) -> bool {
    forall|i: int| 0 <= i < runs.len() ==> runs[i] <= u64::MAX
}

/// Machine numbers as mathematical ones.
pub open spec fn as_nats(values: Seq<u64>) -> Seq<nat> {
    values.map_values(|v: u64| v as nat)
}

/// Natural order of two names. The digit runs of the two names are compared
/// pairwise as integers, the first with the first and so on, and the first
/// pair that differs decides. Where the runs of one name come to an end and
/// the other name has a further run, the comparison is decided there: the
/// name that still has a run comes first. Where the two names have the same
/// runs, the lexicographic order of the full names decides.
pub open spec fn natural_order(a: Seq<char>, b: Seq<char>) -> Order {
    let runs_a = digit_runs(a);
    let runs_b = digit_runs(b);
    match first_difference(runs_a, runs_b) {
        Some(i) => order_of(runs_a[i] as int, runs_b[i] as int),
        None => if runs_a.len() > runs_b.len() {
            Order::Less
        } else if runs_a.len() < runs_b.len() {
            Order::Greater
        } else {
            lexicographic_order(a, b)
        },
    }
}

/// A text that ends in a digit has at least one run.
pub proof fn lemma_runs_nonempty(s: Seq<char>)
    requires
        s.len() > 0,
        is_digit(s.last()),
    ensures
        digit_runs(s).len() > 0,
    decreases s.len(),
{
    let front = s.drop_last();
    if front.len() > 0 && is_digit(front.last()) {
        lemma_runs_nonempty(front);
    }
}

/// The runs of a prefix stay in place in the runs of the whole text, and the
/// value of each can only grow.
pub proof fn lemma_runs_of_prefix(s: Seq<char>, n: int)
    requires
        0 <= n <= s.len(),
    ensures
        digit_runs(s.take(n)).len() <= digit_runs(s).len(),
        forall|j: int|
            0 <= j < digit_runs(s.take(n)).len() ==> digit_runs(s.take(n))[j] <= digit_runs(s)[j],
    decreases s.len() - n,
{
    if n == s.len() {
        assert(s.take(n) == s);
    } else {
        let longer = s.take(n + 1);
        assert(longer.drop_last() == s.take(n));
        if n > 0 && is_digit(s[n - 1]) && is_digit(s[n]) {
            lemma_runs_nonempty(s.take(n));
        }
        lemma_runs_of_prefix(s, n + 1);
    }
}

/// After a character that is no digit the runs begin anew: the runs of a
/// text are those of a front part that ends in no digit, and then those of
/// the rest.
pub proof fn lemma_runs_after_break(front: Seq<char>, back: Seq<char>)
    requires
        front.len() == 0 || !is_digit(front.last()),
    ensures
        digit_runs(front + back) == digit_runs(front) + digit_runs(back),
    decreases back.len(),
{
    if back.len() == 0 {
        assert(front + back == front);
        assert(digit_runs(front) + digit_runs(back) == digit_runs(front));
    } else {
        let whole = front + back;
        let shorter = back.drop_last();
        assert(whole.drop_last() == front + shorter);
        assert(whole.last() == back.last());
        lemma_runs_after_break(front, shorter);
        if is_digit(back.last()) {
            if shorter.len() > 0 {
                assert((front + shorter).last() == shorter.last());
                if is_digit(shorter.last()) {
                    lemma_runs_nonempty(shorter);
                }
            }
        }
        assert(digit_runs(whole) =~= digit_runs(front) + digit_runs(back));
    }
}

/// The law of natural order, in full. The first pair of runs with different
/// values decides by the order of those two integers. Where the runs agree
/// on every common position, the name with more runs comes first, and with
/// equally many runs the lexicographic order of the names decides.
pub proof fn lemma_natural_order(a: Seq<char>, b: Seq<char>)
    ensures
        forall|i: int|
            0 <= i < digit_runs(a).len() && i < digit_runs(b).len() && digit_runs(a)[i]
                != digit_runs(b)[i] && (forall|j: int|
                0 <= j < i ==> digit_runs(a)[j] == digit_runs(b)[j]) ==> natural_order(a, b)
                == order_of(digit_runs(a)[i] as int, digit_runs(b)[i] as int),
        (forall|j: int|
            0 <= j < digit_runs(a).len() && j < digit_runs(b).len() ==> digit_runs(a)[j]
                == digit_runs(b)[j]) ==> natural_order(a, b) == if digit_runs(a).len()
            > digit_runs(b).len() {
            Order::Less
        } else if digit_runs(a).len() < digit_runs(b).len() {
            Order::Greater
        } else {
            lexicographic_order(a, b)
        },
        digit_runs(a) == digit_runs(b) ==> natural_order(a, b) == lexicographic_order(a, b),
{
    lemma_first_difference_from(digit_runs(a), digit_runs(b), 0);
}

/// Exchanging the two names reverses their natural order.
pub proof fn lemma_natural_order_reversed(a: Seq<char>, b: Seq<char>)
    ensures
        natural_order(b, a) == natural_order(a, b).reversed(),
{
    lemma_first_difference_from(digit_runs(a), digit_runs(b), 0);
    lemma_first_difference_from(digit_runs(b), digit_runs(a), 0);
    lemma_lexicographic_reversed(a, b);
}

/// Two names are naturally equal exactly when they are the same name.
pub proof fn lemma_natural_order_equal(a: Seq<char>, b: Seq<char>)
    ensures
        natural_order(a, b) == Order::Equal <==> a == b,
{
    lemma_first_difference_from(digit_runs(a), digit_runs(b), 0);
    lemma_lexicographic_equal(a, b);
}

/// Natural order is transitive: a name that does not come after a second,
/// which does not come after a third, does not come after the third.
pub proof fn lemma_natural_order_transitive(a: Seq<char>, b: Seq<char>, c: Seq<char>)
    requires
        natural_order(a, b) != Order::Greater,
        natural_order(b, c) != Order::Greater,
    ensures
        natural_order(a, c) != Order::Greater,
{
    let ra = digit_runs(a);
    let rb = digit_runs(b);
    let rc = digit_runs(c);
    lemma_first_difference_from(ra, rb, 0);
    lemma_first_difference_from(rb, rc, 0);
    lemma_first_difference_from(ra, rc, 0);
    let same_ab = first_difference(ra, rb) is None && ra.len() == rb.len();
    let same_bc = first_difference(rb, rc) is None && rb.len() == rc.len();
    if same_ab && same_bc {
        assert(ra =~= rb);
        assert(rb =~= rc);
        lemma_lexicographic_transitive(a, b, c);
    } else if same_ab {
        assert(ra =~= rb);
    } else if same_bc {
        assert(rb =~= rc);
    } else {
        // The place at which each of the two comparisons is decided.
        let p = match first_difference(ra, rb) {
            Some(p) => p,
            None => rb.len() as int,
        };
        let q = match first_difference(rb, rc) {
            Some(q) => q,
            None => rc.len() as int,
        };
        let m = if p < q {
            p
        } else {
            q
        };
        assert(m < ra.len());
        assert forall|j: int| 0 <= j < m implies ra[j] == rc[j] by {
            assert(ra[j] == rb[j]);
            assert(rb[j] == rc[j]);
        }
        if m < rc.len() {
            assert(ra[m] < rc[m]);
            lemma_first_difference_at(ra, rc, m);
        } else {
            lemma_first_difference_none(ra, rc);
        }
    }
}

/// Why a name has no key.
#[derive(Clone, Copy, Debug, PartialEq, Eq, Structural)]
pub enum KeyError {
    /// A digit run of the name has a value above `u64::MAX`.
    NumberTooLarge,
}

/// The sort key of one name: its characters and the values of its digit runs.
pub struct NaturalKey {
    text: Vec<char>,
    runs: Vec<u64>,
}

impl View for NaturalKey {
    type V = Seq<char>;

    /// The name that the key was made of.
    closed spec fn view(&self) -> Seq<char> {
        self.text@
    }
}

impl NaturalKey {
    /// The runs are those of the text.
    #[verifier::type_invariant]
    spec fn well_formed(&self) -> bool {
        as_nats(self.runs@) == digit_runs(self.text@)
    }

    /// The key of a name. There is one exactly when every digit run of the
    /// name fits in 64 bits.
    pub fn new(name: &str) -> (r: Result<NaturalKey, KeyError>)
        ensures
            r is Ok <==> runs_fit(digit_runs(name@)),
            r matches Ok(key) ==> key@ == name@,
            r matches Err(e) ==> e == KeyError::NumberTooLarge,
    {
        let text = chars_of(name);
        let mut runs: Vec<u64> = Vec::new();
        let mut in_run = false;
        let mut i: usize = 0;
        while i < text.len()
            invariant
                i <= text.len(),
                text@ == name@,
                as_nats(runs@) == digit_runs(text@.take(i as int)),
                in_run == (i > 0 && is_digit(text@[i - 1])),
            decreases text.len() - i,
        {
            let c = text[i];
            proof {
                assert(text@.take(i + 1).drop_last() == text@.take(i as int));
                if in_run {
                    lemma_runs_nonempty(text@.take(i as int));
                }
            }
            if is_digit_char(c) {
                let d = digit_value(c);
                if in_run {
                    let last: usize = runs.len() - 1;
                    let v = runs[last];
                    assert(as_nats(runs@)[last as int] == v);
                    if v > (u64::MAX - d) / 10 {
                        proof {
                            let short = digit_runs(text@.take(i + 1));
                            assert(short[last as int] == 10 * v + d);
                            lemma_runs_of_prefix(text@, i + 1);
                            assert(digit_runs(text@)[last as int] > u64::MAX);
                        }
                        return Err(KeyError::NumberTooLarge);
                    }
                    runs.set(last, 10 * v + d);
                } else {
                    runs.push(d);
                }
                in_run = true;
            } else {
                in_run = false;
            }
            assert(as_nats(runs@) =~= digit_runs(text@.take(i + 1)));
            i += 1;
        }
        proof {
            assert(text@.take(text@.len() as int) == text@);
            assert forall|j: int| 0 <= j < digit_runs(name@).len() implies digit_runs(name@)[j]
                <= u64::MAX by {
                assert(as_nats(runs@)[j] == runs@[j]);
            }
        }
        Ok(NaturalKey { text, runs })
    }

    /// Natural order of the name of this key and the name of another.
    pub fn compare(&self, other: &NaturalKey) -> (o: Order)
        ensures
            o == natural_order(self@, other@),
    {
        proof {
            use_type_invariant(self);
            use_type_invariant(other);
        }
        let ghost runs_a = digit_runs(self.text@);
        let ghost runs_b = digit_runs(other.text@);
        let mut i: usize = 0;
        while i < self.runs.len() && i < other.runs.len()
            invariant
                i <= self.runs.len(),
                i <= other.runs.len(),
                runs_a == digit_runs(self.text@),
                runs_b == digit_runs(other.text@),
                as_nats(self.runs@) == runs_a,
                as_nats(other.runs@) == runs_b,
                forall|j: int| 0 <= j < i ==> runs_a[j] == runs_b[j],
            decreases self.runs.len() - i,
        {
            let x = self.runs[i];
            let y = other.runs[i];
            assert(as_nats(self.runs@)[i as int] == x);
            assert(as_nats(other.runs@)[i as int] == y);
            if x != y {
                proof {
                    lemma_first_difference_at(runs_a, runs_b, i as int);
                }
                return if x < y {
                    Order::Less
                } else {
                    Order::Greater
                };
            }
            i += 1;
        }
        proof {
            assert(runs_a.len() == self.runs@.len());
            assert(runs_b.len() == other.runs@.len());
            lemma_first_difference_none(runs_a, runs_b);
        }
        if self.runs.len() > other.runs.len() {
            Order::Less
        } else if self.runs.len() < other.runs.len() {
            Order::Greater
        } else {
            lexicographic(&self.text, &other.text)
        }
    }
}

/// Natural order of two names. It is defined exactly when every digit run of
/// both names fits in 64 bits.
pub fn natural_compare(a: &str, b: &str) -> (r: Result<Order, KeyError>)
    ensures
        r is Ok <==> runs_fit(digit_runs(a@)) && runs_fit(digit_runs(b@)),
        r matches Ok(o) ==> o == natural_order(a@, b@),
        r matches Err(e) ==> e == KeyError::NumberTooLarge,
{
    let key_a = match NaturalKey::new(a) {
        Ok(key) => key,
        Err(e) => {
            return Err(e);
        },
    };
    let key_b = match NaturalKey::new(b) {
        Ok(key) => key,
        Err(e) => {
            return Err(e);
        },
    };
    Ok(key_a.compare(&key_b))
}

} // verus!
