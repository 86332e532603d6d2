//! A directory as a map from file keys to contents, and what a sequence of
//! renames makes of it.

use vstd::prelude::*;

verus! {

/// A rename can be carried out where there is a file under `from` and none
/// under `to`: it then destroys nothing.
pub open spec fn can_move<K, T>(dir: Map<K, T>, from: K, to: K) -> bool {
    dir.dom().contains(from) && !dir.dom().contains(to)
}

/// The directory after the file under `from` has moved to `to`.
pub open spec fn moved<K, T>(dir: Map<K, T>, from: K, to: K) -> Map<K, T> {
    dir.remove(from).insert(to, dir[from])
}

/// The directory after a sequence of renames, each given as the pair of its
/// old and its new key. There is none where some rename of the sequence
/// cannot be carried out.
pub open spec fn run<K, T>(dir: Map<K, T>, steps: Seq<(K, K)>) -> Option<Map<K, T>>
    decreases steps.len(),
{
    if steps.len() == 0 {
        Some(dir)
    } else {
        match run(dir, steps.drop_last()) {
            Some(before) => if can_move(before, steps.last().0, steps.last().1) {
                Some(moved(before, steps.last().0, steps.last().1))
            } else {
                None
            },
            None => None,
        }
    }
}

/// The renames that take each key of `froms` to the key of `tos` at the same
/// index, in the order of the indices.
pub open spec fn pairs<K>(froms: Seq<K>, tos: Seq<K>) -> Seq<(K, K)> {
    Seq::new(froms.len(), |i: int| (froms[i], tos[i]))
}

/// `after` is `dir` with the file under each key of `froms` now under the
/// key of `tos` at the same index, every other file where it was, and no
/// file besides these.
pub open spec fn relocated<K, T>(
    dir: Map<K, T>,
    after: Map<K, T>,
    froms: Seq<K>,
    tos: Seq<K>,
) -> bool {
    &&& forall|i: int|
        0 <= i < froms.len() ==> after.dom().contains(#[trigger] tos[i]) && after[tos[i]]
            == dir[froms[i]]
    &&& forall|k: K|
        dir.dom().contains(k) && !froms.contains(k) ==> #[trigger] after.dom().contains(k)
            && after[k] == dir[k]
    &&& forall|k: K| #[trigger]
        after.dom().contains(k) ==> tos.contains(k) || (dir.dom().contains(k) && !froms.contains(
            k,
        ))
}

/// Running one sequence of renames and then another is running the two in
/// a row.
pub proof fn lemma_run_in_a_row<K, T>(dir: Map<K, T>, first: Seq<(K, K)>, second: Seq<(K, K)>)
    ensures
        run(dir, first + second) == match run(dir, first) {
            Some(between) => run(between, second),
            None => None,
        },
    decreases second.len(),
{
    if second.len() == 0 {
        assert(first + second == first);
    } else {
        assert((first + second).drop_last() == first + second.drop_last());
        lemma_run_in_a_row(dir, first, second.drop_last());
    }
}

/// Moving a batch of files to keys that are all free destroys nothing:
/// every rename of the batch can be carried out, each file of the batch
/// arrives under its new key, and every other file stays where it was.
pub proof fn lemma_batch<K, T>(dir: Map<K, T>, froms: Seq<K>, tos: Seq<K>)
    requires
        froms.len() == tos.len(),
        froms.no_duplicates(),
        tos.no_duplicates(),
        forall|i: int| 0 <= i < froms.len() ==> dir.dom().contains(froms[i]),
        forall|i: int| 0 <= i < tos.len() ==> !dir.dom().contains(tos[i]),
    ensures
        run(dir, pairs(froms, tos)) matches Some(after) && relocated(dir, after, froms, tos),
    decreases froms.len(),
{
    if froms.len() > 0 {
        let n = froms.len() as int;
        let froms_before = froms.drop_last();
        let tos_before = tos.drop_last();
        let from = froms.last();
        let to = tos.last();
        assert(pairs(froms, tos).drop_last() == pairs(froms_before, tos_before));
        lemma_batch(dir, froms_before, tos_before);
        let before = run(dir, pairs(froms_before, tos_before))->0;
        assert(!froms_before.contains(from)) by {
            if froms_before.contains(from) {
                let i = choose|i: int| 0 <= i < froms_before.len() && froms_before[i] == from;
                assert(froms[i] == froms[n - 1]);
            }
        }
        assert(!tos_before.contains(to)) by {
            if tos_before.contains(to) {
                let i = choose|i: int| 0 <= i < tos_before.len() && tos_before[i] == to;
                assert(tos[i] == tos[n - 1]);
            }
        }
        assert(dir.dom().contains(froms[n - 1]));
        assert(!dir.dom().contains(tos[n - 1]));
        assert(before.dom().contains(from));
        assert(!before.dom().contains(to));
        let after = moved(before, from, to);
        assert(run(dir, pairs(froms, tos)) == Some(after));
        assert forall|i: int| 0 <= i < froms.len() implies after.dom().contains(#[trigger] tos[i])
            && after[tos[i]] == dir[froms[i]] by {
            if i < n - 1 {
                assert(tos_before[i] == tos[i]);
                assert(froms_before[i] == froms[i]);
                assert(before.dom().contains(tos_before[i]));
                assert(!dir.dom().contains(tos[i]));
                assert(tos[i] != tos[n - 1]);
            }
        }
        assert forall|k: K| dir.dom().contains(k) && !froms.contains(k) implies #[trigger]
            after.dom().contains(k) && after[k] == dir[k] by {
            assert(k != from) by {
                if k == from {
                    assert(froms[n - 1] == k);
                }
            }
            assert(!froms_before.contains(k)) by {
                if froms_before.contains(k) {
                    let i = choose|i: int| 0 <= i < froms_before.len() && froms_before[i] == k;
                    assert(froms[i] == k);
                }
            }
            assert(before.dom().contains(k));
        }
        assert forall|k: K| #[trigger] after.dom().contains(k) implies tos.contains(k) || (
        dir.dom().contains(k) && !froms.contains(k)) by {
            if k == to {
                assert(tos[n - 1] == k);
            } else {
                assert(before.dom().contains(k));
                if tos_before.contains(k) {
                    let i = choose|i: int| 0 <= i < tos_before.len() && tos_before[i] == k;
                    assert(tos[i] == k);
                } else {
                    assert(k != from);
                    if froms.contains(k) {
                        let i = choose|i: int| 0 <= i < froms.len() && froms[i] == k;
                        assert(i < n - 1);
                        assert(froms_before[i] == k);
                    }
                }
            }
        }
    } else {
        assert(pairs(froms, tos) =~= Seq::<(K, K)>::empty());
        let after = dir;
        assert(relocated(dir, after, froms, tos));
    }
}

} // verus!
