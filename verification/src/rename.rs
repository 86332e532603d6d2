//! The renames that give a directory's images their canonical names without
//! overwriting any file on the way.

use vstd::prelude::*;
use crate::directory::{lemma_batch, lemma_run_in_a_row, pairs, relocated, run};
use crate::naming::{
    canonical_for, canonical_name, canonical_names, decimal_text, extension_of, index_width,
    lemma_canonical_names_differ, lemma_decimal_text_digits, lemma_digits_positive,
    lemma_padded_width,
};
use crate::order::lemma_first_difference_from;
use crate::text::{chars_of, same_chars, string_of, texts, upper, upper_chars, upper_text};

verus! {

/// Two names that a file system may take for one: they are equal without
/// regard to ASCII case.
pub open spec fn alias(a: Seq<char>, b: Seq<char>) -> bool {
    upper_text(a) == upper_text(b)
}

/// The key under which a directory holds a name: the name itself, or on a
/// file system that folds case, the name in upper case.
pub open spec fn file_key(name: Seq<char>, folding: bool) -> Seq<char> {
    if folding {
        upper_text(name)
    } else {
        name
    }
}

/// The keys of a list of names.
pub open spec fn file_keys(names: Seq<Seq<char>>, folding: bool) -> Seq<Seq<char>> {
    names.map_values(|name: Seq<char>| file_key(name, folding))
}

/// A sequence of renames by name, as renames by key.
pub open spec fn keyed(steps: Seq<(Seq<char>, Seq<char>)>, folding: bool) -> Seq<
    (Seq<char>, Seq<char>),
> {
    steps.map_values(
        |step: (Seq<char>, Seq<char>)| (file_key(step.0, folding), file_key(step.1, folding)),
    )
}

/// The number of underscores before the first other character, counted from
/// position `from`.
pub open spec fn underscores_from(s: Seq<char>, from: int) -> int
    decreases s.len() - from,
{
    if 0 <= from < s.len() && s[from] == '_' {
        underscores_from(s, from + 1)
    } else {
        from
    }
}

/// The number of underscores at the start of a name.
pub open spec fn leading_underscores(s: Seq<char>) -> int {
    underscores_from(s, 0)
}

/// One more than the largest number of leading underscores among the names.
pub open spec fn marker_length(names: Seq<Seq<char>>) -> int
    decreases names.len(),
{
    if names.len() == 0 {
        1
    } else {
        let rest = marker_length(names.drop_last());
        let here = leading_underscores(names.last()) + 1;
        if here > rest {
            here
        } else {
            rest
        }
    }
}

/// The marker of temporary names: so many underscores that no name of the
/// directory begins with it.
pub open spec fn marker(length: int) -> Seq<char> {
    Seq::new(length as nat, |i: int| '_')
}

/// The temporary name of a source: the marker and then the source's name.
pub open spec fn temporary(length: int, source: Seq<char>) -> Seq<char> {
    marker(length) + source
}

/// The temporary names of a list of sources.
pub open spec fn temporaries(length: int, sources: Seq<Seq<char>>) -> Seq<Seq<char>> {
    sources.map_values(|source: Seq<char>| temporary(length, source))
}

/// Some target is an alias of some source.
pub open spec fn collides(sources: Seq<Seq<char>>, targets: Seq<Seq<char>>) -> bool {
    exists|i: int, j: int|
        0 <= i < targets.len() && 0 <= j < sources.len() && alias(
            #[trigger] targets[i],
            #[trigger] sources[j],
        )
}

/// The name is an alias of some name of the list.
pub open spec fn alias_among(name: Seq<char>, names: Seq<Seq<char>>) -> bool {
    exists|j: int| 0 <= j < names.len() && alias(name, #[trigger] names[j])
}

/// The sources can be given their canonical names: each has an extension,
/// and no canonical name is the name or an alias of another entry.
pub open spec fn can_be_named(sources: Seq<Seq<char>>, others: Seq<Seq<char>>) -> bool {
    forall|i: int|
        0 <= i < sources.len() ==> (canonical_for(
            #[trigger] sources[i],
            i as nat,
            sources.len() as nat,
        ) matches Some(name) && !alias_among(name, others))
}

/// The renames that give the sources their targets. Where no target is an
/// alias of a source, each source is renamed to its target at once. Where
/// one is, every source is first renamed to its temporary name, and then
/// every temporary name to its target.
pub open spec fn planned_steps(
    sources: Seq<Seq<char>>,
    others: Seq<Seq<char>>,
    targets: Seq<Seq<char>>,
) -> Seq<(Seq<char>, Seq<char>)> {
    if collides(sources, targets) {
        let held = temporaries(marker_length(sources + others), sources);
        pairs(sources, held) + pairs(held, targets)
    } else {
        pairs(sources, targets)
    }
}

/// The underscores end at the first character that is none, or at the end
/// of the name.
proof fn lemma_underscores_from(s: Seq<char>, from: int)
    requires
        0 <= from <= s.len(),
    ensures
        from <= underscores_from(s, from) <= s.len(),
        forall|k: int| from <= k < underscores_from(s, from) ==> s[k] == '_',
        underscores_from(s, from) < s.len() ==> s[underscores_from(s, from)] != '_',
    decreases s.len() - from,
{
    if from < s.len() && s[from] == '_' {
        lemma_underscores_from(s, from + 1);
    }
}

/// The marker is longer than the leading underscores of every name.
proof fn lemma_marker_length(names: Seq<Seq<char>>, i: int)
    requires
        0 <= i < names.len(),
    ensures
        leading_underscores(names[i]) < marker_length(names),
        marker_length(names) >= 1,
    decreases names.len(),
{
    if i < names.len() - 1 {
        lemma_marker_length(names.drop_last(), i);
    } else if names.len() > 1 {
        lemma_marker_length(names.drop_last(), 0);
    }
}

/// A temporary name is under no key that a name with fewer leading
/// underscores than the marker is under.
proof fn lemma_temporary_is_free(length: int, source: Seq<char>, name: Seq<char>, folding: bool)
    requires
        0 <= leading_underscores(name) < length,
    ensures
        file_key(temporary(length, source), folding) != file_key(name, folding),
{
    lemma_underscores_from(name, 0);
    let at = leading_underscores(name);
    let held = temporary(length, source);
    if at < name.len() {
        assert(held[at] == '_');
        assert(name[at] != '_');
        assert(upper(name[at]) != '_');
        assert(file_key(held, folding)[at] != file_key(name, folding)[at]);
    } else {
        assert(file_key(held, folding).len() != file_key(name, folding).len());
    }
}

/// Two sources under different keys have temporary names under different
/// keys.
proof fn lemma_temporaries_apart(length: int, a: Seq<char>, b: Seq<char>, folding: bool)
    requires
        0 <= length,
        file_key(a, folding) != file_key(b, folding),
    ensures
        file_key(temporary(length, a), folding) != file_key(temporary(length, b), folding),
{
    let ka = file_key(temporary(length, a), folding);
    let kb = file_key(temporary(length, b), folding);
    if ka == kb {
        assert(ka.len() == length + a.len());
        assert(kb.len() == length + b.len());
        assert(a.len() == b.len());
        assert forall|k: int| 0 <= k < a.len() implies file_key(a, folding)[k] == file_key(
            b,
            folding,
        )[k] by {
            assert(ka[length + k] == kb[length + k]);
            assert(temporary(length, a)[length + k] == a[k]);
            assert(temporary(length, b)[length + k] == b[k]);
        }
        assert(file_key(a, folding) =~= file_key(b, folding));
    }
}

/// The canonical names of two different indices are under different keys.
proof fn lemma_targets_apart(
    i: nat,
    j: nat,
    count: nat,
    extension_i: Seq<char>,
    extension_j: Seq<char>,
    folding: bool,
)
    requires
        i < j < count,
    ensures
        file_key(canonical_name(i, count, extension_i), folding) != file_key(
            canonical_name(j, count, extension_j),
            folding,
        ),
{
    let at = lemma_canonical_names_differ(i, j, count, extension_i, extension_j);
    let a = canonical_name(i, count, extension_i);
    let b = canonical_name(j, count, extension_j);
    lemma_first_difference_from(a, b, 0);
    assert(file_key(a, folding)[at] == a[at]);
    assert(file_key(b, folding)[at] == b[at]);
}

/// A canonical name begins with a digit, so with no underscore.
proof fn lemma_target_has_no_underscore(i: nat, count: nat, extension: Seq<char>)
    requires
        i < count,
    ensures
        leading_underscores(canonical_name(i, count, extension)) == 0,
{
    let width = index_width(count);
    lemma_padded_width(i, count);
    lemma_decimal_text_digits(i, width);
    lemma_digits_positive((count - 1) as nat);
    assert(canonical_name(i, count, extension)[0] == decimal_text(i, width)[0]);
}

/// The planned renames destroy nothing; see `lemma_plan_destroys_nothing`.
proof fn lemma_planned_steps_destroy_nothing<T>(
    sources: Seq<Seq<char>>,
    others: Seq<Seq<char>>,
    targets: Seq<Seq<char>>,
    dir: Map<Seq<char>, T>,
    folding: bool,
)
    requires
        targets.len() == sources.len(),
        forall|i: int|
            0 <= i < sources.len() ==> canonical_for(
                #[trigger] sources[i],
                i as nat,
                sources.len() as nat,
            ) == Some(targets[i]),
        forall|i: int| 0 <= i < targets.len() ==> !alias_among(#[trigger] targets[i], others),
        file_keys(sources, folding).no_duplicates(),
        forall|i: int|
            0 <= i < sources.len() ==> dir.dom().contains(file_key(#[trigger] sources[i], folding)),
        forall|k: Seq<char>| #[trigger]
            dir.dom().contains(k) ==> file_keys(sources, folding).contains(k) || file_keys(
                others,
                folding,
            ).contains(k),
    ensures
        run(dir, keyed(planned_steps(sources, others, targets), folding)) matches Some(after)
            && relocated(dir, after, file_keys(sources, folding), file_keys(targets, folding)),
{
    let count = sources.len();
    let from_keys = file_keys(sources, folding);
    let to_keys = file_keys(targets, folding);
    let other_keys = file_keys(others, folding);
    assert(to_keys.no_duplicates()) by {
        assert forall|i: int, j: int| 0 <= i < j < to_keys.len() implies to_keys[i]
            != to_keys[j] by {
            assert(canonical_for(sources[i], i as nat, count) == Some(targets[i]));
            assert(canonical_for(sources[j], j as nat, count) == Some(targets[j]));
            lemma_targets_apart(
                i as nat,
                j as nat,
                count,
                extension_of(sources[i])->0,
                extension_of(sources[j])->0,
                folding,
            );
        }
    }
    assert forall|i: int| 0 <= i < count implies !other_keys.contains(#[trigger] to_keys[i]) by {
        if other_keys.contains(to_keys[i]) {
            let j = choose|j: int| 0 <= j < other_keys.len() && other_keys[j] == to_keys[i];
            assert(alias(targets[i], others[j]));
            assert(alias_among(targets[i], others));
        }
    }
    if collides(sources, targets) {
        let length = marker_length(sources + others);
        let held = temporaries(length, sources);
        let held_keys = file_keys(held, folding);
        assert(length >= 1) by {
            let i = choose|i: int, j: int|
                0 <= i < targets.len() && 0 <= j < sources.len() && alias(
                    #[trigger] targets[i],
                    #[trigger] sources[j],
                );
            lemma_marker_length(sources + others, 0);
        }
        assert(held_keys.no_duplicates()) by {
            assert forall|i: int, j: int| 0 <= i < j < held_keys.len() implies held_keys[i]
                != held_keys[j] by {
                assert(from_keys[i] != from_keys[j]);
                lemma_temporaries_apart(length, sources[i], sources[j], folding);
            }
        }
        assert forall|i: int| 0 <= i < count implies !dir.dom().contains(
            #[trigger] held_keys[i],
        ) by {
            let k = held_keys[i];
            if dir.dom().contains(k) {
                if from_keys.contains(k) {
                    let j = choose|j: int| 0 <= j < from_keys.len() && from_keys[j] == k;
                    assert((sources + others)[j] == sources[j]);
                    lemma_marker_length(sources + others, j);
                    lemma_underscores_from(sources[j], 0);
                    lemma_temporary_is_free(length, sources[i], sources[j], folding);
                } else {
                    let j = choose|j: int| 0 <= j < other_keys.len() && other_keys[j] == k;
                    assert((sources + others)[count + j] == others[j]);
                    lemma_marker_length(sources + others, count + j);
                    lemma_underscores_from(others[j], 0);
                    lemma_temporary_is_free(length, sources[i], others[j], folding);
                }
            }
        }
        lemma_batch(dir, from_keys, held_keys);
        let between = run(dir, pairs(from_keys, held_keys))->0;
        assert forall|i: int| 0 <= i < count implies !between.dom().contains(
            #[trigger] to_keys[i],
        ) by {
            let k = to_keys[i];
            if between.dom().contains(k) {
                assert(canonical_for(sources[i], i as nat, count) == Some(targets[i]));
                lemma_target_has_no_underscore(i as nat, count, extension_of(sources[i])->0);
                if held_keys.contains(k) {
                    let j = choose|j: int| 0 <= j < held_keys.len() && held_keys[j] == k;
                    lemma_temporary_is_free(length, sources[j], targets[i], folding);
                } else {
                    assert(dir.dom().contains(k) && !from_keys.contains(k));
                    assert(other_keys.contains(k));
                }
            }
        }
        lemma_batch(between, held_keys, to_keys);
        let after = run(between, pairs(held_keys, to_keys))->0;
        lemma_run_in_a_row(dir, pairs(from_keys, held_keys), pairs(held_keys, to_keys));
        assert(keyed(planned_steps(sources, others, targets), folding) =~= pairs(
            from_keys,
            held_keys,
        ) + pairs(held_keys, to_keys));
        assert forall|i: int| 0 <= i < from_keys.len() implies after.dom().contains(
            #[trigger] to_keys[i],
        ) && after[to_keys[i]] == dir[from_keys[i]] by {
            assert(between.dom().contains(held_keys[i]));
        }
        assert forall|k: Seq<char>|
            dir.dom().contains(k) && !from_keys.contains(k) implies #[trigger] after.dom().contains(
            k,
        ) && after[k] == dir[k] by {
            assert(between.dom().contains(k));
            assert(between[k] == dir[k]);
            if held_keys.contains(k) {
                let j = choose|j: int| 0 <= j < held_keys.len() && held_keys[j] == k;
                assert(!dir.dom().contains(held_keys[j]));
            }
            assert(after.dom().contains(k));
            assert(after[k] == between[k]);
        }
        assert forall|k: Seq<char>| #[trigger] after.dom().contains(k) implies to_keys.contains(k)
            || (dir.dom().contains(k) && !from_keys.contains(k)) by {
            if !to_keys.contains(k) {
                assert(between.dom().contains(k) && !held_keys.contains(k));
            }
        }
    } else {
        assert forall|i: int| 0 <= i < count implies !dir.dom().contains(#[trigger] to_keys[i]) by {
            let k = to_keys[i];
            if dir.dom().contains(k) {
                assert(from_keys.contains(k));
                let j = choose|j: int| 0 <= j < from_keys.len() && from_keys[j] == k;
                assert(alias(targets[i], sources[j]));
            }
        }
        lemma_batch(dir, from_keys, to_keys);
        assert(keyed(planned_steps(sources, others, targets), folding) =~= pairs(
            from_keys,
            to_keys,
        ));
    }
}

/// One rename of a file inside its directory.
#[derive(Clone, Debug, PartialEq, Eq)]
pub struct RenameStep {
    pub from: String,
    pub to: String,
}

impl View for RenameStep {
    type V = (Seq<char>, Seq<char>);

    /// The old name and the new name.
    open spec fn view(&self) -> (Seq<char>, Seq<char>) {
        (self.from@, self.to@)
    }
}

/// A list of renames as pairs of an old and a new name.
pub open spec fn steps_of(steps: Seq<RenameStep>) -> Seq<(Seq<char>, Seq<char>)> {
    steps.map_values(|step: RenameStep| step@)
}

/// The canonical names of a directory's images and the renames that give
/// them these names, to be carried out in order.
#[derive(Clone, Debug, PartialEq, Eq)]
pub struct RenamePlan {
    /// The canonical name of each source, index by index.
    pub names: Vec<String>,
    pub steps: Vec<RenameStep>,
}

impl RenamePlan {
    /// The plan is the one for the given sources and other entries: its
    /// names are the canonical names of the sources, none of them the name
    /// or an alias of another entry, and its renames are the planned ones.
    pub open spec fn is_for(&self, sources: Seq<Seq<char>>, others: Seq<Seq<char>>) -> bool {
        &&& self.names.len() == sources.len()
        &&& forall|i: int|
            0 <= i < sources.len() ==> canonical_for(
                #[trigger] sources[i],
                i as nat,
                sources.len() as nat,
            ) == Some(self.names[i]@)
        &&& forall|i: int|
            0 <= i < sources.len() ==> !alias_among(#[trigger] texts(self.names@)[i], others)
        &&& steps_of(self.steps@) == planned_steps(sources, others, texts(self.names@))
    }
}

/// The plan destroys nothing, on a file system that tells names apart by
/// case as on one that folds case.
///
/// Take a directory in which every source is a file of its own, and which
/// holds no file besides the sources and the other entries. Take the
/// canonical names as targets, none of them an alias of another entry. Then
/// every rename of the plan can be carried out when its turn comes: its
/// source exists and nothing stands under its new name. Afterwards the
/// content of each source stands under its canonical name, every other
/// entry is where it was, and the directory holds nothing else.
pub proof fn lemma_plan_destroys_nothing<T>(
    plan: RenamePlan,
    sources: Seq<Seq<char>>,
    others: Seq<Seq<char>>,
    dir: Map<Seq<char>, T>,
    folding: bool,
)
    requires
        plan.is_for(sources, others),
        file_keys(sources, folding).no_duplicates(),
        forall|i: int|
            0 <= i < sources.len() ==> dir.dom().contains(file_key(#[trigger] sources[i], folding)),
        forall|k: Seq<char>| #[trigger]
            dir.dom().contains(k) ==> file_keys(sources, folding).contains(k) || file_keys(
                others,
                folding,
            ).contains(k),
    ensures
        run(dir, keyed(steps_of(plan.steps@), folding)) matches Some(after) && relocated(
            dir,
            after,
            file_keys(sources, folding),
            file_keys(texts(plan.names@), folding),
        ),
{
    let targets = texts(plan.names@);
    assert forall|i: int| 0 <= i < sources.len() implies canonical_for(
        #[trigger] sources[i],
        i as nat,
        sources.len() as nat,
    ) == Some(targets[i]) by {}
    lemma_planned_steps_destroy_nothing(sources, others, targets, dir, folding);
}

/// Why a directory's images cannot be renamed.
#[derive(Clone, Debug, PartialEq, Eq)]
pub enum PlanError {
    /// The source at `index` has no extension.
    MissingExtension { index: usize },
    /// The canonical name of the source at `index`, which is `name`, is the
    /// name, or an alias of the name, of an entry that is none of the
    /// sources.
    TargetTaken { index: usize, name: String },
}

/// The names of a list in ASCII upper case.
fn folded(names: &Vec<String>) -> (r: Vec<Vec<char>>)
    ensures
        r.len() == names.len(),
        forall|i: int| 0 <= i < names.len() ==> (#[trigger] r[i])@ == upper_text(names[i]@),
{
    let mut r: Vec<Vec<char>> = Vec::new();
    let mut i: usize = 0;
    while i < names.len()
        invariant
            i <= names.len(),
            r.len() == i,
            forall|j: int| 0 <= j < i ==> (#[trigger] r[j])@ == upper_text(names[j]@),
        decreases names.len() - i,
    {
        r.push(upper_chars(&chars_of(names[i].as_str())));
        i += 1;
    }
    r
}

/// Whether a text is one of the texts of a list.
fn is_among(text: &Vec<char>, list: &Vec<Vec<char>>) -> (found: bool)
    ensures
        found == exists|j: int| 0 <= j < list.len() && (#[trigger] list[j])@ == text@,
{
    let mut j: usize = 0;
    while j < list.len()
        invariant
            j <= list.len(),
            forall|k: int| 0 <= k < j ==> (#[trigger] list[k])@ != text@,
        decreases list.len() - j,
    {
        if same_chars(&list[j], text) {
            return true;
        }
        j += 1;
    }
    false
}

/// The number of underscores at the start of a name.
fn count_underscores(name: &Vec<char>) -> (count: usize)
    ensures
        count == leading_underscores(name@),
        count <= name.len(),
{
    let mut i: usize = 0;
    while i < name.len() && name[i] == '_'
        invariant
            i <= name.len(),
            leading_underscores(name@) == underscores_from(name@, i as int),
        decreases name.len() - i,
    {
        i += 1;
    }
    i
}

/// Lengthens the marker until it is longer than the leading underscores of
/// every name of the list.
fn lengthen_marker(mark: &mut Vec<char>, names: &Vec<String>, Ghost(before): Ghost<Seq<Seq<char>>>)
    requires
        old(mark)@ == marker(marker_length(before)),
        marker_length(before) >= 1,
    ensures
        final(mark)@ == marker(marker_length(before + texts(names@))),
        marker_length(before + texts(names@)) >= 1,
{
    let mut i: usize = 0;
    assert(before + texts(names@).take(0) == before);
    while i < names.len()
        invariant
            i <= names.len(),
            mark@ == marker(marker_length(before + texts(names@).take(i as int))),
            marker_length(before + texts(names@).take(i as int)) >= 1,
        decreases names.len() - i,
    {
        let ghost seen = before + texts(names@).take(i as int);
        let ghost next = before + texts(names@).take(i + 1);
        assert(next.drop_last() == seen);
        assert(next.last() == names[i as int]@);
        let lead: usize = count_underscores(&chars_of(names[i].as_str()));
        while mark.len() <= lead
            invariant
                mark@ == marker(mark.len() as int),
                mark.len() >= marker_length(seen),
                mark.len() == marker_length(seen) || mark.len() <= lead + 1,
            decreases lead + 1 - mark.len(),
        {
            mark.push('_');
            assert(mark@ =~= marker(mark.len() as int));
        }
        i += 1;
    }
    assert(texts(names@).take(names.len() as int) == texts(names@));
}

/// The canonical names of a directory's images, and the renames that give
/// the images these names without overwriting any file.
///
/// `sources` are the names of the images in their final order, `others` the
/// names of every other entry of the directory. A source without an
/// extension has no canonical name, and a canonical name that another entry
/// already answers to cannot be given: these are the two errors, each with
/// the first source it holds of. Otherwise the renames are those of
/// `planned_steps`: of each source to its name where no name is an alias of
/// a source, and through temporary names where one is.
pub fn plan_renames(sources: &Vec<String>, others: &Vec<String>) -> (r: Result<
    RenamePlan,
    PlanError,
>)
    ensures
        r is Ok <==> can_be_named(texts(sources@), texts(others@)),
        match r {
            Ok(plan) => plan.is_for(texts(sources@), texts(others@)),
            Err(PlanError::MissingExtension { index }) => {
                &&& index < sources.len()
                &&& extension_of(sources[index as int]@) is None
                &&& forall|i: int|
                    0 <= i < index ==> extension_of(#[trigger] sources[i]@) is Some
            },
            Err(PlanError::TargetTaken { index, name }) => {
                &&& index < sources.len()
                &&& forall|i: int|
                    0 <= i < sources.len() ==> extension_of(#[trigger] sources[i]@) is Some
                &&& canonical_for(sources[index as int]@, index as nat, sources.len() as nat)
                    == Some(name@)
                &&& alias_among(name@, texts(others@))
                &&& forall|i: int|
                    0 <= i < index ==> !alias_among(
                        canonical_for(#[trigger] sources[i]@, i as nat, sources.len() as nat)->0,
                        texts(others@),
                    )
            },
        },
{
    let count: usize = sources.len();
    let names = match canonical_names(sources) {
        Ok(names) => names,
        Err(e) => {
            assert(canonical_for(
                texts(sources@)[e.index as int],
                e.index as nat,
                count as nat,
            ) is None);
            return Err(PlanError::MissingExtension { index: e.index });
        },
    };
    let folded_sources = folded(sources);
    let folded_others = folded(others);
    let folded_names = folded(&names);
    let ghost source_texts = texts(sources@);
    let ghost other_texts = texts(others@);
    let ghost name_texts = texts(names@);
    assert forall|i: int| 0 <= i < count implies extension_of(#[trigger] sources[i]@) is Some by {
        assert(canonical_for(sources[i]@, i as nat, count as nat) == Some(names[i]@));
    }
    let mut i: usize = 0;
    while i < count
        invariant
            i <= count,
            count == names.len(),
            count == sources.len(),
            forall|j: int|
                0 <= j < count ==> canonical_for(sources[j]@, j as nat, count as nat) == Some(
                    (#[trigger] names[j])@,
                ),
            forall|j: int| 0 <= j < count ==> extension_of(#[trigger] sources[j]@) is Some,
            other_texts == texts(others@),
            folded_others.len() == others.len(),
            folded_names.len() == count,
            forall|j: int|
                0 <= j < others.len() ==> (#[trigger] folded_others[j])@ == upper_text(others[j]@),
            forall|j: int|
                0 <= j < count ==> (#[trigger] folded_names[j])@ == upper_text(names[j]@),
            forall|j: int| 0 <= j < i ==> !alias_among((#[trigger] names[j])@, other_texts),
        decreases count - i,
    {
        let taken = is_among(&folded_names[i], &folded_others);
        proof {
            if taken {
                let j = choose|j: int|
                    0 <= j < folded_others.len() && (#[trigger] folded_others[j])@
                        == folded_names[i as int]@;
                assert(alias(names[i as int]@, other_texts[j]));
            } else if alias_among(names[i as int]@, other_texts) {
                let j = choose|j: int|
                    0 <= j < other_texts.len() && alias(names[i as int]@, #[trigger] other_texts[j]);
                assert(folded_others[j]@ == folded_names[i as int]@);
            }
        }
        if taken {
            proof {
                assert(canonical_for(sources[i as int]@, i as nat, count as nat) == Some(
                    names[i as int]@,
                ));
                assert forall|j: int| 0 <= j < i implies !alias_among(
                    canonical_for(#[trigger] sources[j]@, j as nat, count as nat)->0,
                    other_texts,
                ) by {
                    assert(canonical_for(sources[j]@, j as nat, count as nat) == Some(names[j]@));
                }
            }
            assert(canonical_for(texts(sources@)[i as int], i as nat, count as nat) == Some(
                names[i as int]@,
            ));
            return Err(PlanError::TargetTaken { index: i, name: names[i].clone() });
        }
        i += 1;
    }
    let mut collision = false;
    let mut i: usize = 0;
    while i < count
        invariant
            i <= count,
            count == names.len(),
            count == sources.len(),
            source_texts == texts(sources@),
            name_texts == texts(names@),
            folded_sources.len() == count,
            folded_names.len() == count,
            forall|j: int|
                0 <= j < count ==> (#[trigger] folded_sources[j])@ == upper_text(sources[j]@),
            forall|j: int|
                0 <= j < count ==> (#[trigger] folded_names[j])@ == upper_text(names[j]@),
            collision ==> collides(source_texts, name_texts),
            !collision ==> forall|a: int, b: int|
                0 <= a < i && 0 <= b < count ==> !alias(
                    #[trigger] name_texts[a],
                    #[trigger] source_texts[b],
                ),
        decreases count - i,
    {
        if is_among(&folded_names[i], &folded_sources) {
            proof {
                let j = choose|j: int|
                    0 <= j < folded_sources.len() && (#[trigger] folded_sources[j])@
                        == folded_names[i as int]@;
                assert(alias(name_texts[i as int], source_texts[j]));
            }
            collision = true;
            i = count;
        } else {
            proof {
                assert forall|b: int| 0 <= b < count implies !alias(
                    name_texts[i as int],
                    #[trigger] source_texts[b],
                ) by {
                    if alias(name_texts[i as int], source_texts[b]) {
                        assert(folded_sources[b]@ == folded_names[i as int]@);
                    }
                }
            }
            i += 1;
        }
    }
    assert(collision == collides(source_texts, name_texts));
    let mut steps: Vec<RenameStep> = Vec::new();
    if collision {
        let mut mark: Vec<char> = Vec::new();
        mark.push('_');
        assert(mark@ =~= marker(marker_length(Seq::<Seq<char>>::empty())));
        lengthen_marker(&mut mark, sources, Ghost(Seq::empty()));
        assert(Seq::<Seq<char>>::empty() + source_texts == source_texts);
        lengthen_marker(&mut mark, others, Ghost(source_texts));
        let ghost length = marker_length(source_texts + other_texts);
        let ghost held = temporaries(length, source_texts);
        let mut held_names: Vec<String> = Vec::new();
        let mut i: usize = 0;
        while i < count
            invariant
                i <= count,
                count == sources.len(),
                source_texts == texts(sources@),
                held == temporaries(length, source_texts),
                mark@ == marker(length),
                held_names.len() == i,
                steps.len() == i,
                forall|j: int| 0 <= j < i ==> (#[trigger] held_names[j])@ == held[j],
                steps_of(steps@) == pairs(source_texts, held).take(i as int),
            decreases count - i,
        {
            let mut name: Vec<char> = mark.clone();
            let mut rest: Vec<char> = chars_of(sources[i].as_str());
            name.append(&mut rest);
            let to = string_of(&name);
            assert(to@ == held[i as int]);
            held_names.push(to.clone());
            steps.push(RenameStep { from: sources[i].clone(), to });
            assert(steps_of(steps@) =~= pairs(source_texts, held).take(i + 1));
            i += 1;
        }
        let mut i: usize = 0;
        assert(pairs(source_texts, held).take(count as int) == pairs(source_texts, held));
        while i < count
            invariant
                i <= count,
                count == sources.len(),
                count == names.len(),
                source_texts == texts(sources@),
                name_texts == texts(names@),
                held.len() == count,
                held_names.len() == count,
                steps.len() == count + i,
                forall|j: int| 0 <= j < count ==> (#[trigger] held_names[j])@ == held[j],
                steps_of(steps@) == pairs(source_texts, held) + pairs(held, name_texts).take(
                    i as int,
                ),
            decreases count - i,
        {
            let ghost before = steps@;
            steps.push(RenameStep { from: held_names[i].clone(), to: names[i].clone() });
            proof {
                let first = pairs(source_texts, held);
                let second = pairs(held, name_texts);
                assert(steps_of(steps@) =~= steps_of(before).push(second[i as int]));
                assert(second.take(i + 1) =~= second.take(i as int).push(second[i as int]));
                assert(first + second.take(i + 1) =~= (first + second.take(i as int)).push(
                    second[i as int],
                ));
            }
            i += 1;
        }
        assert(pairs(held, name_texts).take(count as int) == pairs(held, name_texts));
    } else {
        let mut i: usize = 0;
        while i < count
            invariant
                i <= count,
                count == sources.len(),
                count == names.len(),
                source_texts == texts(sources@),
                name_texts == texts(names@),
                steps.len() == i,
                steps_of(steps@) == pairs(source_texts, name_texts).take(i as int),
            decreases count - i,
        {
            steps.push(RenameStep { from: sources[i].clone(), to: names[i].clone() });
            assert(steps_of(steps@) =~= pairs(source_texts, name_texts).take(i + 1));
            i += 1;
        }
        assert(pairs(source_texts, name_texts).take(count as int) == pairs(
            source_texts,
            name_texts,
        ));
    }
    let plan = RenamePlan { names, steps };
    proof {
        assert forall|i: int| 0 <= i < count implies canonical_for(
            #[trigger] source_texts[i],
            i as nat,
            count as nat,
        ) == Some(plan.names[i]@) by {
            assert(canonical_for(sources[i]@, i as nat, count as nat) == Some(names[i]@));
        }
        assert forall|i: int| 0 <= i < count implies !alias_among(
            #[trigger] texts(plan.names@)[i],
            other_texts,
        ) by {
            assert(!alias_among(names[i]@, other_texts));
        }
    }
    Ok(plan)
}

} // verus!
