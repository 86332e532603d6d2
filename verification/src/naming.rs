//! Canonical names: a zero-padded index, a dot and the normalized extension.

use vstd::prelude::*;
use vstd::arithmetic::div_mod::{lemma_breakdown, lemma_small_mod};
use crate::natural::{digit_runs, lemma_runs_after_break, natural_order};
use crate::order::{
    first_difference, lemma_first_difference_at, lemma_first_difference_from,
    lemma_lexicographic_equal, lexicographic_order, Order,
};
use crate::text::{
    char_of_digit, chars_of, digit_char, digit_of, is_digit, same_chars, string_of, texts,
    upper_chars, upper_text,
};

verus! {

/// The number of decimal digits of a number; zero has one digit.
pub open spec fn decimal_digits(n: nat) -> nat
    decreases n,
{
    if n < 10 {
        1
    } else {
        1 + decimal_digits(n / 10)
    }
}

/// Ten to the power `e`.
pub open spec fn pow10(e: nat) -> nat
    decreases e,
{
    if e == 0 {
        1
    } else {
        10 * pow10((e - 1) as nat)
    }
}

/// The last `width` decimal digits of a number, most significant first.
pub open spec fn decimal_text(n: nat, width: nat) -> Seq<char>
    decreases width,
{
    if width == 0 {
        Seq::empty()
    } else {
        decimal_text(n / 10, (width - 1) as nat).push(digit_char(n % 10))
    }
}

/// The decimal digits of a number, with zeros in front up to `width`
/// characters. A number with more digits than `width` keeps them all.
pub open spec fn zero_padded(n: nat, width: nat) -> Seq<char> {
    if width < decimal_digits(n) {
        decimal_text(n, decimal_digits(n))
    } else {
        decimal_text(n, width)
    }
}

/// The width of the index in the names of `count` entries: the number of
/// digits of the largest index, and one where there is no entry.
pub open spec fn index_width(count: nat) -> nat {
    if count <= 1 {
        1
    } else {
        decimal_digits((count - 1) as nat)
    }
}

/// The index of the last dot of a text.
pub open spec fn last_dot(s: Seq<char>) -> Option<int>
    decreases s.len(),
{
    if s.len() == 0 {
        None
    } else if s.last() == '.' {
        Some(s.len() - 1)
    } else {
        last_dot(s.drop_last())
    }
}

/// The extension of a file name: what follows its last dot. A name without a
/// dot has none, and neither has a name whose only dot is its first
/// character.
pub open spec fn extension_of(name: Seq<char>) -> Option<Seq<char>> {
    match last_dot(name) {
        Some(p) => if p > 0 {
            Some(name.subrange(p + 1, name.len() as int))
        } else {
            None
        },
        None => None,
    }
}

/// An extension in the form that canonical names carry: in ASCII upper case,
/// with `JPEG` written `JPG`.
pub open spec fn normalized(extension: Seq<char>) -> Seq<char> {
    let upper = upper_text(extension);
    if upper == seq!['J', 'P', 'E', 'G'] {
        seq!['J', 'P', 'G']
    } else {
        upper
    }
}

/// The canonical name of the entry at `index` among `count` entries.
pub open spec fn canonical_name(index: nat, count: nat, extension: Seq<char>) -> Seq<char> {
    zero_padded(index, index_width(count)) + seq!['.'] + normalized(extension)
}

/// The canonical name of a source name at `index` among `count` entries; a
/// source name without an extension has none.
pub open spec fn canonical_for(source: Seq<char>, index: nat, count: nat) -> Option<Seq<char>> {
    match extension_of(source) {
        Some(extension) => Some(canonical_name(index, count, extension)),
        None => None,
    }
}

/// Whether the extension of a name is one of the recognized ones, without
/// regard to ASCII case.
pub open spec fn is_recognized(name: Seq<char>, recognized: Seq<Seq<char>>) -> bool {
    match extension_of(name) {
        Some(extension) => exists|i: int|
            0 <= i < recognized.len() && upper_text(#[trigger] recognized[i]) == upper_text(
                extension,
            ),
        None => false,
    }
}

/// Every number has at least one digit.
pub proof fn lemma_digits_positive(n: nat)
    ensures
        decimal_digits(n) >= 1,
    decreases n,
{
    if n >= 10 {
        lemma_digits_positive(n / 10);
    }
}

/// A number is below ten to the power of its number of digits, and has no
/// more digits than any power of ten above it has zeros.
pub proof fn lemma_digits_bound(n: nat, e: nat)
    ensures
        n < pow10(decimal_digits(n)),
        n < pow10(e) && e >= 1 ==> decimal_digits(n) <= e,
    decreases n,
{
    if n >= 10 {
        lemma_digits_bound(n / 10, (e - 1) as nat);
        if e >= 1 && n < pow10(e) {
            assert(e >= 2) by {
                reveal_with_fuel(pow10, 2);
            }
        }
    } else {
        reveal_with_fuel(pow10, 2);
    }
}

/// A smaller number has no more digits.
pub proof fn lemma_digits_monotonic(a: nat, b: nat)
    requires
        a <= b,
    ensures
        decimal_digits(a) <= decimal_digits(b),
    decreases b,
{
    if a >= 10 {
        lemma_digits_monotonic(a / 10, b / 10);
    } else {
        lemma_digits_positive(b);
    }
}

/// A decimal text is as long as its width.
pub proof fn lemma_decimal_text_len(n: nat, width: nat)
    ensures
        decimal_text(n, width).len() == width,
    decreases width,
{
    if width > 0 {
        lemma_decimal_text_len(n / 10, (width - 1) as nat);
    }
}

/// Every character of a decimal text is a digit.
pub proof fn lemma_decimal_text_digits(n: nat, width: nat)
    ensures
        forall|k: int| 0 <= k < width ==> is_digit(#[trigger] decimal_text(n, width)[k]),
    decreases width,
{
    lemma_decimal_text_len(n, width);
    if width > 0 {
        lemma_decimal_text_digits(n / 10, (width - 1) as nat);
        lemma_decimal_text_len(n / 10, (width - 1) as nat);
    }
}

/// Every index below `count` is padded to exactly the width of `count`.
pub proof fn lemma_padded_width(index: nat, count: nat)
    requires
        index < count,
    ensures
        zero_padded(index, index_width(count)) == decimal_text(index, index_width(count)),
        zero_padded(index, index_width(count)).len() == index_width(count),
        index < pow10(index_width(count)),
{
    lemma_decimal_text_len(index, index_width(count));
    if count <= 1 {
        reveal_with_fuel(pow10, 2);
    } else {
        lemma_digits_monotonic(index, (count - 1) as nat);
        lemma_digits_bound((count - 1) as nat, 0);
    }
}

/// Of two numbers written with the same width, wide enough for both, the
/// smaller comes first in lexicographic order: the texts differ at some
/// position, and at the first such position the smaller number has the
/// smaller digit.
pub proof fn lemma_decimal_text_order(a: nat, b: nat, width: nat)
    requires
        a < b < pow10(width),
    ensures
        first_difference(decimal_text(a, width), decimal_text(b, width)) matches Some(i) && i
            < width && decimal_text(a, width)[i] < decimal_text(b, width)[i],
    decreases width,
{
    let ta = decimal_text(a, width);
    let tb = decimal_text(b, width);
    lemma_decimal_text_len(a, width);
    lemma_decimal_text_len(b, width);
    assert(width > 0);
    let fa = decimal_text(a / 10, (width - 1) as nat);
    let fb = decimal_text(b / 10, (width - 1) as nat);
    lemma_decimal_text_len(a / 10, (width - 1) as nat);
    lemma_decimal_text_len(b / 10, (width - 1) as nat);
    if a / 10 < b / 10 {
        lemma_decimal_text_order(a / 10, b / 10, (width - 1) as nat);
        let i = first_difference(fa, fb)->0;
        lemma_first_difference_from(fa, fb, 0);
        lemma_first_difference_at(ta, tb, i);
    } else {
        assert(a / 10 == b / 10);
        assert(a % 10 < b % 10);
        lemma_first_difference_at(ta, tb, width - 1);
    }
}

/// The names of two different indices differ within the padded index, at a
/// position where both hold a digit, and the name of the smaller index holds
/// the smaller one there.
pub proof fn lemma_canonical_names_differ(
    i: nat,
    j: nat,
    count: nat,
    extension_i: Seq<char>,
    extension_j: Seq<char>,
) -> (at: int)
    requires
        i < j < count,
    ensures
        0 <= at < index_width(count),
        first_difference(
            canonical_name(i, count, extension_i),
            canonical_name(j, count, extension_j),
        ) == Some(at),
        is_digit(canonical_name(i, count, extension_i)[at]),
        is_digit(canonical_name(j, count, extension_j)[at]),
        canonical_name(i, count, extension_i)[at] < canonical_name(j, count, extension_j)[at],
        forall|k: int|
            0 <= k < index_width(count) ==> is_digit(
                #[trigger] canonical_name(i, count, extension_i)[k],
            ),
{
    let width = index_width(count);
    let name_i = canonical_name(i, count, extension_i);
    let name_j = canonical_name(j, count, extension_j);
    lemma_padded_width(i, count);
    lemma_padded_width(j, count);
    lemma_decimal_text_order(i, j, width);
    let ti = decimal_text(i, width);
    let tj = decimal_text(j, width);
    let at = first_difference(ti, tj)->0;
    lemma_first_difference_from(ti, tj, 0);
    lemma_decimal_text_digits(i, width);
    lemma_decimal_text_digits(j, width);
    assert forall|k: int| 0 <= k < width implies name_i[k] == ti[k] && name_j[k] == tj[k] by {}
    lemma_first_difference_at(name_i, name_j, at);
    at
}

/// A decimal text is one run of digits, and its value is the number, as far
/// as the width holds it.
pub proof fn lemma_decimal_text_runs(n: nat, width: nat)
    requires
        width >= 1,
    ensures
        digit_runs(decimal_text(n, width)) == seq![n % pow10(width)],
    decreases width,
{
    let text = decimal_text(n, width);
    let front = decimal_text(n / 10, (width - 1) as nat);
    assert(text.drop_last() == front);
    assert(digit_of(text.last()) == n % 10);
    lemma_decimal_text_len(n / 10, (width - 1) as nat);
    assert(is_digit(text.last()));
    if width == 1 {
        reveal_with_fuel(pow10, 2);
        assert(front.len() == 0);
        assert(digit_runs(front) =~= Seq::<nat>::empty());
        assert(digit_runs(text) =~= seq![n % 10]);
    } else {
        lemma_decimal_text_digits(n / 10, (width - 1) as nat);
        lemma_decimal_text_runs(n / 10, (width - 1) as nat);
        let p = pow10((width - 1) as nat);
        lemma_pow10_positive((width - 1) as nat);
        lemma_breakdown(n as int, 10, p as int);
        assert(pow10(width) == 10 * p);
        assert(digit_runs(text) =~= seq![n % pow10(width)]);
    }
}

/// No power of ten is zero.
pub proof fn lemma_pow10_positive(e: nat)
    ensures
        pow10(e) > 0,
    decreases e,
{
    if e > 0 {
        lemma_pow10_positive((e - 1) as nat);
    }
}

/// The first number in a canonical name is its index, so that canonical
/// names are in natural order as they are in lexicographic order: taking
/// canonical names for sources changes nothing in their order.
pub proof fn lemma_canonical_names_natural(
    i: nat,
    j: nat,
    count: nat,
    extension_i: Seq<char>,
    extension_j: Seq<char>,
)
    requires
        i < j < count,
    ensures
        digit_runs(canonical_name(i, count, extension_i)).len() >= 1,
        digit_runs(canonical_name(i, count, extension_i))[0] == i,
        digit_runs(canonical_name(j, count, extension_j))[0] == j,
        natural_order(
            canonical_name(i, count, extension_i),
            canonical_name(j, count, extension_j),
        ) == Order::Less,
{
    lemma_canonical_index(i, count, extension_i);
    lemma_canonical_index(j, count, extension_j);
    lemma_first_difference_at(
        digit_runs(canonical_name(i, count, extension_i)),
        digit_runs(canonical_name(j, count, extension_j)),
        0,
    );
}

/// The first number in a canonical name is its index.
pub proof fn lemma_canonical_index(index: nat, count: nat, extension: Seq<char>)
    requires
        index < count,
    ensures
        digit_runs(canonical_name(index, count, extension)).len() >= 1,
        digit_runs(canonical_name(index, count, extension))[0] == index,
{
    let width = index_width(count);
    let padded = decimal_text(index, width);
    let rest = normalized(extension);
    lemma_padded_width(index, count);
    lemma_digits_positive((count - 1) as nat);
    lemma_decimal_text_runs(index, width);
    lemma_small_mod(index, pow10(width));
    assert(canonical_name(index, count, extension) == padded.push('.') + rest);
    lemma_runs_after_break(padded.push('.'), rest);
    assert(padded.push('.').drop_last() == padded);
    assert(digit_runs(padded.push('.')) == digit_runs(padded));
}

/// Canonical names sort as their indices do: the name of a smaller index
/// comes before the name of a larger one in lexicographic order, whatever
/// the extensions are. So the names of one list are pairwise distinct, and
/// sorting them as plain text gives back the order of the list.
pub proof fn lemma_canonical_names_ordered(
    i: nat,
    j: nat,
    count: nat,
    extension_i: Seq<char>,
    extension_j: Seq<char>,
)
    requires
        i < j < count,
    ensures
        lexicographic_order(
            canonical_name(i, count, extension_i),
            canonical_name(j, count, extension_j),
        ) == Order::Less,
        canonical_name(i, count, extension_i) != canonical_name(j, count, extension_j),
{
    let name_i = canonical_name(i, count, extension_i);
    let name_j = canonical_name(j, count, extension_j);
    let at = lemma_canonical_names_differ(i, j, count, extension_i, extension_j);
    lemma_lexicographic_equal(name_i, name_j);
}

/// The number of decimal digits of `i`; zero has one digit.
pub fn digit(i: usize) -> (count: usize)
    ensures
        count == decimal_digits(i as nat),
        1 <= count <= 20,
{
    let mut count: usize = 1;
    let mut rest: usize = i;
    proof {
        lemma_digits_bound(i as nat, 20);
        assert(pow10(20) == 100_000_000_000_000_000_000nat) by {
            reveal_with_fuel(pow10, 21);
        }
        lemma_digits_positive(i as nat);
    }
    while rest >= 10
        invariant
            1 <= count,
            count - 1 + decimal_digits(rest as nat) == decimal_digits(i as nat),
            decimal_digits(i as nat) <= 20,
        decreases rest,
    {
        proof {
            lemma_digits_positive((rest / 10) as nat);
        }
        rest = rest / 10;
        count = count + 1;
    }
    count
}

/// The width of the index in the names of `count` entries.
pub fn padding_width(count: usize) -> (width: usize)
    ensures
        width == index_width(count as nat),
        1 <= width <= 20,
{
    if count <= 1 {
        1
    } else {
        digit(count - 1)
    }
}

/// Appends the last `width` decimal digits of `n` to `out`.
fn push_decimal(out: &mut Vec<char>, n: usize, width: usize)
    ensures
        final(out)@ == old(out)@ + decimal_text(n as nat, width as nat),
    decreases width,
{
    if width > 0 {
        push_decimal(out, n / 10, width - 1);
        out.push(char_of_digit((n % 10) as u8));
    }
}

/// The decimal digits of `n`, with zeros in front up to `width` characters.
pub fn zero_pad(n: usize, width: usize) -> (text: String)
    ensures
        text@ == zero_padded(n as nat, width as nat),
{
    let digits: usize = digit(n);
    let mut out: Vec<char> = Vec::new();
    if width < digits {
        push_decimal(&mut out, n, digits);
    } else {
        push_decimal(&mut out, n, width);
    }
    string_of(&out)
}

/// The position of the last dot among the characters of a name.
fn find_last_dot(name: &Vec<char>) -> (r: Option<usize>)
    ensures
        match r {
            Some(p) => last_dot(name@) == Some(p as int) && p < name.len(),
            None => last_dot(name@) is None,
        },
{
    let mut end: usize = name.len();
    assert(name@.take(end as int) == name@);
    while end > 0
        invariant
            end <= name.len(),
            last_dot(name@) == last_dot(name@.take(end as int)),
        decreases end,
    {
        assert(name@.take(end as int).drop_last() == name@.take(end - 1));
        if name[end - 1] == '.' {
            return Some(end - 1);
        }
        end -= 1;
    }
    None
}

/// The characters of the extension of a name.
fn extension_chars(name: &Vec<char>) -> (r: Option<Vec<char>>)
    ensures
        match r {
            Some(extension) => extension_of(name@) == Some(extension@),
            None => extension_of(name@) is None,
        },
{
    match find_last_dot(name) {
        Some(p) => {
            if p == 0 {
                return None;
            }
            let mut extension: Vec<char> = Vec::new();
            let mut i: usize = p + 1;
            while i < name.len()
                invariant
                    p + 1 <= i <= name.len(),
                    extension@ == name@.subrange(p + 1, i as int),
                decreases name.len() - i,
            {
                extension.push(name[i]);
                i += 1;
            }
            Some(extension)
        },
        None => None,
    }
}

/// The characters of an extension in normalized form.
fn normalized_chars(extension: &Vec<char>) -> (r: Vec<char>)
    ensures
        r@ == normalized(extension@),
{
    let upper = upper_chars(extension);
    if upper.len() == 4 && upper[0] == 'J' && upper[1] == 'P' && upper[2] == 'E' && upper[3]
        == 'G' {
        assert(upper@ =~= seq!['J', 'P', 'E', 'G']);
        let mut short: Vec<char> = Vec::new();
        short.push('J');
        short.push('P');
        short.push('G');
        assert(short@ =~= seq!['J', 'P', 'G']);
        short
    } else {
        assert(upper@ != seq!['J', 'P', 'E', 'G']) by {
            if upper@ == seq!['J', 'P', 'E', 'G'] {
                assert(seq!['J', 'P', 'E', 'G'].len() == 4);
                assert(seq!['J', 'P', 'E', 'G'][0] == 'J');
                assert(seq!['J', 'P', 'E', 'G'][1] == 'P');
                assert(seq!['J', 'P', 'E', 'G'][2] == 'E');
                assert(seq!['J', 'P', 'E', 'G'][3] == 'G');
            }
        }
        upper
    }
}

/// The extension of a file name, as it stands in the name.
pub fn extension(name: &str) -> (r: Option<String>)
    ensures
        match r {
            Some(extension) => extension_of(name@) == Some(extension@),
            None => extension_of(name@) is None,
        },
{
    match extension_chars(&chars_of(name)) {
        Some(extension) => Some(string_of(&extension)),
        None => None,
    }
}

/// The extension of a file name in normalized form.
pub fn normalized_extension(name: &str) -> (r: Option<String>)
    ensures
        match r {
            Some(extension) => extension_of(name@) matches Some(e) && extension@ == normalized(e),
            None => extension_of(name@) is None,
        },
{
    match extension_chars(&chars_of(name)) {
        Some(extension) => Some(string_of(&normalized_chars(&extension))),
        None => None,
    }
}

/// The extensions that are recognized where the caller names no others.
pub fn default_extensions() -> (r: Vec<String>)
    ensures
        texts(r@) == seq![
            "AVIF"@,
            "GIF"@,
            "HEIC"@,
            "JPEG"@,
            "JPG"@,
            "PNG"@,
            "TIF"@,
            "TIFF"@,
            "WEBP"@,
        ],
{
    let mut r: Vec<String> = Vec::new();
    r.push("AVIF".to_owned());
    r.push("GIF".to_owned());
    r.push("HEIC".to_owned());
    r.push("JPEG".to_owned());
    r.push("JPG".to_owned());
    r.push("PNG".to_owned());
    r.push("TIF".to_owned());
    r.push("TIFF".to_owned());
    r.push("WEBP".to_owned());
    assert(texts(r@) =~= seq![
        "AVIF"@,
        "GIF"@,
        "HEIC"@,
        "JPEG"@,
        "JPG"@,
        "PNG"@,
        "TIF"@,
        "TIFF"@,
        "WEBP"@,
    ]);
    r
}

/// Whether a file name has one of the recognized extensions, without regard
/// to ASCII case.
pub fn is_image_name(name: &str, recognized: &Vec<String>) -> (b: bool)
    ensures
        b == is_recognized(name@, texts(recognized@)),
{
    let extension = match extension_chars(&chars_of(name)) {
        Some(extension) => upper_chars(&extension),
        None => {
            return false;
        },
    };
    let mut i: usize = 0;
    while i < recognized.len()
        invariant
            i <= recognized.len(),
            extension_of(name@) matches Some(e) && extension@ == upper_text(e),
            forall|j: int|
                0 <= j < i ==> upper_text(#[trigger] texts(recognized@)[j]) != extension@,
        decreases recognized.len() - i,
    {
        let candidate = upper_chars(&chars_of(recognized[i].as_str()));
        if same_chars(&candidate, &extension) {
            assert(upper_text(texts(recognized@)[i as int]) == extension@);
            return true;
        }
        i += 1;
    }
    false
}

/// The canonical name of a source name at `index` among `count` entries; a
/// source name without an extension has none.
pub fn canonical_name_for(source: &str, index: usize, count: usize) -> (r: Option<String>)
    ensures
        match r {
            Some(name) => canonical_for(source@, index as nat, count as nat) == Some(name@),
            None => canonical_for(source@, index as nat, count as nat) is None,
        },
{
    let mut extension = match extension_chars(&chars_of(source)) {
        Some(extension) => normalized_chars(&extension),
        None => {
            return None;
        },
    };
    let width: usize = padding_width(count);
    let digits: usize = digit(index);
    let mut name: Vec<char> = Vec::new();
    if width < digits {
        push_decimal(&mut name, index, digits);
    } else {
        push_decimal(&mut name, index, width);
    }
    name.push('.');
    name.append(&mut extension);
    assert(name@ =~= canonical_name(index as nat, count as nat, extension_of(source@)->0));
    Some(string_of(&name))
}

/// A file name without an extension.
#[derive(Clone, Copy, Debug, PartialEq, Eq, Structural)]
pub struct MissingExtension {
    /// The index of the first name that has no extension.
    pub index: usize,
}

/// The canonical names of a list of source names, index by index.
///
/// The name at index `i` is `i`, padded with zeros to the width of the
/// largest index, then a dot and the normalized extension of the source name
/// at `i`. There is a result exactly when every source name has an
/// extension; otherwise the first name without one is reported.
pub fn canonical_names(sources: &Vec<String>) -> (r: Result<Vec<String>, MissingExtension>)
    ensures
        match r {
            Ok(names) => {
                &&& names.len() == sources.len()
                &&& forall|i: int|
                    0 <= i < sources.len() ==> canonical_for(
                        sources[i]@,
                        i as nat,
                        sources.len() as nat,
                    ) == Some((#[trigger] names[i])@)
            },
            Err(e) => {
                &&& e.index < sources.len()
                &&& extension_of(sources[e.index as int]@) is None
                &&& forall|i: int|
                    0 <= i < e.index ==> extension_of(#[trigger] sources[i]@) is Some
            },
        },
{
    let count: usize = sources.len();
    let mut names: Vec<String> = Vec::new();
    let mut i: usize = 0;
    while i < count
        invariant
            i <= count,
            count == sources.len(),
            names.len() == i,
            forall|j: int|
                0 <= j < i ==> canonical_for(sources[j]@, j as nat, count as nat) == Some(
                    (#[trigger] names[j])@,
                ),
        decreases count - i,
    {
        match canonical_name_for(sources[i].as_str(), i, count) {
            Some(name) => {
                names.push(name);
            },
            None => {
                proof {
                    assert forall|j: int| 0 <= j < i implies extension_of(
                        #[trigger] sources[j]@,
                    ) is Some by {
                        assert(canonical_for(sources[j]@, j as nat, count as nat) == Some(
                            names[j]@,
                        ));
                    }
                }
                return Err(MissingExtension { index: i });
            },
        }
        i += 1;
    }
    Ok(names)
}

} // verus!
