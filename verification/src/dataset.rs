//! Datasets of keys paired with random alphanumeric strings.

use rand::Rng;
use vstd::prelude::*;

verus! {

/// The number of characters of every generated value.
pub const VALUE_LEN: usize = 30;

/// Keys of a random dataset are drawn from `0..KEY_RANGE`.
pub const KEY_RANGE: u32 = 10000;

/// `c` is an ASCII letter or digit.
pub open spec fn is_alphanumeric(c: char) -> bool {
    ||| ('0' <= c && c <= '9')
    ||| ('A' <= c && c <= 'Z')
    ||| ('a' <= c && c <= 'z')
}

/// `s` has `VALUE_LEN` characters, each an ASCII letter or digit.
pub open spec fn is_value(s: Seq<char>) -> bool {
    &&& s.len() == VALUE_LEN
    &&& forall|i: int| 0 <= i < s.len() ==> is_alphanumeric(#[trigger] s[i])
}

/// Draws a number uniformly from `0..upper` with `rand::thread_rng().gen_range`.
/// Its value depends on the random generator; only the range is promised.
#[verifier::external_body]
fn random_below(upper: u32) -> (r: u32)
    requires
        upper > 0,
    ensures
        r < upper,
{
    rand::thread_rng().gen_range(0..upper)
}

/// Draws one character of `rand::distributions::Alphanumeric` with
/// `rand::thread_rng().sample`: an ASCII letter or digit, chosen at random.
#[verifier::external_body]
fn random_alphanumeric() -> (c: char)
    ensures
        is_alphanumeric(c),
{
    char::from(rand::thread_rng().sample(rand::distributions::Alphanumeric))
}

/// `String::push`: appends `c` to `s`.
#[verifier::external_body]
fn string_push(s: &mut String, c: char)
    ensures
        final(s)@ == old(s)@.push(c),
{
    s.push(c)
}

/// A string of `VALUE_LEN` random ASCII letters and digits.
fn random_value() -> (value: String)
    ensures
        is_value(value@),
{
    let mut value = String::new();
    let mut i: usize = 0;
    while i < VALUE_LEN
        invariant
            i <= VALUE_LEN,
            value@.len() == i,
            forall|j: int| 0 <= j < i ==> is_alphanumeric(#[trigger] value@[j]),
        decreases VALUE_LEN - i,
    {
        let c = random_alphanumeric();
        string_push(&mut value, c);
        i = i + 1;
    }
    value
}

/// `size` pairs, each a random key below `KEY_RANGE` and a random value.
pub fn create_random_dataset(size: usize) -> (dataset: Vec<(u32, String)>)
    ensures
        dataset@.len() == size,
        forall|i: int|
            0 <= i < size ==> (#[trigger] dataset@[i]).0 < KEY_RANGE && is_value(dataset@[i].1@),
{
    let mut dataset: Vec<(u32, String)> = Vec::with_capacity(size);
    let mut n: usize = 0;
    while n < size
        invariant
            n <= size,
            dataset@.len() == n,
            forall|i: int|
                0 <= i < n ==> (#[trigger] dataset@[i]).0 < KEY_RANGE && is_value(dataset@[i].1@),
        decreases size - n,
    {
        let key = random_below(KEY_RANGE);
        let value = random_value();
        dataset.push((key, value));
        n = n + 1;
    }
    dataset
}

/// `size` pairs whose keys are `0, 1, ..., size - 1` in order, each with a
/// random value.
pub fn create_ordered_dataset(size: usize) -> (dataset: Vec<(usize, String)>)
    ensures
        dataset@.len() == size,
        forall|i: int| 0 <= i < size ==> (#[trigger] dataset@[i]).0 == i && is_value(dataset@[i].1@),
{
    let mut dataset: Vec<(usize, String)> = Vec::with_capacity(size);
    let mut n: usize = 0;
    while n < size
        invariant
            n <= size,
            dataset@.len() == n,
            forall|i: int| 0 <= i < n ==> (#[trigger] dataset@[i]).0 == i && is_value(dataset@[i].1@),
        decreases size - n,
    {
        let value = random_value();
        dataset.push((n, value));
        n = n + 1;
    }
    dataset
}

} // verus!
