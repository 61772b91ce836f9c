//! Comparing names: equality, prefixes and suffixes over characters.
use vstd::prelude::*;

verus! {

pub open spec fn starts_with(s: Seq<char>, prefix: Seq<char>) -> bool {
    prefix.len() <= s.len() && s.take(prefix.len() as int) == prefix
}

pub open spec fn ends_with(s: Seq<char>, suffix: Seq<char>) -> bool {
    suffix.len() <= s.len() && s.skip(s.len() - suffix.len()) == suffix
}

/// Whether a name is the given one.
pub fn is_name(s: &String, name: &str) -> (same: bool)
    ensures
        same == (s@ == name@),
{
    let other: String = name.to_owned();
    *s == other
}

/// Whether `part` stands in `s` at character `from`.
fn stands_at(s: &str, part: &str, from: usize) -> (same: bool)
    requires
        from + part@.len() <= s@.len(),
    ensures
        same == (s@.subrange(from as int, from + part@.len()) == part@),
{
    let n: usize = part.unicode_len();
    let len: usize = s.unicode_len();
    let mut i: usize = 0;
    while i < n
        invariant
            i <= n,
            n == part@.len(),
            from + n <= s@.len(),
            len == s@.len(),
            forall|k: int| 0 <= k < i ==> s@[from + k] == #[trigger] part@[k],
        decreases n - i,
    {
        if s.get_char(from + i) != part.get_char(i) {
            assert(s@.subrange(from as int, from + part@.len())[i as int] != part@[i as int]);
            return false;
        }
        i = i + 1;
    }
    assert(s@.subrange(from as int, from + part@.len()) =~= part@);
    true
}

/// Whether a name begins with `prefix`.
pub fn has_prefix(s: &String, prefix: &str) -> (yes: bool)
    ensures
        yes == starts_with(s@, prefix@),
{
    let t: &str = s.as_str();
    if prefix.unicode_len() > t.unicode_len() {
        return false;
    }
    assert(s@.take(prefix@.len() as int) =~= s@.subrange(0, prefix@.len() as int));
    stands_at(t, prefix, 0)
}

/// Whether a name ends with `suffix`.
pub fn has_suffix(s: &String, suffix: &str) -> (yes: bool)
    ensures
        yes == ends_with(s@, suffix@),
{
    let t: &str = s.as_str();
    let n: usize = t.unicode_len();
    let m: usize = suffix.unicode_len();
    if m > n {
        return false;
    }
    assert(s@.skip(s@.len() - suffix@.len()) =~= s@.subrange((n - m) as int, (n - m) + suffix@.len()));
    stands_at(t, suffix, n - m)
}

/// A name begins with what its first characters are, and ends with what its last
/// ones are.
pub proof fn a_name_begins_and_ends_with_its_characters(s: Seq<char>, part: Seq<char>)
    ensures
        starts_with(s, part) <==> part.len() <= s.len() && forall|i: int| 0 <= i < part.len() ==> s[i] == #[trigger] part[i],
        ends_with(s, part) <==> part.len() <= s.len() && forall|i: int|
            0 <= i < part.len() ==> s[s.len() - part.len() + i] == #[trigger] part[i],
        starts_with(part + s, part),
        ends_with(s + part, part),
{
    let n = part.len() as int;
    assert((part + s).take(n) =~= part);
    assert((s + part).skip(s.len() as int) =~= part);
    if n <= s.len() {
        if s.take(n) == part {
            assert forall|i: int| 0 <= i < n implies s[i] == #[trigger] part[i] by {
                assert(s.take(n)[i] == s[i]);
            }
        }
        if forall|i: int| 0 <= i < n ==> s[i] == #[trigger] part[i] {
            assert(s.take(n) =~= part);
        }
        if s.skip(s.len() - n) == part {
            assert forall|i: int| 0 <= i < n implies s[s.len() - n + i] == #[trigger] part[i] by {
                assert(s.skip(s.len() - n)[i] == s[s.len() - n + i]);
            }
        }
        if forall|i: int| 0 <= i < n ==> s[s.len() - n + i] == #[trigger] part[i] {
            assert(s.skip(s.len() - n) =~= part);
        }
    }
}

} // verus!
