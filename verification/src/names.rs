//! Parsing of file names: extension and base name around the last dot,
//! hidden-name detection, and the ASCII naming-convention predicates.

use vstd::prelude::*;
use vstd::string::StrSliceExecFns;

verus! {

/// ASCII-lowercase one character; anything outside `'A'..='Z'` is unchanged.
pub open spec fn lower_char(c: char) -> char {
    if 'A' <= c && c <= 'Z' {
        ((c as u32 + 32) as u8) as char
    } else {
        c
    }
}

/// ASCII-lowercase a whole character sequence.
pub open spec fn lower_chars(s: Seq<char>) -> Seq<char> {
    s.map_values(|c: char| lower_char(c))
}

/// Index of the last `.` that does not stand first in the name, or 0 when
/// there is none.  A dot at index 0 marks a hidden name, not an extension,
/// so `.profile` has no extension while `archive.tar.gz` splits at its
/// last dot.
pub open spec fn split_dot(name: Seq<char>) -> int
    decreases name.len(),
{
    if name.len() <= 1 {
        0
    } else if name[name.len() - 1] == '.' {
        name.len() - 1
    } else {
        split_dot(name.drop_last())
    }
}

/// The extension of a file name: the lowercased text after the last dot,
/// empty when the name has no dot past its first character.
pub open spec fn spec_extension(name: Seq<char>) -> Seq<char> {
    let k = split_dot(name);
    if k > 0 {
        lower_chars(name.subrange(k + 1, name.len() as int))
    } else {
        Seq::empty()
    }
}

/// The base name: the text before the last dot, or the whole name when it
/// has no extension.  Case is kept as it stands.
pub open spec fn spec_base_name(name: Seq<char>) -> Seq<char> {
    let k = split_dot(name);
    if k > 0 {
        name.subrange(0, k)
    } else {
        name
    }
}

/// A hidden entry: its final name begins with a dot.
pub open spec fn spec_is_hidden(name: Seq<char>) -> bool {
    name.len() > 0 && name[0] == '.'
}

pub open spec fn is_ascii_upper(c: char) -> bool {
    'A' <= c && c <= 'Z'
}

pub open spec fn has_upper(s: Seq<char>) -> bool {
    exists|i: int| 0 <= i < s.len() && is_ascii_upper(s[i])
}

/// Snake case here means only: the name contains an underscore.
pub open spec fn is_snake_name(name: Seq<char>) -> bool {
    name.contains('_')
}

/// Kebab case: a hyphen and no underscore.
pub open spec fn is_kebab_name(name: Seq<char>) -> bool {
    !name.contains('_') && name.contains('-')
}

/// Camel case: no separator at all, but some ASCII uppercase letter.
/// All-lowercase names without separators fall in no class on purpose.
pub open spec fn is_camel_name(name: Seq<char>) -> bool {
    !name.contains('_') && !name.contains('-') && has_upper(name)
}

/// A name is in at most one of the three naming classes.
pub proof fn lemma_naming_exclusive(name: Seq<char>)
    ensures
        !(is_snake_name(name) && is_kebab_name(name)),
        !(is_snake_name(name) && is_camel_name(name)),
        !(is_kebab_name(name) && is_camel_name(name)),
{
}

pub proof fn lemma_split_dot_bounds(name: Seq<char>)
    ensures
        0 <= split_dot(name) < name.len() || (split_dot(name) == 0 && name.len() == 0),
        split_dot(name) > 0 ==> name[split_dot(name)] == '.',
    decreases name.len(),
{
    if name.len() > 1 && name[name.len() - 1] != '.' {
        lemma_split_dot_bounds(name.drop_last());
    }
}

/// Relies on String::push: it appends the one character at the end.
#[verifier::external_body]
fn push_char(s: &mut String, c: char)
    ensures
        final(s)@ == old(s)@.push(c),
{
    s.push(c);
}

fn lower_char_exec(c: char) -> (r: char)
    ensures
        r == lower_char(c),
{
    if 'A' <= c && c <= 'Z' {
        let v: u32 = c as u32;
        ((v + 32) as u8) as char
    } else {
        c
    }
}

/// ASCII-lowercase a string slice into a fresh `String`.
pub fn to_ascii_lower(s: &str) -> (r: String)
    ensures
        r@ == lower_chars(s@),
{
    let n = s.unicode_len();
    let mut r = String::new();
    let mut i: usize = 0;
    while i < n
        invariant
            n == s@.len(),
            i <= n,
            r@ == lower_chars(s@.subrange(0, i as int)),
        decreases n - i,
    {
        let c = s.get_char(i);
        push_char(&mut r, lower_char_exec(c));
        i = i + 1;
        proof {
            assert(r@ =~= lower_chars(s@.subrange(0, i as int)));
        }
    }
    proof {
        assert(s@.subrange(0, n as int) =~= s@);
    }
    r
}

/// Where the name splits into base and extension: the index of the last
/// dot past the first character, or 0 when no such dot exists.
pub fn split_index(name: &str) -> (k: usize)
    ensures
        k as int == split_dot(name@),
{
    let n = name.unicode_len();
    let mut j: usize = n;
    proof {
        assert(name@.subrange(0, n as int) =~= name@);
    }
    while j > 1
        invariant
            n == name@.len(),
            j <= n,
            split_dot(name@) == split_dot(name@.subrange(0, j as int)),
        decreases j,
    {
        if name.get_char(j - 1) == '.' {
            return j - 1;
        }
        proof {
            assert(name@.subrange(0, j as int).drop_last() =~= name@.subrange(0, j - 1));
        }
        j = j - 1;
    }
    0
}

/// The extension of a file name, lowercased; empty when there is none.
pub fn extension_of(name: &str) -> (r: String)
    ensures
        r@ == spec_extension(name@),
{
    let k = split_index(name);
    if k > 0 {
        proof {
            lemma_split_dot_bounds(name@);
        }
        let n = name.unicode_len();
        let suffix = name.substring_char(k + 1, n);
        to_ascii_lower(suffix)
    } else {
        String::new()
    }
}

/// The base name of a file name: everything before the extension.
pub fn base_name_of(name: &str) -> (r: String)
    ensures
        r@ == spec_base_name(name@),
{
    let k = split_index(name);
    if k > 0 {
        proof {
            lemma_split_dot_bounds(name@);
        }
        let stem = name.substring_char(0, k);
        stem.to_owned()
    } else {
        name.to_owned()
    }
}

/// Whether the entry name marks a hidden entry (leading dot).
pub fn is_hidden(name: &str) -> (r: bool)
    ensures
        r == spec_is_hidden(name@),
{
    if name.unicode_len() == 0 {
        false
    } else {
        name.get_char(0) == '.'
    }
}

/// Whether the name holds the given character.
pub fn contains_char(name: &str, c: char) -> (r: bool)
    ensures
        r == name@.contains(c),
{
    let n = name.unicode_len();
    let mut i: usize = 0;
    while i < n
        invariant
            n == name@.len(),
            i <= n,
            forall|j: int| 0 <= j < i ==> name@[j] != c,
        decreases n - i,
    {
        if name.get_char(i) == c {
            return true;
        }
        i = i + 1;
    }
    false
}

/// Whether the name holds an ASCII uppercase letter.
pub fn has_ascii_upper(name: &str) -> (r: bool)
    ensures
        r == has_upper(name@),
{
    let n = name.unicode_len();
    let mut i: usize = 0;
    while i < n
        invariant
            n == name@.len(),
            i <= n,
            forall|j: int| 0 <= j < i ==> !is_ascii_upper(name@[j]),
        decreases n - i,
    {
        let c = name.get_char(i);
        if 'A' <= c && c <= 'Z' {
            return true;
        }
        i = i + 1;
    }
    false
}

} // verus!
