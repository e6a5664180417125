//! Small verified helpers over strings: extracting the character
//! sequence of a `&str`, searching it, and building paths and messages
//! by concatenation.

use vstd::prelude::*;
use vstd::std_specs::iter::IteratorSpec;
use vstd::string::StringExecFns;

verus! {

broadcast use vstd::string::axiom_spec_iter, vstd::string::next_postcondition;

/// Collects the characters of `s` into a vector, so that the rest of
/// the library can work with random-access character data.
pub fn str_chars(s: &str) -> (r: Vec<char>)
    ensures
        r@ == s@,
{
    let mut it = s.chars();
    let mut out: Vec<char> = Vec::new();
    loop
        invariant
            out@ + it.remaining() == s@,
            it.decrease() is Some,
        decreases it.decrease()->0,
    {
        let next = it.next();
        match next {
            Some(c) => {
                out.push(c);
            },
            None => {
                assert(out@ =~= s@);
                return out;
            },
        }
    }
}

/// Whether the character sequence of `s` contains `c`.
pub fn str_contains_char(s: &str, c: char) -> (r: bool)
    ensures
        r == s@.contains(c),
{
    let chars = str_chars(s);
    let mut i: usize = 0;
    while i < chars.len()
        invariant
            0 <= i <= chars@.len(),
            chars@ == s@,
            forall|j: int| 0 <= j < i ==> chars@[j] != c,
        decreases chars@.len() - i,
    {
        if chars[i] == c {
            assert(s@[i as int] == c);
            return true;
        }
        i += 1;
    }
    assert(!s@.contains(c)) by {
        assert(forall|j: int| 0 <= j < s@.len() ==> s@[j] != c);
    }
    false
}

/// The concatenation of two strings.
pub fn concat2(a: &str, b: &str) -> (r: String)
    ensures
        r@ == a@ + b@,
{
    let mut s = a.to_owned();
    s.append(b);
    s
}

/// The concatenation of three strings.
pub fn concat3(a: &str, b: &str, c: &str) -> (r: String)
    ensures
        r@ == a@ + b@ + c@,
{
    let mut s = a.to_owned();
    s.append(b);
    s.append(c);
    s
}

/// A directory path joined with the leaf name of one of its entries,
/// separated by a single forward slash.
pub open spec fn spec_join(dir: Seq<char>, leaf: Seq<char>) -> Seq<char> {
    dir + seq!['/'] + leaf
}

/// Builds the full path of an entry from its parent directory's path
/// and its leaf name.
pub fn join_path(dir: &str, leaf: &str) -> (r: String)
    ensures
        r@ == spec_join(dir@, leaf@),
{
    proof {
        reveal_strlit("/");
        assert("/"@ =~= seq!['/']);
    }
    concat3(dir, "/", leaf)
}

/// The leaf (last path component) of `path`: everything after the last
/// forward slash, or the whole path when it has none.
pub open spec fn spec_leaf_of(path: Seq<char>) -> Seq<char>
    decreases path.len(),
{
    if path.len() == 0 {
        path
    } else if path[path.len() - 1] == '/' {
        Seq::empty()
    } else {
        spec_leaf_of(path.take(path.len() - 1)).push(path[path.len() - 1])
    }
}

/// Extracts the leaf name of `path`.
pub fn leaf_of(path: &str) -> (r: String)
    ensures
        r@ == spec_leaf_of(path@),
{
    let chars = str_chars(path);
    let mut i: usize = chars.len();
    let mut out: Vec<char> = Vec::new();
    loop
        invariant
            0 <= i <= chars@.len(),
            chars@ == path@,
            out@.len() == 0,
            forall|j: int| i <= j < chars@.len() ==> chars@[j] != '/',
        ensures
            0 <= i <= chars@.len(),
            forall|j: int| i <= j < chars@.len() ==> chars@[j] != '/',
            i == 0 || chars@[i - 1] == '/',
        decreases i,
    {
        if i == 0 {
            break;
        }
        if chars[i - 1] == '/' {
            break;
        }
        i -= 1;
    }
    let start: usize = i;
    let mut k: usize = start;
    while k < chars.len()
        invariant
            start <= k <= chars@.len(),
            chars@ == path@,
            out@ == chars@.subrange(start as int, k as int),
            forall|j: int| start <= j < chars@.len() ==> chars@[j] != '/',
            start == 0 || chars@[start - 1] == '/',
        decreases chars@.len() - k,
    {
        out.push(chars[k]);
        k += 1;
    }
    proof {
        lemma_leaf_after_last_slash(path@, start as int);
        assert(out@ =~= path@.subrange(start as int, path@.len() as int));
    }
    chars_to_string(&out)
}

/// After the last slash the leaf is exactly the remaining suffix.
proof fn lemma_leaf_after_last_slash(path: Seq<char>, start: int)
    requires
        0 <= start <= path.len(),
        forall|j: int| start <= j < path.len() ==> path[j] != '/',
        start == 0 || path[start - 1] == '/',
    ensures
        spec_leaf_of(path) == path.subrange(start, path.len() as int),
    decreases path.len(),
{
    if path.len() == 0 {
        assert(spec_leaf_of(path) =~= path.subrange(start, path.len() as int));
    } else if start == path.len() {
        assert(path[path.len() - 1] == '/');
        assert(spec_leaf_of(path) =~= path.subrange(start, path.len() as int));
    } else {
        assert(path[path.len() - 1] != '/');
        let prefix = path.take(path.len() - 1);
        lemma_leaf_after_last_slash(prefix, start);
        assert(spec_leaf_of(path) == spec_leaf_of(prefix).push(path[path.len() - 1]));
        assert(spec_leaf_of(path) =~= path.subrange(start, path.len() as int));
    }
}

/// Rebuilds a `String` from a vector of characters.
pub fn chars_to_string(chars: &Vec<char>) -> (r: String)
    ensures
        r@ == chars@,
{
    let mut s = String::new();
    let mut i: usize = 0;
    while i < chars.len()
        invariant
            0 <= i <= chars@.len(),
            s@ == chars@.subrange(0, i as int),
        decreases chars@.len() - i,
    {
        push_char(&mut s, chars[i]);
        proof {
            assert(s@ =~= chars@.subrange(0, i + 1 as int));
        }
        i += 1;
    }
    proof {
        assert(s@ =~= chars@);
    }
    s
}

/// Relies on `String::push` of std: appends one character at the end
/// of the string.
#[verifier::external_body]
pub fn push_char(s: &mut String, c: char)
    ensures
        final(s)@ == old(s)@.push(c),
{
    s.push(c)
}

} // verus!
