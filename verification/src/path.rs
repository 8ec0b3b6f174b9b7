//! Paths as byte strings: the separator rule of the host, the components of
//! a path, the dotted-component test, and the lexicographic order that
//! siblings are sorted by.

use vstd::prelude::*;

verus! {

/// Byte value of `/`.
pub const SLASH: u8 = 0x2f;

/// Byte value of `\`.
pub const BACKSLASH: u8 = 0x5c;

/// Byte value of `.`.
pub const DOT: u8 = 0x2e;

/// A byte that separates two components of a path. The forward slash does
/// on every host; the backward slash does where `backslash` says that the
/// host takes it for a separator, and is a byte of a name like any other
/// where it does not.
pub open spec fn is_separator(b: u8, backslash: bool) -> bool {
    b == SLASH || (backslash && b == BACKSLASH)
}

/// A path component starts at index `i` of `path`: at the very beginning or
/// right behind a separator.
pub open spec fn component_starts_at(path: Seq<u8>, i: int, backslash: bool) -> bool {
    &&& 0 <= i < path.len()
    &&& (i == 0 || is_separator(path[i - 1], backslash))
}

/// Some component of `path` begins with a dot.
pub open spec fn has_dotted_component(path: Seq<u8>, backslash: bool) -> bool {
    exists|i: int| #[trigger] component_starts_at(path, i, backslash) && path[i] == DOT
}

/// The index at which the last component of `path` starts: right behind the
/// last separator, or 0 where `path` holds no separator.
pub open spec fn last_component_start(path: Seq<u8>, backslash: bool) -> int
    decreases path.len(),
{
    if path.len() == 0 {
        0
    } else if is_separator(path.last(), backslash) {
        path.len() as int
    } else {
        last_component_start(path.drop_last(), backslash)
    }
}

/// The last component of `path`: what stands behind its last separator, the
/// whole path where it holds none. This is the file name of the entry at
/// `path`.
pub open spec fn last_component(path: Seq<u8>, backslash: bool) -> Seq<u8> {
    path.skip(last_component_start(path, backslash))
}

/// Index `at` is where the last component of `path` starts: a separator
/// stands right before it, unless it is 0, and none from it on.
pub open spec fn starts_last_component(path: Seq<u8>, at: int, backslash: bool) -> bool {
    &&& 0 <= at <= path.len()
    &&& (at == 0 || is_separator(path[at - 1], backslash))
    &&& forall|k: int| at <= k < path.len() ==> !is_separator(#[trigger] path[k], backslash)
}

/// The start of the last component is the one index that a separator stands
/// before and none stands behind.
pub proof fn lemma_last_component_start(path: Seq<u8>, at: int, backslash: bool)
    ensures
        starts_last_component(path, last_component_start(path, backslash), backslash),
        starts_last_component(path, at, backslash) ==> at == last_component_start(
            path,
            backslash,
        ),
    decreases path.len(),
{
    if path.len() > 0 && !is_separator(path.last(), backslash) {
        let front = path.drop_last();
        lemma_last_component_start(front, at, backslash);
        let start = last_component_start(front, backslash);
        assert forall|k: int| start <= k < path.len() implies !is_separator(
            #[trigger] path[k],
            backslash,
        ) by {
            if k < front.len() {
                assert(path[k] == front[k]);
            }
        }
    }
}

/// Byte-wise lexicographic order: `a` comes no later than `b`.
pub open spec fn lex_le(a: Seq<u8>, b: Seq<u8>) -> bool
    decreases a.len(),
{
    if a.len() == 0 {
        true
    } else if b.len() == 0 {
        false
    } else if a[0] == b[0] {
        lex_le(a.skip(1), b.skip(1))
    } else {
        a[0] < b[0]
    }
}

/// Byte-wise lexicographic order: `a` comes strictly before `b`.
pub open spec fn lex_lt(a: Seq<u8>, b: Seq<u8>) -> bool {
    lex_le(a, b) && a != b
}

/// Of two paths one comes no later than the other.
pub proof fn lemma_lex_le_total(a: Seq<u8>, b: Seq<u8>)
    ensures
        lex_le(a, b) || lex_le(b, a),
    decreases a.len(),
{
    if a.len() > 0 && b.len() > 0 && a[0] == b[0] {
        lemma_lex_le_total(a.skip(1), b.skip(1));
    }
}

/// Two paths of which each comes no later than the other are the same path.
pub proof fn lemma_lex_le_antisymmetric(a: Seq<u8>, b: Seq<u8>)
    requires
        lex_le(a, b),
        lex_le(b, a),
    ensures
        a == b,
    decreases a.len(),
{
    if a.len() > 0 && b.len() > 0 {
        lemma_lex_le_antisymmetric(a.skip(1), b.skip(1));
        assert(a =~= seq![a[0]] + a.skip(1));
    }
}

/// The order of paths is transitive.
pub proof fn lemma_lex_le_transitive(a: Seq<u8>, b: Seq<u8>, c: Seq<u8>)
    requires
        lex_le(a, b),
        lex_le(b, c),
    ensures
        lex_le(a, c),
    decreases a.len(),
{
    if a.len() > 0 && b.len() > 0 && c.len() > 0 && a[0] == b[0] && b[0] == c[0] {
        lemma_lex_le_transitive(a.skip(1), b.skip(1), c.skip(1));
    }
}

/// The byte strings `a` and `b` are equal.
pub fn same_bytes(a: &[u8], b: &[u8]) -> (same: bool)
    ensures
        same == (a@ == b@),
{
    if a.len() != b.len() {
        return false;
    }
    let mut i: usize = 0;
    while i < a.len()
        invariant
            a.len() == b.len(),
            i <= a.len(),
            forall|k: int| 0 <= k < i ==> a[k] == b[k],
        decreases a.len() - i,
    {
        if a[i] != b[i] {
            return false;
        }
        i += 1;
    }
    assert(a@ =~= b@);
    true
}

/// The paths `a` and `b` hold the same bytes.
pub fn same_path(a: &Vec<u8>, b: &Vec<u8>) -> (same: bool)
    ensures
        same == (a@ == b@),
{
    same_bytes(a.as_slice(), b.as_slice())
}

/// Compares two paths byte by byte: `a` sorts no later than `b`.
pub fn path_le(a: &Vec<u8>, b: &Vec<u8>) -> (le: bool)
    ensures
        le == lex_le(a@, b@),
{
    let mut i: usize = 0;
    proof {
        assert(a@.skip(0) =~= a@);
        assert(b@.skip(0) =~= b@);
    }
    while i < a.len() && i < b.len()
        invariant
            i <= a.len(),
            i <= b.len(),
            lex_le(a@, b@) == lex_le(a@.skip(i as int), b@.skip(i as int)),
        decreases a.len() - i,
    {
        proof {
            assert(a@.skip(i as int).skip(1) =~= a@.skip(i + 1));
            assert(b@.skip(i as int).skip(1) =~= b@.skip(i + 1));
        }
        if a[i] != b[i] {
            return a[i] < b[i];
        }
        i += 1;
    }
    i == a.len()
}

/// Tells whether `b` separates two components of a path, on a host that
/// takes the backward slash for a separator or on one that does not.
pub fn separates(b: u8, backslash: bool) -> (yes: bool)
    ensures
        yes == is_separator(b, backslash),
{
    b == SLASH || (backslash && b == BACKSLASH)
}

/// Tells whether `name` is the last component of `path`.
pub fn is_last_component(name: &Vec<u8>, path: &Vec<u8>, backslash: bool) -> (yes: bool)
    ensures
        yes == (name@ == last_component(path@, backslash)),
{
    let mut start: usize = path.len();
    while start > 0 && !separates(path[start - 1], backslash)
        invariant
            start <= path.len(),
            forall|k: int| start <= k < path.len() ==> !is_separator(#[trigger] path[k], backslash),
        decreases start,
    {
        start -= 1;
    }
    proof {
        lemma_last_component_start(path@, start as int, backslash);
    }
    if name.len() != path.len() - start {
        return false;
    }
    let mut i: usize = 0;
    while i < name.len()
        invariant
            start == last_component_start(path@, backslash),
            start + name.len() == path.len(),
            i <= name.len(),
            forall|k: int| 0 <= k < i ==> name[k] == path[start + k],
        decreases name.len() - i,
    {
        if name[i] != path[start + i] {
            return false;
        }
        i += 1;
    }
    assert(name@ =~= path@.skip(start as int));
    true
}

/// Tells whether some component of `path` begins with a dot.
pub fn is_dotted(path: &Vec<u8>, backslash: bool) -> (dotted: bool)
    ensures
        dotted == has_dotted_component(path@, backslash),
{
    let mut i: usize = 0;
    while i < path.len()
        invariant
            i <= path.len(),
            forall|k: int|
                0 <= k < i ==> !(#[trigger] component_starts_at(path@, k, backslash) && path[k]
                    == DOT),
        decreases path.len() - i,
    {
        if path[i] == DOT && (i == 0 || separates(path[i - 1], backslash)) {
            assert(component_starts_at(path@, i as int, backslash));
            return true;
        }
        i += 1;
    }
    false
}

} // verus!
