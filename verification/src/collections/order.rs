//! Strict total orders on the keys of an ordered collection.

use vstd::prelude::*;
use vstd::utf8;

verus! {

/// Where one key stands relative to another.
#[derive(Debug, Clone, Copy, PartialEq, Eq, Structural)]
pub enum Placement {
    Before,
    Same,
    After,
}

/// A key type with a strict total order on its view.
///
/// A lookup does not need an owned key. It takes a `Probe`, which has the same
/// view: a `str` finds a `String`.
pub trait OrderedKey: View + Sized {
    type Probe: View<V = <Self as View>::V> + ?Sized;

    /// Whether `a` stands strictly before `b`.
    spec fn precedes(a: <Self as View>::V, b: <Self as View>::V) -> bool;

    proof fn lemma_irreflexive(a: <Self as View>::V)
        ensures
            !Self::precedes(a, a),
    ;

    proof fn lemma_transitive(a: <Self as View>::V, b: <Self as View>::V, c: <Self as View>::V)
        requires
            Self::precedes(a, b),
            Self::precedes(b, c),
        ensures
            Self::precedes(a, c),
    ;

    proof fn lemma_connected(a: <Self as View>::V, b: <Self as View>::V)
        ensures
            a == b || Self::precedes(a, b) || Self::precedes(b, a),
    ;

    /// Compares a stored key with a probe.
    fn place(&self, probe: &Self::Probe) -> (placement: Placement)
        ensures
            match placement {
                Placement::Before => Self::precedes(self.view(), probe.view()),
                Placement::Same => self.view() == probe.view(),
                Placement::After => Self::precedes(probe.view(), self.view()),
            },
    ;

    /// The probe that finds this key.
    fn probe(&self) -> (probe: &Self::Probe)
        ensures
            probe.view() == self.view(),
    ;

    /// Another key with the same view.
    fn duplicate(&self) -> (key: Self)
        ensures
            key.view() == self.view(),
    ;
}

/// Whether `a` and `b` agree on their first `n` bytes and differ after them,
/// with `a` the smaller one.
pub open spec fn splits_at(a: Seq<u8>, b: Seq<u8>, n: int) -> bool {
    &&& 0 <= n <= a.len()
    &&& n < b.len()
    &&& forall|i: int| 0 <= i < n ==> a[i] == b[i]
    &&& n < a.len() ==> a[n] < b[n]
}

/// The lexicographic order on byte strings: a proper prefix stands first, and
/// otherwise the first differing byte decides.
pub open spec fn lex_before(a: Seq<u8>, b: Seq<u8>) -> bool {
    exists|n: int| splits_at(a, b, n)
}

pub proof fn lemma_lex_irreflexive(a: Seq<u8>)
    ensures
        !lex_before(a, a),
{
}

pub proof fn lemma_lex_transitive(a: Seq<u8>, b: Seq<u8>, c: Seq<u8>)
    requires
        lex_before(a, b),
        lex_before(b, c),
    ensures
        lex_before(a, c),
{
    let n = choose|n: int| splits_at(a, b, n);
    let m = choose|m: int| splits_at(b, c, m);
    let k = if n <= m { n } else { m };
    assert(splits_at(a, c, k));
}

/// Two byte strings that agree on their first `n` bytes are equal or ordered.
proof fn lemma_lex_connected_from(a: Seq<u8>, b: Seq<u8>, n: int)
    requires
        0 <= n <= a.len(),
        n <= b.len(),
        forall|i: int| 0 <= i < n ==> a[i] == b[i],
    ensures
        a == b || lex_before(a, b) || lex_before(b, a),
    decreases a.len() - n,
{
    if n == a.len() && n == b.len() {
        assert(a =~= b);
    } else if n == a.len() {
        assert(splits_at(a, b, n));
    } else if n == b.len() {
        assert(splits_at(b, a, n));
    } else if a[n] < b[n] {
        assert(splits_at(a, b, n));
    } else if b[n] < a[n] {
        assert(splits_at(b, a, n));
    } else {
        lemma_lex_connected_from(a, b, n + 1);
    }
}

pub proof fn lemma_lex_connected(a: Seq<u8>, b: Seq<u8>)
    ensures
        a == b || lex_before(a, b) || lex_before(b, a),
{
    lemma_lex_connected_from(a, b, 0);
}

/// Compares two byte strings.
pub fn place_bytes(a: &[u8], b: &[u8]) -> (placement: Placement)
    ensures
        match placement {
            Placement::Before => lex_before(a@, b@),
            Placement::Same => a@ == b@,
            Placement::After => lex_before(b@, a@),
        },
{
    let mut i: usize = 0;
    while i < a.len() && i < b.len()
        invariant
            i <= a@.len(),
            i <= b@.len(),
            forall|j: int| 0 <= j < i ==> a@[j] == b@[j],
        decreases a@.len() - i,
    {
        if a[i] < b[i] {
            assert(splits_at(a@, b@, i as int));
            return Placement::Before;
        }
        if b[i] < a[i] {
            assert(splits_at(b@, a@, i as int));
            return Placement::After;
        }
        i = i + 1;
    }
    if i < b.len() {
        assert(splits_at(a@, b@, i as int));
        Placement::Before
    } else if i < a.len() {
        assert(splits_at(b@, a@, i as int));
        Placement::After
    } else {
        assert(a@ =~= b@);
        Placement::Same
    }
}

/// The order of names: lexicographic on the UTF-8 bytes.
pub open spec fn name_before(a: Seq<char>, b: Seq<char>) -> bool {
    lex_before(utf8::encode_utf8(a), utf8::encode_utf8(b))
}

/// Two names with the same UTF-8 bytes are the same name.
pub proof fn lemma_utf8_injective(a: Seq<char>, b: Seq<char>)
    requires
        utf8::encode_utf8(a) == utf8::encode_utf8(b),
    ensures
        a == b,
{
    utf8::encode_utf8_decode_utf8(a);
    utf8::encode_utf8_decode_utf8(b);
}

pub proof fn lemma_name_connected(a: Seq<char>, b: Seq<char>)
    ensures
        a == b || name_before(a, b) || name_before(b, a),
{
    lemma_lex_connected(utf8::encode_utf8(a), utf8::encode_utf8(b));
    if utf8::encode_utf8(a) == utf8::encode_utf8(b) {
        lemma_utf8_injective(a, b);
    }
}

/// Compares two names.
pub fn place_names(a: &str, b: &str) -> (placement: Placement)
    ensures
        match placement {
            Placement::Before => name_before(a@, b@),
            Placement::Same => a@ == b@,
            Placement::After => name_before(b@, a@),
        },
{
    let placement = place_bytes(a.as_bytes(), b.as_bytes());
    proof {
        if placement is Same {
            lemma_utf8_injective(a@, b@);
        }
    }
    placement
}

impl OrderedKey for String {
    type Probe = str;

    open spec fn precedes(a: Seq<char>, b: Seq<char>) -> bool {
        name_before(a, b)
    }

    proof fn lemma_irreflexive(a: Seq<char>) {
        lemma_lex_irreflexive(utf8::encode_utf8(a));
    }

    proof fn lemma_transitive(a: Seq<char>, b: Seq<char>, c: Seq<char>) {
        lemma_lex_transitive(utf8::encode_utf8(a), utf8::encode_utf8(b), utf8::encode_utf8(c));
    }

    proof fn lemma_connected(a: Seq<char>, b: Seq<char>) {
        lemma_name_connected(a, b);
    }

    fn place(&self, probe: &str) -> (placement: Placement) {
        place_names(self.as_str(), probe)
    }

    fn probe(&self) -> (probe: &str) {
        self.as_str()
    }

    fn duplicate(&self) -> (key: String) {
        self.clone()
    }
}

impl OrderedKey for i32 {
    type Probe = i32;

    open spec fn precedes(a: i32, b: i32) -> bool {
        a < b
    }

    proof fn lemma_irreflexive(a: i32) {
    }

    proof fn lemma_transitive(a: i32, b: i32, c: i32) {
    }

    proof fn lemma_connected(a: i32, b: i32) {
    }

    fn place(&self, probe: &i32) -> (placement: Placement) {
        if *self < *probe {
            Placement::Before
        } else if *probe < *self {
            Placement::After
        } else {
            Placement::Same
        }
    }

    fn probe(&self) -> (probe: &i32) {
        self
    }

    fn duplicate(&self) -> (key: i32) {
        *self
    }
}

impl OrderedKey for i64 {
    type Probe = i64;

    open spec fn precedes(a: i64, b: i64) -> bool {
        a < b
    }

    proof fn lemma_irreflexive(a: i64) {
    }

    proof fn lemma_transitive(a: i64, b: i64, c: i64) {
    }

    proof fn lemma_connected(a: i64, b: i64) {
    }

    fn place(&self, probe: &i64) -> (placement: Placement) {
        if *self < *probe {
            Placement::Before
        } else if *probe < *self {
            Placement::After
        } else {
            Placement::Same
        }
    }

    fn probe(&self) -> (probe: &i64) {
        self
    }

    fn duplicate(&self) -> (key: i64) {
        *self
    }
}

} // verus!
