//! Canonical file identifiers and byte-sequence helpers.

use vstd::prelude::*;

verus! {

/// Canonical identifier of a file: scheme plus absolute path, held as the
/// exact bytes of its textual form. Equality is byte-exact.
#[derive(Debug, Clone)]
pub struct FileUri {
    bytes: Vec<u8>,
}

impl View for FileUri {
    type V = Seq<u8>;

    closed spec fn view(&self) -> Seq<u8> {
        self.bytes@
    }
}

impl DeepView for FileUri {
    type V = Seq<u8>;

    open spec fn deep_view(&self) -> Seq<u8> {
        self@
    }
}

/// Copy the bytes of a vector; derived `clone` says nothing to the verifier.
pub fn clone_bytes(v: &Vec<u8>) -> (r: Vec<u8>)
    ensures
        r@ == v@,
{
    let mut r: Vec<u8> = Vec::new();
    let mut i: usize = 0;
    while i < v.len()
        invariant
            i <= v.len(),
            r@ == v@.subrange(0, i as int),
        decreases v.len() - i,
    {
        r.push(v[i]);
        i += 1;
    }
    proof {
        assert(r@ =~= v@);
    }
    r
}

/// Byte-exact comparison of two byte vectors.
pub fn bytes_eq(a: &Vec<u8>, b: &Vec<u8>) -> (r: bool)
    ensures
        r <==> a@ == b@,
{
    if a.len() != b.len() {
        proof {
            assert(a@ != b@);
        }
        return false;
    }
    let mut i: usize = 0;
    while i < a.len()
        invariant
            i <= a.len(),
            a@.len() == b@.len(),
            forall|j: int| 0 <= j < i ==> a@[j] == b@[j],
        decreases a.len() - i,
    {
        if a[i] != b[i] {
            return false;
        }
        i += 1;
    }
    proof {
        assert(a@ =~= b@);
    }
    true
}

/// Lexicographic (shortlex by byte) order on byte sequences, used for
/// deterministic tie-breaks.
pub open spec fn lex_less(a: Seq<u8>, b: Seq<u8>) -> bool
    decreases a.len(),
{
    if b.len() == 0 {
        false
    } else if a.len() == 0 {
        true
    } else if a[0] < b[0] {
        true
    } else if a[0] > b[0] {
        false
    } else {
        lex_less(a.drop_first(), b.drop_first())
    }
}

/// Decide `lex_less` on byte vectors.
pub fn bytes_lex_less(a: &Vec<u8>, b: &Vec<u8>) -> (r: bool)
    ensures
        r == lex_less(a@, b@),
{
    let mut i: usize = 0;
    proof {
        assert(a@.skip(0) =~= a@);
        assert(b@.skip(0) =~= b@);
    }
    loop
        invariant
            i <= a.len(),
            i <= b.len(),
            forall|j: int| 0 <= j < i ==> a@[j] == b@[j],
            lex_less(a@, b@) == lex_less(a@.skip(i as int), b@.skip(i as int)),
        decreases a.len() - i,
    {
        if i == b.len() {
            proof {
                assert(b@.skip(i as int).len() == 0);
            }
            return false;
        }
        if i == a.len() {
            proof {
                assert(a@.skip(i as int).len() == 0);
                assert(b@.skip(i as int).len() > 0);
            }
            return true;
        }
        let x = a[i];
        let y = b[i];
        if x < y {
            proof {
                assert(a@.skip(i as int)[0] == x);
                assert(b@.skip(i as int)[0] == y);
            }
            return true;
        }
        if x > y {
            proof {
                assert(a@.skip(i as int)[0] == x);
                assert(b@.skip(i as int)[0] == y);
            }
            return false;
        }
        proof {
            assert(a@.skip(i as int)[0] == x);
            assert(b@.skip(i as int)[0] == y);
            assert(a@.skip(i as int).drop_first() =~= a@.skip(i + 1));
            assert(b@.skip(i as int).drop_first() =~= b@.skip(i + 1));
        }
        i += 1;
    }
}

impl FileUri {
    /// Wrap the exact bytes of a URI's textual form.
    pub fn from_bytes(bytes: Vec<u8>) -> (r: FileUri)
        ensures
            r@ == bytes@,
    {
        FileUri { bytes }
    }

    /// The bytes of the identifier.
    pub fn as_bytes(&self) -> (r: &Vec<u8>)
        ensures
            r@ == self@,
    {
        &self.bytes
    }

    /// A copy whose bytes are known equal; derived `clone` promises nothing.
    pub fn duplicate(&self) -> (r: FileUri)
        ensures
            r@ == self@,
    {
        FileUri { bytes: clone_bytes(&self.bytes) }
    }

    /// Byte-exact equality, usable in verified code.
    pub fn same_as(&self, other: &FileUri) -> (r: bool)
        ensures
            r <==> self@ == other@,
    {
        bytes_eq(&self.bytes, &other.bytes)
    }

    /// Lexicographic order for deterministic tie-breaks.
    pub fn lex_before(&self, other: &FileUri) -> (r: bool)
        ensures
            r == lex_less(self@, other@),
    {
        bytes_lex_less(&self.bytes, &other.bytes)
    }
}

impl PartialEq for FileUri {
    fn eq(&self, other: &FileUri) -> (r: bool) {
        bytes_eq(&self.bytes, &other.bytes)
    }
}

impl Eq for FileUri {

}

impl vstd::std_specs::cmp::PartialEqSpecImpl for FileUri {
    open spec fn obeys_eq_spec() -> bool {
        true
    }

    open spec fn eq_spec(&self, other: &FileUri) -> bool {
        self@ == other@
    }
}

/// The views of a sequence of identifiers.
pub open spec fn uris_view(s: Seq<FileUri>) -> Seq<Seq<u8>> {
    s.map_values(|u: FileUri| u@)
}

/// Membership of `x` among the views of `v`.
pub fn uris_contain(v: &Vec<FileUri>, x: &FileUri) -> (r: bool)
    ensures
        r == uris_view(v@).contains(x@),
{
    let mut i: usize = 0;
    while i < v.len()
        invariant
            i <= v.len(),
            forall|j: int| 0 <= j < i ==> uris_view(v@)[j] != x@,
        decreases v.len() - i,
    {
        if v[i].same_as(x) {
            proof {
                assert(uris_view(v@)[i as int] == x@);
            }
            return true;
        }
        i += 1;
    }
    proof {
        assert(forall|j: int| 0 <= j < v@.len() ==> uris_view(v@)[j] != x@);
    }
    false
}

/// Copy a vector of identifiers with its views preserved.
pub fn duplicate_uris(v: &Vec<FileUri>) -> (r: Vec<FileUri>)
    ensures
        uris_view(r@) == uris_view(v@),
        r@.len() == v@.len(),
{
    let mut r: Vec<FileUri> = Vec::new();
    let mut i: usize = 0;
    while i < v.len()
        invariant
            i <= v.len(),
            r@.len() == i,
            forall|j: int| 0 <= j < i ==> uris_view(r@)[j] == uris_view(v@)[j],
        decreases v.len() - i,
    {
        r.push(v[i].duplicate());
        i += 1;
    }
    proof {
        assert(uris_view(r@) =~= uris_view(v@));
    }
    r
}

/// Keep the first occurrence of each identifier, dropping later repeats.
pub fn dedup_uris(v: Vec<FileUri>) -> (r: Vec<FileUri>)
    ensures
        forall|x: Seq<u8>| uris_view(r@).contains(x) == uris_view(v@).contains(x),
        forall|i: int, j: int|
            0 <= i < j < r@.len() ==> uris_view(r@)[i] != uris_view(r@)[j],
{
    let mut r: Vec<FileUri> = Vec::new();
    let mut i: usize = 0;
    while i < v.len()
        invariant
            i <= v.len(),
            forall|x: Seq<u8>|
                uris_view(r@).contains(x) == uris_view(v@.subrange(0, i as int)).contains(x),
            forall|p: int, q: int|
                0 <= p < q < r@.len() ==> uris_view(r@)[p] != uris_view(r@)[q],
        decreases v.len() - i,
    {
        let ghost prefix = v@.subrange(0, i as int);
        if !uris_contain(&r, &v[i]) {
            let ghost old_r = r@;
            r.push(v[i].duplicate());
            proof {
                assert(uris_view(r@) =~= uris_view(old_r).push(v@[i as int]@));
                assert forall|x: Seq<u8>|
                    uris_view(r@).contains(x)
                        == uris_view(v@.subrange(0, i + 1)).contains(x) by {
                    assert(v@.subrange(0, i + 1) =~= prefix.push(v@[i as int]));
                    lemma_uris_view_push(prefix, v@[i as int]);
                    lemma_uris_view_push(old_r, v@[i as int]);
                    lemma_contains_push(uris_view(old_r), v@[i as int]@, x);
                    lemma_contains_push(uris_view(prefix), v@[i as int]@, x);
                }
            }
        } else {
            proof {
                assert forall|x: Seq<u8>|
                    uris_view(r@).contains(x)
                        == uris_view(v@.subrange(0, i + 1)).contains(x) by {
                    assert(v@.subrange(0, i + 1) =~= prefix.push(v@[i as int]));
                    lemma_uris_view_push(prefix, v@[i as int]);
                    lemma_contains_push(uris_view(prefix), v@[i as int]@, x);
                }
            }
        }
        i += 1;
    }
    proof {
        assert(v@.subrange(0, v@.len() as int) =~= v@);
    }
    r
}

proof fn lemma_uris_view_push(s: Seq<FileUri>, u: FileUri)
    ensures
        uris_view(s.push(u)) == uris_view(s).push(u@),
{
    assert(uris_view(s.push(u)) =~= uris_view(s).push(u@));
}

proof fn lemma_contains_push(s: Seq<Seq<u8>>, x: Seq<u8>, y: Seq<u8>)
    ensures
        s.push(x).contains(y) == (s.contains(y) || x == y),
{
    if s.push(x).contains(y) {
        let i = choose|i: int| 0 <= i < s.push(x).len() && s.push(x)[i] == y;
        if i < s.len() {
            assert(s[i] == y);
        }
    }
    if s.contains(y) {
        let i = choose|i: int| 0 <= i < s.len() && s[i] == y;
        assert(s.push(x)[i] == y);
    }
    if x == y {
        assert(s.push(x)[s.len() as int] == y);
    }
}

} // verus!
