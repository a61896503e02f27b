//! A stable byte encoding of file metadata, with a proved round trip.
//!
//! Integers are eight bytes little endian; byte strings are
//! length-prefixed; the five metadata fields follow one another. The
//! decoder accepts exactly the encoder's output.

use vstd::prelude::*;

use crate::types::BackwardDirective;
use crate::types::BackwardView;
use crate::types::CallSiteSpec;
use crate::types::CallView;
use crate::types::CrossFileMetadata;
use crate::types::ForwardDirective;
use crate::types::MetadataView;
verus! {

/// Little-endian bytes of a 64-bit integer.
pub open spec fn enc_u64(x: u64) -> Seq<u8> {
    seq![
        x as u8,
        (x >> 8) as u8,
        (x >> 16) as u8,
        (x >> 24) as u8,
        (x >> 32) as u8,
        (x >> 40) as u8,
        (x >> 48) as u8,
        (x >> 56) as u8,
    ]
}

/// The integer read back from eight little-endian bytes.
pub open spec fn dec_u64_at(s: Seq<u8>, pos: int) -> u64 {
    (s[pos] as u64) | ((s[pos + 1] as u64) << 8) | ((s[pos + 2] as u64) << 16) | ((s[pos + 3]
        as u64) << 24) | ((s[pos + 4] as u64) << 32) | ((s[pos + 5] as u64) << 40) | ((s[pos
        + 6] as u64) << 48) | ((s[pos + 7] as u64) << 56)
}

/// A length-prefixed byte string.
pub open spec fn enc_bytes(s: Seq<u8>) -> Seq<u8> {
    enc_u64(s.len() as u64) + s
}

/// A call site: a tag, then its payload.
pub open spec fn enc_call(c: CallView) -> Seq<u8> {
    match c {
        CallView::Default => seq![0u8],
        CallView::Line(n) => seq![1u8] + enc_u64(n as u64),
        CallView::Match(p) => seq![2u8] + enc_bytes(p),
    }
}

/// One backward directive: its path, then its call site.
pub open spec fn enc_backward(d: BackwardView) -> Seq<u8> {
    enc_bytes(d.path) + enc_call(d.call_site)
}

/// Backward directives, one after the other.
pub open spec fn enc_backwards(s: Seq<BackwardView>) -> Seq<u8>
    decreases s.len(),
{
    if s.len() == 0 {
        Seq::empty()
    } else {
        enc_backward(s[0]) + enc_backwards(s.drop_first())
    }
}

/// Paths, one after the other.
pub open spec fn enc_paths(s: Seq<Seq<u8>>) -> Seq<u8>
    decreases s.len(),
{
    if s.len() == 0 {
        Seq::empty()
    } else {
        enc_bytes(s[0]) + enc_paths(s.drop_first())
    }
}

/// Line numbers, one after the other.
pub open spec fn enc_lines(s: Seq<u32>) -> Seq<u8>
    decreases s.len(),
{
    if s.len() == 0 {
        Seq::empty()
    } else {
        enc_u64(s[0] as u64) + enc_lines(s.drop_first())
    }
}

/// An optional working directory: a presence tag, then the path.
pub open spec fn enc_wd(w: Option<Seq<u8>>) -> Seq<u8> {
    match w {
        None => seq![0u8],
        Some(p) => seq![1u8] + enc_bytes(p),
    }
}

/// The whole encoding: counted backward directives, counted forward
/// paths, the working directory, and the two counted line sets.
pub open spec fn serialize_spec(m: MetadataView) -> Seq<u8> {
    enc_u64(m.sourced_by.len() as u64) + enc_backwards(m.sourced_by) + enc_u64(
        m.sources.len() as u64,
    ) + enc_paths(m.sources) + enc_wd(m.working_directory) + enc_u64(
        m.ignored_lines.len() as u64,
    ) + enc_lines(m.ignored_lines) + enc_u64(m.ignored_next_lines.len() as u64) + enc_lines(
        m.ignored_next_lines,
    )
}

/// Every count and length of the value fits the wire's 64-bit fields.
pub open spec fn encodable(m: MetadataView) -> bool {
    &&& m.sourced_by.len() <= u64::MAX
    &&& m.sources.len() <= u64::MAX
    &&& m.ignored_lines.len() <= u64::MAX
    &&& m.ignored_next_lines.len() <= u64::MAX
    &&& forall|i: int|
        0 <= i < m.sourced_by.len() ==> (#[trigger] m.sourced_by[i]).path.len() <= u64::MAX
            && match m.sourced_by[i].call_site {
            CallView::Match(p) => p.len() <= u64::MAX,
            _ => true,
        }
    &&& forall|i: int| 0 <= i < m.sources.len() ==> (#[trigger] m.sources[i]).len() <= u64::MAX
    &&& match m.working_directory {
        Some(p) => p.len() <= u64::MAX,
        None => true,
    }
}

// ---------------------------------------------------------------------
// Spec-level decoding. Each function reads at `pos` and yields the value
// with the position after it, or nothing on malformed input.
// ---------------------------------------------------------------------

/// Read eight little-endian bytes.
pub open spec fn dec_u64(s: Seq<u8>, pos: int) -> Option<(u64, int)> {
    if 0 <= pos && pos + 8 <= s.len() {
        Some((dec_u64_at(s, pos), pos + 8))
    } else {
        None
    }
}

/// Read a length-prefixed byte string.
pub open spec fn dec_bytes(s: Seq<u8>, pos: int) -> Option<(Seq<u8>, int)> {
    match dec_u64(s, pos) {
        None => None,
        Some((n, p2)) => if p2 + n <= s.len() {
            Some((s.subrange(p2, p2 + n), p2 + n))
        } else {
            None
        },
    }
}

/// Read a call site.
pub open spec fn dec_call(s: Seq<u8>, pos: int) -> Option<(CallView, int)> {
    if !(0 <= pos && pos < s.len()) {
        None
    } else if s[pos] == 0u8 {
        Some((CallView::Default, pos + 1))
    } else if s[pos] == 1u8 {
        match dec_u64(s, pos + 1) {
            None => None,
            Some((n, p2)) => if n <= u32::MAX {
                Some((CallView::Line(n as u32), p2))
            } else {
                None
            },
        }
    } else if s[pos] == 2u8 {
        match dec_bytes(s, pos + 1) {
            None => None,
            Some((p, p2)) => Some((CallView::Match(p), p2)),
        }
    } else {
        None
    }
}

/// Read one backward directive.
pub open spec fn dec_backward(s: Seq<u8>, pos: int) -> Option<(BackwardView, int)> {
    match dec_bytes(s, pos) {
        None => None,
        Some((path, p2)) => match dec_call(s, p2) {
            None => None,
            Some((c, p3)) => Some((BackwardView { path, call_site: c }, p3)),
        },
    }
}

/// Read `count` backward directives.
pub open spec fn dec_backwards(s: Seq<u8>, pos: int, count: nat) -> Option<(
    Seq<BackwardView>,
    int,
)>
    decreases count,
{
    if count == 0 {
        Some((Seq::empty(), pos))
    } else {
        match dec_backward(s, pos) {
            None => None,
            Some((d, p2)) => match dec_backwards(s, p2, (count - 1) as nat) {
                None => None,
                Some((rest, p3)) => Some((seq![d] + rest, p3)),
            },
        }
    }
}

/// Read `count` paths.
pub open spec fn dec_paths(s: Seq<u8>, pos: int, count: nat) -> Option<(Seq<Seq<u8>>, int)>
    decreases count,
{
    if count == 0 {
        Some((Seq::empty(), pos))
    } else {
        match dec_bytes(s, pos) {
            None => None,
            Some((p, p2)) => match dec_paths(s, p2, (count - 1) as nat) {
                None => None,
                Some((rest, p3)) => Some((seq![p] + rest, p3)),
            },
        }
    }
}

/// Read `count` line numbers.
pub open spec fn dec_lines(s: Seq<u8>, pos: int, count: nat) -> Option<(Seq<u32>, int)>
    decreases count,
{
    if count == 0 {
        Some((Seq::empty(), pos))
    } else {
        match dec_u64(s, pos) {
            None => None,
            Some((n, p2)) => if n <= u32::MAX {
                match dec_lines(s, p2, (count - 1) as nat) {
                    None => None,
                    Some((rest, p3)) => Some((seq![n as u32] + rest, p3)),
                }
            } else {
                None
            },
        }
    }
}

/// Read the optional working directory.
pub open spec fn dec_wd(s: Seq<u8>, pos: int) -> Option<(Option<Seq<u8>>, int)> {
    if !(0 <= pos && pos < s.len()) {
        None
    } else if s[pos] == 0u8 {
        Some((None, pos + 1))
    } else if s[pos] == 1u8 {
        match dec_bytes(s, pos + 1) {
            None => None,
            Some((p, p2)) => Some((Some(p), p2)),
        }
    } else {
        None
    }
}

/// Decode a whole value; every byte must be consumed.
pub open spec fn deserialize_spec(s: Seq<u8>) -> Option<MetadataView> {
    match dec_u64(s, 0) {
        None => None,
        Some((nb, p1)) => match dec_backwards(s, p1, nb as nat) {
            None => None,
            Some((sourced_by, p2)) => match dec_u64(s, p2) {
                None => None,
                Some((nf, p3)) => match dec_paths(s, p3, nf as nat) {
                    None => None,
                    Some((sources, p4)) => match dec_wd(s, p4) {
                        None => None,
                        Some((wd, p5)) => match dec_u64(s, p5) {
                            None => None,
                            Some((ni, p6)) => match dec_lines(s, p6, ni as nat) {
                                None => None,
                                Some((il, p7)) => match dec_u64(s, p7) {
                                    None => None,
                                    Some((nn, p8)) => match dec_lines(s, p8, nn as nat) {
                                        None => None,
                                        Some((inl, p9)) => if p9 == s.len() {
                                            Some(MetadataView {
                                                sourced_by,
                                                sources,
                                                working_directory: wd,
                                                ignored_lines: il,
                                                ignored_next_lines: inl,
                                            })
                                        } else {
                                            None
                                        },
                                    },
                                },
                            },
                        },
                    },
                },
            },
        },
    }
}

// ---------------------------------------------------------------------
// Executable encoder.
// ---------------------------------------------------------------------

/// Append the little-endian bytes of `x`.
fn push_u64(out: &mut Vec<u8>, x: u64)
    ensures
        final(out)@ == old(out)@ + enc_u64(x),
{
    let ghost before = out@;
    out.push(#[verifier::truncate] (x as u8));
    out.push(#[verifier::truncate] ((x >> 8) as u8));
    out.push(#[verifier::truncate] ((x >> 16) as u8));
    out.push(#[verifier::truncate] ((x >> 24) as u8));
    out.push(#[verifier::truncate] ((x >> 32) as u8));
    out.push(#[verifier::truncate] ((x >> 40) as u8));
    out.push(#[verifier::truncate] ((x >> 48) as u8));
    out.push(#[verifier::truncate] ((x >> 56) as u8));
    proof {
        assert(out@ =~= before + enc_u64(x));
    }
}

/// Append a length-prefixed byte string.
fn push_bytes(out: &mut Vec<u8>, s: &Vec<u8>)
    ensures
        final(out)@ == old(out)@ + enc_bytes(s@),
{
    let ghost before = out@;
    push_u64(out, s.len() as u64);
    let mut i: usize = 0;
    while i < s.len()
        invariant
            i <= s@.len(),
            out@ == before + enc_u64(s@.len() as u64) + s@.subrange(0, i as int),
        decreases s@.len() - i,
    {
        out.push(s[i]);
        proof {
            assert(out@ =~= before + enc_u64(s@.len() as u64) + s@.subrange(0, i + 1));
        }
        i += 1;
    }
    proof {
        assert(s@.subrange(0, s@.len() as int) =~= s@);
        assert(out@ =~= before + enc_bytes(s@));
    }
}

/// Encode a whole metadata value.
pub fn serialize(m: &CrossFileMetadata) -> (r: Vec<u8>)
    ensures
        r@ == serialize_spec(m@),
{
    let mut out: Vec<u8> = Vec::new();
    proof {
        assert(out@ =~= Seq::<u8>::empty());
    }
    push_u64(&mut out, m.sourced_by.len() as u64);
    let ghost base1 = out@;
    let mut i: usize = 0;
    while i < m.sourced_by.len()
        invariant
            i <= m.sourced_by@.len(),
            m@.sourced_by.len() == m.sourced_by@.len(),
            out@ == base1 + enc_backwards(m@.sourced_by.subrange(0, i as int)),
        decreases m.sourced_by@.len() - i,
    {
        let ghost sofar = m@.sourced_by.subrange(0, i as int);
        let d = &m.sourced_by[i];
        push_bytes(&mut out, &d.path);
        match &d.call_site {
            CallSiteSpec::Default => {
                out.push(0u8);
            },
            CallSiteSpec::Line(n) => {
                out.push(1u8);
                push_u64(&mut out, *n as u64);
            },
            CallSiteSpec::Match(p) => {
                out.push(2u8);
                push_bytes(&mut out, p);
            },
        }
        proof {
            assert(m@.sourced_by[i as int] == m.sourced_by@[i as int]@);
            assert(out@ =~= base1 + enc_backwards(sofar) + enc_backward(
                m@.sourced_by[i as int],
            ));
            lemma_enc_backwards_snoc(m@.sourced_by, i as int);
            assert(out@ =~= base1 + enc_backwards(m@.sourced_by.subrange(0, i + 1)));
        }
        i += 1;
    }
    proof {
        assert(m@.sourced_by.subrange(0, m@.sourced_by.len() as int) =~= m@.sourced_by);
    }
    push_u64(&mut out, m.sources.len() as u64);
    let ghost base2 = out@;
    let mut i: usize = 0;
    while i < m.sources.len()
        invariant
            i <= m.sources@.len(),
            m@.sources.len() == m.sources@.len(),
            out@ == base2 + enc_paths(m@.sources.subrange(0, i as int)),
        decreases m.sources@.len() - i,
    {
        let ghost sofar = m@.sources.subrange(0, i as int);
        push_bytes(&mut out, &m.sources[i].path);
        proof {
            assert(m@.sources[i as int] == m.sources@[i as int]@);
            assert(out@ =~= base2 + enc_paths(sofar) + enc_bytes(m@.sources[i as int]));
            lemma_enc_paths_snoc(m@.sources, i as int);
            assert(out@ =~= base2 + enc_paths(m@.sources.subrange(0, i + 1)));
        }
        i += 1;
    }
    proof {
        assert(m@.sources.subrange(0, m@.sources.len() as int) =~= m@.sources);
    }
    match &m.working_directory {
        None => {
            out.push(0u8);
        },
        Some(p) => {
            out.push(1u8);
            push_bytes(&mut out, p);
        },
    }
    push_u64(&mut out, m.ignored_lines.len() as u64);
    let ghost base3 = out@;
    let mut i: usize = 0;
    while i < m.ignored_lines.len()
        invariant
            i <= m.ignored_lines@.len(),
            out@ == base3 + enc_lines(m@.ignored_lines.subrange(0, i as int)),
        decreases m.ignored_lines@.len() - i,
    {
        let ghost sofar = m@.ignored_lines.subrange(0, i as int);
        push_u64(&mut out, m.ignored_lines[i] as u64);
        proof {
            assert(out@ =~= base3 + enc_lines(sofar) + enc_u64(
                m@.ignored_lines[i as int] as u64,
            ));
            lemma_enc_lines_snoc(m@.ignored_lines, i as int);
            assert(out@ =~= base3 + enc_lines(m@.ignored_lines.subrange(0, i + 1)));
        }
        i += 1;
    }
    proof {
        assert(m@.ignored_lines.subrange(0, m@.ignored_lines.len() as int) =~= m@.ignored_lines);
    }
    push_u64(&mut out, m.ignored_next_lines.len() as u64);
    let ghost base4 = out@;
    let mut i: usize = 0;
    while i < m.ignored_next_lines.len()
        invariant
            i <= m.ignored_next_lines@.len(),
            out@ == base4 + enc_lines(m@.ignored_next_lines.subrange(0, i as int)),
        decreases m.ignored_next_lines@.len() - i,
    {
        let ghost sofar = m@.ignored_next_lines.subrange(0, i as int);
        push_u64(&mut out, m.ignored_next_lines[i] as u64);
        proof {
            assert(out@ =~= base4 + enc_lines(sofar) + enc_u64(
                m@.ignored_next_lines[i as int] as u64,
            ));
            lemma_enc_lines_snoc(m@.ignored_next_lines, i as int);
            assert(out@ =~= base4 + enc_lines(m@.ignored_next_lines.subrange(0, i + 1)));
        }
        i += 1;
    }
    proof {
        assert(m@.ignored_next_lines.subrange(0, m@.ignored_next_lines.len() as int)
            =~= m@.ignored_next_lines);
        assert(out@ =~= serialize_spec(m@));
    }
    out
}

proof fn lemma_enc_backwards_snoc(s: Seq<BackwardView>, i: int)
    requires
        0 <= i < s.len(),
    ensures
        enc_backwards(s.subrange(0, i + 1)) == enc_backwards(s.subrange(0, i)) + enc_backward(
            s[i],
        ),
    decreases i,
{
    let a = s.subrange(0, i + 1);
    if i == 0 {
        assert(a.drop_first() =~= Seq::<BackwardView>::empty());
        assert(a[0] == s[0]);
        assert(enc_backwards(a) =~= enc_backward(s[0]) + enc_backwards(a.drop_first()));
        assert(s.subrange(0, 0) =~= Seq::<BackwardView>::empty());
        assert(enc_backwards(a) =~= enc_backwards(s.subrange(0, 0)) + enc_backward(s[0]));
    } else {
        lemma_enc_backwards_snoc(s.drop_first(), i - 1);
        assert(a[0] == s[0]);
        assert(a.drop_first() =~= s.drop_first().subrange(0, i));
        assert(s.subrange(0, i).drop_first() =~= s.drop_first().subrange(0, i - 1));
        assert(s.drop_first()[i - 1] == s[i]);
        assert(enc_backwards(a) == enc_backward(s[0]) + enc_backwards(
            s.drop_first().subrange(0, i),
        ));
        assert(enc_backwards(s.subrange(0, i)) == enc_backward(s[0]) + enc_backwards(
            s.drop_first().subrange(0, i - 1),
        ));
        assert(enc_backwards(a) =~= enc_backwards(s.subrange(0, i)) + enc_backward(s[i]));
    }
}

proof fn lemma_enc_paths_snoc(s: Seq<Seq<u8>>, i: int)
    requires
        0 <= i < s.len(),
    ensures
        enc_paths(s.subrange(0, i + 1)) == enc_paths(s.subrange(0, i)) + enc_bytes(s[i]),
    decreases i,
{
    let a = s.subrange(0, i + 1);
    if i == 0 {
        assert(a.drop_first() =~= Seq::<Seq<u8>>::empty());
        assert(a[0] == s[0]);
        assert(s.subrange(0, 0) =~= Seq::<Seq<u8>>::empty());
        assert(enc_paths(a) =~= enc_paths(s.subrange(0, 0)) + enc_bytes(s[0]));
    } else {
        lemma_enc_paths_snoc(s.drop_first(), i - 1);
        assert(a[0] == s[0]);
        assert(a.drop_first() =~= s.drop_first().subrange(0, i));
        assert(s.subrange(0, i).drop_first() =~= s.drop_first().subrange(0, i - 1));
        assert(s.drop_first()[i - 1] == s[i]);
        assert(enc_paths(a) =~= enc_paths(s.subrange(0, i)) + enc_bytes(s[i]));
    }
}

proof fn lemma_enc_lines_snoc(s: Seq<u32>, i: int)
    requires
        0 <= i < s.len(),
    ensures
        enc_lines(s.subrange(0, i + 1)) == enc_lines(s.subrange(0, i)) + enc_u64(s[i] as u64),
    decreases i,
{
    let a = s.subrange(0, i + 1);
    if i == 0 {
        assert(a.drop_first() =~= Seq::<u32>::empty());
        assert(a[0] == s[0]);
        assert(s.subrange(0, 0) =~= Seq::<u32>::empty());
        assert(enc_lines(a) =~= enc_lines(s.subrange(0, 0)) + enc_u64(s[0] as u64));
    } else {
        lemma_enc_lines_snoc(s.drop_first(), i - 1);
        assert(a[0] == s[0]);
        assert(a.drop_first() =~= s.drop_first().subrange(0, i));
        assert(s.subrange(0, i).drop_first() =~= s.drop_first().subrange(0, i - 1));
        assert(s.drop_first()[i - 1] == s[i]);
        assert(enc_lines(a) =~= enc_lines(s.subrange(0, i)) + enc_u64(s[i] as u64));
    }
}


// ---------------------------------------------------------------------
// Executable decoder.
// ---------------------------------------------------------------------

/// Ghost values of a directive vector.
pub open spec fn bviews(v: Seq<BackwardDirective>) -> Seq<BackwardView> {
    v.map_values(|d: BackwardDirective| d@)
}

/// Ghost values of a forward-directive vector.
pub open spec fn fviews(v: Seq<ForwardDirective>) -> Seq<Seq<u8>> {
    v.map_values(|d: ForwardDirective| d@)
}

fn read_u64(s: &Vec<u8>, pos: usize) -> (r: Option<(u64, usize)>)
    ensures
        match r {
            Some((x, p)) => dec_u64(s@, pos as int) == Some((x, p as int)),
            None => dec_u64(s@, pos as int) is None,
        },
{
    if s.len() >= 8 && pos <= s.len() - 8 {
        let x = (s[pos] as u64) | ((s[pos + 1] as u64) << 8) | ((s[pos + 2] as u64) << 16) | ((
        s[pos + 3] as u64) << 24) | ((s[pos + 4] as u64) << 32) | ((s[pos + 5] as u64) << 40)
            | ((s[pos + 6] as u64) << 48) | ((s[pos + 7] as u64) << 56);
        Some((x, pos + 8))
    } else {
        None
    }
}

fn read_bytes(s: &Vec<u8>, pos: usize) -> (r: Option<(Vec<u8>, usize)>)
    ensures
        match r {
            Some((b, p)) => dec_bytes(s@, pos as int) == Some((b@, p as int)),
            None => dec_bytes(s@, pos as int) is None,
        },
{
    match read_u64(s, pos) {
        None => None,
        Some((n, p2)) => {
            if n <= (s.len() - p2) as u64 {
                let len = n as usize;
                let mut b: Vec<u8> = Vec::new();
                let mut i: usize = 0;
                proof {
                    assert(s@.len() <= usize::MAX);
                }
                while i < len
                    invariant
                        i <= len,
                        p2 + len <= s@.len(),
                        s@.len() <= usize::MAX,
                        b@ == s@.subrange(p2 as int, p2 + i),
                    decreases len - i,
                {
                    b.push(s[p2 + i]);
                    proof {
                        assert(b@ =~= s@.subrange(p2 as int, p2 + i + 1));
                    }
                    i += 1;
                }
                Some((b, p2 + len))
            } else {
                None
            }
        },
    }
}

fn read_call(s: &Vec<u8>, pos: usize) -> (r: Option<(CallSiteSpec, usize)>)
    ensures
        match r {
            Some((c, p)) => dec_call(s@, pos as int) == Some((c@, p as int)),
            None => dec_call(s@, pos as int) is None,
        },
{
    if pos >= s.len() {
        return None;
    }
    let tag = s[pos];
    if tag == 0 {
        Some((CallSiteSpec::Default, pos + 1))
    } else if tag == 1 {
        match read_u64(s, pos + 1) {
            None => None,
            Some((n, p2)) => {
                if n <= u32::MAX as u64 {
                    Some((CallSiteSpec::Line(n as u32), p2))
                } else {
                    None
                }
            },
        }
    } else if tag == 2 {
        match read_bytes(s, pos + 1) {
            None => None,
            Some((b, p2)) => Some((CallSiteSpec::Match(b), p2)),
        }
    } else {
        None
    }
}

fn read_backward(s: &Vec<u8>, pos: usize) -> (r: Option<(BackwardDirective, usize)>)
    ensures
        match r {
            Some((d, p)) => dec_backward(s@, pos as int) == Some((d@, p as int)),
            None => dec_backward(s@, pos as int) is None,
        },
{
    match read_bytes(s, pos) {
        None => None,
        Some((path, p2)) => match read_call(s, p2) {
            None => None,
            Some((c, p3)) => Some((BackwardDirective { path, call_site: c }, p3)),
        },
    }
}

fn read_backwards(s: &Vec<u8>, pos: usize, count: u64) -> (r: Option<(
    Vec<BackwardDirective>,
    usize,
)>)
    ensures
        match r {
            Some((v, p)) => dec_backwards(s@, pos as int, count as nat) == Some((
                bviews(v@),
                p as int,
            )),
            None => dec_backwards(s@, pos as int, count as nat) is None,
        },
{
    let mut acc: Vec<BackwardDirective> = Vec::new();
    let mut cur: usize = pos;
    let mut i: u64 = 0;
    proof {
        assert(bviews(acc@) =~= Seq::<BackwardView>::empty());
    }
    while i < count
        invariant
            i <= count,
            forall|rest: Seq<BackwardView>, end: int|
                dec_backwards(s@, cur as int, (count - i) as nat) == Some((rest, end))
                    ==> dec_backwards(s@, pos as int, count as nat) == Some((
                    bviews(acc@) + rest,
                    end,
                )),
            (dec_backwards(s@, cur as int, (count - i) as nat) is None) ==> (dec_backwards(
                s@,
                pos as int,
                count as nat,
            ) is None),
        decreases count - i,
    {
        let ghost rem = (count - i) as nat;
        let ghost acc0 = bviews(acc@);
        match read_backward(s, cur) {
            None => {
                proof {
                    assert(dec_backwards(s@, cur as int, rem) is None);
                }
                return None;
            },
            Some((d, p2)) => {
                proof {
                    assert(dec_backward(s@, cur as int) == Some((d@, p2 as int)));
                }
                let ghost dv = d@;
                acc.push(d);
                cur = p2;
                proof {
                    assert(bviews(acc@) =~= acc0 + seq![dv]);
                    assert forall|rest: Seq<BackwardView>, end: int|
                        dec_backwards(s@, cur as int, (count - (i + 1)) as nat) == Some((
                            rest,
                            end,
                        )) implies dec_backwards(s@, pos as int, count as nat) == Some((
                        bviews(acc@) + rest,
                        end,
                    )) by {
                        assert(dec_backwards(s@, p2 as int, (rem - 1) as nat) == Some((
                            rest,
                            end,
                        )));
                        assert((acc0 + seq![dv]) + rest =~= acc0 + (seq![dv] + rest));
                    }
                    if dec_backwards(s@, cur as int, (count - (i + 1)) as nat) is None {
                        assert(dec_backwards(s@, pos as int, count as nat) is None);
                    }
                }
                i += 1;
            },
        }
    }
    proof {
        assert(dec_backwards(s@, cur as int, 0) == Some((Seq::<BackwardView>::empty(), cur
            as int)));
        assert(bviews(acc@) + Seq::<BackwardView>::empty() =~= bviews(acc@));
    }
    Some((acc, cur))
}

fn read_paths(s: &Vec<u8>, pos: usize, count: u64) -> (r: Option<(Vec<ForwardDirective>, usize)>)
    ensures
        match r {
            Some((v, p)) => dec_paths(s@, pos as int, count as nat) == Some((
                fviews(v@),
                p as int,
            )),
            None => dec_paths(s@, pos as int, count as nat) is None,
        },
{
    let mut acc: Vec<ForwardDirective> = Vec::new();
    let mut cur: usize = pos;
    let mut i: u64 = 0;
    proof {
        assert(fviews(acc@) =~= Seq::<Seq<u8>>::empty());
    }
    while i < count
        invariant
            i <= count,
            forall|rest: Seq<Seq<u8>>, end: int|
                dec_paths(s@, cur as int, (count - i) as nat) == Some((rest, end))
                    ==> dec_paths(s@, pos as int, count as nat) == Some((
                    fviews(acc@) + rest,
                    end,
                )),
            (dec_paths(s@, cur as int, (count - i) as nat) is None) ==> (dec_paths(
                s@,
                pos as int,
                count as nat,
            ) is None),
        decreases count - i,
    {
        let ghost rem = (count - i) as nat;
        let ghost acc0 = fviews(acc@);
        match read_bytes(s, cur) {
            None => {
                proof {
                    assert(dec_paths(s@, cur as int, rem) is None);
                }
                return None;
            },
            Some((b, p2)) => {
                let ghost bv = b@;
                acc.push(ForwardDirective { path: b });
                cur = p2;
                proof {
                    assert(fviews(acc@) =~= acc0 + seq![bv]);
                    assert forall|rest: Seq<Seq<u8>>, end: int|
                        dec_paths(s@, cur as int, (count - (i + 1)) as nat) == Some((
                            rest,
                            end,
                        )) implies dec_paths(s@, pos as int, count as nat) == Some((
                        fviews(acc@) + rest,
                        end,
                    )) by {
                        assert(dec_paths(s@, p2 as int, (rem - 1) as nat) == Some((rest, end)));
                        assert((acc0 + seq![bv]) + rest =~= acc0 + (seq![bv] + rest));
                    }
                    if dec_paths(s@, cur as int, (count - (i + 1)) as nat) is None {
                        assert(dec_paths(s@, pos as int, count as nat) is None);
                    }
                }
                i += 1;
            },
        }
    }
    proof {
        assert(dec_paths(s@, cur as int, 0) == Some((Seq::<Seq<u8>>::empty(), cur as int)));
        assert(fviews(acc@) + Seq::<Seq<u8>>::empty() =~= fviews(acc@));
    }
    Some((acc, cur))
}

fn read_lines(s: &Vec<u8>, pos: usize, count: u64) -> (r: Option<(Vec<u32>, usize)>)
    ensures
        match r {
            Some((v, p)) => dec_lines(s@, pos as int, count as nat) == Some((v@, p as int)),
            None => dec_lines(s@, pos as int, count as nat) is None,
        },
{
    let mut acc: Vec<u32> = Vec::new();
    let mut cur: usize = pos;
    let mut i: u64 = 0;
    while i < count
        invariant
            i <= count,
            forall|rest: Seq<u32>, end: int|
                dec_lines(s@, cur as int, (count - i) as nat) == Some((rest, end))
                    ==> dec_lines(s@, pos as int, count as nat) == Some((acc@ + rest, end)),
            (dec_lines(s@, cur as int, (count - i) as nat) is None) ==> (dec_lines(
                s@,
                pos as int,
                count as nat,
            ) is None),
        decreases count - i,
    {
        let ghost rem = (count - i) as nat;
        let ghost acc0 = acc@;
        match read_u64(s, cur) {
            None => {
                proof {
                    assert(dec_lines(s@, cur as int, rem) is None);
                }
                return None;
            },
            Some((n, p2)) => {
                if n > u32::MAX as u64 {
                    proof {
                        assert(dec_lines(s@, cur as int, rem) is None);
                    }
                    return None;
                }
                acc.push(n as u32);
                cur = p2;
                proof {
                    assert(acc@ =~= acc0 + seq![n as u32]);
                    assert forall|rest: Seq<u32>, end: int|
                        dec_lines(s@, cur as int, (count - (i + 1)) as nat) == Some((
                            rest,
                            end,
                        )) implies dec_lines(s@, pos as int, count as nat) == Some((
                        acc@ + rest,
                        end,
                    )) by {
                        assert(dec_lines(s@, p2 as int, (rem - 1) as nat) == Some((rest, end)));
                        assert((acc0 + seq![n as u32]) + rest =~= acc0 + (seq![n as u32]
                            + rest));
                    }
                    if dec_lines(s@, cur as int, (count - (i + 1)) as nat) is None {
                        assert(dec_lines(s@, pos as int, count as nat) is None);
                    }
                }
                i += 1;
            },
        }
    }
    proof {
        assert(dec_lines(s@, cur as int, 0) == Some((Seq::<u32>::empty(), cur as int)));
        assert(acc@ + Seq::<u32>::empty() =~= acc@);
    }
    Some((acc, cur))
}

/// Decode a whole metadata value; `None` on any malformed input or
/// trailing bytes.
pub fn deserialize(s: &Vec<u8>) -> (r: Option<CrossFileMetadata>)
    ensures
        match r {
            Some(m) => deserialize_spec(s@) == Some(m@),
            None => deserialize_spec(s@) is None,
        },
{
    let (nb, p1) = match read_u64(s, 0) {
        None => {
            return None;
        },
        Some(x) => x,
    };
    let (sourced_by, p2) = match read_backwards(s, p1, nb) {
        None => {
            return None;
        },
        Some(x) => x,
    };
    let (nf, p3) = match read_u64(s, p2) {
        None => {
            return None;
        },
        Some(x) => x,
    };
    let (sources, p4) = match read_paths(s, p3, nf) {
        None => {
            return None;
        },
        Some(x) => x,
    };
    if p4 >= s.len() {
        return None;
    }
    let tag = s[p4];
    let (wd, p5) = if tag == 0 {
        (None, p4 + 1)
    } else if tag == 1 {
        match read_bytes(s, p4 + 1) {
            None => {
                return None;
            },
            Some((b, p)) => (Some(b), p),
        }
    } else {
        return None;
    };
    let (ni, p6) = match read_u64(s, p5) {
        None => {
            return None;
        },
        Some(x) => x,
    };
    let (il, p7) = match read_lines(s, p6, ni) {
        None => {
            return None;
        },
        Some(x) => x,
    };
    let (nn, p8) = match read_u64(s, p7) {
        None => {
            return None;
        },
        Some(x) => x,
    };
    let (inl, p9) = match read_lines(s, p8, nn) {
        None => {
            return None;
        },
        Some(x) => x,
    };
    if p9 != s.len() {
        return None;
    }
    let m = CrossFileMetadata {
        sourced_by,
        sources,
        working_directory: wd,
        ignored_lines: il,
        ignored_next_lines: inl,
    };
    proof {
        assert(m@.sourced_by =~= bviews(m.sourced_by@));
        assert(m@.sources =~= fviews(m.sources@));
        assert(deserialize_spec(s@) == Some(m@));
    }
    Some(m)
}


// ---------------------------------------------------------------------
// Round trip: the decoder accepts the encoder's output and returns the
// encoded value.
// ---------------------------------------------------------------------

/// The bytes of `w` stand in `s` at `pos`.
pub open spec fn slice_is(s: Seq<u8>, pos: int, w: Seq<u8>) -> bool {
    &&& pos >= 0
    &&& pos + w.len() <= s.len()
    &&& s.subrange(pos, pos + w.len()) == w
}

proof fn lemma_slice_split(s: Seq<u8>, pos: int, u: Seq<u8>, v: Seq<u8>)
    requires
        slice_is(s, pos, u + v),
    ensures
        slice_is(s, pos, u),
        slice_is(s, pos + u.len(), v),
{
    let w = u + v;
    let sub = s.subrange(pos, pos + w.len());
    assert(s.subrange(pos, pos + u.len()) =~= u) by {
        assert forall|i: int| 0 <= i < u.len() implies s.subrange(pos, pos + u.len())[i]
            == u[i] by {
            assert(s.subrange(pos, pos + u.len())[i] == s[pos + i]);
            assert(sub[i] == s[pos + i]);
            assert(sub[i] == w[i]);
            assert(w[i] == u[i]);
        }
    }
    assert(s.subrange(pos + u.len(), pos + u.len() + v.len()) =~= v) by {
        assert forall|i: int|
            0 <= i < v.len() implies s.subrange(pos + u.len(), pos + u.len() + v.len())[i]
            == v[i] by {
            assert(s.subrange(pos + u.len(), pos + u.len() + v.len())[i] == s[pos + u.len()
                + i]);
            assert(sub[u.len() + i] == s[pos + u.len() + i]);
            assert(sub[u.len() + i] == w[u.len() + i]);
            assert(w[u.len() + i] == v[i]);
        }
    }
}

proof fn lemma_rt_u64(s: Seq<u8>, pos: int, x: u64)
    requires
        slice_is(s, pos, enc_u64(x)),
    ensures
        dec_u64(s, pos) == Some((x, pos + 8)),
{
    let sub = s.subrange(pos, pos + 8);
    assert(s[pos] == x as u8) by {
        assert(sub[0] == s[pos] && sub[0] == enc_u64(x)[0]);
    }
    assert(s[pos + 1] == (x >> 8) as u8) by {
        assert(sub[1] == s[pos + 1] && sub[1] == enc_u64(x)[1]);
    }
    assert(s[pos + 2] == (x >> 16) as u8) by {
        assert(sub[2] == s[pos + 2] && sub[2] == enc_u64(x)[2]);
    }
    assert(s[pos + 3] == (x >> 24) as u8) by {
        assert(sub[3] == s[pos + 3] && sub[3] == enc_u64(x)[3]);
    }
    assert(s[pos + 4] == (x >> 32) as u8) by {
        assert(sub[4] == s[pos + 4] && sub[4] == enc_u64(x)[4]);
    }
    assert(s[pos + 5] == (x >> 40) as u8) by {
        assert(sub[5] == s[pos + 5] && sub[5] == enc_u64(x)[5]);
    }
    assert(s[pos + 6] == (x >> 48) as u8) by {
        assert(sub[6] == s[pos + 6] && sub[6] == enc_u64(x)[6]);
    }
    assert(s[pos + 7] == (x >> 56) as u8) by {
        assert(sub[7] == s[pos + 7] && sub[7] == enc_u64(x)[7]);
    }
    assert(((x as u8) as u64) | (((x >> 8) as u8 as u64) << 8) | (((x >> 16) as u8 as u64)
        << 16) | (((x >> 24) as u8 as u64) << 24) | (((x >> 32) as u8 as u64) << 32) | (((x
        >> 40) as u8 as u64) << 40) | (((x >> 48) as u8 as u64) << 48) | (((x >> 56) as u8
        as u64) << 56) == x) by (bit_vector);
    assert(dec_u64_at(s, pos) == x);
}

proof fn lemma_rt_bytes(s: Seq<u8>, pos: int, b: Seq<u8>)
    requires
        slice_is(s, pos, enc_bytes(b)),
        b.len() <= u64::MAX,
    ensures
        dec_bytes(s, pos) == Some((b, pos + 8 + b.len())),
{
    lemma_slice_split(s, pos, enc_u64(b.len() as u64), b);
    lemma_rt_u64(s, pos, b.len() as u64);
    assert((b.len() as u64) as int == b.len());
    assert(s.subrange(pos + 8, pos + 8 + b.len()) == b);
}

proof fn lemma_rt_call(s: Seq<u8>, pos: int, c: CallView)
    requires
        slice_is(s, pos, enc_call(c)),
        match c {
            CallView::Match(p) => p.len() <= u64::MAX,
            _ => true,
        },
    ensures
        dec_call(s, pos) == Some((c, pos + enc_call(c).len())),
{
    let sub = s.subrange(pos, pos + enc_call(c).len());
    match c {
        CallView::Default => {
            assert(s[pos] == 0u8) by {
                assert(sub[0] == s[pos] && sub[0] == enc_call(c)[0]);
                assert(enc_call(c)[0] == 0u8);
            }
        },
        CallView::Line(n) => {
            assert(enc_call(c) == seq![1u8] + enc_u64(n as u64));
            lemma_slice_split(s, pos, seq![1u8], enc_u64(n as u64));
            assert(s[pos] == 1u8) by {
                assert(s.subrange(pos, pos + 1)[0] == s[pos]);
                assert(s.subrange(pos, pos + 1) == seq![1u8]);
                assert(seq![1u8][0] == 1u8);
            }
            lemma_rt_u64(s, pos + 1, n as u64);
            assert((n as u64) <= u32::MAX);
            assert(((n as u64) as u32) == n);
        },
        CallView::Match(p) => {
            assert(enc_call(c) == seq![2u8] + enc_bytes(p));
            lemma_slice_split(s, pos, seq![2u8], enc_bytes(p));
            assert(s[pos] == 2u8) by {
                assert(s.subrange(pos, pos + 1)[0] == s[pos]);
                assert(s.subrange(pos, pos + 1) == seq![2u8]);
                assert(seq![2u8][0] == 2u8);
            }
            lemma_rt_bytes(s, pos + 1, p);
        },
    }
}

proof fn lemma_rt_backward(s: Seq<u8>, pos: int, d: BackwardView)
    requires
        slice_is(s, pos, enc_backward(d)),
        d.path.len() <= u64::MAX,
        match d.call_site {
            CallView::Match(p) => p.len() <= u64::MAX,
            _ => true,
        },
    ensures
        dec_backward(s, pos) == Some((d, pos + enc_backward(d).len())),
{
    lemma_slice_split(s, pos, enc_bytes(d.path), enc_call(d.call_site));
    lemma_rt_bytes(s, pos, d.path);
    lemma_rt_call(s, pos + 8 + d.path.len(), d.call_site);
}

/// Every directive in the sequence fits the wire fields.
pub open spec fn backwards_encodable(items: Seq<BackwardView>) -> bool {
    forall|i: int|
        0 <= i < items.len() ==> (#[trigger] items[i]).path.len() <= u64::MAX
            && match items[i].call_site {
            CallView::Match(p) => p.len() <= u64::MAX,
            _ => true,
        }
}

proof fn lemma_rt_backwards(s: Seq<u8>, pos: int, items: Seq<BackwardView>)
    requires
        slice_is(s, pos, enc_backwards(items)),
        backwards_encodable(items),
    ensures
        dec_backwards(s, pos, items.len()) == Some((items, pos + enc_backwards(items).len())),
    decreases items.len(),
{
    if items.len() == 0 {
        assert(items =~= Seq::<BackwardView>::empty());
    } else {
        assert(enc_backwards(items) == enc_backward(items[0]) + enc_backwards(
            items.drop_first(),
        ));
        lemma_slice_split(s, pos, enc_backward(items[0]), enc_backwards(items.drop_first()));
        lemma_rt_backward(s, pos, items[0]);
        assert(backwards_encodable(items.drop_first())) by {
            assert(forall|i: int|
                0 <= i < items.drop_first().len() ==> items.drop_first()[i] == items[i + 1]);
        }
        lemma_rt_backwards(s, pos + enc_backward(items[0]).len(), items.drop_first());
        assert(seq![items[0]] + items.drop_first() =~= items);
    }
}

proof fn lemma_rt_paths(s: Seq<u8>, pos: int, items: Seq<Seq<u8>>)
    requires
        slice_is(s, pos, enc_paths(items)),
        forall|i: int| 0 <= i < items.len() ==> (#[trigger] items[i]).len() <= u64::MAX,
    ensures
        dec_paths(s, pos, items.len()) == Some((items, pos + enc_paths(items).len())),
    decreases items.len(),
{
    if items.len() == 0 {
        assert(items =~= Seq::<Seq<u8>>::empty());
    } else {
        assert(enc_paths(items) == enc_bytes(items[0]) + enc_paths(items.drop_first()));
        lemma_slice_split(s, pos, enc_bytes(items[0]), enc_paths(items.drop_first()));
        lemma_rt_bytes(s, pos, items[0]);
        assert(forall|i: int|
            0 <= i < items.drop_first().len() ==> items.drop_first()[i] == items[i + 1]);
        lemma_rt_paths(s, pos + enc_bytes(items[0]).len(), items.drop_first());
        assert(seq![items[0]] + items.drop_first() =~= items);
    }
}

proof fn lemma_rt_lines(s: Seq<u8>, pos: int, items: Seq<u32>)
    requires
        slice_is(s, pos, enc_lines(items)),
    ensures
        dec_lines(s, pos, items.len()) == Some((items, pos + enc_lines(items).len())),
    decreases items.len(),
{
    if items.len() == 0 {
        assert(items =~= Seq::<u32>::empty());
    } else {
        assert(enc_lines(items) == enc_u64(items[0] as u64) + enc_lines(items.drop_first()));
        lemma_slice_split(s, pos, enc_u64(items[0] as u64), enc_lines(items.drop_first()));
        lemma_rt_u64(s, pos, items[0] as u64);
        assert((items[0] as u64) <= u32::MAX);
        assert(((items[0] as u64) as u32) == items[0]);
        lemma_rt_lines(s, pos + 8, items.drop_first());
        assert(seq![items[0]] + items.drop_first() =~= items);
    }
}

proof fn lemma_rt_wd(s: Seq<u8>, pos: int, w: Option<Seq<u8>>)
    requires
        slice_is(s, pos, enc_wd(w)),
        match w {
            Some(p) => p.len() <= u64::MAX,
            None => true,
        },
    ensures
        dec_wd(s, pos) == Some((w, pos + enc_wd(w).len())),
{
    match w {
        None => {
            assert(s[pos] == 0u8) by {
                let sub = s.subrange(pos, pos + 1);
                assert(sub[0] == s[pos] && sub[0] == enc_wd(w)[0]);
                assert(enc_wd(w)[0] == 0u8);
            }
        },
        Some(p) => {
            assert(enc_wd(w) == seq![1u8] + enc_bytes(p));
            lemma_slice_split(s, pos, seq![1u8], enc_bytes(p));
            assert(s[pos] == 1u8) by {
                assert(s.subrange(pos, pos + 1)[0] == s[pos]);
                assert(s.subrange(pos, pos + 1) == seq![1u8]);
                assert(seq![1u8][0] == 1u8);
            }
            lemma_rt_bytes(s, pos + 1, p);
        },
    }
}

/// Offsets of the nine fields inside the encoding of `m`.
pub open spec fn off1(m: MetadataView) -> int { 8 }
pub open spec fn off2(m: MetadataView) -> int { off1(m) + enc_backwards(m.sourced_by).len() }
pub open spec fn off3(m: MetadataView) -> int { off2(m) + 8 }
pub open spec fn off4(m: MetadataView) -> int { off3(m) + enc_paths(m.sources).len() }
pub open spec fn off5(m: MetadataView) -> int { off4(m) + enc_wd(m.working_directory).len() }
pub open spec fn off6(m: MetadataView) -> int { off5(m) + 8 }
pub open spec fn off7(m: MetadataView) -> int { off6(m) + enc_lines(m.ignored_lines).len() }
pub open spec fn off8(m: MetadataView) -> int { off7(m) + 8 }
pub open spec fn off9(m: MetadataView) -> int {
    off8(m) + enc_lines(m.ignored_next_lines).len()
}

#[verifier::rlimit(100)]
#[verifier::spinoff_prover]
proof fn lemma_rt_fields(m: MetadataView)
    requires
        encodable(m),
    ensures
        dec_u64(serialize_spec(m), 0) == Some((m.sourced_by.len() as u64, off1(m))),
        dec_backwards(serialize_spec(m), off1(m), m.sourced_by.len()) == Some((
            m.sourced_by,
            off2(m),
        )),
        dec_u64(serialize_spec(m), off2(m)) == Some((m.sources.len() as u64, off3(m))),
        dec_paths(serialize_spec(m), off3(m), m.sources.len()) == Some((m.sources, off4(m))),
        dec_wd(serialize_spec(m), off4(m)) == Some((m.working_directory, off5(m))),
        dec_u64(serialize_spec(m), off5(m)) == Some((m.ignored_lines.len() as u64, off6(m))),
        dec_lines(serialize_spec(m), off6(m), m.ignored_lines.len()) == Some((
            m.ignored_lines,
            off7(m),
        )),
        dec_u64(serialize_spec(m), off7(m)) == Some((
            m.ignored_next_lines.len() as u64,
            off8(m),
        )),
        dec_lines(serialize_spec(m), off8(m), m.ignored_next_lines.len()) == Some((
            m.ignored_next_lines,
            off9(m),
        )),
        off9(m) == serialize_spec(m).len(),
{
    let s = serialize_spec(m);
    let e1 = enc_u64(m.sourced_by.len() as u64);
    let e2 = enc_backwards(m.sourced_by);
    let e3 = enc_u64(m.sources.len() as u64);
    let e4 = enc_paths(m.sources);
    let e5 = enc_wd(m.working_directory);
    let e6 = enc_u64(m.ignored_lines.len() as u64);
    let e7 = enc_lines(m.ignored_lines);
    let e8 = enc_u64(m.ignored_next_lines.len() as u64);
    let e9 = enc_lines(m.ignored_next_lines);
    let t2 = e1 + e2;
    let t3 = t2 + e3;
    let t4 = t3 + e4;
    let t5 = t4 + e5;
    let t6 = t5 + e6;
    let t7 = t6 + e7;
    let t8 = t7 + e8;
    let t9 = t8 + e9;
    assert(s == t9);
    assert(slice_is(s, 0, t9)) by {
        assert(s.subrange(0, s.len() as int) =~= s);
    }
    lemma_slice_split(s, 0, t8, e9);
    lemma_slice_split(s, 0, t7, e8);
    lemma_slice_split(s, 0, t6, e7);
    lemma_slice_split(s, 0, t5, e6);
    lemma_slice_split(s, 0, t4, e5);
    lemma_slice_split(s, 0, t3, e4);
    lemma_slice_split(s, 0, t2, e3);
    lemma_slice_split(s, 0, e1, e2);
    lemma_rt_u64(s, 0, m.sourced_by.len() as u64);
    lemma_rt_backwards(s, off1(m), m.sourced_by);
    lemma_rt_u64(s, off2(m), m.sources.len() as u64);
    lemma_rt_paths(s, off3(m), m.sources);
    lemma_rt_wd(s, off4(m), m.working_directory);
    lemma_rt_u64(s, off5(m), m.ignored_lines.len() as u64);
    lemma_rt_lines(s, off6(m), m.ignored_lines);
    lemma_rt_u64(s, off7(m), m.ignored_next_lines.len() as u64);
    lemma_rt_lines(s, off8(m), m.ignored_next_lines);
}

/// Round trip: decoding what the encoder produced yields the encoded
/// value, every field preserved — directives with their order and call
/// sites, the working directory, and both ignored-line sets.
pub proof fn lemma_metadata_round_trip(m: MetadataView)
    requires
        encodable(m),
    ensures
        deserialize_spec(serialize_spec(m)) == Some(m),
{
    let s = serialize_spec(m);
    lemma_rt_fields(m);
    assert(((m.sourced_by.len() as u64) as nat) == m.sourced_by.len());
    assert(((m.sources.len() as u64) as nat) == m.sources.len());
    assert(((m.ignored_lines.len() as u64) as nat) == m.ignored_lines.len());
    assert(((m.ignored_next_lines.len() as u64) as nat) == m.ignored_next_lines.len());
    assert(deserialize_spec(s) == Some(MetadataView {
        sourced_by: m.sourced_by,
        sources: m.sources,
        working_directory: m.working_directory,
        ignored_lines: m.ignored_lines,
        ignored_next_lines: m.ignored_next_lines,
    }));
}

} // verus!
