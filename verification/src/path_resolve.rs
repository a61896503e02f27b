//! The path resolver: a directive's raw path string plus its context —
//! containing directory, declared working directories, workspace root —
//! yields a concrete absolute location, or nothing.
//!
//! Paths are handled as sequences of name segments. Resolution is purely
//! lexical: `.` collapses, `..` steps up without touching the
//! filesystem, and a result that would escape a defined workspace root
//! is refused.

use vstd::prelude::*;

use crate::directive::scan_to_byte;
use crate::uri::clone_bytes;
use crate::uri::FileUri;

verus! {

/// The ghost value of a segment list.
pub open spec fn segs_view(v: Seq<Vec<u8>>) -> Seq<Seq<u8>> {
    v.map_values(|s: Vec<u8>| s@)
}

/// The segment `.`.
pub open spec fn is_dot(s: Seq<u8>) -> bool {
    s.len() == 1 && s[0] == 46
}

/// The segment `..`.
pub open spec fn is_dotdot(s: Seq<u8>) -> bool {
    s.len() == 2 && s[0] == 46 && s[1] == 46
}

/// Split a path on `/` from byte `i` on, dropping empty segments.
pub open spec fn split_from(s: Seq<u8>, i: int) -> Seq<Seq<u8>>
    decreases s.len() - i,
{
    if i < 0 || i >= s.len() {
        Seq::empty()
    } else {
        let e = scan_to_byte(s, i, 47);
        let seg = s.subrange(i, e);
        let rest = if e >= s.len() || e < i {
            Seq::empty()
        } else {
            split_from(s, e + 1)
        };
        if seg.len() > 0 {
            seq![seg] + rest
        } else {
            rest
        }
    }
}

/// The segments of a raw path.
pub open spec fn split_path(s: Seq<u8>) -> Seq<Seq<u8>> {
    split_from(s, 0)
}

/// Normalise segments from `i` on against the stack built so far:
/// `.` vanishes, `..` pops, anything else is kept.
pub open spec fn normalize_from(segs: Seq<Seq<u8>>, i: int, stack: Seq<Seq<u8>>) -> Seq<
    Seq<u8>,
>
    decreases segs.len() - i,
{
    if i < 0 || i >= segs.len() {
        stack
    } else {
        let seg = segs[i];
        let stack2 = if is_dot(seg) {
            stack
        } else if is_dotdot(seg) {
            if stack.len() > 0 {
                stack.drop_last()
            } else {
                stack
            }
        } else {
            stack.push(seg)
        };
        normalize_from(segs, i + 1, stack2)
    }
}

/// Whether `pre` is a leading run of `s`.
pub open spec fn seg_prefix(pre: Seq<Seq<u8>>, s: Seq<Seq<u8>>) -> bool {
    pre.len() <= s.len() && forall|i: int| 0 <= i < pre.len() ==> s[i] == pre[i]
}

/// Whether a raw path begins with `/`.
pub open spec fn is_abs(s: Seq<u8>) -> bool {
    s.len() > 0 && s[0] == 47
}

/// Where a directive path is resolved: the file's own directory, any
/// declared working directories, and the workspace root, all as
/// absolute segment lists.
pub struct PathContext {
    /// Segments of the directory containing the file.
    pub file_dir: Vec<Vec<u8>>,
    /// Segments of the file's own working-directory directive, if any.
    pub working_directory: Option<Vec<Vec<u8>>>,
    /// Segments of a working directory inherited from a parent, if any.
    pub inherited_working_directory: Option<Vec<Vec<u8>>>,
    /// Segments of the workspace root, if one is known.
    pub workspace_root: Option<Vec<Vec<u8>>>,
}

impl PathContext {
    /// The base directory a relative path resolves against: the file's
    /// own working directory first, then an inherited one, then the
    /// containing directory.
    pub open spec fn base_view(self) -> Seq<Seq<u8>> {
        match self.working_directory {
            Some(w) => segs_view(w@),
            None => match self.inherited_working_directory {
                Some(w) => segs_view(w@),
                None => segs_view(self.file_dir@),
            },
        }
    }

    /// The root segments, if a workspace root is set.
    pub open spec fn root_view(self) -> Option<Seq<Seq<u8>>> {
        match self.workspace_root {
            Some(r) => Some(segs_view(r@)),
            None => None,
        }
    }
}

/// The resolved location of `raw` against a base directory and an
/// optional workspace root: `None` when a leading `/` finds no root, or
/// when the result would escape a defined root.
pub open spec fn resolve_in(raw: Seq<u8>, base: Seq<Seq<u8>>, root: Option<Seq<Seq<u8>>>) -> Option<
    Seq<Seq<u8>>,
> {
    let joined = if is_abs(raw) {
        match root {
            None => None,
            Some(rt) => Some(rt + split_path(raw)),
        }
    } else {
        Some(base + split_path(raw))
    };
    match joined {
        None => None,
        Some(j) => {
            let n = normalize_from(j, 0, Seq::empty());
            match root {
                None => Some(n),
                Some(rt) => if seg_prefix(rt, n) {
                    Some(n)
                } else {
                    None
                },
            }
        },
    }
}

/// The resolved location of `raw` in its context.
pub open spec fn resolve_spec(raw: Seq<u8>, ctx: PathContext) -> Option<Seq<Seq<u8>>> {
    resolve_in(raw, ctx.base_view(), ctx.root_view())
}

/// Split a raw path into its non-empty segments.
pub fn split_segments(raw: &Vec<u8>) -> (r: Vec<Vec<u8>>)
    ensures
        segs_view(r@) == split_path(raw@),
{
    let mut out: Vec<Vec<u8>> = Vec::new();
    let mut i: usize = 0;
    proof {
        assert(segs_view(out@) =~= Seq::<Seq<u8>>::empty());
    }
    while i < raw.len()
        invariant
            i <= raw@.len(),
            forall|rest: Seq<Seq<u8>>|
                split_from(raw@, i as int) == rest ==> split_path(raw@) == segs_view(out@)
                    + rest,
        decreases raw@.len() - i,
    {
        let ghost before = segs_view(out@);
        let e = crate::directive::find_byte(raw.as_slice(), i, 47);
        if e > i {
            let seg = crate::directive::copy_range(raw.as_slice(), i, e);
            let ghost sv = seg@;
            out.push(seg);
            proof {
                assert(segs_view(out@) =~= before.push(sv));
            }
        }
        proof {
            if e > i {
                assert((before.push(raw@.subrange(i as int, e as int))) + (if e
                    >= raw@.len() {
                    Seq::<Seq<u8>>::empty()
                } else {
                    split_from(raw@, e + 1)
                }) =~= before + split_from(raw@, i as int));
            }
        }
        if e >= raw.len() {
            i = raw.len();
            proof {
                assert(split_from(raw@, i as int) =~= Seq::<Seq<u8>>::empty());
                assert(segs_view(out@) + Seq::<Seq<u8>>::empty() =~= segs_view(out@));
            }
        } else {
            i = e + 1;
        }
    }
    proof {
        assert(split_from(raw@, i as int) =~= Seq::<Seq<u8>>::empty());
        assert(segs_view(out@) + Seq::<Seq<u8>>::empty() =~= segs_view(out@));
    }
    out
}

/// Copy a segment list.
fn clone_segs(v: &Vec<Vec<u8>>) -> (r: Vec<Vec<u8>>)
    ensures
        segs_view(r@) == segs_view(v@),
{
    let mut r: Vec<Vec<u8>> = Vec::new();
    let mut i: usize = 0;
    while i < v.len()
        invariant
            i <= v@.len(),
            r@.len() == i,
            forall|j: int| 0 <= j < i ==> segs_view(r@)[j] == segs_view(v@)[j],
        decreases v@.len() - i,
    {
        r.push(clone_bytes(&v[i]));
        i += 1;
    }
    proof {
        assert(segs_view(r@) =~= segs_view(v@));
    }
    r
}

/// Append normalised segments to the stack.
fn normalize_into(stack: &mut Vec<Vec<u8>>, segs: &Vec<Vec<u8>>)
    ensures
        segs_view(final(stack)@) == normalize_from(
            segs_view(segs@),
            0,
            segs_view(old(stack)@),
        ),
{
    let ghost full = segs_view(segs@);
    let mut i: usize = 0;
    while i < segs.len()
        invariant
            i <= segs@.len(),
            full == segs_view(segs@),
            normalize_from(full, 0, segs_view(old(stack)@)) == normalize_from(
                full,
                i as int,
                segs_view(stack@),
            ),
        decreases segs@.len() - i,
    {
        let ghost before = segs_view(stack@);
        let s = &segs[i];
        proof {
            assert(full[i as int] == segs@[i as int]@);
        }
        let n = s.len();
        let dot = n == 1 && s[0] == 46;
        let dotdot = n == 2 && s[0] == 46 && s[1] == 46;
        if dot {
        } else if dotdot {
            if stack.len() > 0 {
                let _ = stack.pop();
                proof {
                    assert(segs_view(stack@) =~= before.drop_last());
                }
            }
        } else {
            stack.push(clone_bytes(s));
            proof {
                assert(segs_view(stack@) =~= before.push(full[i as int]));
            }
        }
        i += 1;
    }
}

/// Whether `pre` is a leading run of `s`.
fn is_seg_prefix(pre: &Vec<Vec<u8>>, s: &Vec<Vec<u8>>) -> (r: bool)
    ensures
        r == seg_prefix(segs_view(pre@), segs_view(s@)),
{
    if pre.len() > s.len() {
        return false;
    }
    let mut i: usize = 0;
    while i < pre.len()
        invariant
            pre@.len() <= s@.len(),
            i <= pre@.len(),
            forall|j: int| 0 <= j < i ==> segs_view(s@)[j] == segs_view(pre@)[j],
        decreases pre@.len() - i,
    {
        if !crate::uri::bytes_eq(&pre[i], &s[i]) {
            proof {
                assert(segs_view(s@)[i as int] != segs_view(pre@)[i as int]);
            }
            return false;
        }
        proof {
            assert(segs_view(s@)[i as int] == segs_view(pre@)[i as int]);
        }
        i += 1;
    }
    true
}

/// Resolve a raw directive path in its context. Lexical only: `.` and
/// `..` collapse without touching the filesystem; a leading `/` is
/// taken against the workspace root and fails without one; a result
/// escaping a defined root is refused.
pub fn resolve_working_directory(raw: &Vec<u8>, ctx: &PathContext) -> (r: Option<Vec<Vec<u8>>>)
    ensures
        match r {
            Some(v) => resolve_spec(raw@, *ctx) == Some(segs_view(v@)),
            None => resolve_spec(raw@, *ctx) is None,
        },
{
    let rel = split_segments(raw);
    let absolute = raw.len() > 0 && raw[0] == 47;
    let mut joined: Vec<Vec<u8>> = if absolute {
        match &ctx.workspace_root {
            None => {
                return None;
            },
            Some(rt) => clone_segs(rt),
        }
    } else {
        match &ctx.working_directory {
            Some(w) => clone_segs(w),
            None => match &ctx.inherited_working_directory {
                Some(w) => clone_segs(w),
                None => clone_segs(&ctx.file_dir),
            },
        }
    };
    let ghost base = segs_view(joined@);
    let mut norm: Vec<Vec<u8>> = Vec::new();
    normalize_into(&mut norm, &joined);
    proof {
        assert(segs_view(Seq::<Vec<u8>>::empty()) =~= Seq::<Seq<u8>>::empty());
    }
    let mut result = norm;
    normalize_into(&mut result, &rel);
    proof {
        lemma_normalize_concat(base, split_path(raw@));
    }
    match &ctx.workspace_root {
        None => Some(result),
        Some(rt) => {
            if is_seg_prefix(rt, &result) {
                Some(result)
            } else {
                None
            }
        },
    }
}

/// Normalising a concatenation equals normalising the parts in turn.
proof fn lemma_normalize_concat(a: Seq<Seq<u8>>, b: Seq<Seq<u8>>)
    ensures
        normalize_from(a + b, 0, Seq::empty()) == normalize_from(
            b,
            0,
            normalize_from(a, 0, Seq::empty()),
        ),
{
    lemma_normalize_concat_from(a, b, 0, Seq::empty());
}

proof fn lemma_normalize_concat_from(a: Seq<Seq<u8>>, b: Seq<Seq<u8>>, i: int, stack: Seq<
    Seq<u8>,
>)
    requires
        0 <= i <= a.len(),
    ensures
        normalize_from(a + b, i, stack) == normalize_from(b, 0, normalize_from(a, i, stack)),
    decreases a.len() - i,
{
    let ab = a + b;
    if i < a.len() {
        assert(ab[i] == a[i]);
        let seg = a[i];
        let stack2 = if is_dot(seg) {
            stack
        } else if is_dotdot(seg) {
            if stack.len() > 0 {
                stack.drop_last()
            } else {
                stack
            }
        } else {
            stack.push(seg)
        };
        lemma_normalize_concat_from(a, b, i + 1, stack2);
    } else {
        lemma_normalize_shift(a, b, stack);
    }
}

proof fn lemma_normalize_shift(a: Seq<Seq<u8>>, b: Seq<Seq<u8>>, stack: Seq<Seq<u8>>)
    ensures
        normalize_from(a + b, a.len() as int, stack) == normalize_from(b, 0, stack),
{
    lemma_normalize_shift_from(a, b, 0, stack);
}

proof fn lemma_normalize_shift_from(a: Seq<Seq<u8>>, b: Seq<Seq<u8>>, j: int, stack: Seq<
    Seq<u8>,
>)
    requires
        0 <= j <= b.len(),
    ensures
        normalize_from(a + b, a.len() + j, stack) == normalize_from(b, j, stack),
    decreases b.len() - j,
{
    let ab = a + b;
    if j < b.len() {
        assert(ab[a.len() + j] == b[j]);
        let seg = b[j];
        let stack2 = if is_dot(seg) {
            stack
        } else if is_dotdot(seg) {
            if stack.len() > 0 {
                stack.drop_last()
            } else {
                stack
            }
        } else {
            stack.push(seg)
        };
        lemma_normalize_shift_from(a, b, j + 1, stack2);
    }
}

/// Clean segments: no `.` or `..` anywhere.
pub open spec fn clean_segs(s: Seq<Seq<u8>>) -> bool {
    forall|i: int| 0 <= i < s.len() ==> !is_dot(#[trigger] s[i]) && !is_dotdot(s[i])
}

/// Normalising clean segments appends them unchanged.
proof fn lemma_normalize_clean(segs: Seq<Seq<u8>>, i: int, stack: Seq<Seq<u8>>)
    requires
        0 <= i <= segs.len(),
        clean_segs(segs),
    ensures
        normalize_from(segs, i, stack) == stack + segs.skip(i),
    decreases segs.len() - i,
{
    if i < segs.len() {
        lemma_normalize_clean(segs, i + 1, stack.push(segs[i]));
        assert(stack.push(segs[i]) + segs.skip(i + 1) =~= stack + segs.skip(i));
    } else {
        assert(stack + segs.skip(i) =~= stack);
    }
}

/// Workspace-root resolution: a path with a leading `/` resolves under
/// the workspace root — the result carries the root as a leading run —
/// and resolves to nothing when no root is set.
pub proof fn lemma_workspace_root_resolution(raw: Seq<u8>, ctx: PathContext)
    requires
        is_abs(raw),
        clean_segs(split_path(raw)),
        match ctx.root_view() {
            Some(rt) => clean_segs(rt),
            None => true,
        },
    ensures
        ctx.root_view() is Some ==> resolve_spec(raw, ctx) == Some(
            ctx.root_view()->Some_0 + split_path(raw),
        ) && seg_prefix(ctx.root_view()->Some_0, resolve_spec(raw, ctx)->Some_0),
        ctx.root_view() is None ==> resolve_spec(raw, ctx) is None,
{
    match ctx.root_view() {
        None => {},
        Some(rt) => {
            let j = rt + split_path(raw);
            lemma_normalize_rooted(rt, split_path(raw));
        },
    }
}

/// With any base, appending clean segments yields the normalised base
/// extended by them; a clean absolute path never escapes its base.
proof fn lemma_normalize_rooted(base: Seq<Seq<u8>>, segs: Seq<Seq<u8>>)
    requires
        clean_segs(segs),
    ensures
        normalize_from(base + segs, 0, Seq::empty()) == normalize_from(
            base,
            0,
            Seq::empty(),
        ) + segs,
        clean_segs(base) ==> normalize_from(base, 0, Seq::empty()) == base,
        seg_prefix(base, base + segs),
{
    lemma_normalize_concat(base, segs);
    lemma_normalize_clean(segs, 0, normalize_from(base, 0, Seq::empty()));
    assert(segs.skip(0) =~= segs);
    if clean_segs(base) {
        lemma_normalize_clean(base, 0, Seq::empty());
        assert(base.skip(0) =~= base);
        assert(Seq::<Seq<u8>>::empty() + base =~= base);
    }
}

/// File-relative resolution: without a working directory, a relative
/// clean path resolves under the file's containing directory; and with
/// a workspace root set, any successful resolution carries the root as
/// a leading run — the result never escapes the root.
pub proof fn lemma_file_relative_resolution(raw: Seq<u8>, ctx: PathContext)
    requires
        !is_abs(raw),
        clean_segs(split_path(raw)),
        ctx.working_directory is None,
        ctx.inherited_working_directory is None,
    ensures
        clean_segs(segs_view(ctx.file_dir@)) && (match ctx.root_view() {
            Some(rt) => seg_prefix(rt, segs_view(ctx.file_dir@)),
            None => true,
        }) ==> resolve_spec(raw, ctx) == Some(segs_view(ctx.file_dir@) + split_path(raw)),
        forall|res: Seq<Seq<u8>>|
            resolve_spec(raw, ctx) == Some(res) && ctx.root_view() is Some ==> seg_prefix(
                ctx.root_view()->Some_0,
                res,
            ),
{
    let fd = segs_view(ctx.file_dir@);
    let segs = split_path(raw);
    lemma_normalize_concat(fd, segs);
    lemma_normalize_clean(segs, 0, normalize_from(fd, 0, Seq::empty()));
    assert(segs.skip(0) =~= segs);
    if clean_segs(fd) {
        lemma_normalize_clean(fd, 0, Seq::empty());
        assert(fd.skip(0) =~= fd);
        assert(Seq::<Seq<u8>>::empty() + fd =~= fd);
        match ctx.root_view() {
            Some(rt) => {
                if seg_prefix(rt, fd) {
                    assert(seg_prefix(rt, fd + segs));
                }
            },
            None => {},
        }
    }
}


/// The scheme prefix of a rendered file URI.
pub open spec fn file_scheme() -> Seq<u8> {
    seq!['f' as u8, 'i' as u8, 'l' as u8, 'e' as u8, ':' as u8, '/' as u8, '/' as u8]
}

/// The textual form of an absolute segment path as a file URI.
pub open spec fn uri_render(segs: Seq<Seq<u8>>) -> Seq<u8>
    decreases segs.len(),
{
    if segs.len() == 0 {
        file_scheme()
    } else {
        uri_render(segs.drop_last()) + seq![47u8] + segs.last()
    }
}

/// Render an absolute segment path as a file identifier.
pub fn uri_of_segments(segs: &Vec<Vec<u8>>) -> (r: FileUri)
    ensures
        r@ == uri_render(segs_view(segs@)),
{
    let mut bytes: Vec<u8> = vec![
        'f' as u8, 'i' as u8, 'l' as u8, 'e' as u8, ':' as u8, '/' as u8, '/' as u8,
    ];
    proof {
        assert(segs_view(segs@).subrange(0, 0) =~= Seq::<Seq<u8>>::empty());
        assert(bytes@ =~= uri_render(segs_view(segs@).subrange(0, 0)));
    }
    let mut i: usize = 0;
    while i < segs.len()
        invariant
            i <= segs@.len(),
            bytes@ == uri_render(segs_view(segs@).subrange(0, i as int)),
        decreases segs@.len() - i,
    {
        let ghost full = segs_view(segs@);
        bytes.push(47);
        let seg = &segs[i];
        let mut j: usize = 0;
        while j < seg.len()
            invariant
                j <= seg@.len(),
                i < segs@.len(),
                full == segs_view(segs@),
                seg@ == segs@[i as int]@,
                bytes@ == uri_render(full.subrange(0, i as int)) + seq![47u8] + seg@.subrange(
                    0,
                    j as int,
                ),
            decreases seg@.len() - j,
        {
            bytes.push(seg[j]);
            proof {
                assert(bytes@ =~= uri_render(full.subrange(0, i as int)) + seq![47u8]
                    + seg@.subrange(0, j + 1));
            }
            j += 1;
        }
        proof {
            assert(seg@.subrange(0, seg@.len() as int) =~= seg@);
            assert(full.subrange(0, i + 1).drop_last() =~= full.subrange(0, i as int));
            assert(full.subrange(0, i + 1).last() == full[i as int]);
            assert(full[i as int] == segs@[i as int]@);
            assert(bytes@ =~= uri_render(full.subrange(0, i + 1)));
        }
        i += 1;
    }
    proof {
        assert(segs_view(segs@).subrange(0, segs@.len() as int) =~= segs_view(segs@));
    }
    FileUri::from_bytes(bytes)
}

/// The ghost value of an optional segment list.
pub open spec fn opt_segs_view(o: Option<Vec<Vec<u8>>>) -> Option<Seq<Seq<u8>>> {
    match o {
        Some(v) => Some(segs_view(v@)),
        None => None,
    }
}

/// The working directory a file's own directive sets, resolved against
/// its containing directory.
pub open spec fn own_wd(m: crate::types::MetadataView, file_dir: Seq<Seq<u8>>, root: Option<
    Seq<Seq<u8>>,
>) -> Option<Seq<Seq<u8>>> {
    match m.working_directory {
        None => None,
        Some(raw) => resolve_in(raw, file_dir, root),
    }
}

/// The base a file's directive paths resolve against: its own working
/// directory first, then an inherited one, then its directory.
pub open spec fn directive_base(
    m: crate::types::MetadataView,
    file_dir: Seq<Seq<u8>>,
    inherited: Option<Seq<Seq<u8>>>,
    root: Option<Seq<Seq<u8>>>,
) -> Seq<Seq<u8>> {
    match own_wd(m, file_dir, root) {
        Some(w) => w,
        None => match inherited {
            Some(w) => w,
            None => file_dir,
        },
    }
}

/// The identifiers of the paths that resolve, rendered as file URIs, in
/// order; a path that does not resolve contributes no edge.
pub open spec fn resolved_uris(paths: Seq<Seq<u8>>, base: Seq<Seq<u8>>, root: Option<Seq<Seq<u8>>>) -> Seq<
    Seq<u8>,
>
    decreases paths.len(),
{
    if paths.len() == 0 {
        Seq::empty()
    } else {
        let rest = resolved_uris(paths.drop_first(), base, root);
        match resolve_in(paths[0], base, root) {
            Some(segs) => seq![uri_render(segs)] + rest,
            None => rest,
        }
    }
}

/// The paths of a file's backward directives.
pub open spec fn backward_paths(s: Seq<crate::types::BackwardView>) -> Seq<Seq<u8>> {
    s.map_values(|d: crate::types::BackwardView| d.path)
}

/// Resolve a file's directives into its edge lists: the files it sources
/// (forward targets) and the files it says source it (backward sources),
/// each a rendered file URI; unresolvable paths yield no edge.
pub fn resolve_edges(
    meta: &crate::types::CrossFileMetadata,
    file_dir: &Vec<Vec<u8>>,
    inherited: &Option<Vec<Vec<u8>>>,
    workspace_root: &Option<Vec<Vec<u8>>>,
) -> (r: (Vec<FileUri>, Vec<FileUri>))
    ensures
        ({
            let base = directive_base(
                meta@,
                segs_view(file_dir@),
                opt_segs_view(*inherited),
                opt_segs_view(*workspace_root),
            );
            let root = opt_segs_view(*workspace_root);
            &&& crate::uri::uris_view(r.0@) == resolved_uris(
                meta@.sources.map_values(|p: Seq<u8>| p),
                base,
                root,
            )
            &&& crate::uri::uris_view(r.1@) == resolved_uris(
                backward_paths(meta@.sourced_by),
                base,
                root,
            )
        }),
{
    let ghost fdv = segs_view(file_dir@);
    let ghost rootv = opt_segs_view(*workspace_root);
    let wd: Option<Vec<Vec<u8>>> = match &meta.working_directory {
        None => None,
        Some(raw) => {
            let ctx1 = PathContext {
                file_dir: clone_segs(file_dir),
                working_directory: None,
                inherited_working_directory: None,
                workspace_root: clone_opt_segs(workspace_root),
            };
            resolve_working_directory(raw, &ctx1)
        },
    };
    proof {
        assert(opt_segs_view(wd) == own_wd(meta@, fdv, rootv));
    }
    let ctx = PathContext {
        file_dir: clone_segs(file_dir),
        working_directory: wd,
        inherited_working_directory: clone_opt_segs(inherited),
        workspace_root: clone_opt_segs(workspace_root),
    };
    let ghost base = directive_base(meta@, fdv, opt_segs_view(*inherited), rootv);
    proof {
        assert(ctx.base_view() == base);
        assert(ctx.root_view() == rootv);
    }
    let mut targets: Vec<FileUri> = Vec::new();
    let ghost fpaths = meta@.sources.map_values(|p: Seq<u8>| p);
    let mut i: usize = 0;
    proof {
        assert(crate::uri::uris_view(targets@) =~= Seq::<Seq<u8>>::empty());
        assert(fpaths.skip(0) =~= fpaths);
    }
    while i < meta.sources.len()
        invariant
            i <= meta.sources@.len(),
            fpaths == meta@.sources.map_values(|p: Seq<u8>| p),
            fpaths.len() == meta.sources@.len(),
            ctx.base_view() == base,
            ctx.root_view() == rootv,
            resolved_uris(fpaths, base, rootv) == crate::uri::uris_view(targets@)
                + resolved_uris(fpaths.skip(i as int), base, rootv),
        decreases meta.sources@.len() - i,
    {
        let ghost before = crate::uri::uris_view(targets@);
        proof {
            assert(fpaths.skip(i as int)[0] == fpaths[i as int]);
            assert(fpaths[i as int] == meta@.sources[i as int]);
            assert(meta@.sources[i as int] == meta.sources@[i as int]@);
            assert(fpaths.skip(i as int).drop_first() =~= fpaths.skip(i + 1));
        }
        match resolve_working_directory(&meta.sources[i].path, &ctx) {
            Some(segs) => {
                let u = uri_of_segments(&segs);
                let ghost uv = u@;
                targets.push(u);
                proof {
                    assert(crate::uri::uris_view(targets@) =~= before.push(uv));
                    assert(resolve_in(fpaths[i as int], base, rootv) == Some(
                        segs_view(segs@),
                    ));
                    assert(resolved_uris(fpaths.skip(i as int), base, rootv) == seq![uv]
                        + resolved_uris(fpaths.skip(i + 1), base, rootv));
                    assert(before + (seq![uv] + resolved_uris(fpaths.skip(i + 1), base, rootv))
                        =~= before.push(uv) + resolved_uris(fpaths.skip(i + 1), base, rootv));
                }
            },
            None => {
                proof {
                    assert(resolve_in(fpaths[i as int], base, rootv) is None);
                    assert(resolved_uris(fpaths.skip(i as int), base, rootv) == resolved_uris(
                        fpaths.skip(i + 1),
                        base,
                        rootv,
                    ));
                }
            },
        }
        i += 1;
    }
    proof {
        assert(fpaths.skip(meta.sources@.len() as int) =~= Seq::<Seq<u8>>::empty());
        assert(resolved_uris(Seq::empty(), base, rootv) == Seq::<Seq<u8>>::empty());
        assert(crate::uri::uris_view(targets@) + Seq::<Seq<u8>>::empty() =~= crate::uri::uris_view(
            targets@,
        ));
    }
    let mut sources: Vec<FileUri> = Vec::new();
    let ghost bpaths = backward_paths(meta@.sourced_by);
    let mut i: usize = 0;
    proof {
        assert(crate::uri::uris_view(sources@) =~= Seq::<Seq<u8>>::empty());
        assert(bpaths.skip(0) =~= bpaths);
    }
    while i < meta.sourced_by.len()
        invariant
            i <= meta.sourced_by@.len(),
            bpaths == backward_paths(meta@.sourced_by),
            bpaths.len() == meta.sourced_by@.len(),
            ctx.base_view() == base,
            ctx.root_view() == rootv,
            resolved_uris(bpaths, base, rootv) == crate::uri::uris_view(sources@)
                + resolved_uris(bpaths.skip(i as int), base, rootv),
        decreases meta.sourced_by@.len() - i,
    {
        let ghost before = crate::uri::uris_view(sources@);
        proof {
            assert(bpaths.skip(i as int)[0] == bpaths[i as int]);
            assert(bpaths[i as int] == meta@.sourced_by[i as int].path);
            assert(meta@.sourced_by[i as int] == meta.sourced_by@[i as int]@);
            assert(bpaths.skip(i as int).drop_first() =~= bpaths.skip(i + 1));
        }
        match resolve_working_directory(&meta.sourced_by[i].path, &ctx) {
            Some(segs) => {
                let u = uri_of_segments(&segs);
                let ghost uv = u@;
                sources.push(u);
                proof {
                    assert(crate::uri::uris_view(sources@) =~= before.push(uv));
                    assert(resolve_in(bpaths[i as int], base, rootv) == Some(
                        segs_view(segs@),
                    ));
                    assert(resolved_uris(bpaths.skip(i as int), base, rootv) == seq![uv]
                        + resolved_uris(bpaths.skip(i + 1), base, rootv));
                    assert(before + (seq![uv] + resolved_uris(bpaths.skip(i + 1), base, rootv))
                        =~= before.push(uv) + resolved_uris(bpaths.skip(i + 1), base, rootv));
                }
            },
            None => {
                proof {
                    assert(resolve_in(bpaths[i as int], base, rootv) is None);
                    assert(resolved_uris(bpaths.skip(i as int), base, rootv) == resolved_uris(
                        bpaths.skip(i + 1),
                        base,
                        rootv,
                    ));
                }
            },
        }
        i += 1;
    }
    proof {
        assert(bpaths.skip(meta.sourced_by@.len() as int) =~= Seq::<Seq<u8>>::empty());
        assert(crate::uri::uris_view(sources@) + Seq::<Seq<u8>>::empty() =~= crate::uri::uris_view(
            sources@,
        ));
    }
    (targets, sources)
}

/// Copy an optional segment list.
fn clone_opt_segs(o: &Option<Vec<Vec<u8>>>) -> (r: Option<Vec<Vec<u8>>>)
    ensures
        opt_segs_view(r) == opt_segs_view(*o),
{
    match o {
        None => None,
        Some(v) => Some(clone_segs(v)),
    }
}

} // verus!
