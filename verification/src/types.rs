//! The structured metadata extracted from one file's directives.

use vstd::prelude::*;

use crate::uri::bytes_eq;
use crate::uri::clone_bytes;

verus! {

/// Where, inside a parent file, control is considered to enter the child.
#[derive(Debug, Clone)]
pub enum CallSiteSpec {
    /// No call-site parameter was given.
    Default,
    /// A fixed line, already converted to 0-based.
    Line(u32),
    /// The first line whose text contains this pattern.
    Match(Vec<u8>),
}

/// Ghost value of a call-site specification.
pub enum CallView {
    /// No call-site parameter was given.
    Default,
    /// A fixed 0-based line.
    Line(u32),
    /// A byte-exact pattern.
    Match(Seq<u8>),
}

impl View for CallSiteSpec {
    type V = CallView;

    open spec fn view(&self) -> CallView {
        match self {
            CallSiteSpec::Default => CallView::Default,
            CallSiteSpec::Line(n) => CallView::Line(*n),
            CallSiteSpec::Match(p) => CallView::Match(p@),
        }
    }
}

impl CallSiteSpec {
    /// Structural equality of call sites.
    pub fn same_as(&self, other: &CallSiteSpec) -> (r: bool)
        ensures
            r == (self@ == other@),
    {
        match (self, other) {
            (CallSiteSpec::Default, CallSiteSpec::Default) => true,
            (CallSiteSpec::Line(a), CallSiteSpec::Line(b)) => a == b,
            (CallSiteSpec::Match(a), CallSiteSpec::Match(b)) => bytes_eq(a, b),
            _ => false,
        }
    }

    /// A copy whose ghost value is known equal.
    pub fn duplicate(&self) -> (r: CallSiteSpec)
        ensures
            r@ == self@,
    {
        match self {
            CallSiteSpec::Default => CallSiteSpec::Default,
            CallSiteSpec::Line(n) => CallSiteSpec::Line(*n),
            CallSiteSpec::Match(p) => CallSiteSpec::Match(clone_bytes(p)),
        }
    }
}

/// "This file is sourced by `path`", with an optional call site.
#[derive(Debug, Clone)]
pub struct BackwardDirective {
    /// The path string exactly as written in the directive.
    pub path: Vec<u8>,
    /// Where the parent enters this file.
    pub call_site: CallSiteSpec,
}

/// Ghost value of a backward directive.
pub struct BackwardView {
    /// The raw path bytes.
    pub path: Seq<u8>,
    /// The call site.
    pub call_site: CallView,
}

impl View for BackwardDirective {
    type V = BackwardView;

    open spec fn view(&self) -> BackwardView {
        BackwardView { path: self.path@, call_site: self.call_site@ }
    }
}

/// "This file sources `path`".
#[derive(Debug, Clone)]
pub struct ForwardDirective {
    /// The path string exactly as written in the directive.
    pub path: Vec<u8>,
}

impl View for ForwardDirective {
    type V = Seq<u8>;

    open spec fn view(&self) -> Seq<u8> {
        self.path@
    }
}

/// Everything the directive parser extracts from one file.
#[derive(Debug, Clone)]
pub struct CrossFileMetadata {
    /// Backward directives, in source order.
    pub sourced_by: Vec<BackwardDirective>,
    /// Forward directives, in source order.
    pub sources: Vec<ForwardDirective>,
    /// The raw path of the last working-directory directive, if any.
    pub working_directory: Option<Vec<u8>>,
    /// 0-based lines explicitly ignored, strictly ascending.
    pub ignored_lines: Vec<u32>,
    /// 0-based lines whose following line is ignored, strictly ascending.
    pub ignored_next_lines: Vec<u32>,
}

/// Ghost value of a file's metadata.
pub struct MetadataView {
    /// Backward directives, in source order.
    pub sourced_by: Seq<BackwardView>,
    /// Forward directive paths, in source order.
    pub sources: Seq<Seq<u8>>,
    /// The effective working-directory path, if any.
    pub working_directory: Option<Seq<u8>>,
    /// 0-based ignored lines, strictly ascending.
    pub ignored_lines: Seq<u32>,
    /// 0-based lines whose following line is ignored, strictly ascending.
    pub ignored_next_lines: Seq<u32>,
}

impl View for CrossFileMetadata {
    type V = MetadataView;

    open spec fn view(&self) -> MetadataView {
        MetadataView {
            sourced_by: self.sourced_by@.map_values(|d: BackwardDirective| d@),
            sources: self.sources@.map_values(|d: ForwardDirective| d@),
            working_directory: match self.working_directory {
                Some(ref w) => Some(w@),
                None => None,
            },
            ignored_lines: self.ignored_lines@,
            ignored_next_lines: self.ignored_next_lines@,
        }
    }
}

/// Strictly ascending line numbers: the canonical form of a set of lines.
pub open spec fn strictly_ascending(s: Seq<u32>) -> bool {
    forall|i: int, j: int| 0 <= i < j < s.len() ==> s[i] < s[j]
}

impl MetadataView {
    /// Both ignored-line sequences are in canonical, strictly ascending form.
    pub open spec fn wf(self) -> bool {
        strictly_ascending(self.ignored_lines) && strictly_ascending(self.ignored_next_lines)
    }

    /// The metadata of a file without directives.
    pub open spec fn empty() -> MetadataView {
        MetadataView {
            sourced_by: Seq::empty(),
            sources: Seq::empty(),
            working_directory: None,
            ignored_lines: Seq::empty(),
            ignored_next_lines: Seq::empty(),
        }
    }
}

impl CrossFileMetadata {
    /// The metadata of a file without directives.
    pub fn empty() -> (r: CrossFileMetadata)
        ensures
            r@ == MetadataView::empty(),
            r@.wf(),
    {
        let r = CrossFileMetadata {
            sourced_by: Vec::new(),
            sources: Vec::new(),
            working_directory: None,
            ignored_lines: Vec::new(),
            ignored_next_lines: Vec::new(),
        };
        proof {
            assert(r@.sourced_by =~= MetadataView::empty().sourced_by);
            assert(r@.sources =~= MetadataView::empty().sources);
        }
        r
    }

    /// Structural equality at the ghost level.
    pub fn same_as(&self, other: &CrossFileMetadata) -> (r: bool)
        ensures
            r == (self@ == other@),
    {
        proof {
            assert(self@.sourced_by.len() == self.sourced_by@.len());
            assert(other@.sourced_by.len() == other.sourced_by@.len());
            assert(self@.sources.len() == self.sources@.len());
            assert(other@.sources.len() == other.sources@.len());
        }
        if self.sourced_by.len() != other.sourced_by.len()
            || self.sources.len() != other.sources.len()
            || self.ignored_lines.len() != other.ignored_lines.len()
            || self.ignored_next_lines.len() != other.ignored_next_lines.len() {
            return false;
        }
        let n = self.sourced_by.len();
        let mut i: usize = 0;
        while i < n
            invariant
                i <= n,
                n == self.sourced_by@.len(),
                n == other.sourced_by@.len(),
                forall|j: int| 0 <= j < i ==> self.sourced_by@[j]@ == other.sourced_by@[j]@,
            decreases n - i,
        {
            if !bytes_eq(&self.sourced_by[i].path, &other.sourced_by[i].path)
                || !self.sourced_by[i].call_site.same_as(&other.sourced_by[i].call_site) {
                proof {
                    assert(self@.sourced_by[i as int] != other@.sourced_by[i as int]);
                }
                return false;
            }
            i += 1;
        }
        let n = self.sources.len();
        let mut i: usize = 0;
        while i < n
            invariant
                i <= n,
                n == self.sources@.len(),
                n == other.sources@.len(),
                forall|j: int| 0 <= j < i ==> self.sources@[j]@ == other.sources@[j]@,
            decreases n - i,
        {
            if !bytes_eq(&self.sources[i].path, &other.sources[i].path) {
                proof {
                    assert(self@.sources[i as int] != other@.sources[i as int]);
                }
                return false;
            }
            i += 1;
        }
        match (&self.working_directory, &other.working_directory) {
            (Some(a), Some(b)) => {
                if !bytes_eq(a, b) {
                    return false;
                }
            },
            (None, None) => {},
            _ => {
                return false;
            },
        }
        let n = self.ignored_lines.len();
        let mut i: usize = 0;
        while i < n
            invariant
                i <= n,
                n == self.ignored_lines@.len(),
                n == other.ignored_lines@.len(),
                forall|j: int| 0 <= j < i ==> self.ignored_lines@[j] == other.ignored_lines@[j],
            decreases n - i,
        {
            if self.ignored_lines[i] != other.ignored_lines[i] {
                return false;
            }
            i += 1;
        }
        let n = self.ignored_next_lines.len();
        let mut i: usize = 0;
        while i < n
            invariant
                i <= n,
                n == self.ignored_next_lines@.len(),
                n == other.ignored_next_lines@.len(),
                forall|j: int|
                    0 <= j < i ==> self.ignored_next_lines@[j] == other.ignored_next_lines@[j],
            decreases n - i,
        {
            if self.ignored_next_lines[i] != other.ignored_next_lines[i] {
                return false;
            }
            i += 1;
        }
        proof {
            assert(self@.sourced_by =~= other@.sourced_by);
            assert(self@.sources =~= other@.sources);
            assert(self@.ignored_lines =~= other@.ignored_lines);
            assert(self@.ignored_next_lines =~= other@.ignored_next_lines);
        }
        true
    }
}

impl Default for CrossFileMetadata {
    /// The metadata of a file without directives.
    fn default() -> (r: CrossFileMetadata)
        ensures
            r@ == MetadataView::empty(),
            r@.wf(),
    {
        CrossFileMetadata::empty()
    }
}

} // verus!
