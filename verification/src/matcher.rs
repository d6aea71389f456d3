//! Decides whether a directory name denotes a build-artifact folder.
//!
//! Matching is a pure predicate over path segments: a path matches when its
//! final segment, compared ASCII-case-insensitively, equals one of the
//! configured artifact names. Working on decomposed segments (rather than on
//! a serialized path string) keeps the predicate independent of the host's
//! path-separator convention.

use vstd::prelude::*;

verus! {

/// ASCII lower-casing of a single byte; bytes outside `A..=Z` are unchanged.
pub open spec fn lower(b: u8) -> u8 {
    if 65 <= b <= 90 {
        (b + 32) as u8
    } else {
        b
    }
}

/// Two byte strings are equal up to ASCII case.
pub open spec fn eq_ignore_ascii_case(a: Seq<u8>, b: Seq<u8>) -> bool {
    a.len() == b.len() && forall|i: int| 0 <= i < a.len() ==> lower(a[i]) == lower(b[i])
}

/// The name `bin`, as bytes.
pub open spec fn bin_name() -> Seq<u8> {
    seq![98u8, 105u8, 110u8]
}

/// The name `obj`, as bytes.
pub open spec fn obj_name() -> Seq<u8> {
    seq![111u8, 98u8, 106u8]
}

/// The name `node_modules`, as bytes.
pub open spec fn node_modules_name() -> Seq<u8> {
    seq![110u8, 111u8, 100u8, 101u8, 95u8, 109u8, 111u8, 100u8, 117u8, 108u8, 101u8, 115u8]
}

/// A fixed set of artifact directory names, matched case-insensitively
/// against the final segment of a path. Stateless once built, so it can be
/// shared read-only by any number of concurrent walks.
pub struct PathMatcher {
    /// The artifact names; each is a byte string such as `bin`.
    pub names: Vec<Vec<u8>>,
}

impl PathMatcher {
    /// A single directory name matches when it equals one of the configured
    /// artifact names up to ASCII case.
    pub open spec fn spec_matches_name(self, name: Seq<u8>) -> bool {
        exists|k: int|
            0 <= k < self.names@.len() && eq_ignore_ascii_case(name, self.names@[k]@)
    }

    /// A path (as a sequence of segments) matches when its final segment
    /// matches; the empty path never matches.
    pub open spec fn spec_matches(self, path: Seq<Seq<u8>>) -> bool {
        path.len() > 0 && self.spec_matches_name(path.last())
    }

    /// Builds a matcher from an explicit list of artifact names.
    pub fn new(names: Vec<Vec<u8>>) -> (m: PathMatcher)
        ensures
            m.names == names,
    {
        PathMatcher { names }
    }

    /// The default artifact names: `bin`, `obj`, `node_modules`.
    pub fn defaults() -> (m: PathMatcher)
        ensures
            m.names@.len() == 3,
            m.names@[0]@ == bin_name(),
            m.names@[1]@ == obj_name(),
            m.names@[2]@ == node_modules_name(),
    {
        let mut names: Vec<Vec<u8>> = Vec::new();
        let bin: Vec<u8> = vec![98u8, 105u8, 110u8];
        let obj: Vec<u8> = vec![111u8, 98u8, 106u8];
        let node_modules: Vec<u8> = vec![
            110u8, 111u8, 100u8, 101u8, 95u8, 109u8, 111u8, 100u8, 117u8, 108u8, 101u8, 115u8,
        ];
        proof {
            assert(bin@ =~= bin_name());
            assert(obj@ =~= obj_name());
            assert(node_modules@ =~= node_modules_name());
        }
        names.push(bin);
        names.push(obj);
        names.push(node_modules);
        PathMatcher { names }
    }

    /// Tests one directory name against the configured artifact names.
    pub fn matches_name(&self, name: &Vec<u8>) -> (r: bool)
        ensures
            r == self.spec_matches_name(name@),
    {
        let mut k: usize = 0;
        while k < self.names.len()
            invariant
                k <= self.names@.len(),
                forall|j: int|
                    0 <= j < k ==> !eq_ignore_ascii_case(name@, self.names@[j]@),
            decreases self.names@.len() - k,
        {
            if eq_ignore_case(name, &self.names[k]) {
                return true;
            }
            k += 1;
        }
        false
    }

    /// Tests a path, given as its segments from the root down: true iff the
    /// final segment names an artifact directory.
    pub fn matches(&self, path: &Vec<Vec<u8>>) -> (r: bool)
        ensures
            r == self.spec_matches(path.deep_view()),
    {
        if path.len() == 0 {
            return false;
        }
        let r = self.matches_name(&path[path.len() - 1]);
        proof {
            assert(path.deep_view().last() == path@[path@.len() - 1]@);
        }
        r
    }
}

/// ASCII lower-casing of one byte.
fn lower_byte(b: u8) -> (r: u8)
    ensures
        r == lower(b),
{
    if 65 <= b && b <= 90 {
        b + 32
    } else {
        b
    }
}

/// Byte-string equality up to ASCII case.
fn eq_ignore_case(a: &Vec<u8>, b: &Vec<u8>) -> (r: bool)
    ensures
        r == eq_ignore_ascii_case(a@, b@),
{
    if a.len() != b.len() {
        return false;
    }
    let mut i: usize = 0;
    while i < a.len()
        invariant
            a@.len() == b@.len(),
            i <= a@.len(),
            forall|j: int| 0 <= j < i ==> lower(a@[j]) == lower(b@[j]),
        decreases a@.len() - i,
    {
        if lower_byte(a[i]) != lower_byte(b[i]) {
            return false;
        }
        i += 1;
    }
    true
}

} // verus!
