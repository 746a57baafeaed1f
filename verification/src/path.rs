//! Relative paths below a synchronized root.

use vstd::prelude::*;

verus! {

/// The path separator used on the wire and in stored paths.
pub const PATH_SEP: u8 = 47;

/// A path relative to the synchronized root, held as its byte string.
/// Paths are compared byte for byte.
#[derive(Debug)]
pub struct FilePath {
    pub bytes: Vec<u8>,
}

impl View for FilePath {
    type V = Seq<u8>;

    open spec fn view(&self) -> Seq<u8> {
        self.bytes@
    }
}

/// `pre` is a prefix of `s`.
pub open spec fn spec_is_prefix(pre: Seq<u8>, s: Seq<u8>) -> bool {
    pre.len() <= s.len() && s.subrange(0, pre.len() as int) == pre
}

/// The absolute form of a relative path: root, separator, then the path.
pub open spec fn spec_join(root: Seq<u8>, rel: Seq<u8>) -> Seq<u8> {
    root + seq![PATH_SEP] + rel
}

/// Copies a byte vector; the copy has the same view.
pub fn clone_bytes(v: &Vec<u8>) -> (r: Vec<u8>)
    ensures
        r@ == v@,
{
    let r = v.clone();
    proof {
        assert(r@ =~= v@);
    }
    r
}

/// Compares two byte vectors for equality of contents.
pub fn bytes_eq(a: &Vec<u8>, b: &Vec<u8>) -> (r: bool)
    ensures
        r == (a@ == b@),
{
    if a.len() != b.len() {
        proof {
            assert(a@.len() != b@.len());
        }
        return false;
    }
    let n = a.len();
    let mut i: usize = 0;
    while i < n
        invariant
            n == a@.len() == b@.len(),
            0 <= i <= n,
            forall|j: int| 0 <= j < i ==> a@[j] == b@[j],
        decreases n - i,
    {
        if a[i] != b[i] {
            return false;
        }
        i += 1;
    }
    proof {
        assert(a@ =~= b@);
    }
    true
}

impl PartialEq for FilePath {
    /// Two paths are equal when their bytes are.
    fn eq(&self, other: &FilePath) -> (r: bool) {
        bytes_eq(&self.bytes, &other.bytes)
    }
}

impl vstd::std_specs::cmp::PartialEqSpecImpl for FilePath {
    open spec fn obeys_eq_spec() -> bool {
        true
    }

    open spec fn eq_spec(&self, other: &FilePath) -> bool {
        self@ == other@
    }
}

impl Clone for FilePath {
    /// The copy stands for the same path.
    fn clone(&self) -> (r: Self)
        ensures
            r@ == self@,
    {
        FilePath { bytes: clone_bytes(&self.bytes) }
    }
}

impl FilePath {
    pub fn new(bytes: Vec<u8>) -> (r: FilePath)
        ensures
            r@ == bytes@,
    {
        FilePath { bytes }
    }

    pub fn as_bytes(&self) -> (r: &Vec<u8>)
        ensures
            r@ == self@,
    {
        &self.bytes
    }

    /// Byte-for-byte equality of two paths.
    pub fn eq_path(&self, other: &FilePath) -> (r: bool)
        ensures
            r == (self@ == other@),
    {
        bytes_eq(&self.bytes, &other.bytes)
    }

    /// `prefix` is a byte prefix of this path.
    pub fn starts_with(&self, prefix: &FilePath) -> (r: bool)
        ensures
            r == spec_is_prefix(prefix@, self@),
    {
        if prefix.bytes.len() > self.bytes.len() {
            return false;
        }
        let n = prefix.bytes.len();
        let mut i: usize = 0;
        while i < n
            invariant
                n == prefix@.len(),
                n <= self@.len(),
                0 <= i <= n,
                forall|j: int| 0 <= j < i ==> self@[j] == prefix@[j],
            decreases n - i,
        {
            if self.bytes[i] != prefix.bytes[i] {
                proof {
                    assert(self@.subrange(0, n as int)[i as int] != prefix@[i as int]);
                }
                return false;
            }
            i += 1;
        }
        proof {
            assert(self@.subrange(0, n as int) =~= prefix@);
        }
        true
    }

    /// Strips the root from an absolute path, giving the relative path.
    ///
    /// Returns `None` when `path` does not lie under `root`.  The path
    /// equal to the root itself yields the empty relative path.
    pub fn from_root_and_path(path: &FilePath, root: &FilePath) -> (r: Option<FilePath>)
        ensures
            path@ == root@ ==> (r matches Some(p) && p@ == Seq::<u8>::empty()),
            path@ != root@ && spec_is_prefix(root@ + seq![PATH_SEP], path@) ==> (r matches Some(p)
                && p@ == path@.subrange(root@.len() as int + 1, path@.len() as int)),
            path@ != root@ && !spec_is_prefix(root@ + seq![PATH_SEP], path@) ==> r is None,
    {
        if path.eq_path(root) {
            return Some(FilePath { bytes: Vec::new() });
        }
        let rn = root.bytes.len();
        if path.bytes.len() <= rn {
            proof {
                assert(!spec_is_prefix(root@ + seq![PATH_SEP], path@));
            }
            return None;
        }
        let mut i: usize = 0;
        while i < rn
            invariant
                rn == root@.len(),
                rn + 1 <= path@.len(),
                0 <= i <= rn,
                forall|j: int| 0 <= j < i ==> path@[j] == root@[j],
            decreases rn - i,
        {
            if path.bytes[i] != root.bytes[i] {
                proof {
                    assert(path@.subrange(0, rn + 1)[i as int] != (root@ + seq![PATH_SEP])[i as int]);
                }
                return None;
            }
            i += 1;
        }
        if path.bytes[rn] != PATH_SEP {
            proof {
                assert(path@.subrange(0, rn + 1)[rn as int] != (root@ + seq![PATH_SEP])[rn as int]);
            }
            return None;
        }
        let mut rel: Vec<u8> = Vec::new();
        let mut k: usize = rn + 1;
        while k < path.bytes.len()
            invariant
                rn + 1 <= k <= path@.len(),
                rel@ == path@.subrange(rn + 1, k as int),
            decreases path@.len() - k,
        {
            let b = path.bytes[k];
            rel.push(b);
            proof {
                assert(rel@ =~= path@.subrange(rn + 1, k + 1));
            }
            k += 1;
        }
        proof {
            assert(path@.subrange(0, rn + 1) =~= root@ + seq![PATH_SEP]);
            assert(spec_is_prefix(root@ + seq![PATH_SEP], path@));
        }
        Some(FilePath { bytes: rel })
    }

    /// Joins this relative path onto a root, giving the absolute path.
    pub fn to_absolute(&self, root: &FilePath) -> (r: FilePath)
        ensures
            r@ == spec_join(root@, self@),
    {
        let mut out = clone_bytes(&root.bytes);
        out.push(PATH_SEP);
        let mut k: usize = 0;
        while k < self.bytes.len()
            invariant
                0 <= k <= self@.len(),
                out@ == root@ + seq![PATH_SEP] + self@.subrange(0, k as int),
            decreases self@.len() - k,
        {
            let b = self.bytes[k];
            out.push(b);
            proof {
                assert(out@ =~= root@ + seq![PATH_SEP] + self@.subrange(0, k + 1));
            }
            k += 1;
        }
        proof {
            assert(self@.subrange(0, self@.len() as int) =~= self@);
        }
        FilePath { bytes: out }
    }
}

} // verus!
