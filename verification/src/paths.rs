//! Byte-level path inspection: file names, extensions, sidecar paths.
//!
//! Paths are handled as their UTF-8 bytes. The separator and the dot are
//! ASCII, so byte-level scanning agrees with character-level scanning.

use vstd::prelude::*;
use vstd::string::StringSliceAdditionalSpecFns;

verus! {

pub open spec fn lower_byte(b: u8) -> u8 {
    if 65u8 <= b && b <= 90u8 {
        (b + 32) as u8
    } else {
        b
    }
}

pub open spec fn lower_bytes(s: Seq<u8>) -> Seq<u8> {
    s.map(|_i: int, b: u8| lower_byte(b))
}

/// Index of the last occurrence of `b` in `s`, or -1 if `b` does not occur.
pub open spec fn last_index_of(s: Seq<u8>, b: u8) -> int
    decreases s.len(),
{
    if s.len() == 0 {
        -1
    } else if s[s.len() - 1] == b {
        s.len() - 1
    } else {
        last_index_of(s.drop_last(), b)
    }
}

/// `last_index_of` is within range, points at `b`, and nothing after it is `b`.
pub proof fn lemma_last_index_props(s: Seq<u8>, b: u8)
    ensures
        -1 <= last_index_of(s, b) < s.len(),
        last_index_of(s, b) >= 0 ==> s[last_index_of(s, b)] == b,
        forall|j: int| last_index_of(s, b) < j < s.len() ==> s[j] != b,
    decreases s.len(),
{
    if s.len() > 0 && s[s.len() - 1] != b {
        lemma_last_index_props(s.drop_last(), b);
        assert forall|j: int| last_index_of(s, b) < j < s.len() implies s[j] != b by {
            if j < s.len() - 1 {
                assert(s.drop_last()[j] == s[j]);
            }
        }
    }
}

/// The characterization is exact: a position holding `b` with no later `b`
/// is `last_index_of`.
pub proof fn lemma_last_index_from_witness(s: Seq<u8>, b: u8, i: int)
    requires
        0 <= i < s.len(),
        s[i] == b,
        forall|j: int| i < j < s.len() ==> s[j] != b,
    ensures
        last_index_of(s, b) == i,
    decreases s.len(),
{
    if i == s.len() - 1 {
    } else {
        assert(s[s.len() - 1] != b);
        assert(s.drop_last()[i] == b);
        assert forall|j: int| i < j < s.drop_last().len() implies s.drop_last()[j] != b by {
            assert(s.drop_last()[j] == s[j]);
        }
        lemma_last_index_from_witness(s.drop_last(), b, i);
    }
}

/// If `b` occurs nowhere in `s`, `last_index_of` is -1.
pub proof fn lemma_last_index_absent(s: Seq<u8>, b: u8)
    requires
        forall|j: int| 0 <= j < s.len() ==> s[j] != b,
    ensures
        last_index_of(s, b) == -1,
    decreases s.len(),
{
    if s.len() > 0 {
        assert forall|j: int| 0 <= j < s.drop_last().len() implies s.drop_last()[j] != b by {
            assert(s.drop_last()[j] == s[j]);
        }
        lemma_last_index_absent(s.drop_last(), b);
    }
}

/// The part of the path after the last separator.
pub open spec fn file_name_of(p: Seq<u8>) -> Seq<u8> {
    p.subrange(last_index_of(p, 47u8) + 1, p.len() as int)
}

/// The extension of the file name: the bytes after the last dot, unless the
/// file name has no dot or only a leading one.
pub open spec fn extension_of(p: Seq<u8>) -> Option<Seq<u8>> {
    let name = file_name_of(p);
    let d = last_index_of(name, 46u8);
    if d <= 0 {
        None
    } else {
        Some(name.subrange(d + 1, name.len() as int))
    }
}

/// The extension, folded to lower case.
pub open spec fn extension_lower_of(p: Seq<u8>) -> Option<Seq<u8>> {
    match extension_of(p) {
        Some(e) => Some(lower_bytes(e)),
        None => None,
    }
}

pub open spec fn is_supported_ext(e: Seq<u8>) -> bool {
    ||| e == seq![112u8, 110u8, 103u8]
    ||| e == seq![106u8, 112u8, 103u8]
    ||| e == seq![106u8, 112u8, 101u8, 103u8]
    ||| e == seq![103u8, 105u8, 102u8]
    ||| e == seq![98u8, 109u8, 112u8]
    ||| e == seq![116u8, 105u8, 102u8, 102u8]
    ||| e == seq![119u8, 101u8, 98u8, 112u8]
}

/// A path the engine will try to decode: its lower-cased extension is one of
/// the supported image formats.
pub open spec fn is_valid_image_path(p: Seq<u8>) -> bool {
    match extension_lower_of(p) {
        Some(e) => is_supported_ext(e),
        None => false,
    }
}

/// A path whose lower-cased extension is `heic`, which the engine refuses.
pub open spec fn is_heic_path(p: Seq<u8>) -> bool {
    extension_lower_of(p) == Some(seq![104u8, 101u8, 105u8, 99u8])
}

/// The path with its extension replaced by `xmp` (appended when the file
/// name has no extension).
pub open spec fn sidecar_of(p: Seq<u8>) -> Seq<u8> {
    match extension_of(p) {
        Some(e) => p.subrange(0, p.len() - e.len()) + seq![120u8, 109u8, 112u8],
        None => p + seq![46u8, 120u8, 109u8, 112u8],
    }
}

/// Index of the last occurrence of `b`, scanning the byte slice from the end.
pub fn find_last(s: &[u8], b: u8) -> (r: Option<usize>)
    ensures
        match r {
            Some(i) => i == last_index_of(s@, b),
            None => last_index_of(s@, b) == -1,
        },
{
    let mut i: usize = s.len();
    while i > 0
        invariant
            i <= s@.len(),
            forall|j: int| i <= j < s@.len() ==> s@[j] != b,
        decreases i,
    {
        i = i - 1;
        if s[i] == b {
            proof {
                lemma_last_index_from_witness(s@, b, i as int);
            }
            return Some(i);
        }
    }
    proof {
        lemma_last_index_absent(s@, b);
    }
    None
}

/// The bounds of the extension inside the path bytes: the range after the
/// last dot of the file name, when there is one.
fn extension_range(s: &[u8]) -> (r: Option<usize>)
    ensures
        match r {
            Some(start) => {
                &&& extension_of(s@) == Some(s@.subrange(start as int, s@.len() as int))
                &&& start <= s@.len()
            },
            None => extension_of(s@) == None::<Seq<u8>>,
        },
{
    let slash: Option<usize> = find_last(s, 47u8);
    let dot: Option<usize> = find_last(s, 46u8);
    proof {
        lemma_last_index_props(s@, 47u8);
        lemma_last_index_props(s@, 46u8);
    }
    let ghost ls: int = last_index_of(s@, 47u8);
    let ghost name: Seq<u8> = file_name_of(s@);
    match dot {
        None => {
            proof {
                assert forall|j: int| 0 <= j < name.len() implies name[j] != 46u8 by {
                    assert(name[j] == s@[ls + 1 + j]);
                }
                lemma_last_index_absent(name, 46u8);
            }
            None
        },
        Some(d) => {
            let n = s.len();
            proof {
                assert(d < n);
            }
            let ok = match slash {
                None => d >= 1,
                Some(sl) => d >= 2 && d - 2 >= sl,
            };
            if ok {
                proof {
                    // the dot at `d` lies inside the file name, after its head
                    assert(name[d - (ls + 1)] == s@[d as int]);
                    assert forall|j: int| d - (ls + 1) < j < name.len() implies name[j] != 46u8 by {
                        assert(name[j] == s@[ls + 1 + j]);
                    }
                    lemma_last_index_from_witness(name, 46u8, d - (ls + 1));
                    assert(extension_of(s@) == Some(name.subrange(d - ls, name.len() as int)));
                    assert(name.subrange(d - ls, name.len() as int) =~= s@.subrange(
                        d + 1,
                        s@.len() as int,
                    ));
                }
                Some(d + 1)
            } else {
                proof {
                    // every dot of the file name sits at its head, if the
                    // file name holds one at all
                    if ls + 1 <= d {
                        assert(name[d - (ls + 1)] == s@[d as int]);
                        assert forall|j: int| d - (ls + 1) < j < name.len() implies name[j]
                            != 46u8 by {
                            assert(name[j] == s@[ls + 1 + j]);
                        }
                        lemma_last_index_from_witness(name, 46u8, d - (ls + 1));
                    } else {
                        assert forall|j: int| 0 <= j < name.len() implies name[j] != 46u8 by {
                            assert(name[j] == s@[ls + 1 + j]);
                        }
                        lemma_last_index_absent(name, 46u8);
                    }
                }
                None
            }
        },
    }
}

/// The lower-cased extension of a path, if it has one.
pub fn extension_lower(path: &str) -> (r: Option<Vec<u8>>)
    ensures
        match r {
            Some(v) => extension_lower_of(path.spec_bytes()) == Some(v@),
            None => extension_lower_of(path.spec_bytes()) == None::<Seq<u8>>,
        },
{
    let s = path.as_bytes();
    match extension_range(s) {
        None => None,
        Some(start) => {
            let ghost ext: Seq<u8> = s@.subrange(start as int, s@.len() as int);
            let mut v: Vec<u8> = Vec::new();
            let mut k: usize = start;
            while k < s.len()
                invariant
                    start <= k <= s@.len(),
                    v@.len() == k - start,
                    forall|t: int| 0 <= t < v@.len() ==> v@[t] == lower_byte(s@[start + t]),
                decreases s@.len() - k,
            {
                let b = s[k];
                if 65u8 <= b && b <= 90u8 {
                    v.push(b + 32);
                } else {
                    v.push(b);
                }
                k = k + 1;
            }
            proof {
                assert(v@ =~= lower_bytes(ext));
            }
            Some(v)
        },
    }
}

/// Whether the lower-cased extension names a supported image format.
pub fn is_supported_ext_bytes(e: &Vec<u8>) -> (r: bool)
    ensures
        r == is_supported_ext(e@),
{
    let n = e.len();
    let r: bool = if n == 3 {
        (e[0] == 112u8 && e[1] == 110u8 && e[2] == 103u8) || (e[0] == 106u8 && e[1] == 112u8 && e[2]
            == 103u8) || (e[0] == 103u8 && e[1] == 105u8 && e[2] == 102u8) || (e[0] == 98u8 && e[1]
            == 109u8 && e[2] == 112u8)
    } else if n == 4 {
        (e[0] == 106u8 && e[1] == 112u8 && e[2] == 101u8 && e[3] == 103u8) || (e[0] == 116u8 && e[1]
            == 105u8 && e[2] == 102u8 && e[3] == 102u8) || (e[0] == 119u8 && e[1] == 101u8 && e[2]
            == 98u8 && e[3] == 112u8)
    } else {
        false
    };
    proof {
        if r {
            if e@.len() == 3 {
                assert(e@ =~= seq![e@[0], e@[1], e@[2]]);
            } else {
                assert(e@ =~= seq![e@[0], e@[1], e@[2], e@[3]]);
            }
        }
    }
    r
}

/// Whether the lower-cased extension is `heic`.
pub fn is_heic_ext_bytes(e: &Vec<u8>) -> (r: bool)
    ensures
        r == (e@ == seq![104u8, 101u8, 105u8, 99u8]),
{
    let r: bool = e.len() == 4 && e[0] == 104u8 && e[1] == 101u8 && e[2] == 105u8 && e[3] == 99u8;
    proof {
        if r {
            assert(e@ =~= seq![104u8, 101u8, 105u8, 99u8]);
        }
    }
    r
}

/// Byte-wise equality of two slices.
pub fn bytes_eq(a: &[u8], b: &[u8]) -> (r: bool)
    ensures
        r == (a@ == b@),
{
    if a.len() != b.len() {
        return false;
    }
    let mut i: usize = 0;
    while i < a.len()
        invariant
            i <= a@.len(),
            a@.len() == b@.len(),
            forall|j: int| 0 <= j < i ==> a@[j] == b@[j],
        decreases a@.len() - i,
    {
        if a[i] != b[i] {
            return false;
        }
        i = i + 1;
    }
    proof {
        assert(a@ =~= b@);
    }
    true
}

/// The sidecar path of `path`: the extension replaced by `xmp`.
pub fn sidecar_bytes(path: &str) -> (r: Vec<u8>)
    ensures
        r@ == sidecar_of(path.spec_bytes()),
{
    let s = path.as_bytes();
    let (cut, found): (usize, bool) = match extension_range(s) {
        Some(start) => (start, true),
        None => (s.len(), false),
    };
    let mut v: Vec<u8> = Vec::new();
    let mut k: usize = 0;
    while k < cut
        invariant
            k <= cut <= s@.len(),
            v@ =~= s@.subrange(0, k as int),
        decreases cut - k,
    {
        v.push(s[k]);
        k = k + 1;
    }
    if !found {
        v.push(46u8);
    }
    v.push(120u8);
    v.push(109u8);
    v.push(112u8);
    proof {
        match extension_of(s@) {
            Some(e) => {
                assert(v@ =~= s@.subrange(0, s@.len() - e.len()) + seq![120u8, 109u8, 112u8]);
            },
            None => {
                assert(v@ =~= s@ + seq![46u8, 120u8, 109u8, 112u8]);
            },
        }
    }
    v
}

} // verus!
