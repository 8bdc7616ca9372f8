//! Near-duplicate detection: pairwise similarity scoring over an image
//! set, then a sequential merge of the surviving edges into duplicate
//! clusters.
//!
//! The engine decodes each image once, evaluates every unordered pair
//! through the similarity engine (each pair exactly once, under its
//! canonical index order), turns the pairs scoring at or above the
//! threshold into edges of a similarity graph, and merges the edges into
//! connected components. A component of two or more paths is one duplicate
//! group; every path belongs to at most one group by construction.

use vstd::prelude::*;
use vstd::string::StringSliceAdditionalSpecFns;

use crate::error::AppError;
use crate::image::{
    decoded_rgb_of, dims_ok, orientation_of_bytes, oriented_height, oriented_pixels,
    oriented_width, str_bytes, aspect_differs, CanonicalImage, Image,
};
use crate::paths::is_heic_path;
use crate::ssim::{score_spec, ssim_score};
use crate::SIMILARITY_THRESHOLD_SCALED;

verus! {

/// What one entry decodes to: the canonical (upright) width, height and
/// pixels of the image file, or `None` when the path is a refused format
/// or the bytes do not decode to usable pixels.
pub open spec fn decoded_canonical(path: Seq<char>, raw: Seq<u8>) -> Option<(u32, u32, Seq<u8>)> {
    if is_heic_path(str_bytes(path)) {
        None
    } else {
        match decoded_rgb_of(raw) {
            Some(t) => {
                if dims_ok(t.0, t.1) {
                    let o = orientation_of_bytes(raw);
                    Some(
                        (
                            oriented_width(t.0, t.1, o) as u32,
                            oriented_height(t.0, t.1, o) as u32,
                            oriented_pixels(t.2, t.0, t.1, o),
                        ),
                    )
                } else {
                    None
                }
            },
            None => None,
        }
    }
}

/// How many entries fail to decode (and are counted and skipped).
pub open spec fn failed_count(items: Seq<(String, Vec<u8>)>) -> int
    decreases items.len(),
{
    if items.len() == 0 {
        0
    } else {
        failed_count(items.drop_last()) + if decoded_canonical(
            items.last().0@,
            items.last().1@,
        ) == None::<(u32, u32, Seq<u8>)> {
            1int
        } else {
            0int
        }
    }
}

/// Whether two decoded images count as similar: compatible aspect ratios
/// and a similarity score at or above the threshold.
pub open spec fn similar_spec(a: Option<(u32, u32, Seq<u8>)>, b: Option<(u32, u32, Seq<u8>)>) -> bool {
    match (a, b) {
        (Some(x), Some(y)) => !aspect_differs(x.0 as int, x.1 as int, y.0 as int, y.1 as int)
            && score_spec(x.0, x.1, x.2, y.0, y.1, y.2) >= SIMILARITY_THRESHOLD_SCALED as int,
        _ => false,
    }
}

/// The similarity-graph edge between entries `i` and `j`.
pub open spec fn edge_spec(items: Seq<(String, Vec<u8>)>, i: int, j: int) -> bool {
    similar_spec(
        decoded_canonical(items[i].0@, items[i].1@),
        decoded_canonical(items[j].0@, items[j].1@),
    )
}

/// A sequence of index pairs lists exactly the similar unordered pairs of
/// the entries, each once, in canonical (lexicographic) order.
pub open spec fn is_edge_listing(items: Seq<(String, Vec<u8>)>, edges: Seq<(usize, usize)>) -> bool {
    &&& forall|k: int|
        0 <= k < edges.len() ==> (#[trigger] edges[k]).0 < edges[k].1 && edges[k].1 < items.len()
            && edge_spec(items, edges[k].0 as int, edges[k].1 as int)
    &&& forall|a: int, b: int|
        0 <= a < b < items.len() && edge_spec(items, a, b) ==> exists|k: int|
            0 <= k < edges.len() && (#[trigger] edges[k]).0 == a && edges[k].1 == b
    &&& forall|k1: int, k2: int|
        0 <= k1 < k2 < edges.len() ==> ((#[trigger] edges[k1]).0 < (#[trigger] edges[k2]).0 || (
        edges[k1].0 == edges[k2].0 && edges[k1].1 < edges[k2].1))
}

/// Discover the similar pairs: decode every entry once, evaluate each
/// unordered pair of decodable images through the similarity engine, and
/// keep the pairs at or above the threshold as edges. Entries that do not
/// decode are counted as failures and skipped; a pair with incompatible
/// aspect ratios is no edge, not an error.
pub fn find_similar_pairs(entries: &Vec<(String, Vec<u8>)>) -> (r: (Vec<(usize, usize)>, u64))
    ensures
        is_edge_listing(entries@, r.0@),
        r.1 as int == failed_count(entries@),
{
    let n = entries.len();
    let mut imgs: Vec<Option<CanonicalImage>> = Vec::new();
    let mut failed: u64 = 0;
    let mut t: usize = 0;
    while t < n
        invariant
            n == entries@.len(),
            t <= n,
            imgs@.len() == t,
            forall|i: int|
                0 <= i < t ==> match #[trigger] imgs@[i] {
                    Some(c) => c.wf() && decoded_canonical(entries@[i].0@, entries@[i].1@)
                        == Some((c.width, c.height, c.pixels@)),
                    None => decoded_canonical(entries@[i].0@, entries@[i].1@) == None::<
                        (u32, u32, Seq<u8>),
                    >,
                },
            failed as int == failed_count(entries@.take(t as int)),
            failed <= t as u64,
        decreases n - t,
    {
        let path: &String = &entries[t].0;
        let raw: &Vec<u8> = &entries[t].1;
        match Image::from_path(path.as_str()) {
            Err(_) => {
                imgs.push(None);
                failed = failed + 1;
            },
            Ok(handle) => {
                match handle.image(raw) {
                    Ok(c) => {
                        imgs.push(Some(c));
                    },
                    Err(_) => {
                        imgs.push(None);
                        failed = failed + 1;
                    },
                }
            },
        }
        proof {
            assert(entries@.take(t + 1).drop_last() =~= entries@.take(t as int));
            assert(entries@.take(t + 1).last() == entries@[t as int]);
        }
        t = t + 1;
    }
    proof {
        assert(entries@.take(entries@.len() as int) =~= entries@);
    }
    let mut edges: Vec<(usize, usize)> = Vec::new();
    let mut i: usize = 0;
    while i < n
        invariant
            n == entries@.len(),
            i <= n,
            imgs@.len() == n,
            forall|t2: int|
                0 <= t2 < n ==> match #[trigger] imgs@[t2] {
                    Some(c) => c.wf() && decoded_canonical(entries@[t2].0@, entries@[t2].1@)
                        == Some((c.width, c.height, c.pixels@)),
                    None => decoded_canonical(entries@[t2].0@, entries@[t2].1@) == None::<
                        (u32, u32, Seq<u8>),
                    >,
                },
            forall|k: int|
                0 <= k < edges@.len() ==> (#[trigger] edges@[k]).0 < edges@[k].1 && edges@[k].1
                    < n && edge_spec(entries@, edges@[k].0 as int, edges@[k].1 as int),
            forall|a: int, b: int|
                0 <= a < b < n && a < i && edge_spec(entries@, a, b) ==> exists|k: int|
                    0 <= k < edges@.len() && (#[trigger] edges@[k]).0 == a && edges@[k].1 == b,
            forall|k1: int, k2: int|
                0 <= k1 < k2 < edges@.len() ==> ((#[trigger] edges@[k1]).0 < (
                #[trigger] edges@[k2]).0 || (edges@[k1].0 == edges@[k2].0 && edges@[k1].1
                    < edges@[k2].1)),
            forall|k: int| 0 <= k < edges@.len() ==> (#[trigger] edges@[k]).0 < i,
        decreases n - i,
    {
        let mut j: usize = i + 1;
        while j < n
            invariant
                n == entries@.len(),
                i < n,
                i + 1 <= j <= n,
                imgs@.len() == n,
                forall|t2: int|
                    0 <= t2 < n ==> match #[trigger] imgs@[t2] {
                        Some(c) => c.wf() && decoded_canonical(entries@[t2].0@, entries@[t2].1@)
                            == Some((c.width, c.height, c.pixels@)),
                        None => decoded_canonical(entries@[t2].0@, entries@[t2].1@) == None::<
                            (u32, u32, Seq<u8>),
                        >,
                    },
                forall|k: int|
                    0 <= k < edges@.len() ==> (#[trigger] edges@[k]).0 < edges@[k].1
                        && edges@[k].1 < n && edge_spec(entries@, edges@[k].0 as int, edges@[k].1 as int),
                forall|a: int, b: int|
                    0 <= a < b < n && (a < i || (a == i && b < j)) && edge_spec(entries@, a, b)
                        ==> exists|k: int|
                        0 <= k < edges@.len() && (#[trigger] edges@[k]).0 == a && edges@[k].1
                            == b,
                forall|k1: int, k2: int|
                    0 <= k1 < k2 < edges@.len() ==> ((#[trigger] edges@[k1]).0 < (
                    #[trigger] edges@[k2]).0 || (edges@[k1].0 == edges@[k2].0 && edges@[k1].1
                        < edges@[k2].1)),
                forall|k: int|
                    0 <= k < edges@.len() ==> ((#[trigger] edges@[k]).0 < i || (edges@[k].0 == i
                        && edges@[k].1 < j)),
            decreases n - j,
        {
            let mut is_edge = false;
            match &imgs[i] {
                Some(ci) => {
                    match &imgs[j] {
                        Some(cj) => {
                            match ssim_score(ci, cj) {
                                Ok(v) => {
                                    if v >= SIMILARITY_THRESHOLD_SCALED as i64 {
                                        is_edge = true;
                                    }
                                },
                                Err(_) => {},
                            }
                        },
                        None => {},
                    }
                },
                None => {},
            }
            proof {
                assert(is_edge == edge_spec(entries@, i as int, j as int));
            }
            let ghost pre_edges: Seq<(usize, usize)> = edges@;
            if is_edge {
                edges.push((i, j));
            }
            proof {
                assert forall|a: int, b: int|
                    0 <= a < b < n && (a < i || (a == i && b < j + 1)) && edge_spec(
                        entries@,
                        a,
                        b,
                    ) implies exists|k: int|
                    0 <= k < edges@.len() && (#[trigger] edges@[k]).0 == a && edges@[k].1
                        == b by {
                    if a == i as int && b == j as int {
                        assert(edges@[edges@.len() - 1].0 == a && edges@[edges@.len() - 1].1
                            == b);
                    } else {
                        let k0 = choose|k: int|
                            0 <= k < pre_edges.len() && (#[trigger] pre_edges[k]).0 == a
                                && pre_edges[k].1 == b;
                        assert(edges@[k0].0 == a && edges@[k0].1 == b);
                    }
                }
            }
            j = j + 1;
        }
        i = i + 1;
    }
    (edges, failed)
}

/// Connectivity after merging the first `k` edges: two indices are linked
/// when they are equal, or already linked, or joined through the newest
/// edge's endpoints.
pub open spec fn linked(edges: Seq<(usize, usize)>, k: int, a: int, b: int) -> bool
    decreases k,
{
    if k <= 0 {
        a == b
    } else {
        let e = edges[k - 1];
        ||| linked(edges, k - 1, a, b)
        ||| (linked(edges, k - 1, a, e.0 as int) && linked(edges, k - 1, e.1 as int, b))
        ||| (linked(edges, k - 1, a, e.1 as int) && linked(edges, k - 1, e.0 as int, b))
    }
}

/// A list of groups is the grouping of `n` indices under the similarity
/// edges: each group holds at least two indices, in ascending order; any
/// two members of one group are linked; any two linked indices share a
/// group; no index stands in two groups; and the groups come in the order
/// of their smallest members.
pub open spec fn is_index_grouping(edges: Seq<(usize, usize)>, n: int, gs: Seq<Vec<usize>>) -> bool {
    &&& forall|g: int| 0 <= g < gs.len() ==> (#[trigger] gs[g])@.len() >= 2
    &&& forall|g: int, k: int|
        0 <= g < gs.len() && 0 <= k < gs[g]@.len() ==> (#[trigger] gs[g]@[k]) < n
    &&& forall|g: int, k1: int, k2: int|
        0 <= g < gs.len() && 0 <= k1 < k2 < gs[g]@.len() ==> (#[trigger] gs[g]@[k1]) < (
        #[trigger] gs[g]@[k2])
    &&& forall|g: int, k1: int, k2: int|
        0 <= g < gs.len() && 0 <= k1 < gs[g]@.len() && 0 <= k2 < gs[g]@.len() ==> linked(
            edges,
            edges.len() as int,
            #[trigger] gs[g]@[k1] as int,
            #[trigger] gs[g]@[k2] as int,
        )
    &&& forall|a: int, b: int|
        0 <= a < n && 0 <= b < n && a != b && linked(edges, edges.len() as int, a, b)
            ==> exists|g: int, k1: int, k2: int|
            #![auto]
            0 <= g < gs.len() && 0 <= k1 < gs[g]@.len() && 0 <= k2 < gs[g]@.len() && gs[g]@[k1]
                == a && gs[g]@[k2] == b
    &&& forall|g1: int, g2: int, k1: int, k2: int|
        0 <= g1 < g2 < gs.len() && 0 <= k1 < gs[g1]@.len() && 0 <= k2 < gs[g2]@.len() ==> (
        #[trigger] gs[g1]@[k1]) != (#[trigger] gs[g2]@[k2])
    &&& forall|g1: int, g2: int|
        0 <= g1 < g2 < gs.len() ==> (#[trigger] gs[g1])@[0] < (#[trigger] gs[g2])@[0]
}

/// Every nonempty label class has a smallest member.
proof fn lemma_least_with_label(labels: Seq<usize>, a: int) -> (m: int)
    requires
        0 <= a < labels.len(),
    ensures
        0 <= m < labels.len() && labels[m] == labels[a] && m <= a,
        forall|t: int| 0 <= t < m ==> labels[t] != labels[m],
    decreases a,
{
    if exists|t: int| 0 <= t < a && labels[t] == labels[a] {
        let t0 = choose|t: int| 0 <= t < a && labels[t] == labels[a];
        lemma_least_with_label(labels, t0)
    } else {
        a
    }
}

/// Merge the edges into connected components: the sequential union pass
/// over the parallel phase's edges. Each component of two or more indices
/// becomes one group; an index belongs to at most one group by
/// construction.
pub fn build_groups(n: usize, edges: &Vec<(usize, usize)>) -> (r: Vec<Vec<usize>>)
    requires
        forall|k: int| 0 <= k < edges@.len() ==> (#[trigger] edges@[k]).0 < n && edges@[k].1 < n,
    ensures
        is_index_grouping(edges@, n as int, r@),
{
    let mut labels: Vec<usize> = Vec::new();
    let mut t: usize = 0;
    while t < n
        invariant
            t <= n,
            labels@.len() == t,
            forall|x: int| 0 <= x < t ==> (#[trigger] labels@[x]) == x,
        decreases n - t,
    {
        labels.push(t);
        t = t + 1;
    }
    let mut k: usize = 0;
    while k < edges.len()
        invariant
            labels@.len() == n,
            k <= edges@.len(),
            forall|k2: int|
                0 <= k2 < edges@.len() ==> (#[trigger] edges@[k2]).0 < n && edges@[k2].1 < n,
            forall|x: int| 0 <= x < n ==> (#[trigger] labels@[x]) < n,
            forall|a: int, b: int|
                0 <= a < n && 0 <= b < n ==> ((labels@[a] == labels@[b]) <==> linked(
                    edges@,
                    k as int,
                    a,
                    b,
                )),
        decreases edges@.len() - k,
    {
        let ea = edges[k].0;
        let eb = edges[k].1;
        let la = labels[ea];
        let lb = labels[eb];
        let ghost pre: Seq<usize> = labels@;
        if la != lb {
            let mut t2: usize = 0;
            while t2 < n
                invariant
                    labels@.len() == n,
                    t2 <= n,
                    la < n && lb < n,
                    forall|x: int|
                        0 <= x < t2 ==> (#[trigger] labels@[x]) == (if pre[x] == lb {
                            la
                        } else {
                            pre[x]
                        }),
                    forall|x: int| t2 <= x < n ==> (#[trigger] labels@[x]) == pre[x],
                decreases n - t2,
            {
                if labels[t2] == lb {
                    labels.set(t2, la);
                }
                t2 = t2 + 1;
            }
        }
        proof {
            assert(edges@[k as int].0 == ea && edges@[k as int].1 == eb);
            assert forall|a: int, b: int|
                0 <= a < n && 0 <= b < n implies ((labels@[a] == labels@[b]) <==> linked(
                edges@,
                k + 1,
                a,
                b,
            )) by {
                assert(linked(edges@, k + 1, a, b) == (linked(edges@, k as int, a, b) || (linked(
                    edges@,
                    k as int,
                    a,
                    ea as int,
                ) && linked(edges@, k as int, eb as int, b)) || (linked(edges@, k as int, a, eb as int)
                    && linked(edges@, k as int, ea as int, b))));
                assert(pre[ea as int] == la && pre[eb as int] == lb);
                if la != lb {
                    assert(labels@[a] == (if pre[a] == lb {
                        la
                    } else {
                        pre[a]
                    }));
                    assert(labels@[b] == (if pre[b] == lb {
                        la
                    } else {
                        pre[b]
                    }));
                } else {
                    assert(labels@[a] == pre[a] && labels@[b] == pre[b]);
                }
            }
        }
        k = k + 1;
    }
    let ghost fin: Seq<usize> = labels@;
    let mut out: Vec<Vec<usize>> = Vec::new();
    let mut i: usize = 0;
    while i < n
        invariant
            labels@ == fin,
            labels@.len() == n,
            i <= n,
            forall|x: int| 0 <= x < n ==> (#[trigger] fin[x]) < n,
            forall|a: int, b: int|
                0 <= a < n && 0 <= b < n ==> ((fin[a] == fin[b]) <==> linked(
                    edges@,
                    edges@.len() as int,
                    a,
                    b,
                )),
            // each emitted group: sorted members of one whole label class,
            // with its smallest member below i
            forall|g: int| 0 <= g < out@.len() ==> (#[trigger] out@[g])@.len() >= 2,
            forall|g: int, k2: int|
                0 <= g < out@.len() && 0 <= k2 < out@[g]@.len() ==> (#[trigger] out@[g]@[k2]) < n,
            forall|g: int, k1: int, k2: int|
                0 <= g < out@.len() && 0 <= k1 < k2 < out@[g]@.len() ==> (#[trigger] out@[g]@[k1])
                    < (#[trigger] out@[g]@[k2]),
            forall|g: int| 0 <= g < out@.len() ==> (#[trigger] out@[g])@[0] < i,
            forall|g: int, t3: int|
                #![trigger fin[t3], out@[g]]
                0 <= g < out@.len() && 0 <= t3 < n ==> ((fin[t3] == fin[out@[g]@[0] as int])
                    <==> (exists|k2: int|
                    0 <= k2 < out@[g]@.len() && out@[g]@[k2] == t3)),
            // the first member of each group is minimal in its class
            forall|g: int, t3: int|
                #![trigger fin[t3], out@[g]]
                0 <= g < out@.len() && 0 <= t3 < out@[g]@[0] as int ==> fin[t3] != fin[out@[g]@[0] as int],
            // every minimal member below i of a class of two or more got
            // its group
            forall|m: int, o: int|
                #![auto]
                0 <= m < i && 0 <= o < n && o != m && fin[o] == fin[m] && (forall|t3: int|
                    0 <= t3 < m ==> fin[t3] != fin[m]) ==> exists|g: int|
                    0 <= g < out@.len() && out@[g]@[0] == m,
            forall|g1: int, g2: int|
                0 <= g1 < g2 < out@.len() ==> (#[trigger] out@[g1])@[0] < (#[trigger] out@[g2])@[0],
        decreases n - i,
    {
        let ghost pre_out: Seq<Vec<usize>> = out@;
        let li = labels[i];
        let mut minimal = true;
        let mut t4: usize = 0;
        while t4 < i
            invariant
                labels@ == fin,
                labels@.len() == n,
                i < n,
                t4 <= i,
                li == fin[i as int],
                minimal <==> (forall|t3: int| 0 <= t3 < t4 ==> fin[t3] != fin[i as int]),
            decreases i - t4,
        {
            if labels[t4] == li {
                minimal = false;
            }
            t4 = t4 + 1;
        }
        if minimal {
            let mut members: Vec<usize> = Vec::new();
            let mut t5: usize = 0;
            while t5 < n
                invariant
                    labels@ == fin,
                    labels@.len() == n,
                    i < n,
                    t5 <= n,
                    li == fin[i as int],
                    forall|k1: int, k2: int|
                        0 <= k1 < k2 < members@.len() ==> (#[trigger] members@[k1]) < (
                        #[trigger] members@[k2]),
                    forall|k2: int|
                        0 <= k2 < members@.len() ==> (#[trigger] members@[k2]) < t5,
                    forall|t3: int|
                        0 <= t3 < t5 ==> ((fin[t3] == li) <==> (exists|k2: int|
                            0 <= k2 < members@.len() && (#[trigger] members@[k2]) == t3)),
                decreases n - t5,
            {
                let ghost prem: Seq<usize> = members@;
                if labels[t5] == li {
                    members.push(t5);
                }
                proof {
                    assert forall|t3: int|
                        0 <= t3 < t5 + 1 implies ((fin[t3] == li) <==> (exists|k2: int|
                        0 <= k2 < members@.len() && (#[trigger] members@[k2]) == t3)) by {
                        if t3 == t5 as int {
                            if fin[t3] == li {
                                assert(members@[members@.len() - 1] == t3);
                            }
                        } else {
                            if fin[t3] == li {
                                let k0 = choose|k2: int|
                                    0 <= k2 < prem.len() && (#[trigger] prem[k2]) == t3;
                                assert(members@[k0] == t3);
                            }
                        }
                    }
                }
                t5 = t5 + 1;
            }
            if members.len() >= 2 {
                proof {
                    // the class's smallest member is i itself
                    assert(fin[i as int] == li);
                    assert(exists|k2: int|
                        0 <= k2 < members@.len() && (#[trigger] members@[k2]) == i as int);
                    let k0 = choose|k2: int|
                        0 <= k2 < members@.len() && (#[trigger] members@[k2]) == i as int;
                    assert forall|k2: int| 0 <= k2 < members@.len() implies (
                    #[trigger] members@[k2]) >= i as int by {
                        assert(fin[members@[k2] as int] == li);
                    }
                    assert(members@[0] >= i as int && members@[k0] == i as int && members@[0]
                        <= members@[k0]);
                    assert(members@[0] == i as int);
                }
                out.push(members);
            } else {
                proof {
                    // a singleton class: no other index shares the label
                    assert forall|o: int|
                        0 <= o < n && o != i as int implies fin[o] != fin[i as int] by {
                        if fin[o] == fin[i as int] {
                            assert(exists|k2: int|
                                0 <= k2 < members@.len() && (#[trigger] members@[k2]) == o);
                            assert(exists|k2: int|
                                0 <= k2 < members@.len() && (#[trigger] members@[k2])
                                    == i as int);
                            let ko = choose|k2: int|
                                0 <= k2 < members@.len() && (#[trigger] members@[k2]) == o;
                            let ki = choose|k2: int|
                                0 <= k2 < members@.len() && (#[trigger] members@[k2])
                                    == i as int;
                            assert(ko != ki);
                            assert(members@.len() >= 2);
                        }
                    }
                }
            }
        }
        proof {
            assert forall|m: int, o: int|
                #![auto]
                0 <= m < i + 1 && 0 <= o < n && o != m && fin[o] == fin[m] && (forall|t3: int|
                    0 <= t3 < m ==> fin[t3] != fin[m]) implies exists|g: int|
                0 <= g < out@.len() && out@[g]@[0] == m by {
                if m == i as int {
                    if out@.len() > pre_out.len() {
                        assert(out@[out@.len() - 1]@[0] == m);
                    }
                } else {
                    let g0 = choose|g: int| 0 <= g < pre_out.len() && pre_out[g]@[0] == m;
                    assert(out@[g0]@[0] == m);
                }
            }
        }
        i = i + 1;
    }
    proof {
        assert forall|a: int, b: int|
            0 <= a < n && 0 <= b < n && a != b && linked(
                edges@,
                edges@.len() as int,
                a,
                b,
            ) implies exists|g: int, k1: int, k2: int|
            #![auto]
            0 <= g < out@.len() && 0 <= k1 < out@[g]@.len() && 0 <= k2 < out@[g]@.len()
                && out@[g]@[k1] == a && out@[g]@[k2] == b by {
            assert(fin[a] == fin[b]);
            let m = lemma_least_with_label(fin, a);
            let o: int = if m == a {
                b
            } else {
                a
            };
            assert(fin[o] == fin[m] && o != m);
            let g = choose|g: int| 0 <= g < out@.len() && out@[g]@[0] == m;
            assert(fin[out@[g]@[0] as int] == fin[m]);
            let ka = choose|k2: int| 0 <= k2 < out@[g]@.len() && out@[g]@[k2] == a;
            let kb = choose|k2: int| 0 <= k2 < out@[g]@.len() && out@[g]@[k2] == b;
            assert(0 <= g < out@.len() && 0 <= ka < out@[g]@.len() && 0 <= kb < out@[g]@.len()
                && out@[g]@[ka] == a && out@[g]@[kb] == b);
        }
        assert forall|g: int, k1: int, k2: int|
            0 <= g < out@.len() && 0 <= k1 < out@[g]@.len() && 0 <= k2
                < out@[g]@.len() implies linked(
            edges@,
            edges@.len() as int,
            #[trigger] out@[g]@[k1] as int,
            #[trigger] out@[g]@[k2] as int,
        ) by {
            assert(fin[out@[g]@[k1] as int] == fin[out@[g]@[0] as int]);
            assert(fin[out@[g]@[k2] as int] == fin[out@[g]@[0] as int]);
        }
        assert forall|g1: int, g2: int, k1: int, k2: int|
            0 <= g1 < g2 < out@.len() && 0 <= k1 < out@[g1]@.len() && 0 <= k2
                < out@[g2]@.len() implies (#[trigger] out@[g1]@[k1]) != (
        #[trigger] out@[g2]@[k2]) by {
            if out@[g1]@[k1] == out@[g2]@[k2] {
                let x = out@[g1]@[k1] as int;
                assert(fin[x] == fin[out@[g1]@[0] as int]);
                assert(fin[x] == fin[out@[g2]@[0] as int]);
                // then g2's smallest member lies in g1's class, below
                // g2's own smallest member or conflicting with g1's
                assert(fin[out@[g2]@[0] as int] == fin[out@[g1]@[0] as int]);
                assert(out@[g1]@[0] < out@[g2]@[0]);
                assert(fin[out@[g1]@[0] as int] != fin[out@[g2]@[0] as int]);
            }
        }
    }
    out
}

/// The near-duplicate result: the duplicate groups, as lists of paths, and
/// how many images failed to decode and were skipped.
pub struct SimilarityIndex {
    pub groups: Vec<Vec<String>>,
    pub failed: u64,
}

/// The path groups denote the index groups: group for group, the paths of
/// the entries at those indices.
pub open spec fn groups_paths_match(
    gs: Seq<Vec<String>>,
    igs: Seq<Vec<usize>>,
    items: Seq<(String, Vec<u8>)>,
) -> bool {
    &&& gs.len() == igs.len()
    &&& forall|g: int| 0 <= g < gs.len() ==> (#[trigger] gs[g])@.len() == igs[g]@.len()
    &&& forall|g: int, k: int|
        0 <= g < gs.len() && 0 <= k < gs[g]@.len() ==> (#[trigger] gs[g]@[k])@ == items[igs[g]@[k] as int].0@
}

/// The groups are the connected components, of two or more members, of
/// the similarity graph over the entries, spelled out as paths.
pub open spec fn is_similarity_grouping(items: Seq<(String, Vec<u8>)>, gs: Seq<Vec<String>>) -> bool {
    exists|edges: Seq<(usize, usize)>, igs: Seq<Vec<usize>>|
        #![auto]
        is_edge_listing(items, edges) && is_index_grouping(edges, items.len() as int, igs)
            && groups_paths_match(gs, igs, items)
}

/// The near-duplicate engine: decode each entry once, score every
/// unordered pair, keep the pairs at or above the threshold as edges, and
/// merge the edges into duplicate groups. Per-image failures are counted
/// and skipped, never fatal.
pub fn create_similarity_index(entries: &Vec<(String, Vec<u8>)>) -> (r: SimilarityIndex)
    ensures
        is_similarity_grouping(entries@, r.groups@),
        r.failed as int == failed_count(entries@),
{
    let pairs = find_similar_pairs(entries);
    let edges = pairs.0;
    let failed = pairs.1;
    let igs = build_groups(entries.len(), &edges);
    let mut groups: Vec<Vec<String>> = Vec::new();
    let mut g: usize = 0;
    while g < igs.len()
        invariant
            is_index_grouping(edges@, entries@.len() as int, igs@),
            g <= igs@.len(),
            groups@.len() == g,
            forall|g2: int| 0 <= g2 < g ==> (#[trigger] groups@[g2])@.len() == igs@[g2]@.len(),
            forall|g2: int, k: int|
                0 <= g2 < g && 0 <= k < groups@[g2]@.len() ==> (#[trigger] groups@[g2]@[k])@
                    == entries@[igs@[g2]@[k] as int].0@,
        decreases igs@.len() - g,
    {
        let ig: &Vec<usize> = &igs[g];
        let mut members: Vec<String> = Vec::new();
        let mut k: usize = 0;
        while k < ig.len()
            invariant
                is_index_grouping(edges@, entries@.len() as int, igs@),
                g < igs@.len(),
                ig@ == igs@[g as int]@,
                k <= ig@.len(),
                members@.len() == k,
                forall|k2: int|
                    0 <= k2 < k ==> (#[trigger] members@[k2])@ == entries@[ig@[k2] as int].0@,
            decreases ig@.len() - k,
        {
            let idx = ig[k];
            members.push(entries[idx].0.clone());
            k = k + 1;
        }
        groups.push(members);
        g = g + 1;
    }
    proof {
        assert(groups_paths_match(groups@, igs@, entries@));
        assert(is_similarity_grouping(entries@, groups@));
    }
    SimilarityIndex { groups, failed }
}

/// Group minimality: every emitted group has at least two members, no two
/// groups share a member, and no group is a subset of another (each
/// group's smallest member lies in no other group).
pub proof fn lemma_group_minimality(edges: Seq<(usize, usize)>, n: int, gs: Seq<Vec<usize>>)
    requires
        is_index_grouping(edges, n, gs),
    ensures
        forall|g: int| 0 <= g < gs.len() ==> (#[trigger] gs[g])@.len() >= 2,
        forall|g1: int, g2: int, k1: int, k2: int|
            0 <= g1 < gs.len() && 0 <= g2 < gs.len() && g1 != g2 && 0 <= k1 < gs[g1]@.len() && 0
                <= k2 < gs[g2]@.len() ==> (#[trigger] gs[g1]@[k1]) != (#[trigger] gs[g2]@[k2]),
        forall|g1: int, g2: int, k2: int|
            #![trigger gs[g1], gs[g2]@[k2]]
            0 <= g1 < gs.len() && 0 <= g2 < gs.len() && g1 != g2 && 0 <= k2 < gs[g2]@.len()
                ==> gs[g1]@[0] != gs[g2]@[k2],
{
    assert forall|g1: int, g2: int, k1: int, k2: int|
        0 <= g1 < gs.len() && 0 <= g2 < gs.len() && g1 != g2 && 0 <= k1 < gs[g1]@.len() && 0 <= k2
            < gs[g2]@.len() implies (#[trigger] gs[g1]@[k1]) != (#[trigger] gs[g2]@[k2]) by {
        if g1 < g2 {
        } else {
            assert(g2 < g1);
        }
    }
    assert forall|g1: int, g2: int, k2: int|
        #![trigger gs[g1], gs[g2]@[k2]]
        0 <= g1 < gs.len() && 0 <= g2 < gs.len() && g1 != g2 && 0 <= k2
            < gs[g2]@.len() implies gs[g1]@[0] != gs[g2]@[k2] by {
        assert(gs[g1]@.len() >= 2);
        assert(gs[g1]@[0] != gs[g2]@[k2]);
    }
}

/// Group minimality at the path level: when the indexed paths are
/// pairwise distinct (which the folder indexer guarantees of its listing),
/// every emitted group has at least two paths, and no path occurs in two
/// groups -- so no group is a subset of another either.
pub proof fn lemma_path_group_minimality(items: Seq<(String, Vec<u8>)>, gs: Seq<Vec<String>>)
    requires
        is_similarity_grouping(items, gs),
        forall|a: int, b: int|
            0 <= a < b < items.len() ==> (#[trigger] items[a]).0@ != (#[trigger] items[b]).0@,
    ensures
        forall|g: int| 0 <= g < gs.len() ==> (#[trigger] gs[g])@.len() >= 2,
        forall|g1: int, g2: int, k1: int, k2: int|
            0 <= g1 < gs.len() && 0 <= g2 < gs.len() && g1 != g2 && 0 <= k1 < gs[g1]@.len() && 0
                <= k2 < gs[g2]@.len() ==> (#[trigger] gs[g1]@[k1])@ != (#[trigger] gs[g2]@[k2])@,
{
    let (edges, igs) = choose|edges: Seq<(usize, usize)>, igs: Seq<Vec<usize>>|
        #![auto]
        is_edge_listing(items, edges) && is_index_grouping(edges, items.len() as int, igs)
            && groups_paths_match(gs, igs, items);
    lemma_group_minimality(edges, items.len() as int, igs);
    assert forall|g: int| 0 <= g < gs.len() implies (#[trigger] gs[g])@.len() >= 2 by {
        assert(igs[g]@.len() >= 2);
    }
    assert forall|g1: int, g2: int, k1: int, k2: int|
        0 <= g1 < gs.len() && 0 <= g2 < gs.len() && g1 != g2 && 0 <= k1 < gs[g1]@.len() && 0 <= k2
            < gs[g2]@.len() implies (#[trigger] gs[g1]@[k1])@ != (#[trigger] gs[g2]@[k2])@ by {
        let i1 = igs[g1]@[k1] as int;
        let i2 = igs[g2]@[k2] as int;
        assert(gs[g1]@[k1]@ == items[i1].0@ && gs[g2]@[k2]@ == items[i2].0@);
        assert(igs[g1]@[k1] != igs[g2]@[k2]);
        assert(0 <= i1 < items.len() && 0 <= i2 < items.len());
        if i1 < i2 {
            assert(items[i1].0@ != items[i2].0@);
        } else {
            assert(items[i2].0@ != items[i1].0@);
        }
    }
}

/// The one-group instance of the near-duplicate engine: over three
/// entries of which exactly the first two are similar, any grouping the
/// engine returns is the single group of those two paths; the third path
/// stands in no group.
pub proof fn lemma_similarity_three_entries(items: Seq<(String, Vec<u8>)>, gs: Seq<Vec<String>>)
    requires
        is_similarity_grouping(items, gs),
        items.len() == 3,
        edge_spec(items, 0, 1),
        !edge_spec(items, 0, 2),
        !edge_spec(items, 1, 2),
    ensures
        gs.len() == 1,
        gs[0]@.len() == 2,
        gs[0]@[0]@ == items[0].0@,
        gs[0]@[1]@ == items[1].0@,
{
    let (edges, igs) = choose|edges: Seq<(usize, usize)>, igs: Seq<Vec<usize>>|
        #![auto]
        is_edge_listing(items, edges) && is_index_grouping(edges, items.len() as int, igs)
            && groups_paths_match(gs, igs, items);
    // the edge listing holds exactly the pair of the first two entries
    assert(exists|k: int| 0 <= k < edges.len() && (#[trigger] edges[k]).0 == 0 && edges[k].1 == 1);
    assert forall|k: int| 0 <= k < edges.len() implies (#[trigger] edges[k]).0 == 0
        && edges[k].1 == 1 by {
        let e = edges[k];
        assert(e.0 < e.1 && e.1 < 3 && edge_spec(items, e.0 as int, e.1 as int));
        if e.0 as int == 0 && e.1 as int == 2 {
            assert(false);
        }
        if e.0 as int == 1 && e.1 as int == 2 {
            assert(false);
        }
    }
    let k0 = choose|k: int| 0 <= k < edges.len() && (#[trigger] edges[k]).0 == 0 && edges[k].1
        == 1;
    assert(edges.len() >= 1);
    assert(edges.len() == 1) by {
        if edges.len() >= 2 {
            assert(edges[0].0 == 0 && edges[0].1 == 1 && edges[1].0 == 0 && edges[1].1 == 1);
        }
    }
    assert(edges[0].0 as int == 0 && edges[0].1 as int == 1);
    // over the single edge, two indices are linked exactly when they are
    // equal or are the first two
    assert forall|a: int, b: int| #![trigger linked(edges, 1, a, b)]
        linked(edges, 1, a, b) <==> (a == b || (a == 0 && b == 1) || (a == 1 && b
        == 0)) by {
        assert(linked(edges, 0, a, b) == (a == b));
        assert(linked(edges, 0, a, edges[0].0 as int) == (a == 0));
        assert(linked(edges, 0, edges[0].1 as int, b) == (b == 1));
        assert(linked(edges, 0, a, edges[0].1 as int) == (a == 1));
        assert(linked(edges, 0, edges[0].0 as int, b) == (b == 0));
    }
    assert(linked(edges, 1, 0, 1));
    // the completeness clause yields the group holding both
    let (g, k1, k2) = choose|g: int, k1: int, k2: int|
        #![auto]
        0 <= g < igs.len() && 0 <= k1 < igs[g]@.len() && 0 <= k2 < igs[g]@.len() && igs[g]@[k1]
            == 0 && igs[g]@[k2] == 1;
    // every member of that group is one of the first two indices
    assert forall|k: int| 0 <= k < igs[g]@.len() implies igs[g]@[k] == 0 || igs[g]@[k]
        == 1 by {
        assert(linked(edges, edges.len() as int, igs[g]@[k] as int, igs[g]@[k1] as int));
    }
    // two or more ascending members over a two-value universe: exactly two
    assert(k1 != k2);
    assert(igs[g]@.len() >= 2);
    assert(igs[g]@.len() == 2) by {
        if igs[g]@.len() >= 3 {
            assert(igs[g]@[0] < igs[g]@[1] && igs[g]@[1] < igs[g]@[2]);
            assert(igs[g]@[0] == 0 || igs[g]@[0] == 1);
            assert(igs[g]@[1] == 0 || igs[g]@[1] == 1);
            assert(igs[g]@[2] == 0 || igs[g]@[2] == 1);
        }
    }
    assert(igs[g]@[0] == 0 && igs[g]@[1] == 1) by {
        assert(igs[g]@[0] < igs[g]@[1]);
        assert(igs[g]@[0] == 0 || igs[g]@[0] == 1);
        assert(igs[g]@[1] == 0 || igs[g]@[1] == 1);
    }
    // a second group would need two further linked indices, which the
    // single edge cannot give without sharing a member
    assert(igs.len() == 1) by {
        if igs.len() >= 2 {
            let g2: int = if g == 0 {
                1
            } else {
                0
            };
            assert(0 <= g2 < igs.len() && g2 != g);
            assert(igs[g2]@.len() >= 2);
            assert(igs[g2]@[0] < igs[g2]@[1]);
            assert(linked(
                edges,
                edges.len() as int,
                igs[g2]@[0] as int,
                igs[g2]@[1] as int,
            ));
            assert(igs[g2]@[0] == 0 && igs[g2]@[1] == 1);
            if g < g2 {
                assert(igs[g]@[0] != igs[g2]@[0]);
            } else {
                assert(igs[g2]@[0] != igs[g]@[0]);
            }
        }
    }
    assert(g == 0);
    assert(gs.len() == 1 && gs[0]@.len() == 2);
    assert(gs[0]@[0]@ == items[igs[0]@[0] as int].0@);
    assert(gs[0]@[1]@ == items[igs[0]@[1] as int].0@);
}

} // verus!
