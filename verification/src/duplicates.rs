//! The duplicate grouper.
//!
//! The signature table is grouped into signature-keyed path lists by a
//! data-parallel fold/reduce: the path/signature pairs are split across
//! workers, each worker folds its share into a local grouping, and the local
//! groupings are merged pairwise. The merge is proven to combine groupings
//! soundly whatever the split and the merge order, so the groups' contents
//! are deterministic even though nothing else is. Groups with fewer than two
//! members are dropped: a singleton signature is no duplicate.

use vstd::multiset::Multiset;
use vstd::prelude::*;
use vstd::pervasive::VecAdditionalExecFns;

use rayon::iter::{IntoParallelRefIterator, ParallelIterator};

use crate::path_map::{
    append_paths, clone_paths, lemma_map_of_contains, lemma_map_of_index, lemma_map_of_update,
    map_of, unique_keys,
};
use crate::tree::FileTree;

verus! {

broadcast use {
    vstd::seq_lib::group_to_multiset_ensures,
    vstd::seq_lib::lemma_multiset_commutative,
    vstd::multiset::group_multiset_axioms,
};

/// The path/signature pairs of a signature table, as viewed sequences.
pub open spec fn pairs_seq(s: Seq<(String, String)>) -> Seq<(Seq<char>, Seq<char>)> {
    s.map(|i: int, pr: (String, String)| (pr.0@, pr.1@))
}

/// The path/signature pairs of a signature table, as an unordered multiset.
pub open spec fn pairs_multiset(s: Seq<(String, String)>) -> Multiset<(Seq<char>, Seq<char>)> {
    pairs_seq(s).to_multiset()
}

/// A signature-keyed partition of file paths: each group holds the paths
/// whose content shares the group's signature.
#[derive(Debug)]
pub struct Grouping {
    pub groups: Vec<(String, Vec<String>)>,
}

impl View for Grouping {
    type V = Map<Seq<char>, Vec<String>>;

    open spec fn view(&self) -> Map<Seq<char>, Vec<String>> {
        map_of(self.groups@)
    }
}

/// How many times path `p` is recorded under signature `s`.
pub open spec fn count_of(g: Map<Seq<char>, Vec<String>>, s: Seq<char>, p: Seq<char>) -> nat {
    if g.contains_key(s) {
        g[s].deep_view().to_multiset().count(p)
    } else {
        0
    }
}

/// `g` groups exactly the pairs `ms`: no group is empty, and each path is
/// recorded under a signature exactly as often as the pair occurs.
pub open spec fn groups_pairs(
    g: Map<Seq<char>, Vec<String>>,
    ms: Multiset<(Seq<char>, Seq<char>)>,
) -> bool {
    &&& forall|s: Seq<char>| #[trigger] g.contains_key(s) ==> g[s]@.len() > 0
    &&& forall|p: Seq<char>, s: Seq<char>| #[trigger] count_of(g, s, p) == ms.count((p, s))
}

/// Some two distinct paths are paired with signature `s`.
pub open spec fn dup_sig(ms: Multiset<(Seq<char>, Seq<char>)>, s: Seq<char>) -> bool {
    exists|p1: Seq<char>, p2: Seq<char>|
        p1 != p2 && #[trigger] ms.count((p1, s)) > 0 && #[trigger] ms.count((p2, s)) > 0
}

impl Grouping {
    /// The keys are unique.
    pub open spec fn wf(&self) -> bool {
        unique_keys(self.groups@)
    }

    /// An empty grouping, which groups no pairs at all.
    pub fn new() -> (r: Self)
        ensures
            r.wf(),
            r@ == Map::<Seq<char>, Vec<String>>::empty(),
            groups_pairs(r@, Multiset::<(Seq<char>, Seq<char>)>::empty()),
    {
        let r = Grouping { groups: Vec::new() };
        proof {
            assert(r@ =~= Map::<Seq<char>, Vec<String>>::empty());
        }
        r
    }
}

/// The position of a signature among the groups, if present.
fn find_group(groups: &Vec<(String, Vec<String>)>, sig: &String) -> (r: Option<usize>)
    ensures
        match r {
            Some(i) => i < groups@.len() && groups@[i as int].0@ == sig@,
            None => forall|i: int| 0 <= i < groups@.len() ==> groups@[i].0@ != sig@,
        },
{
    let n = groups.len();
    for i in 0..n
        invariant
            n == groups@.len(),
            forall|j: int| 0 <= j < i ==> groups@[j].0@ != sig@,
    {
        if groups[i].0 == *sig {
            return Some(i);
        }
    }
    None
}

/// The fold step: records one path under one signature.
pub fn grouping_add(g: Grouping, path: &String, sig: &String) -> (r: Grouping)
    requires
        g.wf(),
    ensures
        r.wf(),
        r@.contains_key(sig@),
        r@[sig@].deep_view() == if g@.contains_key(sig@) {
            g@[sig@].deep_view().push(path@)
        } else {
            seq![path@]
        },
        forall|s: Seq<char>| s != sig@ ==> (#[trigger] r@.contains_key(s) <==> g@.contains_key(s))
            && (g@.contains_key(s) ==> r@[s] == g@[s]),
        forall|ms: Multiset<(Seq<char>, Seq<char>)>| #[trigger] groups_pairs(g@, ms)
            ==> groups_pairs(r@, ms.insert((path@, sig@))),
{
    let mut g = g;
    let ghost gv = g@;
    match find_group(&g.groups, sig) {
        Some(i) => {
            proof {
                lemma_map_of_index(g.groups@, i as int);
            }
            let key = g.groups[i].0.clone();
            let mut paths = clone_paths(&g.groups[i].1);
            paths.push(path.clone());
            let ghost gpre = g.groups@;
            g.groups.set(i, (key, paths));
            proof {
                lemma_map_of_update(gpre, i as int, key, paths);
                assert forall|a: int, b: int| 0 <= a < b < g.groups@.len()
                    implies g.groups@[a].0@ != g.groups@[b].0@ by {
                    assert(gpre[a].0@ != gpre[b].0@);
                }
                lemma_map_of_contains(gpre, sig@);
                assert(g@[sig@] == paths);
                assert(paths.deep_view() =~= gv[sig@].deep_view().push(path@));
            }
        },
        None => {
            proof {
                lemma_map_of_contains(g.groups@, sig@);
            }
            let key = sig.clone();
            let mut paths: Vec<String> = Vec::new();
            paths.push(path.clone());
            let ghost gpre = g.groups@;
            g.groups.push((key, paths));
            proof {
                assert(g.groups@.drop_last() =~= gpre);
                assert forall|a: int, b: int| 0 <= a < b < g.groups@.len()
                    implies g.groups@[a].0@ != g.groups@[b].0@ by {
                    if b < g.groups@.len() - 1 {
                        assert(gpre[a].0@ != gpre[b].0@);
                    } else {
                        assert(gpre[a].0@ != sig@);
                    }
                }
                assert(g@[sig@] == paths);
                assert(paths.deep_view() =~= seq![path@]);
            }
        },
    }
    proof {
        lemma_add_groups_pairs(gv, g@, path@, sig@);
    }
    g
}

/// Recording one more pair extends whatever multiset a grouping grouped by
/// that pair.
proof fn lemma_add_groups_pairs(
    gv: Map<Seq<char>, Vec<String>>,
    rv: Map<Seq<char>, Vec<String>>,
    path: Seq<char>,
    sig: Seq<char>,
)
    requires
        rv.contains_key(sig),
        rv[sig].deep_view() == if gv.contains_key(sig) {
            gv[sig].deep_view().push(path)
        } else {
            seq![path]
        },
        forall|s: Seq<char>| s != sig ==> (#[trigger] rv.contains_key(s) <==> gv.contains_key(s))
            && (gv.contains_key(s) ==> rv[s] == gv[s]),
    ensures
        forall|ms: Multiset<(Seq<char>, Seq<char>)>| #[trigger] groups_pairs(gv, ms)
            ==> groups_pairs(rv, ms.insert((path, sig))),
{
    assert forall|ms: Multiset<(Seq<char>, Seq<char>)>| #[trigger] groups_pairs(gv, ms)
        implies groups_pairs(rv, ms.insert((path, sig))) by {
        let ms2 = ms.insert((path, sig));
        assert forall|s: Seq<char>| #[trigger] rv.contains_key(s) implies rv[s]@.len() > 0 by {
            if s != sig {
                assert(gv.contains_key(s));
            } else {
                assert(rv[s].deep_view().len() > 0);
                assert(rv[s]@.len() == rv[s].deep_view().len());
            }
        }
        assert forall|p: Seq<char>, s: Seq<char>| #[trigger] count_of(rv, s, p) == ms2.count(
            (p, s),
        ) by {
            assert(count_of(gv, s, p) == ms.count((p, s)));
            if s == sig {
                if gv.contains_key(sig) {
                    assert(rv[sig].deep_view().to_multiset()
                        =~= gv[sig].deep_view().to_multiset().insert(path));
                } else {
                    assert(rv[sig].deep_view() =~= Seq::<Seq<char>>::empty().push(path));
                    assert(rv[sig].deep_view().to_multiset()
                        =~= Seq::<Seq<char>>::empty().to_multiset().insert(path));
                }
                if p == path {
                    assert(ms2.count((p, s)) == ms.count((p, s)) + 1);
                } else {
                    assert(ms2.count((p, s)) == ms.count((p, s)));
                }
            } else {
                assert((p, s) != (path, sig));
                assert(ms2.count((p, s)) == ms.count((p, s)));
            }
        }
    }
}

/// What the merged grouping holds, relative to its two operands.
pub open spec fn is_merge(
    av: Map<Seq<char>, Vec<String>>,
    bv: Map<Seq<char>, Vec<String>>,
    rv: Map<Seq<char>, Vec<String>>,
) -> bool {
    &&& forall|s: Seq<char>| #[trigger] rv.contains_key(s)
        <==> av.contains_key(s) || bv.contains_key(s)
    &&& forall|s: Seq<char>| av.contains_key(s) && !bv.contains_key(s)
        ==> #[trigger] rv[s] == av[s]
    &&& forall|s: Seq<char>| !av.contains_key(s) && bv.contains_key(s)
        ==> #[trigger] rv[s].deep_view() == bv[s].deep_view()
    &&& forall|s: Seq<char>| av.contains_key(s) && bv.contains_key(s)
        ==> #[trigger] rv[s].deep_view() == av[s].deep_view() + bv[s].deep_view()
}

/// The reduce step: concatenates the two operands' groups key by key. The
/// operation is associative and commutative up to the groups' contents,
/// which is what the grouped multisets express.
pub fn grouping_merge(a: Grouping, b: Grouping) -> (r: Grouping)
    requires
        a.wf(),
        b.wf(),
    ensures
        r.wf(),
        is_merge(a@, b@, r@),
        forall|msa: Multiset<(Seq<char>, Seq<char>)>, msb: Multiset<(Seq<char>, Seq<char>)>|
            #[trigger] groups_pairs(a@, msa) && #[trigger] groups_pairs(b@, msb)
                ==> groups_pairs(r@, msa.add(msb)),
{
    let mut r = a;
    let ghost av = r@;
    let n = b.groups.len();
    for i in 0..n
        invariant
            r.wf(),
            b.wf(),
            n == b.groups@.len(),
            is_merge(av, map_of(b.groups@.take(i as int)), r@),
    {
        let ghost bpre = map_of(b.groups@.take(i as int));
        proof {
            assert(b.groups@.take(i + 1).drop_last() =~= b.groups@.take(i as int));
            lemma_map_of_contains(b.groups@.take(i as int), b.groups@[i as int].0@);
            assert forall|j: int| 0 <= j < i
                implies b.groups@.take(i as int)[j].0@ != b.groups@[i as int].0@ by {
                assert(b.groups@[j].0@ != b.groups@[i as int].0@);
            }
            assert(!bpre.contains_key(b.groups@[i as int].0@));
        }
        let key = b.groups[i].0.clone();
        match find_group(&r.groups, &key) {
            Some(pos) => {
                proof {
                    lemma_map_of_index(r.groups@, pos as int);
                    lemma_map_of_contains(r.groups@, key@);
                }
                let rkey = r.groups[pos].0.clone();
                let mut merged = clone_paths(&r.groups[pos].1);
                append_paths(&mut merged, &b.groups[i].1);
                let ghost rpre = r.groups@;
                let ghost rvpre = r@;
                r.groups.set(pos, (rkey, merged));
                proof {
                    lemma_map_of_update(rpre, pos as int, rkey, merged);
                    assert forall|x: int, y: int| 0 <= x < y < r.groups@.len()
                        implies r.groups@[x].0@ != r.groups@[y].0@ by {
                        assert(rpre[x].0@ != rpre[y].0@);
                    }
                    let bkey = b.groups@[i as int].0@;
                    let bvec = b.groups@[i as int].1;
                    let bp2 = map_of(b.groups@.take(i + 1));
                    assert(b.groups@.take(i + 1).last() == b.groups@[i as int]);
                    assert(bp2 == bpre.insert(bkey, bvec));
                    assert(av.contains_key(bkey));
                    assert(rvpre[bkey] == av[bkey]);
                    assert(rvpre[bkey] == rpre[pos as int].1);
                    assert(r@ == rvpre.insert(bkey, merged));
                    assert(merged.deep_view() =~= av[bkey].deep_view() + bvec.deep_view());
                    assert forall|s: Seq<char>| #[trigger] r@.contains_key(s)
                        <==> av.contains_key(s) || bp2.contains_key(s) by {}
                    assert forall|s: Seq<char>| av.contains_key(s) && !bp2.contains_key(s)
                        implies #[trigger] r@[s] == av[s] by {
                        assert(s != bkey);
                    }
                    assert forall|s: Seq<char>| !av.contains_key(s) && bp2.contains_key(s)
                        implies #[trigger] r@[s].deep_view() == bp2[s].deep_view() by {
                        assert(s != bkey);
                    }
                    assert forall|s: Seq<char>| av.contains_key(s) && bp2.contains_key(s)
                        implies #[trigger] r@[s].deep_view() == av[s].deep_view()
                            + bp2[s].deep_view() by {
                        if s != bkey {
                            assert(bpre.contains_key(s));
                        }
                    }
                    assert(is_merge(av, bp2, r@));
                }
            },
            None => {
                proof {
                    lemma_map_of_contains(r.groups@, key@);
                }
                let cl = clone_paths(&b.groups[i].1);
                let ghost rpre = r.groups@;
                let ghost rvpre = r@;
                r.groups.push((key, cl));
                proof {
                    assert(r.groups@.drop_last() =~= rpre);
                    assert forall|x: int, y: int| 0 <= x < y < r.groups@.len()
                        implies r.groups@[x].0@ != r.groups@[y].0@ by {
                        if y < r.groups@.len() - 1 {
                            assert(rpre[x].0@ != rpre[y].0@);
                        } else {
                            assert(rpre[x].0@ != key@);
                        }
                    }
                    let bkey = b.groups@[i as int].0@;
                    let bvec = b.groups@[i as int].1;
                    let bp2 = map_of(b.groups@.take(i + 1));
                    assert(b.groups@.take(i + 1).last() == b.groups@[i as int]);
                    assert(bp2 == bpre.insert(bkey, bvec));
                    assert(!rvpre.contains_key(bkey));
                    assert(!av.contains_key(bkey));
                    assert(r@ == rvpre.insert(bkey, cl));
                    assert(cl.deep_view() =~= bvec.deep_view());
                    assert forall|s: Seq<char>| #[trigger] r@.contains_key(s)
                        <==> av.contains_key(s) || bp2.contains_key(s) by {}
                    assert forall|s: Seq<char>| av.contains_key(s) && !bp2.contains_key(s)
                        implies #[trigger] r@[s] == av[s] by {
                        assert(s != bkey);
                    }
                    assert forall|s: Seq<char>| !av.contains_key(s) && bp2.contains_key(s)
                        implies #[trigger] r@[s].deep_view() == bp2[s].deep_view() by {
                        if s != bkey {
                            assert(bpre.contains_key(s));
                        }
                    }
                    assert forall|s: Seq<char>| av.contains_key(s) && bp2.contains_key(s)
                        implies #[trigger] r@[s].deep_view() == av[s].deep_view()
                            + bp2[s].deep_view() by {
                        assert(s != bkey);
                        assert(bpre.contains_key(s));
                    }
                    assert(is_merge(av, bp2, r@));
                }
            },
        }
    }
    proof {
        assert(b.groups@.take(n as int) =~= b.groups@);
        lemma_merge_groups_pairs(av, b@, r@);
    }
    r
}

/// A merged grouping groups the sum of whatever multisets its operands
/// grouped.
proof fn lemma_merge_groups_pairs(
    av: Map<Seq<char>, Vec<String>>,
    bv: Map<Seq<char>, Vec<String>>,
    rv: Map<Seq<char>, Vec<String>>,
)
    requires
        is_merge(av, bv, rv),
    ensures
        forall|msa: Multiset<(Seq<char>, Seq<char>)>, msb: Multiset<(Seq<char>, Seq<char>)>|
            #[trigger] groups_pairs(av, msa) && #[trigger] groups_pairs(bv, msb)
                ==> groups_pairs(rv, msa.add(msb)),
{
    assert forall|msa: Multiset<(Seq<char>, Seq<char>)>, msb: Multiset<(Seq<char>, Seq<char>)>|
        #[trigger] groups_pairs(av, msa) && #[trigger] groups_pairs(bv, msb)
        implies groups_pairs(rv, msa.add(msb)) by {
        let ms = msa.add(msb);
        assert forall|s: Seq<char>| #[trigger] rv.contains_key(s) implies rv[s]@.len() > 0 by {
            if av.contains_key(s) && bv.contains_key(s) {
                assert(rv[s].deep_view().len() == av[s].deep_view().len()
                    + bv[s].deep_view().len());
                assert(rv[s]@.len() == rv[s].deep_view().len());
                assert(av[s]@.len() == av[s].deep_view().len());
            } else if av.contains_key(s) {
                assert(rv[s] == av[s]);
            } else {
                assert(rv[s].deep_view() == bv[s].deep_view());
                assert(rv[s]@.len() == rv[s].deep_view().len());
                assert(bv[s]@.len() == bv[s].deep_view().len());
            }
        }
        assert forall|p: Seq<char>, s: Seq<char>| #[trigger] count_of(rv, s, p) == ms.count(
            (p, s),
        ) by {
            assert(count_of(av, s, p) == msa.count((p, s)));
            assert(count_of(bv, s, p) == msb.count((p, s)));
            assert(ms.count((p, s)) == msa.count((p, s)) + msb.count((p, s)));
            if av.contains_key(s) && bv.contains_key(s) {
                assert((av[s].deep_view() + bv[s].deep_view()).to_multiset()
                    =~= av[s].deep_view().to_multiset().add(bv[s].deep_view().to_multiset()));
            } else if !av.contains_key(s) && !bv.contains_key(s) {
                assert(!rv.contains_key(s));
            }
        }
    }
}

/// Relies on rayon's `par_iter`, `fold` and `reduce` over an immutable
/// snapshot: the pairs are split into blocks in some unspecified way, each
/// block is folded from an empty grouping by `grouping_add`, and the
/// per-block groupings are combined in some unspecified order by
/// `grouping_merge`, with further empty groupings inserted as identities.
/// The clauses hold of every such outcome: an empty grouping groups the
/// empty multiset, and the two verified callees' own `ensures` state that
/// they preserve and combine grouped multisets.
#[verifier::external_body]
fn par_group(pairs: &Vec<(String, String)>) -> (g: Grouping)
    ensures
        g.wf(),
        groups_pairs(g@, pairs_multiset(pairs@)),
{
    pairs
        .par_iter()
        .fold(Grouping::new, |acc: Grouping, pr: &(String, String)| grouping_add(
            acc,
            &pr.0,
            &pr.1,
        ))
        .reduce(Grouping::new, grouping_merge)
}

impl FileTree {
    /// Partitions the file paths into groups of byte-identical content, by
    /// signature, keeping only groups of two or more paths.
    ///
    /// A path appears in some group exactly when another file entry has the
    /// same signature; no group holds fewer than two paths, and a group's
    /// paths are exactly the paths carrying its signature.
    pub fn find_duplicates(&self) -> (r: Grouping)
        requires
            self.wf(),
        ensures
            r.wf(),
            forall|s: Seq<char>| #[trigger] r@.contains_key(s) ==> r@[s]@.len() >= 2,
            forall|p: Seq<char>, s: Seq<char>| #[trigger] count_of(r@, s, p)
                == if dup_sig(pairs_multiset(self.signatures.seq_view()), s) {
                    pairs_multiset(self.signatures.seq_view()).count((p, s))
                } else {
                    0
                },
            forall|s: Seq<char>, p: Seq<char>|
                #[trigger] r@.contains_key(s) && #[trigger] r@[s].deep_view().contains(p) ==> {
                    &&& self.index@.contains_key(p)
                    &&& self.index@[p] is File
                    &&& self.signatures@[p]@ == s
                    &&& exists|q: Seq<char>| q != p && #[trigger] self.signatures@.contains_key(q)
                        && self.signatures@[q]@ == s
                },
            forall|p: Seq<char>, q: Seq<char>|
                self.signatures@.contains_key(p) && #[trigger] self.signatures@.contains_key(q)
                    && q != p && self.signatures@[q]@ == self.signatures@[p]@ ==> {
                    &&& #[trigger] r@.contains_key(self.signatures@[p]@)
                    &&& r@[self.signatures@[p]@].deep_view().contains(p)
                },
    {
        let pairs = clone_pairs(&self.signatures.entries);
        let g = par_group(&pairs);
        let ghost sv = self.signatures.seq_view();
        let ghost ms = pairs_multiset(sv);
        proof {
            assert(pairs@ =~= sv);
            assert(groups_pairs(g@, ms));
        }
        let mut out = Grouping { groups: Vec::new() };
        let n = g.groups.len();
        proof {
            assert(out@ =~= Map::<Seq<char>, Vec<String>>::empty());
        }
        for i in 0..n
            invariant
                g.wf(),
                out.wf(),
                n == g.groups@.len(),
                forall|s: Seq<char>| #[trigger] out@.contains_key(s) ==> g@.contains_key(s)
                    && out@[s]@ == g@[s]@ && g@[s]@.len() >= 2,
                forall|s: Seq<char>| #[trigger] out@.contains_key(s) ==> exists|j: int|
                    0 <= j < i && (#[trigger] g.groups@[j]).0@ == s,
                forall|j: int| 0 <= j < i && g.groups@[j].1@.len() >= 2
                    ==> out@.contains_key((#[trigger] g.groups@[j]).0@),
        {
            proof {
                lemma_map_of_index(g.groups@, i as int);
            }
            if g.groups[i].1.len() >= 2 {
                let key = g.groups[i].0.clone();
                let paths = clone_paths(&g.groups[i].1);
                let ghost opre = out.groups@;
                proof {
                    if out@.contains_key(key@) {
                        let j = choose|j: int|
                            0 <= j < i && (#[trigger] g.groups@[j]).0@ == key@;
                        assert(g.groups@[j].0@ == g.groups@[i as int].0@);
                        assert(false);
                    }
                    lemma_map_of_contains(opre, key@);
                }
                out.groups.push((key, paths));
                proof {
                    assert(out.groups@.drop_last() =~= opre);
                    assert forall|x: int, y: int| 0 <= x < y < out.groups@.len()
                        implies out.groups@[x].0@ != out.groups@[y].0@ by {
                        if y < out.groups@.len() - 1 {
                            assert(opre[x].0@ != opre[y].0@);
                        } else {
                            lemma_map_of_contains(opre, opre[x].0@);
                        }
                    }
                    assert forall|s: Seq<char>| #[trigger] out@.contains_key(s)
                        implies g@.contains_key(s) && out@[s]@ == g@[s]@
                            && g@[s]@.len() >= 2 by {
                        if s != key@ {
                            lemma_map_of_contains(opre, s);
                            lemma_map_of_contains(out.groups@, s);
                        } else {
                            assert(out@[s] == paths);
                            assert(paths@ == g.groups@[i as int].1@);
                            assert(g@[s] == g.groups@[i as int].1);
                        }
                    }
                    assert forall|s: Seq<char>| #[trigger] out@.contains_key(s)
                        implies exists|j: int|
                            0 <= j < i + 1 && (#[trigger] g.groups@[j]).0@ == s by {
                        if s == key@ {
                            assert(g.groups@[i as int].0@ == s);
                        }
                    }
                }
            }
        }
        proof {
            assert forall|s: Seq<char>| g@.contains_key(s) && g@[s]@.len() >= 2
                implies out@.contains_key(s) by {
                lemma_map_of_contains(g.groups@, s);
                let j = choose|j: int| 0 <= j < g.groups@.len() && g.groups@[j].0@ == s;
                lemma_map_of_index(g.groups@, j);
            }
            lemma_filtered_duplicates(self, g@, out@, sv);
        }
        out
    }
}

/// Dropping the groups of fewer than two paths from a grouping of a
/// signature table with unique path keys yields exactly the duplicate
/// groups.
proof fn lemma_filtered_duplicates(
    t: &FileTree,
    gv: Map<Seq<char>, Vec<String>>,
    ov: Map<Seq<char>, Vec<String>>,
    sv: Seq<(String, String)>,
)
    requires
        t.wf(),
        sv == t.signatures.seq_view(),
        groups_pairs(gv, pairs_multiset(sv)),
        forall|s: Seq<char>| #[trigger] ov.contains_key(s) ==> gv.contains_key(s)
            && ov[s]@ == gv[s]@ && gv[s]@.len() >= 2,
        forall|s: Seq<char>| gv.contains_key(s) && gv[s]@.len() >= 2
            ==> #[trigger] ov.contains_key(s),
    ensures
        forall|s: Seq<char>| #[trigger] ov.contains_key(s) ==> ov[s]@.len() >= 2,
        forall|p: Seq<char>, s: Seq<char>| #[trigger] count_of(ov, s, p)
            == if dup_sig(pairs_multiset(sv), s) {
                pairs_multiset(sv).count((p, s))
            } else {
                0
            },
        forall|s: Seq<char>, p: Seq<char>|
            #[trigger] ov.contains_key(s) && #[trigger] ov[s].deep_view().contains(p) ==> {
                &&& t.index@.contains_key(p)
                &&& t.index@[p] is File
                &&& t.signatures@.contains_key(p)
                &&& t.signatures@[p]@ == s
                &&& exists|q: Seq<char>| q != p && #[trigger] t.signatures@.contains_key(q)
                    && t.signatures@[q]@ == s
            },
        forall|p: Seq<char>, q: Seq<char>|
            t.signatures@.contains_key(p) && #[trigger] t.signatures@.contains_key(q) && q != p
                && t.signatures@[q]@ == t.signatures@[p]@ ==> {
                &&& #[trigger] ov.contains_key(t.signatures@[p]@)
                &&& ov[t.signatures@[p]@].deep_view().contains(p)
            },
{
    let ms = pairs_multiset(sv);
    let mseq = pairs_seq(sv);
    assert(mseq.no_duplicates()) by {
        assert forall|i: int, j: int| 0 <= i < j < mseq.len() implies mseq[i] != mseq[j] by {
            assert(sv[i].0@ != sv[j].0@);
        }
    }
    mseq.lemma_multiset_has_no_duplicates();
    // Pair occurrence matches the signature table.
    assert forall|p: Seq<char>, s: Seq<char>| #[trigger] ms.count((p, s)) > 0
        implies t.signatures@.contains_key(p) && t.signatures@[p]@ == s by {
        assert(mseq.contains((p, s)));
        let i = choose|i: int| 0 <= i < mseq.len() && mseq[i] == (p, s);
        assert(sv[i].0@ == p && sv[i].1@ == s);
        lemma_map_of_index(sv, i);
    }
    assert forall|p: Seq<char>| #[trigger] t.signatures@.contains_key(p)
        implies ms.count((p, t.signatures@[p]@)) > 0 by {
        lemma_map_of_contains(sv, p);
        let i = choose|i: int| 0 <= i < sv.len() && sv[i].0@ == p;
        lemma_map_of_index(sv, i);
        assert(mseq[i] == (p, t.signatures@[p]@));
        assert(mseq.contains((p, t.signatures@[p]@)));
    }
    // Where a group exists its contents are per-path unique.
    assert forall|s: Seq<char>| #[trigger] gv.contains_key(s)
        implies gv[s].deep_view().no_duplicates() by {
        let dv = gv[s].deep_view();
        assert forall|x: Seq<char>| dv.to_multiset().contains(x)
            implies dv.to_multiset().count(x) == 1 by {
            assert(count_of(gv, s, x) == ms.count((x, s)));
            assert(mseq.contains((x, s)));
        }
        dv.lemma_multiset_has_no_duplicates_conv();
    }
    // A group of two or more paths means a duplicated signature, and back.
    assert forall|s: Seq<char>| gv.contains_key(s) && gv[s]@.len() >= 2
        implies dup_sig(ms, s) by {
        let dv = gv[s].deep_view();
        assert(dv.len() == gv[s]@.len());
        assert(dv[0] != dv[1]);
        assert(dv.contains(dv[0]) && dv.contains(dv[1]));
        assert(ms.count((dv[0], s)) == count_of(gv, s, dv[0]));
        assert(ms.count((dv[1], s)) == count_of(gv, s, dv[1]));
        assert(dv.to_multiset().count(dv[0]) > 0 && dv.to_multiset().count(dv[1]) > 0);
    }
    assert forall|s: Seq<char>| #[trigger] dup_sig(ms, s)
        implies gv.contains_key(s) && gv[s]@.len() >= 2 by {
        let (p1, p2) = choose|p1: Seq<char>, p2: Seq<char>|
            p1 != p2 && #[trigger] ms.count((p1, s)) > 0 && #[trigger] ms.count((p2, s)) > 0;
        assert(count_of(gv, s, p1) == ms.count((p1, s)));
        assert(count_of(gv, s, p2) == ms.count((p2, s)));
        assert(gv.contains_key(s));
        let dv = gv[s].deep_view();
        assert(dv.to_multiset().count(p1) > 0 && dv.to_multiset().count(p2) > 0);
        assert(dv.contains(p1) && dv.contains(p2));
        let i1 = choose|i: int| 0 <= i < dv.len() && dv[i] == p1;
        let i2 = choose|i: int| 0 <= i < dv.len() && dv[i] == p2;
        assert(i1 != i2);
        assert(dv.len() >= 2);
        assert(gv[s]@.len() == dv.len());
    }
    // The count characterization of the filtered grouping.
    assert forall|p: Seq<char>, s: Seq<char>| #[trigger] count_of(ov, s, p)
        == if dup_sig(ms, s) {
            ms.count((p, s))
        } else {
            0
        } by {
        if ov.contains_key(s) {
            assert(ov[s].deep_view() =~= gv[s].deep_view());
            assert(count_of(ov, s, p) == count_of(gv, s, p));
            assert(dup_sig(ms, s));
        } else {
            if dup_sig(ms, s) {
                assert(gv.contains_key(s) && gv[s]@.len() >= 2);
                assert(false);
            }
        }
    }
    // Forward: membership in a group names a file sharing its signature.
    assert forall|s: Seq<char>, p: Seq<char>|
        #[trigger] ov.contains_key(s) && #[trigger] ov[s].deep_view().contains(p) implies {
        &&& t.index@.contains_key(p)
        &&& t.index@[p] is File
        &&& t.signatures@.contains_key(p)
        &&& t.signatures@[p]@ == s
        &&& exists|q: Seq<char>| q != p && #[trigger] t.signatures@.contains_key(q)
            && t.signatures@[q]@ == s
    } by {
        let dv = gv[s].deep_view();
        assert(ov[s].deep_view() =~= dv);
        assert(dv.contains(p));
        assert(dv.to_multiset().count(p) > 0);
        assert(ms.count((p, s)) == count_of(gv, s, p));
        assert(t.signatures@.contains_key(p) && t.signatures@[p]@ == s);
        assert(t.index@.contains_key(p) && t.index@[p] is File);
        let ip = choose|i: int| 0 <= i < dv.len() && dv[i] == p;
        let jq: int = if ip == 0 {
            1
        } else {
            0
        };
        assert(dv.len() >= 2);
        let q = dv[jq];
        assert(dv.no_duplicates());
        assert(q != p);
        assert(dv.contains(q));
        assert(dv.to_multiset().count(q) > 0);
        assert(ms.count((q, s)) == count_of(gv, s, q));
        assert(t.signatures@.contains_key(q) && t.signatures@[q]@ == s);
    }
    // Backward: a shared signature puts the path into a group.
    assert forall|p: Seq<char>, q: Seq<char>|
        t.signatures@.contains_key(p) && #[trigger] t.signatures@.contains_key(q) && q != p
            && t.signatures@[q]@ == t.signatures@[p]@ implies {
        &&& #[trigger] ov.contains_key(t.signatures@[p]@)
        &&& ov[t.signatures@[p]@].deep_view().contains(p)
    } by {
        let s = t.signatures@[p]@;
        assert(ms.count((p, s)) > 0);
        assert(ms.count((q, s)) > 0);
        assert(dup_sig(ms, s));
        assert(gv.contains_key(s) && gv[s]@.len() >= 2);
        assert(ov.contains_key(s));
        assert(count_of(ov, s, p) == ms.count((p, s)));
        assert(ov[s].deep_view().to_multiset().count(p) > 0);
        assert(ov[s].deep_view().contains(p));
    }
    assert forall|s: Seq<char>| #[trigger] ov.contains_key(s) implies ov[s]@.len() >= 2 by {
        assert(ov[s]@ == gv[s]@);
    }
}

/// A copy of the signature table's pair list.
fn clone_pairs(v: &Vec<(String, String)>) -> (r: Vec<(String, String)>)
    ensures
        r@ == v@,
{
    let mut r: Vec<(String, String)> = Vec::new();
    let n = v.len();
    for i in 0..n
        invariant
            n == v@.len(),
            r@ == v@.take(i as int),
    {
        r.push((v[i].0.clone(), v[i].1.clone()));
        proof {
            assert(r@ =~= v@.take(i + 1));
        }
    }
    proof {
        assert(v@.take(n as int) =~= v@);
    }
    r
}

} // verus!
