//! The file-tree index and its read-only query surface.

use vstd::prelude::*;
use vstd::set_lib::lemma_len_subset;

use crate::path_map::PathMap;
use crate::size::Size;

verus! {

/// A filesystem node: a file with its stored byte size, or a directory with
/// the list of its child paths in discovery order.
#[derive(Clone, Debug)]
pub enum EntryNode {
    File(Size),
    Directory(Vec<String>),
}

/// The child paths listed by an entry; a file lists none.
pub open spec fn entry_children(e: EntryNode) -> Seq<Seq<char>> {
    match e {
        EntryNode::File(_) => Seq::empty(),
        EntryNode::Directory(cs) => cs.deep_view(),
    }
}

/// Every child path listed by a directory of the index is itself a key of
/// the index, and is strictly longer than the directory's own path. The
/// length step rules out cycles and bounds the recursion below.
pub open spec fn dirs_closed(m: Map<Seq<char>, EntryNode>) -> bool {
    forall|p: Seq<char>, i: int|
        #![trigger entry_children(m[p])[i]]
        m.contains_key(p) && 0 <= i < entry_children(m[p]).len() ==> {
            &&& m.contains_key(entry_children(m[p])[i])
            &&& entry_children(m[p])[i].len() > p.len()
        }
}

/// The structural invariant of a built index.
pub open spec fn tree_shape(m: Map<Seq<char>, EntryNode>) -> bool {
    &&& m.dom().finite()
    &&& dirs_closed(m)
}

/// Termination measure for walks of the index: how many keys are at least as
/// long as the path at hand. A child's measure is strictly smaller.
pub open spec fn measure(m: Map<Seq<char>, EntryNode>, p: Seq<char>) -> nat {
    m.dom().filter(|k: Seq<char>| k.len() >= p.len()).len()
}

pub proof fn lemma_measure_decreases(m: Map<Seq<char>, EntryNode>, p: Seq<char>, c: Seq<char>)
    requires
        m.dom().finite(),
        m.contains_key(p),
        m.contains_key(c),
        c.len() > p.len(),
    ensures
        measure(m, c) < measure(m, p),
{
    let sp = m.dom().filter(|k: Seq<char>| k.len() >= p.len());
    let sc = m.dom().filter(|k: Seq<char>| k.len() >= c.len());
    m.dom().lemma_len_filter(|k: Seq<char>| k.len() >= p.len());
    m.dom().lemma_len_filter(|k: Seq<char>| k.len() >= c.len());
    assert(sp.contains(p));
    assert(sc.subset_of(sp.remove(p)));
    lemma_len_subset(sc, sp.remove(p));
}

/// Saturation of a mathematical byte count into a machine word.
pub open spec fn sat64(n: nat) -> u64 {
    if n > u64::MAX {
        u64::MAX
    } else {
        n as u64
    }
}

/// The recursive aggregate size of a path: a file's stored size, or the sum
/// of the aggregate sizes of a directory's children; zero for absent paths.
pub open spec fn spec_size(m: Map<Seq<char>, EntryNode>, p: Seq<char>) -> nat
    decreases measure(m, p), 1nat, 0nat,
        when tree_shape(m)
        via spec_size_decreases
{
    if m.contains_key(p) {
        match m[p] {
            EntryNode::File(s) => s.0 as nat,
            EntryNode::Directory(cs) => children_size(m, p, cs.deep_view()),
        }
    } else {
        0
    }
}

/// The sum of the aggregate sizes of the paths of `cs`, children of `p`.
pub open spec fn children_size(m: Map<Seq<char>, EntryNode>, p: Seq<char>, cs: Seq<Seq<char>>) -> nat
    decreases measure(m, p), 0nat, cs.len(),
        when tree_shape(m) && m.contains_key(p) && (forall|i: int|
            0 <= i < cs.len() ==> m.contains_key(#[trigger] cs[i]) && cs[i].len() > p.len())
        via children_size_decreases
{
    if cs.len() == 0 {
        0
    } else {
        children_size(m, p, cs.drop_last()) + spec_size(m, cs.last())
    }
}

#[via_fn]
proof fn spec_size_decreases(m: Map<Seq<char>, EntryNode>, p: Seq<char>) {
}

#[via_fn]
proof fn children_size_decreases(m: Map<Seq<char>, EntryNode>, p: Seq<char>, cs: Seq<Seq<char>>) {
    if cs.len() > 0 {
        lemma_measure_decreases(m, p, cs.last());
    }
}

/// The paths of the file entries of an association list, in list order.
pub open spec fn file_paths_of(s: Seq<(String, EntryNode)>) -> Seq<Seq<char>>
    decreases s.len(),
{
    if s.len() == 0 {
        Seq::empty()
    } else {
        file_paths_of(s.drop_last()) + if s.last().1 is File {
            seq![s.last().0@]
        } else {
            Seq::empty()
        }
    }
}

/// The in-memory index of a filesystem subtree: the canonical root path, a
/// path-keyed index of entries, and a path-keyed index of content
/// signatures, defined exactly for the file entries.
#[derive(Debug)]
pub struct FileTree {
    pub root: String,
    pub index: PathMap<EntryNode>,
    pub signatures: PathMap<String>,
}

impl FileTree {
    /// The invariants a build establishes: unique keys, a closed and acyclic
    /// directory structure, the root present, and signatures recorded for
    /// exactly the file entries.
    pub open spec fn wf(&self) -> bool {
        &&& self.index.wf()
        &&& self.signatures.wf()
        &&& tree_shape(self.index@)
        &&& self.index@.contains_key(self.root@)
        &&& forall|p: Seq<char>| #[trigger] self.signatures@.contains_key(p)
            <==> self.index@.contains_key(p) && self.index@[p] is File
    }

    /// The root path of the tree.
    pub fn get_root(&self) -> (r: &String)
        ensures
            r@ == self.root@,
    {
        &self.root
    }

    /// The raw entry recorded for a path, if any.
    pub fn get_map_option(&self, path: &String) -> (r: Option<&EntryNode>)
        requires
            self.wf(),
        ensures
            match r {
                Some(e) => self.index@.contains_key(path@) && *e == self.index@[path@],
                None => !self.index@.contains_key(path@),
            },
    {
        self.index.get(path)
    }

    /// The children of a directory, in discovery order; absent for unknown
    /// paths and for files.
    pub fn get_children(&self, path: &String) -> (r: Option<&Vec<String>>)
        requires
            self.wf(),
        ensures
            match r {
                Some(cs) => self.index@.contains_key(path@) && self.index@[path@] is Directory
                    && cs.deep_view() == entry_children(self.index@[path@]),
                None => !(self.index@.contains_key(path@) && self.index@[path@] is Directory),
            },
    {
        match self.index.get(path) {
            Some(EntryNode::Directory(cs)) => Some(cs),
            _ => None,
        }
    }

    /// The aggregate size of a path: a file's stored size, or the recursive
    /// sum over a directory's children, recomputed on every call and
    /// saturating at the largest machine byte count; absent for unknown
    /// paths.
    pub fn get_size(&self, path: &String) -> (r: Option<Size>)
        requires
            self.wf(),
        ensures
            match r {
                Some(s) => self.index@.contains_key(path@) && s.0 == sat64(
                    spec_size(self.index@, path@),
                ),
                None => !self.index@.contains_key(path@),
            },
        decreases measure(self.index@, path@),
    {
        let ghost m = self.index@;
        match self.index.get(path) {
            None => None,
            Some(e) => match e {
                EntryNode::File(s) => Some(*s),
                EntryNode::Directory(cs) => {
                    let ghost cv = cs.deep_view();
                    let mut total: u64 = 0;
                    let n = cs.len();
                    proof {
                        assert(m[path@] == EntryNode::Directory(*cs));
                        assert(cv =~= entry_children(m[path@]));
                        assert forall|i: int| 0 <= i < cv.len()
                            implies m.contains_key(#[trigger] cv[i])
                                && cv[i].len() > path@.len() by {
                            assert(entry_children(m[path@])[i] == cv[i]);
                        }
                    }
                    for i in 0..n
                        invariant
                            self.wf(),
                            m == self.index@,
                            n == cs.len(),
                            cv == cs.deep_view(),
                            m.contains_key(path@),
                            m[path@] == EntryNode::Directory(*cs),
                            forall|j: int| 0 <= j < cv.len()
                                ==> m.contains_key(#[trigger] cv[j]) && cv[j].len() > path@.len(),
                            total == sat64(children_size(m, path@, cv.take(i as int))),
                    {
                        proof {
                            lemma_measure_decreases(m, path@, cv[i as int]);
                        }
                        let child = self.get_size(&cs[i]).unwrap();
                        total = saturating_add64(total, child.0);
                        proof {
                            assert(cv.take(i + 1).drop_last() =~= cv.take(i as int));
                            assert(cv.take(i + 1).last() == cv[i as int]);
                        }
                    }
                    proof {
                        assert(cv.take(n as int) =~= cv);
                    }
                    Some(Size(total))
                },
            },
        }
    }

    /// The paths of all file entries, in the index's storage order.
    pub fn files(&self) -> (r: Vec<String>)
        requires
            self.wf(),
        ensures
            r.deep_view() == file_paths_of(self.index.seq_view()),
            forall|p: Seq<char>| r.deep_view().contains(p)
                <==> self.index@.contains_key(p) && self.index@[p] is File,
    {
        let mut r: Vec<String> = Vec::new();
        let n = self.index.entries.len();
        for i in 0..n
            invariant
                self.wf(),
                n == self.index.entries.len(),
                r.deep_view() == file_paths_of(self.index.seq_view().take(i as int)),
        {
            proof {
                assert(self.index.seq_view().take(i + 1).drop_last()
                    =~= self.index.seq_view().take(i as int));
            }
            match &self.index.entries[i].1 {
                EntryNode::File(_) => {
                    let p = self.index.entries[i].0.clone();
                    r.push(p);
                    proof {
                        assert(r.deep_view() =~= file_paths_of(self.index.seq_view().take(i + 1)));
                    }
                },
                EntryNode::Directory(_) => {
                    proof {
                        assert(r.deep_view() =~= file_paths_of(self.index.seq_view().take(i + 1)));
                    }
                },
            }
        }
        proof {
            assert(self.index.seq_view().take(n as int) =~= self.index.seq_view());
            lemma_file_paths_characterize(self.index.seq_view());
        }
        r
    }
}

/// Membership in `file_paths_of` is exactly being a file key of the map,
/// provided the keys are unique.
pub proof fn lemma_file_paths_characterize(s: Seq<(String, EntryNode)>)
    requires
        crate::path_map::unique_keys(s),
    ensures
        forall|p: Seq<char>| #[trigger] file_paths_of(s).contains(p)
            <==> crate::path_map::map_of(s).contains_key(p)
                && crate::path_map::map_of(s)[p] is File,
    decreases s.len(),
{
    if s.len() > 0 {
        lemma_file_paths_characterize(s.drop_last());
        assert forall|p: Seq<char>| #[trigger] file_paths_of(s).contains(p)
            implies crate::path_map::map_of(s).contains_key(p)
                && crate::path_map::map_of(s)[p] is File by {
            if p != s.last().0@ {
                assert(file_paths_of(s.drop_last()).contains(p));
                crate::path_map::lemma_map_of_contains(s.drop_last(), p);
            } else {
                if !(s.last().1 is File) {
                    assert(file_paths_of(s.drop_last()).contains(p));
                    crate::path_map::lemma_map_of_contains(s.drop_last(), p);
                    let i = choose|i: int|
                        0 <= i < s.drop_last().len() && s.drop_last()[i].0@ == p;
                    assert(s[i].0@ == s.last().0@);
                    assert(false);
                }
            }
        }
        assert forall|p: Seq<char>|
            crate::path_map::map_of(s).contains_key(p)
                && crate::path_map::map_of(s)[p] is File
            implies #[trigger] file_paths_of(s).contains(p) by {
            if p == s.last().0@ {
                assert(file_paths_of(s).last() == p);
            } else {
                assert(file_paths_of(s.drop_last()).contains(p));
                let i = choose|i: int|
                    0 <= i < file_paths_of(s.drop_last()).len()
                        && file_paths_of(s.drop_last())[i] == p;
                assert(file_paths_of(s)[i] == p);
            }
        }
    }
}

/// Adds two byte counts, saturating at the largest machine byte count.
pub fn saturating_add64(a: u64, b: u64) -> (r: u64)
    ensures
        r == sat64((a + b) as nat),
{
    if a <= u64::MAX - b {
        a + b
    } else {
        u64::MAX
    }
}

/// Aggregation invariant: for every directory of a well-shaped index, the
/// aggregate size of the directory equals the sum of the aggregate sizes of
/// its children.
pub proof fn lemma_aggregation_invariant(m: Map<Seq<char>, EntryNode>, d: Seq<char>)
    requires
        tree_shape(m),
        m.contains_key(d),
        m[d] is Directory,
    ensures
        spec_size(m, d) == sum_of(entry_children(m[d]).map(|i: int, c: Seq<char>| spec_size(m, c))),
{
    lemma_children_size_is_sum(m, d, entry_children(m[d]));
}

/// The sum of a sequence of counts.
pub open spec fn sum_of(s: Seq<nat>) -> nat
    decreases s.len(),
{
    if s.len() == 0 {
        0
    } else {
        sum_of(s.drop_last()) + s.last()
    }
}

proof fn lemma_children_size_is_sum(m: Map<Seq<char>, EntryNode>, p: Seq<char>, cs: Seq<Seq<char>>)
    requires
        tree_shape(m),
        m.contains_key(p),
        forall|i: int| 0 <= i < cs.len() ==> m.contains_key(#[trigger] cs[i]) && cs[i].len() > p.len(),
    ensures
        children_size(m, p, cs) == sum_of(cs.map(|i: int, c: Seq<char>| spec_size(m, c))),
    decreases cs.len(),
{
    let f = |i: int, c: Seq<char>| spec_size(m, c);
    if cs.len() > 0 {
        lemma_children_size_is_sum(m, p, cs.drop_last());
        assert(cs.map(f).drop_last() =~= cs.drop_last().map(f));
        assert(cs.map(f).last() == spec_size(m, cs.last()));
    }
}

/// Reachability invariant: every path listed among the children of a
/// directory of a well-shaped index has an entry in the index.
pub proof fn lemma_reachability_invariant(m: Map<Seq<char>, EntryNode>, d: Seq<char>, i: int)
    requires
        tree_shape(m),
        m.contains_key(d),
        0 <= i < entry_children(m[d]).len(),
    ensures
        m.contains_key(entry_children(m[d])[i]),
{
}

} // verus!
