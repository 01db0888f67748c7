//! The fail-fast tree builder.
//!
//! The builder performs no I/O itself. It is a state machine: it names the
//! path it wants observed next, the caller queries the filesystem and hands
//! back an observation, and `step` advances the depth-first walk, records
//! entries and signatures, and either asks for the next path, finishes with
//! a well-formed [`FileTree`], or aborts on the first obstruction.

use vstd::prelude::*;

use crate::path_map::{lemma_map_of_finite, PathMap};
use crate::size::Size;
use crate::tree::{dirs_closed, entry_children, EntryNode, FileTree};

verus! {

/// Why a build aborted. Every failure is fatal to the build attempt; the
/// caller never observes a partial tree.
#[derive(Clone, Copy, Debug, PartialEq, Eq, Structural)]
pub enum BuildError {
    /// The queried path does not exist.
    PathNotFound,
    /// The filesystem refused access.
    PermissionDenied,
    /// An entry is neither a regular file nor a directory.
    UnsupportedEntryKind,
    /// Reading a file's bytes while computing its signature failed.
    SignatureComputationFailed,
    /// Any other I/O failure.
    Io,
}

/// What the filesystem reports about the path the builder asked about.
#[derive(Debug)]
pub enum FsObservation {
    /// A regular file, with its byte length and its content signature.
    File { size: u64, signature: String },
    /// A directory, with its immediate child paths in enumeration order.
    Directory { children: Vec<String> },
    /// An entry of any other kind (symlink, device, socket, ...).
    Unsupported,
    /// The query itself failed.
    Failure(BuildError),
}

/// A directory whose children are still being visited: its path, its full
/// child list, and how many children have been dispatched so far.
pub struct Frame {
    pub path: String,
    pub children: Vec<String>,
    pub next: usize,
}

/// The outcome of one build step.
pub enum BuildStep {
    /// More paths remain; the new builder's pending path is next.
    Continue(TreeBuilder),
    /// The walk is complete.
    Done(FileTree),
    /// The build aborted. Nothing recorded so far is handed out.
    Failed(BuildError),
}

/// `m2` keeps every record of `m1` unchanged.
pub open spec fn extends(
    m1: Map<Seq<char>, EntryNode>,
    m2: Map<Seq<char>, EntryNode>,
) -> bool {
    forall|p: Seq<char>| #[trigger] m1.contains_key(p) ==> m2.contains_key(p) && m2[p] == m1[p]
}

/// The depth-first walk in progress.
pub struct TreeBuilder {
    pub root: String,
    pub cur: String,
    pub stack: Vec<Frame>,
    pub index: PathMap<EntryNode>,
    pub signatures: PathMap<String>,
}

impl TreeBuilder {
    /// Signatures are recorded for exactly the file entries of the index.
    pub open spec fn sig_agree(&self) -> bool {
        forall|p: Seq<char>| #[trigger] self.signatures@.contains_key(p)
            <==> self.index@.contains_key(p) && self.index@[p] is File
    }

    /// Both association lists have unique keys, the directories recorded so
    /// far only list recorded, strictly longer paths, and signatures track
    /// file entries.
    pub open spec fn maps_inv(&self) -> bool {
        &&& self.index.wf()
        &&& self.signatures.wf()
        &&& dirs_closed(self.index@)
        &&& self.sig_agree()
    }

    /// The shape of one stack frame: at least one child dispatched, all of
    /// them strictly longer than the frame's path, all but the last
    /// dispatched child already recorded, and the frame linked to its
    /// parent (the bottom frame sits at the root).
    pub open spec fn frame_ok(&self, i: int) -> bool {
        let f = self.stack@[i];
        &&& 1 <= f.next <= f.children@.len()
        &&& forall|j: int| 0 <= j < f.children@.len()
            ==> (#[trigger] f.children@[j])@.len() > f.path@.len()
        &&& forall|j: int| 0 <= j < f.next - 1
            ==> self.index@.contains_key((#[trigger] f.children@[j])@)
        &&& if i == 0 {
            f.path@ == self.root@
        } else {
            f.path@ == self.stack@[i - 1].children@[self.stack@[i - 1].next - 1]@
                && f.path@.len() > self.root@.len()
        }
    }

    pub open spec fn frames_inv(&self) -> bool {
        forall|i: int| 0 <= i < self.stack@.len() ==> self.frame_ok(i)
    }

    /// Every recorded path is strictly longer than the root's: the root
    /// itself is recorded only by the final step of the walk.
    pub open spec fn dom_gt_root(&self) -> bool {
        forall|p: Seq<char>| #[trigger] self.index@.contains_key(p) ==> p.len() > self.root@.len()
    }

    /// The invariant that holds between steps.
    pub open spec fn inv(&self) -> bool {
        &&& self.maps_inv()
        &&& self.frames_inv()
        &&& self.dom_gt_root()
        &&& if self.stack@.len() == 0 {
            self.cur@ == self.root@ && self.index@ =~= Map::<Seq<char>, EntryNode>::empty()
                && self.signatures@ =~= Map::<Seq<char>, String>::empty()
        } else {
            self.cur@ == self.stack@.last().children@[self.stack@.last().next - 1]@
        }
    }

    /// Every frame has dispatched all of its children: one more record
    /// completes the walk.
    pub open spec fn drained(&self) -> bool {
        forall|i: int| 0 <= i < self.stack@.len()
            ==> (#[trigger] self.stack@[i]).next == self.stack@[i].children@.len()
    }

    /// The index after recording entry `e` under the pending path; a path
    /// already recorded is kept as it is.
    pub open spec fn recorded_index(&self, e: EntryNode) -> Map<Seq<char>, EntryNode> {
        if self.index@.contains_key(self.cur@) {
            self.index@
        } else {
            self.index@.insert(self.cur@, e)
        }
    }

    /// The signature table after recording `sig` for the pending path.
    pub open spec fn recorded_sigs(&self, sig: Option<String>) -> Map<Seq<char>, String> {
        match sig {
            Some(s) => if self.index@.contains_key(self.cur@) {
                self.signatures@
            } else {
                self.signatures@.insert(self.cur@, s)
            },
            None => self.signatures@,
        }
    }

    /// Any map entries beyond `base` are directory records taken from the
    /// walk's stack frames.
    pub open spec fn new_dirs(
        &self,
        base: Map<Seq<char>, EntryNode>,
        m: Map<Seq<char>, EntryNode>,
    ) -> bool {
        forall|p: Seq<char>| #[trigger] m.contains_key(p) && !base.contains_key(p)
            ==> exists|i: int| 0 <= i < self.stack@.len() && (#[trigger] self.stack@[i]).path@ == p
                && m[p] == EntryNode::Directory(self.stack@[i].children)
    }

    /// What one step that records entry `e` (and possibly a signature)
    /// under the pending path guarantees.
    pub open spec fn records_ok(&self, r: BuildStep, e: EntryNode, sig: Option<String>) -> bool {
        let ri = self.recorded_index(e);
        let rs = self.recorded_sigs(sig);
        &&& !(r is Failed)
        &&& (r is Done <==> self.drained())
        &&& match r {
            BuildStep::Continue(b2) => {
                &&& b2.inv()
                &&& b2.root@ == self.root@
                &&& extends(ri, b2.index@)
                &&& b2.signatures@ == rs
                &&& self.new_dirs(ri, b2.index@)
            },
            BuildStep::Done(t) => {
                &&& t.wf()
                &&& t.root@ == self.root@
                &&& extends(ri, t.index@)
                &&& t.signatures@ == rs
                &&& self.new_dirs(ri, t.index@)
            },
            BuildStep::Failed(_) => false,
        }
    }

    /// After recording an entry without children under the pending path,
    /// the stack frames, the map invariants and the length bounds still
    /// hold, which is what `advance` asks for.
    proof fn lemma_record_ok(self, b: TreeBuilder, e: EntryNode, sig: Option<String>)
        requires
            self.inv(),
            b.root@ == self.root@,
            b.cur@ == self.cur@,
            b.stack@ == self.stack@,
            b.index.wf(),
            b.signatures.wf(),
            b.index@ == self.recorded_index(e),
            b.signatures@ == self.recorded_sigs(sig),
            entry_children(e).len() == 0,
            e is File <==> sig is Some,
        ensures
            b.maps_inv(),
            b.frames_inv(),
            b.stack@.len() == 0 ==> b.index@.contains_key(b.root@),
            b.stack@.len() > 0 ==> b.dom_gt_root() && b.index@.contains_key(
                b.stack@.last().children@[b.stack@.last().next - 1]@,
            ),
    {
        let cur = self.cur@;
        if self.stack@.len() > 0 {
            let t = self.stack@.len() - 1;
            assert(self.frame_ok(t));
            assert(cur == self.stack@[t].children@[self.stack@[t].next - 1]@);
            assert(cur.len() > self.stack@[t].path@.len());
            if t == 0 {
                assert(self.stack@[t].path@ == self.root@);
            }
            assert(cur.len() > self.root@.len());
        }
        assert(dirs_closed(b.index@)) by {
            assert forall|p: Seq<char>, i: int|
                b.index@.contains_key(p) && 0 <= i < entry_children(#[trigger] b.index@[p]).len()
                implies b.index@.contains_key(#[trigger] entry_children(b.index@[p])[i])
                    && entry_children(b.index@[p])[i].len() > p.len() by {
                if self.index@.contains_key(p) {
                    assert(b.index@[p] == self.index@[p]);
                    assert(entry_children(self.index@[p])[i] == entry_children(b.index@[p])[i]);
                } else {
                    assert(p == cur && b.index@[p] == e);
                }
            }
        }
        assert(b.sig_agree()) by {
            assert forall|p: Seq<char>| #[trigger] b.signatures@.contains_key(p)
                <==> b.index@.contains_key(p) && b.index@[p] is File by {
                if p != cur {
                    assert(self.signatures@.contains_key(p)
                        <==> self.index@.contains_key(p) && self.index@[p] is File);
                }
            }
        }
        assert forall|i: int| 0 <= i < b.stack@.len() implies b.frame_ok(i) by {
            assert(self.frame_ok(i));
            let f = b.stack@[i];
            assert forall|j: int| 0 <= j < f.next - 1
                implies b.index@.contains_key((#[trigger] f.children@[j])@) by {
                assert(self.index@.contains_key(f.children@[j]@));
            }
        }
    }

    /// Starts a walk at `root`. The first observation to hand to `step` is
    /// the one for `root` itself.
    pub fn new(root: String) -> (b: Self)
        ensures
            b.inv(),
            b.root@ == root@,
            b.cur@ == root@,
            b.stack@.len() == 0,
    {
        let cur = root.clone();
        TreeBuilder {
            root,
            cur,
            stack: Vec::new(),
            index: PathMap::new(),
            signatures: PathMap::new(),
        }
    }

    /// The path the builder wants observed next.
    pub fn pending_path(&self) -> (r: &String)
        ensures
            r@ == self.cur@,
    {
        &self.cur
    }

    /// Advances the walk by one observation of the pending path.
    ///
    /// A failure or an unsupported entry kind aborts the whole build, as the
    /// error clauses state. A file observation records the entry and its
    /// signature; a directory observation opens a frame for its children (an
    /// empty directory is recorded at once). The walk completes exactly when
    /// the last pending child of every open frame has been recorded.
    pub fn step(self, obs: FsObservation) -> (r: BuildStep)
        requires
            self.inv(),
            match obs {
                FsObservation::Directory { children } => forall|j: int|
                    0 <= j < children@.len()
                        ==> (#[trigger] children@[j])@.len() > self.cur@.len(),
                _ => true,
            },
        ensures
            match obs {
                FsObservation::Failure(e) => r == BuildStep::Failed(e),
                FsObservation::Unsupported => r == BuildStep::Failed(
                    BuildError::UnsupportedEntryKind,
                ),
                FsObservation::File { size, signature } => self.records_ok(
                    r,
                    EntryNode::File(Size(size)),
                    Some(signature),
                ),
                FsObservation::Directory { children } => if children@.len() == 0 {
                    self.records_ok(r, EntryNode::Directory(children), None)
                } else {
                    match r {
                        BuildStep::Continue(b2) => {
                            &&& b2.inv()
                            &&& b2.root@ == self.root@
                            &&& b2.index@ == self.index@
                            &&& b2.signatures@ == self.signatures@
                            &&& b2.cur@ == children@[0]@
                            &&& b2.stack@ == self.stack@.push(
                                Frame { path: self.cur, children, next: 1 },
                            )
                        },
                        _ => false,
                    }
                },
            },
    {
        let mut b = self;
        match obs {
            FsObservation::Failure(e) => BuildStep::Failed(e),
            FsObservation::Unsupported => BuildStep::Failed(BuildError::UnsupportedEntryKind),
            FsObservation::File { size, signature } => {
                let ghost gsig = signature;
                if !b.index.contains(&b.cur) {
                    let k = b.cur.clone();
                    let k2 = b.cur.clone();
                    b.index.insert_if_absent(k, EntryNode::File(Size::new(size)));
                    b.signatures.insert_if_absent(k2, signature);
                }
                proof {
                    assert(b.index@ == self.recorded_index(EntryNode::File(Size(size))));
                    assert(b.signatures@ == self.recorded_sigs(Some(gsig)));
                    self.lemma_record_ok(b, EntryNode::File(Size(size)), Some(gsig));
                }
                b.advance(Ghost(self))
            },
            FsObservation::Directory { children } => {
                let ghost gch = children;
                if children.len() == 0 {
                    if !b.index.contains(&b.cur) {
                        let k = b.cur.clone();
                        b.index.insert_if_absent(k, EntryNode::Directory(children));
                        proof {
                            assert(b.index@ == self.recorded_index(
                                EntryNode::Directory(gch),
                            ));
                            self.lemma_record_ok(b, EntryNode::Directory(gch), None);
                        }
                        b.advance(Ghost(self))
                    } else {
                        proof {
                            assert(b.index@ == self.recorded_index(
                                EntryNode::Directory(children),
                            ));
                            self.lemma_record_ok(b, EntryNode::Directory(children), None);
                        }
                        b.advance(Ghost(self))
                    }
                } else {
                    let c0 = children[0].clone();
                    let f = Frame { path: b.cur, children, next: 1 };
                    b.stack.push(f);
                    b.cur = c0;
                    proof {
                        assert forall|i: int| 0 <= i < b.stack@.len() implies b.frame_ok(i) by {
                            if i < b.stack@.len() - 1 {
                                assert(self.frame_ok(i));
                                assert(b.stack@[i] == self.stack@[i]);
                                if i > 0 {
                                    assert(b.stack@[i - 1] == self.stack@[i - 1]);
                                }
                            } else {
                                assert(b.stack@[i].path@ == self.cur@);
                                if i > 0 {
                                    assert(b.stack@[i - 1] == self.stack@[i - 1]);
                                    assert(self.frame_ok(i - 1));
                                    let g = self.stack@[i - 1];
                                    assert(self.stack@.last() == g);
                                    assert(self.cur@ == g.children@[g.next - 1]@);
                                    assert(self.cur@.len() > g.path@.len());
                                    if i - 1 == 0 {
                                        assert(g.path@ == self.root@);
                                    } else {
                                        assert(g.path@.len() > self.root@.len());
                                    }
                                }
                            }
                        }
                        assert(b.cur@ == b.stack@.last().children@[b.stack@.last().next - 1]@);
                    }
                    BuildStep::Continue(b)
                }
            },
        }
    }

    /// After the pending path's entry has been recorded, pops every
    /// completed frame (recording its directory entry) and dispatches the
    /// next pending child, or finishes.
    fn advance(self, prior: Ghost<TreeBuilder>) -> (r: BuildStep)
        requires
            self.maps_inv(),
            self.frames_inv(),
            self.stack@.len() == 0 ==> self.index@.contains_key(self.root@),
            self.stack@.len() > 0 ==> {
                &&& self.dom_gt_root()
                &&& self.index@.contains_key(
                    self.stack@.last().children@[self.stack@.last().next - 1]@,
                )
            },
            prior@.stack@ == self.stack@,
            prior@.root@ == self.root@,
        ensures
            !(r is Failed),
            (r is Done <==> self.drained()),
            match r {
                BuildStep::Continue(b2) => {
                    &&& b2.inv()
                    &&& b2.root@ == self.root@
                    &&& extends(self.index@, b2.index@)
                    &&& b2.signatures@ == self.signatures@
                    &&& prior@.new_dirs(self.index@, b2.index@)
                },
                BuildStep::Done(t) => {
                    &&& t.wf()
                    &&& t.root@ == self.root@
                    &&& extends(self.index@, t.index@)
                    &&& t.signatures@ == self.signatures@
                    &&& prior@.new_dirs(self.index@, t.index@)
                },
                BuildStep::Failed(_) => false,
            },
    {
        let ghost base: Map<Seq<char>, EntryNode> = self.index@;
        let mut b = self;
        loop
            invariant
                b.maps_inv(),
                b.frames_inv(),
                b.root@ == self.root@,
                b.signatures@ == self.signatures@,
                b.stack@.len() <= self.stack@.len(),
                b.stack@ == self.stack@.take(b.stack@.len() as int),
                extends(self.index@, b.index@),
                prior@.new_dirs(self.index@, b.index@),
                prior@.stack@ == self.stack@,
                b.stack@.len() == 0 ==> b.index@.contains_key(b.root@),
                b.stack@.len() > 0 ==> {
                    &&& b.dom_gt_root()
                    &&& b.index@.contains_key(
                        b.stack@.last().children@[b.stack@.last().next - 1]@,
                    )
                },
                self.drained() <==> b.drained(),
            decreases b.stack@.len(),
        {
            let n = b.stack.len();
            if n == 0 {
                proof {
                    lemma_map_of_finite(b.index.entries@);
                    lemma_map_of_finite(b.signatures.entries@);
                }
                let t = FileTree { root: b.root, index: b.index, signatures: b.signatures };
                return BuildStep::Done(t);
            }
            let ghost pre = b;
            let mut f = b.stack.pop().unwrap();
            proof {
                assert(pre.stack@ == self.stack@.take(n as int));
                assert(f == pre.stack@[n - 1]);
                assert(self.stack@.take(n as int)[n - 1] == self.stack@[n - 1]);
                assert(pre.stack@[n - 1] == self.stack@[n - 1]);
                assert(b.stack@ =~= self.stack@.take(n - 1));
                assert forall|i: int| 0 <= i < b.stack@.len() implies b.frame_ok(i) by {
                    assert(pre.frame_ok(i));
                    assert(b.stack@[i] == pre.stack@[i]);
                    if i > 0 {
                        assert(b.stack@[i - 1] == pre.stack@[i - 1]);
                    }
                }
                assert(pre.frame_ok(n - 1));
            }
            if f.next < f.children.len() {
                let ghost f0 = f;
                let c = f.children[f.next].clone();
                f.next = f.next + 1;
                b.stack.push(f);
                b.cur = c;
                proof {
                    let ghost newtop = b.stack@.last();
                    assert(b.stack@.len() == n);
                    assert(newtop.path == f0.path && newtop.children == f0.children
                        && newtop.next == f0.next + 1);
                    assert forall|i: int| 0 <= i < b.stack@.len() implies b.frame_ok(i) by {
                        assert(pre.frame_ok(i));
                        if i < n - 1 {
                            assert(b.stack@[i] == pre.stack@[i]);
                            if i > 0 {
                                assert(b.stack@[i - 1] == pre.stack@[i - 1]);
                            }
                        } else {
                            // the reopened top frame: one more child dispatched,
                            // and the previously last-dispatched child is recorded
                            assert(pre.index@.contains_key(
                                pre.stack@.last().children@[pre.stack@.last().next - 1]@,
                            ));
                            assert forall|j: int| 0 <= j < b.stack@[i].next - 1
                                implies b.index@.contains_key(
                                (#[trigger] b.stack@[i].children@[j])@,
                            ) by {
                                if j < f0.next - 1 {
                                    assert(b.index@.contains_key(f0.children@[j]@));
                                } else {
                                    assert(j == f0.next - 1);
                                }
                            }
                            if i > 0 {
                                assert(b.stack@[i - 1] == pre.stack@[i - 1]);
                            }
                        }
                    }
                    assert(b.inv()) by {
                        assert(b.cur@ == b.stack@.last().children@[b.stack@.last().next - 1]@);
                    }
                    assert(!self.drained()) by {
                        assert(self.stack@[n - 1] == f0);
                        assert(self.stack@[n - 1].next < self.stack@[n - 1].children@.len());
                    }
                }
                return BuildStep::Continue(b);
            } else {
                let ghost before = b.index@;
                let ghost fpath = f.path@;
                let ghost fchildren = f.children;
                proof {
                    assert forall|j: int| 0 <= j < f.children@.len()
                        implies before.contains_key((#[trigger] f.children@[j])@)
                            && f.children@[j]@.len() > fpath.len() by {
                        assert(pre.frame_ok(n - 1));
                        if j < f.next - 1 {
                        } else {
                            assert(j == f.next - 1);
                            assert(pre.index@.contains_key(
                                pre.stack@.last().children@[pre.stack@.last().next - 1]@,
                            ));
                        }
                    }
                }
                b.index.insert_if_absent(f.path, EntryNode::Directory(f.children));
                proof {
                    assert(dirs_closed(b.index@)) by {
                        assert forall|p: Seq<char>, i: int|
                            b.index@.contains_key(p) && 0 <= i < entry_children(
                                #[trigger] b.index@[p],
                            ).len() implies b.index@.contains_key(
                            #[trigger] entry_children(b.index@[p])[i],
                        ) && entry_children(b.index@[p])[i].len() > p.len() by {
                            if before.contains_key(p) {
                                assert(b.index@[p] == before[p]);
                                assert(entry_children(before[p])[i]
                                    == entry_children(b.index@[p])[i]);
                            } else {
                                assert(p == fpath);
                                assert(b.index@[p] == EntryNode::Directory(fchildren));
                            }
                        }
                    }
                    assert(b.sig_agree()) by {
                        assert forall|p: Seq<char>| #[trigger] b.signatures@.contains_key(p)
                            <==> b.index@.contains_key(p) && b.index@[p] is File by {
                            if p != fpath || before.contains_key(fpath) {
                                assert(before.contains_key(p) ==> b.index@[p] == before[p]);
                            }
                        }
                    }
                    assert forall|i: int| 0 <= i < b.stack@.len() implies b.frame_ok(i) by {
                        assert(pre.frame_ok(i));
                        assert(b.stack@[i] == pre.stack@[i]);
                        if i > 0 {
                            assert(b.stack@[i - 1] == pre.stack@[i - 1]);
                        }
                        assert forall|j: int| 0 <= j < b.stack@[i].next - 1
                            implies b.index@.contains_key(
                            (#[trigger] b.stack@[i].children@[j])@,
                        ) by {
                            assert(before.contains_key(pre.stack@[i].children@[j]@));
                        }
                    }
                    assert(prior@.new_dirs(self.index@, b.index@)) by {
                        assert forall|p: Seq<char>|
                            #[trigger] b.index@.contains_key(p) && !self.index@.contains_key(p)
                            implies exists|i: int| 0 <= i < prior@.stack@.len()
                                && (#[trigger] prior@.stack@[i]).path@ == p
                                && b.index@[p] == EntryNode::Directory(
                                prior@.stack@[i].children,
                            ) by {
                            if before.contains_key(p) {
                                assert(b.index@[p] == before[p]);
                            } else {
                                assert(p == fpath);
                                assert(prior@.stack@[n - 1] == pre.stack@[n - 1]);
                                assert(prior@.stack@[n - 1].path@ == p);
                                assert(b.index@[p] == EntryNode::Directory(
                                    prior@.stack@[n - 1].children,
                                ));
                            }
                        }
                    }
                    if b.stack@.len() > 0 {
                        assert(pre.frame_ok(n - 1));
                        assert(b.stack@.last() == pre.stack@[n - 2]);
                        assert(fpath == b.stack@.last().children@[b.stack@.last().next - 1]@);
                        assert(b.index@.contains_key(fpath));
                        assert(b.dom_gt_root()) by {
                            assert forall|p: Seq<char>| #[trigger] b.index@.contains_key(p)
                                implies p.len() > b.root@.len() by {
                                if !before.contains_key(p) {
                                    assert(p == fpath);
                                    assert(pre.frame_ok(n - 1));
                                }
                            }
                        }
                    } else {
                        assert(pre.frame_ok(0));
                        assert(n == 1);
                        assert(fpath == self.root@);
                    }
                    assert(self.drained() <==> b.drained()) by {
                        assert(self.drained() <==> pre.drained());
                        assert(pre.stack@[n - 1].next == pre.stack@[n - 1].children@.len());
                        if b.drained() {
                            assert forall|i: int| 0 <= i < pre.stack@.len()
                                implies (#[trigger] pre.stack@[i]).next
                                    == pre.stack@[i].children@.len() by {
                                if i < n - 1 {
                                    assert(b.stack@[i] == pre.stack@[i]);
                                }
                            }
                            assert(pre.drained());
                        } else {
                            let i = choose|i: int| 0 <= i < b.stack@.len()
                                && (#[trigger] b.stack@[i]).next != b.stack@[i].children@.len();
                            assert(pre.stack@[i] == b.stack@[i]);
                            assert(!pre.drained());
                        }
                    }
                }
            }
        }
    }
}

} // verus!
