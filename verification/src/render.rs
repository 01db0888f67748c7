//! Traversal policies and line rendering.
//!
//! A traversal walks the tree depth-first from a starting path and emits one
//! node per line: the aggregate size in human-readable form, an indent of
//! six spaces per depth level, and the path. The children of each directory
//! are visited in discovery order, in lexicographic path order, or in
//! descending order of aggregate size; an extension filter, when present,
//! drops the file lines whose path extension differs, while directories are
//! always visited so that matching descendants are reached.

use vstd::prelude::*;
use vstd::string::StrSliceExecFns;
use vstd::string::StringExecFns;

use crate::path_map::{clone_paths, lemma_map_of_finite};
use crate::size::{display_spec, Size};
use crate::tree::{
    entry_children, lemma_measure_decreases, measure, sat64, spec_size, tree_shape, EntryNode,
    FileTree,
};

verus! {

broadcast use {
    vstd::seq_lib::group_to_multiset_ensures,
    vstd::seq_lib::lemma_multiset_commutative,
    vstd::multiset::group_multiset_axioms,
};

/// The selectable child orderings.
#[derive(Clone, Copy, Debug, PartialEq, Eq, Structural)]
pub enum Order {
    /// Children in the order stored by the builder.
    Natural,
    /// Children sorted by descending aggregate size; ties keep their stored
    /// order.
    SizeDescending,
    /// Children sorted by lexicographic path order.
    Lexicographic,
}

/// Lexicographic order on paths, by scalar value of each character.
pub open spec fn lex_le(a: Seq<char>, b: Seq<char>) -> bool
    decreases a.len(),
{
    if a.len() == 0 {
        true
    } else if b.len() == 0 {
        false
    } else if a[0] == b[0] {
        lex_le(a.drop_first(), b.drop_first())
    } else {
        (a[0] as u32) < (b[0] as u32)
    }
}

/// Lexicographic order is total.
pub proof fn lemma_lex_le_total(a: Seq<char>, b: Seq<char>)
    ensures
        lex_le(a, b) || lex_le(b, a),
    decreases a.len(),
{
    if a.len() > 0 && b.len() > 0 {
        if a[0] == b[0] {
            lemma_lex_le_total(a.drop_first(), b.drop_first());
        } else {
            vstd::utf8::char_u32_cast(a[0], a[0] as u32);
            vstd::utf8::char_u32_cast(b[0], b[0] as u32);
            assert(a[0] as u32 != b[0] as u32);
        }
    }
}

/// Lexicographic order is transitive.
pub proof fn lemma_lex_le_trans(a: Seq<char>, b: Seq<char>, c: Seq<char>)
    requires
        lex_le(a, b),
        lex_le(b, c),
    ensures
        lex_le(a, c),
    decreases a.len(),
{
    if a.len() > 0 && b.len() > 0 && c.len() > 0 {
        if a[0] == b[0] && b[0] == c[0] {
            lemma_lex_le_trans(a.drop_first(), b.drop_first(), c.drop_first());
        }
    }
}

/// The strictly-before test of the lexicographic policy: a path is inserted
/// in front of the first path it compares at or below.
pub open spec fn lex_lt() -> spec_fn(Seq<char>, Seq<char>) -> bool {
    |a: Seq<char>, b: Seq<char>| lex_le(a, b)
}

/// The strictly-before test of the size policy: a path is inserted in front
/// of the first path of strictly smaller aggregate size, which keeps ties in
/// their stored order.
pub open spec fn size_lt(m: Map<Seq<char>, EntryNode>) -> spec_fn(Seq<char>, Seq<char>) -> bool {
    |a: Seq<char>, b: Seq<char>| sat64(spec_size(m, a)) > sat64(spec_size(m, b))
}

/// Insertion into an ordered list: the element goes in front of the first
/// element `e` with `lt(c, e)`.
pub open spec fn insert_ord(
    c: Seq<char>,
    s: Seq<Seq<char>>,
    lt: spec_fn(Seq<char>, Seq<char>) -> bool,
) -> Seq<Seq<char>>
    decreases s.len(),
{
    if s.len() == 0 {
        seq![c]
    } else if lt(c, s[0]) {
        seq![c] + s
    } else {
        seq![s[0]] + insert_ord(c, s.drop_first(), lt)
    }
}

/// Insertion sort under `lt`.
pub open spec fn sort_ord(
    s: Seq<Seq<char>>,
    lt: spec_fn(Seq<char>, Seq<char>) -> bool,
) -> Seq<Seq<char>>
    decreases s.len(),
{
    if s.len() == 0 {
        s
    } else {
        insert_ord(s[0], sort_ord(s.drop_first(), lt), lt)
    }
}

pub proof fn lemma_insert_ord_multiset(
    c: Seq<char>,
    s: Seq<Seq<char>>,
    lt: spec_fn(Seq<char>, Seq<char>) -> bool,
)
    ensures
        insert_ord(c, s, lt).to_multiset() == s.to_multiset().insert(c),
        insert_ord(c, s, lt).len() == s.len() + 1,
    decreases s.len(),
{
    if s.len() == 0 {
        assert(seq![c] =~= Seq::<Seq<char>>::empty().push(c));
        assert(insert_ord(c, s, lt).to_multiset() =~= s.to_multiset().insert(c));
    } else if lt(c, s[0]) {
        assert((seq![c] + s).to_multiset() =~= seq![c].to_multiset().add(s.to_multiset()));
        assert(seq![c] =~= Seq::<Seq<char>>::empty().push(c));
        assert((seq![c] + s).to_multiset() =~= s.to_multiset().insert(c));
    } else {
        lemma_insert_ord_multiset(c, s.drop_first(), lt);
        assert((seq![s[0]] + insert_ord(c, s.drop_first(), lt)).to_multiset()
            =~= seq![s[0]].to_multiset().add(s.drop_first().to_multiset().insert(c)));
        assert(seq![s[0]] + s.drop_first() =~= s);
        assert((seq![s[0]] + s.drop_first()).to_multiset()
            =~= seq![s[0]].to_multiset().add(s.drop_first().to_multiset()));
        assert(insert_ord(c, s, lt).to_multiset() =~= s.to_multiset().insert(c));
    }
}

pub proof fn lemma_sort_ord_multiset(s: Seq<Seq<char>>, lt: spec_fn(Seq<char>, Seq<char>) -> bool)
    ensures
        sort_ord(s, lt).to_multiset() == s.to_multiset(),
        sort_ord(s, lt).len() == s.len(),
        forall|x: Seq<char>| sort_ord(s, lt).contains(x) <==> s.contains(x),
    decreases s.len(),
{
    if s.len() > 0 {
        lemma_sort_ord_multiset(s.drop_first(), lt);
        lemma_insert_ord_multiset(s[0], sort_ord(s.drop_first(), lt), lt);
        assert(seq![s[0]] + s.drop_first() =~= s);
        assert((seq![s[0]] + s.drop_first()).to_multiset()
            =~= seq![s[0]].to_multiset().add(s.drop_first().to_multiset()));
        assert(seq![s[0]] =~= Seq::<Seq<char>>::empty().push(s[0]));
        assert(sort_ord(s, lt).to_multiset() =~= s.to_multiset());
    }
    assert forall|x: Seq<char>| sort_ord(s, lt).contains(x) <==> s.contains(x) by {
        assert(sort_ord(s, lt).contains(x) <==> sort_ord(s, lt).to_multiset().count(x) > 0);
        assert(s.contains(x) <==> s.to_multiset().count(x) > 0);
    }
}

/// The insertion point is the first position whose element admits `c`.
pub proof fn lemma_insert_ord_split(
    c: Seq<char>,
    s: Seq<Seq<char>>,
    lt: spec_fn(Seq<char>, Seq<char>) -> bool,
    j: int,
)
    requires
        0 <= j <= s.len(),
        forall|k: int| 0 <= k < j ==> !lt(c, s[k]),
        j < s.len() ==> lt(c, s[j]),
    ensures
        insert_ord(c, s, lt) == s.take(j) + seq![c] + s.skip(j),
    decreases s.len(),
{
    if s.len() == 0 {
        assert(insert_ord(c, s, lt) =~= s.take(j) + seq![c] + s.skip(j));
    } else if j == 0 {
        assert(insert_ord(c, s, lt) =~= s.take(0) + seq![c] + s.skip(0));
    } else {
        assert(!lt(c, s[0]));
        assert forall|k: int| 0 <= k < j - 1 implies !lt(c, s.drop_first()[k]) by {
            assert(s.drop_first()[k] == s[k + 1]);
        }
        if j - 1 < s.drop_first().len() {
            assert(s.drop_first()[j - 1] == s[j]);
        }
        lemma_insert_ord_split(c, s.drop_first(), lt, j - 1);
        assert(insert_ord(c, s, lt) =~= s.take(j) + seq![c] + s.skip(j));
    }
}

proof fn lemma_insert_lex_sorted(c: Seq<char>, s: Seq<Seq<char>>)
    requires
        forall|i: int, j: int| 0 <= i < j < s.len() ==> lex_le(#[trigger] s[i], #[trigger] s[j]),
    ensures
        forall|i: int, j: int| 0 <= i < j < insert_ord(c, s, lex_lt()).len() ==> lex_le(
            #[trigger] insert_ord(c, s, lex_lt())[i],
            #[trigger] insert_ord(c, s, lex_lt())[j],
        ),
    decreases s.len(),
{
    let r = insert_ord(c, s, lex_lt());
    if s.len() == 0 {
    } else if lex_lt()(c, s[0]) {
        assert forall|i: int, j: int| 0 <= i < j < r.len() implies lex_le(
            #[trigger] r[i],
            #[trigger] r[j],
        ) by {
            if i == 0 {
                assert(r[j] == s[j - 1]);
                if j > 1 {
                    lemma_lex_le_trans(c, s[0], s[j - 1]);
                } else {
                    assert(r[j] == s[0]);
                }
            } else {
                assert(r[i] == s[i - 1] && r[j] == s[j - 1]);
            }
        }
    } else {
        assert forall|i: int, j: int| 0 <= i < j < s.drop_first().len() implies lex_le(
            #[trigger] s.drop_first()[i],
            #[trigger] s.drop_first()[j],
        ) by {
            assert(s.drop_first()[i] == s[i + 1] && s.drop_first()[j] == s[j + 1]);
        }
        lemma_insert_lex_sorted(c, s.drop_first());
        let sub = insert_ord(c, s.drop_first(), lex_lt());
        lemma_insert_ord_multiset(c, s.drop_first(), lex_lt());
        assert forall|i: int, j: int| 0 <= i < j < r.len() implies lex_le(
            #[trigger] r[i],
            #[trigger] r[j],
        ) by {
            if i == 0 {
                assert(r[j] == sub[j - 1]);
                assert(sub.contains(sub[j - 1]));
                assert(sub.to_multiset().count(sub[j - 1]) > 0);
                if sub[j - 1] == c {
                    lemma_lex_le_total(c, s[0]);
                } else {
                    assert(s.drop_first().to_multiset().count(sub[j - 1]) > 0);
                    assert(s.drop_first().contains(sub[j - 1]));
                    let x = choose|x: int|
                        0 <= x < s.drop_first().len() && s.drop_first()[x] == sub[j - 1];
                    assert(s.drop_first()[x] == s[x + 1]);
                    assert(lex_le(s[0], s[x + 1]));
                }
            } else {
                assert(r[i] == sub[i - 1] && r[j] == sub[j - 1]);
            }
        }
    }
}

/// The lexicographic policy really sorts: the children it produces stand in
/// ascending path order.
pub proof fn lemma_lexicographic_policy_sorted(s: Seq<Seq<char>>)
    ensures
        forall|i: int, j: int| 0 <= i < j < sort_ord(s, lex_lt()).len() ==> lex_le(
            #[trigger] sort_ord(s, lex_lt())[i],
            #[trigger] sort_ord(s, lex_lt())[j],
        ),
    decreases s.len(),
{
    if s.len() > 0 {
        lemma_lexicographic_policy_sorted(s.drop_first());
        lemma_insert_lex_sorted(s[0], sort_ord(s.drop_first(), lex_lt()));
    }
}

proof fn lemma_insert_desc_sorted(m: Map<Seq<char>, EntryNode>, c: Seq<char>, s: Seq<Seq<char>>)
    requires
        forall|i: int, j: int| 0 <= i < j < s.len() ==> sat64(spec_size(m, #[trigger] s[i]))
            >= sat64(spec_size(m, #[trigger] s[j])),
    ensures
        forall|i: int, j: int| 0 <= i < j < insert_ord(c, s, size_lt(m)).len() ==> sat64(
            spec_size(m, #[trigger] insert_ord(c, s, size_lt(m))[i]),
        ) >= sat64(spec_size(m, #[trigger] insert_ord(c, s, size_lt(m))[j])),
    decreases s.len(),
{
    let r = insert_ord(c, s, size_lt(m));
    if s.len() == 0 {
    } else if size_lt(m)(c, s[0]) {
        assert forall|i: int, j: int| 0 <= i < j < r.len() implies sat64(
            spec_size(m, #[trigger] r[i]),
        ) >= sat64(spec_size(m, #[trigger] r[j])) by {
            if i == 0 {
                assert(r[j] == s[j - 1]);
            } else {
                assert(r[i] == s[i - 1] && r[j] == s[j - 1]);
            }
        }
    } else {
        assert forall|i: int, j: int| 0 <= i < j < s.drop_first().len() implies sat64(
            spec_size(m, #[trigger] s.drop_first()[i]),
        ) >= sat64(spec_size(m, #[trigger] s.drop_first()[j])) by {
            assert(s.drop_first()[i] == s[i + 1] && s.drop_first()[j] == s[j + 1]);
        }
        lemma_insert_desc_sorted(m, c, s.drop_first());
        let sub = insert_ord(c, s.drop_first(), size_lt(m));
        lemma_insert_ord_multiset(c, s.drop_first(), size_lt(m));
        assert forall|i: int, j: int| 0 <= i < j < r.len() implies sat64(
            spec_size(m, #[trigger] r[i]),
        ) >= sat64(spec_size(m, #[trigger] r[j])) by {
            if i == 0 {
                assert(r[j] == sub[j - 1]);
                assert(sub.contains(sub[j - 1]));
                assert(sub.to_multiset().count(sub[j - 1]) > 0);
                if sub[j - 1] == c {
                } else {
                    assert(s.drop_first().to_multiset().count(sub[j - 1]) > 0);
                    assert(s.drop_first().contains(sub[j - 1]));
                    let x = choose|x: int|
                        0 <= x < s.drop_first().len() && s.drop_first()[x] == sub[j - 1];
                    assert(s.drop_first()[x] == s[x + 1]);
                }
            } else {
                assert(r[i] == sub[i - 1] && r[j] == sub[j - 1]);
            }
        }
    }
}

/// The size policy really sorts: aggregate sizes never increase along the
/// children it produces, so ties keep their stored order and everything
/// larger comes first.
pub proof fn lemma_size_policy_sorted(m: Map<Seq<char>, EntryNode>, s: Seq<Seq<char>>)
    ensures
        forall|i: int, j: int| 0 <= i < j < sort_ord(s, size_lt(m)).len() ==> sat64(
            spec_size(m, #[trigger] sort_ord(s, size_lt(m))[i]),
        ) >= sat64(spec_size(m, #[trigger] sort_ord(s, size_lt(m))[j])),
    decreases s.len(),
{
    if s.len() > 0 {
        lemma_size_policy_sorted(m, s.drop_first());
        lemma_insert_desc_sorted(m, s[0], sort_ord(s.drop_first(), size_lt(m)));
    }
}

/// The children of a directory, ordered as the policy asks.
pub open spec fn ordered_children(
    m: Map<Seq<char>, EntryNode>,
    cs: Seq<Seq<char>>,
    order: Order,
) -> Seq<Seq<char>> {
    match order {
        Order::Natural => cs,
        Order::SizeDescending => sort_ord(cs, size_lt(m)),
        Order::Lexicographic => sort_ord(cs, lex_lt()),
    }
}

/// The suffix of `p` after the last occurrence of `c`; all of `p` when `c`
/// does not occur.
pub open spec fn suffix_after(p: Seq<char>, c: char) -> Seq<char>
    decreases p.len(),
{
    if p.len() == 0 {
        p
    } else if p.last() == c {
        Seq::empty()
    } else {
        suffix_after(p.drop_last(), c).push(p.last())
    }
}

/// The extension of a path: the part of its file name after the last dot,
/// absent when the name has no dot past its first character.
pub open spec fn ext_of(p: Seq<char>) -> Option<Seq<char>> {
    let name = suffix_after(p, '/');
    if name.len() > 0 && name.skip(1).contains('.') {
        Some(suffix_after(name, '.'))
    } else {
        None
    }
}

/// Whether a file at path `p` is emitted under the filter.
pub open spec fn file_emitted(p: Seq<char>, filter: Option<Seq<char>>) -> bool {
    match filter {
        None => true,
        Some(f) => ext_of(p) == Some(f),
    }
}

pub proof fn lemma_suffix_after_skip(p: Seq<char>, c: char, j: int)
    requires
        0 <= j <= p.len(),
        forall|k: int| j <= k < p.len() ==> p[k] != c,
        j > 0 ==> p[j - 1] == c,
    ensures
        suffix_after(p, c) == p.skip(j),
    decreases p.len(),
{
    if p.len() == 0 {
        assert(p.skip(j) =~= p);
    } else if j == p.len() {
        assert(p.last() == c);
        assert(p.skip(j) =~= Seq::<char>::empty());
    } else {
        assert(p.last() != c);
        assert forall|k: int| j <= k < p.drop_last().len() implies p.drop_last()[k] != c by {
            assert(p.drop_last()[k] == p[k]);
        }
        if j > 0 {
            assert(p.drop_last()[j - 1] == p[j - 1]);
        }
        lemma_suffix_after_skip(p.drop_last(), c, j);
        assert(suffix_after(p, c) == p.drop_last().skip(j).push(p.last()));
        assert(p.drop_last().skip(j).push(p.last()) =~= p.skip(j));
    }
}

/// One node a traversal visits: its path, its aggregate size, and its depth.
#[derive(Debug)]
pub struct VisitedNode {
    pub path: String,
    pub size: u64,
    pub depth: usize,
}

/// The path/depth view of a visit list.
pub open spec fn entries_view(s: Seq<VisitedNode>) -> Seq<(Seq<char>, nat)> {
    s.map(|i: int, e: VisitedNode| (e.path@, e.depth as nat))
}

/// The nodes a traversal emits from `p` at `depth`, in emission order: a
/// file passing the filter stands alone; a directory's line precedes its
/// children's, with the children ordered by the policy.
pub open spec fn visit_spec(
    m: Map<Seq<char>, EntryNode>,
    p: Seq<char>,
    depth: nat,
    order: Order,
    filter: Option<Seq<char>>,
) -> Seq<(Seq<char>, nat)>
    decreases measure(m, p), 1nat, 0nat,
        when tree_shape(m)
        via visit_spec_decreases
{
    if m.contains_key(p) {
        match m[p] {
            EntryNode::File(_) => if file_emitted(p, filter) {
                seq![(p, depth)]
            } else {
                Seq::empty()
            },
            EntryNode::Directory(cs) => seq![(p, depth)] + visit_children(
                m,
                p,
                ordered_children(m, cs.deep_view(), order),
                depth + 1,
                order,
                filter,
            ),
        }
    } else {
        Seq::empty()
    }
}

/// The concatenated visits of a directory's ordered children.
pub open spec fn visit_children(
    m: Map<Seq<char>, EntryNode>,
    p: Seq<char>,
    cs: Seq<Seq<char>>,
    depth: nat,
    order: Order,
    filter: Option<Seq<char>>,
) -> Seq<(Seq<char>, nat)>
    decreases measure(m, p), 0nat, cs.len(),
        when tree_shape(m) && m.contains_key(p) && (forall|i: int|
            0 <= i < cs.len() ==> m.contains_key(#[trigger] cs[i]) && cs[i].len() > p.len())
        via visit_children_decreases
{
    if cs.len() == 0 {
        Seq::empty()
    } else {
        visit_children(m, p, cs.drop_last(), depth, order, filter) + visit_spec(
            m,
            cs.last(),
            depth,
            order,
            filter,
        )
    }
}

#[via_fn]
proof fn visit_spec_decreases(
    m: Map<Seq<char>, EntryNode>,
    p: Seq<char>,
    depth: nat,
    order: Order,
    filter: Option<Seq<char>>,
) {
}

#[via_fn]
proof fn visit_children_decreases(
    m: Map<Seq<char>, EntryNode>,
    p: Seq<char>,
    cs: Seq<Seq<char>>,
    depth: nat,
    order: Order,
    filter: Option<Seq<char>>,
) {
    if cs.len() > 0 {
        lemma_measure_decreases(m, p, cs.last());
    }
}

/// An indent of six spaces per depth level.
pub open spec fn spaces(n: nat) -> Seq<char>
    decreases n,
{
    if n == 0 {
        Seq::empty()
    } else {
        spaces((n - 1) as nat) + seq![' ']
    }
}

proof fn lemma_spaces_add(a: nat, b: nat)
    ensures
        spaces(a + b) == spaces(a) + spaces(b),
    decreases b,
{
    if b == 0 {
        assert(spaces(a + b) =~= spaces(a) + spaces(b));
    } else {
        lemma_spaces_add(a, (b - 1) as nat);
        assert(spaces(a + b) =~= spaces(a) + spaces(b));
    }
}

/// One rendered line: the indent, the human-readable aggregate size, two
/// spaces, a slash, and the path.
pub open spec fn line_spec(m: Map<Seq<char>, EntryNode>, p: Seq<char>, depth: nat) -> Seq<char> {
    spaces(6 * depth) + display_spec(sat64(spec_size(m, p)) as nat) + seq![' ', ' ', '/'] + p
}

/// The rendered lines of a visit list.
pub open spec fn lines_of(m: Map<Seq<char>, EntryNode>, vs: Seq<(Seq<char>, nat)>) -> Seq<
    Seq<char>,
>
    decreases vs.len(),
{
    if vs.len() == 0 {
        Seq::empty()
    } else {
        lines_of(m, vs.drop_last()).push(line_spec(m, vs.last().0, vs.last().1))
    }
}

/// Compares two paths lexicographically.
fn lex_le_exec(a: &String, b: &String) -> (r: bool)
    ensures
        r == lex_le(a@, b@),
{
    let an = a.as_str().unicode_len();
    let bn = b.as_str().unicode_len();
    let mut i: usize = 0;
    proof {
        assert(a@.skip(0) =~= a@);
        assert(b@.skip(0) =~= b@);
    }
    loop
        invariant
            i <= an,
            i <= bn,
            an == a@.len(),
            bn == b@.len(),
            lex_le(a@, b@) == lex_le(a@.skip(i as int), b@.skip(i as int)),
        decreases an - i,
    {
        if i == an {
            proof {
                assert(a@.skip(i as int).len() == 0);
            }
            return true;
        }
        if i == bn {
            proof {
                assert(b@.skip(i as int).len() == 0);
                assert(a@.skip(i as int).len() > 0);
            }
            return false;
        }
        let ca = a.as_str().get_char(i);
        let cb = b.as_str().get_char(i);
        proof {
            assert(a@.skip(i as int)[0] == a@[i as int]);
            assert(b@.skip(i as int)[0] == b@[i as int]);
            assert(a@.skip(i as int).drop_first() =~= a@.skip(i + 1));
            assert(b@.skip(i as int).drop_first() =~= b@.skip(i + 1));
        }
        if ca == cb {
            i = i + 1;
        } else {
            return (ca as u32) < (cb as u32);
        }
    }
}

/// The extension of a path, if it has one.
pub fn extension_of(p: &String) -> (r: Option<String>)
    ensures
        match r {
            Some(e) => ext_of(p@) == Some(e@),
            None => ext_of(p@) is None,
        },
{
    let n = p.as_str().unicode_len();
    let mut j: usize = n;
    while j > 0 && p.as_str().get_char(j - 1) != '/'
        invariant
            j <= n,
            n == p@.len(),
            forall|k: int| j <= k < n ==> p@[k] != '/',
        decreases j,
    {
        j = j - 1;
    }
    proof {
        lemma_suffix_after_skip(p@, '/', j as int);
    }
    let ghost name = p@.skip(j as int);
    let mut dot: usize = 0;
    let mut has_dot = false;
    let mut k = j;
    while k < n
        invariant
            j <= k <= n,
            n == p@.len(),
            has_dot ==> j < dot < k && p@[dot as int] == '.' && forall|t: int|
                dot < t < k ==> p@[t] != '.',
            !has_dot ==> forall|t: int| j < t < k ==> p@[t] != '.',
        decreases n - k,
    {
        if k > j && p.as_str().get_char(k) == '.' {
            dot = k;
            has_dot = true;
        }
        k = k + 1;
    }
    if has_dot {
        proof {
            assert forall|t: int| (dot + 1 - j) <= t < name.len() implies name[t] != '.' by {
                assert(name[t] == p@[t + j]);
            }
            assert(name[dot - j] == '.');
            lemma_suffix_after_skip(name, '.', dot + 1 - j);
            assert(name.skip(1)[dot - j - 1] == p@[dot as int]);
            assert(name.skip(1).contains('.'));
            assert(name.len() > 0);
            assert(name.skip(dot + 1 - j) =~= p@.skip(dot + 1));
        }
        let e = p.as_str().substring_char(dot + 1, n).to_owned();
        Some(e)
    } else {
        proof {
            if name.len() > 0 && name.skip(1).contains('.') {
                let t = choose|t: int| 0 <= t < name.skip(1).len() && name.skip(1)[t] == '.';
                assert(name.skip(1)[t] == p@[t + j + 1]);
                assert(false);
            }
        }
        None
    }
}

/// Whether a file line at `path` is emitted under the filter.
fn filter_pass(path: &String, filter: Option<&String>) -> (r: bool)
    ensures
        r == file_emitted(path@, filter_view(filter)),
{
    match filter {
        None => true,
        Some(f) => match extension_of(path) {
            Some(e) => e == *f,
            None => false,
        },
    }
}

/// The ghost view of an optional filter.
pub open spec fn filter_view(filter: Option<&String>) -> Option<Seq<char>> {
    match filter {
        None => None,
        Some(f) => Some(f@),
    }
}

impl FileTree {
    /// Sorts child paths lexicographically by insertion.
    fn sort_children_lex(&self, v: &Vec<String>) -> (r: Vec<String>)
        ensures
            r.deep_view() == sort_ord(v.deep_view(), lex_lt()),
    {
        let mut acc: Vec<String> = Vec::new();
        let n = v.len();
        let ghost dv = v.deep_view();
        proof {
            assert(dv.skip(n as int) =~= Seq::<Seq<char>>::empty());
        }
        let mut k: usize = 0;
        while k < n
            invariant
                k <= n,
                n == v@.len(),
                dv == v.deep_view(),
                dv.len() == n,
                acc.deep_view() == sort_ord(dv.skip(n - k), lex_lt()),
            decreases n - k,
        {
            let i = n - 1 - k;
            proof {
                assert(dv.skip(i as int)[0] == dv[i as int]);
                assert(dv.skip(i as int).drop_first() =~= dv.skip(i + 1));
            }
            let c = v[i].clone();
            acc = insert_sorted_lex(acc, c);
            k = k + 1;
        }
        proof {
            assert(dv.skip(0) =~= dv);
        }
        acc
    }

    /// Sorts child paths by descending aggregate size, keeping ties stable.
    fn sort_children_desc(&self, v: &Vec<String>) -> (r: Vec<String>)
        requires
            self.wf(),
            forall|i: int| 0 <= i < v.deep_view().len() ==> self.index@.contains_key(
                #[trigger] v.deep_view()[i],
            ),
        ensures
            r.deep_view() == sort_ord(v.deep_view(), size_lt(self.index@)),
    {
        let mut acc: Vec<String> = Vec::new();
        let n = v.len();
        let ghost dv = v.deep_view();
        proof {
            assert(dv.skip(n as int) =~= Seq::<Seq<char>>::empty());
        }
        let mut k: usize = 0;
        while k < n
            invariant
                k <= n,
                self.wf(),
                n == v@.len(),
                dv == v.deep_view(),
                dv.len() == n,
                forall|i: int| 0 <= i < dv.len() ==> self.index@.contains_key(#[trigger] dv[i]),
                acc.deep_view() == sort_ord(dv.skip(n - k), size_lt(self.index@)),
                forall|i: int| 0 <= i < acc.deep_view().len() ==> self.index@.contains_key(
                    #[trigger] acc.deep_view()[i],
                ),
            decreases n - k,
        {
            let i = n - 1 - k;
            proof {
                assert(dv.skip(i as int)[0] == dv[i as int]);
                assert(dv.skip(i as int).drop_first() =~= dv.skip(i + 1));
            }
            let c = v[i].clone();
            let ghost accpre = acc.deep_view();
            acc = self.insert_sorted_desc(acc, c);
            proof {
                lemma_insert_ord_multiset(dv[i as int], accpre, size_lt(self.index@));
                assert forall|x: int| 0 <= x < acc.deep_view().len()
                    implies self.index@.contains_key(#[trigger] acc.deep_view()[x]) by {
                    assert(acc.deep_view().contains(acc.deep_view()[x]));
                    assert(acc.deep_view().to_multiset().count(acc.deep_view()[x]) > 0);
                    if acc.deep_view()[x] != dv[i as int] {
                        assert(accpre.to_multiset().count(acc.deep_view()[x]) > 0);
                        assert(accpre.contains(acc.deep_view()[x]));
                    }
                }
            }
            k = k + 1;
        }
        proof {
            assert(dv.skip(0) =~= dv);
        }
        acc
    }

    /// The insertion point of a path in a list sorted by descending size.
    fn desc_insert_pos(&self, v: &Vec<String>, c: &String) -> (j: usize)
        requires
            self.wf(),
            self.index@.contains_key(c@),
            forall|i: int| 0 <= i < v.deep_view().len() ==> self.index@.contains_key(
                #[trigger] v.deep_view()[i],
            ),
        ensures
            j <= v.deep_view().len(),
            forall|k: int| 0 <= k < j ==> !(size_lt(self.index@)(c@, v.deep_view()[k])),
            j < v.deep_view().len() ==> size_lt(self.index@)(c@, v.deep_view()[j as int]),
    {
        let ghost dv = v.deep_view();
        let n = v.len();
        let csize = self.get_size(c).unwrap();
        for j in 0..n
            invariant
                self.wf(),
                n == v@.len(),
                dv == v.deep_view(),
                dv.len() == n,
                csize.0 == sat64(spec_size(self.index@, c@)),
                self.index@.contains_key(c@),
                forall|i: int| 0 <= i < dv.len() ==> self.index@.contains_key(#[trigger] dv[i]),
                forall|k: int| 0 <= k < j ==> !(size_lt(self.index@)(c@, dv[k])),
        {
            proof {
                assert(dv[j as int] == v@[j as int]@);
            }
            let esize = self.get_size(&v[j]).unwrap();
            if csize.0 > esize.0 {
                return j;
            }
        }
        n
    }

    /// Inserts a path into a list sorted by descending aggregate size.
    fn insert_sorted_desc(&self, v: Vec<String>, c: String) -> (r: Vec<String>)
        requires
            self.wf(),
            self.index@.contains_key(c@),
            forall|i: int| 0 <= i < v.deep_view().len() ==> self.index@.contains_key(
                #[trigger] v.deep_view()[i],
            ),
        ensures
            r.deep_view() == insert_ord(c@, v.deep_view(), size_lt(self.index@)),
    {
        let j = self.desc_insert_pos(&v, &c);
        proof {
            lemma_insert_ord_split(c@, v.deep_view(), size_lt(self.index@), j as int);
        }
        splice_at(v, c, j)
    }
}

/// The insertion point of a path in a lexicographically sorted list.
fn lex_insert_pos(v: &Vec<String>, c: &String) -> (j: usize)
    ensures
        j <= v.deep_view().len(),
        forall|k: int| 0 <= k < j ==> !(lex_lt()(c@, v.deep_view()[k])),
        j < v.deep_view().len() ==> lex_lt()(c@, v.deep_view()[j as int]),
{
    let ghost dv = v.deep_view();
    let n = v.len();
    for j in 0..n
        invariant
            n == v@.len(),
            dv == v.deep_view(),
            dv.len() == n,
            forall|k: int| 0 <= k < j ==> !(lex_lt()(c@, dv[k])),
    {
        proof {
            assert(dv[j as int] == v@[j as int]@);
        }
        if lex_le_exec(c, &v[j]) {
            return j;
        }
    }
    n
}

/// Inserts a path into a lexicographically sorted list.
fn insert_sorted_lex(v: Vec<String>, c: String) -> (r: Vec<String>)
    ensures
        r.deep_view() == insert_ord(c@, v.deep_view(), lex_lt()),
{
    let j = lex_insert_pos(&v, &c);
    proof {
        lemma_insert_ord_split(c@, v.deep_view(), lex_lt(), j as int);
    }
    splice_at(v, c, j)
}

/// Moves every node of `src` onto the end of `dst`.
fn append_nodes(dst: &mut Vec<VisitedNode>, src: Vec<VisitedNode>)
    ensures
        final(dst)@ == old(dst)@ + src@,
{
    let ghost base = old(dst)@;
    let ghost all = src@;
    let mut src = src;
    while src.len() > 0
        invariant
            all.len() >= src@.len(),
            src@ == all.skip(all.len() - src@.len()),
            dst@ == base + all.take(all.len() - src@.len()),
        decreases src@.len(),
    {
        let ghost done = all.len() - src@.len();
        let e = src.remove(0);
        dst.push(e);
        proof {
            assert(src@ =~= all.skip(done + 1));
            assert(all.skip(done)[0] == all[done]);
            assert(dst@ =~= base + all.take(done + 1));
        }
    }
    proof {
        assert(all.skip(0) =~= all);
        assert(all.take(all.len() as int) =~= all);
        assert(dst@ =~= base + all);
    }
}

impl FileTree {
    /// The traversal from `path` at `depth` under a policy, as visited
    /// nodes, each carrying its aggregate size.
    fn visit_rec(
        &self,
        path: &String,
        depth: usize,
        order: Order,
        filter: Option<&String>,
    ) -> (r: Vec<VisitedNode>)
        requires
            self.wf(),
            depth + measure(self.index@, path@) <= usize::MAX,
        ensures
            entries_view(r@) == visit_spec(
                self.index@,
                path@,
                depth as nat,
                order,
                filter_view(filter),
            ),
            forall|k: int| 0 <= k < r@.len() ==> (#[trigger] r@[k]).size == sat64(
                spec_size(self.index@, r@[k].path@),
            ),
        decreases measure(self.index@, path@),
    {
        let ghost m = self.index@;
        let ghost fv = filter_view(filter);
        let mut out: Vec<VisitedNode> = Vec::new();
        match self.index.get(path) {
            None => {
                proof {
                    assert(entries_view(out@) =~= visit_spec(m, path@, depth as nat, order, fv));
                }
            },
            Some(e) => match e {
                EntryNode::File(sz) => {
                    if filter_pass(path, filter) {
                        out.push(VisitedNode { path: path.clone(), size: sz.0, depth });
                        proof {
                            assert(entries_view(out@) =~= seq![(path@, depth as nat)]);
                            assert(spec_size(m, path@) == sz.0 as nat);
                        }
                    } else {
                        proof {
                            assert(entries_view(out@) =~= visit_spec(
                                m,
                                path@,
                                depth as nat,
                                order,
                                fv,
                            ));
                        }
                    }
                },
                EntryNode::Directory(cs) => {
                    let ghost cv = cs.deep_view();
                    proof {
                        assert(m[path@] == EntryNode::Directory(*cs));
                        assert(cv =~= entry_children(m[path@]));
                        assert forall|i: int| 0 <= i < cv.len()
                            implies m.contains_key(#[trigger] cv[i])
                                && cv[i].len() > path@.len() by {
                            assert(entry_children(m[path@])[i] == cv[i]);
                        }
                        let fs = m.dom().filter(|k: Seq<char>| k.len() >= path@.len());
                        m.dom().lemma_len_filter(|k: Seq<char>| k.len() >= path@.len());
                        if fs.len() == 0 {
                            fs.lemma_len0_is_empty();
                            assert(fs.contains(path@));
                        }
                    }
                    let size = self.get_size(path).unwrap();
                    out.push(VisitedNode { path: path.clone(), size: size.0, depth });
                    let ordered: Vec<String> = match order {
                        Order::Natural => clone_paths(cs),
                        Order::Lexicographic => self.sort_children_lex(cs),
                        Order::SizeDescending => self.sort_children_desc(cs),
                    };
                    let ghost odv = ordered.deep_view();
                    proof {
                        if order is Natural {
                            assert(odv =~= cv);
                        } else if order is Lexicographic {
                            lemma_sort_ord_multiset(cv, lex_lt());
                        } else {
                            lemma_sort_ord_multiset(cv, size_lt(m));
                        }
                        assert(odv == ordered_children(m, cv, order));
                        assert forall|i: int| 0 <= i < odv.len()
                            implies m.contains_key(#[trigger] odv[i])
                                && odv[i].len() > path@.len() by {
                            if !(order is Natural) {
                                assert(odv.contains(odv[i]));
                                assert(cv.contains(odv[i]));
                                let x = choose|x: int| 0 <= x < cv.len() && cv[x] == odv[i];
                                assert(m.contains_key(cv[x]));
                            }
                        }
                        assert(odv.take(0) =~= Seq::<Seq<char>>::empty());
                        assert(visit_children(m, path@, odv.take(0), (depth + 1) as nat, order, fv)
                            =~= Seq::<(Seq<char>, nat)>::empty());
                        assert(entries_view(out@) =~= seq![(path@, depth as nat)]);
                        assert(entries_view(out@) =~= seq![(path@, depth as nat)]
                            + visit_children(m, path@, odv.take(0), (depth + 1) as nat, order, fv));
                    }
                    let n = ordered.len();
                    for i in 0..n
                        invariant
                            self.wf(),
                            m == self.index@,
                            fv == filter_view(filter),
                            n == ordered@.len(),
                            odv == ordered.deep_view(),
                            odv.len() == n,
                            m.contains_key(path@),
                            depth + measure(m, path@) <= usize::MAX,
                            depth < usize::MAX,
                            forall|j: int| 0 <= j < odv.len() ==> m.contains_key(
                                #[trigger] odv[j],
                            ) && odv[j].len() > path@.len(),
                            entries_view(out@) == seq![(path@, depth as nat)] + visit_children(
                                m,
                                path@,
                                odv.take(i as int),
                                (depth + 1) as nat,
                                order,
                                fv,
                            ),
                            forall|k: int| 0 <= k < out@.len() ==> (#[trigger] out@[k]).size
                                == sat64(spec_size(m, out@[k].path@)),
                    {
                        proof {
                            lemma_measure_decreases(m, path@, odv[i as int]);
                            assert(odv[i as int] == ordered@[i as int]@);
                        }
                        let sub = self.visit_rec(&ordered[i], depth + 1, order, filter);
                        let ghost outpre = out@;
                        let ghost subv = sub@;
                        append_nodes(&mut out, sub);
                        proof {
                            assert(out@ == outpre + subv);
                            assert(entries_view(subv) == visit_spec(
                                m,
                                odv[i as int],
                                (depth + 1) as nat,
                                order,
                                fv,
                            ));
                            assert(entries_view(out@) =~= entries_view(outpre)
                                + entries_view(subv));
                            assert(odv.take(i + 1).drop_last() =~= odv.take(i as int));
                            assert(odv.take(i + 1).last() == odv[i as int]);
                            assert forall|j: int| 0 <= j < odv.take(i + 1).len()
                                implies m.contains_key(#[trigger] odv.take(i + 1)[j])
                                    && odv.take(i + 1)[j].len() > path@.len() by {
                                assert(odv.take(i + 1)[j] == odv[j]);
                            }
                            assert(visit_children(
                                m,
                                path@,
                                odv.take(i + 1),
                                (depth + 1) as nat,
                                order,
                                fv,
                            ) == visit_children(
                                m,
                                path@,
                                odv.take(i as int),
                                (depth + 1) as nat,
                                order,
                                fv,
                            ) + visit_spec(m, odv[i as int], (depth + 1) as nat, order, fv));
                            assert(entries_view(out@) =~= seq![(path@, depth as nat)]
                                + visit_children(
                                m,
                                path@,
                                odv.take(i + 1),
                                (depth + 1) as nat,
                                order,
                                fv,
                            ));
                        }
                    }
                    proof {
                        assert(odv.take(n as int) =~= odv);
                        assert(entries_view(out@) =~= visit_spec(m, path@, depth as nat, order, fv));
                    }
                },
            },
        }
        out
    }

    /// Renders one line per visited node.
    fn render_lines(&self, entries: &Vec<VisitedNode>) -> (r: Vec<String>)
        requires
            self.wf(),
            forall|k: int| 0 <= k < entries@.len() ==> (#[trigger] entries@[k]).size == sat64(
                spec_size(self.index@, entries@[k].path@),
            ),
        ensures
            r.deep_view() == lines_of(self.index@, entries_view(entries@)),
    {
        let ghost m = self.index@;
        let mut r: Vec<String> = Vec::new();
        let n = entries.len();
        proof {
            assert(entries_view(entries@.take(0)) =~= Seq::<(Seq<char>, nat)>::empty());
            assert(r.deep_view() =~= lines_of(m, entries_view(entries@.take(0))));
        }
        for i in 0..n
            invariant
                self.wf(),
                m == self.index@,
                n == entries@.len(),
                forall|k: int| 0 <= k < entries@.len() ==> (#[trigger] entries@[k]).size == sat64(
                    spec_size(m, entries@[k].path@),
                ),
                r.deep_view() == lines_of(m, entries_view(entries@.take(i as int))),
        {
            let mut line = indent_str(entries[i].depth);
            let shown = Size::new(entries[i].size).display_string();
            line.append(shown.as_str());
            line.append("  /");
            line.append(entries[i].path.as_str());
            r.push(line);
            proof {
                reveal_strlit("  /");
                assert("  /"@ =~= seq![' ', ' ', '/']);
                let e = entries@[i as int];
                assert(line@ =~= line_spec(m, e.path@, e.depth as nat));
                assert(entries_view(entries@.take(i + 1)).drop_last()
                    =~= entries_view(entries@.take(i as int)));
                assert(entries_view(entries@.take(i + 1)).last() == (e.path@, e.depth as nat));
                assert(r.deep_view() =~= lines_of(m, entries_view(entries@.take(i + 1))));
            }
        }
        proof {
            assert(entries@.take(n as int) =~= entries@);
        }
        r
    }

    /// Renders the whole tree in natural order.
    pub fn show(&self) -> (r: Vec<String>)
        requires
            self.wf(),
        ensures
            r.deep_view() == lines_of(
                self.index@,
                visit_spec(self.index@, self.root@, 0, Order::Natural, None),
            ),
    {
        let _total = self.index.entries.len();
        self.show_from(&self.root.clone(), 0, Order::Natural, None)
    }

    /// Renders the whole tree with children sorted lexicographically.
    pub fn show_lexicographic(&self) -> (r: Vec<String>)
        requires
            self.wf(),
        ensures
            r.deep_view() == lines_of(
                self.index@,
                visit_spec(self.index@, self.root@, 0, Order::Lexicographic, None),
            ),
    {
        let _total = self.index.entries.len();
        self.show_from(&self.root.clone(), 0, Order::Lexicographic, None)
    }

    /// Renders the whole tree with children sorted by descending aggregate
    /// size.
    pub fn show_size_descending(&self) -> (r: Vec<String>)
        requires
            self.wf(),
        ensures
            r.deep_view() == lines_of(
                self.index@,
                visit_spec(self.index@, self.root@, 0, Order::SizeDescending, None),
            ),
    {
        let _total = self.index.entries.len();
        self.show_from(&self.root.clone(), 0, Order::SizeDescending, None)
    }

    /// Renders the whole tree under an extension filter, sorted
    /// lexicographically when asked.
    pub fn show_filtered(&self, filter: &str, lexicographic_sort: bool) -> (r: Vec<String>)
        requires
            self.wf(),
        ensures
            r.deep_view() == lines_of(
                self.index@,
                visit_spec(
                    self.index@,
                    self.root@,
                    0,
                    if lexicographic_sort {
                        Order::Lexicographic
                    } else {
                        Order::Natural
                    },
                    Some(filter@),
                ),
            ),
    {
        let _total = self.index.entries.len();
        let f = filter.to_owned();
        let order = if lexicographic_sort {
            Order::Lexicographic
        } else {
            Order::Natural
        };
        self.show_from(&self.root.clone(), 0, order, Some(&f))
    }

    /// Renders the subtree at `path` from the given depth, sorted
    /// lexicographically and filtered by extension.
    pub fn show_lexicographic_filtered_recursive(
        &self,
        path: &String,
        filter: &str,
        depth: usize,
    ) -> (r: Vec<String>)
        requires
            self.wf(),
            depth + self.index.seq_view().len() <= usize::MAX,
        ensures
            r.deep_view() == lines_of(
                self.index@,
                visit_spec(
                    self.index@,
                    path@,
                    depth as nat,
                    Order::Lexicographic,
                    Some(filter@),
                ),
            ),
    {
        let f = filter.to_owned();
        self.show_from(path, depth, Order::Lexicographic, Some(&f))
    }

    /// Walks and renders in one step.
    fn show_from(
        &self,
        path: &String,
        depth: usize,
        order: Order,
        filter: Option<&String>,
    ) -> (r: Vec<String>)
        requires
            self.wf(),
            depth + self.index.seq_view().len() <= usize::MAX,
        ensures
            r.deep_view() == lines_of(
                self.index@,
                visit_spec(self.index@, path@, depth as nat, order, filter_view(filter)),
            ),
    {
        let total = self.index.entries.len();
        proof {
            lemma_map_of_finite(self.index.entries@);
            self.index@.dom().lemma_len_filter(|k: Seq<char>| k.len() >= path@.len());
        }
        let entries = self.visit_rec(path, depth, order, filter);
        self.render_lines(&entries)
    }
}

/// The membership facts a directory's ordered children inherit from the
/// index's shape.
proof fn lemma_ordered_children_ok(m: Map<Seq<char>, EntryNode>, p: Seq<char>, order: Order)
    requires
        tree_shape(m),
        m.contains_key(p),
        m[p] is Directory,
    ensures
        forall|i: int| 0 <= i < ordered_children(m, entry_children(m[p]), order).len() ==> {
            &&& m.contains_key(#[trigger] ordered_children(m, entry_children(m[p]), order)[i])
            &&& ordered_children(m, entry_children(m[p]), order)[i].len() > p.len()
        },
{
    let cv = entry_children(m[p]);
    let odv = ordered_children(m, cv, order);
    if order is Lexicographic {
        lemma_sort_ord_multiset(cv, lex_lt());
    } else if order is SizeDescending {
        lemma_sort_ord_multiset(cv, size_lt(m));
    }
    assert forall|i: int| 0 <= i < odv.len() implies m.contains_key(#[trigger] odv[i])
        && odv[i].len() > p.len() by {
        if order is Natural {
            assert(entry_children(m[p])[i] == odv[i]);
        } else {
            assert(odv.contains(odv[i]));
            assert(cv.contains(odv[i]));
            let x = choose|x: int| 0 <= x < cv.len() && cv[x] == odv[i];
            assert(entry_children(m[p])[x] == cv[x]);
        }
    }
}

/// Filter correctness, first half: every node a filtered traversal emits is
/// an entry of the index, and every emitted file has exactly the filtered
/// extension.
pub proof fn lemma_filter_correctness(
    m: Map<Seq<char>, EntryNode>,
    p: Seq<char>,
    depth: nat,
    order: Order,
    f: Seq<char>,
    k: int,
)
    requires
        tree_shape(m),
        0 <= k < visit_spec(m, p, depth, order, Some(f)).len(),
    ensures
        m.contains_key(visit_spec(m, p, depth, order, Some(f))[k].0),
        m[visit_spec(m, p, depth, order, Some(f))[k].0] is File ==> ext_of(
            visit_spec(m, p, depth, order, Some(f))[k].0,
        ) == Some(f),
    decreases measure(m, p), 1nat, 0nat,
{
    let vs = visit_spec(m, p, depth, order, Some(f));
    if m.contains_key(p) {
        match m[p] {
            EntryNode::File(_) => {
                assert(vs[k] == (p, depth));
            },
            EntryNode::Directory(cs) => {
                let cv = entry_children(m[p]);
                let odv = ordered_children(m, cv, order);
                lemma_ordered_children_ok(m, p, order);
                if k == 0 {
                    assert(vs[k] == (p, depth));
                } else {
                    let vc = visit_children(m, p, odv, depth + 1, order, Some(f));
                    assert(vs[k] == vc[k - 1]);
                    lemma_filter_correctness_children(m, p, odv, depth + 1, order, f, k - 1);
                }
            },
        }
    }
}

proof fn lemma_filter_correctness_children(
    m: Map<Seq<char>, EntryNode>,
    p: Seq<char>,
    cs: Seq<Seq<char>>,
    depth: nat,
    order: Order,
    f: Seq<char>,
    k: int,
)
    requires
        tree_shape(m),
        m.contains_key(p),
        forall|i: int| 0 <= i < cs.len() ==> m.contains_key(#[trigger] cs[i]) && cs[i].len()
            > p.len(),
        0 <= k < visit_children(m, p, cs, depth, order, Some(f)).len(),
    ensures
        m.contains_key(visit_children(m, p, cs, depth, order, Some(f))[k].0),
        m[visit_children(m, p, cs, depth, order, Some(f))[k].0] is File ==> ext_of(
            visit_children(m, p, cs, depth, order, Some(f))[k].0,
        ) == Some(f),
    decreases measure(m, p), 0nat, cs.len(),
{
    let front = visit_children(m, p, cs.drop_last(), depth, order, Some(f));
    let back = visit_spec(m, cs.last(), depth, order, Some(f));
    if k < front.len() {
        assert forall|i: int| 0 <= i < cs.drop_last().len()
            implies m.contains_key(#[trigger] cs.drop_last()[i])
                && cs.drop_last()[i].len() > p.len() by {
            assert(cs.drop_last()[i] == cs[i]);
        }
        lemma_filter_correctness_children(m, p, cs.drop_last(), depth, order, f, k);
        assert(visit_children(m, p, cs, depth, order, Some(f))[k] == front[k]);
    } else {
        lemma_measure_decreases(m, p, cs.last());
        lemma_filter_correctness(m, cs.last(), depth, order, f, k - front.len());
        assert(visit_children(m, p, cs, depth, order, Some(f))[k] == back[k - front.len()]);
    }
}

/// Filter correctness, second half: no directory is skipped on the way to a
/// matching descendant. Whenever a traversal emits a directory's line, it
/// also emits, one level deeper, the line of every child of that directory
/// that is itself a directory.
pub proof fn lemma_filter_visits_directories(
    m: Map<Seq<char>, EntryNode>,
    p: Seq<char>,
    depth: nat,
    order: Order,
    filter: Option<Seq<char>>,
    k: int,
    j: int,
)
    requires
        tree_shape(m),
        0 <= k < visit_spec(m, p, depth, order, filter).len(),
        m.contains_key(visit_spec(m, p, depth, order, filter)[k].0),
        m[visit_spec(m, p, depth, order, filter)[k].0] is Directory,
        0 <= j < entry_children(m[visit_spec(m, p, depth, order, filter)[k].0]).len(),
        m[entry_children(m[visit_spec(m, p, depth, order, filter)[k].0])[j]] is Directory,
    ensures
        visit_spec(m, p, depth, order, filter).contains(
            (
                entry_children(m[visit_spec(m, p, depth, order, filter)[k].0])[j],
                visit_spec(m, p, depth, order, filter)[k].1 + 1,
            ),
        ),
    decreases measure(m, p), 1nat, 0nat,
{
    let vs = visit_spec(m, p, depth, order, filter);
    let e = vs[k];
    if m.contains_key(p) {
        match m[p] {
            EntryNode::File(_) => {
                assert(e == (p, depth));
            },
            EntryNode::Directory(cs) => {
                let cv = entry_children(m[p]);
                let odv = ordered_children(m, cv, order);
                lemma_ordered_children_ok(m, p, order);
                let vc = visit_children(m, p, odv, depth + 1, order, filter);
                if k == 0 {
                    let c = entry_children(m[p])[j];
                    if order is Lexicographic {
                        lemma_sort_ord_multiset(cv, lex_lt());
                    } else if order is SizeDescending {
                        lemma_sort_ord_multiset(cv, size_lt(m));
                    }
                    assert(cv.contains(c));
                    assert(odv.contains(c));
                    let x = choose|x: int| 0 <= x < odv.len() && odv[x] == c;
                    lemma_measure_decreases(m, p, c);
                    let sub = visit_spec(m, c, depth + 1, order, filter);
                    assert(sub[0] == (c, depth + 1));
                    lemma_visit_children_contains(m, p, odv, depth + 1, order, filter, x, 0);
                    let w = choose|w: int| 0 <= w < vc.len() && vc[w] == (c, depth + 1);
                    assert(vs[w + 1] == (c, depth + 1));
                    assert(vs.contains((c, e.1 + 1)));
                } else {
                    assert(e == vc[k - 1]);
                    lemma_filter_visits_directories_children(
                        m,
                        p,
                        odv,
                        depth + 1,
                        order,
                        filter,
                        k - 1,
                        j,
                    );
                    let c = entry_children(m[e.0])[j];
                    let w = choose|w: int| 0 <= w < vc.len() && vc[w] == (c, e.1 + 1);
                    assert(vs[w + 1] == (c, e.1 + 1));
                    assert(vs.contains((c, e.1 + 1)));
                }
            },
        }
    }
}

proof fn lemma_filter_visits_directories_children(
    m: Map<Seq<char>, EntryNode>,
    p: Seq<char>,
    cs: Seq<Seq<char>>,
    depth: nat,
    order: Order,
    filter: Option<Seq<char>>,
    k: int,
    j: int,
)
    requires
        tree_shape(m),
        m.contains_key(p),
        forall|i: int| 0 <= i < cs.len() ==> m.contains_key(#[trigger] cs[i]) && cs[i].len()
            > p.len(),
        0 <= k < visit_children(m, p, cs, depth, order, filter).len(),
        m.contains_key(visit_children(m, p, cs, depth, order, filter)[k].0),
        m[visit_children(m, p, cs, depth, order, filter)[k].0] is Directory,
        0 <= j < entry_children(m[visit_children(m, p, cs, depth, order, filter)[k].0]).len(),
        m[entry_children(m[visit_children(m, p, cs, depth, order, filter)[k].0])[j]] is Directory,
    ensures
        visit_children(m, p, cs, depth, order, filter).contains(
            (
                entry_children(m[visit_children(m, p, cs, depth, order, filter)[k].0])[j],
                visit_children(m, p, cs, depth, order, filter)[k].1 + 1,
            ),
        ),
    decreases measure(m, p), 0nat, cs.len(),
{
    let vc = visit_children(m, p, cs, depth, order, filter);
    let e = vc[k];
    let front = visit_children(m, p, cs.drop_last(), depth, order, filter);
    let back = visit_spec(m, cs.last(), depth, order, filter);
    let c = entry_children(m[e.0])[j];
    if k < front.len() {
        assert forall|i: int| 0 <= i < cs.drop_last().len()
            implies m.contains_key(#[trigger] cs.drop_last()[i])
                && cs.drop_last()[i].len() > p.len() by {
            assert(cs.drop_last()[i] == cs[i]);
        }
        assert(vc[k] == front[k]);
        lemma_filter_visits_directories_children(
            m,
            p,
            cs.drop_last(),
            depth,
            order,
            filter,
            k,
            j,
        );
        let w = choose|w: int| 0 <= w < front.len() && front[w] == (c, e.1 + 1);
        assert(vc[w] == (c, e.1 + 1));
        assert(vc.contains((c, e.1 + 1)));
    } else {
        lemma_measure_decreases(m, p, cs.last());
        assert(vc[k] == back[k - front.len()]);
        lemma_filter_visits_directories(m, cs.last(), depth, order, filter, k - front.len(), j);
        let w = choose|w: int| 0 <= w < back.len() && back[w] == (c, e.1 + 1);
        assert(vc[front.len() + w] == (c, e.1 + 1));
        assert(vc.contains((c, e.1 + 1)));
    }
}

/// A child's whole visit appears inside the children's concatenated visit.
proof fn lemma_visit_children_contains(
    m: Map<Seq<char>, EntryNode>,
    p: Seq<char>,
    cs: Seq<Seq<char>>,
    depth: nat,
    order: Order,
    filter: Option<Seq<char>>,
    x: int,
    t: int,
)
    requires
        tree_shape(m),
        m.contains_key(p),
        forall|i: int| 0 <= i < cs.len() ==> m.contains_key(#[trigger] cs[i]) && cs[i].len()
            > p.len(),
        0 <= x < cs.len(),
        0 <= t < visit_spec(m, cs[x], depth, order, filter).len(),
    ensures
        visit_children(m, p, cs, depth, order, filter).contains(
            visit_spec(m, cs[x], depth, order, filter)[t],
        ),
    decreases cs.len(),
{
    let vc = visit_children(m, p, cs, depth, order, filter);
    let front = visit_children(m, p, cs.drop_last(), depth, order, filter);
    let back = visit_spec(m, cs.last(), depth, order, filter);
    if x == cs.len() - 1 {
        assert(vc[front.len() + t] == back[t]);
        assert(vc.contains(visit_spec(m, cs[x], depth, order, filter)[t]));
    } else {
        assert forall|i: int| 0 <= i < cs.drop_last().len()
            implies m.contains_key(#[trigger] cs.drop_last()[i])
                && cs.drop_last()[i].len() > p.len() by {
            assert(cs.drop_last()[i] == cs[i]);
        }
        assert(cs.drop_last()[x] == cs[x]);
        lemma_visit_children_contains(m, p, cs.drop_last(), depth, order, filter, x, t);
        let target = visit_spec(m, cs[x], depth, order, filter)[t];
        let w = choose|w: int| 0 <= w < front.len() && front[w] == target;
        assert(vc[w] == target);
        assert(vc.contains(target));
    }
}

/// The indent of a depth level: six spaces per level.
fn indent_str(depth: usize) -> (r: String)
    ensures
        r@ == spaces(6 * depth as nat),
{
    let mut s = String::new();
    let mut i: usize = 0;
    while i < depth
        invariant
            i <= depth,
            s@ == spaces(6 * i as nat),
        decreases depth - i,
    {
        s.append("      ");
        proof {
            reveal_strlit("      ");
            assert("      "@ =~= spaces(6)) by {
                reveal_with_fuel(spaces, 8);
            }
            lemma_spaces_add(6 * i as nat, 6);
            assert(s@ =~= spaces(6 * (i + 1) as nat));
        }
        i = i + 1;
    }
    s
}

/// The list with `c` inserted at position `j`.
fn splice_at(v: Vec<String>, c: String, j: usize) -> (r: Vec<String>)
    requires
        j <= v@.len(),
    ensures
        r@ == v@.take(j as int) + seq![c] + v@.skip(j as int),
        r.deep_view() == v.deep_view().take(j as int) + seq![c@] + v.deep_view().skip(j as int),
{
    let mut r: Vec<String> = Vec::new();
    let n = v.len();
    for i in 0..j
        invariant
            j <= n,
            n == v@.len(),
            r@ == v@.take(i as int),
    {
        r.push(v[i].clone());
        proof {
            assert(r@ =~= v@.take(i + 1));
        }
    }
    r.push(c);
    for i in j..n
        invariant
            j <= n,
            n == v@.len(),
            r@ == v@.take(j as int) + seq![c] + v@.subrange(j as int, i as int),
    {
        r.push(v[i].clone());
        proof {
            assert(r@ =~= v@.take(j as int) + seq![c] + v@.subrange(j as int, i + 1));
        }
    }
    proof {
        assert(r@ =~= v@.take(j as int) + seq![c] + v@.skip(j as int));
        assert(r.deep_view() =~= v.deep_view().take(j as int) + seq![c@]
            + v.deep_view().skip(j as int));
    }
    r
}

} // verus!
