//! The tree: leaves of text, and internal nodes holding their children
//! together with each child's summary.

use std::sync::Arc;
use vstd::prelude::*;
use vstd::utf8::*;
use vstd::string::StringSliceAdditionalSpecFns;
use crate::{MAX_BYTES, MAX_CHILDREN, MIN_CHILDREN};
use crate::leaf_text::LeafText;
use crate::text_info::{
    TextInfo,
    Metric,
    info_of,
    char_count,
    lemma_info_append,
    lemma_valid_starts_clean,
    lemma_count_concat,
    lemma_all_counts_le_len,
};

verus! {

/// Relies on Arc::make_mut: a mutable reference to the value behind the
/// handle, which is first replaced by a clone when other handles share it.
#[verifier::external_body]
fn make_mut<T: Clone>(a: &mut Arc<T>) -> (r: &mut T)
    ensures
        cloned::<T>(**old(a), *r),
        *final(a) == *final(r),
{
    Arc::make_mut(a)
}

/// Relies on Arc::clone: a second handle to the same value.
#[verifier::external_body]
fn share<T>(a: &Arc<T>) -> (r: Arc<T>)
    ensures
        r == *a,
{
    Arc::clone(a)
}

/// The children of an internal node, each with its summary.
pub struct ChildArray {
    nodes: Vec<Node>,
    info: Vec<TextInfo>,
}

/// A node of the tree, shared by reference-counted handles.
pub enum Node {
    Internal(Arc<ChildArray>),
    Leaf(Arc<LeafText>),
}

impl Clone for Node {
    fn clone(&self) -> (r: Self)
        ensures
            r == *self,
    {
        match self {
            Node::Internal(c) => Node::Internal(share(c)),
            Node::Leaf(t) => Node::Leaf(share(t)),
        }
    }
}

impl Clone for ChildArray {
    fn clone(&self) -> (r: Self)
        ensures
            r.nodes_view() == self.nodes_view(),
            r.info_view() == self.info_view(),
    {
        let mut nodes: Vec<Node> = Vec::new();
        let mut info: Vec<TextInfo> = Vec::new();
        let mut i: usize = 0;
        while i < self.nodes.len()
            invariant
                i <= self.nodes@.len(),
                nodes@ == self.nodes@.subrange(0, i as int),
            decreases self.nodes@.len() - i,
        {
            nodes.push(self.nodes[i].clone());
            i = i + 1;
            assert(nodes@ =~= self.nodes@.subrange(0, i as int));
        }
        let mut k: usize = 0;
        while k < self.info.len()
            invariant
                k <= self.info@.len(),
                info@ == self.info@.subrange(0, k as int),
            decreases self.info@.len() - k,
        {
            info.push(self.info[k]);
            k = k + 1;
            assert(info@ =~= self.info@.subrange(0, k as int));
        }
        assert(nodes@ =~= self.nodes@);
        assert(info@ =~= self.info@);
        ChildArray { nodes, info }
    }
}

/// The text of a run of sibling nodes, one after the other.
pub closed spec fn text_of_nodes(ns: Seq<Node>) -> Seq<u8>
    decreases ns,
{
    if ns.len() == 0 {
        Seq::empty()
    } else {
        text_of_nodes(ns.subrange(0, ns.len() - 1)) + ns[ns.len() - 1].text()
    }
}

impl Node {
    /// The text of the subtree: its leaves' bytes in order.
    pub closed spec fn text(&self) -> Seq<u8>
        decreases self,
    {
        match self {
            Node::Leaf(t) => t.bytes(),
            Node::Internal(c) => text_of_nodes(c.nodes@),
        }
    }

    /// The subtree is well formed with all its leaves `h` levels down: every
    /// cached summary is exact and every node within its capacity.
    pub closed spec fn wf_at(&self, h: nat) -> bool
        decreases self,
    {
        match self {
            Node::Leaf(t) => h == 0 && t.wf(),
            Node::Internal(c) => h > 0 && c.nodes@.len() >= 1 && c.wf_kids((h - 1) as nat),
        }
    }

    /// The number of levels below this node, counted down its first children.
    pub closed spec fn height(&self) -> nat
        decreases self,
    {
        match self {
            Node::Leaf(_) => 0,
            Node::Internal(c) => if c.nodes@.len() > 0 {
                c.nodes@[0].height() + 1
            } else {
                1
            },
        }
    }

    /// The subtree is well formed, all its leaves at the same depth.
    pub open spec fn wf(&self) -> bool {
        self.wf_at(self.height())
    }
}

impl ChildArray {
    /// The children are well formed at height `h` with exact summaries, and
    /// there are at most `MAX_CHILDREN` of them.
    pub closed spec fn wf_kids(&self, h: nat) -> bool
        decreases self,
    {
        &&& self.nodes@.len() <= MAX_CHILDREN
        &&& self.info@.len() == self.nodes@.len()
        &&& kids_ok(self.nodes@, self.info@, h)
    }
}

/// Siblings `ns`, all well formed at height `h`, with exact summaries `is`.
pub open spec fn kids_ok(ns: Seq<Node>, is: Seq<TextInfo>, h: nat) -> bool
    decreases ns,
{
    &&& ns.len() == is.len()
    &&& text_of_nodes(ns).len() <= usize::MAX
    &&& forall|i: int|
        0 <= i < ns.len() ==> (#[trigger] ns[i]).wf_at(h) && is[i] == info_of(ns[i].text())
}

/// Cutting well-formed siblings in two leaves two runs of well-formed siblings.
pub proof fn lemma_kids_ok_split(a: Seq<Node>, b: Seq<Node>, ia: Seq<TextInfo>, ib: Seq<TextInfo>, h: nat)
    requires
        kids_ok(a + b, ia + ib, h),
        a.len() == ia.len(),
    ensures
        kids_ok(a, ia, h),
        kids_ok(b, ib, h),
{
    lemma_text_concat(a, b);
    assert forall|i: int| 0 <= i < a.len() implies (#[trigger] a[i]).wf_at(h) && ia[i] == info_of(
        a[i].text(),
    ) by {
        assert((a + b)[i] == a[i]);
        assert((ia + ib)[i] == ia[i]);
    }
    assert forall|i: int| 0 <= i < b.len() implies (#[trigger] b[i]).wf_at(h) && ib[i] == info_of(
        b[i].text(),
    ) by {
        assert((a + b)[a.len() + i] == b[i]);
        assert((ia + ib)[a.len() + i] == ib[i]);
    }
}

/// Replacing one well-formed sibling by another keeps the run well formed.
pub proof fn lemma_kids_ok_update(ns: Seq<Node>, is: Seq<TextInfo>, h: nat, i: int, x: Node)
    requires
        kids_ok(ns, is, h),
        0 <= i < ns.len(),
        x.wf_at(h),
        text_of_nodes(ns.update(i, x)).len() <= usize::MAX,
    ensures
        kids_ok(ns.update(i, x), is.update(i, info_of(x.text())), h),
{
}

/// Inserting a well-formed sibling keeps the run well formed.
pub proof fn lemma_kids_ok_insert(ns: Seq<Node>, is: Seq<TextInfo>, h: nat, i: int, x: Node)
    requires
        kids_ok(ns, is, h),
        0 <= i <= ns.len(),
        x.wf_at(h),
        text_of_nodes(ns.insert(i, x)).len() <= usize::MAX,
    ensures
        kids_ok(ns.insert(i, x), is.insert(i, info_of(x.text())), h),
{
    assert forall|k: int| 0 <= k < ns.len() + 1 implies (#[trigger] ns.insert(i, x)[k]).wf_at(h)
        && is.insert(i, info_of(x.text()))[k] == info_of(ns.insert(i, x)[k].text()) by {
        if k < i {
        } else if k == i {
        } else {
            assert(ns.insert(i, x)[k] == ns[k - 1]);
        }
    }
}

/// A char boundary inside the middle piece of a valid text is one of the
/// whole text, and the other way round.
pub proof fn lemma_boundary_middle(pre: Seq<u8>, c: Seq<u8>, post: Seq<u8>, j: int)
    requires
        valid_utf8(pre),
        valid_utf8(c),
        valid_utf8(post),
        0 <= j <= c.len(),
    ensures
        valid_utf8(pre + c + post),
        is_char_boundary(pre + c + post, pre.len() + j) == is_char_boundary(c, j),
{
    let s = pre + c + post;
    valid_utf8_concat(pre, c);
    valid_utf8_concat(pre + c, post);
    is_char_boundary_start_end_of_seq(s);
    is_char_boundary_start_end_of_seq(c);
    lemma_valid_starts_clean(c);
    lemma_valid_starts_clean(post);
    let k = pre.len() + j;
    if 0 < j < c.len() {
        is_char_boundary_iff_not_is_continuation_byte(s, k);
        is_char_boundary_iff_not_is_continuation_byte(c, j);
        assert(s[k] == c[j]);
    } else if k < s.len() {
        is_char_boundary_iff_not_is_continuation_byte(s, k);
        if j == 0 && c.len() > 0 {
            assert(s[k] == c[0]);
        } else {
            assert(s[k] == post[k - pre.len() - c.len()]);
        }
    }
}

/// A well-formed node's height is the depth of its leaves.
pub proof fn lemma_height(n: Node, h: nat)
    requires
        n.wf_at(h),
    ensures
        n.height() == h,
    decreases h,
{
    match n {
        Node::Leaf(_) => {},
        Node::Internal(c) => {
            assert(c.nodes@[0].wf_at((h - 1) as nat));
            lemma_height(c.nodes@[0], (h - 1) as nat);
        },
    }
}

/// The text of two runs of siblings is the text of the first, then the second.
pub proof fn lemma_text_concat(a: Seq<Node>, b: Seq<Node>)
    ensures
        text_of_nodes(a + b) == text_of_nodes(a) + text_of_nodes(b),
    decreases b.len(),
{
    if b.len() == 0 {
        assert(a + b =~= a);
        assert(text_of_nodes(a) + text_of_nodes(b) =~= text_of_nodes(a));
    } else {
        let ab = a + b;
        assert(ab.subrange(0, ab.len() - 1) =~= a + b.subrange(0, b.len() - 1));
        lemma_text_concat(a, b.subrange(0, b.len() - 1));
        assert(text_of_nodes(a + b) =~= text_of_nodes(a) + text_of_nodes(b));
    }
}

/// The text of one node alone.
pub proof fn lemma_text_single(n: Node)
    ensures
        text_of_nodes(seq![n]) == n.text(),
{
    assert(seq![n].subrange(0, 0) =~= Seq::<Node>::empty());
    assert(text_of_nodes(Seq::<Node>::empty()) + n.text() =~= n.text());
}

/// The text of the first `i + 1` siblings.
pub proof fn lemma_text_push(ns: Seq<Node>, i: int)
    requires
        0 <= i < ns.len(),
    ensures
        text_of_nodes(ns.subrange(0, i + 1)) == text_of_nodes(ns.subrange(0, i)) + ns[i].text(),
{
    assert(ns.subrange(0, i + 1).subrange(0, i) =~= ns.subrange(0, i));
}

/// The text of siblings split around position `i`.
pub proof fn lemma_text_around(ns: Seq<Node>, i: int)
    requires
        0 <= i < ns.len(),
    ensures
        text_of_nodes(ns) == text_of_nodes(ns.subrange(0, i)) + ns[i].text() + text_of_nodes(
            ns.subrange(i + 1, ns.len() as int),
        ),
{
    let pre = ns.subrange(0, i);
    let post = ns.subrange(i + 1, ns.len() as int);
    assert(ns =~= pre + seq![ns[i]] + post);
    lemma_text_concat(pre + seq![ns[i]], post);
    lemma_text_concat(pre, seq![ns[i]]);
    lemma_text_single(ns[i]);
}

/// All siblings well formed at height `h`.
pub closed spec fn all_wf_at(ns: Seq<Node>, h: nat) -> bool {
    forall|i: int| 0 <= i < ns.len() ==> (#[trigger] ns[i]).wf_at(h)
}

/// A well-formed subtree holds valid UTF-8.
pub proof fn lemma_wf_valid(n: Node, h: nat)
    requires
        n.wf_at(h),
    ensures
        valid_utf8(n.text()),
    decreases h, 0nat,
{
    match n {
        Node::Leaf(t) => {
            t.lemma_wf();
        },
        Node::Internal(c) => {
            assert(all_wf_at(c.nodes@, (h - 1) as nat)) by {
                assert forall|i: int| 0 <= i < c.nodes@.len() implies (#[trigger] c.nodes@[i]).wf_at(
                    (h - 1) as nat,
                ) by {}
            }
            lemma_nodes_valid(c.nodes@, (h - 1) as nat);
        },
    }
}

/// Well-formed siblings hold valid UTF-8.
pub proof fn lemma_nodes_valid(ns: Seq<Node>, h: nat)
    requires
        all_wf_at(ns, h),
    ensures
        valid_utf8(text_of_nodes(ns)),
    decreases h, ns.len(),
{
    if ns.len() > 0 {
        let last = ns[ns.len() - 1];
        lemma_nodes_valid(ns.subrange(0, ns.len() - 1), h);
        lemma_wf_valid(last, h);
        valid_utf8_concat(text_of_nodes(ns.subrange(0, ns.len() - 1)), last.text());
    }
}

impl ChildArray {
    /// The child nodes.
    pub closed spec fn nodes_view(&self) -> Seq<Node> {
        self.nodes@
    }

    /// The cached summaries of the children.
    pub closed spec fn info_view(&self) -> Seq<TextInfo> {
        self.info@
    }

    /// The text of all the children in order.
    pub open spec fn text(&self) -> Seq<u8> {
        text_of_nodes(self.nodes_view())
    }

    /// Each child is valid UTF-8 and its cached summary is exact.
    pub closed spec fn summaries_exact(&self) -> bool {
        &&& self.info@.len() == self.nodes@.len()
        &&& text_of_nodes(self.nodes@).len() <= usize::MAX
        &&& forall|i: int|
            0 <= i < self.nodes@.len() ==> valid_utf8((#[trigger] self.nodes@[i]).text())
                && self.info@[i] == info_of(self.nodes@[i].text())
    }

    /// The number of children.
    pub fn len(&self) -> (r: usize)
        ensures
            r == self.nodes_view().len(),
    {
        self.nodes.len()
    }

    /// The child nodes.
    pub fn nodes(&self) -> (r: &[Node])
        ensures
            r@ == self.nodes_view(),
    {
        self.nodes.as_slice()
    }

    /// The cached summaries of the children.
    pub fn info(&self) -> (r: &[TextInfo])
        ensures
            r@ == self.info_view(),
    {
        self.info.as_slice()
    }

    /// The summary of all the children's text, folded from their summaries.
    #[verifier::spinoff_prover]
    pub fn combined_text_info(&self) -> (r: TextInfo)
        requires
            self.summaries_exact(),
        ensures
            r == info_of(self.text()),
    {
        let r = self.prefix_info(self.nodes.len());
        proof {
            assert(self.nodes@.subrange(0, self.nodes@.len() as int) =~= self.nodes@);
        }
        r
    }

    /// The summary of the text of the first `k` children, folded from their
    /// summaries.
    #[verifier::spinoff_prover]
    pub fn prefix_info(&self, k: usize) -> (r: TextInfo)
        requires
            self.summaries_exact(),
            k <= self.nodes_view().len(),
        ensures
            r == info_of(text_of_nodes(self.nodes_view().subrange(0, k as int))),
            valid_utf8(text_of_nodes(self.nodes_view().subrange(0, k as int))),
    {
        let mut acc = TextInfo::new();
        let mut i: usize = 0;
        let ghost ns = self.nodes@;
        assert(ns.subrange(0, 0) =~= Seq::<Node>::empty());
        while i < k
            invariant
                self.summaries_exact(),
                ns == self.nodes@,
                i <= k <= ns.len(),
                acc == info_of(text_of_nodes(ns.subrange(0, i as int))),
                valid_utf8(text_of_nodes(ns.subrange(0, i as int))),
            decreases k - i,
        {
            proof {
                let pre = text_of_nodes(ns.subrange(0, i as int));
                lemma_text_push(ns, i as int);
                lemma_text_concat(ns.subrange(0, i + 1), ns.subrange(i + 1, ns.len() as int));
                assert(ns.subrange(0, i + 1) + ns.subrange(i + 1, ns.len() as int) =~= ns);
                lemma_info_append(pre, ns[i as int].text());
                valid_utf8_concat(pre, ns[i as int].text());
            }
            acc = acc.append(self.info[i]);
            i = i + 1;
        }
        acc
    }

    /// Finds the child holding byte `byte_idx`: the first whose end lies past
    /// it, or the last child.  Returns its position and the number of bytes
    /// before it.
    #[verifier::spinoff_prover]
    pub fn search_byte_idx_only(&self, byte_idx: usize) -> (r: (usize, usize))
        requires
            self.summaries_exact(),
            self.nodes_view().len() > 0,
        ensures
            r.0 < self.nodes_view().len(),
            r.1 == text_of_nodes(self.nodes_view().subrange(0, r.0 as int)).len(),
            r.1 <= byte_idx,
            byte_idx < r.1 + self.nodes_view()[r.0 as int].text().len() || r.0
                == self.nodes_view().len() - 1,
    {
        let ghost ns = self.nodes@;
        let n = self.nodes.len();
        let mut acc: usize = 0;
        let mut i: usize = 0;
        assert(ns.subrange(0, 0) =~= Seq::<Node>::empty());
        while i + 1 < n
            invariant
                self.summaries_exact(),
                ns == self.nodes@,
                n == ns.len(),
                n > 0,
                i < n,
                acc == text_of_nodes(ns.subrange(0, i as int)).len(),
                acc <= byte_idx,
            decreases n - i,
        {
            proof {
                lemma_text_push(ns, i as int);
                lemma_text_concat(ns.subrange(0, i + 1), ns.subrange(i + 1, ns.len() as int));
                assert(ns.subrange(0, i + 1) + ns.subrange(i + 1, ns.len() as int) =~= ns);
            }
            let next = acc + self.info[i].bytes;
            if byte_idx < next {
                return (i, acc);
            }
            acc = next;
            i = i + 1;
        }
        (i, acc)
    }
}

/// Well-formed children have exact summaries.
pub proof fn lemma_kids_exact(c: &ChildArray, h: nat)
    requires
        c.wf_kids(h),
    ensures
        c.summaries_exact(),
        all_wf_at(c.nodes_view(), h),
        valid_utf8(c.text()),
{
    assert forall|i: int| 0 <= i < c.nodes@.len() implies valid_utf8(
        (#[trigger] c.nodes@[i]).text(),
    ) by {
        lemma_wf_valid(c.nodes@[i], h);
    }
    assert(all_wf_at(c.nodes@, h));
    lemma_nodes_valid(c.nodes@, h);
}

impl ChildArray {
    /// Inserts `item`, a summary and its node, at position `idx`.
    pub fn insert(&mut self, idx: usize, item: (TextInfo, Node))
        requires
            old(self).nodes_view().len() < MAX_CHILDREN,
            old(self).info_view().len() == old(self).nodes_view().len(),
            idx <= old(self).nodes_view().len(),
        ensures
            final(self).nodes_view() == old(self).nodes_view().insert(idx as int, item.1),
            final(self).info_view() == old(self).info_view().insert(idx as int, item.0),
    {
        self.info.insert(idx, item.0);
        self.nodes.insert(idx, item.1);
    }

    /// Inserts `item` at position `idx` into a full array, then moves the
    /// upper half of the children into a new array, which is returned.
    pub fn insert_split(&mut self, idx: usize, item: (TextInfo, Node)) -> (r: ChildArray)
        requires
            old(self).nodes_view().len() == MAX_CHILDREN,
            old(self).info_view().len() == old(self).nodes_view().len(),
            idx <= old(self).nodes_view().len(),
        ensures
            final(self).nodes_view() + r.nodes_view() == old(self).nodes_view().insert(
                idx as int,
                item.1,
            ),
            final(self).info_view() + r.info_view() == old(self).info_view().insert(
                idx as int,
                item.0,
            ),
            final(self).nodes_view().len() == (MAX_CHILDREN + 2) / 2,
            r.nodes_view().len() == (MAX_CHILDREN + 1) / 2,
            MIN_CHILDREN <= r.nodes_view().len() <= final(self).nodes_view().len() <= MAX_CHILDREN,
            final(self).info_view().len() == final(self).nodes_view().len(),
            r.info_view().len() == r.nodes_view().len(),
    {
        self.info.insert(idx, item.0);
        self.nodes.insert(idx, item.1);
        let mid: usize = (MAX_CHILDREN + 2) / 2;
        let ghost all_nodes = self.nodes@;
        let ghost all_info = self.info@;
        let right_nodes = self.nodes.split_off(mid);
        let right_info = self.info.split_off(mid);
        assert(self.nodes@ + right_nodes@ =~= all_nodes);
        assert(self.info@ + right_info@ =~= all_info);
        ChildArray { nodes: right_nodes, info: right_info }
    }

    /// Removes the child at position `idx`, returning it with its summary.
    pub fn remove(&mut self, idx: usize) -> (r: (TextInfo, Node))
        requires
            idx < old(self).nodes_view().len(),
            old(self).info_view().len() == old(self).nodes_view().len(),
        ensures
            final(self).nodes_view() == old(self).nodes_view().remove(idx as int),
            final(self).info_view() == old(self).info_view().remove(idx as int),
            r.1 == old(self).nodes_view()[idx as int],
            r.0 == old(self).info_view()[idx as int],
    {
        let i = self.info.remove(idx);
        let n = self.nodes.remove(idx);
        (i, n)
    }

    /// Removes the children at positions `[range[0], range[1])`.
    pub fn remove_multiple(&mut self, range: [usize; 2])
        requires
            range[0] <= range[1] <= old(self).nodes_view().len(),
            old(self).info_view().len() == old(self).nodes_view().len(),
        ensures
            final(self).nodes_view() == old(self).nodes_view().subrange(0, range[0] as int)
                + old(self).nodes_view().subrange(
                range[1] as int,
                old(self).nodes_view().len() as int,
            ),
            final(self).info_view() == old(self).info_view().subrange(0, range[0] as int)
                + old(self).info_view().subrange(
                range[1] as int,
                old(self).info_view().len() as int,
            ),
    {
        let start = range[0];
        let mut k: usize = range[1] - start;
        let ghost on = self.nodes@;
        let ghost oi = self.info@;
        while k > 0
            invariant
                start + k <= range[1] <= on.len(),
                oi.len() == on.len(),
                self.nodes@ == on.subrange(0, start as int) + on.subrange(
                    range[1] - k,
                    on.len() as int,
                ),
                self.info@ == oi.subrange(0, start as int) + oi.subrange(
                    range[1] - k,
                    oi.len() as int,
                ),
            decreases k,
        {
            self.nodes.remove(start);
            self.info.remove(start);
            k = k - 1;
            assert(self.nodes@ =~= on.subrange(0, start as int) + on.subrange(
                range[1] - k,
                on.len() as int,
            ));
            assert(self.info@ =~= oi.subrange(0, start as int) + oi.subrange(
                range[1] - k,
                oi.len() as int,
            ));
        }
    }
}

impl Node {
    /// The summary of the subtree, folded from its children's summaries.
    pub fn text_info(&self) -> (r: TextInfo)
        requires
            self.wf(),
        ensures
            r == info_of(self.text()),
    {
        match self {
            Node::Internal(children) => {
                proof {
                    lemma_kids_exact(&**children, (self.height() - 1) as nat);
                }
                children.combined_text_info()
            },
            Node::Leaf(text) => text.text_info(),
        }
    }

    /// Whether this is an internal node.
    pub fn is_internal(&self) -> (r: bool)
        ensures
            r == (self is Internal),
    {
        match self {
            Node::Internal(_) => true,
            Node::Leaf(_) => false,
        }
    }

    /// Whether this is a leaf.
    pub fn is_leaf(&self) -> (r: bool)
        ensures
            r == (self is Leaf),
    {
        match self {
            Node::Internal(_) => false,
            Node::Leaf(_) => true,
        }
    }

    /// The children of an internal node.
    pub fn children(&self) -> (r: &ChildArray)
        requires
            self is Internal,
        ensures
            self matches Node::Internal(c) && *r == *c,
    {
        match self {
            Node::Internal(children) => &**children,
            Node::Leaf(_) => unreached(),
        }
    }
}

/// `s` with `t` inserted at byte `i`.
pub open spec fn spliced(s: Seq<u8>, i: int, t: Seq<u8>) -> Seq<u8> {
    s.subrange(0, i) + t + s.subrange(i, s.len() as int)
}

/// Replacing one sibling by a copy of it with `t` inserted at `j` inserts
/// `t` into the joint text.
pub proof fn lemma_splice_one(ns: Seq<Node>, ci: int, nc: Node, j: int, t: Seq<u8>)
    requires
        0 <= ci < ns.len(),
        0 <= j <= ns[ci].text().len(),
        nc.text() == spliced(ns[ci].text(), j, t),
    ensures
        text_of_nodes(ns.update(ci, nc)) == spliced(
            text_of_nodes(ns),
            text_of_nodes(ns.subrange(0, ci)).len() + j,
            t,
        ),
{
    let ns1 = ns.update(ci, nc);
    let pre = text_of_nodes(ns.subrange(0, ci));
    let post = text_of_nodes(ns.subrange(ci + 1, ns.len() as int));
    let c = ns[ci].text();
    lemma_text_around(ns, ci);
    assert(ns1.subrange(0, ci) =~= ns.subrange(0, ci));
    assert(ns1.subrange(ci + 1, ns1.len() as int) =~= ns.subrange(ci + 1, ns.len() as int));
    lemma_text_around(ns1, ci);
    let all = pre + c + post;
    assert(all.subrange(0, pre.len() + j) =~= pre + c.subrange(0, j));
    assert(all.subrange(pre.len() + j, all.len() as int) =~= c.subrange(j, c.len() as int) + post);
    assert(text_of_nodes(ns1) =~= spliced(all, pre.len() + j, t));
}

/// Replacing one sibling by two nodes whose joint text is a copy of it with
/// `t` inserted at `j` inserts `t` into the joint text.
pub proof fn lemma_splice_two(ns: Seq<Node>, ci: int, nc: Node, rn: Node, j: int, t: Seq<u8>)
    requires
        0 <= ci < ns.len(),
        0 <= j <= ns[ci].text().len(),
        nc.text() + rn.text() == spliced(ns[ci].text(), j, t),
    ensures
        text_of_nodes(ns.update(ci, nc).insert(ci + 1, rn)) == spliced(
            text_of_nodes(ns),
            text_of_nodes(ns.subrange(0, ci)).len() + j,
            t,
        ),
{
    let ns1 = ns.update(ci, nc);
    let ns2 = ns1.insert(ci + 1, rn);
    let pre = text_of_nodes(ns.subrange(0, ci));
    let post = text_of_nodes(ns.subrange(ci + 1, ns.len() as int));
    let c = ns[ci].text();
    lemma_text_around(ns, ci);
    assert(ns2.subrange(0, ci) =~= ns.subrange(0, ci));
    assert(ns2.subrange(ci + 2, ns2.len() as int) =~= ns.subrange(ci + 1, ns.len() as int));
    assert(ns2.subrange(ci, ci + 2) =~= seq![nc, rn]);
    assert(ns2 =~= ns2.subrange(0, ci) + seq![nc, rn] + ns2.subrange(ci + 2, ns2.len() as int));
    lemma_text_concat(ns2.subrange(0, ci) + seq![nc, rn], ns2.subrange(ci + 2, ns2.len() as int));
    lemma_text_concat(ns2.subrange(0, ci), seq![nc, rn]);
    lemma_text_concat(seq![nc], seq![rn]);
    assert(seq![nc] + seq![rn] =~= seq![nc, rn]);
    lemma_text_single(nc);
    lemma_text_single(rn);
    let all = pre + c + post;
    assert(all.subrange(0, pre.len() + j) =~= pre + c.subrange(0, j));
    assert(all.subrange(pre.len() + j, all.len() as int) =~= c.subrange(j, c.len() as int) + post);
    assert(text_of_nodes(ns2) =~= spliced(all, pre.len() + j, t));
}

/// A well-formed subtree's text fits the machine's index range.
pub proof fn lemma_wf_len(n: Node, h: nat)
    requires
        n.wf_at(h),
    ensures
        n.text().len() <= usize::MAX,
{
    match n {
        Node::Leaf(t) => {
            t.lemma_wf();
        },
        Node::Internal(c) => {},
    }
}

impl Node {
    /// Inserts `text` at `byte_idx`.  `_node_info` is the summary of this
    /// node as its parent holds it.
    ///
    /// Returns the new summary of this node, and, where the node had to be
    /// split, the new right sibling with its summary.  Fails, changing
    /// nothing, exactly when `byte_idx` is not a char boundary.
    #[verifier::spinoff_prover]
    pub fn insert_at_byte_idx(&mut self, byte_idx: usize, text: &str, _node_info: TextInfo) -> (r:
        Result<(TextInfo, Option<(TextInfo, Node)>), ()>)
        requires
            old(self).wf(),
            byte_idx <= old(self).text().len(),
            text.spec_bytes().len() + 4 <= MAX_BYTES,
            old(self).text().len() + text.spec_bytes().len() <= usize::MAX,
        ensures
            r is Err <==> !is_char_boundary(old(self).text(), byte_idx as int),
            r is Err ==> *final(self) == *old(self),
            r matches Ok((li, None)) ==> {
                &&& final(self).wf_at(old(self).height())
                &&& final(self).text() == spliced(old(self).text(), byte_idx as int, text.spec_bytes())
                &&& li == info_of(final(self).text())
            },
            r matches Ok((li, Some((ri, right)))) ==> {
                &&& final(self).wf_at(old(self).height())
                &&& right.wf_at(old(self).height())
                &&& final(self).text() + right.text() == spliced(
                    old(self).text(),
                    byte_idx as int,
                    text.spec_bytes(),
                )
                &&& li == info_of(final(self).text())
                &&& ri == info_of(right.text())
            },
        decreases old(self).height(), 1nat,
    {
        let ghost h = self.height();
        let ghost t = text.spec_bytes();
        let ghost old_text = self.text();
        match self {
            Node::Leaf(leaf) => {
                if !leaf.is_char_boundary(byte_idx) {
                    return Err(());
                }
                let leaf_text = make_mut(leaf);
                if text.len() <= leaf_text.free_capacity() {
                    let _ = leaf_text.insert_str(byte_idx, text);
                    Ok((leaf_text.text_info(), None))
                } else {
                    let right = match leaf_text.insert_str_split(byte_idx, text) {
                        Ok(right) => right,
                        Err(_) => {
                            return Err(());
                        },
                    };
                    let l_info = leaf_text.text_info();
                    let r_info = right.text_info();
                    Ok((l_info, Some((r_info, Node::Leaf(Arc::new(right))))))
                }
            },
            Node::Internal(children) => {
                proof {
                    lemma_kids_exact(&**children, (h - 1) as nat);
                }
                if !Node::children_char_boundary(children, byte_idx, Ghost((h - 1) as nat)) {
                    return Err(());
                }
                let c = make_mut(children);
                let (l_info, residual) = Node::insert_into_children(
                    c,
                    byte_idx,
                    text,
                    Ghost((h - 1) as nat),
                );
                match residual {
                    None => Ok((l_info, None)),
                    Some((r_info, r)) => Ok((l_info, Some((r_info, Node::Internal(Arc::new(r)))))),
                }
            },
        }
    }

    /// Inserts `text` at `byte_idx` into `children`, all of height `h`,
    /// splitting the array when it overflows.
    #[verifier::spinoff_prover]
    #[verifier::rlimit(50)]
    fn insert_into_children(
        children: &mut ChildArray,
        byte_idx: usize,
        text: &str,
        Ghost(h): Ghost<nat>,
    ) -> (r: (TextInfo, Option<(TextInfo, ChildArray)>))
        requires
            old(children).wf_kids(h),
            old(children).nodes_view().len() >= 1,
            byte_idx <= old(children).text().len(),
            is_char_boundary(old(children).text(), byte_idx as int),
            text.spec_bytes().len() + 4 <= MAX_BYTES,
            old(children).text().len() + text.spec_bytes().len() <= usize::MAX,
        ensures
            final(children).wf_kids(h),
            final(children).nodes_view().len() >= 1,
            r.0 == info_of(final(children).text()),
            r.1 is None ==> final(children).text() == spliced(
                old(children).text(),
                byte_idx as int,
                text.spec_bytes(),
            ),
            r.1 matches Some((ri, rc)) ==> {
                &&& rc.wf_kids(h)
                &&& rc.nodes_view().len() >= 1
                &&& ri == info_of(rc.text())
                &&& final(children).text() + rc.text() == spliced(
                    old(children).text(),
                    byte_idx as int,
                    text.spec_bytes(),
                )
            },
        decreases h + 1, 0nat,
    {
        let ghost t = text.spec_bytes();
        let ghost ns = children.nodes@;
        let ghost ois = children.info@;
        proof {
            lemma_kids_exact(children, h);
        }
        let (child_i, acc) = children.search_byte_idx_only(byte_idx);
        let ghost ci = child_i as int;
        let ghost child = ns[ci];
        let ghost pre = text_of_nodes(ns.subrange(0, ci));
        let ghost post = text_of_nodes(ns.subrange(ci + 1, ns.len() as int));
        proof {
            lemma_text_around(ns, ci);
            if ci == ns.len() - 1 {
                assert(ns.subrange(ci + 1, ns.len() as int) =~= Seq::<Node>::empty());
            }
            assert(child.wf_at(h));
            lemma_height(child, h);
            lemma_wf_valid(child, h);
            lemma_nodes_valid(ns.subrange(0, ci), h);
            lemma_nodes_valid(ns.subrange(ci + 1, ns.len() as int), h);
            lemma_boundary_middle(pre, child.text(), post, byte_idx - acc);
        }
        let info = children.info[child_i];
        let (l_info, residual) = match children.nodes[child_i].insert_at_byte_idx(
            byte_idx - acc,
            text,
            info,
        ) {
            Ok(x) => x,
            Err(_) => {
                return unreached();
            },
        };
        children.info[child_i] = l_info;
        let ghost j = byte_idx - acc;
        match residual {
            Some((r_info, r_node)) => {
                proof {
                    let nc = children.nodes@[ci];
                    let ns1 = ns.update(ci, nc);
                    lemma_splice_two(ns, ci, nc, r_node, j, t);
                    assert(text_of_nodes(ns1).len() <= text_of_nodes(ns1.insert(ci + 1, r_node)).len()) by {
                        lemma_text_around(ns1, ci);
                        lemma_text_around(ns1.insert(ci + 1, r_node), ci + 1);
                        assert(ns1.insert(ci + 1, r_node).subrange(0, ci + 1) =~= ns1.subrange(0, ci + 1));
                        lemma_text_push(ns1, ci);
                        assert(ns1.insert(ci + 1, r_node).subrange(ci + 2, ns1.len() + 1int) =~= ns1.subrange(ci + 1, ns1.len() as int));
                    }
                    lemma_kids_ok_update(ns, ois, h, ci, nc);
                    lemma_kids_ok_insert(ns1, ois.update(ci, l_info), h, ci + 1, r_node);
                }
                if children.len() < MAX_CHILDREN {
                    children.insert(child_i + 1, (r_info, r_node));
                    proof {
                        lemma_kids_exact(children, h);
                    }
                    (children.combined_text_info(), None)
                } else {
                    let r = children.insert_split(child_i + 1, (r_info, r_node));
                    proof {
                        lemma_kids_ok_split(children.nodes@, r.nodes@, children.info@, r.info@, h);
                        lemma_text_concat(children.nodes@, r.nodes@);
                        lemma_kids_exact(children, h);
                        lemma_kids_exact(&r, h);
                    }
                    let r_info = r.combined_text_info();
                    (children.combined_text_info(), Some((r_info, r)))
                }
            },
            None => {
                proof {
                    let nc = children.nodes@[ci];
                    lemma_splice_one(ns, ci, nc, j, t);
                    lemma_kids_ok_update(ns, ois, h, ci, nc);
                    lemma_kids_exact(children, h);
                }
                (children.combined_text_info(), None)
            },
        }
    }
}

impl Node {
    /// Whether `byte_idx` is a char boundary of the children's joint text.
    #[verifier::spinoff_prover]
    fn children_char_boundary(c: &ChildArray, byte_idx: usize, Ghost(h): Ghost<nat>) -> (r: bool)
        requires
            c.wf_kids(h),
            c.nodes_view().len() > 0,
            byte_idx <= c.text().len(),
        ensures
            r == is_char_boundary(c.text(), byte_idx as int),
        decreases h + 1, 0nat,
    {
        let ghost ns = c.nodes@;
        proof {
            lemma_kids_exact(c, h);
        }
        let (ci, acc) = c.search_byte_idx_only(byte_idx);
        let ghost child = ns[ci as int];
        proof {
            lemma_text_around(ns, ci as int);
            if ci == ns.len() - 1 {
                assert(ns.subrange(ci + 1, ns.len() as int) =~= Seq::<Node>::empty());
            }
            assert(child.wf_at(h));
            lemma_wf_valid(child, h);
            lemma_nodes_valid(ns.subrange(0, ci as int), h);
            lemma_nodes_valid(ns.subrange(ci + 1, ns.len() as int), h);
            lemma_boundary_middle(
                text_of_nodes(ns.subrange(0, ci as int)),
                child.text(),
                text_of_nodes(ns.subrange(ci + 1, ns.len() as int)),
                byte_idx - acc,
            );
        }
        c.nodes[ci].char_boundary_at(byte_idx - acc, Ghost(h))
    }

    /// Whether `byte_idx` is a char boundary of the subtree's text.
    fn char_boundary_at(&self, byte_idx: usize, Ghost(h): Ghost<nat>) -> (r: bool)
        requires
            self.wf_at(h),
            byte_idx <= self.text().len(),
        ensures
            r == is_char_boundary(self.text(), byte_idx as int),
        decreases h, 1nat,
    {
        match self {
            Node::Leaf(leaf) => leaf.is_char_boundary(byte_idx),
            Node::Internal(children) => Node::children_char_boundary(children, byte_idx, Ghost((h - 1) as nat)),
        }
    }

    /// Whether `byte_idx` is a char boundary of the subtree's text.
    pub fn is_char_boundary(&self, byte_idx: usize) -> (r: bool)
        requires
            self.wf(),
        ensures
            r == is_char_boundary(self.text(), byte_idx as int),
    {
        let n = self.text_info().bytes;
        proof {
            lemma_wf_len(*self, self.height());
        }
        if byte_idx > n {
            proof {
                lemma_wf_valid(*self, self.height());
                lemma_boundary_out_of_range(self.text(), byte_idx as int);
            }
            return false;
        }
        self.char_boundary_at(byte_idx, Ghost(self.height()))
    }
}

/// No index past the end is a char boundary.
pub proof fn lemma_boundary_out_of_range(s: Seq<u8>, i: int)
    requires
        valid_utf8(s),
        i > s.len(),
    ensures
        !is_char_boundary(s, i),
{
}

/// Siblings split at `k`: their text is the text before `k`, then the rest.
pub proof fn lemma_text_split_at(ns: Seq<Node>, k: int)
    requires
        0 <= k <= ns.len(),
    ensures
        text_of_nodes(ns) == text_of_nodes(ns.subrange(0, k)) + text_of_nodes(
            ns.subrange(k, ns.len() as int),
        ),
{
    assert(ns =~= ns.subrange(0, k) + ns.subrange(k, ns.len() as int));
    lemma_text_concat(ns.subrange(0, k), ns.subrange(k, ns.len() as int));
}

/// The text before sibling `a` is a prefix of the text before sibling `b`.
pub proof fn lemma_prefix_len_mono(ns: Seq<Node>, a: int, b: int)
    requires
        0 <= a <= b <= ns.len(),
    ensures
        text_of_nodes(ns.subrange(0, a)).len() <= text_of_nodes(ns.subrange(0, b)).len(),
        a < b ==> text_of_nodes(ns.subrange(0, a)).len() + ns[a].text().len() <= text_of_nodes(
            ns.subrange(0, b),
        ).len(),
{
    lemma_text_split_at(ns.subrange(0, b), a);
    assert(ns.subrange(0, b).subrange(0, a) =~= ns.subrange(0, a));
    if a < b {
        let rest = ns.subrange(0, b).subrange(a, b);
        assert(rest.len() > 0);
        lemma_text_split_at(rest, 1);
        assert(rest.subrange(0, 1) =~= seq![ns[a]]);
        lemma_text_single(ns[a]);
    }
}

/// Removing the text between two points that lie in different siblings:
/// what is left of the first sibling, then of the last, between the
/// untouched siblings on either side.
pub proof fn lemma_remove_text(
    ns: Seq<Node>,
    sci: int,
    eci: int,
    sb: int,
    eb: int,
    opt_s: Seq<Node>,
    opt_e: Seq<Node>,
)
    requires
        0 <= sci < eci < ns.len(),
        0 <= sb <= ns[sci].text().len(),
        0 <= eb <= ns[eci].text().len(),
        text_of_nodes(opt_s) == ns[sci].text().subrange(0, sb),
        text_of_nodes(opt_e) == ns[eci].text().subrange(eb, ns[eci].text().len() as int),
    ensures
        ({
            let tt = text_of_nodes(ns);
            let lo = text_of_nodes(ns.subrange(0, sci)).len() + sb;
            let hi = text_of_nodes(ns.subrange(0, eci)).len() + eb;
            text_of_nodes(ns.subrange(0, sci) + opt_s + opt_e + ns.subrange(eci + 1, ns.len() as int))
                == tt.subrange(0, lo) + tt.subrange(hi, tt.len() as int)
        }),
{
    let tt = text_of_nodes(ns);
    let pre = text_of_nodes(ns.subrange(0, sci));
    let s = ns[sci].text();
    let e = ns[eci].text();
    let mid = text_of_nodes(ns.subrange(sci + 1, eci));
    let post = text_of_nodes(ns.subrange(eci + 1, ns.len() as int));
    lemma_text_around(ns, sci);
    let after = ns.subrange(sci + 1, ns.len() as int);
    lemma_text_around(after, eci - sci - 1);
    assert(after.subrange(0, eci - sci - 1) =~= ns.subrange(sci + 1, eci));
    assert(after.subrange(eci - sci, after.len() as int) =~= ns.subrange(eci + 1, ns.len() as int));
    assert(tt =~= pre + s + mid + e + post);
    lemma_text_around(ns, eci);
    lemma_text_split_at(ns.subrange(0, eci), sci);
    assert(ns.subrange(0, eci).subrange(0, sci) =~= ns.subrange(0, sci));
    let r = ns.subrange(0, eci).subrange(sci, eci);
    lemma_text_split_at(r, 1);
    assert(r.subrange(0, 1) =~= seq![ns[sci]]);
    assert(r.subrange(1, r.len() as int) =~= ns.subrange(sci + 1, eci));
    lemma_text_single(ns[sci]);
    assert(text_of_nodes(ns.subrange(0, eci)) =~= pre + s + mid);
    let lo = pre.len() + sb;
    let hi = pre.len() + s.len() + mid.len() + eb;
    lemma_text_concat(ns.subrange(0, sci) + opt_s + opt_e, ns.subrange(eci + 1, ns.len() as int));
    lemma_text_concat(ns.subrange(0, sci) + opt_s, opt_e);
    lemma_text_concat(ns.subrange(0, sci), opt_s);
    assert(tt.subrange(0, lo) =~= pre + s.subrange(0, sb));
    assert(tt.subrange(hi, tt.len() as int) =~= e.subrange(eb, e.len() as int) + post);
}

/// The joint text after the first and last of the touched siblings were
/// trimmed and the siblings between them, with any end sibling emptied,
/// were dropped.
pub proof fn lemma_across_text(ns: Seq<Node>, ns2: Seq<Node>, si: int, ei: int, sb: int, eb: int, rs: int, re: int)
    requires
        0 <= si < ei < ns.len(),
        0 <= sb <= ns[si].text().len(),
        0 <= eb <= ns[ei].text().len(),
        ns2 == ns.update(si, ns2[si]).update(ei, ns2[ei]),
        sb == 0 ==> ns2[si] == ns[si],
        sb != 0 ==> ns2[si].text() == ns[si].text().subrange(0, sb),
        eb == ns[ei].text().len() ==> ns2[ei] == ns[ei],
        eb != ns[ei].text().len() ==> ns2[ei].text() == ns[ei].text().subrange(eb, ns[ei].text().len() as int),
        rs == if sb == 0 { si } else { si + 1 },
        re == if eb == ns[ei].text().len() { ei + 1 } else { ei },
    ensures
        ({
            let tt = text_of_nodes(ns);
            let lo = text_of_nodes(ns.subrange(0, si)).len() + sb;
            let hi = text_of_nodes(ns.subrange(0, ei)).len() + eb;
            text_of_nodes(ns2.subrange(0, rs) + ns2.subrange(re, ns2.len() as int))
                == tt.subrange(0, lo) + tt.subrange(hi, tt.len() as int)
        }),
{
    let s = ns[si].text();
    let e = ns[ei].text();
    let opt_s = if sb == 0 { Seq::<Node>::empty() } else { seq![ns2[si]] };
    let opt_e = if eb == e.len() { Seq::<Node>::empty() } else { seq![ns2[ei]] };
    if sb != 0 {
        lemma_text_single(ns2[si]);
    } else {
        assert(s.subrange(0, 0) =~= Seq::<u8>::empty());
        assert(text_of_nodes(Seq::<Node>::empty()) =~= Seq::<u8>::empty());
    }
    if eb != e.len() {
        lemma_text_single(ns2[ei]);
    } else {
        assert(e.subrange(e.len() as int, e.len() as int) =~= Seq::<u8>::empty());
        assert(text_of_nodes(Seq::<Node>::empty()) =~= Seq::<u8>::empty());
    }
    lemma_remove_text(ns, si, ei, sb, eb, opt_s, opt_e);
    assert(ns2.subrange(0, rs) + ns2.subrange(re, ns2.len() as int) =~= ns.subrange(0, si) + opt_s
        + opt_e + ns.subrange(ei + 1, ns.len() as int));
}

/// Removing whole siblings does not lengthen the joint text.
pub proof fn lemma_cut_shorter(ns: Seq<Node>, a: int, b: int)
    requires
        0 <= a <= b <= ns.len(),
    ensures
        text_of_nodes(ns.subrange(0, a) + ns.subrange(b, ns.len() as int)).len() <= text_of_nodes(
            ns,
        ).len(),
{
    lemma_text_concat(ns.subrange(0, a), ns.subrange(b, ns.len() as int));
    lemma_text_split_at(ns, a);
    let rest = ns.subrange(a, ns.len() as int);
    lemma_text_split_at(rest, b - a);
    assert(rest.subrange(b - a, rest.len() as int) =~= ns.subrange(b, ns.len() as int));
}

/// Removing whole siblings keeps the rest well formed.
pub proof fn lemma_kids_ok_cut(ns: Seq<Node>, is: Seq<TextInfo>, h: nat, a: int, b: int)
    requires
        kids_ok(ns, is, h),
        0 <= a <= b <= ns.len(),
        text_of_nodes(ns.subrange(0, a) + ns.subrange(b, ns.len() as int)).len() <= usize::MAX,
    ensures
        kids_ok(
            ns.subrange(0, a) + ns.subrange(b, ns.len() as int),
            is.subrange(0, a) + is.subrange(b, is.len() as int),
            h,
        ),
{
    let m = ns.subrange(0, a) + ns.subrange(b, ns.len() as int);
    let mi = is.subrange(0, a) + is.subrange(b, is.len() as int);
    assert forall|i: int| 0 <= i < m.len() implies (#[trigger] m[i]).wf_at(h) && mi[i] == info_of(
        m[i].text(),
    ) by {
        if i < a {
            assert(m[i] == ns[i]);
            assert(mi[i] == is[i]);
        } else {
            assert(m[i] == ns[i - a + b]);
            assert(mi[i] == is[i - a + b]);
        }
    }
}

/// Replacing a sibling by a node with no more text does not lengthen the
/// joint text.
pub proof fn lemma_update_shorter(ns: Seq<Node>, i: int, x: Node)
    requires
        0 <= i < ns.len(),
        x.text().len() <= ns[i].text().len(),
    ensures
        text_of_nodes(ns.update(i, x)).len() <= text_of_nodes(ns).len(),
{
    let ns1 = ns.update(i, x);
    lemma_text_around(ns, i);
    lemma_text_around(ns1, i);
    assert(ns1.subrange(0, i) =~= ns.subrange(0, i));
    assert(ns1.subrange(i + 1, ns1.len() as int) =~= ns.subrange(i + 1, ns.len() as int));
}

/// Removing text inside one sibling.
pub proof fn lemma_remove_within(ns: Seq<Node>, ci: int, sb: int, eb: int, opt: Seq<Node>)
    requires
        0 <= ci < ns.len(),
        0 <= sb <= eb <= ns[ci].text().len(),
        text_of_nodes(opt) == ns[ci].text().subrange(0, sb) + ns[ci].text().subrange(
            eb,
            ns[ci].text().len() as int,
        ),
    ensures
        ({
            let tt = text_of_nodes(ns);
            let p = text_of_nodes(ns.subrange(0, ci)).len();
            text_of_nodes(ns.subrange(0, ci) + opt + ns.subrange(ci + 1, ns.len() as int))
                == tt.subrange(0, p + sb) + tt.subrange(p + eb, tt.len() as int)
        }),
{
    let tt = text_of_nodes(ns);
    let pre = text_of_nodes(ns.subrange(0, ci));
    let c = ns[ci].text();
    let post = text_of_nodes(ns.subrange(ci + 1, ns.len() as int));
    lemma_text_around(ns, ci);
    lemma_text_concat(ns.subrange(0, ci) + opt, ns.subrange(ci + 1, ns.len() as int));
    lemma_text_concat(ns.subrange(0, ci), opt);
    assert(tt.subrange(0, pre.len() + sb) =~= pre + c.subrange(0, sb));
    assert(tt.subrange(pre.len() + eb, tt.len() as int) =~= c.subrange(eb, c.len() as int) + post);
}

impl Node {
    /// Removes the bytes in `[byte_idx_range[0], byte_idx_range[1])`.
    /// `_node_info` is the summary of this node as its parent holds it.
    ///
    /// Returns the new summary of this node.  Fails, changing nothing,
    /// exactly when either end is not a char boundary.  Children that lose
    /// all their text are dropped; an internal node may end with none.
    #[verifier::spinoff_prover]
    pub fn remove_byte_range(&mut self, byte_idx_range: [usize; 2], _node_info: TextInfo) -> (r:
        Result<TextInfo, ()>)
        requires
            old(self).wf(),
            byte_idx_range[0] <= byte_idx_range[1] <= old(self).text().len(),
        ensures
            r is Err <==> !(is_char_boundary(old(self).text(), byte_idx_range[0] as int)
                && is_char_boundary(old(self).text(), byte_idx_range[1] as int)),
            r is Err ==> *final(self) == *old(self),
            r matches Ok(info) ==> {
                &&& final(self).text() == old(self).text().subrange(0, byte_idx_range[0] as int)
                    + old(self).text().subrange(
                    byte_idx_range[1] as int,
                    old(self).text().len() as int,
                )
                &&& info == info_of(final(self).text())
                &&& final(self).wf_loose_at(old(self).height())
                &&& final(self).text().len() > 0 ==> final(self).wf_at(old(self).height())
            },
        decreases old(self).height(), 4nat,
    {
        let ghost h = self.height();
        let lo = byte_idx_range[0];
        let hi = byte_idx_range[1];
        match self {
            Node::Leaf(leaf) => {
                if !leaf.is_char_boundary(lo) || !leaf.is_char_boundary(hi) {
                    return Err(());
                }
                let leaf_text = make_mut(leaf);
                let _ = leaf_text.remove([lo, hi]);
                Ok(leaf_text.text_info())
            },
            Node::Internal(children) => {
                proof {
                    lemma_kids_exact(&**children, (h - 1) as nat);
                }
                if !Node::children_char_boundary(children, lo, Ghost((h - 1) as nat))
                    || !Node::children_char_boundary(children, hi, Ghost((h - 1) as nat)) {
                    return Err(());
                }
                let c = make_mut(children);
                Ok(Node::remove_from_children(c, lo, hi, Ghost((h - 1) as nat)))
            },
        }
    }
}

impl Node {
    /// Well formed, except that an internal node may have no children.
    pub closed spec fn wf_loose_at(&self, h: nat) -> bool {
        match self {
            Node::Leaf(t) => h == 0 && t.wf(),
            Node::Internal(c) => h > 0 && c.wf_kids((h - 1) as nat),
        }
    }

    /// Removes the bytes in `[lo, hi)` from `children`, all of height `h`.
    #[verifier::spinoff_prover]
    fn remove_from_children(children: &mut ChildArray, lo: usize, hi: usize, Ghost(h): Ghost<nat>) -> (r: TextInfo)
        requires
            old(children).wf_kids(h),
            old(children).nodes_view().len() >= 1,
            lo <= hi <= old(children).text().len(),
            is_char_boundary(old(children).text(), lo as int),
            is_char_boundary(old(children).text(), hi as int),
        ensures
            final(children).wf_kids(h),
            final(children).text() == old(children).text().subrange(0, lo as int)
                + old(children).text().subrange(hi as int, old(children).text().len() as int),
            r == info_of(final(children).text()),
        decreases h + 1, 3nat,
    {
        let ghost ns = children.nodes@;
        proof {
            lemma_kids_exact(children, h);
        }
        let (start_i, start_acc) = children.search_byte_idx_only(lo);
        let (end_i, end_acc) = children.search_byte_idx_only(hi);
        let ghost si = start_i as int;
        let ghost ei = end_i as int;
        proof {
            if si > ei {
                lemma_prefix_len_mono(ns, ei, si);
            }
            lemma_text_around(ns, si);
            lemma_text_around(ns, ei);
            if si == ns.len() - 1 {
                assert(ns.subrange(si + 1, ns.len() as int) =~= Seq::<Node>::empty());
            }
            if ei == ns.len() - 1 {
                assert(ns.subrange(ei + 1, ns.len() as int) =~= Seq::<Node>::empty());
            }
            assert(ns[si].wf_at(h));
            assert(ns[ei].wf_at(h));
            lemma_wf_valid(ns[si], h);
            lemma_wf_valid(ns[ei], h);
            lemma_nodes_valid(ns.subrange(0, si), h);
            lemma_nodes_valid(ns.subrange(si + 1, ns.len() as int), h);
            lemma_nodes_valid(ns.subrange(0, ei), h);
            lemma_nodes_valid(ns.subrange(ei + 1, ns.len() as int), h);
            lemma_boundary_middle(
                text_of_nodes(ns.subrange(0, si)),
                ns[si].text(),
                text_of_nodes(ns.subrange(si + 1, ns.len() as int)),
                lo - start_acc,
            );
            lemma_boundary_middle(
                text_of_nodes(ns.subrange(0, ei)),
                ns[ei].text(),
                text_of_nodes(ns.subrange(ei + 1, ns.len() as int)),
                hi - end_acc,
            );
        }
        if start_i == end_i {
            Node::remove_in_one(children, start_i, lo - start_acc, hi - end_acc, Ghost(h))
        } else {
            Node::remove_across(children, start_i, end_i, lo - start_acc, hi - end_acc, Ghost(h))
        }
    }

    /// Removes the bytes in `[sb, eb)` of the child at `ci`: the whole child
    /// when that is all of it.
    #[verifier::spinoff_prover]
    fn remove_in_one(children: &mut ChildArray, ci: usize, sb: usize, eb: usize, Ghost(h): Ghost<nat>) -> (r: TextInfo)
        requires
            old(children).wf_kids(h),
            ci < old(children).nodes_view().len(),
            sb <= eb <= old(children).nodes_view()[ci as int].text().len(),
            is_char_boundary(old(children).nodes_view()[ci as int].text(), sb as int),
            is_char_boundary(old(children).nodes_view()[ci as int].text(), eb as int),
        ensures
            final(children).wf_kids(h),
            ({
                let tt = old(children).text();
                let p = text_of_nodes(old(children).nodes_view().subrange(0, ci as int)).len();
                final(children).text() == tt.subrange(0, p + sb) + tt.subrange(p + eb, tt.len() as int)
            }),
            r == info_of(final(children).text()),
        decreases h + 1, 1nat,
    {
        let ghost ns = children.nodes@;
        let ghost ois = children.info@;
        let ghost si = ci as int;
        proof {
            lemma_kids_exact(children, h);
            assert(ns[si].wf_at(h));
            lemma_height(ns[si], h);
            lemma_wf_len(ns[si], h);
        }
        let info = children.info[ci];
        if sb == 0 && eb == info.bytes {
            children.remove(ci);
            proof {
                let c = ns[si].text();
                assert(c.subrange(0, 0) + c.subrange(c.len() as int, c.len() as int) =~= Seq::<u8>::empty());
                assert(text_of_nodes(Seq::<Node>::empty()) =~= Seq::<u8>::empty());
                lemma_remove_within(ns, si, 0, eb as int, Seq::empty());
                assert(ns.subrange(0, si) + Seq::<Node>::empty() =~= ns.subrange(0, si));
                assert(children.nodes@ =~= ns.subrange(0, si) + ns.subrange(si + 1, ns.len() as int));
                assert(children.info@ =~= ois.subrange(0, si) + ois.subrange(si + 1, ois.len() as int));
                lemma_cut_shorter(ns, si, si + 1);
                lemma_kids_ok_cut(ns, ois, h, si, si + 1);
                lemma_kids_exact(children, h);
            }
        } else {
            Node::trim_child(children, ci, sb, eb, Ghost(h));
            proof {
                let nc = children.nodes@[si];
                lemma_text_single(nc);
                lemma_remove_within(ns, si, sb as int, eb as int, seq![nc]);
                assert(children.nodes@ =~= ns.subrange(0, si) + seq![nc] + ns.subrange(si + 1, ns.len() as int));
                lemma_kids_exact(children, h);
            }
        }
        children.combined_text_info()
    }

    /// Removes the bytes from `sb` in the child at `si` up to `eb` in the
    /// child at `ei`, dropping the children in between and any end child
    /// that loses all its text.
    #[verifier::spinoff_prover]
    #[verifier::rlimit(100)]
    fn remove_across(children: &mut ChildArray, si: usize, ei: usize, sb: usize, eb: usize, Ghost(h): Ghost<nat>) -> (r: TextInfo)
        requires
            old(children).wf_kids(h),
            si < ei < old(children).nodes_view().len(),
            sb <= old(children).nodes_view()[si as int].text().len(),
            eb <= old(children).nodes_view()[ei as int].text().len(),
            is_char_boundary(old(children).nodes_view()[si as int].text(), sb as int),
            is_char_boundary(old(children).nodes_view()[ei as int].text(), eb as int),
        ensures
            final(children).wf_kids(h),
            ({
                let tt = old(children).text();
                let ps = text_of_nodes(old(children).nodes_view().subrange(0, si as int)).len();
                let pe = text_of_nodes(old(children).nodes_view().subrange(0, ei as int)).len();
                final(children).text() == tt.subrange(0, ps + sb) + tt.subrange(pe + eb, tt.len() as int)
            }),
            r == info_of(final(children).text()),
        decreases h + 1, 2nat,
    {
        let ghost ns = children.nodes@;
        proof {
            lemma_kids_exact(children, h);
            assert(ns[ei as int].wf_at(h));
            lemma_wf_len(ns[ei as int], h);
        }
        let whole_start = sb == 0;
        let whole_end = eb == children.info[ei].bytes;
        Node::trim_ends(children, si, ei, sb, eb, Ghost(h));
        let ghost ns2 = children.nodes@;
        let removal_start = if whole_start { si } else { si + 1 };
        let removal_end = if whole_end { ei + 1 } else { ei };
        proof {
            lemma_across_text(ns, ns2, si as int, ei as int, sb as int, eb as int, removal_start as int, removal_end as int);
        }
        Node::drop_children(children, removal_start, removal_end, Ghost(h));
        proof {
            lemma_kids_exact(children, h);
        }
        children.combined_text_info()
    }
    /// Drops the children at positions `[a, b)`.
    fn drop_children(children: &mut ChildArray, a: usize, b: usize, Ghost(h): Ghost<nat>)
        requires
            old(children).wf_kids(h),
            a <= b <= old(children).nodes_view().len(),
        ensures
            final(children).wf_kids(h),
            final(children).nodes_view() == old(children).nodes_view().subrange(0, a as int)
                + old(children).nodes_view().subrange(b as int, old(children).nodes_view().len() as int),
    {
        let ghost ns = children.nodes@;
        let ghost is = children.info@;
        if a < b {
            children.remove_multiple([a, b]);
        }
        proof {
            assert(children.nodes@ =~= ns.subrange(0, a as int) + ns.subrange(b as int, ns.len() as int));
            assert(children.info@ =~= is.subrange(0, a as int) + is.subrange(b as int, is.len() as int));
            lemma_cut_shorter(ns, a as int, b as int);
            lemma_kids_ok_cut(ns, is, h, a as int, b as int);
        }
    }

    /// Trims the text before `sb` off the child at `si` and the text from
    /// `eb` on off the child at `ei`, leaving alone a child that would lose
    /// all its text.
    #[verifier::spinoff_prover]
    fn trim_ends(children: &mut ChildArray, si: usize, ei: usize, sb: usize, eb: usize, Ghost(h): Ghost<nat>)
        requires
            old(children).wf_kids(h),
            si < ei < old(children).nodes_view().len(),
            sb <= old(children).nodes_view()[si as int].text().len(),
            eb <= old(children).nodes_view()[ei as int].text().len(),
            is_char_boundary(old(children).nodes_view()[si as int].text(), sb as int),
            is_char_boundary(old(children).nodes_view()[ei as int].text(), eb as int),
        ensures
            final(children).wf_kids(h),
            ({
                let ns = old(children).nodes_view();
                let ns2 = final(children).nodes_view();
                &&& ns2 == ns.update(si as int, ns2[si as int]).update(ei as int, ns2[ei as int])
                &&& sb == 0 ==> ns2[si as int] == ns[si as int]
                &&& sb != 0 ==> ns2[si as int].text() == ns[si as int].text().subrange(0, sb as int)
                &&& eb == ns[ei as int].text().len() ==> ns2[ei as int] == ns[ei as int]
                &&& eb != ns[ei as int].text().len() ==> ns2[ei as int].text() == ns[ei as int].text().subrange(eb as int, ns[ei as int].text().len() as int)
            }),
        decreases h + 1, 1nat,
    {
        let ghost ns = children.nodes@;
        proof {
            lemma_kids_exact(children, h);
            assert(ns[si as int].wf_at(h));
            assert(ns[ei as int].wf_at(h));
            lemma_wf_len(ns[si as int], h);
            lemma_wf_len(ns[ei as int], h);
            lemma_wf_valid(ns[si as int], h);
            lemma_wf_valid(ns[ei as int], h);
            is_char_boundary_start_end_of_seq(ns[si as int].text());
            is_char_boundary_start_end_of_seq(ns[ei as int].text());
        }
        let start_bytes = children.info[si].bytes;
        let end_bytes = children.info[ei].bytes;
        if sb != 0 {
            Node::trim_child(children, si, sb, start_bytes, Ghost(h));
        }
        let ghost ns1 = children.nodes@;
        if eb != end_bytes {
            Node::trim_child(children, ei, 0, eb, Ghost(h));
        }
        proof {
            let ns2 = children.nodes@;
            assert(ns2 =~= ns.update(si as int, ns2[si as int]).update(ei as int, ns2[ei as int]));
        }
    }

    /// Removes the bytes in `[a, b)` of the child at `i`, which keeps some text.
    #[verifier::spinoff_prover]
    fn trim_child(children: &mut ChildArray, i: usize, a: usize, b: usize, Ghost(h): Ghost<nat>)
        requires
            old(children).wf_kids(h),
            i < old(children).nodes_view().len(),
            a <= b <= old(children).nodes_view()[i as int].text().len(),
            is_char_boundary(old(children).nodes_view()[i as int].text(), a as int),
            is_char_boundary(old(children).nodes_view()[i as int].text(), b as int),
            !(a == 0 && b == old(children).nodes_view()[i as int].text().len()),
        ensures
            final(children).wf_kids(h),
            final(children).nodes_view() == old(children).nodes_view().update(
                i as int,
                final(children).nodes_view()[i as int],
            ),
            final(children).nodes_view()[i as int].text() == old(children).nodes_view()[i as int].text().subrange(0, a as int)
                + old(children).nodes_view()[i as int].text().subrange(
                b as int,
                old(children).nodes_view()[i as int].text().len() as int,
            ),
        decreases h + 1, 0nat,
    {
        let ghost ns = children.nodes@;
        let ghost ois = children.info@;
        proof {
            lemma_kids_exact(children, h);
            assert(ns[i as int].wf_at(h));
            lemma_height(ns[i as int], h);
        }
        let info = children.info[i];
        let new_info = match children.nodes[i].remove_byte_range([a, b], info) {
            Ok(x) => x,
            Err(_) => {
                return unreached();
            },
        };
        children.info[i] = new_info;
        proof {
            let nc = children.nodes@[i as int];
            assert(children.nodes@ == ns.update(i as int, nc));
            lemma_update_shorter(ns, i as int, nc);
            lemma_kids_ok_update(ns, ois, h, i as int, nc);
        }
    }
}


impl Node {
    /// Every internal node of the subtree has at least one child.
    pub closed spec fn no_empty_internal(&self) -> bool
        decreases self,
    {
        match self {
            Node::Leaf(_) => true,
            Node::Internal(c) => c.nodes@.len() > 0 && forall|i: int|
                0 <= i < c.nodes@.len() ==> (#[trigger] c.nodes@[i]).no_empty_internal(),
        }
    }

    /// Every leaf of the subtree holds some text.
    pub closed spec fn no_empty_leaf(&self) -> bool
        decreases self,
    {
        match self {
            Node::Leaf(t) => t.bytes().len() > 0,
            Node::Internal(c) => forall|i: int|
                0 <= i < c.nodes@.len() ==> (#[trigger] c.nodes@[i]).no_empty_leaf(),
        }
    }

    /// The number of children of an internal node.
    pub fn child_count(&self) -> (r: usize)
        requires
            self is Internal,
        ensures
            self matches Node::Internal(c) && r == c.nodes_view().len(),
            r == self.child_count_spec(),
    {
        self.children().len()
    }

    /// The children of an internal node, ready to be edited: they are first
    /// copied when other handles share them.
    pub fn children_mut(&mut self) -> (r: &mut ChildArray)
        requires
            *old(self) is Internal,
        ensures
            *old(self) matches Node::Internal(c) && r.nodes_view() == c.nodes_view()
                && r.info_view() == c.info_view(),
            *final(self) == Node::Internal(Arc::new(*final(r))),
    {
        match self {
            Node::Internal(children) => make_mut(children),
            Node::Leaf(_) => unreached(),
        }
    }

    /// The two halves of a leaf's text.
    pub fn leaf_text(&self) -> (r: [&str; 2])
        requires
            self is Leaf,
            self.wf(),
        ensures
            r[0].spec_bytes() + r[1].spec_bytes() == self.text(),
    {
        match self {
            Node::Leaf(text) => {
                let r = text.chunks();
                proof {
                    text.lemma_wf();
                    assert(r[0].spec_bytes() + r[1].spec_bytes() =~= self.text());
                }
                r
            },
            Node::Internal(_) => unreached(),
        }
    }

    /// A leaf's text, ready to be edited: it is first copied when other
    /// handles share it.
    pub fn leaf_text_mut(&mut self) -> (r: &mut LeafText)
        requires
            *old(self) is Leaf,
        ensures
            *old(self) matches Node::Leaf(t) && *r == *t,
            *final(self) == Node::Leaf(Arc::new(*final(r))),
    {
        match self {
            Node::Leaf(text) => make_mut(text),
            Node::Internal(_) => unreached(),
        }
    }

    /// Checks that all leaves lie at the same depth, and returns that depth
    /// counted from 1 at the leaves.
    pub fn assert_equal_leaf_depth(&self) -> (r: usize)
        requires
            self.wf(),
            self.height() < usize::MAX,
        ensures
            r == self.height() + 1,
        decreases self.height(),
    {
        proof {
            lemma_wf_len(*self, self.height());
        }
        match self {
            Node::Leaf(_) => 1,
            Node::Internal(children) => {
                let ghost h = self.height();
                let nodes = children.nodes();
                proof {
                    assert(nodes@[0].wf_at((h - 1) as nat));
                    lemma_height(nodes@[0], (h - 1) as nat);
                }
                let first_depth = nodes[0].assert_equal_leaf_depth();
                let mut i: usize = 1;
                while i < nodes.len()
                    invariant
                        nodes@ == children.nodes_view(),
                        children.wf_kids((h - 1) as nat),
                        first_depth == h,
                        h == self.height(),
                        h > 0,
                        h < usize::MAX,
                        1 <= i <= nodes@.len(),
                    decreases nodes@.len() - i,
                {
                    proof {
                        assert(nodes@[i as int].wf_at((h - 1) as nat));
                        lemma_height(nodes@[i as int], (h - 1) as nat);
                    }
                    let d = nodes[i].assert_equal_leaf_depth();
                    proof {
                        assert(d == first_depth);
                    }
                    i = i + 1;
                }
                first_depth + 1
            },
        }
    }

    /// Whether every internal node of the subtree has at least one child.
    pub fn assert_no_empty_internal(&self) -> (r: bool)
        requires
            self.wf(),
        ensures
            r == self.no_empty_internal(),
        decreases self.height(),
    {
        let ghost h = self.height();
        match self {
            Node::Leaf(_) => true,
            Node::Internal(children) => {
                let nodes = children.nodes();
                if nodes.len() == 0 {
                    return false;
                }
                let mut i: usize = 0;
                while i < nodes.len()
                    invariant
                        nodes@ == children.nodes_view(),
                        children.wf_kids((h - 1) as nat),
                        h == self.height(),
                        h > 0,
                        *self == Node::Internal(*children),
                        forall|k: int| 0 <= k < i ==> (#[trigger] nodes@[k]).no_empty_internal(),
                    decreases nodes@.len() - i,
                {
                    proof {
                        assert(nodes@[i as int].wf_at((h - 1) as nat));
                        lemma_height(nodes@[i as int], (h - 1) as nat);
                    }
                    if !nodes[i].assert_no_empty_internal() {
                        return false;
                    }
                    i = i + 1;
                }
                true
            },
        }
    }

    /// Whether every leaf of the subtree holds some text.
    pub fn assert_no_empty_leaf(&self) -> (r: bool)
        requires
            self.wf(),
        ensures
            r == self.no_empty_leaf(),
        decreases self.height(),
    {
        let ghost h = self.height();
        match self {
            Node::Leaf(text) => !text.text_is_empty(),
            Node::Internal(children) => {
                let nodes = children.nodes();
                let mut i: usize = 0;
                while i < nodes.len()
                    invariant
                        nodes@ == children.nodes_view(),
                        children.wf_kids((h - 1) as nat),
                        h == self.height(),
                        h > 0,
                        *self == Node::Internal(*children),
                        forall|k: int| 0 <= k < i ==> (#[trigger] nodes@[k]).no_empty_leaf(),
                    decreases nodes@.len() - i,
                {
                    proof {
                        assert(nodes@[i as int].wf_at((h - 1) as nat));
                        lemma_height(nodes@[i as int], (h - 1) as nat);
                    }
                    if !nodes[i].assert_no_empty_leaf() {
                        return false;
                    }
                    i = i + 1;
                }
                true
            },
        }
    }

    /// Recomputes the summary of the subtree from its leaves' text, and
    /// returns it; every cached summary on the way agrees with it.
    #[verifier::spinoff_prover]
    pub fn assert_accurate_text_info(&self) -> (r: TextInfo)
        requires
            self.wf(),
        ensures
            r == info_of(self.text()),
        decreases self.height(),
    {
        let ghost h = self.height();
        proof {
            lemma_wf_valid(*self, h);
            lemma_wf_len(*self, h);
        }
        match self {
            Node::Leaf(text) => {
                let chunks = text.chunks();
                let info_l = TextInfo::from_str(chunks[0]);
                let info_r = TextInfo::from_str(chunks[1]);
                proof {
                    text.lemma_wf();
                    let b = text.bytes();
                    let k = text.split_idx();
                    valid_utf8_split(b, k);
                    assert(b.subrange(0, k) + b.subrange(k, b.len() as int) =~= b);
                    lemma_info_append(b.subrange(0, k), b.subrange(k, b.len() as int));
                }
                info_l.append(info_r)
            },
            Node::Internal(children) => {
                let nodes = children.nodes();
                let ghost ns = nodes@;
                proof {
                    lemma_kids_exact(&**children, (h - 1) as nat);
                    assert(ns.subrange(0, 0) =~= Seq::<Node>::empty());
                }
                let mut acc = TextInfo::new();
                let mut i: usize = 0;
                while i < nodes.len()
                    invariant
                        ns == nodes@,
                        ns == children.nodes_view(),
                        children.wf_kids((h - 1) as nat),
                        children.summaries_exact(),
                        h == self.height(),
                        h > 0,
                        i <= ns.len(),
                        acc == info_of(text_of_nodes(ns.subrange(0, i as int))),
                        valid_utf8(text_of_nodes(ns.subrange(0, i as int))),
                    decreases ns.len() - i,
                {
                    proof {
                        assert(ns[i as int].wf_at((h - 1) as nat));
                        lemma_height(ns[i as int], (h - 1) as nat);
                        let pre = text_of_nodes(ns.subrange(0, i as int));
                        lemma_text_push(ns, i as int);
                        lemma_text_concat(ns.subrange(0, i + 1), ns.subrange(i + 1, ns.len() as int));
                        assert(ns.subrange(0, i + 1) + ns.subrange(i + 1, ns.len() as int) =~= ns);
                        lemma_info_append(pre, ns[i as int].text());
                        valid_utf8_concat(pre, ns[i as int].text());
                    }
                    let info = nodes[i].assert_accurate_text_info();
                    acc = acc.append(info);
                    i = i + 1;
                }
                proof {
                    assert(ns.subrange(0, i as int) =~= ns);
                }
                acc
            },
        }
    }
}

impl Node {
    /// A leaf holding no text.
    pub fn new() -> (r: Node)
        ensures
            r.wf(),
            r.text().len() == 0,
    {
        Node::Leaf(Arc::new(LeafText::new()))
    }

    /// A new internal node over `self` and its right sibling `right`, each
    /// given with its summary.
    pub fn grow(self, left_info: TextInfo, right: Node, right_info: TextInfo) -> (r: Node)
        requires
            self.wf(),
            right.wf_at(self.height()),
            left_info == info_of(self.text()),
            right_info == info_of(right.text()),
            self.text().len() + right.text().len() <= usize::MAX,
        ensures
            r.wf_at(self.height() + 1),
            r.height() == self.height() + 1,
            r.text() == self.text() + right.text(),
    {
        let ghost l = self;
        let ghost rr = right;
        let mut nodes: Vec<Node> = Vec::new();
        nodes.push(self);
        nodes.push(right);
        let mut info: Vec<TextInfo> = Vec::new();
        info.push(left_info);
        info.push(right_info);
        let c = ChildArray { nodes, info };
        proof {
            assert(c.nodes@ =~= seq![l, rr]);
            lemma_text_concat(seq![l], seq![rr]);
            assert(seq![l] + seq![rr] =~= seq![l, rr]);
            lemma_text_single(l);
            lemma_text_single(rr);
            lemma_height(l, l.height());
        }
        Node::Internal(Arc::new(c))
    }

    /// The only child of an internal node with one child.
    pub fn only_child(&self) -> (r: Node)
        requires
            self.wf(),
            self is Internal,
            self.child_count_spec() == 1,
        ensures
            r.wf_at((self.height() - 1) as nat),
            r.height() == self.height() - 1,
            r.text() == self.text(),
    {
        match self {
            Node::Internal(children) => {
                let r = children.nodes[0].clone();
                proof {
                    let ns = children.nodes@;
                    assert(ns =~= seq![ns[0]]);
                    lemma_text_single(ns[0]);
                    assert(ns[0].wf_at((self.height() - 1) as nat));
                    lemma_height(ns[0], (self.height() - 1) as nat);
                }
                r
            },
            Node::Leaf(_) => unreached(),
        }
    }

    /// The number of children of an internal node; 0 for a leaf.
    pub closed spec fn child_count_spec(&self) -> nat {
        match self {
            Node::Internal(c) => c.nodes@.len(),
            Node::Leaf(_) => 0,
        }
    }

    /// An internal node left without children has no text, and one with
    /// children is well formed.
    pub proof fn lemma_loose(&self, h: nat)
        requires
            self.wf_loose_at(h),
        ensures
            self.child_count_spec() == 0 && self is Internal ==> self.text().len() == 0,
            !(self.child_count_spec() == 0 && self is Internal) ==> self.wf_at(h),
    {
        match self {
            Node::Internal(c) => {
                if c.nodes@.len() == 0 {
                    assert(text_of_nodes(c.nodes@) =~= Seq::<u8>::empty());
                }
            },
            Node::Leaf(_) => {},
        }
    }

    /// The height of a well-formed node.
    pub proof fn lemma_wf_height(&self, h: nat)
        requires
            self.wf_at(h),
        ensures
            self.height() == h,
            self.wf(),
            valid_utf8(self.text()),
            self.text().len() <= usize::MAX,
    {
        lemma_height(*self, h);
        lemma_wf_valid(*self, h);
        lemma_wf_len(*self, h);
    }

    /// Appends the subtree's text to `out`.
    #[verifier::spinoff_prover]
    pub fn push_text(&self, out: &mut String)
        requires
            self.wf(),
        ensures
            encode_utf8(final(out)@) == encode_utf8(old(out)@) + self.text(),
        decreases self.height(),
    {
        let ghost h = self.height();
        match self {
            Node::Leaf(text) => {
                let chunks = text.chunks();
                let ghost before = encode_utf8(out@);
                out.append(chunks[0]);
                out.append(chunks[1]);
                proof {
                    text.lemma_wf();
                    crate::leaf_text::lemma_encode_concat(old(out)@, chunks[0]@);
                    crate::leaf_text::lemma_encode_concat(old(out)@ + chunks[0]@, chunks[1]@);
                    let b = text.bytes();
                    assert(b.subrange(0, text.split_idx()) + b.subrange(text.split_idx(), b.len() as int) =~= b);
                    assert(encode_utf8(out@) =~= before + b);
                }
            },
            Node::Internal(children) => {
                let nodes = children.nodes();
                let ghost ns = nodes@;
                let ghost start = encode_utf8(out@);
                let mut i: usize = 0;
                proof {
                    assert(ns.subrange(0, 0) =~= Seq::<Node>::empty());
                    assert(start + text_of_nodes(Seq::<Node>::empty()) =~= start);
                }
                while i < nodes.len()
                    invariant
                        ns == nodes@,
                        ns == children.nodes_view(),
                        children.wf_kids((h - 1) as nat),
                        h == self.height(),
                        h > 0,
                        i <= ns.len(),
                        encode_utf8(out@) == start + text_of_nodes(ns.subrange(0, i as int)),
                    decreases ns.len() - i,
                {
                    proof {
                        assert(ns[i as int].wf_at((h - 1) as nat));
                        lemma_height(ns[i as int], (h - 1) as nat);
                        lemma_text_push(ns, i as int);
                    }
                    nodes[i].push_text(out);
                    i = i + 1;
                }
                proof {
                    assert(ns.subrange(0, i as int) =~= ns);
                }
            },
        }
    }
}

impl Node {
    /// Every cached summary is exact: the summary an internal node holds for
    /// each child is the summary of that child's text, and each child is
    /// itself well formed.
    pub proof fn law_summaries_exact(&self)
        requires
            self.wf(),
        ensures
            self matches Node::Internal(c) ==> forall|i: int|
                0 <= i < c.nodes_view().len() ==> (#[trigger] c.nodes_view()[i]).wf()
                    && c.info_view()[i] == info_of(c.nodes_view()[i].text()),
    {
        match self {
            Node::Internal(c) => {
                assert forall|i: int| 0 <= i < c.nodes_view().len() implies (#[trigger] c.nodes_view()[i]).wf()
                    && c.info_view()[i] == info_of(c.nodes_view()[i].text()) by {
                    assert(c.nodes@[i].wf_at((self.height() - 1) as nat));
                    lemma_height(c.nodes@[i], (self.height() - 1) as nat);
                }
            },
            Node::Leaf(_) => {},
        }
    }

    /// All leaves lie at the same depth: every child of an internal node is
    /// one level lower than the node.
    pub proof fn law_equal_leaf_depth(&self)
        requires
            self.wf(),
        ensures
            self is Leaf <==> self.height() == 0,
            self matches Node::Internal(c) ==> forall|i: int|
                0 <= i < c.nodes_view().len() ==> (#[trigger] c.nodes_view()[i]).wf()
                    && c.nodes_view()[i].height() + 1 == self.height(),
    {
        match self {
            Node::Internal(c) => {
                assert forall|i: int| 0 <= i < c.nodes_view().len() implies (#[trigger] c.nodes_view()[i]).wf()
                    && c.nodes_view()[i].height() + 1 == self.height() by {
                    assert(c.nodes@[i].wf_at((self.height() - 1) as nat));
                    lemma_height(c.nodes@[i], (self.height() - 1) as nat);
                }
            },
            Node::Leaf(_) => {},
        }
    }

    /// Capacity bounds: a leaf holds at most `MAX_BYTES` bytes, and an
    /// internal node between 1 and `MAX_CHILDREN` children.
    pub proof fn lemma_capacity(&self)
        requires
            self.wf(),
        ensures
            self is Leaf ==> self.text().len() <= MAX_BYTES,
            self is Internal ==> 1 <= self.child_count_spec() <= MAX_CHILDREN,
    {
        match self {
            Node::Leaf(t) => {
                t.lemma_wf();
            },
            Node::Internal(_) => {},
        }
    }
}

impl Node {
    /// Finds the leaf holding byte `byte_idx`: returns the summary of the
    /// text before that leaf, the leaf, and where `byte_idx` falls in it.
    /// At the end of the text this is the last leaf.
    #[verifier::spinoff_prover]
    #[verifier::rlimit(60)]
    pub fn get_text_at_byte(&self, byte_idx: usize, _node_info: TextInfo) -> (r: (TextInfo, &LeafText, usize))
        requires
            self.wf(),
            byte_idx <= self.text().len(),
        ensures
            ({
                let (prefix, leaf, offset) = r;
                let start = prefix.bytes as int;
                &&& prefix == info_of(self.text().subrange(0, start))
                &&& valid_utf8(self.text().subrange(0, start))
                &&& leaf.wf()
                &&& start + offset == byte_idx
                &&& offset <= leaf.bytes().len()
                &&& start + leaf.bytes().len() <= self.text().len()
                &&& self.text().subrange(start, start + leaf.bytes().len()) == leaf.bytes()
                &&& (offset < leaf.bytes().len() || byte_idx == self.text().len())
            }),
        decreases self.height(),
    {
        let ghost h = self.height();
        proof {
            lemma_wf_len(*self, h);
        }
        match self {
            Node::Leaf(leaf) => {
                proof {
                    assert(self.text().subrange(0, 0) =~= Seq::<u8>::empty());
                    assert(self.text().subrange(0, self.text().len() as int) =~= self.text());
                }
                (TextInfo::new(), &**leaf, byte_idx)
            },
            Node::Internal(children) => {
                let ghost ns = children.nodes@;
                proof {
                    lemma_kids_exact(&**children, (h - 1) as nat);
                }
                let (ci, acc) = children.search_byte_idx_only(byte_idx);
                let ghost child = ns[ci as int];
                let ghost pre = text_of_nodes(ns.subrange(0, ci as int));
                let ghost post = text_of_nodes(ns.subrange(ci + 1, ns.len() as int));
                proof {
                    lemma_text_around(ns, ci as int);
                    if ci == ns.len() - 1 {
                        assert(ns.subrange(ci + 1, ns.len() as int) =~= Seq::<Node>::empty());
                    }
                    assert(child.wf_at((h - 1) as nat));
                    lemma_height(child, (h - 1) as nat);
                    lemma_wf_len(child, (h - 1) as nat);
                }
                let before = children.prefix_info(ci);
                let (inner, leaf, offset) = children.nodes[ci].get_text_at_byte(byte_idx - acc, children.info[ci]);
                let ghost s2 = inner.bytes as int;
                proof {
                    let t = self.text();
                    let cs = child.text().subrange(0, s2);
                    assert(t == pre + child.text() + post);
                    assert(t.subrange(0, acc + s2) =~= pre + cs);
                    assert(t.subrange(acc + s2, acc + s2 + leaf.bytes().len()) =~= child.text().subrange(s2, s2 + leaf.bytes().len()));
                    lemma_info_append(pre, cs);
                    valid_utf8_concat(pre, cs);
                }
                (before.append(inner), leaf, offset)
            },
        }
    }
}

/// The char count of the children before `k` plus that of child `k` is the
/// char count of the children up to and including `k`.
pub proof fn lemma_chars_push(ns: Seq<Node>, k: int, h: nat)
    requires
        0 <= k < ns.len(),
        all_wf_at(ns, h),
    ensures
        char_count(text_of_nodes(ns.subrange(0, k + 1))) == char_count(text_of_nodes(ns.subrange(0, k)))
            + char_count(ns[k].text()),
{
    lemma_text_push(ns, k);
    lemma_wf_valid(ns[k], h);
    lemma_valid_starts_clean(ns[k].text());
    lemma_count_concat(text_of_nodes(ns.subrange(0, k)), ns[k].text(), Metric::Chars);
}

impl ChildArray {
    /// Finds the child holding char `char_idx`: the first whose end in chars
    /// lies past it, or the last child.  Returns its position and the number
    /// of chars before it.
    #[verifier::spinoff_prover]
    pub fn search_char_idx(&self, char_idx: usize, Ghost(h): Ghost<nat>) -> (r: (usize, usize))
        requires
            self.wf_kids(h),
            self.nodes_view().len() > 0,
        ensures
            r.0 < self.nodes_view().len(),
            r.1 == char_count(text_of_nodes(self.nodes_view().subrange(0, r.0 as int))),
            r.1 <= char_idx,
            char_idx < r.1 + char_count(self.nodes_view()[r.0 as int].text()) || r.0
                == self.nodes_view().len() - 1,
    {
        let ghost ns = self.nodes@;
        let n = self.nodes.len();
        let mut acc: usize = 0;
        let mut i: usize = 0;
        proof {
            lemma_kids_exact(self, h);
            assert(ns.subrange(0, 0) =~= Seq::<Node>::empty());
            assert(char_count(Seq::<u8>::empty()) == 0);
        }
        while i + 1 < n
            invariant
                self.wf_kids(h),
                self.summaries_exact(),
                all_wf_at(ns, h),
                ns == self.nodes@,
                n == ns.len(),
                n > 0,
                i < n,
                acc == char_count(text_of_nodes(ns.subrange(0, i as int))),
                acc <= char_idx,
            decreases n - i,
        {
            proof {
                lemma_chars_push(ns, i as int, h);
                lemma_text_concat(ns.subrange(0, i + 1), ns.subrange(i + 1, ns.len() as int));
                assert(ns.subrange(0, i + 1) + ns.subrange(i + 1, ns.len() as int) =~= ns);
                lemma_all_counts_le_len(text_of_nodes(ns.subrange(0, i + 1)));
            }
            let next = acc + self.info[i].chars;
            if char_idx < next {
                return (i, acc);
            }
            acc = next;
            i = i + 1;
        }
        (i, acc)
    }
}

impl Node {
    /// Finds the leaf holding char `char_idx`: returns the summary of the
    /// text before that leaf, the leaf, and the index of the char within it.
    /// At the end of the text this is the last leaf.
    #[verifier::spinoff_prover]
    #[verifier::rlimit(100)]
    pub fn get_text_at_char(&self, char_idx: usize, _node_info: TextInfo) -> (r: (TextInfo, &LeafText, usize))
        requires
            self.wf(),
            char_idx <= char_count(self.text()),
        ensures
            ({
                let (prefix, leaf, offset) = r;
                let start = prefix.bytes as int;
                &&& prefix == info_of(self.text().subrange(0, start))
                &&& valid_utf8(self.text().subrange(0, start))
                &&& leaf.wf()
                &&& prefix.chars + offset == char_idx
                &&& offset <= char_count(leaf.bytes())
                &&& start + leaf.bytes().len() <= self.text().len()
                &&& self.text().subrange(start, start + leaf.bytes().len()) == leaf.bytes()
                &&& (offset < char_count(leaf.bytes()) || start + leaf.bytes().len()
                    == self.text().len())
            }),
        decreases self.height(),
    {
        let ghost h = self.height();
        proof {
            lemma_wf_len(*self, h);
        }
        match self {
            Node::Leaf(leaf) => {
                proof {
                    assert(self.text().subrange(0, 0) =~= Seq::<u8>::empty());
                    assert(self.text().subrange(0, self.text().len() as int) =~= self.text());
                    assert(char_count(Seq::<u8>::empty()) == 0);
                    leaf.lemma_wf();
                }
                (TextInfo::new(), &**leaf, char_idx)
            },
            Node::Internal(children) => {
                let ghost ns = children.nodes@;
                proof {
                    lemma_kids_exact(&**children, (h - 1) as nat);
                }
                let (ci, acc) = children.search_char_idx(char_idx, Ghost((h - 1) as nat));
                let ghost child = ns[ci as int];
                let ghost pre = text_of_nodes(ns.subrange(0, ci as int));
                let ghost post = text_of_nodes(ns.subrange(ci + 1, ns.len() as int));
                proof {
                    lemma_text_around(ns, ci as int);
                    if ci == ns.len() - 1 {
                        assert(ns.subrange(ci + 1, ns.len() as int) =~= Seq::<Node>::empty());
                    }
                    assert(child.wf_at((h - 1) as nat));
                    lemma_height(child, (h - 1) as nat);
                    lemma_wf_len(child, (h - 1) as nat);
                    lemma_wf_valid(child, (h - 1) as nat);
                    lemma_nodes_valid(ns.subrange(0, ci as int), (h - 1) as nat);
                    lemma_valid_starts_clean(child.text());
                    lemma_count_concat(pre, child.text(), Metric::Chars);
                    if ci == ns.len() - 1 {
                        assert(self.text() =~= pre + child.text());
                    }
                }
                let before = children.prefix_info(ci);
                let (inner, leaf, offset) = children.nodes[ci].get_text_at_char(char_idx - acc, children.info[ci]);
                let ghost s2 = inner.bytes as int;
                proof {
                    let t = self.text();
                    let cs = child.text().subrange(0, s2);
                    assert(t == pre + child.text() + post);
                    assert(t.subrange(0, pre.len() + s2) =~= pre + cs);
                    assert(t.subrange(pre.len() + s2, pre.len() + s2 + leaf.bytes().len()) =~= child.text().subrange(s2, s2 + leaf.bytes().len()));
                    lemma_info_append(pre, cs);
                    valid_utf8_concat(pre, cs);
                    lemma_all_counts_le_len(pre);
                    if offset >= char_count(leaf.bytes()) && ci != ns.len() - 1 {
                        leaf.lemma_wf();
                        lemma_valid_starts_clean(leaf.bytes());
                        assert(child.text() =~= cs + leaf.bytes());
                        lemma_count_concat(cs, leaf.bytes(), Metric::Chars);
                        lemma_all_counts_le_len(cs);
                    }
                }
                (before.append(inner), leaf, offset)
            },
        }
    }
}

} // verus!
