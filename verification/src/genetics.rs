//! The genetic engine's genomes and the logic around them: code trees whose
//! nodes are numbered in pre-order, the crossover that grafts a subtree of one
//! parent at a random node of the other, the Rust source of a tree, launch
//! configurations of services, and the numbering of a model's functions and
//! components.
use vstd::prelude::*;
use crate::text::{concat3, join_strings, join_with, str_eq, texts_of};
use crate::json::{JsonValue, JsonView, vget, vstr, jview_items, jview_entries, lemma_jview_items, lemma_jview_entries};
use crate::model::{ArcadiaElement, ProjectModel, collection_of};
use crate::text::owned;
use crate::traceability::collect_targets;
use crate::vocabulary::str_items;

verus! {

/// A simplified syntax tree node.
pub enum AstNode {
    /// A container block (a module, an `impl`).
    Block { name: String, children: Vec<AstNode> },
    /// A function: its signature and body.
    Function { signature: String, body: String },
}

/// The content of a syntax tree.
#[verifier::ext_equal]
pub enum AstV {
    Block { name: Seq<char>, children: Seq<AstV> },
    Function { signature: Seq<char>, body: Seq<char> },
}

/// The content of a node.
pub open spec fn ast_view(n: AstNode) -> AstV
    decreases n, 0int,
{
    match n {
        AstNode::Block { name, children } => AstV::Block { name: name@, children: children_view(children@) },
        AstNode::Function { signature, body } => AstV::Function { signature: signature@, body: body@ },
    }
}

/// The contents of a sequence of nodes.
pub open spec fn children_view(s: Seq<AstNode>) -> Seq<AstV>
    decreases s, 0int,
{
    if s.len() == 0 {
        Seq::empty()
    } else {
        seq![ast_view(s[0])] + children_view(s.subrange(1, s.len() as int))
    }
}

impl View for AstNode {
    type V = AstV;

    open spec fn view(&self) -> AstV {
        ast_view(*self)
    }
}

/// `children_view` maps each node.
pub proof fn lemma_children_view(s: Seq<AstNode>)
    ensures
        children_view(s).len() == s.len(),
        forall|i: int| 0 <= i < s.len() ==> #[trigger] children_view(s)[i] == ast_view(s[i]),
    decreases s.len(),
{
    if s.len() > 0 {
        let t = s.subrange(1, s.len() as int);
        lemma_children_view(t);
        assert forall|i: int| 0 <= i < s.len() implies #[trigger] children_view(s)[i] == ast_view(s[i]) by {
            if i > 0 {
                assert(s[i] == t[i - 1]);
            }
        }
    }
}

/// Updating one node updates its content.
pub broadcast proof fn lemma_children_view_update(s: Seq<AstNode>, i: int, x: AstNode)
    requires
        0 <= i < s.len(),
    ensures
        #[trigger] children_view(s.update(i, x)) == children_view(s).update(i, ast_view(x)),
{
    lemma_children_view(s);
    lemma_children_view(s.update(i, x));
    assert(children_view(s.update(i, x)) =~= children_view(s).update(i, ast_view(x)));
}

/// The number of nodes of a tree.
pub open spec fn size_v(a: AstV) -> nat
    decreases a, 0int,
{
    match a {
        AstV::Block { children, .. } => 1 + sizes_from(children, 0),
        AstV::Function { .. } => 1,
    }
}

/// The number of nodes of the trees from position `i` on.
pub open spec fn sizes_from(cs: Seq<AstV>, i: int) -> nat
    decreases cs, cs.len() - i,
{
    if i < 0 || i >= cs.len() {
        0
    } else {
        size_v(cs[i]) + sizes_from(cs, i + 1)
    }
}

/// The node numbered `k` in pre-order (the tree itself is `0`).
pub open spec fn node_at(a: AstV, k: int) -> Option<AstV>
    decreases a, 0int,
{
    if k == 0 {
        Some(a)
    } else {
        match a {
            AstV::Block { children, .. } => node_in(children, k - 1, 0),
            AstV::Function { .. } => None,
        }
    }
}

/// The node numbered `k` in pre-order among the trees from position `i` on.
pub open spec fn node_in(cs: Seq<AstV>, k: int, i: int) -> Option<AstV>
    decreases cs, cs.len() - i,
{
    if i < 0 || i >= cs.len() {
        None
    } else if k < size_v(cs[i]) {
        node_at(cs[i], k)
    } else {
        node_in(cs, k - size_v(cs[i]), i + 1)
    }
}

/// The tree with the node numbered `k` in pre-order replaced by `b`.
pub open spec fn replace_at(a: AstV, k: int, b: AstV) -> AstV
    decreases a, 0int,
{
    if k == 0 {
        b
    } else {
        match a {
            AstV::Block { name, children } => AstV::Block { name, children: replace_in(children, k - 1, b, 0) },
            AstV::Function { .. } => a,
        }
    }
}

/// The trees with the node numbered `k` in pre-order, counted from position
/// `i`, replaced by `b`.
pub open spec fn replace_in(cs: Seq<AstV>, k: int, b: AstV, i: int) -> Seq<AstV>
    decreases cs, cs.len() - i,
{
    if i < 0 || i >= cs.len() {
        cs
    } else if k < size_v(cs[i]) {
        cs.update(i, replace_at(cs[i], k, b))
    } else {
        replace_in(cs, k - size_v(cs[i]), b, i + 1)
    }
}

/// A tree has at least one node.
pub proof fn lemma_size_positive(a: AstV)
    ensures
        size_v(a) >= 1,
{
}

/// The size of one tree is part of the sizes from any earlier position.
proof fn lemma_sizes_from_part(cs: Seq<AstV>, i: int, j: int)
    requires
        0 <= i <= j < cs.len(),
    ensures
        size_v(cs[j]) <= sizes_from(cs, i),
        sizes_from(cs, j) <= sizes_from(cs, i),
    decreases j - i,
{
    if i < j {
        lemma_sizes_from_part(cs, i + 1, j);
    }
}


/// The number of nodes of the trees.
fn sizes_of(children: &Vec<AstNode>) -> (r: usize)
    requires
        sizes_from(children_view(children@), 0) <= usize::MAX,
    ensures
        r == sizes_from(children_view(children@), 0),
{
    let ghost cv = children_view(children@);
    proof {
        lemma_children_view(children@);
    }
    let mut acc: usize = 0;
    let mut i: usize = 0;
    while i < children.len()
        invariant
            i <= children@.len(),
            cv == children_view(children@),
            cv.len() == children@.len(),
            forall|j: int| 0 <= j < children@.len() ==> #[trigger] cv[j] == children@[j]@,
            sizes_from(cv, 0) <= usize::MAX,
            acc + sizes_from(cv, i as int) == sizes_from(cv, 0),
        decreases children@.len() - i,
    {
        proof {
            lemma_sizes_from_part(cv, 0, i as int);
        }
        let s = children[i].size();
        acc = acc + s;
        i = i + 1;
    }
    acc
}

/// The tree holding the node numbered `off` in pre-order among the trees,
/// with the number of nodes before it.
fn find_child(children: &Vec<AstNode>, off: usize) -> (r: Option<(usize, usize)>)
    requires
        sizes_from(children_view(children@), 0) <= usize::MAX,
    ensures
        ({
            let cv = children_view(children@);
            match r {
                Some(found) => {
                    &&& found.0 < children@.len()
                    &&& found.1 <= off < found.1 + size_v(cv[found.0 as int])
                    &&& found.1 + size_v(cv[found.0 as int]) <= sizes_from(cv, 0)
                    &&& node_in(cv, off as int, 0) == node_in(cv, off - found.1, found.0 as int)
                    &&& forall|x: AstV| #[trigger] replace_in(cv, off as int, x, 0) == replace_in(cv, off - found.1, x, found.0 as int)
                },
                None => off >= sizes_from(cv, 0) && node_in(cv, off as int, 0) is None,
            }
        }),
{
    let ghost cv = children_view(children@);
    proof {
        lemma_children_view(children@);
    }
    let mut before: usize = 0;
    let mut i: usize = 0;
    while i < children.len()
        invariant
            i <= children@.len(),
            cv == children_view(children@),
            cv.len() == children@.len(),
            forall|j: int| 0 <= j < children@.len() ==> #[trigger] cv[j] == children@[j]@,
            sizes_from(cv, 0) <= usize::MAX,
            before + sizes_from(cv, i as int) == sizes_from(cv, 0),
            before <= off,
            node_in(cv, off as int, 0) == node_in(cv, off - before, i as int),
            forall|x: AstV| #[trigger] replace_in(cv, off as int, x, 0) == replace_in(cv, off - before, x, i as int),
        decreases children@.len() - i,
    {
        proof {
            lemma_sizes_from_part(cv, 0, i as int);
        }
        let s = children[i].size();
        if off - before < s {
            return Some((i, before));
        }
        proof {
            assert forall|x: AstV| #[trigger] replace_in(cv, off as int, x, 0) == replace_in(cv, off - (before + s), x, i + 1) by {
                assert(replace_in(cv, off - before, x, i as int) == replace_in(cv, off - before - s, x, i + 1));
            }
        }
        before = before + s;
        i = i + 1;
    }
    None
}

/// A mutable borrow of the tree at position `i`; what is written through it
/// becomes that tree.
fn child_at_mut(children: &mut Vec<AstNode>, i: usize) -> (r: &mut AstNode)
    requires
        i < old(children)@.len(),
    ensures
        *r == old(children)@[i as int],
        final(children)@ == old(children)@.update(i as int, *final(r)),
        children_view(final(children)@) == children_view(old(children)@).update(i as int, (*final(r))@),
{
    broadcast use lemma_children_view_update;
    &mut children[i]
}

impl AstNode {
    /// A copy of this tree.
    pub fn duplicate(&self) -> (r: AstNode)
        ensures
            r@ == self@,
        decreases self,
    {
        match self {
            AstNode::Block { name, children } => {
                let mut out: Vec<AstNode> = Vec::new();
                let mut i: usize = 0;
                while i < children.len()
                    invariant
                        *self == (AstNode::Block { name: *name, children: *children }),
                        i <= children@.len(),
                        out@.len() == i,
                        forall|j: int| 0 <= j < i ==> (#[trigger] out@[j])@ == children@[j]@,
                    decreases children@.len() - i,
                {
                    proof {
                        assert(decreases_to!(*self => (*self)->Block_children));
                        assert(decreases_to!(*children => children[i as int]));
                        assert(decreases_to!(*self => children[i as int]));
                    }
                    out.push(children[i].duplicate());
                    i = i + 1;
                }
                proof {
                    lemma_children_view(out@);
                    lemma_children_view(children@);
                    assert(children_view(out@) =~= children_view(children@));
                }
                AstNode::Block { name: name.clone(), children: out }
            },
            AstNode::Function { signature, body } => AstNode::Function {
                signature: signature.clone(),
                body: body.clone(),
            },
        }
    }

    /// The number of nodes of this tree.
    pub fn size(&self) -> (r: usize)
        requires
            size_v(self@) <= usize::MAX,
        ensures
            r == size_v(self@),
        decreases self,
    {
        match self {
            AstNode::Block { name, children } => {
                let ghost cv = children_view(children@);
                proof {
                    lemma_children_view(children@);
                }
                let mut acc: usize = 1;
                let mut i: usize = 0;
                while i < children.len()
                    invariant
                        *self == (AstNode::Block { name: *name, children: *children }),
                        size_v(self@) <= usize::MAX,
                        i <= children@.len(),
                        cv == children_view(children@),
                        cv.len() == children@.len(),
                        forall|j: int| 0 <= j < children@.len() ==> #[trigger] cv[j] == children@[j]@,
                        acc + sizes_from(cv, i as int) == size_v(self@),
                    decreases children@.len() - i,
                {
                    proof {
                        assert(decreases_to!(*self => (*self)->Block_children));
                        assert(decreases_to!(*children => children[i as int]));
                        assert(decreases_to!(*self => children[i as int]));
                        lemma_sizes_from_part(cv, i as int, i as int);
                    }
                    let s = children[i].size();
                    acc = acc + s;
                    i = i + 1;
                }
                acc
            },
            AstNode::Function { .. } => 1,
        }
    }


    /// Replaces the node numbered `k` in pre-order by `b`.
    pub fn replace_node_at(&mut self, k: usize, b: AstNode)
        requires
            k < size_v(old(self)@),
            size_v(old(self)@) <= usize::MAX,
        ensures
            final(self)@ == replace_at(old(self)@, k as int, b@),
        decreases size_v(old(self)@),
    {
        if k == 0 {
            *self = b;
            return;
        }
        let mut taken = AstNode::Function { signature: String::new(), body: String::new() };
        std::mem::swap(self, &mut taken);
        let ghost a = taken@;
        match taken {
            AstNode::Block { name, mut children } => {
                let ghost cv = children_view(children@);
                proof {
                    lemma_children_view(children@);
                }
                let mut off: usize = k - 1;
                let mut i: usize = 0;
                while i < children.len()
                    invariant
                        a == old(self)@,
                        k >= 1,
                        a == (AstV::Block { name: name@, children: cv }),
                        size_v(a) <= usize::MAX,
                        i <= children@.len(),
                        cv == children_view(children@),
                        cv.len() == children@.len(),
                        forall|j: int| 0 <= j < children@.len() ==> #[trigger] cv[j] == children@[j]@,
                        off < sizes_from(cv, i as int),
                        replace_in(cv, k - 1, b@, 0) == replace_in(cv, off as int, b@, i as int),
                    decreases children@.len() - i,
                {
                    proof {
                        lemma_sizes_from_part(cv, 0, i as int);
                    }
                    let sz = children[i].size();
                    if off < sz {
                        let mut child = children[i].duplicate();
                        assert(size_v(child@) < size_v(old(self)@));
                        child.replace_node_at(off, b);
                        children.set(i, child);
                        proof {
                            lemma_children_view(children@);
                            assert(children_view(children@) =~= cv.update(i as int, replace_at(cv[i as int], off as int, b@)));
                            assert(replace_in(cv, off as int, b@, i as int) == cv.update(i as int, replace_at(cv[i as int], off as int, b@)));
                            assert(replace_at(a, k as int, b@) == (AstV::Block { name: name@, children: replace_in(cv, k - 1, b@, 0) }));
                        }
                        let ghost newv = children_view(children@);
                        *self = AstNode::Block { name, children };
                        assert(self@ == (AstV::Block { name: a->Block_name, children: newv }));
                        return;
                    }
                    off = off - sz;
                    i = i + 1;
                }
                *self = AstNode::Block { name, children };
            },
            AstNode::Function { signature, body } => {
                *self = AstNode::Function { signature, body };
            },
        }
    }


    /// A mutable borrow of the node numbered `target_idx` in pre-order, the
    /// nodes of this tree being numbered from `*current_idx` on; whatever is
    /// written through it becomes that node of the tree.
    pub fn get_node_mut<'a>(&'a mut self, target_idx: usize, current_idx: &mut usize) -> (r: Option<&'a mut AstNode>)
        requires
            *old(current_idx) + size_v(old(self)@) <= usize::MAX,
        ensures
            ({
                let c0 = *old(current_idx) as int;
                let t = target_idx as int;
                match r {
                    Some(n) => {
                        &&& c0 <= t < c0 + size_v(old(self)@)
                        &&& node_at(old(self)@, t - c0) == Some((*n)@)
                        &&& final(self)@ =~= replace_at(old(self)@, t - c0, (*final(n))@)
                        &&& *final(current_idx) == target_idx
                    },
                    None => {
                        &&& !(c0 <= t < c0 + size_v(old(self)@))
                        &&& final(self)@ == old(self)@
                        &&& *final(current_idx) == c0 + size_v(old(self)@)
                    },
                }
            }),
        decreases size_v(old(self)@),
    {
        broadcast use lemma_children_view_update;
        if *current_idx == target_idx {
            return Some(self);
        }
        let cur = *current_idx + 1;
        match self {
            AstNode::Block { name, children } => {
                let ghost cv = children_view(children@);
                proof {
                    lemma_children_view(children@);
                }
                let total = sizes_of(children);
                if target_idx < cur {
                    *current_idx = cur + total;
                    return None;
                }
                let off = target_idx - cur;
                match find_child(children, off) {
                    Some(found) => {
                        let i = found.0;
                        let before = found.1;
                        proof {
                            lemma_sizes_from_part(cv, 0, i as int);
                            assert(children@[i as int]@ == cv[i as int]);
                            assert(node_in(cv, (off - before) as int, i as int) == node_at(cv[i as int], (off - before) as int));
                        }
                        proof {
                            let c0 = *old(current_idx) as int;
                            assert(old(self)@ == (AstV::Block { name: name@, children: cv }));
                            assert forall|x: AstV| #[trigger] replace_at(old(self)@, target_idx - c0, x) == (AstV::Block {
                                name: name@,
                                children: cv.update(i as int, replace_at(cv[i as int], (off - before) as int, x)),
                            }) by {
                                assert(replace_in(cv, off as int, x, 0) == replace_in(cv, off - before, x, i as int));
                                assert(replace_in(cv, off - before, x, i as int) == cv.update(i as int, replace_at(cv[i as int], (off - before) as int, x)));
                            }
                        }
                        *current_idx = cur + before;
                        let child = child_at_mut(children, i);
                        child.get_node_mut(target_idx, current_idx)
                    },
                    None => {
                        *current_idx = cur + total;
                        None
                    },
                }
            },
            AstNode::Function { .. } => {
                *current_idx = cur;
                None
            },
        }
    }

    /// A copy of the node numbered `target_idx` in pre-order, the nodes of this
    /// tree being numbered from `*current_idx` on; `*current_idx` ends at the
    /// target when it is found, else past the last node of this tree.
    pub fn get_node(&self, target_idx: usize, current_idx: &mut usize) -> (r: Option<AstNode>)
        requires
            *old(current_idx) + size_v(self@) <= usize::MAX,
        ensures
            ({
                let c0 = *old(current_idx) as int;
                let t = target_idx as int;
                if c0 <= t < c0 + size_v(self@) {
                    &&& r matches Some(n) && Some(n@) == node_at(self@, t - c0)
                    &&& *final(current_idx) == target_idx
                } else {
                    &&& r is None
                    &&& *final(current_idx) == c0 + size_v(self@)
                }
            }),
        decreases self,
    {
        let ghost c0 = *current_idx as int;
        let ghost t = target_idx as int;
        if *current_idx == target_idx {
            return Some(self.duplicate());
        }
        *current_idx = *current_idx + 1;
        match self {
            AstNode::Block { name, children } => {
                let ghost cv = children_view(children@);
                proof {
                    lemma_children_view(children@);
                }
                let mut i: usize = 0;
                while i < children.len()
                    invariant
                        *self == (AstNode::Block { name: *name, children: *children }),
                        c0 + size_v(self@) <= usize::MAX,
                        c0 == *old(current_idx) as int,
                        t == target_idx as int,
                        i <= children@.len(),
                        cv == children_view(children@),
                        cv.len() == children@.len(),
                        forall|j: int| 0 <= j < children@.len() ==> #[trigger] cv[j] == children@[j]@,
                        *current_idx as int + sizes_from(cv, i as int) == c0 + size_v(self@),
                        t >= *current_idx || t < c0,
                        t >= *current_idx ==> node_at(self@, t - c0) == node_in(cv, t - *current_idx, i as int),
                    decreases children@.len() - i,
                {
                    proof {
                        assert(decreases_to!(*self => (*self)->Block_children));
                        assert(decreases_to!(*children => children[i as int]));
                        assert(decreases_to!(*self => children[i as int]));
                        lemma_sizes_from_part(cv, i as int, i as int);
                    }
                    let ghost before = *current_idx as int;
                    match children[i].get_node(target_idx, current_idx) {
                        Some(n) => {
                            proof {
                                assert(children@[i as int]@ == cv[i as int]);
                                assert(t - before < size_v(cv[i as int]));
                                assert(node_in(cv, t - before, i as int) == node_at(cv[i as int], t - before));
                                lemma_sizes_from_part(cv, 0, i as int);
                            }
                            return Some(n);
                        },
                        None => {},
                    }
                    i = i + 1;
                }
                None
            },
            AstNode::Function { .. } => None,
        }
    }
}

/// The node numbered `k` in pre-order exists below the size, and replacing
/// it by `x` trades its nodes for those of `x`.
pub proof fn lemma_replace_at_size(a: AstV, k: int, x: AstV)
    requires
        0 <= k < size_v(a),
    ensures
        node_at(a, k) is Some,
        k + size_v(node_at(a, k)->0) <= size_v(a),
        size_v(replace_at(a, k, x)) + size_v(node_at(a, k)->0) == size_v(a) + size_v(x),
    decreases a, 0int,
{
    if k != 0 {
        match a {
            AstV::Block { name, children } => {
                lemma_replace_in_size(children, k - 1, x, 0);
            },
            AstV::Function { .. } => {},
        }
    }
}

/// The trees from position `i` on, with the node numbered `k` among them
/// replaced by `x`: the trees before `i` stay, and the nodes of the one
/// replaced are traded for those of `x`.
pub proof fn lemma_replace_in_size(cs: Seq<AstV>, k: int, x: AstV, i: int)
    requires
        0 <= i <= cs.len(),
        0 <= k < sizes_from(cs, i),
    ensures
        node_in(cs, k, i) is Some,
        k + size_v(node_in(cs, k, i)->0) <= sizes_from(cs, i),
        replace_in(cs, k, x, i).len() == cs.len(),
        forall|m: int| 0 <= m < i ==> #[trigger] replace_in(cs, k, x, i)[m] == cs[m],
        sizes_from(replace_in(cs, k, x, i), i) + size_v(node_in(cs, k, i)->0) == sizes_from(cs, i) + size_v(x),
    decreases cs, cs.len() - i,
{
    let r = replace_in(cs, k, x, i);
    if k < size_v(cs[i]) {
        lemma_replace_at_size(cs[i], k, x);
        lemma_sizes_from_agree(r, cs, i + 1);
    } else {
        lemma_replace_in_size(cs, k - size_v(cs[i]), x, i + 1);
        assert(r[i] == cs[i]);
    }
}

/// Sequences that agree from position `i` on have the same sizes from there.
proof fn lemma_sizes_from_agree(s: Seq<AstV>, t: Seq<AstV>, i: int)
    requires
        s.len() == t.len(),
        0 <= i,
        forall|m: int| i <= m < s.len() ==> s[m] == t[m],
    ensures
        sizes_from(s, i) == sizes_from(t, i),
    decreases s.len() - i,
{
    if i < s.len() {
        lemma_sizes_from_agree(s, t, i + 1);
    }
}

/// What is written at a node is what is then read there.
pub proof fn law_write_then_read(a: AstV, k: int, x: AstV)
    requires
        0 <= k < size_v(a),
    ensures
        node_at(replace_at(a, k, x), k) == Some(x),
    decreases a, 0int,
{
    if k != 0 {
        match a {
            AstV::Block { name, children } => {
                lemma_read_replaced_in(children, k - 1, x, 0);
            },
            AstV::Function { .. } => {},
        }
    }
}

/// Among trees from position `i` on, the node written at `k` is read back.
proof fn lemma_read_replaced_in(cs: Seq<AstV>, k: int, x: AstV, i: int)
    requires
        0 <= i <= cs.len(),
        0 <= k < sizes_from(cs, i),
    ensures
        node_in(replace_in(cs, k, x, i), k, i) == Some(x),
    decreases cs, cs.len() - i,
{
    if k < size_v(cs[i]) {
        lemma_replace_at_size(cs[i], k, x);
        lemma_size_positive(x);
        law_write_then_read(cs[i], k, x);
    } else {
        lemma_replace_in_size(cs, k - size_v(cs[i]), x, i + 1);
        lemma_read_replaced_in(cs, k - size_v(cs[i]), x, i + 1);
        let r = replace_in(cs, k - size_v(cs[i]), x, i + 1);
        assert(r[i] == cs[i]);
    }
}

/// Grafting any node of one tree at any node of another gives a tree of at
/// least one node and at most the nodes of both, less the node replaced.
pub proof fn law_crossover_size(a: AstV, b: AstV, p1: int, p2: int)
    requires
        0 <= p1 < size_v(a),
        0 <= p2 < size_v(b),
    ensures
        node_at(b, p2) is Some,
        1 <= size_v(replace_at(a, p1, node_at(b, p2)->0)),
        size_v(replace_at(a, p1, node_at(b, p2)->0)) <= size_v(a) + size_v(b) - 1,
{
    let leaf = AstV::Function { signature: Seq::empty(), body: Seq::empty() };
    lemma_replace_at_size(b, p2, leaf);
    lemma_size_positive(replace_at(b, p2, leaf));
    let sub = node_at(b, p2)->0;
    lemma_replace_at_size(a, p1, sub);
    lemma_size_positive(node_at(a, p1)->0);
    lemma_size_positive(replace_at(a, p1, sub));
}

/// A draw in `0..n`.
#[verifier::external_body]
fn random_below(n: usize) -> (r: usize)
    requires
        n > 0,
    ensures
        r < n,
{
    rand::Rng::random_range(&mut rand::rng(), 0..n)
}

/// A genome made of one code tree.
pub struct AstGenome {
    pub root: AstNode,
}

impl AstGenome {
    /// The first individual: an empty block named `root`.
    pub fn random() -> (r: AstGenome)
        ensures
            r.root@ == (AstV::Block { name: "root"@, children: Seq::empty() }),
    {
        let children: Vec<AstNode> = Vec::new();
        proof {
            assert(children_view(children@) =~= Seq::<AstV>::empty());
        }
        AstGenome { root: AstNode::Block { name: "root".to_string(), children } }
    }

    /// The child of this genome whose node numbered `p1` in pre-order is
    /// replaced by a copy of the node numbered `p2` of `other`.
    pub fn crossover_at(&self, other: &AstGenome, p1: usize, p2: usize) -> (r: AstGenome)
        requires
            size_v(self.root@) <= usize::MAX,
            size_v(other.root@) <= usize::MAX,
            p1 < size_v(self.root@),
            p2 < size_v(other.root@),
        ensures
            node_at(other.root@, p2 as int) is Some,
            r.root@ == replace_at(self.root@, p1 as int, node_at(other.root@, p2 as int)->0),
    {
        let mut child = AstGenome { root: self.root.duplicate() };
        let mut idx_p2: usize = 0;
        if let Some(subtree) = other.root.get_node(p2, &mut idx_p2) {
            let mut idx_p1: usize = 0;
            if let Some(target_node) = child.root.get_node_mut(p1, &mut idx_p1) {
                *target_node = subtree;
            }
        }
        child
    }

    /// The child of this genome whose node at a random position in pre-order
    /// is replaced by a copy of the node at a random position of `other`.
    pub fn crossover(&self, other: &AstGenome) -> (r: AstGenome)
        requires
            size_v(self.root@) <= usize::MAX,
            size_v(other.root@) <= usize::MAX,
        ensures
            exists|p1: int, p2: int|
                0 <= p1 < size_v(self.root@) && 0 <= p2 < size_v(other.root@)
                    && node_at(other.root@, p2) is Some
                    && #[trigger] replace_at(self.root@, p1, node_at(other.root@, p2)->0) == r.root@,
    {
        let size_p1 = self.root.size();
        let point_p1 = random_below(size_p1);
        let size_p2 = other.root.size();
        let point_p2 = random_below(size_p2);
        self.crossover_at(other, point_p1, point_p2)
    }
}

/// The Rust source of a tree: functions as their signature and body, blocks
/// as a `pub mod` of their children's sources separated by blank lines, the
/// block named `root` as its children's sources alone.
pub open spec fn source_of(a: AstV) -> Seq<char>
    decreases a, 1int,
{
    match a {
        AstV::Block { name, children } => {
            let code = join_with(sources_of(children), "\n\n"@);
            if name == "root"@ {
                code
            } else {
                "pub mod "@ + name + " {\n"@ + code + "\n}"@
            }
        },
        AstV::Function { signature, body } => signature + " "@ + body,
    }
}

/// The sources of the trees, in order.
pub open spec fn sources_of(cs: Seq<AstV>) -> Seq<Seq<char>>
    decreases cs, 0int,
{
    if cs.len() == 0 {
        Seq::empty()
    } else {
        seq![source_of(cs[0])] + sources_of(cs.subrange(1, cs.len() as int))
    }
}

/// `sources_of` maps each tree.
pub proof fn lemma_sources_of(cs: Seq<AstV>)
    ensures
        sources_of(cs).len() == cs.len(),
        forall|i: int| 0 <= i < cs.len() ==> #[trigger] sources_of(cs)[i] == source_of(cs[i]),
    decreases cs.len(),
{
    if cs.len() > 0 {
        let t = cs.subrange(1, cs.len() as int);
        lemma_sources_of(t);
        assert forall|i: int| 0 <= i < cs.len() implies #[trigger] sources_of(cs)[i] == source_of(cs[i]) by {
            if i > 0 {
                assert(cs[i] == t[i - 1]);
            }
        }
    }
}

#[verifier::external_type_specification]
#[verifier::external_body]
pub struct ExPathBuf(std::path::PathBuf);

/// Scores code genomes by compiling their source in a scratch directory.
pub struct CodeGenEvaluator {
    pub temp_workspace: std::path::PathBuf,
}

impl CodeGenEvaluator {
    /// An evaluator working in `temp_workspace`.
    pub fn new(temp_workspace: std::path::PathBuf) -> (r: CodeGenEvaluator)
        ensures
            r.temp_workspace == temp_workspace,
    {
        CodeGenEvaluator { temp_workspace }
    }

    /// The Rust source of a tree.
    pub fn generate_source(node: &AstNode) -> (r: String)
        ensures
            r@ == source_of(node@),
        decreases node,
    {
        match node {
            AstNode::Block { name, children } => {
                let ghost cv = children_view(children@);
                proof {
                    lemma_children_view(children@);
                    lemma_sources_of(cv);
                }
                let mut codes: Vec<String> = Vec::new();
                let mut i: usize = 0;
                while i < children.len()
                    invariant
                        *node == (AstNode::Block { name: *name, children: *children }),
                        i <= children@.len(),
                        cv == children_view(children@),
                        cv.len() == children@.len(),
                        forall|j: int| 0 <= j < children@.len() ==> #[trigger] cv[j] == children@[j]@,
                        sources_of(cv).len() == cv.len(),
                        forall|j: int| 0 <= j < cv.len() ==> #[trigger] sources_of(cv)[j] == source_of(cv[j]),
                        texts_of(codes@) == sources_of(cv).take(i as int),
                    decreases children@.len() - i,
                {
                    proof {
                        assert(decreases_to!(*node => (*node)->Block_children));
                        assert(decreases_to!(*children => children[i as int]));
                        assert(decreases_to!(*node => children[i as int]));
                    }
                    let code = Self::generate_source(&children[i]);
                    let ghost before = codes@;
                    codes.push(code);
                    proof {
                        assert(sources_of(cv)[i as int] == source_of(cv[i as int]));
                        assert(codes@ == before.push(code));
                        assert(texts_of(codes@) =~= texts_of(before).push(code@));
                        assert(texts_of(codes@) =~= sources_of(cv).take(i as int + 1));
                    }
                    i = i + 1;
                }
                proof {
                    assert(sources_of(cv).take(cv.len() as int) =~= sources_of(cv));
                }
                let code = join_strings(&codes, "\n\n");
                if str_eq(name.as_str(), "root") {
                    code
                } else {
                    let head = concat3("pub mod ", name.as_str(), " {\n");
                    concat3(head.as_str(), code.as_str(), "\n}")
                }
            },
            AstNode::Function { signature, body } => concat3(signature.as_str(), " ", body.as_str()),
        }
    }
}

/// Why the parameters of a genetics node were refused.
#[derive(Clone, Copy, Debug, PartialEq, Eq, Structural)]
pub enum GeneticsError {
    /// `functions` is missing or not an array.
    MissingFunctions,
    /// `components` is missing or not an array.
    MissingComponents,
}

/// The strings of the array under `key` of `params`, when it is an array.
pub open spec fn param_ids(params: JsonView, key: Seq<char>) -> Option<Seq<Seq<char>>> {
    match vget(params, key) {
        Some(JsonView::Array(items)) => Some(str_items(items)),
        _ => None,
    }
}

/// The function and component identifiers of a genetics node's parameters:
/// the strings of the `functions` and `components` arrays, in order (other
/// items are passed over); `functions` is checked first.
pub fn genetics_params(params: &JsonValue) -> (r: Result<(Vec<String>, Vec<String>), GeneticsError>)
    ensures
        match r {
            Ok((f, c)) => param_ids(params@, "functions"@) == Some(texts_of(f@))
                && param_ids(params@, "components"@) == Some(texts_of(c@)),
            Err(e) => if param_ids(params@, "functions"@) is None {
                e == GeneticsError::MissingFunctions
            } else {
                e == GeneticsError::MissingComponents && param_ids(params@, "components"@) is None
            },
        },
{
    let functions = match params.get("functions") {
        Some(v) => match v.as_array() {
            Some(_) => collect_targets(v),
            None => {
                return Err(GeneticsError::MissingFunctions);
            },
        },
        None => {
            return Err(GeneticsError::MissingFunctions);
        },
    };
    let components = match params.get("components") {
        Some(v) => match v.as_array() {
            Some(_) => collect_targets(v),
            None => {
                return Err(GeneticsError::MissingComponents);
            },
        },
        None => {
            return Err(GeneticsError::MissingComponents);
        },
    };
    Ok((functions, components))
}

/// The identifier an element is known by in an allocation: its `handle`
/// property when that is a string, else its handle.
pub open spec fn element_id(e: ArcadiaElement) -> Seq<char> {
    match vget(e.props(), "handle"@) {
        Some(JsonView::Str(t)) => t,
        _ => e.handle@,
    }
}

/// The identifiers of the elements, in order.
pub open spec fn element_ids(els: Seq<ArcadiaElement>) -> Seq<Seq<char>> {
    els.map_values(|e: ArcadiaElement| element_id(e))
}

/// The text of the first of two members that a value has, when it is a
/// string; empty otherwise.
pub open spec fn end_text(props: JsonView, first: Seq<char>, second: Seq<char>) -> Seq<char> {
    let v = match vget(props, first) {
        Some(v) => Some(v),
        None => vget(props, second),
    };
    match v {
        Some(JsonView::Str(t)) => t,
        _ => Seq::empty(),
    }
}

/// The two ends of an exchange: `source_handle` (or `source`) and
/// `target_handle` (or `target`).
pub open spec fn exchange_ends(e: ArcadiaElement) -> (Seq<char>, Seq<char>) {
    (end_text(e.props(), "source_handle"@, "source"@), end_text(e.props(), "target_handle"@, "target"@))
}

/// The identifier of an element (see `element_id`).
fn element_id_of(e: &ArcadiaElement) -> (r: String)
    ensures
        r@ == element_id(*e),
{
    match e.property("handle") {
        Some(v) => match v.as_str() {
            Some(t) => owned(t),
            None => owned(e.handle.as_str()),
        },
        None => owned(e.handle.as_str()),
    }
}

/// The identifiers of the elements of a collection, in order.
fn collection_ids(els: &[ArcadiaElement]) -> (r: Vec<String>)
    ensures
        texts_of(r@) == element_ids(els@),
{
    let mut out: Vec<String> = Vec::new();
    let mut i: usize = 0;
    while i < els.len()
        invariant
            i <= els@.len(),
            texts_of(out@) == element_ids(els@.take(i as int)),
        decreases els@.len() - i,
    {
        let ghost before = texts_of(out@);
        out.push(element_id_of(&els[i]));
        proof {
            assert(texts_of(out@) =~= before.push(element_id(els@[i as int])));
            assert(element_ids(els@.take(i as int + 1)) =~= element_ids(els@.take(i as int)).push(element_id(els@[i as int])));
        }
        i = i + 1;
    }
    proof {
        assert(els@.take(els@.len() as int) =~= els@);
    }
    out
}

/// The identifiers of the logical functions of a model (`la`/`functions`).
pub fn model_function_ids(model: &ProjectModel) -> (r: Vec<String>)
    ensures
        texts_of(r@) == element_ids(collection_of(model.layers@, "la"@, "functions"@)),
{
    collection_ids(model.get_collection("la", "functions"))
}

/// The identifiers of the physical components of a model (`pa`/`components`).
pub fn model_component_ids(model: &ProjectModel) -> (r: Vec<String>)
    ensures
        texts_of(r@) == element_ids(collection_of(model.layers@, "pa"@, "components"@)),
{
    collection_ids(model.get_collection("pa", "components"))
}

/// The text of the first of two members, when it is a string (see `end_text`).
fn end_text_of(e: &ArcadiaElement, first: &str, second: &str) -> (r: String)
    ensures
        r@ == end_text(e.props(), first@, second@),
{
    let v = match e.property(first) {
        Some(v) => Some(v),
        None => e.property(second),
    };
    match v {
        Some(x) => match x.as_str() {
            Some(t) => owned(t),
            None => String::new(),
        },
        None => String::new(),
    }
}

/// The ends of the logical exchanges of a model (`la`/`exchanges`), in order
/// (see `exchange_ends`).
pub fn model_exchange_ends(model: &ProjectModel) -> (r: Vec<(String, String)>)
    ensures
        r@.len() == collection_of(model.layers@, "la"@, "exchanges"@).len(),
        forall|i: int| 0 <= i < r@.len() ==> ((#[trigger] r@[i]).0@, r@[i].1@) == exchange_ends(
            collection_of(model.layers@, "la"@, "exchanges"@)[i],
        ),
{
    let els = model.get_collection("la", "exchanges");
    let mut out: Vec<(String, String)> = Vec::new();
    let mut i: usize = 0;
    while i < els.len()
        invariant
            i <= els@.len(),
            els@ == collection_of(model.layers@, "la"@, "exchanges"@),
            out@.len() == i,
            forall|k: int| 0 <= k < i ==> ((#[trigger] out@[k]).0@, out@[k].1@) == exchange_ends(els@[k]),
        decreases els@.len() - i,
    {
        let src = end_text_of(&els[i], "source_handle", "source");
        let dst = end_text_of(&els[i], "target_handle", "target");
        out.push((src, dst));
        i = i + 1;
    }
    out
}

/// The document that records that a function is realized by a component.
pub open spec fn realization_doc(f: Seq<char>, c: Seq<char>) -> JsonView {
    JsonView::Object(seq![
        ("@type"@, JsonView::Str("arcadia:realizes"@)),
        ("source"@, JsonView::Str(f)),
        ("target"@, JsonView::Str(c)),
        ("generated_by"@, JsonView::Str("RaiseGeneticsEngine"@)),
    ])
}

/// The generated artifacts after an allocation: those already recorded (when
/// they form an array), then one realization document for each allocated
/// pair, in order.
pub fn generated_artifacts(existing: Option<&JsonValue>, allocation: &Vec<(String, String)>) -> (r: JsonValue)
    ensures
        r@ == JsonView::Array(
            match existing {
                Some(v) => match v@ {
                    JsonView::Array(items) => items,
                    _ => Seq::empty(),
                },
                None => Seq::empty(),
            } + allocation@.map_values(|p: (String, String)| realization_doc(p.0@, p.1@)),
        ),
{
    let mut out: Vec<JsonValue> = Vec::new();
    let ghost base: Seq<JsonView> = Seq::empty();
    match existing {
        Some(v) => match v.as_array() {
            Some(items) => {
                let mut k: usize = 0;
                proof {
                    lemma_jview_items(items@);
                    lemma_jview_items(out@);
                }
                while k < items.len()
                    invariant
                        k <= items@.len(),
                        v@ == JsonView::Array(jview_items(items@)),
                        jview_items(out@) == jview_items(items@).take(k as int),
                    decreases items@.len() - k,
                {
                    proof {
                        lemma_jview_items(out@);
                        lemma_jview_items(items@);
                    }
                    let ghost before = jview_items(out@);
                    out.push(items[k].duplicate());
                    proof {
                        lemma_jview_items(out@);
                        assert(jview_items(out@) =~= before.push(jview_items(items@)[k as int]));
                        assert(jview_items(items@).take(k as int + 1) =~= jview_items(items@).take(k as int).push(jview_items(items@)[k as int]));
                    }
                    k = k + 1;
                }
                proof {
                    assert(jview_items(items@).take(items@.len() as int) =~= jview_items(items@));
                    lemma_jview_items(items@);
                }
            },
            None => {
                proof {
                    lemma_jview_items(out@);
                    assert(jview_items(out@) =~= Seq::<JsonView>::empty());
                }
            },
        },
        None => {
            proof {
                lemma_jview_items(out@);
                assert(jview_items(out@) =~= Seq::<JsonView>::empty());
            }
        },
    }
    let ghost start = jview_items(out@);
    let ghost docs = allocation@.map_values(|p: (String, String)| realization_doc(p.0@, p.1@));
    let mut i: usize = 0;
    while i < allocation.len()
        invariant
            i <= allocation@.len(),
            docs == allocation@.map_values(|p: (String, String)| realization_doc(p.0@, p.1@)),
            jview_items(out@) == start + docs.take(i as int),
        decreases allocation@.len() - i,
    {
        let mut es: Vec<(String, JsonValue)> = Vec::new();
        es.push((owned("@type"), JsonValue::String(owned("arcadia:realizes"))));
        es.push((owned("source"), JsonValue::String(allocation[i].0.clone())));
        es.push((owned("target"), JsonValue::String(allocation[i].1.clone())));
        es.push((owned("generated_by"), JsonValue::String(owned("RaiseGeneticsEngine"))));
        proof {
            lemma_jview_entries(es@);
            assert(jview_entries(es@) =~= realization_doc(allocation@[i as int].0@, allocation@[i as int].1@)->Object_0);
            lemma_jview_items(out@);
        }
        let ghost before = jview_items(out@);
        out.push(JsonValue::Object(es));
        proof {
            lemma_jview_items(out@);
            assert(jview_items(out@) =~= before.push(docs[i as int]));
            assert(docs.take(i as int + 1) =~= docs.take(i as int).push(docs[i as int]));
        }
        i = i + 1;
    }
    proof {
        assert(docs.take(allocation@.len() as int) =~= docs);
    }
    JsonValue::Array(out)
}

/// Numbers the functions and components of a model so that the genetic engine
/// works on indices, and turns indices back into identifiers.
pub struct GeneticsAdapter {
    func_idx_to_id: Vec<String>,
    comp_idx_to_id: Vec<String>,
}

/// The identifier at position `i`, empty when there is none.
pub open spec fn id_or_empty(ids: Seq<Seq<char>>, i: int) -> Seq<char> {
    if 0 <= i < ids.len() {
        ids[i]
    } else {
        Seq::empty()
    }
}

/// The index that an identifier is known by: its last position among `ids`.
#[verifier::opaque]
pub open spec fn index_of_id(ids: Seq<Seq<char>>, id: Seq<char>) -> Option<int> {
    if exists|i: int| 0 <= i < ids.len() && ids[i] == id {
        Some(choose|i: int| 0 <= i < ids.len() && ids[i] == id && forall|j: int| i < j < ids.len() ==> ids[j] != id)
    } else {
        None
    }
}

/// The two ends of each exchange.
pub open spec fn pairs_view(v: Seq<(String, String)>) -> Seq<(Seq<char>, Seq<char>)> {
    v.map_values(|p: (String, String)| (p.0@, p.1@))
}

/// Index triples as integers.
pub open spec fn flows_view(v: Seq<(usize, usize, usize)>) -> Seq<(int, int, int)> {
    v.map_values(|x: (usize, usize, usize)| (x.0 as int, x.1 as int, x.2 as int))
}

/// Among the first `n` exchanges, in order, those whose two ends are known
/// functions: the index of the source, that of the target, and the position
/// of the exchange.
pub open spec fn known_flows(ids: Seq<Seq<char>>, ex: Seq<(Seq<char>, Seq<char>)>, n: int) -> Seq<(int, int, int)>
    decreases n,
{
    if n <= 0 || n > ex.len() {
        Seq::empty()
    } else {
        let prev = known_flows(ids, ex, n - 1);
        match (index_of_id(ids, ex[n - 1].0), index_of_id(ids, ex[n - 1].1)) {
            (Some(s), Some(t)) => prev.push((s, t, n - 1)),
            _ => prev,
        }
    }
}

impl View for GeneticsAdapter {
    /// The identifiers of the functions and of the components, by index.
    type V = (Seq<Seq<char>>, Seq<Seq<char>>);

    closed spec fn view(&self) -> (Seq<Seq<char>>, Seq<Seq<char>>) {
        (texts_of(self.func_idx_to_id@), texts_of(self.comp_idx_to_id@))
    }
}

impl GeneticsAdapter {
    /// An adapter numbering the functions and components in the order given.
    pub fn new(function_ids: Vec<String>, component_ids: Vec<String>) -> (r: GeneticsAdapter)
        ensures
            r@.0 == texts_of(function_ids@),
            r@.1 == texts_of(component_ids@),
    {
        GeneticsAdapter { func_idx_to_id: function_ids, comp_idx_to_id: component_ids }
    }

    /// The adapter of a model: its logical functions and physical components,
    /// each by its identifier (see `element_id`), in order.
    pub fn from_model(model: &ProjectModel) -> (r: GeneticsAdapter)
        ensures
            r@.0 == element_ids(collection_of(model.layers@, "la"@, "functions"@)),
            r@.1 == element_ids(collection_of(model.layers@, "pa"@, "components"@)),
    {
        GeneticsAdapter::new(model_function_ids(model), model_component_ids(model))
    }

    /// The index of the function `id`: its last position.
    pub fn function_index(&self, id: &str) -> (r: Option<usize>)
        ensures
            match r {
                Some(i) => {
                    &&& i < self@.0.len()
                    &&& self@.0[i as int] == id@
                    &&& forall|j: int| i < j < self@.0.len() ==> self@.0[j] != id@
                },
                None => forall|j: int| 0 <= j < self@.0.len() ==> self@.0[j] != id@,
            },
            r is Some <==> index_of_id(self@.0, id@) is Some,
            r matches Some(i) ==> index_of_id(self@.0, id@) == Some(i as int),
    {
        reveal(index_of_id);
        let ghost ids = self@.0;
        let mut i: usize = self.func_idx_to_id.len();
        while i > 0
            invariant
                ids == texts_of(self.func_idx_to_id@),
                i <= self.func_idx_to_id@.len(),
                forall|j: int| i <= j < ids.len() ==> ids[j] != id@,
            decreases i,
        {
            i = i - 1;
            if str_eq(self.func_idx_to_id[i].as_str(), id) {
                proof {
                    reveal(index_of_id);
                    assert(ids[i as int] == id@);
                    let k = choose|k: int| 0 <= k < ids.len() && ids[k] == id@ && forall|j: int| k < j < ids.len() ==> ids[j] != id@;
                    assert(k == i) by {
                        if k < i {
                            assert(ids[i as int] != id@);
                        }
                    }
                }
                return Some(i);
            }
        }
        None
    }

    /// The exchanges whose two ends are known functions, as the indices of
    /// their source and target and the position of the exchange itself.
    pub fn flow_pairs(&self, exchanges: &Vec<(String, String)>) -> (r: Vec<(usize, usize, usize)>)
        ensures
            flows_view(r@) == known_flows(self@.0, pairs_view(exchanges@), exchanges@.len() as int),
    {
        let ghost ex = pairs_view(exchanges@);
        let mut out: Vec<(usize, usize, usize)> = Vec::new();
        let mut e: usize = 0;
        while e < exchanges.len()
            invariant
                e <= exchanges@.len(),
                ex == pairs_view(exchanges@),
                flows_view(out@) == known_flows(self@.0, ex, e as int),
            decreases exchanges@.len() - e,
        {
            let s = self.function_index(exchanges[e].0.as_str());
            let t = self.function_index(exchanges[e].1.as_str());
            let ghost before = out@;
            assert(ex[e as int] == (exchanges@[e as int].0@, exchanges@[e as int].1@));
            match (s, t) {
                (Some(si), Some(ti)) => {
                    out.push((si, ti, e));
                    assert(flows_view(out@) =~= flows_view(before).push((si as int, ti as int, e as int)));
                },
                _ => {},
            }
            e = e + 1;
        }
        out
    }

    /// The allocation that the genes describe: for each function index, the
    /// function's identifier and that of the component that its gene names,
    /// each empty where the index is unknown.
    pub fn allocation(&self, raw_genes: &[usize]) -> (r: Vec<(String, String)>)
        ensures
            r@.len() == raw_genes@.len(),
            forall|i: int| 0 <= i < r@.len() ==> {
                &&& (#[trigger] r@[i]).0@ == id_or_empty(self@.0, i)
                &&& r@[i].1@ == id_or_empty(self@.1, raw_genes@[i] as int)
            },
    {
        let mut out: Vec<(String, String)> = Vec::new();
        let mut i: usize = 0;
        while i < raw_genes.len()
            invariant
                i <= raw_genes@.len(),
                out@.len() == i,
                forall|k: int| 0 <= k < i ==> {
                    &&& (#[trigger] out@[k]).0@ == id_or_empty(self@.0, k)
                    &&& out@[k].1@ == id_or_empty(self@.1, raw_genes@[k] as int)
                },
            decreases raw_genes@.len() - i,
        {
            let f_id = if i < self.func_idx_to_id.len() {
                self.func_idx_to_id[i].clone()
            } else {
                String::new()
            };
            let c = raw_genes[i];
            let c_id = if c < self.comp_idx_to_id.len() {
                self.comp_idx_to_id[c].clone()
            } else {
                String::new()
            };
            out.push((f_id, c_id));
            i = i + 1;
        }
        out
    }
}

/// Copies of the strings.
fn copy_strings(v: &Vec<String>) -> (r: Vec<String>)
    ensures
        texts_of(r@) == texts_of(v@),
{
    let mut out: Vec<String> = Vec::new();
    let mut i: usize = 0;
    while i < v.len()
        invariant
            i <= v@.len(),
            out@.len() == i,
            forall|k: int| 0 <= k < i ==> (#[trigger] out@[k])@ == v@[k]@,
        decreases v@.len() - i,
    {
        out.push(v[i].clone());
        i = i + 1;
    }
    assert(texts_of(out@) =~= texts_of(v@));
    out
}

/// Copies of the pairs of strings.
fn copy_pairs(v: &Vec<(String, String)>) -> (r: Vec<(String, String)>)
    ensures
        pairs_view(r@) == pairs_view(v@),
{
    let mut out: Vec<(String, String)> = Vec::new();
    let mut i: usize = 0;
    while i < v.len()
        invariant
            i <= v@.len(),
            out@.len() == i,
            forall|k: int| 0 <= k < i ==> (#[trigger] out@[k]).0@ == v@[k].0@ && out@[k].1@ == v@[k].1@,
        decreases v@.len() - i,
    {
        out.push((v[i].0.clone(), v[i].1.clone()));
        i = i + 1;
    }
    assert(pairs_view(out@) =~= pairs_view(v@));
    out
}

/// The launch parameters of a service: what the deployment agent varies
/// after a failed start.
pub struct DeploymentGenome {
    pub binary_path: String,
    pub arguments: Vec<String>,
    /// Environment variables, by name.
    pub env_vars: Vec<(String, String)>,
}

impl DeploymentGenome {
    /// The first individual: no binary, no argument, no variable.
    pub fn random() -> (r: DeploymentGenome)
        ensures
            r.binary_path@ == Seq::<char>::empty(),
            r.arguments@.len() == 0,
            r.env_vars@.len() == 0,
    {
        DeploymentGenome { binary_path: String::new(), arguments: Vec::new(), env_vars: Vec::new() }
    }

    /// The child of two launch configurations: a copy of this one.
    pub fn crossover(&self, _other: &DeploymentGenome) -> (r: DeploymentGenome)
        ensures
            r.binary_path@ == self.binary_path@,
            texts_of(r.arguments@) == texts_of(self.arguments@),
            pairs_view(r.env_vars@) == pairs_view(self.env_vars@),
    {
        DeploymentGenome {
            binary_path: self.binary_path.clone(),
            arguments: copy_strings(&self.arguments),
            env_vars: copy_pairs(&self.env_vars),
        }
    }
}

/// Scores launch configurations by starting the service and watching it,
/// with its logs kept in `log_workspace`.
pub struct DeploymentEvaluator {
    pub log_workspace: std::path::PathBuf,
}

impl DeploymentEvaluator {
    /// An evaluator keeping its logs in `log_workspace`.
    pub fn new(log_workspace: std::path::PathBuf) -> (r: DeploymentEvaluator)
        ensures
            r.log_workspace == log_workspace,
    {
        DeploymentEvaluator { log_workspace }
    }
}

/// Whether an allocation genome fits a cost model of `function_count`
/// functions and `component_count` components: one gene per function, each
/// naming an existing component.
pub fn allocation_is_valid(genes: &[usize], function_count: usize, component_count: usize) -> (b: bool)
    ensures
        b == (genes@.len() == function_count && forall|i: int| 0 <= i < genes@.len() ==> genes@[i] < component_count),
{
    if genes.len() != function_count {
        return false;
    }
    let mut i: usize = 0;
    while i < genes.len()
        invariant
            i <= genes@.len(),
            forall|j: int| 0 <= j < i ==> genes@[j] < component_count,
        decreases genes@.len() - i,
    {
        if genes[i] >= component_count {
            return false;
        }
        i = i + 1;
    }
    true
}

} // verus!
