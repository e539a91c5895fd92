//! The tail list core: the arena of node slots, the link model, the
//! structural algorithms (`insert_at`, `swap_places`, `unlink`,
//! `fixup_owning_link`) and the public handle types built on them.

use vstd::prelude::*;

verus! {

/// Names a link slot of the list: either the head link of the list itself,
/// or the forward link held by the node in arena slot `i`.
#[derive(Clone, Copy)]
pub enum LinkId {
    /// The list's own head link.
    Head,
    /// The forward link of the node in slot `i`.
    After(usize),
}

/// The link fields of one live node: the forward link and the back-link
/// naming the link slot that currently owns the node.
#[derive(Clone, Copy)]
struct NodeLinks {
    next: Option<usize>,
    back: LinkId,
}

/// A specialized linked list.  Besides an optional forward link, every node
/// carries a back-link to the link slot that owns it; the well-formedness
/// predicate [`TailList::wf`] states that every back-link is correct.
///
/// Nodes sit in an arena of slots; a freed slot is `None` in both arrays.
/// A node whose payload is `None` is a sentinel: it only marks the position
/// of a [`Cursor`] and is never visible through value handles.
pub struct TailList<T> {
    head: Option<usize>,
    links: Vec<Option<NodeLinks>>,
    vals: Vec<Option<T>>,
    order: Ghost<Seq<int>>,
}

/// An active iterator over a node and its tail.  It owns a sentinel node
/// that marks its position; `next` repeatedly swaps the sentinel one step
/// forward.
pub struct Cursor {
    dummy: usize,
}

/// A passive handle: access to exactly one value-bearing node, never to
/// its tail.
pub struct ValRef {
    node: usize,
}

/// An active handle to one value-bearing node together with the right to
/// claim its tail; produced by [`Cursor::next`].
pub struct TailValRef {
    val_ref: ValRef,
}

impl Cursor {
    /// The arena slot of this cursor's sentinel node.
    pub closed spec fn marker(self) -> int {
        self.dummy as int
    }

    /// Anchors a new cursor: a fresh sentinel node is inserted directly
    /// after link `at`, and the cursor owns everything from there on.
    fn new<T>(list: &mut TailList<T>, at: LinkId) -> (c: Cursor)
        requires
            old(list).wf(),
            old(list).link_ok(at),
        ensures
            final(list).wf(),
            final(list).is_sentinel(c.marker()),
            c.marker() == old(list).n_slots(),
            final(list).n_slots() == old(list).n_slots() + 1,
            final(list).values() == old(list).values(),
            final(list).suffix_vals(c.marker()) == old(list).link_suffix(at),
            forall|j: int|
                old(list).slot_used(j) ==> final(list).slot_used(j) && final(list).val_of(j)
                    == old(list).val_of(j),
    {
        let n = list.insert_at(at, None);
        Cursor { dummy: n }
    }

    /// Yields the next element of this cursor, if any: the cursor's
    /// sentinel is swapped one step forward, skipping other cursors'
    /// sentinels, until a value-bearing node lands in front of it.
    /// Returns nothing exactly when no values remain after the sentinel;
    /// the cursor stays usable either way, and asking again keeps
    /// returning nothing.
    #[verifier::rlimit(100)]
    #[verifier::spinoff_prover]
    pub fn next<T>(&self, list: &mut TailList<T>) -> (r: Option<TailValRef>)
        requires
            old(list).wf(),
            old(list).is_sentinel(self.marker()),
        ensures
            final(list).wf(),
            final(list).is_sentinel(self.marker()),
            final(list).n_slots() == old(list).n_slots(),
            forall|j: int|
                #![trigger final(list).slot_used(j)]
                final(list).slot_used(j) <==> old(list).slot_used(j),
            forall|j: int|
                #![trigger final(list).val_of(j)]
                final(list).val_of(j) == old(list).val_of(j),
            final(list).values() == old(list).values(),
            r is Some <==> old(list).suffix_vals(self.marker()).len() > 0,
            match r {
                None => final(list).suffix_vals(self.marker()) == old(list).suffix_vals(
                    self.marker(),
                ),
                Some(h) => {
                    &&& final(list).is_value_node(h.node())
                    &&& final(list).val_of(h.node()) == Some(
                        old(list).suffix_vals(self.marker())[0],
                    )
                    &&& final(list).suffix_vals(self.marker()) == old(list).suffix_vals(
                        self.marker(),
                    ).skip(1)
                    &&& final(list).suffix_vals(h.node()) == final(list).suffix_vals(self.marker())
                },
            },
        decreases old(list).chain().len() - old(list).pos_of(self.marker()),
    {
        match list.cursor_step(self.dummy) {
            None => None,
            Some((b, has_val)) => {
                if has_val {
                    proof {
                        lemma_cons_head_skip(
                            list.val_of(b as int)->0,
                            list.suffix_vals(self.dummy as int),
                        );
                    }
                    Some(TailValRef { val_ref: ValRef { node: b } })
                } else {
                    proof {
                        list.lemma_pos_of(self.dummy as int);
                    }
                    self.next(list)
                }
            },
        }
    }

    /// Discards this cursor: its sentinel is unlinked from the list, which
    /// is then as if the cursor had never anchored there, apart from the
    /// mutations already made through handles it returned.
    pub fn dispose<T>(self, list: &mut TailList<T>)
        requires
            old(list).wf(),
            old(list).is_sentinel(self.marker()),
        ensures
            final(list).wf(),
            final(list).values() == old(list).values(),
            final(list).n_slots() == old(list).n_slots(),
            !final(list).slot_used(self.marker()),
            forall|j: int|
                j != self.marker() && old(list).slot_used(j) ==> final(list).slot_used(j)
                    && final(list).val_of(j) == old(list).val_of(j),
            forall|j: int| !old(list).slot_used(j) ==> !final(list).slot_used(j),
    {
        let _ = list.unlink(self.dummy);
    }
}

impl ValRef {
    /// The arena slot of the node this handle refers to.
    pub closed spec fn node(self) -> int {
        self.node as int
    }
}

impl TailValRef {
    /// The arena slot of the node this handle refers to.
    pub closed spec fn node(self) -> int {
        self.val_ref.node()
    }
}

impl<T> TailList<T> {
    /// The number of arena slots (live or freed).
    pub closed spec fn n_slots(self) -> int {
        self.links@.len() as int
    }

    /// The number of payload slots; equal to `n_slots()` in a well-formed list.
    pub closed spec fn n_val_slots(self) -> int {
        self.vals@.len() as int
    }

    /// The chain of arena slots from the head link to the end of the list,
    /// sentinels included.
    pub closed spec fn chain(self) -> Seq<int> {
        self.order@
    }

    /// The list's head link.
    pub closed spec fn head_link(self) -> Option<usize> {
        self.head
    }

    /// Slot `i` holds a live node.
    pub closed spec fn slot_used(self, i: int) -> bool {
        0 <= i < self.links@.len() && self.links@[i] is Some
    }

    /// The forward link of the node in slot `i`.
    pub closed spec fn next_of(self, i: int) -> Option<usize> {
        self.links@[i]->0.next
    }

    /// The back-link of the node in slot `i`.
    pub closed spec fn back_of(self, i: int) -> LinkId {
        self.links@[i]->0.back
    }

    /// The payload of the node in slot `i`; `None` for a sentinel.
    pub closed spec fn val_of(self, i: int) -> Option<T> {
        self.vals@[i]
    }

    /// Slot `i` holds a live sentinel node.
    pub open spec fn is_sentinel(self, i: int) -> bool {
        self.slot_used(i) && self.val_of(i) is None
    }

    /// Slot `i` holds a live value-bearing node.
    pub open spec fn is_value_node(self, i: int) -> bool {
        self.slot_used(i) && self.val_of(i) is Some
    }

    /// The node a link slot currently owns.
    pub open spec fn target_of(self, l: LinkId) -> Option<usize> {
        match l {
            LinkId::Head => self.head_link(),
            LinkId::After(i) => self.next_of(i as int),
        }
    }

    /// The link slot `l` exists in this list.
    pub open spec fn link_ok(self, l: LinkId) -> bool {
        match l {
            LinkId::Head => true,
            LinkId::After(i) => self.slot_used(i as int),
        }
    }

    /// Well-formedness: the ghost chain lists exactly the live slots, in link
    /// order, and every forward link and back-link matches it.  In particular
    /// the back-link of every reachable node names the link that owns it.
    pub open spec fn wf(self) -> bool {
        let ch = self.chain();
        &&& self.n_slots() <= usize::MAX as int
        &&& self.n_val_slots() == self.n_slots()
        &&& forall|j: int| 0 <= j < ch.len() ==> self.slot_used(#[trigger] ch[j])
        &&& forall|j: int, k: int| 0 <= j < k < ch.len() ==> ch[j] != ch[k]
        &&& forall|i: int| #[trigger] self.slot_used(i) ==> ch.contains(i)
        &&& (ch.len() == 0 ==> self.head_link() is None)
        &&& (ch.len() > 0 ==> self.head_link() == Some(ch[0] as usize))
        &&& forall|j: int|
            0 <= j < ch.len() - 1 ==> self.next_of(#[trigger] ch[j]) == Some(ch[j + 1] as usize)
        &&& (ch.len() > 0 ==> self.next_of(ch[ch.len() - 1]) is None)
        &&& (ch.len() > 0 ==> self.back_of(ch[0]) == LinkId::Head)
        &&& forall|j: int|
            1 <= j < ch.len() ==> self.back_of(#[trigger] ch[j]) == LinkId::After(
                ch[j - 1] as usize,
            )
        &&& forall|i: int|
            0 <= i < self.n_slots() && !self.slot_used(i) ==> #[trigger] self.val_of(i) is None
    }

    /// The values carried by the nodes of `ch`, in order, sentinels skipped.
    pub open spec fn vals_in(self, ch: Seq<int>) -> Seq<T>
        decreases ch.len(),
    {
        if ch.len() <= 0 {
            Seq::empty()
        } else {
            match self.val_of(ch[0]) {
                Some(v) => seq![v] + self.vals_in(ch.subrange(1, ch.len() as int)),
                None => self.vals_in(ch.subrange(1, ch.len() as int)),
            }
        }
    }

    /// The sequence of values in the list, front to back.
    pub open spec fn values(self) -> Seq<T> {
        self.vals_in(self.chain())
    }

    /// The position of slot `i` in the chain (unique in a well-formed list).
    pub open spec fn pos_of(self, i: int) -> int {
        choose|j: int| 0 <= j < self.chain().len() && self.chain()[j] == i
    }

    /// How many values sit strictly before slot `i` in the list.
    pub open spec fn val_pos(self, i: int) -> int {
        self.vals_in(self.chain().take(self.pos_of(i))).len() as int
    }

    /// The values strictly after slot `i`, in order.
    pub open spec fn suffix_vals(self, i: int) -> Seq<T> {
        self.vals_in(self.chain().skip(self.pos_of(i) + 1))
    }

    /// The chain position at which `insert_at(l, _)` places a new node.
    pub open spec fn insert_pos(self, l: LinkId) -> int {
        match l {
            LinkId::Head => 0,
            LinkId::After(i) => self.pos_of(i as int) + 1,
        }
    }

    /// The values owned by link `l`: everything from its target on.
    pub open spec fn link_suffix(self, l: LinkId) -> Seq<T> {
        self.vals_in(self.chain().skip(self.insert_pos(l)))
    }

    /// How many values sit before the node that `insert_at(l, _)` creates.
    pub open spec fn val_insert_pos(self, l: LinkId) -> int {
        self.vals_in(self.chain().take(self.insert_pos(l))).len() as int
    }
}

/// A sequence beginning with `v` has `v` first and the rest after it.
proof fn lemma_cons_head_skip<A>(v: A, s: Seq<A>)
    ensures
        (seq![v] + s)[0] == v,
        (seq![v] + s).skip(1) == s,
{
    assert((seq![v] + s).skip(1) =~= s);
}

/// Inserting into a concatenation, exactly at the seam, splices the
/// element between the two halves.
proof fn lemma_seq_insert_concat<A>(a: Seq<A>, b: Seq<A>, x: A)
    ensures
        (a + b).insert(a.len() as int, x) == a + seq![x] + b,
{
    assert((a + b).insert(a.len() as int, x) =~= a + seq![x] + b);
}

/// Removing the element at the seam of a spliced concatenation gives back
/// the two halves.
proof fn lemma_seq_remove_concat<A>(a: Seq<A>, b: Seq<A>, x: A)
    ensures
        (a + seq![x] + b).remove(a.len() as int) == a + b,
{
    assert((a + seq![x] + b).remove(a.len() as int) =~= a + b);
}

/// How the arena changes when `swap_places(a, b)` runs on `pre`, for a
/// node `ai` whose immediate successor is `bi`: the two nodes trade chain
/// positions, all four affected links are rewired, and nothing else moves.
spec fn swap_frame<T>(pre: TailList<T>, post: TailList<T>, ai: int, bi: int) -> bool {
    let p = pre.pos_of(ai);
    &&& post.n_slots() == pre.n_slots()
    &&& post.n_val_slots() == pre.n_val_slots()
    &&& post.chain() == pre.chain().update(p, bi).update(p + 1, ai)
    &&& forall|j: int| #![trigger post.slot_used(j)] post.slot_used(j) <==> pre.slot_used(j)
    &&& forall|j: int| #![trigger post.val_of(j)] post.val_of(j) == pre.val_of(j)
    &&& post.next_of(bi) == Some(ai as usize)
    &&& post.back_of(ai) == LinkId::After(bi as usize)
    &&& post.next_of(ai) == pre.next_of(bi)
    &&& post.back_of(bi) == pre.back_of(ai)
    &&& match pre.back_of(ai) {
        LinkId::Head => post.head_link() == Some(bi as usize) && forall|j: int|
            pre.slot_used(j) && j != ai && j != bi ==> post.next_of(j) == pre.next_of(j),
        LinkId::After(x) => post.head_link() == pre.head_link() && post.next_of(x as int) == Some(
            bi as usize,
        ) && forall|j: int|
            pre.slot_used(j) && j != ai && j != bi && j != x as int ==> post.next_of(j)
                == pre.next_of(j),
    }
    &&& match pre.next_of(bi) {
        None => forall|j: int|
            pre.slot_used(j) && j != ai && j != bi ==> post.back_of(j) == pre.back_of(j),
        Some(c) => post.back_of(c as int) == LinkId::After(ai as usize) && forall|j: int|
            pre.slot_used(j) && j != ai && j != bi && j != c as int ==> post.back_of(j)
                == pre.back_of(j),
    }
}

/// `swap_places` on adjacent nodes preserves well-formedness.
#[verifier::rlimit(100)]
proof fn lemma_swap_wf<T>(pre: TailList<T>, post: TailList<T>, ai: int, bi: int)
    requires
        pre.wf(),
        pre.slot_used(ai),
        pre.next_of(ai) == Some(bi as usize),
        0 <= bi <= usize::MAX as int,
        swap_frame(pre, post, ai, bi),
    ensures
        post.wf(),
        post.pos_of(bi) == pre.pos_of(ai),
        post.pos_of(ai) == pre.pos_of(ai) + 1,
{
    let ch = pre.chain();
    pre.lemma_pos_of(ai);
    let p = pre.pos_of(ai);
    assert(p < ch.len() - 1) by {
        if p == ch.len() - 1 {
            assert(pre.next_of(ch[ch.len() - 1]) is None);
        }
    }
    assert(ch[p + 1] == bi) by {
        assert(pre.next_of(ch[p]) == Some(ch[p + 1] as usize));
        assert(pre.slot_used(ch[p + 1]));
    }
    assert(pre.slot_used(bi));
    let ch2 = post.chain();
    assert(ch2.len() == ch.len());
    assert(ch2[p] == bi && ch2[p + 1] == ai);
    assert(forall|k: int| 0 <= k < ch.len() && k != p && k != p + 1 ==> ch2[k] == #[trigger] ch[k]);
    assert forall|k: int| 0 <= k < ch2.len() implies post.slot_used(#[trigger] ch2[k]) by {
        if k != p && k != p + 1 {
            assert(ch2[k] == ch[k] && pre.slot_used(ch[k]));
        }
    }
    assert forall|x: int, y: int| 0 <= x < y < ch2.len() implies ch2[x] != ch2[y] by {
        let ox = if x == p { p + 1 } else if x == p + 1 { p } else { x };
        let oy = if y == p { p + 1 } else if y == p + 1 { p } else { y };
        assert(ch2[x] == ch[ox] && ch2[y] == ch[oy]);
    }
    assert forall|j: int| #[trigger] post.slot_used(j) implies ch2.contains(j) by {
        assert(pre.slot_used(j));
        assert(ch.contains(j));
        let k = choose|k: int| 0 <= k < ch.len() && ch[k] == j;
        if k == p {
            assert(ch2[p + 1] == j);
        } else if k == p + 1 {
            assert(ch2[p] == j);
        } else {
            assert(ch2[k] == j);
        }
    }
    assert forall|k: int|
        0 <= k < ch2.len() - 1 implies post.next_of(#[trigger] ch2[k]) == Some(
        ch2[k + 1] as usize,
    ) by {
        if k < p - 1 || k > p + 1 {
            assert(ch2[k] == ch[k] && ch2[k + 1] == ch[k + 1]);
            assert(pre.next_of(ch[k]) == Some(ch[k + 1] as usize));
            assert(ch[k] != ai && ch[k] != bi);
            match pre.back_of(ai) {
                LinkId::Head => {},
                LinkId::After(x) => {
                    assert(p >= 1 && x as int == ch[p - 1]);
                    assert(ch[k] != x as int);
                },
            }
        } else if k == p - 1 {
            assert(ch2[k] == ch[p - 1] && ch2[k + 1] == bi);
            assert(pre.back_of(ai) == LinkId::After(ch[p - 1] as usize));
        } else if k == p {
            assert(ch2[k] == bi && ch2[k + 1] == ai);
        } else {
            assert(ch2[k] == ai && ch2[k + 1] == ch[p + 2]);
            assert(pre.next_of(bi) == Some(ch[p + 2] as usize));
        }
    }
    if ch2.len() > 0 {
        let last = ch2.len() - 1;
        if last == p + 1 {
            assert(ch2[last] == ai);
            assert(post.next_of(ai) == pre.next_of(bi));
            assert(pre.next_of(ch[last]) is None);
        } else {
            assert(ch2[last] == ch[last]);
            assert(pre.next_of(ch[last]) is None);
            assert(ch[last] != ai && ch[last] != bi);
            match pre.back_of(ai) {
                LinkId::Head => {},
                LinkId::After(x) => {
                    assert(p >= 1 && x as int == ch[p - 1]);
                    assert(ch[last] != x as int);
                },
            }
        }
        assert(post.next_of(ch2[last]) is None);
    }
    assert forall|k: int|
        1 <= k < ch2.len() implies post.back_of(#[trigger] ch2[k]) == LinkId::After(
        ch2[k - 1] as usize,
    ) by {
        if k < p || k > p + 2 {
            assert(ch2[k] == ch[k] && ch2[k - 1] == ch[k - 1]);
            assert(pre.back_of(ch[k]) == LinkId::After(ch[k - 1] as usize));
            assert(ch[k] != ai && ch[k] != bi);
            match pre.next_of(bi) {
                None => {},
                Some(c) => {
                    assert(p + 2 < ch.len() && c as int == ch[p + 2]);
                    assert(ch[k] != c as int);
                },
            }
        } else if k == p {
            assert(ch2[k] == bi && post.back_of(bi) == pre.back_of(ai));
            assert(pre.back_of(ai) == LinkId::After(ch[p - 1] as usize));
            assert(ch2[k - 1] == ch[k - 1]);
        } else if k == p + 1 {
            assert(ch2[k] == ai && ch2[k - 1] == bi);
        } else {
            assert(ch2[k] == ch[p + 2] && ch2[k - 1] == ai);
            assert(pre.next_of(bi) == Some(ch[p + 2] as usize));
        }
    }
    if p == 0 {
        assert(ch2[0] == bi && post.back_of(bi) == pre.back_of(ai));
        assert(pre.back_of(ch[0]) == LinkId::Head);
        assert(post.head_link() == Some(bi as usize));
    } else if ch2.len() > 0 {
        assert(ch2[0] == ch[0]);
        assert(post.back_of(ch[0]) == LinkId::Head) by {
            assert(ch[0] != ai && ch[0] != bi);
            match pre.next_of(bi) {
                None => {},
                Some(c) => {
                    assert(p + 2 < ch.len() && c as int == ch[p + 2]);
                    assert(ch[0] != c as int);
                },
            }
        }
        assert(post.head_link() == Some(ch2[0] as usize));
    }
    assert(post.wf());
    post.lemma_pos_of(ai);
    post.lemma_pos_of(bi);
}

/// Exchanging two adjacent chain slots, of which the first carries no
/// value, keeps the value sequence intact and relates the tails.
#[verifier::rlimit(100)]
proof fn lemma_swap_seq<T>(pre: TailList<T>, post: TailList<T>, ch: Seq<int>, p: int)
    requires
        0 <= p,
        p + 1 < ch.len(),
        pre.val_of(ch[p]) is None,
        forall|k: int| 0 <= k < ch.len() ==> post.val_of(#[trigger] ch[k]) == pre.val_of(ch[k]),
    ensures
        post.vals_in(ch.update(p, ch[p + 1]).update(p + 1, ch[p])) == pre.vals_in(ch),
        pre.vals_in(ch) == pre.vals_in(ch.take(p)) + pre.vals_in(ch.skip(p + 1)),
        pre.vals_in(ch.skip(p + 1)) == (match pre.val_of(ch[p + 1]) {
            Some(v) => seq![v] + pre.vals_in(ch.skip(p + 2)),
            None => pre.vals_in(ch.skip(p + 2)),
        }),
        post.vals_in(ch.update(p, ch[p + 1]).update(p + 1, ch[p]).skip(p + 1)) == pre.vals_in(
            ch.skip(p + 2),
        ),
        post.vals_in(ch.update(p, ch[p + 1]).update(p + 1, ch[p]).skip(p + 2)) == pre.vals_in(
            ch.skip(p + 2),
        ),
        post.vals_in(ch.update(p, ch[p + 1]).update(p + 1, ch[p]).take(p)) == pre.vals_in(
            ch.take(p),
        ),
{
    let ai = ch[p];
    let bi = ch[p + 1];
    let ch2 = ch.update(p, bi).update(p + 1, ai);
    let front = ch.take(p);
    let tail2 = ch.skip(p + 2);
    assert(ch =~= front + seq![ai] + seq![bi] + tail2);
    assert(ch2 =~= front + seq![bi] + seq![ai] + tail2);
    pre.lemma_vals_in_concat(front + seq![ai] + seq![bi], tail2);
    pre.lemma_vals_in_concat(front + seq![ai], seq![bi]);
    pre.lemma_vals_in_concat(front, seq![ai]);
    post.lemma_vals_in_concat(front + seq![bi] + seq![ai], tail2);
    post.lemma_vals_in_concat(front + seq![bi], seq![ai]);
    post.lemma_vals_in_concat(front, seq![bi]);
    pre.lemma_vals_in_singleton(ai);
    pre.lemma_vals_in_singleton(bi);
    post.lemma_vals_in_singleton(ai);
    post.lemma_vals_in_singleton(bi);
    assert forall|k: int|
        0 <= k < front.len() implies post.val_of(#[trigger] front[k]) == pre.val_of(front[k]) by {
        assert(front[k] == ch[k]);
    }
    pre.lemma_vals_in_agree(post, front);
    assert forall|k: int|
        0 <= k < tail2.len() implies post.val_of(#[trigger] tail2[k]) == pre.val_of(tail2[k]) by {
        assert(tail2[k] == ch[k + p + 2]);
    }
    pre.lemma_vals_in_agree(post, tail2);
    assert(ch.skip(p + 1) =~= seq![bi] + tail2);
    pre.lemma_vals_in_concat(seq![bi], tail2);
    assert(ch2.skip(p + 1) =~= seq![ai] + tail2);
    post.lemma_vals_in_concat(seq![ai], tail2);
    assert(ch2.skip(p + 2) =~= tail2);
    assert(ch2.take(p) =~= front);
    assert(ch.skip(p) =~= seq![ai] + ch.skip(p + 1));
    pre.lemma_vals_in_concat(seq![ai], ch.skip(p + 1));
    pre.lemma_vals_in_concat(front, ch.skip(p));
    assert(ch =~= front + ch.skip(p));
}

/// The cursor's swap: exchanging a sentinel with its successor keeps the
/// value sequence intact and relates the suffixes on either side.
#[verifier::rlimit(100)]
proof fn lemma_swap_post<T>(pre: TailList<T>, post: TailList<T>, ai: int, bi: int)
    requires
        pre.wf(),
        pre.slot_used(ai),
        pre.val_of(ai) is None,
        pre.next_of(ai) == Some(bi as usize),
        0 <= bi <= usize::MAX as int,
        swap_frame(pre, post, ai, bi),
    ensures
        post.wf(),
        post.pos_of(bi) == pre.pos_of(ai),
        post.pos_of(ai) == pre.pos_of(ai) + 1,
        post.values() == pre.values(),
        pre.suffix_vals(ai) == (match pre.val_of(bi) {
            Some(v) => seq![v] + post.suffix_vals(ai),
            None => post.suffix_vals(ai),
        }),
        post.suffix_vals(bi) == post.suffix_vals(ai),
        post.val_pos(bi) == pre.values().len() - pre.suffix_vals(ai).len(),
{
    lemma_swap_wf(pre, post, ai, bi);
    let ch = pre.chain();
    let ch2 = post.chain();
    pre.lemma_pos_of(ai);
    let p = pre.pos_of(ai);
    assert(p < ch.len() - 1 && ch[p + 1] == bi) by {
        if p == ch.len() - 1 {
            assert(pre.next_of(ch[ch.len() - 1]) is None);
        }
        assert(pre.next_of(ch[p]) == Some(ch[p + 1] as usize));
        assert(pre.slot_used(ch[p + 1]));
    }
    assert forall|k: int|
        0 <= k < ch.len() implies post.val_of(#[trigger] ch[k]) == pre.val_of(ch[k]) by {}
    lemma_swap_seq(pre, post, ch, p);
    assert(post.suffix_vals(ai) == post.vals_in(ch2.skip(p + 2)));
    assert(post.suffix_vals(bi) == post.vals_in(ch2.skip(p + 1)));
    assert(post.val_pos(bi) == post.vals_in(ch2.take(p)).len());
    assert(pre.suffix_vals(ai) == pre.vals_in(ch.skip(p + 1)));
    assert(pre.values().len() == pre.vals_in(ch.take(p)).len() + pre.suffix_vals(ai).len());
}

/// How the arena changes when `unlink(i)` runs on `pre`: the node leaves
/// the chain, its owner takes over its tail, the shortened tail's
/// back-link is fixed up, and the slot is freed.
spec fn unlink_frame<T>(pre: TailList<T>, post: TailList<T>, ii: int) -> bool {
    let p = pre.pos_of(ii);
    &&& post.n_slots() == pre.n_slots()
    &&& post.n_val_slots() == pre.n_val_slots()
    &&& post.chain() == pre.chain().remove(p)
    &&& !post.slot_used(ii)
    &&& post.val_of(ii) is None
    &&& forall|j: int|
        #![trigger post.slot_used(j)]
        j != ii ==> (post.slot_used(j) <==> pre.slot_used(j))
    &&& forall|j: int|
        #![trigger post.val_of(j)]
        0 <= j < pre.n_slots() && j != ii ==> post.val_of(j) == pre.val_of(j)
    &&& match pre.back_of(ii) {
        LinkId::Head => post.head_link() == pre.next_of(ii) && forall|j: int|
            pre.slot_used(j) && j != ii ==> post.next_of(j) == pre.next_of(j),
        LinkId::After(x) => post.head_link() == pre.head_link() && post.next_of(x as int)
            == pre.next_of(ii) && forall|j: int|
            pre.slot_used(j) && j != ii && j != x as int ==> post.next_of(j) == pre.next_of(j),
    }
    &&& match pre.next_of(ii) {
        None => forall|j: int|
            pre.slot_used(j) && j != ii ==> post.back_of(j) == pre.back_of(j),
        Some(c) => post.back_of(c as int) == pre.back_of(ii) && forall|j: int|
            pre.slot_used(j) && j != ii && j != c as int ==> post.back_of(j) == pre.back_of(j),
    }
}

/// Cutting one slot out of a chain at `p` splits the value sequence at
/// that slot; the remaining payloads may be read from either list, as
/// long as the two agree on them.
proof fn lemma_vals_in_unsplice<T>(pre: TailList<T>, post: TailList<T>, ch: Seq<int>, p: int)
    requires
        0 <= p < ch.len(),
        forall|k: int|
            0 <= k < ch.len() && k != p ==> post.val_of(#[trigger] ch[k]) == pre.val_of(ch[k]),
    ensures
        pre.vals_in(ch) == pre.vals_in(ch.take(p)) + pre.vals_in(seq![ch[p]]) + pre.vals_in(
            ch.skip(p + 1),
        ),
        post.vals_in(ch.remove(p)) == pre.vals_in(ch.take(p)) + pre.vals_in(ch.skip(p + 1)),
{
    let front = ch.take(p);
    let back = ch.skip(p + 1);
    assert(ch =~= front + seq![ch[p]] + back);
    pre.lemma_vals_in_concat(front + seq![ch[p]], back);
    pre.lemma_vals_in_concat(front, seq![ch[p]]);
    assert(ch.remove(p) =~= front + back);
    post.lemma_vals_in_concat(front, back);
    assert forall|k: int|
        0 <= k < front.len() implies post.val_of(#[trigger] front[k]) == pre.val_of(front[k]) by {
        assert(front[k] == ch[k]);
    }
    pre.lemma_vals_in_agree(post, front);
    assert forall|k: int|
        0 <= k < back.len() implies post.val_of(#[trigger] back[k]) == pre.val_of(back[k]) by {
        assert(back[k] == ch[k + p + 1]);
    }
    pre.lemma_vals_in_agree(post, back);
}

/// `unlink` preserves well-formedness and removes exactly the node's
/// payload, if it had one, from the value sequence.
#[verifier::rlimit(100)]
proof fn lemma_unlink_post<T>(pre: TailList<T>, post: TailList<T>, ii: int)
    requires
        pre.wf(),
        pre.slot_used(ii),
        unlink_frame(pre, post, ii),
    ensures
        post.wf(),
        match pre.val_of(ii) {
            Some(v) => post.values() == pre.values().remove(pre.val_pos(ii)) && pre.values()[
                pre.val_pos(ii)
            ] == v && 0 <= pre.val_pos(ii) < pre.values().len(),
            None => post.values() == pre.values(),
        },
{
    let ch = pre.chain();
    pre.lemma_pos_of(ii);
    let p = pre.pos_of(ii);
    let ch2 = post.chain();
    ch.remove_ensures(p);
    assert(ch2.len() == ch.len() - 1);
    pre.lemma_back_link_invariant(p);
    if p + 1 < ch.len() {
        assert(pre.next_of(ch[p]) == Some(ch[p + 1] as usize));
        assert(pre.slot_used(ch[p + 1]));
    } else {
        assert(pre.next_of(ch[ch.len() - 1]) is None);
    }
    assert forall|k: int| 0 <= k < ch2.len() implies post.slot_used(#[trigger] ch2[k]) by {
        if k < p {
            assert(ch2[k] == ch[k] && pre.slot_used(ch[k]) && ch[k] != ii);
        } else {
            assert(ch2[k] == ch[k + 1] && pre.slot_used(ch[k + 1]) && ch[k + 1] != ii);
        }
    }
    assert forall|x: int, y: int| 0 <= x < y < ch2.len() implies ch2[x] != ch2[y] by {
        let ox = if x < p { x } else { x + 1 };
        let oy = if y < p { y } else { y + 1 };
        assert(ch2[x] == ch[ox] && ch2[y] == ch[oy]);
    }
    assert forall|j: int| #[trigger] post.slot_used(j) implies ch2.contains(j) by {
        assert(j != ii);
        assert(pre.slot_used(j));
        assert(ch.contains(j));
        let k = choose|k: int| 0 <= k < ch.len() && ch[k] == j;
        if k < p {
            assert(ch2[k] == j);
        } else {
            assert(k > p);
            assert(ch2[k - 1] == j);
        }
    }
    assert forall|k: int|
        0 <= k < ch2.len() - 1 implies post.next_of(#[trigger] ch2[k]) == Some(
        ch2[k + 1] as usize,
    ) by {
        if k < p - 1 {
            assert(ch2[k] == ch[k] && ch2[k + 1] == ch[k + 1]);
            assert(pre.next_of(ch[k]) == Some(ch[k + 1] as usize));
            assert(ch[k] != ii);
            match pre.back_of(ii) {
                LinkId::Head => {},
                LinkId::After(x) => {
                    assert(p >= 1 && x as int == ch[p - 1]);
                    assert(ch[k] != x as int);
                },
            }
        } else if k == p - 1 {
            assert(ch2[k] == ch[p - 1] && ch2[k + 1] == ch[p + 1]);
            assert(pre.back_of(ii) == LinkId::After(ch[p - 1] as usize));
            assert(pre.next_of(ii) == Some(ch[p + 1] as usize));
        } else {
            assert(ch2[k] == ch[k + 1] && ch2[k + 1] == ch[k + 2]);
            assert(pre.next_of(ch[k + 1]) == Some(ch[k + 2] as usize));
            assert(ch[k + 1] != ii);
            match pre.back_of(ii) {
                LinkId::Head => {},
                LinkId::After(x) => {
                    assert(p >= 1 && x as int == ch[p - 1]);
                    assert(ch[k + 1] != x as int);
                },
            }
        }
    }
    if ch2.len() > 0 {
        let last = ch2.len() - 1;
        if p == ch.len() - 1 {
            assert(ch2[last] == ch[p - 1]);
            assert(pre.back_of(ii) == LinkId::After(ch[p - 1] as usize));
            assert(pre.next_of(ii) is None);
        } else {
            assert(ch2[last] == ch[ch.len() - 1]);
            assert(pre.next_of(ch[ch.len() - 1]) is None);
            assert(ch[ch.len() - 1] != ii);
            match pre.back_of(ii) {
                LinkId::Head => {},
                LinkId::After(x) => {
                    assert(p >= 1 && x as int == ch[p - 1]);
                    assert(ch[ch.len() - 1] != x as int);
                },
            }
        }
        assert(post.next_of(ch2[last]) is None);
    }
    assert forall|k: int|
        1 <= k < ch2.len() implies post.back_of(#[trigger] ch2[k]) == LinkId::After(
        ch2[k - 1] as usize,
    ) by {
        if k < p {
            assert(ch2[k] == ch[k] && ch2[k - 1] == ch[k - 1]);
            assert(pre.back_of(ch[k]) == LinkId::After(ch[k - 1] as usize));
            assert(ch[k] != ii);
            match pre.next_of(ii) {
                None => {},
                Some(c) => {
                    assert(p + 1 < ch.len() && c as int == ch[p + 1]);
                    assert(ch[k] != c as int);
                },
            }
        } else if k == p {
            assert(ch2[k] == ch[p + 1] && ch2[k - 1] == ch[p - 1]);
            assert(pre.next_of(ii) == Some(ch[p + 1] as usize));
            assert(post.back_of(ch[p + 1]) == pre.back_of(ii));
            assert(pre.back_of(ii) == LinkId::After(ch[p - 1] as usize));
        } else {
            assert(ch2[k] == ch[k + 1] && ch2[k - 1] == ch[k]);
            assert(pre.back_of(ch[k + 1]) == LinkId::After(ch[k] as usize));
            assert(ch[k + 1] != ii);
            match pre.next_of(ii) {
                None => {},
                Some(c) => {
                    assert(p + 1 < ch.len() && c as int == ch[p + 1]);
                    assert(ch[k + 1] != c as int);
                },
            }
        }
    }
    if ch2.len() > 0 {
        if p == 0 {
            assert(ch2[0] == ch[1]);
            assert(pre.back_of(ii) == LinkId::Head);
            assert(pre.next_of(ii) == Some(ch[1] as usize));
            assert(post.back_of(ch[1]) == LinkId::Head);
            assert(post.head_link() == pre.next_of(ii));
        } else {
            assert(ch2[0] == ch[0]);
            assert(post.back_of(ch[0]) == LinkId::Head) by {
                assert(ch[0] != ii);
                match pre.next_of(ii) {
                    None => {},
                    Some(c) => {
                        assert(p + 1 < ch.len() && c as int == ch[p + 1]);
                        assert(ch[0] != c as int);
                    },
                }
            }
            assert(post.head_link() == Some(ch2[0] as usize));
        }
    } else {
        assert(p == 0 && ch.len() == 1);
        assert(pre.back_of(ii) == LinkId::Head);
        assert(pre.next_of(ii) is None);
        assert(post.head_link() is None);
    }
    assert(post.wf());
    // The value sequence loses exactly this node's payload.
    assert forall|k: int|
        0 <= k < ch.len() && k != p implies post.val_of(#[trigger] ch[k]) == pre.val_of(ch[k]) by {
        assert(ch[k] != ii);
    }
    lemma_vals_in_unsplice(pre, post, ch, p);
    pre.lemma_vals_in_singleton(ii);
    match pre.val_of(ii) {
        Some(v) => {
            lemma_seq_remove_concat(
                pre.vals_in(ch.take(p)),
                pre.vals_in(ch.skip(p + 1)),
                v,
            );
            assert(pre.values()[pre.val_pos(ii)] == v) by {
                let a = pre.vals_in(ch.take(p));
                let b = pre.vals_in(ch.skip(p + 1));
                assert(pre.values() == a + seq![v] + b);
                assert((a + seq![v] + b)[a.len() as int] == v);
            }
        },
        None => {},
    }
}

/// How the arena changes when `insert_at(l, _)` runs on `pre` and creates
/// node `ni`: the new node is appended, link `l` is pointed at it, the
/// displaced node's back-link is fixed up, and nothing else moves.
spec fn insert_frame<T>(pre: TailList<T>, post: TailList<T>, l: LinkId, ni: int) -> bool {
    &&& post.n_slots() <= usize::MAX as int
    &&& post.n_slots() == pre.n_slots() + 1
    &&& post.n_val_slots() == post.n_slots()
    &&& ni == pre.n_slots()
    &&& post.chain() == pre.chain().insert(pre.insert_pos(l), ni)
    &&& post.slot_used(ni)
    &&& post.next_of(ni) == pre.target_of(l)
    &&& post.back_of(ni) == l
    &&& forall|j: int|
        pre.slot_used(j) ==> post.slot_used(j) && post.val_of(j) == pre.val_of(j)
    &&& forall|j: int|
        0 <= j < pre.n_slots() && !pre.slot_used(j) ==> !post.slot_used(j) && post.val_of(j)
            is None
    &&& match l {
        LinkId::Head => post.head_link() == Some(ni as usize) && forall|j: int|
            pre.slot_used(j) ==> post.next_of(j) == pre.next_of(j),
        LinkId::After(i) => post.head_link() == pre.head_link() && post.next_of(i as int) == Some(
            ni as usize,
        ) && forall|j: int|
            pre.slot_used(j) && j != i as int ==> post.next_of(j) == pre.next_of(j),
    }
    &&& match pre.target_of(l) {
        None => forall|j: int| pre.slot_used(j) ==> post.back_of(j) == pre.back_of(j),
        Some(t) => post.back_of(t as int) == LinkId::After(ni as usize) && forall|j: int|
            pre.slot_used(j) && j != t as int ==> post.back_of(j) == pre.back_of(j),
    }
}

/// `insert_at` preserves well-formedness: the new chain with `ni` spliced
/// in satisfies every link and back-link condition.
#[verifier::rlimit(100)]
proof fn lemma_insert_wf<T>(pre: TailList<T>, post: TailList<T>, l: LinkId, ni: int)
    requires
        pre.wf(),
        pre.link_ok(l),
        insert_frame(pre, post, l, ni),
    ensures
        post.wf(),
        post.pos_of(ni) == pre.insert_pos(l),
{
    let ch = pre.chain();
    let p = pre.insert_pos(l);
    let ch2 = post.chain();
    pre.lemma_link_target(l);
    ch.insert_ensures(p, ni);
    assert(!pre.slot_used(ni));
    assert forall|k: int| 0 <= k < ch2.len() implies post.slot_used(#[trigger] ch2[k]) by {
        if k < p {
            assert(ch2[k] == ch[k] && pre.slot_used(ch[k]));
        } else if k > p {
            assert(ch2[k] == ch[k - 1] && pre.slot_used(ch[k - 1]));
        }
    }
    assert forall|a: int, b: int| 0 <= a < b < ch2.len() implies ch2[a] != ch2[b] by {
        if b < p {
        } else if a < p && b == p {
            assert(ch2[a] == ch[a] && pre.slot_used(ch[a]));
        } else if a == p {
            assert(ch2[b] == ch[b - 1] && pre.slot_used(ch[b - 1]));
        } else if a > p {
            assert(ch2[a] == ch[a - 1] && ch2[b] == ch[b - 1]);
        } else {
            assert(ch2[a] == ch[a] && ch2[b] == ch[b - 1]);
        }
    }
    assert forall|j: int| #[trigger] post.slot_used(j) implies ch2.contains(j) by {
        if j == ni {
            assert(ch2[p] == ni);
        } else {
            assert(pre.slot_used(j));
            assert(ch.contains(j));
            let k = choose|k: int| 0 <= k < ch.len() && ch[k] == j;
            if k < p {
                assert(ch2[k] == j);
            } else {
                assert(ch2[k + 1] == j);
            }
        }
    }
    assert forall|k: int|
        0 <= k < ch2.len() - 1 implies post.next_of(#[trigger] ch2[k]) == Some(
        ch2[k + 1] as usize,
    ) by {
        if k < p - 1 {
            assert(ch2[k] == ch[k] && ch2[k + 1] == ch[k + 1]);
            assert(pre.next_of(ch[k]) == Some(ch[k + 1] as usize));
        } else if k == p - 1 {
            assert(ch2[k] == ch[k] && ch2[k + 1] == ni);
            assert(l == LinkId::After(ch[p - 1] as usize));
        } else if k == p {
            assert(ch2[k] == ni && ch2[k + 1] == ch[p]);
            assert(post.next_of(ni) == pre.target_of(l));
        } else {
            assert(ch2[k] == ch[k - 1] && ch2[k + 1] == ch[k]);
            assert(pre.next_of(ch[k - 1]) == Some(ch[k] as usize));
        }
    }
    if ch2.len() > 0 {
        let last = ch2.len() - 1;
        if p == ch.len() {
            assert(ch2[last] == ni);
        } else {
            assert(ch2[last] == ch[ch.len() - 1]);
            assert(pre.next_of(ch[ch.len() - 1]) is None);
        }
        assert(post.next_of(ch2[last]) is None);
    }
    assert forall|k: int|
        1 <= k < ch2.len() implies post.back_of(#[trigger] ch2[k]) == LinkId::After(
        ch2[k - 1] as usize,
    ) by {
        if k < p {
            assert(ch2[k] == ch[k] && ch2[k - 1] == ch[k - 1]);
            assert(pre.back_of(ch[k]) == LinkId::After(ch[k - 1] as usize));
        } else if k == p {
            assert(ch2[k] == ni && ch2[k - 1] == ch[p - 1]);
            assert(l == LinkId::After(ch[p - 1] as usize));
        } else if k == p + 1 {
            assert(ch2[k] == ch[p] && ch2[k - 1] == ni);
            assert(pre.target_of(l) == Some(ch[p] as usize));
        } else {
            assert(ch2[k] == ch[k - 1] && ch2[k - 1] == ch[k - 2]);
            assert(pre.back_of(ch[k - 1]) == LinkId::After(ch[k - 2] as usize));
        }
    }
    if ch2.len() > 0 {
        if p == 0 {
            assert(ch2[0] == ni);
        } else {
            assert(ch2[0] == ch[0]);
        }
        assert(post.back_of(ch2[0]) == LinkId::Head);
        assert(post.head_link() == Some(ch2[0] as usize));
    }
    assert(post.wf());
    post.lemma_pos_of(ni);
    assert(ch2[p] == ni);
}

/// Splicing one slot into a chain at `p` splits the value sequence at the
/// seam; the payloads of the original slots may be read from either list,
/// as long as the two agree on them.
proof fn lemma_vals_in_splice<T>(
    pre: TailList<T>,
    post: TailList<T>,
    ch: Seq<int>,
    p: int,
    ni: int,
)
    requires
        0 <= p <= ch.len(),
        forall|k: int| 0 <= k < ch.len() ==> post.val_of(#[trigger] ch[k]) == pre.val_of(ch[k]),
    ensures
        pre.vals_in(ch) == pre.vals_in(ch.take(p)) + pre.vals_in(ch.skip(p)),
        post.vals_in(ch.insert(p, ni)) == pre.vals_in(ch.take(p)) + post.vals_in(seq![ni])
            + pre.vals_in(ch.skip(p)),
        post.vals_in(ch.insert(p, ni).skip(p + 1)) == pre.vals_in(ch.skip(p)),
{
    let front = ch.take(p);
    let back = ch.skip(p);
    let ch2 = ch.insert(p, ni);
    assert(ch =~= front + back);
    assert(ch2 =~= front + seq![ni] + back);
    pre.lemma_vals_in_concat(front, back);
    post.lemma_vals_in_concat(front + seq![ni], back);
    post.lemma_vals_in_concat(front, seq![ni]);
    assert forall|k: int|
        0 <= k < front.len() implies post.val_of(#[trigger] front[k]) == pre.val_of(front[k]) by {
        assert(front[k] == ch[k]);
    }
    pre.lemma_vals_in_agree(post, front);
    assert forall|k: int|
        0 <= k < back.len() implies post.val_of(#[trigger] back[k]) == pre.val_of(back[k]) by {
        assert(back[k] == ch[k + p]);
    }
    pre.lemma_vals_in_agree(post, back);
    assert(ch2.skip(p + 1) =~= back);
}

/// The value sequence after `insert_at`: a payload lands exactly at the
/// link's value position; a sentinel leaves the values untouched.  The new
/// node's suffix is exactly what link `l` owned before.
#[verifier::rlimit(100)]
proof fn lemma_insert_at_post<T>(
    pre: TailList<T>,
    post: TailList<T>,
    l: LinkId,
    ni: int,
    gval: Option<T>,
)
    requires
        pre.wf(),
        pre.link_ok(l),
        insert_frame(pre, post, l, ni),
        post.val_of(ni) == gval,
    ensures
        post.wf(),
        post.pos_of(ni) == pre.insert_pos(l),
        match gval {
            Some(v) => post.values() == pre.values().insert(pre.val_insert_pos(l), v),
            None => post.values() == pre.values(),
        },
        post.suffix_vals(ni) == pre.link_suffix(l),
{
    let ch = pre.chain();
    let p = pre.insert_pos(l);
    pre.lemma_link_target(l);
    lemma_insert_wf(pre, post, l, ni);
    assert forall|k: int|
        0 <= k < ch.len() implies post.val_of(#[trigger] ch[k]) == pre.val_of(ch[k]) by {
        assert(pre.slot_used(ch[k]));
    }
    lemma_vals_in_splice(pre, post, ch, p, ni);
    post.lemma_vals_in_singleton(ni);
    match gval {
        Some(v) => {
            lemma_seq_insert_concat(pre.vals_in(ch.take(p)), pre.vals_in(ch.skip(p)), v);
            assert(post.values() == pre.values().insert(pre.val_insert_pos(l), v));
        },
        None => {
            assert(post.values() == pre.values());
        },
    }
    assert(post.suffix_vals(ni) == pre.link_suffix(l));
}


impl<T> TailList<T> {
    /// `vals_in` distributes over concatenation of chains.
    proof fn lemma_vals_in_concat(self, a: Seq<int>, b: Seq<int>)
        ensures
            self.vals_in(a + b) == self.vals_in(a) + self.vals_in(b),
        decreases a.len(),
    {
        if a.len() == 0 {
            assert(a + b =~= b);
            assert(self.vals_in(a) + self.vals_in(b) =~= self.vals_in(b));
        } else {
            let ab = a + b;
            assert(ab[0] == a[0]);
            assert(ab.subrange(1, ab.len() as int) =~= a.subrange(1, a.len() as int) + b);
            self.lemma_vals_in_concat(a.subrange(1, a.len() as int), b);
            match self.val_of(a[0]) {
                Some(v) => {
                    assert(self.vals_in(a) + self.vals_in(b) =~= seq![v] + (self.vals_in(
                        a.subrange(1, a.len() as int),
                    ) + self.vals_in(b)));
                },
                None => {},
            }
        }
    }

    /// `vals_in` over a one-slot chain.
    proof fn lemma_vals_in_singleton(self, i: int)
        ensures
            self.vals_in(seq![i]) == match self.val_of(i) {
                Some(v) => seq![v],
                None => Seq::<T>::empty(),
            },
    {
        let s = seq![i];
        assert(s.subrange(1, 1) =~= Seq::<int>::empty());
        assert(self.vals_in(s.subrange(1, 1)) =~= Seq::<T>::empty());
        match self.val_of(i) {
            Some(v) => {
                assert(self.vals_in(s) =~= seq![v]);
            },
            None => {},
        }
    }

    /// `vals_in` only reads the payloads of the slots in the chain, so two
    /// lists that agree on those payloads agree on the result.
    proof fn lemma_vals_in_agree(self, other: TailList<T>, ch: Seq<int>)
        requires
            forall|j: int| 0 <= j < ch.len() ==> other.val_of(#[trigger] ch[j]) == self.val_of(
                ch[j],
            ),
        ensures
            other.vals_in(ch) == self.vals_in(ch),
        decreases ch.len(),
    {
        if ch.len() > 0 {
            let rest = ch.subrange(1, ch.len() as int);
            assert(forall|j: int|
                0 <= j < rest.len() ==> other.val_of(#[trigger] rest[j]) == self.val_of(rest[j]));
            self.lemma_vals_in_agree(other, rest);
        }
    }

    /// In a well-formed list every live slot has exactly one chain position,
    /// and `pos_of` names it.
    proof fn lemma_pos_of(self, i: int)
        requires
            self.wf(),
            self.slot_used(i),
        ensures
            0 <= self.pos_of(i) < self.chain().len(),
            self.chain()[self.pos_of(i)] == i,
            forall|j: int| 0 <= j < self.chain().len() && self.chain()[j] == i ==> j == self.pos_of(
                i,
            ),
    {
        let ch = self.chain();
        assert(ch.contains(i));
        let w = choose|j: int| 0 <= j < ch.len() && ch[j] == i;
        assert(0 <= self.pos_of(i) < ch.len() && ch[self.pos_of(i)] == i);
        assert forall|j: int| 0 <= j < ch.len() && ch[j] == i implies j == self.pos_of(i) by {
            let p = self.pos_of(i);
            if j < p {
                assert(ch[j] != ch[p]);
            } else if p < j {
                assert(ch[p] != ch[j]);
            }
        }
    }

    /// Reads the link fields of a live node.
    fn get_node_links(&self, i: usize) -> (r: NodeLinks)
        requires
            self.slot_used(i as int),
        ensures
            r.next == self.next_of(i as int),
            r.back == self.back_of(i as int),
    {
        self.links[i].unwrap()
    }

    /// Is the node in slot `i` value-bearing?
    fn has_value(&self, i: usize) -> (r: bool)
        requires
            self.slot_used(i as int),
            self.n_val_slots() == self.n_slots(),
        ensures
            r == (self.val_of(i as int) is Some),
    {
        self.vals[i].is_some()
    }

    /// Overwrites the back-link of the live node in slot `i`.
    fn set_back(&mut self, i: usize, b: LinkId)
        requires
            old(self).slot_used(i as int),
        ensures
            final(self).n_slots() == old(self).n_slots(),
            final(self).n_val_slots() == old(self).n_val_slots(),
            final(self).head_link() == old(self).head_link(),
            final(self).chain() == old(self).chain(),
            forall|j: int|
                #![trigger final(self).slot_used(j)]
                #![trigger old(self).slot_used(j)]
                final(self).slot_used(j) <==> old(self).slot_used(j),
            forall|j: int|
                #![trigger final(self).val_of(j)]
                #![trigger old(self).val_of(j)]
                final(self).val_of(j) == old(self).val_of(j),
            forall|j: int|
                j != i && old(self).slot_used(j) ==> final(self).next_of(j) == old(self).next_of(j)
                    && final(self).back_of(j) == old(self).back_of(j),
            final(self).next_of(i as int) == old(self).next_of(i as int),
            final(self).back_of(i as int) == b,
    {
        let nl = self.links[i].unwrap();
        self.links.set(i, Some(NodeLinks { next: nl.next, back: b }));
    }

    /// Reads the node a link slot owns, if any.
    fn link_target(&self, l: LinkId) -> (r: Option<usize>)
        requires
            self.link_ok(l),
        ensures
            r == self.target_of(l),
    {
        match l {
            LinkId::Head => self.head,
            LinkId::After(i) => self.links[i].unwrap().next,
        }
    }

    /// Points link slot `l` at `t` (the back-link of `t` is not touched;
    /// see `fixup_owning_link`).
    fn set_link_target(&mut self, l: LinkId, t: Option<usize>)
        requires
            old(self).link_ok(l),
        ensures
            final(self).n_slots() == old(self).n_slots(),
            final(self).n_val_slots() == old(self).n_val_slots(),
            final(self).chain() == old(self).chain(),
            forall|j: int|
                #![trigger final(self).slot_used(j)]
                #![trigger old(self).slot_used(j)]
                final(self).slot_used(j) <==> old(self).slot_used(j),
            forall|j: int|
                #![trigger final(self).val_of(j)]
                #![trigger old(self).val_of(j)]
                final(self).val_of(j) == old(self).val_of(j),
            forall|j: int|
                old(self).slot_used(j) ==> final(self).back_of(j) == old(self).back_of(j),
            final(self).target_of(l) == t,
            match l {
                LinkId::Head => (forall|j: int|
                    old(self).slot_used(j) ==> final(self).next_of(j) == old(self).next_of(j))
                    && final(self).head_link() == t,
                LinkId::After(i) => final(self).head_link() == old(self).head_link() && forall|
                    j: int,
                |
                    j != i && old(self).slot_used(j) ==> final(self).next_of(j) == old(self).next_of(j),
            },
    {
        match l {
            LinkId::Head => {
                self.head = t;
            },
            LinkId::After(i) => {
                let nl = self.links[i].unwrap();
                self.links.set(i, Some(NodeLinks { next: t, back: nl.back }));
            },
        }
    }

    /// The fixup step: if link `l` owns a node, make that node's back-link
    /// name `l`.  Called after every edit of a link's target.
    fn fixup_owning_link(&mut self, l: LinkId)
        requires
            old(self).link_ok(l),
            match old(self).target_of(l) {
                Some(t) => old(self).slot_used(t as int),
                None => true,
            },
        ensures
            final(self).n_slots() == old(self).n_slots(),
            final(self).n_val_slots() == old(self).n_val_slots(),
            final(self).head_link() == old(self).head_link(),
            final(self).chain() == old(self).chain(),
            forall|j: int|
                #![trigger final(self).slot_used(j)]
                #![trigger old(self).slot_used(j)]
                final(self).slot_used(j) <==> old(self).slot_used(j),
            forall|j: int|
                #![trigger final(self).val_of(j)]
                #![trigger old(self).val_of(j)]
                final(self).val_of(j) == old(self).val_of(j),
            forall|j: int|
                old(self).slot_used(j) ==> final(self).next_of(j) == old(self).next_of(j),
            match old(self).target_of(l) {
                Some(t) => final(self).back_of(t as int) == l && forall|j: int|
                    j != t && old(self).slot_used(j) ==> final(self).back_of(j) == old(self).back_of(j),
                None => forall|j: int|
                    old(self).slot_used(j) ==> final(self).back_of(j) == old(self).back_of(j),
            },
    {
        let t_opt = self.link_target(l);
        match t_opt {
            Some(t) => self.set_back(t, l),
            None => (),
        }
    }

    /// In a well-formed list, the node a link owns is the chain element
    /// right at the link's insertion position.
    proof fn lemma_link_target(self, l: LinkId)
        requires
            self.wf(),
            self.link_ok(l),
        ensures
            0 <= self.insert_pos(l) <= self.chain().len(),
            self.insert_pos(l) < self.chain().len() ==> self.target_of(l) == Some(
                self.chain()[self.insert_pos(l)] as usize,
            ),
            self.insert_pos(l) == self.chain().len() ==> self.target_of(l) is None,
    {
        let ch = self.chain();
        let p = self.insert_pos(l);
        match l {
            LinkId::Head => {
                if ch.len() > 0 {
                    assert(self.head_link() == Some(ch[0] as usize));
                }
            },
            LinkId::After(i) => {
                self.lemma_pos_of(i as int);
                let q = self.pos_of(i as int);
                assert(ch[q] == i as int);
                if q < ch.len() - 1 {
                    assert(self.next_of(ch[q]) == Some(ch[q + 1] as usize));
                } else {
                    assert(self.next_of(ch[ch.len() - 1]) is None);
                }
            },
        }
    }

    /// Inserts a new node directly after link `l`: the new node takes over
    /// whatever `l` owned, `l` is pointed at the new node, and the back-link
    /// of the displaced node is fixed up.  Returns the new node's slot.
    #[verifier::rlimit(100)]
    fn insert_at(&mut self, l: LinkId, val: Option<T>) -> (n: usize)
        requires
            old(self).wf(),
            old(self).link_ok(l),
        ensures
            final(self).wf(),
            n as int == old(self).n_slots(),
            final(self).n_slots() == old(self).n_slots() + 1,
            final(self).chain() == old(self).chain().insert(old(self).insert_pos(l), n as int),
            final(self).slot_used(n as int),
            final(self).val_of(n as int) == val,
            final(self).pos_of(n as int) == old(self).insert_pos(l),
            forall|j: int|
                old(self).slot_used(j) ==> final(self).slot_used(j) && final(self).val_of(j)
                    == old(self).val_of(j),
            forall|j: int|
                0 <= j < old(self).n_slots() && !old(self).slot_used(j) ==> !final(self).slot_used(
                    j,
                ),
            match val {
                Some(v) => final(self).values() == old(self).values().insert(
                    old(self).val_insert_pos(l),
                    v,
                ),
                None => final(self).values() == old(self).values(),
            },
            final(self).suffix_vals(n as int) == old(self).link_suffix(l),
    {
        let ghost pre = *old(self);
        let ghost ch = pre.chain();
        let ghost p = pre.insert_pos(l);
        let ghost gval = val;
        proof {
            pre.lemma_link_target(l);
        }
        let n = self.links.len();
        let t_opt = self.link_target(l);
        proof {
            assert(!pre.slot_used(n as int));
        }
        self.vals.push(val);
        self.links.push(Some(NodeLinks { next: t_opt, back: l }));
        proof {
            assert(pre.vals@.len() == pre.links@.len());
            assert(self.val_of(n as int) == gval);
            assert(self.slot_used(n as int));
            assert(forall|j: int|
                pre.slot_used(j) ==> self.slot_used(j) && self.val_of(j) == pre.val_of(j)
                    && self.next_of(j) == pre.next_of(j) && self.back_of(j) == pre.back_of(j));
            assert forall|j: int|
                0 <= j < pre.n_slots() && !pre.slot_used(j) implies !self.slot_used(j)
                && self.val_of(j) is None by {
                assert(pre.val_of(j) is None);
                assert(self.val_of(j) == pre.val_of(j));
            }
        }
        self.set_link_target(l, Some(n));
        proof {
            assert(forall|j: int|
                pre.slot_used(j) ==> self.slot_used(j) && self.val_of(j) == pre.val_of(j));
        }
        self.order = Ghost(ch.insert(p, n as int));
        match t_opt {
            Some(t) => {
                proof {
                    assert(p < ch.len());
                    assert(t as int == ch[p]);
                    assert(pre.slot_used(ch[p]));
                    assert(self.slot_used(t as int));
                }
                self.fixup_owning_link(LinkId::After(n));
            },
            None => (),
        }
        proof {
            let post = *self;
            let ni = n as int;
            assert(self.links.len() == pre.n_slots() + 1);
            assert(post.val_of(ni) == gval);
            assert(post.slot_used(ni));
            assert(post.next_of(ni) == t_opt);
            assert(post.back_of(ni) == l);
            assert(forall|j: int|
                pre.slot_used(j) ==> post.slot_used(j) && post.val_of(j) == pre.val_of(j));
            assert(forall|j: int|
                0 <= j < pre.n_slots() && !pre.slot_used(j) ==> !post.slot_used(j) && post.val_of(
                    j,
                ) is None);
            assert(insert_frame(pre, post, l, ni));
            lemma_insert_at_post(pre, post, l, ni, gval);
        }
        n
    }

    /// One step of a cursor's walk: if the sentinel in slot `d` has a
    /// successor, the two swap places; returns the successor's slot and
    /// whether it carries a value.  Returns nothing, and changes nothing,
    /// exactly when the sentinel is last in the list.
    #[verifier::rlimit(100)]
    fn cursor_step(&mut self, d: usize) -> (r: Option<(usize, bool)>)
        requires
            old(self).wf(),
            old(self).is_sentinel(d as int),
        ensures
            final(self).wf(),
            final(self).is_sentinel(d as int),
            final(self).n_slots() == old(self).n_slots(),
            final(self).chain().len() == old(self).chain().len(),
            forall|j: int|
                #![trigger final(self).slot_used(j)]
                final(self).slot_used(j) <==> old(self).slot_used(j),
            forall|j: int|
                #![trigger final(self).val_of(j)]
                final(self).val_of(j) == old(self).val_of(j),
            final(self).values() == old(self).values(),
            match r {
                None => final(self).suffix_vals(d as int) == old(self).suffix_vals(d as int)
                    && old(self).suffix_vals(d as int).len() == 0 && final(self).pos_of(d as int)
                    == old(self).pos_of(d as int),
                Some((b, has_val)) => {
                    &&& final(self).slot_used(b as int)
                    &&& has_val == (final(self).val_of(b as int) is Some)
                    &&& final(self).pos_of(d as int) == old(self).pos_of(d as int) + 1
                    &&& old(self).suffix_vals(d as int) == (if has_val {
                        seq![final(self).val_of(b as int)->0] + final(self).suffix_vals(d as int)
                    } else {
                        final(self).suffix_vals(d as int)
                    })
                    &&& final(self).suffix_vals(b as int) == final(self).suffix_vals(d as int)
                },
            },
    {
        let ghost pre = *old(self);
        let ghost ch = pre.chain();
        let ghost p = pre.pos_of(d as int);
        proof {
            pre.lemma_pos_of(d as int);
        }
        let nl = self.get_node_links(d);
        match nl.next {
            None => {
                proof {
                    // The sentinel is last: nothing remains after it.
                    assert(p == ch.len() - 1) by {
                        if p < ch.len() - 1 {
                            assert(pre.next_of(ch[p]) == Some(ch[p + 1] as usize));
                        }
                    }
                    assert(ch.skip(p + 1) =~= Seq::<int>::empty());
                    assert(pre.suffix_vals(d as int) =~= Seq::<T>::empty());
                }
                None
            },
            Some(b) => {
                proof {
                    assert(p < ch.len() - 1 && ch[p + 1] == b as int) by {
                        if p == ch.len() - 1 {
                            assert(pre.next_of(ch[ch.len() - 1]) is None);
                        }
                        assert(pre.next_of(ch[p]) == Some(ch[p + 1] as usize));
                    }
                    assert(pre.slot_used(b as int));
                }
                self.swap_places(d, b);
                let has_val = self.has_value(b);
                Some((b, has_val))
            },
        }
    }

    /// Unlinks the node in slot `i` from the list and returns its payload:
    /// the link owning the node is repointed at whatever followed it, the
    /// follower's back-link is fixed up, and the slot is freed.
    #[verifier::rlimit(100)]
    fn unlink(&mut self, i: usize) -> (r: Option<T>)
        requires
            old(self).wf(),
            old(self).slot_used(i as int),
        ensures
            final(self).wf(),
            r == old(self).val_of(i as int),
            final(self).n_slots() == old(self).n_slots(),
            final(self).chain() == old(self).chain().remove(old(self).pos_of(i as int)),
            !final(self).slot_used(i as int),
            forall|j: int|
                j != i as int && old(self).slot_used(j) ==> final(self).slot_used(j) && final(self).val_of(j) == old(self).val_of(j),
            forall|j: int| !old(self).slot_used(j) ==> !final(self).slot_used(j),
            match old(self).val_of(i as int) {
                Some(v) => final(self).values() == old(self).values().remove(
                    old(self).val_pos(i as int),
                ) && old(self).values()[old(self).val_pos(i as int)] == v && 0 <= old(self).val_pos(i as int) < old(self).values().len(),
                None => final(self).values() == old(self).values(),
            },
    {
        let ghost pre = *old(self);
        let ghost ch = pre.chain();
        let ghost p = pre.pos_of(i as int);
        proof {
            pre.lemma_pos_of(i as int);
            pre.lemma_back_link_invariant(p);
            if p + 1 < ch.len() {
                assert(pre.next_of(ch[p]) == Some(ch[p + 1] as usize));
                assert(pre.slot_used(ch[p + 1]));
            } else {
                assert(pre.next_of(ch[ch.len() - 1]) is None);
            }
            if p > 0 {
                assert(pre.slot_used(ch[p - 1]));
            }
        }
        let nl = self.get_node_links(i);
        // Repoint the owning link past the node and fix up the follower.
        self.set_link_target(nl.back, nl.next);
        self.fixup_owning_link(nl.back);
        // Free the slot and take the payload out.
        let mut r: Option<T> = None;
        self.vals.set_and_swap(i, &mut r);
        self.links.set(i, None);
        self.order = Ghost(ch.remove(p));
        proof {
            let post = *self;
            assert(post.chain() == ch.remove(p));
            assert(!post.slot_used(i as int));
            assert(post.val_of(i as int) is None);
            assert(post.n_slots() == pre.n_slots());
            assert(post.n_val_slots() == pre.n_val_slots());
            assert(forall|j: int|
                #![trigger post.slot_used(j)]
                j != i as int ==> (post.slot_used(j) <==> pre.slot_used(j)));
            assert(forall|j: int|
                #![trigger post.val_of(j)]
                0 <= j < pre.n_slots() && j != i as int ==> post.val_of(j) == pre.val_of(j));
            assert(unlink_frame(pre, post, i as int));
            lemma_unlink_post(pre, post, i as int);
        }
        r
    }

    /// Exchanges the places of the sentinel in slot `a` and its immediate
    /// successor in slot `b`: afterwards `b` occupies the sentinel's old
    /// chain position and the sentinel sits right after it.  The two
    /// owning links and the two forward links are exchanged and all four
    /// affected back-links fixed up.  The cursor walks forward this way;
    /// swapping non-adjacent pairs is unsupported.
    #[verifier::rlimit(100)]
    fn swap_places(&mut self, a: usize, b: usize)
        requires
            old(self).wf(),
            old(self).slot_used(a as int),
            old(self).val_of(a as int) is None,
            old(self).next_of(a as int) == Some(b),
        ensures
            final(self).wf(),
            final(self).n_slots() == old(self).n_slots(),
            final(self).chain().len() == old(self).chain().len(),
            forall|j: int|
                #![trigger final(self).slot_used(j)]
                final(self).slot_used(j) <==> old(self).slot_used(j),
            forall|j: int|
                #![trigger final(self).val_of(j)]
                final(self).val_of(j) == old(self).val_of(j),
            final(self).values() == old(self).values(),
            final(self).pos_of(b as int) == old(self).pos_of(a as int),
            final(self).pos_of(a as int) == old(self).pos_of(a as int) + 1,
            old(self).suffix_vals(a as int) == (match old(self).val_of(b as int) {
                Some(v) => seq![v] + final(self).suffix_vals(a as int),
                None => final(self).suffix_vals(a as int),
            }),
            final(self).suffix_vals(b as int) == final(self).suffix_vals(a as int),
    {
        let ghost pre = *old(self);
        let ghost ch = pre.chain();
        let ghost p = pre.pos_of(a as int);
        proof {
            pre.lemma_pos_of(a as int);
            pre.lemma_back_link_invariant(p);
            assert(p < ch.len() - 1 && ch[p + 1] == b as int) by {
                if p == ch.len() - 1 {
                    assert(pre.next_of(ch[ch.len() - 1]) is None);
                }
                assert(pre.next_of(ch[p]) == Some(ch[p + 1] as usize));
                assert(pre.slot_used(ch[p + 1]));
            }
            if p + 2 < ch.len() {
                assert(pre.next_of(ch[p + 1]) == Some(ch[p + 2] as usize));
                assert(pre.slot_used(ch[p + 2]));
            } else {
                assert(pre.next_of(ch[ch.len() - 1]) is None);
            }
            if p > 0 {
                assert(pre.slot_used(ch[p - 1]));
            }
        }
        let la_back = self.get_node_links(a).back;
        let lb_next = self.get_node_links(b).next;
        // Exchange the two owning-link targets and the two forward links.
        self.set_link_target(la_back, Some(b));
        self.set_link_target(LinkId::After(b), Some(a));
        self.set_link_target(LinkId::After(a), lb_next);
        self.order = Ghost(ch.update(p, b as int).update(p + 1, a as int));
        // Fix up the back-links at all affected edges.
        self.fixup_owning_link(la_back);
        self.fixup_owning_link(LinkId::After(b));
        self.fixup_owning_link(LinkId::After(a));
        proof {
            let post = *self;
            assert(post.next_of(b as int) == Some(a));
            assert(post.back_of(a as int) == LinkId::After(b));
            assert(post.next_of(a as int) == lb_next);
            assert(post.back_of(b as int) == la_back);
            assert(swap_frame(pre, post, a as int, b as int));
            lemma_swap_post(pre, post, a as int, b as int);
        }
    }

    /// Pushes a new element to the front of the list.
    pub fn push(&mut self, val: T)
        requires
            old(self).wf(),
        ensures
            final(self).wf(),
            final(self).values() == seq![val] + old(self).values(),
            final(self).n_slots() == old(self).n_slots() + 1,
            final(self).is_value_node(old(self).n_slots()),
            forall|j: int|
                old(self).slot_used(j) ==> final(self).slot_used(j) && final(self).val_of(j)
                    == old(self).val_of(j),
    {
        let ghost pre = *old(self);
        let n = self.insert_at(LinkId::Head, Some(val));
        proof {
            assert(pre.chain().take(0) =~= Seq::<int>::empty());
            assert(pre.vals_in(Seq::<int>::empty()) == Seq::<T>::empty());
            assert(pre.val_insert_pos(LinkId::Head) == 0);
            assert(pre.values().insert(0, val) =~= seq![val] + pre.values());
        }
    }

    /// Returns a cursor over all elements of this list, anchored at the
    /// head: its sentinel is inserted at position zero.
    pub fn cursor(&mut self) -> (c: Cursor)
        requires
            old(self).wf(),
        ensures
            final(self).wf(),
            final(self).is_sentinel(c.marker()),
            c.marker() == old(self).n_slots(),
            final(self).n_slots() == old(self).n_slots() + 1,
            final(self).values() == old(self).values(),
            final(self).suffix_vals(c.marker()) == old(self).values(),
            forall|j: int|
                old(self).slot_used(j) ==> final(self).slot_used(j) && final(self).val_of(j)
                    == old(self).val_of(j),
    {
        let ghost pre = *old(self);
        let c = Cursor::new(self, LinkId::Head);
        proof {
            assert(pre.chain().skip(0) =~= pre.chain());
        }
        c
    }

    /// The back-link invariant: in a well-formed list, every node of the
    /// chain is owned by exactly the link its back-link names.  Every
    /// mutating operation of the list ensures `wf`, so this holds after
    /// each of them.
    /// The owning link of a live node inserts exactly at the node's own
    /// chain position: what `insert_before` relies on.
    proof fn lemma_insert_pos_of_back(self, i: int)
        requires
            self.wf(),
            self.slot_used(i),
        ensures
            self.link_ok(self.back_of(i)),
            self.insert_pos(self.back_of(i)) == self.pos_of(i),
            self.val_insert_pos(self.back_of(i)) == self.val_pos(i),
    {
        let ch = self.chain();
        self.lemma_pos_of(i);
        let p = self.pos_of(i);
        self.lemma_back_link_invariant(p);
        if p == 0 {
            assert(self.back_of(ch[0]) == LinkId::Head);
        } else {
            assert(self.back_of(ch[p]) == LinkId::After(ch[p - 1] as usize));
            assert(self.slot_used(ch[p - 1]));
            self.lemma_pos_of(ch[p - 1]);
            assert(self.pos_of(ch[p - 1]) == p - 1);
        }
    }

    /// A node's forward link inserts directly after the node: what
    /// `insert_after` relies on.  For a value-bearing node the new value
    /// position is one past the node's own.
    proof fn lemma_insert_pos_after(self, i: int)
        requires
            self.wf(),
            self.is_value_node(i),
        ensures
            self.insert_pos(LinkId::After(i as usize)) == self.pos_of(i) + 1,
            self.val_insert_pos(LinkId::After(i as usize)) == self.val_pos(i) + 1,
    {
        let ch = self.chain();
        self.lemma_pos_of(i);
        let p = self.pos_of(i);
        assert(i as usize as int == i);
        assert(ch.take(p + 1) =~= ch.take(p) + seq![i]);
        self.lemma_vals_in_concat(ch.take(p), seq![i]);
        self.lemma_vals_in_singleton(i);
    }

    pub proof fn lemma_back_link_invariant(self, j: int)
        requires
            self.wf(),
            0 <= j < self.chain().len(),
        ensures
            self.link_ok(self.back_of(self.chain()[j])),
            self.target_of(self.back_of(self.chain()[j])) == Some(self.chain()[j] as usize),
    {
        let ch = self.chain();
        assert(self.slot_used(ch[j]));
        if j == 0 {
            assert(self.back_of(ch[0]) == LinkId::Head);
            assert(self.head_link() == Some(ch[0] as usize));
        } else {
            assert(self.slot_used(ch[j - 1]));
            assert(self.back_of(ch[j]) == LinkId::After(ch[j - 1] as usize));
            assert(self.next_of(ch[j - 1]) == Some(ch[j] as usize));
        }
    }

    /// Creates a new empty list: one head link owning nothing.
    pub fn new() -> (l: TailList<T>)
        ensures
            l.wf(),
            l.values() == Seq::<T>::empty(),
            l.chain() == Seq::<int>::empty(),
            l.n_slots() == 0,
    {
        TailList { head: None, links: Vec::new(), vals: Vec::new(), order: Ghost(Seq::empty()) }
    }
}

impl ValRef {
    /// Reads the value of the node this handle refers to.
    pub fn get<'a, T>(&self, list: &'a TailList<T>) -> (r: &'a T)
        requires
            list.wf(),
            list.is_value_node(self.node()),
        ensures
            list.val_of(self.node()) == Some(*r),
    {
        list.vals[self.node].as_ref().unwrap()
    }

    /// Inserts a new element directly before this one and returns a
    /// passive handle to it.  In the value sequence the new value lands
    /// exactly at this node's value position, and every other node keeps
    /// its place and payload.
    pub fn insert_before<T>(&self, list: &mut TailList<T>, val: T) -> (r: ValRef)
        requires
            old(list).wf(),
            old(list).is_value_node(self.node()),
        ensures
            final(list).wf(),
            final(list).n_slots() == old(list).n_slots() + 1,
            r.node() == old(list).n_slots(),
            final(list).is_value_node(r.node()),
            final(list).val_of(r.node()) == Some(val),
            final(list).values() == old(list).values().insert(
                old(list).val_pos(self.node()),
                val,
            ),
            final(list).is_value_node(self.node()),
            final(list).val_of(self.node()) == old(list).val_of(self.node()),
            forall|j: int|
                old(list).slot_used(j) ==> final(list).slot_used(j) && final(list).val_of(j)
                    == old(list).val_of(j),
    {
        proof {
            old(list).lemma_insert_pos_of_back(self.node as int);
        }
        let nl = list.get_node_links(self.node);
        let n = list.insert_at(nl.back, Some(val));
        ValRef { node: n }
    }

    /// Inserts a new element directly after this one and returns a
    /// passive handle to it.  In the value sequence the new value lands
    /// one past this node's value position.
    pub fn insert_after<T>(&self, list: &mut TailList<T>, val: T) -> (r: ValRef)
        requires
            old(list).wf(),
            old(list).is_value_node(self.node()),
        ensures
            final(list).wf(),
            final(list).n_slots() == old(list).n_slots() + 1,
            r.node() == old(list).n_slots(),
            final(list).is_value_node(r.node()),
            final(list).val_of(r.node()) == Some(val),
            final(list).values() == old(list).values().insert(
                old(list).val_pos(self.node()) + 1,
                val,
            ),
            final(list).is_value_node(self.node()),
            final(list).val_of(self.node()) == old(list).val_of(self.node()),
            forall|j: int|
                old(list).slot_used(j) ==> final(list).slot_used(j) && final(list).val_of(j)
                    == old(list).val_of(j),
    {
        proof {
            old(list).lemma_insert_pos_after(self.node as int);
        }
        let n = list.insert_at(LinkId::After(self.node), Some(val));
        ValRef { node: n }
    }

    /// Removes this element from the list, consuming the handle, and
    /// returns its value.  Exactly that value leaves the value sequence;
    /// every other node keeps its place and payload, so the list is one
    /// element shorter.
    pub fn remove<T>(self, list: &mut TailList<T>) -> (v: T)
        requires
            old(list).wf(),
            old(list).is_value_node(self.node()),
        ensures
            final(list).wf(),
            Some(v) == old(list).val_of(self.node()),
            0 <= old(list).val_pos(self.node()) < old(list).values().len(),
            old(list).values()[old(list).val_pos(self.node())] == v,
            final(list).values() == old(list).values().remove(old(list).val_pos(self.node())),
            final(list).n_slots() == old(list).n_slots(),
            !final(list).slot_used(self.node()),
            forall|j: int|
                j != self.node() && old(list).slot_used(j) ==> final(list).slot_used(j)
                    && final(list).val_of(j) == old(list).val_of(j),
    {
        let r = list.unlink(self.node);
        r.unwrap()
    }
}

impl TailValRef {
    /// Reads the value of the node this handle refers to.
    pub fn get<'a, T>(&self, list: &'a TailList<T>) -> (r: &'a T)
        requires
            list.wf(),
            list.is_value_node(self.node()),
        ensures
            list.val_of(self.node()) == Some(*r),
    {
        self.val_ref.get(list)
    }

    /// Splits this active handle: returns a cursor that owns everything
    /// after this node, by anchoring its sentinel directly behind it.
    /// This node stays readable through `self`; drain and discard the
    /// returned cursor before using `self` to mutate again.
    pub fn tail<T>(&self, list: &mut TailList<T>) -> (c: Cursor)
        requires
            old(list).wf(),
            old(list).is_value_node(self.node()),
        ensures
            final(list).wf(),
            final(list).is_sentinel(c.marker()),
            c.marker() == old(list).n_slots(),
            final(list).n_slots() == old(list).n_slots() + 1,
            final(list).values() == old(list).values(),
            final(list).suffix_vals(c.marker()) == old(list).suffix_vals(self.node()),
            final(list).is_value_node(self.node()),
            final(list).val_of(self.node()) == old(list).val_of(self.node()),
            forall|j: int|
                old(list).slot_used(j) ==> final(list).slot_used(j) && final(list).val_of(j)
                    == old(list).val_of(j),
    {
        Cursor::new(list, LinkId::After(self.val_ref.node))
    }

    /// The same split as `tail`, but consumes this handle: returns the
    /// passive handle to this node together with the cursor over the
    /// remainder.
    pub fn into_tail<T>(self, list: &mut TailList<T>) -> (r: (ValRef, Cursor))
        requires
            old(list).wf(),
            old(list).is_value_node(self.node()),
        ensures
            final(list).wf(),
            r.0.node() == self.node(),
            final(list).is_sentinel(r.1.marker()),
            r.1.marker() == old(list).n_slots(),
            final(list).n_slots() == old(list).n_slots() + 1,
            final(list).values() == old(list).values(),
            final(list).suffix_vals(r.1.marker()) == old(list).suffix_vals(self.node()),
            final(list).is_value_node(self.node()),
            final(list).val_of(self.node()) == old(list).val_of(self.node()),
            forall|j: int|
                old(list).slot_used(j) ==> final(list).slot_used(j) && final(list).val_of(j)
                    == old(list).val_of(j),
    {
        let c = Cursor::new(list, LinkId::After(self.val_ref.node));
        (self.val_ref, c)
    }

    /// Gives up the right to the tail and downgrades to a passive handle
    /// over this node alone; no sentinel is created.
    pub fn into_passive(self) -> (r: ValRef)
        ensures
            r.node() == self.node(),
    {
        self.val_ref
    }

    /// Inserts a new element directly before this one; see
    /// `ValRef::insert_before`.
    pub fn insert_before<T>(&self, list: &mut TailList<T>, val: T) -> (r: ValRef)
        requires
            old(list).wf(),
            old(list).is_value_node(self.node()),
        ensures
            final(list).wf(),
            final(list).n_slots() == old(list).n_slots() + 1,
            r.node() == old(list).n_slots(),
            final(list).is_value_node(r.node()),
            final(list).val_of(r.node()) == Some(val),
            final(list).values() == old(list).values().insert(
                old(list).val_pos(self.node()),
                val,
            ),
            final(list).is_value_node(self.node()),
            final(list).val_of(self.node()) == old(list).val_of(self.node()),
            forall|j: int|
                old(list).slot_used(j) ==> final(list).slot_used(j) && final(list).val_of(j)
                    == old(list).val_of(j),
    {
        self.val_ref.insert_before(list, val)
    }

    /// Inserts a new element directly after this one; see
    /// `ValRef::insert_after`.
    pub fn insert_after<T>(&self, list: &mut TailList<T>, val: T) -> (r: ValRef)
        requires
            old(list).wf(),
            old(list).is_value_node(self.node()),
        ensures
            final(list).wf(),
            final(list).n_slots() == old(list).n_slots() + 1,
            r.node() == old(list).n_slots(),
            final(list).is_value_node(r.node()),
            final(list).val_of(r.node()) == Some(val),
            final(list).values() == old(list).values().insert(
                old(list).val_pos(self.node()) + 1,
                val,
            ),
            final(list).is_value_node(self.node()),
            final(list).val_of(self.node()) == old(list).val_of(self.node()),
            forall|j: int|
                old(list).slot_used(j) ==> final(list).slot_used(j) && final(list).val_of(j)
                    == old(list).val_of(j),
    {
        self.val_ref.insert_after(list, val)
    }

    /// Removes this element from the list, consuming the handle; see
    /// `ValRef::remove`.
    pub fn remove<T>(self, list: &mut TailList<T>) -> (v: T)
        requires
            old(list).wf(),
            old(list).is_value_node(self.node()),
        ensures
            final(list).wf(),
            Some(v) == old(list).val_of(self.node()),
            0 <= old(list).val_pos(self.node()) < old(list).values().len(),
            old(list).values()[old(list).val_pos(self.node())] == v,
            final(list).values() == old(list).values().remove(old(list).val_pos(self.node())),
            final(list).n_slots() == old(list).n_slots(),
            !final(list).slot_used(self.node()),
            forall|j: int|
                j != self.node() && old(list).slot_used(j) ==> final(list).slot_used(j)
                    && final(list).val_of(j) == old(list).val_of(j),
    {
        self.val_ref.remove(list)
    }
}

} // verus!
