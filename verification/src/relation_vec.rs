//! small vector optimization specifically for relations
use vstd::prelude::*;

verus! {

/// Up to this many entries are kept inline.
pub const INLINE_COUNT: usize = 3;

/// The position of the first occurrence of `x` in `s`.
pub open spec fn first_index(s: Seq<u32>, x: u32) -> int {
    choose|i: int| 0 <= i < s.len() && s[i] == x && forall|j: int| 0 <= j < i ==> s[j] != x
}

/// `s` with the first occurrence of `x` taken out and the last element moved into its place;
/// `s` itself when `x` does not occur.
pub open spec fn remove_first(s: Seq<u32>, x: u32) -> Seq<u32> {
    if s.contains(x) {
        s.update(first_index(s, x), s.last()).drop_last()
    } else {
        s
    }
}

/// Any position that holds the first occurrence of `x` is `first_index`.
pub proof fn lemma_first_index(s: Seq<u32>, x: u32, i: int)
    requires
        0 <= i < s.len(),
        s[i] == x,
        forall|j: int| 0 <= j < i ==> s[j] != x,
    ensures
        first_index(s, x) == i,
{
    let k = first_index(s, x);
    assert(0 <= k < s.len() && s[k] == x && forall|j: int| 0 <= j < k ==> s[j] != x);
    if k < i {
        assert(s[k] != x);
    } else if k > i {
        assert(s[i] != x);
    }
}

/// An element that occurs has a first occurrence.
pub proof fn lemma_first_index_exists(s: Seq<u32>, x: u32)
    requires
        s.contains(x),
    ensures
        0 <= first_index(s, x) < s.len(),
        s[first_index(s, x)] == x,
        forall|j: int| 0 <= j < first_index(s, x) ==> s[j] != x,
    decreases s.len(),
{
    if s[0] == x {
        lemma_first_index(s, x, 0);
    } else {
        let t = s.subrange(1, s.len() as int);
        let k = choose|k: int| 0 <= k < s.len() && s[k] == x;
        assert(t[k - 1] == x);
        lemma_first_index_exists(t, x);
        let f = first_index(t, x);
        assert forall|j: int| 0 <= j < f + 1 implies s[j] != x by {
            if j > 0 {
                assert(s[j] == t[j - 1]);
            }
        }
        lemma_first_index(s, x, f + 1);
    }
}

/// Taking out one occurrence takes one from the count.
pub proof fn lemma_remove_first_multiset(s: Seq<u32>, x: u32)
    ensures
        remove_first(s, x).to_multiset() == s.to_multiset().remove(x),
{
    broadcast use vstd::seq_lib::group_to_multiset_ensures, vstd::multiset::group_multiset_axioms;

    if s.contains(x) {
        lemma_first_index_exists(s, x);
        let i = first_index(s, x);
        let t = s.update(i, s.last());
        assert(t.drop_last() =~= t.remove(t.len() - 1));
        assert(t[t.len() - 1] == s.last());
        assert(s.to_multiset().count(x) > 0);
        assert(remove_first(s, x).to_multiset() =~= s.to_multiset().remove(x));
    } else {
        assert(s.to_multiset().count(x) == 0);
        assert(s.to_multiset().remove(x) =~= s.to_multiset());
    }
}

/// `s` with every occurrence of `x` taken out, one after the other as `remove_first` does.
pub open spec fn remove_all(s: Seq<u32>, x: u32) -> Seq<u32>
    decreases s.len(),
{
    if s.contains(x) {
        proof {
            lemma_first_index_exists(s, x);
        }
        remove_all(remove_first(s, x), x)
    } else {
        s
    }
}

/// Law: taking every copy of `x` out a second time changes nothing; so a second
/// `remove_relation` of the same pair leaves both partner lists as the first one left them.
pub proof fn lemma_remove_all_idempotent(s: Seq<u32>, x: u32)
    ensures
        remove_all(remove_all(s, x), x) == remove_all(s, x),
{
    lemma_remove_all_counts(s, x);
}

/// Taking every copy of `x` out keeps every other id listed as it was.
pub proof fn lemma_remove_all_contains(s: Seq<u32>, x: u32, y: u32)
    requires
        y != x,
    ensures
        remove_all(s, x).contains(y) <==> s.contains(y),
{
    broadcast use vstd::seq_lib::group_to_multiset_ensures;

    lemma_remove_all_counts(s, x);
    assert(remove_all(s, x).to_multiset().count(y) == s.to_multiset().count(y));
}

/// After `remove_all`, `x` is gone and every other id is counted as before.
pub proof fn lemma_remove_all_counts(s: Seq<u32>, x: u32)
    ensures
        !remove_all(s, x).contains(x),
        remove_all(s, x).len() <= s.len(),
        forall|y: u32| #[trigger] remove_all(s, x).to_multiset().count(y) == if y == x {
            0
        } else {
            s.to_multiset().count(y)
        },
        forall|k: int| 0 <= k < remove_all(s, x).len() ==> s.contains(#[trigger] remove_all(s, x)[k]),
    decreases s.len(),
{
    broadcast use vstd::seq_lib::group_to_multiset_ensures, vstd::multiset::group_multiset_axioms;

    if s.contains(x) {
        let t = remove_first(s, x);
        lemma_first_index_exists(s, x);
        let i = first_index(s, x);
        lemma_remove_first_multiset(s, x);
        lemma_remove_all_counts(t, x);
        assert forall|k: int| 0 <= k < remove_all(s, x).len() implies s.contains(#[trigger] remove_all(s, x)[k]) by {
            let e = remove_all(s, x)[k];
            assert(t.contains(e));
            let j = choose|j: int| 0 <= j < t.len() && t[j] == e;
            if j == i {
                assert(s[s.len() - 1] == e);
            } else {
                assert(s[j] == e);
            }
        }
    } else {
        assert(s.to_multiset().count(x) == 0);
    }
}

/// The inline storage of a `RelationVec`.
pub struct RelationVecInline {
    elements: [u32; 3],
}

impl RelationVecInline {
    pub closed spec fn view(&self) -> Seq<u32> {
        self.elements@
    }

    pub fn new() -> (r: Self)
        ensures
            r@ == seq![0u32, 0u32, 0u32],
    {
        let r = RelationVecInline { elements: [0; 3] };
        proof {
            assert(r@ =~= seq![0u32, 0u32, 0u32]);
        }
        r
    }
}

enum RelationVecContent {
    Inline(RelationVecInline),
    Outline(Vec<u32>),
}

/// The entity ids related to one entity by one relation.
/// Holds up to `INLINE_COUNT` ids inline and moves them to the heap beyond that.
pub struct RelationVec {
    len: u32,
    content: RelationVecContent,
}

impl View for RelationVec {
    type V = Seq<u32>;

    closed spec fn view(&self) -> Seq<u32> {
        match self.content {
            RelationVecContent::Inline(inline) => inline@.subrange(0, self.len as int),
            RelationVecContent::Outline(v) => v@,
        }
    }
}

impl RelationVec {
    /// Inline storage holds at most `INLINE_COUNT` ids, outline storage holds more.
    pub closed spec fn wf(&self) -> bool {
        match self.content {
            RelationVecContent::Inline(inline) => self.len <= INLINE_COUNT && inline@.len() == 3,
            RelationVecContent::Outline(v) => self.len > INLINE_COUNT && v@.len() == self.len,
        }
    }

    pub fn new() -> (r: Self)
        ensures
            r.wf(),
            r@ == Seq::<u32>::empty(),
    {
        let r = RelationVec { len: 0, content: RelationVecContent::Inline(RelationVecInline::new()) };
        proof {
            assert(r@ =~= Seq::<u32>::empty());
        }
        r
    }

    pub fn len(&self) -> (r: u32)
        requires
            self.wf(),
        ensures
            r == self@.len(),
    {
        self.len
    }

    pub fn is_empty(&self) -> (r: bool)
        requires
            self.wf(),
        ensures
            r == (self@.len() == 0),
    {
        self.len == 0
    }

    /// The id at `index`.
    pub fn get(&self, index: usize) -> (r: u32)
        requires
            self.wf(),
            index < self@.len(),
        ensures
            r == self@[index as int],
    {
        match &self.content {
            RelationVecContent::Inline(inline) => inline.elements[index],
            RelationVecContent::Outline(v) => v[index],
        }
    }

    /// Overwrites the id at `index`.
    pub fn set(&mut self, index: usize, val: u32)
        requires
            old(self).wf(),
            index < old(self)@.len(),
        ensures
            final(self).wf(),
            final(self)@ == old(self)@.update(index as int, val),
    {
        match &mut self.content {
            RelationVecContent::Inline(inline) => {
                inline.elements[index] = val;
            },
            RelationVecContent::Outline(v) => {
                v.set(index, val);
            },
        }
        proof {
            assert(self@ =~= old(self)@.update(index as int, val));
        }
    }

    /// Appends an id.
    pub fn push(&mut self, new_val: u32)
        requires
            old(self).wf(),
            old(self)@.len() < u32::MAX,
        ensures
            final(self).wf(),
            final(self)@ == old(self)@.push(new_val),
    {
        let len = self.len;
        match &mut self.content {
            RelationVecContent::Inline(inline) => {
                if (len as usize) < INLINE_COUNT {
                    inline.elements[len as usize] = new_val;
                    self.len = len + 1;
                    proof {
                        assert(self@ =~= old(self)@.push(new_val));
                    }
                    return ;
                }
                // transform to outline storage
                let mut outline: Vec<u32> = Vec::new();
                let mut i: usize = 0;
                while i < INLINE_COUNT
                    invariant
                        0 <= i <= INLINE_COUNT,
                        inline@.len() == 3,
                        outline@ == inline@.subrange(0, i as int),
                    decreases INLINE_COUNT - i,
                {
                    outline.push(inline.elements[i]);
                    i += 1;
                    proof {
                        assert(outline@ =~= inline@.subrange(0, i as int));
                    }
                }
                outline.push(new_val);
                self.content = RelationVecContent::Outline(outline);
            },
            RelationVecContent::Outline(v) => {
                v.push(new_val);
            },
        }
        self.len = len + 1;
        proof {
            assert(self@ =~= old(self)@.push(new_val));
        }
    }

    /// Position of the first occurrence of `element`.
    pub fn position(&self, element: u32) -> (r: Option<usize>)
        requires
            self.wf(),
        ensures
            match r {
                Some(i) => i < self@.len() && self@[i as int] == element && forall|j: int|
                    0 <= j < i ==> self@[j] != element,
                None => !self@.contains(element),
            },
    {
        let len = self.len as usize;
        let mut i: usize = 0;
        while i < len
            invariant
                self.wf(),
                len == self@.len(),
                0 <= i <= len,
                forall|j: int| 0 <= j < i ==> self@[j] != element,
            decreases len - i,
        {
            if self.get(i) == element {
                return Some(i);
            }
            i += 1;
        }
        None
    }

    /// Whether `element` is among the ids.
    pub fn contains(&self, element: u32) -> (r: bool)
        requires
            self.wf(),
        ensures
            r == self@.contains(element),
    {
        match self.position(element) {
            Some(_) => true,
            None => false,
        }
    }

    /// Removes every occurrence of `element`.
    pub fn remove_all(&mut self, element: u32)
        requires
            old(self).wf(),
        ensures
            final(self).wf(),
            final(self)@ == remove_all(old(self)@, element),
    {
        while self.contains(element)
            invariant
                self.wf(),
                remove_all(self@, element) == remove_all(old(self)@, element),
            decreases self@.len(),
        {
            let ghost pre = self@;
            self.remove(element);
            proof {
                lemma_first_index_exists(pre, element);
            }
        }
    }

    /// Removes the first occurrence of `element`, moving the last id into its place.
    /// Does nothing when `element` is not there.
    pub fn remove(&mut self, element: u32)
        requires
            old(self).wf(),
        ensures
            final(self).wf(),
            final(self)@ == remove_first(old(self)@, element),
    {
        let index = self.position(element);
        if let Some(index) = index {
            let len = self.len;
            let last = (len - 1) as usize;
            let last_val = self.get(last);
            let ghost pre = self@;
            match &mut self.content {
                RelationVecContent::Inline(inline) => {
                    // swap the element with the last one
                    let removed = inline.elements[index];
                    inline.elements[index] = last_val;
                    inline.elements[last] = removed;
                },
                RelationVecContent::Outline(v) => {
                    v.set(index, last_val);
                    v.pop();
                    if len as usize == INLINE_COUNT + 1 {
                        // convert back to inline storage
                        let mut inline = RelationVecInline::new();
                        let mut i: usize = 0;
                        while i < INLINE_COUNT
                            invariant
                                0 <= i <= INLINE_COUNT,
                                v@.len() == INLINE_COUNT,
                                inline@.len() == 3,
                                inline@.subrange(0, i as int) == v@.subrange(0, i as int),
                            decreases INLINE_COUNT - i,
                        {
                            inline.elements[i] = v[i];
                            i += 1;
                            proof {
                                assert(inline@.subrange(0, i as int) =~= v@.subrange(
                                    0,
                                    i as int,
                                ));
                            }
                        }
                        self.content = RelationVecContent::Inline(inline);
                    }
                },
            }
            self.len = len - 1;
            proof {
                assert(self@ =~= pre.update(index as int, pre.last()).drop_last());
                lemma_first_index(pre, element, index as int);
            }
        }
    }

    /// The ids as a sequence, in storage order.
    pub fn to_vec(&self) -> (r: Vec<u32>)
        requires
            self.wf(),
        ensures
            r@ == self@,
    {
        let len = self.len as usize;
        let mut r: Vec<u32> = Vec::new();
        let mut i: usize = 0;
        while i < len
            invariant
                self.wf(),
                len == self@.len(),
                0 <= i <= len,
                r@ == self@.subrange(0, i as int),
            decreases len - i,
        {
            r.push(self.get(i));
            i += 1;
            proof {
                assert(r@ =~= self@.subrange(0, i as int));
            }
        }
        proof {
            assert(r@ =~= self@);
        }
        r
    }
}

} // verus!
