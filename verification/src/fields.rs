//! The field set of a FIX message: a tag-to-value mapping kept in
//! strictly ascending tag order, so that encoding is deterministic.

use vstd::prelude::*;

verus! {

/// First index in `s` carrying tag `t`, or `s.len()` when absent.
pub open spec fn tag_ix(s: Seq<(u32, Seq<u8>)>, t: u32) -> int
    decreases s.len(),
{
    if s.len() == 0 {
        0
    } else if s[0].0 == t {
        0
    } else {
        1 + tag_ix(s.skip(1), t)
    }
}

/// Whether some entry of `s` carries tag `t`.
pub open spec fn has_tag(s: Seq<(u32, Seq<u8>)>, t: u32) -> bool {
    exists|i: int| 0 <= i < s.len() && (#[trigger] s[i]).0 == t
}

/// The value of the first entry of `s` carrying tag `t`.
pub open spec fn tag_val(s: Seq<(u32, Seq<u8>)>, t: u32) -> Seq<u8> {
    s[tag_ix(s, t)].1
}

/// Whether the tags of `s` are strictly ascending.
pub open spec fn tags_sorted(s: Seq<(u32, Seq<u8>)>) -> bool {
    forall|i: int, j: int| 0 <= i < j < s.len() ==> (#[trigger] s[i]).0 < (#[trigger] s[j]).0
}

/// First index whose tag is at least `t`, or `s.len()` when every tag
/// is below `t`; in a sorted sequence this is where `t` belongs.
pub open spec fn ins_ix(s: Seq<(u32, Seq<u8>)>, t: u32) -> int
    decreases s.len(),
{
    if s.len() == 0 {
        0
    } else if s[0].0 >= t {
        0
    } else {
        1 + ins_ix(s.skip(1), t)
    }
}

/// The entry sequence after storing `v` under `t`: replace in place when
/// the tag is present, insert at its sorted position when it is not.
pub open spec fn set_entry(s: Seq<(u32, Seq<u8>)>, t: u32, v: Seq<u8>) -> Seq<(u32, Seq<u8>)> {
    if has_tag(s, t) {
        s.update(tag_ix(s, t), (t, v))
    } else {
        s.insert(ins_ix(s, t), (t, v))
    }
}

pub proof fn lemma_ins_ix(s: Seq<(u32, Seq<u8>)>, t: u32)
    ensures
        0 <= ins_ix(s, t) <= s.len(),
        ins_ix(s, t) < s.len() ==> s[ins_ix(s, t)].0 >= t,
        forall|j: int| 0 <= j < ins_ix(s, t) ==> (#[trigger] s[j]).0 < t,
    decreases s.len(),
{
    if s.len() > 0 && s[0].0 < t {
        lemma_ins_ix(s.skip(1), t);
        assert forall|j: int| 0 <= j < ins_ix(s, t) implies (#[trigger] s[j]).0 < t by {
            if j > 0 {
                assert(s.skip(1)[j - 1] == s[j]);
            }
        }
    }
}

pub proof fn lemma_tag_ix(s: Seq<(u32, Seq<u8>)>, t: u32)
    ensures
        0 <= tag_ix(s, t) <= s.len(),
        tag_ix(s, t) < s.len() ==> s[tag_ix(s, t)].0 == t,
        forall|j: int| 0 <= j < tag_ix(s, t) ==> (#[trigger] s[j]).0 != t,
        has_tag(s, t) <==> tag_ix(s, t) < s.len(),
    decreases s.len(),
{
    if s.len() > 0 && s[0].0 != t {
        lemma_tag_ix(s.skip(1), t);
        assert forall|j: int| 0 <= j < tag_ix(s, t) implies (#[trigger] s[j]).0 != t by {
            if j > 0 {
                assert(s.skip(1)[j - 1] == s[j]);
            }
        }
        if has_tag(s, t) {
            let i = choose|i: int| 0 <= i < s.len() && (#[trigger] s[i]).0 == t;
            assert(s.skip(1)[i - 1] == s[i]);
            assert(has_tag(s.skip(1), t));
        }
        if has_tag(s.skip(1), t) {
            let i = choose|i: int| 0 <= i < s.skip(1).len() && (#[trigger] s.skip(1)[i]).0 == t;
            assert(s.skip(1)[i] == s[i + 1]);
            assert(has_tag(s, t));
        }
    }
}

/// In a strictly sorted entry sequence an occurrence of a tag is the
/// first occurrence.
pub proof fn lemma_tag_ix_unique(s: Seq<(u32, Seq<u8>)>, i: int)
    requires
        tags_sorted(s),
        0 <= i < s.len(),
    ensures
        tag_ix(s, s[i].0) == i,
        has_tag(s, s[i].0),
        tag_val(s, s[i].0) == s[i].1,
{
    lemma_tag_ix(s, s[i].0);
    let f = tag_ix(s, s[i].0);
    assert(f <= i);
    if f < i {
        assert(s[f].0 == s[i].0);
        assert(s[f].0 < s[i].0);
    }
}

/// A tag-to-value map with entries kept in strictly ascending tag order.
#[derive(Debug, Clone, PartialEq)]
pub struct FieldMap {
    entries: Vec<(u32, Vec<u8>)>,
}

impl View for FieldMap {
    type V = Seq<(u32, Seq<u8>)>;

    closed spec fn view(&self) -> Seq<(u32, Seq<u8>)> {
        Seq::new(self.entries@.len(), |i: int| (self.entries@[i].0, self.entries@[i].1@))
    }
}

impl FieldMap {
    /// The ordering invariant: strictly ascending tags.
    pub open spec fn wf(self) -> bool {
        tags_sorted(self@)
    }

    /// An empty field set.
    pub fn new() -> (r: FieldMap)
        ensures
            r@ =~= Seq::<(u32, Seq<u8>)>::empty(),
            r.wf(),
    {
        FieldMap { entries: Vec::new() }
    }

    /// How many fields are present.
    pub fn len(&self) -> (r: usize)
        ensures
            r == self@.len(),
    {
        self.entries.len()
    }

    /// The entry at position `i`, in ascending tag order.
    pub fn entry_at(&self, i: usize) -> (r: &(u32, Vec<u8>))
        requires
            i < self@.len(),
        ensures
            r.0 == self@[i as int].0,
            r.1@ == self@[i as int].1,
    {
        &self.entries[i]
    }

    /// The value stored under `tag`, if any.
    pub fn get(&self, tag: u32) -> (r: Option<&Vec<u8>>)
        ensures
            match r {
                Some(v) => has_tag(self@, tag) && v@ == tag_val(self@, tag),
                None => !has_tag(self@, tag),
            },
    {
        proof {
            lemma_tag_ix(self@, tag);
        }
        let mut i: usize = 0;
        while i < self.entries.len()
            invariant
                0 <= i <= self@.len(),
                forall|j: int| 0 <= j < i ==> (#[trigger] self@[j]).0 != tag,
            decreases self@.len() - i,
        {
            let e = &self.entries[i];
            if e.0 == tag {
                proof {
                    assert(has_tag(self@, tag)) by {
                        assert(self@[i as int].0 == tag);
                    }
                    lemma_tag_ix(self@, tag);
                    let f = tag_ix(self@, tag);
                    if f < i as int {
                        assert(self@[f].0 != tag);
                    }
                    if f > i as int {
                        assert(self@[i as int].0 != tag);
                    }
                    assert(tag_ix(self@, tag) == i as int);
                }
                return Some(&self.entries[i].1);
            }
            i = i + 1;
        }
        None
    }

    /// Whether a field with this tag is present.
    pub fn contains(&self, tag: u32) -> (r: bool)
        ensures
            r <==> has_tag(self@, tag),
    {
        match self.get(tag) {
            Some(_) => true,
            None => false,
        }
    }

    /// Stores `value` under `tag`, replacing any previous value and
    /// keeping the entries sorted.
    pub fn set(&mut self, tag: u32, value: Vec<u8>)
        requires
            old(self).wf(),
        ensures
            final(self).wf(),
            has_tag(final(self)@, tag),
            tag_val(final(self)@, tag) == value@,
            forall|t: u32| t != tag ==> (has_tag(final(self)@, t) <==> has_tag(old(self)@, t)),
            forall|t: u32|
                t != tag && has_tag(old(self)@, t) ==> tag_val(final(self)@, t) == tag_val(
                    old(self)@,
                    t,
                ),
            has_tag(old(self)@, tag) ==> final(self)@.len() == old(self)@.len(),
            !has_tag(old(self)@, tag) ==> final(self)@.len() == old(self)@.len() + 1,
            final(self)@ =~= set_entry(old(self)@, tag, value@),
            (forall|i: int| 0 <= i < old(self)@.len() ==> (#[trigger] old(self)@[i]).0 < tag)
                ==> final(self)@ =~= old(self)@.push((tag, value@)),
    {
        let ghost pre = self@;
        let mut idx: usize = 0;
        while idx < self.entries.len() && self.entries[idx].0 < tag
            invariant
                self@ == pre,
                0 <= idx <= self@.len(),
                forall|j: int| 0 <= j < idx ==> (#[trigger] self@[j]).0 < tag,
            decreases self@.len() - idx,
        {
            idx = idx + 1;
        }
        proof {
            lemma_tag_ix(pre, tag);
        }
        if idx < self.entries.len() && self.entries[idx].0 == tag {
            self.entries.remove(idx);
            self.entries.insert(idx, (tag, value));
            proof {
                let post = self@;
                assert(post =~= pre.update(idx as int, (tag, value@)));
                lemma_set_update_props(pre, post, idx as int, tag, value@);
                lemma_tag_ix_unique(pre, idx as int);
                assert(post =~= set_entry(pre, tag, value@));
            }
        } else {
            proof {
                if idx < pre.len() {
                    assert(pre[idx as int].0 >= tag);
                    assert(pre[idx as int].0 != tag);
                }
            }
            self.entries.insert(idx, (tag, value));
            proof {
                let post = self@;
                assert(post =~= pre.insert(idx as int, (tag, value@)));
                lemma_set_insert_props(pre, post, idx as int, tag, value@);
                lemma_ins_ix(pre, tag);
                let w = ins_ix(pre, tag);
                if w < idx as int {
                    assert(pre[w].0 < tag);
                }
                if w > idx as int && idx < pre.len() {
                    assert(pre[idx as int].0 < tag);
                }
                assert(w == idx as int);
                assert(post =~= set_entry(pre, tag, value@));
            }
        }
    }
}

/// Facts about replacing the entry at `idx` (which carried `tag`).
proof fn lemma_set_update_props(pre: Seq<(u32, Seq<u8>)>, post: Seq<(u32, Seq<u8>)>, idx: int, tag: u32, v: Seq<u8>)
    requires
        tags_sorted(pre),
        0 <= idx < pre.len(),
        pre[idx].0 == tag,
        post =~= pre.update(idx, (tag, v)),
    ensures
        tags_sorted(post),
        has_tag(post, tag),
        tag_val(post, tag) == v,
        forall|t: u32| t != tag ==> (has_tag(post, t) <==> has_tag(pre, t)),
        forall|t: u32| t != tag && has_tag(pre, t) ==> tag_val(post, t) == tag_val(pre, t),
        has_tag(pre, tag),
        post.len() == pre.len(),
{
    assert(tags_sorted(post));
    lemma_tag_ix_unique(post, idx);
    lemma_tag_ix_unique(pre, idx);
    assert forall|t: u32| t != tag && has_tag(pre, t) implies has_tag(post, t) && tag_val(
        post,
        t,
    ) == tag_val(pre, t) by {
        lemma_tag_ix(pre, t);
        let i = tag_ix(pre, t);
        assert(pre[i].0 == t);
        assert(i != idx);
        assert(post[i].0 == t);
        lemma_tag_ix_unique(post, i);
        lemma_tag_ix_unique(pre, i);
    }
    assert forall|t: u32| t != tag && has_tag(post, t) implies has_tag(pre, t) by {
        lemma_tag_ix(post, t);
        let i = tag_ix(post, t);
        assert(post[i].0 == t);
        assert(i != idx);
        assert(pre[i].0 == t);
    }
}

/// Facts about inserting a fresh entry at the sorted position `idx`.
pub proof fn lemma_set_insert_props(pre: Seq<(u32, Seq<u8>)>, post: Seq<(u32, Seq<u8>)>, idx: int, tag: u32, v: Seq<u8>)
    requires
        tags_sorted(pre),
        0 <= idx <= pre.len(),
        forall|j: int| 0 <= j < idx ==> (#[trigger] pre[j]).0 < tag,
        idx < pre.len() ==> pre[idx].0 > tag,
        post =~= pre.insert(idx, (tag, v)),
    ensures
        tags_sorted(post),
        has_tag(post, tag),
        tag_val(post, tag) == v,
        forall|t: u32| t != tag ==> (has_tag(post, t) <==> has_tag(pre, t)),
        forall|t: u32| t != tag && has_tag(pre, t) ==> tag_val(post, t) == tag_val(pre, t),
        !has_tag(pre, tag),
        post.len() == pre.len() + 1,
        idx == pre.len() ==> post =~= pre.push((tag, v)),
{
    assert(forall|k: int| 0 <= k < idx ==> post[k] == pre[k]);
    assert(post[idx] == (tag, v));
    assert(forall|k: int| idx < k < post.len() ==> post[k] == pre[k - 1]);
    assert forall|i: int, j: int| 0 <= i < j < post.len() implies (#[trigger] post[i]).0 < (
    #[trigger] post[j]).0 by {
        if i < idx && j < idx {
        } else if i < idx && j == idx {
        } else if i < idx && j > idx {
            if idx < pre.len() {
                if j - 1 == idx {
                    assert(pre[j - 1].0 > tag);
                } else {
                }
            }
        } else if i == idx && j > idx {
            assert(post[j].0 == pre[j - 1].0);
            assert(j - 1 >= idx);
            if j - 1 == idx {
                assert(pre[idx].0 > tag);
            } else {
                assert(pre[idx].0 < pre[j - 1].0);
                assert(pre[idx].0 > tag);
            }
        } else {
        }
    }
    lemma_tag_ix_unique(post, idx);
    if has_tag(pre, tag) {
        let i = choose|i: int| 0 <= i < pre.len() && (#[trigger] pre[i]).0 == tag;
        if i < idx {
            assert(pre[i].0 < tag);
        } else {
            assert(pre[i].0 > tag || i == idx);
            if i == idx {
                assert(pre[idx].0 > tag);
            }
        }
    }
    assert forall|t: u32| t != tag && has_tag(pre, t) implies has_tag(post, t) && tag_val(
        post,
        t,
    ) == tag_val(pre, t) by {
        lemma_tag_ix(pre, t);
        let i = tag_ix(pre, t);
        assert(pre[i].0 == t);
        if i < idx {
            assert(post[i].0 == t);
            lemma_tag_ix_unique(post, i);
            lemma_tag_ix_unique(pre, i);
        } else {
            assert(post[i + 1].0 == t);
            lemma_tag_ix_unique(post, i + 1);
            lemma_tag_ix_unique(pre, i);
        }
    }
    assert forall|t: u32| t != tag && has_tag(post, t) implies has_tag(pre, t) by {
        lemma_tag_ix(post, t);
        let i = tag_ix(post, t);
        assert(post[i].0 == t);
        if i < idx {
            assert(pre[i].0 == t);
        } else {
            assert(i != idx);
            assert(pre[i - 1].0 == t);
        }
    }
}

} // verus!
