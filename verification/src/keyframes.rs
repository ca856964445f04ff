use vstd::prelude::*;

verus! {

/// The keyframes of a value that changes over time, in order of their keys (integers
/// in the order of the times they stand for). Keyframes with equal keys stay in the
/// order in which they were added.
pub struct Keyframes<V> {
    entries: Vec<(u64, V)>,
}

impl<V> View for Keyframes<V> {
    type V = Seq<(u64, V)>;

    closed spec fn view(&self) -> Seq<(u64, V)> {
        self.entries@
    }
}

/// The entries are in order of key.
pub open spec fn keys_sorted<V>(s: Seq<(u64, V)>) -> bool {
    forall|i: int, j: int| 0 <= i <= j < s.len() ==> s[i].0 <= s[j].0
}

/// The position of the last entry whose key is at most `q`, or -1 if there is none.
pub open spec fn last_at_or_before<V>(s: Seq<(u64, V)>, q: u64) -> int
    decreases s.len(),
{
    if s.len() == 0 {
        -1
    } else if s.last().0 <= q {
        s.len() - 1
    } else {
        last_at_or_before(s.drop_last(), q)
    }
}

/// Where an entry with key `k` is added: after every entry whose key is at most `k`.
pub open spec fn insert_position<V>(s: Seq<(u64, V)>, k: u64) -> int {
    last_at_or_before(s, k) + 1
}

proof fn lemma_last_at_or_before_range<V>(s: Seq<(u64, V)>, q: u64)
    ensures
        -1 <= last_at_or_before(s, q) < s.len(),
        last_at_or_before(s, q) >= 0 ==> s[last_at_or_before(s, q)].0 <= q,
        forall|i: int| last_at_or_before(s, q) < i < s.len() ==> q < #[trigger] s[i].0,
    decreases s.len(),
{
    if s.len() > 0 && s.last().0 > q {
        lemma_last_at_or_before_range(s.drop_last(), q);
        assert forall|i: int| last_at_or_before(s, q) < i < s.len() implies q < #[trigger] s[i].0 by {
            if i < s.len() - 1 {
                assert(s[i] == s.drop_last()[i]);
            }
        }
    }
}

/// In sorted entries, the last entry with key at most `q` is the one just before the
/// first entry with a larger key.
proof fn lemma_last_at_or_before_split<V>(s: Seq<(u64, V)>, q: u64, p: int)
    requires
        0 <= p <= s.len(),
        forall|i: int| 0 <= i < p ==> (#[trigger] s[i]).0 <= q,
        forall|i: int| p <= i < s.len() ==> q < (#[trigger] s[i]).0,
    ensures
        last_at_or_before(s, q) == p - 1,
    decreases s.len(),
{
    if s.len() > p {
        assert(q < s[s.len() - 1].0);
        lemma_last_at_or_before_split(s.drop_last(), q, p);
    } else if s.len() > 0 {
        assert(s[s.len() - 1].0 <= q);
    }
}

proof fn lemma_split_of_sorted<V>(s: Seq<(u64, V)>, q: u64)
    requires
        keys_sorted(s),
    ensures
        forall|i: int| 0 <= i < insert_position(s, q) ==> (#[trigger] s[i]).0 <= q,
        forall|i: int| insert_position(s, q) <= i < s.len() ==> q < (#[trigger] s[i]).0,
{
    lemma_last_at_or_before_range(s, q);
    let l = last_at_or_before(s, q);
    assert forall|i: int| 0 <= i < l + 1 implies (#[trigger] s[i]).0 <= q by {
        assert(s[i].0 <= s[l].0);
    }
}

impl<V> Keyframes<V> {
    #[verifier::type_invariant]
    spec fn entries_sorted(self) -> bool {
        keys_sorted(self.entries@)
    }

    /// No keyframes.
    pub fn new() -> (r: Self)
        ensures
            r@ == Seq::<(u64, V)>::empty(),
            keys_sorted(r@),
    {
        Keyframes { entries: Vec::new() }
    }

    /// The number of keyframes.
    pub fn len(&self) -> (r: usize)
        ensures
            r == self@.len(),
    {
        self.entries.len()
    }

    /// Adds a keyframe after every keyframe whose key is at most `key`; the keyframes
    /// stay in order of key.
    pub fn insert(&mut self, key: u64, value: V)
        ensures
            final(self)@ == old(self)@.insert(insert_position(old(self)@, key), (key, value)),
            keys_sorted(old(self)@),
            keys_sorted(final(self)@),
    {
        proof {
            use_type_invariant(&*self);
        }
        let mut entries: Vec<(u64, V)> = Vec::new();
        std::mem::swap(&mut entries, &mut self.entries);
        let ghost s = entries@;
        let mut p = entries.len();
        while p > 0 && key < entries[p - 1].0
            invariant
                s == entries@,
                0 <= p <= s.len(),
                forall|i: int| p <= i < s.len() ==> key < (#[trigger] s[i]).0,
            decreases p,
        {
            p = p - 1;
        }
        proof {
            assert forall|i: int| 0 <= i < p implies (#[trigger] s[i]).0 <= key by {
                assert(s[i].0 <= s[p - 1].0);
            }
            lemma_last_at_or_before_split(s, key, p as int);
        }
        entries.insert(p, (key, value));
        proof {
            let t = entries@;
            assert(t == s.insert(p as int, (key, value)));
            assert forall|i: int, j: int| 0 <= i <= j < t.len() implies t[i].0 <= t[j].0 by {
                if i < p {
                    assert(t[i] == s[i]);
                } else if i > p {
                    assert(t[i] == s[i - 1]);
                }
                if j < p {
                    assert(t[j] == s[j]);
                } else if j > p {
                    assert(t[j] == s[j - 1]);
                }
            }
        }
        self.entries = entries;
    }

    /// The value of the last keyframe whose key is at most `q`, if there is one.
    pub fn latest(&self, q: u64) -> (r: Option<&V>)
        ensures
            last_at_or_before(self@, q) == -1 ==> r is None,
            last_at_or_before(self@, q) >= 0 ==> (r matches Some(v) && *v == self@[last_at_or_before(
                self@,
                q,
            )].1),
    {
        let ghost s = self@;
        let mut k = self.entries.len();
        assert(s.subrange(0, k as int) =~= s);
        while k > 0
            invariant
                s == self@,
                0 <= k <= s.len(),
                last_at_or_before(s, q) == last_at_or_before(s.subrange(0, k as int), q),
            decreases k,
        {
            assert(s.subrange(0, k as int).last() == s[k - 1]);
            if self.entries[k - 1].0 <= q {
                return Some(&self.entries[k - 1].1);
            }
            assert(s.subrange(0, k as int).drop_last() =~= s.subrange(0, k - 1));
            k = k - 1;
        }
        None
    }

    /// The value of the first keyframe, if there is one.
    pub fn first(&self) -> (r: Option<&V>)
        ensures
            self@.len() == 0 ==> r is None,
            self@.len() > 0 ==> (r matches Some(v) && *v == self@[0].1),
    {
        if self.entries.len() == 0 {
            None
        } else {
            Some(&self.entries[0].1)
        }
    }
}

/// What a lookup gives back after a keyframe is added: a lookup at the new key finds
/// the new keyframe, and a lookup at a smaller key finds the same keyframe as before.
pub proof fn lemma_lookup_after_insert<V>(s: Seq<(u64, V)>, k: u64, v: V, q: u64)
    requires
        keys_sorted(s),
    ensures
        ({
            let t = s.insert(insert_position(s, k), (k, v));
            &&& last_at_or_before(t, k) == insert_position(s, k)
            &&& t[last_at_or_before(t, k)] == (k, v)
            &&& q < k ==> last_at_or_before(t, q) == last_at_or_before(s, q)
        }),
{
    let p = insert_position(s, k);
    let t = s.insert(p, (k, v));
    lemma_split_of_sorted(s, k);
    lemma_last_at_or_before_range(s, k);
    assert(0 <= p <= s.len());
    assert forall|i: int| 0 <= i < p + 1 implies (#[trigger] t[i]).0 <= k by {
        if i < p {
            assert(t[i] == s[i]);
        }
    }
    assert forall|i: int| p + 1 <= i < t.len() implies k < (#[trigger] t[i]).0 by {
        assert(t[i] == s[i - 1]);
    }
    lemma_last_at_or_before_split(t, k, p + 1);
    if q < k {
        let l = insert_position(s, q);
        lemma_split_of_sorted(s, q);
        lemma_last_at_or_before_range(s, q);
        assert(l <= p) by {
            if l > p {
                assert(s[p].0 <= q);
                assert(k < s[p].0);
            }
        }
        assert forall|i: int| 0 <= i < l implies (#[trigger] t[i]).0 <= q by {
            assert(t[i] == s[i]);
        }
        assert forall|i: int| l <= i < t.len() implies q < (#[trigger] t[i]).0 by {
            if i < p {
                assert(t[i] == s[i]);
            } else if i > p {
                assert(t[i] == s[i - 1]);
            }
        }
        lemma_last_at_or_before_split(t, q, l);
    }
}

} // verus!
