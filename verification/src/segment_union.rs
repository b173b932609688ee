use vstd::prelude::*;

verus! {

/// Boolean exclusive or, used to state toggle semantics.
pub open spec fn xorb(a: bool, b: bool) -> bool {
    a != b
}

/// How many endpoints lie strictly below `x`.
pub open spec fn count_lt(s: Seq<usize>, x: int) -> int
    decreases s.len(),
{
    if s.len() == 0 {
        0
    } else {
        count_lt(s.drop_last(), x) + if (s.last() as int) < x {
            1int
        } else {
            0int
        }
    }
}

/// How many endpoints lie at or below `x`.
pub open spec fn count_le(s: Seq<usize>, x: int) -> int
    decreases s.len(),
{
    if s.len() == 0 {
        0
    } else {
        count_le(s.drop_last(), x) + if (s.last() as int) <= x {
            1int
        } else {
            0int
        }
    }
}

/// `x` lies inside one of the inclusive intervals that the sorted
/// endpoints pair into: an odd number of endpoints strictly below it,
/// or an odd number at or below it.
pub open spec fn covered(s: Seq<usize>, x: int) -> bool {
    count_lt(s, x) % 2 == 1 || count_le(s, x) % 2 == 1
}

/// Inserting an endpoint shifts each count by its indicator.
proof fn lemma_count_insert(s: Seq<usize>, i: int, e: usize, x: int)
    requires
        0 <= i <= s.len(),
    ensures
        count_lt(s.insert(i, e), x) == count_lt(s, x) + if (e as int) < x {
            1int
        } else {
            0int
        },
        count_le(s.insert(i, e), x) == count_le(s, x) + if (e as int) <= x {
            1int
        } else {
            0int
        },
    decreases s.len(),
{
    let t = s.insert(i, e);
    if i == s.len() {
        assert(t =~= s.push(e));
        assert(t.drop_last() =~= s);
    } else {
        assert(t.last() == s.last());
        assert(t.drop_last() =~= s.drop_last().insert(i, e));
        lemma_count_insert(s.drop_last(), i, e, x);
    }
}

/// Removing an endpoint shifts each count by its indicator.
proof fn lemma_count_remove(s: Seq<usize>, i: int, x: int)
    requires
        0 <= i < s.len(),
    ensures
        count_lt(s.remove(i), x) == count_lt(s, x) - if (s[i] as int) < x {
            1int
        } else {
            0int
        },
        count_le(s.remove(i), x) == count_le(s, x) - if (s[i] as int) <= x {
            1int
        } else {
            0int
        },
    decreases s.len(),
{
    let t = s.remove(i);
    if i == s.len() - 1 {
        assert(t =~= s.drop_last());
    } else {
        assert(t.last() == s.last());
        assert(t.drop_last() =~= s.drop_last().remove(i));
        lemma_count_remove(s.drop_last(), i, x);
    }
}

/// Endpoints above `x` do not count: the counts agree with those of
/// any prefix that keeps everything at or below `x`.
pub proof fn lemma_count_prefix(s: Seq<usize>, m: int, x: int)
    requires
        0 <= m <= s.len(),
        forall|j: int| m <= j < s.len() ==> (#[trigger] s[j] as int) > x,
    ensures
        count_lt(s, x) == count_lt(s.take(m), x),
        count_le(s, x) == count_le(s.take(m), x),
    decreases s.len() - m,
{
    if m < s.len() {
        assert(s.drop_last() =~= s.take(s.len() - 1));
        lemma_count_prefix(s.take(s.len() - 1), m, x);
        assert(s.take(s.len() - 1).take(m) =~= s.take(m));
    } else {
        assert(s.take(m) =~= s);
    }
}

/// The counts of a two-endpoint sequence, spelled out.
proof fn lemma_count_two(a: usize, b: usize, x: int)
    ensures
        count_lt(seq![a, b], x) == (if (a as int) < x {
            1int
        } else {
            0int
        }) + (if (b as int) < x {
            1int
        } else {
            0int
        }),
        count_le(seq![a, b], x) == (if (a as int) <= x {
            1int
        } else {
            0int
        }) + (if (b as int) <= x {
            1int
        } else {
            0int
        }),
{
    reveal_with_fuel(count_lt, 4);
    reveal_with_fuel(count_le, 4);
    let s = seq![a, b];
    assert(s.drop_last() =~= seq![a]);
    assert(seq![a].drop_last() =~= Seq::<usize>::empty());
    assert(count_lt(Seq::<usize>::empty(), x) == 0);
    assert(count_le(Seq::<usize>::empty(), x) == 0);
    assert(seq![a].last() == a);
    assert(s.last() == b);
    assert(count_lt(seq![a], x) == if (a as int) < x {
        1int
    } else {
        0int
    });
    assert(count_le(seq![a], x) == if (a as int) <= x {
        1int
    } else {
        0int
    });
}

/// Anything between the two smallest endpoints of a sorted even set is
/// covered.
pub proof fn lemma_first_pair_covered(s: Seq<usize>, x: int)
    requires
        s.len() >= 2,
        forall|i: int, j: int| 0 <= i < j < s.len() ==> s[i] < s[j],
        s[0] as int <= x <= s[1] as int,
    ensures
        covered(s, x),
{
    assert forall|j: int| 2 <= j < s.len() implies (#[trigger] s[j] as int) > x by {
        assert(s[1] < s[j]);
    }
    lemma_count_prefix(s, 2, x);
    let t = s.take(2);
    assert(t =~= seq![s[0], s[1]]);
    lemma_count_two(s[0], s[1], x);
}

/// A sparse running XOR over integer endpoints.
///
/// Adding a span toggles both of its endpoints in an ordered set; spans
/// that abut at an endpoint cancel that endpoint, so the endpoints that
/// remain always pair up into disjoint inclusive intervals
/// `(low, high)` with strictly increasing boundaries.  The clipper uses
/// this to coalesce runs of wholly-contained segments.
///
/// Invariant: the endpoints are strictly sorted and their count is
/// even, so reading them two at a time yields the interval list.
pub struct SegmentUnion {
    set: Vec<usize>,
}

impl SegmentUnion {
    /// The ordered endpoint sequence.
    pub closed spec fn view(self) -> Seq<usize> {
        self.set@
    }

    /// Strictly sorted endpoints.
    pub open spec fn sorted(self) -> bool {
        forall|i: int, j: int| 0 <= i < j < self@.len() ==> self@[i] < self@[j]
    }

    /// Strictly sorted endpoints, in even number.
    pub open spec fn wf(self) -> bool {
        self.sorted() && self@.len() % 2 == 0
    }

    /// Membership among the remaining endpoints.
    pub open spec fn has(self, x: usize) -> bool {
        self@.contains(x)
    }

    pub fn new() -> (r: SegmentUnion)
        ensures
            r@ == Seq::<usize>::empty(),
            r.wf(),
    {
        SegmentUnion { set: Vec::new() }
    }

    /// Toggle one endpoint: remove it if present, insert it otherwise.
    fn toggle(&mut self, entry: usize)
        requires
            old(self).sorted(),
        ensures
            final(self).sorted(),
            forall|x: usize|
                final(self).has(x) == xorb(old(self).has(x), x == entry),
            old(self).has(entry) ==> final(self)@.len() == old(self)@.len() - 1,
            !old(self).has(entry) ==> final(self)@.len() == old(self)@.len() + 1,
            forall|x: int|
                #[trigger] count_lt(final(self)@, x) % 2 == if (entry as int) < x {
                    (count_lt(old(self)@, x) + 1) % 2
                } else {
                    count_lt(old(self)@, x) % 2
                },
            forall|x: int|
                #[trigger] count_le(final(self)@, x) % 2 == if (entry as int) <= x {
                    (count_le(old(self)@, x) + 1) % 2
                } else {
                    count_le(old(self)@, x) % 2
                },
    {
        let mut i: usize = 0;
        while i < self.set.len() && self.set[i] < entry
            invariant
                i <= self.set@.len(),
                self.sorted(),
                forall|k: int| 0 <= k < i ==> self@[k] < entry,
                self@ == old(self)@,
            decreases self.set@.len() - i,
        {
            i += 1;
        }
        if i < self.set.len() && self.set[i] == entry {
            self.set.remove(i);
            proof {
                assert(old(self)@[i as int] == entry);
                assert(old(self).has(entry));
                assert forall|x: int|
                    #[trigger] count_lt(self@, x) % 2 == (if (entry as int) < x {
                        (count_lt(old(self)@, x) + 1) % 2
                    } else {
                        count_lt(old(self)@, x) % 2
                    }) by {
                    lemma_count_remove(old(self)@, i as int, x);
                }
                assert forall|x: int|
                    #[trigger] count_le(self@, x) % 2 == (if (entry as int) <= x {
                        (count_le(old(self)@, x) + 1) % 2
                    } else {
                        count_le(old(self)@, x) % 2
                    }) by {
                    lemma_count_remove(old(self)@, i as int, x);
                }
                assert forall|x: usize|
                    self.has(x) == xorb(old(self).has(x), x == entry) by {
                    if self@.contains(x) {
                        let k = choose|k: int| 0 <= k < self@.len() && self@[k] == x;
                        if k < i {
                            assert(old(self)@[k] == x);
                        } else {
                            assert(old(self)@[k + 1] == x);
                        }
                        assert(x != entry);
                    }
                    if old(self)@.contains(x) && x != entry {
                        let k = choose|k: int|
                            0 <= k < old(self)@.len() && old(self)@[k] == x;
                        assert(k != i);
                        if k < i {
                            assert(self@[k] == x);
                        } else {
                            assert(self@[k - 1] == x);
                        }
                    }
                }
            }
        } else {
            proof {
                assert forall|k: int| i <= k < self@.len() implies entry < self@[k] by {
                    assert(self@[i as int] <= self@[k]);
                }
                if old(self)@.contains(entry) {
                    let k = choose|k: int|
                        0 <= k < old(self)@.len() && old(self)@[k] == entry;
                    assert(false);
                }
            }
            self.set.insert(i, entry);
            proof {
                assert(self@[i as int] == entry);
                assert forall|x: int|
                    #[trigger] count_lt(self@, x) % 2 == (if (entry as int) < x {
                        (count_lt(old(self)@, x) + 1) % 2
                    } else {
                        count_lt(old(self)@, x) % 2
                    }) by {
                    lemma_count_insert(old(self)@, i as int, entry, x);
                }
                assert forall|x: int|
                    #[trigger] count_le(self@, x) % 2 == (if (entry as int) <= x {
                        (count_le(old(self)@, x) + 1) % 2
                    } else {
                        count_le(old(self)@, x) % 2
                    }) by {
                    lemma_count_insert(old(self)@, i as int, entry, x);
                }
                assert forall|x: usize|
                    self.has(x) == xorb(old(self).has(x), x == entry) by {
                    if self@.contains(x) && x != entry {
                        let k = choose|k: int| 0 <= k < self@.len() && self@[k] == x;
                        if k < i {
                            assert(old(self)@[k] == x);
                        } else {
                            assert(k != i);
                            assert(old(self)@[k - 1] == x);
                        }
                    }
                    if old(self)@.contains(x) {
                        let k = choose|k: int|
                            0 <= k < old(self)@.len() && old(self)@[k] == x;
                        if k < i {
                            assert(self@[k] == x);
                        } else {
                            assert(self@[k + 1] == x);
                        }
                    }
                }
            }
        }
    }

    /// Toggle both endpoints of a span.  Endpoints already present are
    /// cancelled, which is how abutting spans merge.
    pub fn add(&mut self, low: usize, high: usize)
        requires
            old(self).wf(),
        ensures
            final(self).wf(),
            forall|x: usize|
                final(self).has(x) == xorb(old(self).has(x), xorb(x == low, x == high)),
            forall|x: int|
                #[trigger] count_lt(final(self)@, x) % 2 == (count_lt(old(self)@, x) + (if (
                low as int) < x {
                    1int
                } else {
                    0int
                }) + (if (high as int) < x {
                    1int
                } else {
                    0int
                })) % 2,
            forall|x: int|
                #[trigger] count_le(final(self)@, x) % 2 == (count_le(old(self)@, x) + (if (
                low as int) <= x {
                    1int
                } else {
                    0int
                }) + (if (high as int) <= x {
                    1int
                } else {
                    0int
                })) % 2,
    {
        self.toggle(low);
        self.toggle(high);
    }

    /// The smallest remaining endpoint.
    pub fn peek(&self) -> (r: Option<usize>)
        requires
            self.sorted(),
        ensures
            self@.len() == 0 ==> r is None,
            self@.len() != 0 ==> r == Option::Some(self@[0]),
            forall|x: usize| self.has(x) ==> self@.len() != 0 && self@[0] <= x,
    {
        proof {
            assert forall|x: usize| self.has(x) implies self@.len() != 0 && self@[0] <= x by {
                let k = choose|k: int| 0 <= k < self@.len() && self@[k] == x;
                if k > 0 {
                    assert(self@[0] < self@[k]);
                }
            }
        }
        if self.set.len() == 0 {
            None
        } else {
            Some(self.set[0])
        }
    }

    /// Remove and return the two smallest endpoints as a low-high pair.
    pub fn pop(&mut self) -> (r: Option<(usize, usize)>)
        requires
            old(self).wf(),
        ensures
            final(self).wf(),
            old(self)@.len() == 0 ==> r is None && final(self)@ == old(self)@,
            old(self)@.len() != 0 ==> r == Option::Some((old(self)@[0], old(self)@[1]))
                && final(self)@ == old(self)@.subrange(2, old(self)@.len() as int)
                && old(self)@[0] < old(self)@[1],
            old(self)@.len() != 0 ==> forall|x: int|
                #[trigger] count_lt(final(self)@, x) % 2 == (count_lt(old(self)@, x) + (if (
                old(self)@[0] as int) < x {
                    1int
                } else {
                    0int
                }) + (if (old(self)@[1] as int) < x {
                    1int
                } else {
                    0int
                })) % 2,
            old(self)@.len() != 0 ==> forall|x: int|
                #[trigger] count_le(final(self)@, x) % 2 == (count_le(old(self)@, x) + (if (
                old(self)@[0] as int) <= x {
                    1int
                } else {
                    0int
                }) + (if (old(self)@[1] as int) <= x {
                    1int
                } else {
                    0int
                })) % 2,
    {
        if self.set.len() == 0 {
            return None;
        }
        let ghost s0 = self.set@;
        let low = self.set.remove(0);
        let ghost s1 = self.set@;
        let high = self.set.remove(0);
        proof {
            assert(self@ =~= old(self)@.subrange(2, old(self)@.len() as int));
            assert forall|x: int|
                #[trigger] count_lt(self@, x) % 2 == (count_lt(old(self)@, x) + (if (old(
                self)@[0] as int) < x {
                    1int
                } else {
                    0int
                }) + (if (old(self)@[1] as int) < x {
                    1int
                } else {
                    0int
                })) % 2 by {
                lemma_count_remove(s0, 0, x);
                lemma_count_remove(s1, 0, x);
            }
            assert forall|x: int|
                #[trigger] count_le(self@, x) % 2 == (count_le(old(self)@, x) + (if (old(
                self)@[0] as int) <= x {
                    1int
                } else {
                    0int
                }) + (if (old(self)@[1] as int) <= x {
                    1int
                } else {
                    0int
                })) % 2 by {
                lemma_count_remove(s0, 0, x);
                lemma_count_remove(s1, 0, x);
            }
        }
        Some((low, high))
    }

    pub fn is_empty(&self) -> (r: bool)
        ensures
            r == (self@.len() == 0),
    {
        self.set.len() == 0
    }

    /// Number of remaining endpoints: twice the number of pairs.
    pub fn len(&self) -> (r: usize)
        ensures
            r == self@.len(),
    {
        self.set.len()
    }
}

} // verus!
