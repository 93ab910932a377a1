use vstd::prelude::*;

verus! {

/// A value as it was written at a block height.
#[derive(Clone, Copy, Debug, PartialEq, Eq, Structural)]
pub struct Checkpoint {
    pub height: u64,
    pub value: u128,
}

/// A value with its past: one checkpoint per height it was written at.
#[derive(Clone, Debug)]
pub struct History {
    pub checkpoints: Vec<Checkpoint>,
}

/// Heights strictly increase along the checkpoints.
pub open spec fn heights_increasing(cps: Seq<Checkpoint>) -> bool {
    forall|i: int, j: int| 0 <= i < j < cps.len() ==> cps[i].height < cps[j].height
}

/// The value as it stood at the start of block `height`: the last one written
/// at a lower height, or zero when none was.
pub open spec fn value_at(cps: Seq<Checkpoint>, height: u64) -> nat
    decreases cps.len(),
{
    if cps.len() == 0 {
        0
    } else if cps.last().height < height {
        cps.last().value as nat
    } else {
        value_at(cps.drop_last(), height)
    }
}

/// The value as last written, or zero when none was.
pub open spec fn latest_value(cps: Seq<Checkpoint>) -> nat {
    if cps.len() == 0 {
        0
    } else {
        cps.last().value as nat
    }
}

/// The height of the last write, or zero when none was.
pub open spec fn latest_height(cps: Seq<Checkpoint>) -> nat {
    if cps.len() == 0 {
        0
    } else {
        cps.last().height as nat
    }
}

impl History {
    pub open spec fn wf(&self) -> bool {
        heights_increasing(self.checkpoints@)
    }

    /// A value never written.
    pub fn new() -> (r: History)
        ensures
            r.wf(),
            r.checkpoints@ == Seq::<Checkpoint>::empty(),
    {
        History { checkpoints: Vec::new() }
    }

    /// Writes `value` at `height`, which is no lower than any earlier write.
    /// Every later height then reads `value`; no height up to `height`
    /// reads anything other than before.
    pub fn save(&mut self, height: u64, value: u128)
        requires
            old(self).wf(),
            latest_height(old(self).checkpoints@) <= height,
        ensures
            final(self).wf(),
            latest_value(final(self).checkpoints@) == value,
            latest_height(final(self).checkpoints@) == height,
            forall|h: u64| #[trigger]
                value_at(final(self).checkpoints@, h) == if height < h {
                    value as nat
                } else {
                    value_at(old(self).checkpoints@, h)
                },
    {
        let ghost old_cps = self.checkpoints@;
        let n = self.checkpoints.len();
        if n > 0 && self.checkpoints[n - 1].height == height {
            self.checkpoints.set(n - 1, Checkpoint { height, value });
            proof {
                assert(self.checkpoints@.drop_last() =~= old_cps.drop_last());
                assert forall|h: u64| #[trigger]
                    value_at(self.checkpoints@, h) == if height < h {
                        value as nat
                    } else {
                        value_at(old_cps, h)
                    } by {
                    if !(height < h) {
                        assert(value_at(self.checkpoints@, h) == value_at(
                            self.checkpoints@.drop_last(),
                            h,
                        ));
                        assert(value_at(old_cps, h) == value_at(old_cps.drop_last(), h));
                    }
                }
            }
        } else {
            self.checkpoints.push(Checkpoint { height, value });
            proof {
                assert(self.checkpoints@.drop_last() =~= old_cps);
                assert forall|h: u64| #[trigger]
                    value_at(self.checkpoints@, h) == if height < h {
                        value as nat
                    } else {
                        value_at(old_cps, h)
                    } by {
                    if !(height < h) {
                        assert(value_at(self.checkpoints@, h) == value_at(
                            self.checkpoints@.drop_last(),
                            h,
                        ));
                    }
                }
            }
        }
    }

    /// The value as it stood at the start of block `height`.
    pub fn load_at(&self, height: u64) -> (r: u128)
        ensures
            r == value_at(self.checkpoints@, height),
    {
        let mut i: usize = self.checkpoints.len();
        assert(self.checkpoints@.take(i as int) =~= self.checkpoints@);
        while i > 0
            invariant
                i <= self.checkpoints.len(),
                value_at(self.checkpoints@, height) == value_at(
                    self.checkpoints@.take(i as int),
                    height,
                ),
            decreases i,
        {
            let cp = self.checkpoints[i - 1];
            assert(self.checkpoints@.take(i as int).drop_last() =~= self.checkpoints@.take(
                i - 1,
            ));
            if cp.height < height {
                return cp.value;
            }
            i = i - 1;
        }
        0
    }

    /// The value as last written.
    pub fn latest(&self) -> (r: u128)
        ensures
            r == latest_value(self.checkpoints@),
    {
        let n = self.checkpoints.len();
        if n == 0 {
            0
        } else {
            self.checkpoints[n - 1].value
        }
    }
}

} // verus!

verus! {

/// The past of one address's value.
#[derive(Debug)]
pub struct AddressHistory {
    pub address: String,
    pub history: History,
}

/// The checkpoints kept for `a`: those of the last entry with that address,
/// or none.
pub open spec fn history_of(hs: Seq<AddressHistory>, a: Seq<char>) -> Seq<Checkpoint>
    decreases hs.len(),
{
    if hs.len() == 0 {
        Seq::empty()
    } else if hs.last().address@ == a {
        hs.last().history.checkpoints@
    } else {
        history_of(hs.drop_last(), a)
    }
}

/// Every history is well formed and written no higher than `mark`.
pub open spec fn histories_below(hs: Seq<AddressHistory>, mark: u64) -> bool {
    forall|i: int|
        0 <= i < hs.len() ==> (#[trigger] hs[i]).history.wf() && latest_height(
            hs[i].history.checkpoints@,
        ) <= mark
}

proof fn lemma_history_update(hs: Seq<AddressHistory>, i: int, x: AddressHistory)
    requires
        0 <= i < hs.len(),
        x.address@ == hs[i].address@,
        forall|j: int| i < j < hs.len() ==> (#[trigger] hs[j]).address@ != x.address@,
    ensures
        forall|b: Seq<char>| #[trigger]
            history_of(hs.update(i, x), b) == if b == x.address@ {
                x.history.checkpoints@
            } else {
                history_of(hs, b)
            },
    decreases hs.len(),
{
    let ns = hs.update(i, x);
    if i == hs.len() - 1 {
        assert(ns.drop_last() =~= hs.drop_last());
        assert forall|b: Seq<char>| #[trigger]
            history_of(ns, b) == if b == x.address@ {
                x.history.checkpoints@
            } else {
                history_of(hs, b)
            } by {
            assert(ns.last() == x);
        }
    } else {
        assert(ns.drop_last() =~= hs.drop_last().update(i, x));
        lemma_history_update(hs.drop_last(), i, x);
        assert(hs[hs.len() - 1].address@ != x.address@);
        assert forall|b: Seq<char>| #[trigger]
            history_of(ns, b) == if b == x.address@ {
                x.history.checkpoints@
            } else {
                history_of(hs, b)
            } by {
            assert(ns.last() == hs.last());
            assert(history_of(ns.drop_last(), b) == history_of(hs.drop_last().update(i, x), b));
        }
    }
}

pub proof fn lemma_history_absent(hs: Seq<AddressHistory>, a: Seq<char>)
    requires
        forall|j: int| 0 <= j < hs.len() ==> (#[trigger] hs[j]).address@ != a,
    ensures
        history_of(hs, a) == Seq::<Checkpoint>::empty(),
    decreases hs.len(),
{
    if hs.len() > 0 {
        assert(hs[hs.len() - 1].address@ != a);
        lemma_history_absent(hs.drop_last(), a);
    }
}

/// A copy of a history.
pub fn copy_history(h: &History) -> (r: History)
    ensures
        r.checkpoints@ == h.checkpoints@,
{
    let mut cps: Vec<Checkpoint> = Vec::new();
    let mut i: usize = 0;
    while i < h.checkpoints.len()
        invariant
            i <= h.checkpoints.len(),
            cps@ == h.checkpoints@.take(i as int),
        decreases h.checkpoints.len() - i,
    {
        cps.push(h.checkpoints[i]);
        i = i + 1;
        assert(cps@ =~= h.checkpoints@.take(i as int));
    }
    assert(h.checkpoints@.take(i as int) =~= h.checkpoints@);
    History { checkpoints: cps }
}

/// Writes `value` for `address` at `height`; other addresses keep their past.
pub fn save_for(hs: &mut Vec<AddressHistory>, address: &String, height: u64, value: u128, mark: u64)
    requires
        histories_below(old(hs)@, mark),
        mark <= height,
    ensures
        histories_below(final(hs)@, height),
        forall|b: Seq<char>|
            b != address@ ==> #[trigger] history_of(final(hs)@, b) == history_of(old(hs)@, b),
        latest_value(history_of(final(hs)@, address@)) == value,
        forall|h: u64| #[trigger]
            value_at(history_of(final(hs)@, address@), h) == if height < h {
                value as nat
            } else {
                value_at(history_of(old(hs)@, address@), h)
            },
{
    let mut i: usize = hs.len();
    while i > 0 && hs[i - 1].address != *address
        invariant
            i <= hs.len(),
            forall|j: int| i <= j < hs.len() ==> (#[trigger] hs@[j]).address@ != address@,
        decreases i,
    {
        i = i - 1;
    }
    if i > 0 {
        let k = i - 1;
        let mut h = copy_history(&hs[k].history);
        assert(hs@[k as int].history.wf());
        h.save(height, value);
        let ghost old_hs = hs@;
        proof {
            assert(history_of(old_hs, address@) == old_hs[k as int].history.checkpoints@) by {
                lemma_history_update(old_hs, k as int, old_hs[k as int]);
                assert(old_hs.update(k as int, old_hs[k as int]) =~= old_hs);
            }
        }
        let entry = AddressHistory { address: address.clone(), history: h };
        hs.set(k, entry);
        proof {
            lemma_history_update(old_hs, k as int, hs@[k as int]);
            assert(hs@ == old_hs.update(k as int, hs@[k as int]));
        }
    } else {
        proof {
            lemma_history_absent(hs@, address@);
        }
        let mut h = History::new();
        h.save(height, value);
        let ghost old_hs = hs@;
        hs.push(AddressHistory { address: address.clone(), history: h });
        assert(hs@.drop_last() =~= old_hs);
    }
}

/// The value kept for `address` as it stood at the start of block `height`.
pub fn load_for(hs: &Vec<AddressHistory>, address: &String, height: u64) -> (r: u128)
    ensures
        r == value_at(history_of(hs@, address@), height),
{
    let mut i: usize = hs.len();
    while i > 0 && hs[i - 1].address != *address
        invariant
            i <= hs.len(),
            forall|j: int| i <= j < hs.len() ==> (#[trigger] hs@[j]).address@ != address@,
        decreases i,
    {
        i = i - 1;
    }
    if i > 0 {
        proof {
            let k = (i - 1) as int;
            lemma_history_update(hs@, k, hs@[k]);
            assert(hs@.update(k, hs@[k]) =~= hs@);
        }
        hs[i - 1].history.load_at(height)
    } else {
        proof {
            lemma_history_absent(hs@, address@);
        }
        0
    }
}

/// After the last write, every height reads the value last written.
pub proof fn lemma_value_after_latest(cps: Seq<Checkpoint>, h: u64)
    requires
        heights_increasing(cps),
        latest_height(cps) < h,
    ensures
        value_at(cps, h) == latest_value(cps),
{
}

/// A height at or below the first write reads zero.
pub proof fn lemma_value_before_first(cps: Seq<Checkpoint>, h: u64)
    requires
        heights_increasing(cps),
        cps.len() > 0 ==> h <= cps[0].height,
    ensures
        value_at(cps, h) == 0,
    decreases cps.len(),
{
    if cps.len() > 1 {
        assert(cps[0].height < cps[cps.len() - 1].height);
        let d = cps.drop_last();
        assert forall|i: int, j: int| 0 <= i < j < d.len() implies d[i].height < d[j].height by {
            assert(cps[i].height < cps[j].height);
        }
        assert(d[0] == cps[0]);
        lemma_value_before_first(d, h);
        assert(value_at(cps, h) == value_at(d, h));
    } else if cps.len() == 1 {
        assert(value_at(cps, h) == value_at(cps.drop_last(), h));
        assert(cps.drop_last().len() == 0);
    }
}

/// The value last written for `address`.
pub fn latest_for(hs: &Vec<AddressHistory>, address: &String) -> (r: u128)
    ensures
        r == latest_value(history_of(hs@, address@)),
{
    let mut i: usize = hs.len();
    while i > 0 && hs[i - 1].address != *address
        invariant
            i <= hs.len(),
            forall|j: int| i <= j < hs.len() ==> (#[trigger] hs@[j]).address@ != address@,
        decreases i,
    {
        i = i - 1;
    }
    if i > 0 {
        proof {
            let k = (i - 1) as int;
            lemma_history_update(hs@, k, hs@[k]);
            assert(hs@.update(k, hs@[k]) =~= hs@);
        }
        hs[i - 1].history.latest()
    } else {
        proof {
            lemma_history_absent(hs@, address@);
        }
        0
    }
}

/// Whether the heights increase and the last is no higher than `mark`.
pub fn history_below(h: &History, mark: u64) -> (r: bool)
    ensures
        r == (h.wf() && latest_height(h.checkpoints@) <= mark),
{
    let n = h.checkpoints.len();
    if n == 0 {
        return true;
    }
    assert(heights_increasing(h.checkpoints@.take(1)));
    let mut i: usize = 1;
    while i < n
        invariant
            n == h.checkpoints@.len(),
            1 <= i <= n,
            heights_increasing(h.checkpoints@.take(i as int)),
        decreases n - i,
    {
        if h.checkpoints[i - 1].height >= h.checkpoints[i].height {
            proof {
                assert(!heights_increasing(h.checkpoints@)) by {
                    assert(!(h.checkpoints@[i - 1].height < h.checkpoints@[i as int].height));
                }
            }
            return false;
        }
        proof {
            let t = h.checkpoints@.take(i + 1);
            assert forall|p: int, q: int| 0 <= p < q < t.len() implies t[p].height < t[q].height by {
                if q < i {
                    assert(h.checkpoints@.take(i as int)[p] == t[p]);
                    assert(h.checkpoints@.take(i as int)[q] == t[q]);
                } else if p < i - 1 {
                    assert(h.checkpoints@.take(i as int)[p] == t[p]);
                    assert(h.checkpoints@.take(i as int)[i - 1] == t[i - 1]);
                }
            }
        }
        i = i + 1;
    }
    assert(h.checkpoints@.take(n as int) =~= h.checkpoints@);
    h.checkpoints[n - 1].height <= mark
}

/// Whether every history is well formed and written no higher than `mark`.
pub fn histories_below_check(hs: &Vec<AddressHistory>, mark: u64) -> (r: bool)
    ensures
        r == histories_below(hs@, mark),
{
    let mut i: usize = 0;
    while i < hs.len()
        invariant
            i <= hs.len(),
            forall|j: int|
                0 <= j < i ==> (#[trigger] hs@[j]).history.wf() && latest_height(
                    hs@[j].history.checkpoints@,
                ) <= mark,
        decreases hs.len() - i,
    {
        if !history_below(&hs[i].history, mark) {
            return false;
        }
        i = i + 1;
    }
    true
}

} // verus!
