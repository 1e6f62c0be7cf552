use vstd::prelude::*;

verus! {

/// An entry after the cursor has visited its bucket once more: a pending
/// round is used up, an entry that is due stays due.
pub open spec fn count_down<T>(e: (T, nat)) -> (T, nat) {
    (e.0, if e.1 > 0 { (e.1 - 1) as nat } else { 0 })
}

/// What a wheel holds: for each bucket its entries with their pending rounds,
/// and the bucket under the cursor.
pub struct WheelModel<T> {
    pub slots: Seq<Seq<(T, nat)>>,
    pub cursor: nat,
}

impl<T> WheelModel<T> {
    pub open spec fn size(self) -> nat {
        self.slots.len()
    }

    pub open spec fn wf(self) -> bool {
        self.slots.len() > 0 && self.cursor < self.slots.len()
    }

    pub open spec fn next_cursor(self) -> nat {
        if self.cursor + 1 >= self.size() {
            0
        } else {
            self.cursor + 1
        }
    }

    /// The cursor moves to the next bucket, whose entries each use up a round.
    pub open spec fn stepped(self) -> Self {
        let c = self.next_cursor() as int;
        WheelModel {
            slots: self.slots.update(c, self.slots[c].map_values(|e: (T, nat)| count_down(e))),
            cursor: c as nat,
        }
    }

    pub open spec fn ticked(self, n: nat) -> Self
        decreases n,
    {
        if n == 0 {
            self
        } else {
            self.ticked((n - 1) as nat).stepped()
        }
    }

    /// Steps from the cursor to bucket `b`, between 1 and the wheel's size.
    pub open spec fn dist(self, b: int) -> nat {
        if b > self.cursor {
            (b - self.cursor) as nat
        } else {
            (b + self.size() - self.cursor) as nat
        }
    }

    /// Ticks until entry `i` of bucket `b` is due; zero once it is.
    pub open spec fn remaining(self, b: int, i: int) -> nat {
        let r = self.slots[b][i].1;
        if r == 0 {
            0
        } else {
            ((r - 1) * self.size() + self.dist(b)) as nat
        }
    }

    /// Entry `i` of bucket `b` can be expired now.
    pub open spec fn is_due(self, b: int, i: int) -> bool {
        b == self.cursor && self.slots[b][i].1 == 0
    }

    /// The bucket that a deadline `d` ticks ahead falls into.
    pub open spec fn target(self, d: nat) -> nat {
        let m = d % self.size();
        if self.cursor + m < self.size() {
            self.cursor + m
        } else {
            (self.cursor + m - self.size()) as nat
        }
    }

    /// The visits of its bucket that an entry `d` ticks ahead waits for.
    pub open spec fn rounds_for(self, d: nat) -> nat {
        if d % self.size() == 0 {
            d / self.size()
        } else {
            d / self.size() + 1
        }
    }

    pub open spec fn added(self, x: T, d: nat) -> Self {
        let b = self.target(d) as int;
        WheelModel { slots: self.slots.update(b, self.slots[b].push((x, self.rounds_for(d)))), cursor: self.cursor }
    }
}

/// One step of the cursor brings every pending entry one tick closer, and an
/// entry whose count reaches zero is then under the cursor.
pub proof fn lemma_step_counts_down<T>(w: WheelModel<T>, b: int, i: int)
    requires
        w.wf(),
        0 <= b < w.size(),
        0 <= i < w.slots[b].len(),
        w.remaining(b, i) > 0,
    ensures
        w.stepped().wf(),
        w.stepped().size() == w.size(),
        w.stepped().slots[b].len() == w.slots[b].len(),
        w.stepped().slots[b][i].0 == w.slots[b][i].0,
        w.stepped().remaining(b, i) + 1 == w.remaining(b, i),
        w.stepped().remaining(b, i) == 0 ==> w.stepped().is_due(b, i),
        w.stepped().remaining(b, i) > 0 ==> !w.stepped().is_due(b, i),
{
    let s = w.stepped();
    let r = w.slots[b][i].1;
    let n = w.size() as int;
    if b == w.next_cursor() {
        assert(s.slots[b][i] == count_down(w.slots[b][i]));
        assert(w.dist(b) == 1);
        if r == 1 {
            assert((r - 1) * n == 0) by (nonlinear_arith)
                requires r == 1;
        } else {
            assert(s.dist(b) == n);
            assert((r - 2) * n + n == (r - 1) * n) by (nonlinear_arith);
        }
    } else {
        assert(s.slots[b] == w.slots[b]);
        assert(w.dist(b) >= 2);
        assert(s.dist(b) + 1 == w.dist(b));
        assert((r - 1) * n >= 0) by (nonlinear_arith)
            requires r >= 1, n > 0;
    }
}

/// An entry added `d` ticks ahead is, after `k <= d` ticks, `d - k` ticks
/// from due, and it is due exactly when `k == d`.
pub proof fn lemma_timeout_due_after_deadline<T>(w: WheelModel<T>, x: T, d: nat, k: nat)
    requires
        w.wf(),
        k <= d,
    ensures
        ({
            let v = w.added(x, d).ticked(k);
            let b = w.target(d) as int;
            let i = w.slots[b].len() as int;
            &&& v.wf()
            &&& v.size() == w.size()
            &&& 0 <= b < v.size()
            &&& 0 <= i < v.slots[b].len()
            &&& v.slots[b][i].0 == x
            &&& v.remaining(b, i) == d - k
            &&& v.is_due(b, i) <==> k == d
        }),
    decreases k,
{
    let b = w.target(d) as int;
    let i = w.slots[b].len() as int;
    let n = w.size() as int;
    let a = w.added(x, d);
    if k == 0 {
        vstd::arithmetic::div_mod::lemma_fundamental_div_mod(d as int, n);
        assert(0 <= d as int % n < n);
        assert(a.slots[b][i] == (x, w.rounds_for(d)));
        let q = d as int / n;
        assert(q >= 0) by {
            vstd::arithmetic::div_mod::lemma_div_pos_is_pos(d as int, n);
        }
        if d > 0 {
            if d as int % n == 0 {
                assert(q >= 1) by (nonlinear_arith)
                    requires d == n * q + 0, d > 0, n > 0, q >= 0;
                assert(a.dist(b) == n);
                assert((q - 1) * n + n == n * q) by (nonlinear_arith);
            } else {
                assert(a.dist(b) == d as int % n);
                assert(q * n == n * q) by (nonlinear_arith);
            }
        }
    } else {
        lemma_timeout_due_after_deadline(w, x, d, (k - 1) as nat);
        lemma_step_counts_down(a.ticked((k - 1) as nat), b, i);
    }
}

#[derive(Debug)]
pub struct HashedWheelTimeout<T> {
    item: T,
    round: usize,
}

impl<T> HashedWheelTimeout<T> {
    pub closed spec fn entry(&self) -> (T, nat) {
        (self.item, self.round as nat)
    }

    fn new(item: T, round: usize) -> (r: Self)
        ensures
            r.entry() == (item, round as nat),
    {
        Self { item, round }
    }

    fn tick_a_round(&mut self)
        ensures
            final(self).entry() == count_down(old(self).entry()),
    {
        if self.round > 0 {
            self.round = self.round - 1;
        }
    }
}

/// The entries that fall into one position of the wheel, oldest first.
#[derive(Debug)]
pub struct HashedWheelBucket<T> {
    timeouts: Vec<HashedWheelTimeout<T>>,
}

impl<T> HashedWheelBucket<T> {
    pub closed spec fn entries(&self) -> Seq<(T, nat)> {
        self.timeouts@.map_values(|t: HashedWheelTimeout<T>| t.entry())
    }

    fn new() -> (r: Self)
        ensures
            r.entries() == Seq::<(T, nat)>::empty(),
    {
        let r = Self { timeouts: Vec::new() };
        assert(r.entries() =~= Seq::<(T, nat)>::empty());
        r
    }

    fn tick(&mut self)
        ensures
            final(self).entries() == old(self).entries().map_values(|e: (T, nat)| count_down(e)),
    {
        let n = self.timeouts.len();
        let mut j: usize = 0;
        while j < n
            invariant
                self.timeouts@.len() == n,
                n == old(self).timeouts@.len(),
                j <= n,
                forall|k: int| 0 <= k < j ==> #[trigger] self.timeouts@[k].entry() == count_down(
                    old(self).timeouts@[k].entry(),
                ),
                forall|k: int| j <= k < n ==> #[trigger] self.timeouts@[k] == old(self).timeouts@[k],
            decreases n - j,
        {
            self.timeouts[j].tick_a_round();
            j = j + 1;
        }
        assert(self.entries() =~= old(self).entries().map_values(|e: (T, nat)| count_down(e)));
    }

    fn empty(&self) -> (r: bool)
        ensures
            r == (self.entries().len() == 0),
    {
        self.timeouts.len() == 0
    }

    fn add_timeout(&mut self, timeout: HashedWheelTimeout<T>)
        ensures
            final(self).entries() == old(self).entries().push(timeout.entry()),
    {
        self.timeouts.push(timeout);
        assert(self.entries() =~= old(self).entries().push(timeout.entry()));
    }

    /// Removes the oldest entry that has no round left, and returns its item.
    fn expired_timeout(&mut self) -> (r: Option<T>)
        ensures
            ({
                let s = old(self).entries();
                match r {
                    None => final(self).entries() == s && forall|i: int|
                        0 <= i < s.len() ==> #[trigger] s[i].1 != 0,
                    Some(x) => exists|i: int|
                        0 <= i < s.len() && s[i].1 == 0 && s[i].0 == x && (forall|j: int|
                            0 <= j < i ==> #[trigger] s[j].1 != 0) && final(self).entries()
                            == s.remove(i),
                }
            }),
    {
        let n = self.timeouts.len();
        let mut i: usize = 0;
        while i < n && self.timeouts[i].round != 0
            invariant
                n == self.timeouts@.len(),
                i <= n,
                *self == *old(self),
                forall|j: int| 0 <= j < i ==> #[trigger] self.entries()[j].1 != 0,
            decreases n - i,
        {
            i = i + 1;
        }
        if i == n {
            return None;
        }
        let t = self.timeouts.remove(i);
        proof {
            let s = old(self).entries();
            assert(self.entries() =~= s.remove(i as int));
            assert(s[i as int].1 == 0);
        }
        Some(t.item)
    }
}

/// A timer wheel: an entry `d` ticks ahead is put in the bucket `d` steps from
/// the cursor and waits for as many visits of the cursor as it needs.
#[derive(Debug)]
pub struct HashedWheel<T> {
    buckets: Vec<HashedWheelBucket<T>>,
    cursor: usize,
    wheel_size: usize,
    resolution: usize,
}

impl<T> View for HashedWheel<T> {
    type V = WheelModel<T>;

    closed spec fn view(&self) -> WheelModel<T> {
        WheelModel {
            slots: self.buckets@.map_values(|bk: HashedWheelBucket<T>| bk.entries()),
            cursor: self.cursor as nat,
        }
    }
}

impl<T> HashedWheel<T> {
    pub closed spec fn wf(&self) -> bool {
        &&& self.buckets@.len() == self.wheel_size
        &&& self.wheel_size > 0
        &&& self.cursor < self.wheel_size
    }

    /// Cursor steps per tick.
    pub closed spec fn spec_resolution(&self) -> nat {
        self.resolution as nat
    }

    pub proof fn lemma_wf(&self)
        requires
            self.wf(),
        ensures
            self@.wf(),
    {
    }

    /// A wheel of 8 buckets that moves one bucket per tick.
    pub fn new() -> (r: Self)
        ensures
            r.wf(),
            r.spec_resolution() == 1,
            r@.size() == 8,
            r@.cursor == 0,
            forall|b: int| 0 <= b < 8 ==> (#[trigger] r@.slots[b]).len() == 0,
    {
        Self::with_size_and_resolution(8, 1)
    }

    pub fn with_size_and_resolution(wheel_size: usize, resolution: usize) -> (r: Self)
        requires
            wheel_size > 0,
        ensures
            r.wf(),
            r.spec_resolution() == resolution,
            r@.size() == wheel_size,
            r@.cursor == 0,
            forall|b: int| 0 <= b < wheel_size ==> (#[trigger] r@.slots[b]).len() == 0,
    {
        let mut buckets: Vec<HashedWheelBucket<T>> = Vec::new();
        let mut k: usize = 0;
        while k < wheel_size
            invariant
                k <= wheel_size,
                buckets@.len() == k,
                forall|b: int| 0 <= b < k ==> (#[trigger] buckets@[b]).entries().len() == 0,
            decreases wheel_size - k,
        {
            buckets.push(HashedWheelBucket::new());
            k = k + 1;
        }
        Self { buckets, cursor: 0, wheel_size, resolution }
    }

    pub fn resolution(&self) -> (r: usize)
        ensures
            r == self.spec_resolution(),
    {
        self.resolution
    }

    pub fn wheel_size(&self) -> (r: usize)
        requires
            self.wf(),
        ensures
            r == self@.size(),
    {
        self.wheel_size
    }

    /// No entry is pending.
    pub fn empty(&self) -> (r: bool)
        requires
            self.wf(),
        ensures
            r == (forall|b: int| 0 <= b < self@.size() ==> (#[trigger] self@.slots[b]).len() == 0),
    {
        let mut b: usize = 0;
        while b < self.wheel_size
            invariant
                self.wf(),
                b <= self.wheel_size,
                forall|j: int| 0 <= j < b ==> (#[trigger] self@.slots[j]).len() == 0,
            decreases self.wheel_size - b,
        {
            assert(self@.slots[b as int] == self.buckets@[b as int].entries());
            if !self.buckets[b].empty() {
                return false;
            }
            b = b + 1;
        }
        true
    }

    fn step(&mut self)
        requires
            old(self).wf(),
        ensures
            final(self).wf(),
            final(self)@ == old(self)@.stepped(),
            final(self).resolution == old(self).resolution,
    {
        let c = if self.cursor + 1 >= self.wheel_size {
            0
        } else {
            self.cursor + 1
        };
        self.cursor = c;
        self.buckets[c].tick();
        assert(self@.slots =~= old(self)@.stepped().slots);
    }

    /// Moves the cursor by the wheel's resolution.
    pub fn tick(&mut self)
        requires
            old(self).wf(),
        ensures
            final(self).wf(),
            final(self)@ == old(self)@.ticked(old(self).spec_resolution()),
            final(self).spec_resolution() == old(self).spec_resolution(),
    {
        let mut k: usize = 0;
        while k < self.resolution
            invariant
                self.wf(),
                k <= self.resolution,
                self.resolution == old(self).resolution,
                self@ == old(self)@.ticked(k as nat),
            decreases self.resolution - k,
        {
            self.step();
            k = k + 1;
        }
    }

    /// Schedules `value` to be due `deadline` ticks from now; a deadline in
    /// the past is due at once.
    pub fn add_timeout(&mut self, value: T, deadline: isize)
        requires
            old(self).wf(),
        ensures
            final(self).wf(),
            final(self)@ == old(self)@.added(value, if deadline < 0 { 0 } else { deadline as nat }),
            final(self).spec_resolution() == old(self).spec_resolution(),
    {
        let d: usize = if deadline < 0 {
            0
        } else {
            deadline as usize
        };
        let m = d % self.wheel_size;
        let b = if m < self.wheel_size - self.cursor {
            self.cursor + m
        } else {
            m - (self.wheel_size - self.cursor)
        };
        let round = if m == 0 {
            d / self.wheel_size
        } else {
            d / self.wheel_size + 1
        };
        assert(d / self.wheel_size < d || d / self.wheel_size == d) by {
            vstd::arithmetic::div_mod::lemma_div_is_ordered_by_denominator(d as int, 1, self.wheel_size as int);
        }
        let timeout = HashedWheelTimeout::new(value, round);
        self.buckets[b].add_timeout(timeout);
        assert(self@.slots =~= old(self)@.added(value, d as nat).slots);
    }

    /// Removes and returns the oldest due entry under the cursor, if any.
    pub fn expire_timeout(&mut self) -> (r: Option<T>)
        requires
            old(self).wf(),
        ensures
            final(self).wf(),
            final(self).spec_resolution() == old(self).spec_resolution(),
            final(self)@.cursor == old(self)@.cursor,
            final(self)@.size() == old(self)@.size(),
            ({
                let w = old(self)@;
                let c = w.cursor as int;
                let s = w.slots[c];
                match r {
                    None => final(self)@ == w && forall|i: int|
                        0 <= i < s.len() ==> !#[trigger] w.is_due(c, i),
                    Some(x) => exists|i: int|
                        0 <= i < s.len() && w.is_due(c, i) && s[i].0 == x && (forall|j: int|
                            0 <= j < i ==> !#[trigger] w.is_due(c, j)) && final(self)@ == (WheelModel {
                            slots: w.slots.update(c, s.remove(i)),
                            cursor: w.cursor,
                        }),
                }
            }),
    {
        let c = self.cursor;
        let r = self.buckets[c].expired_timeout();
        proof {
            let w = old(self)@;
            let ci = c as int;
            let s = w.slots[ci];
            assert(s == old(self).buckets@[ci].entries());
            assert(self@.slots =~= w.slots.update(ci, self.buckets@[ci].entries()));
            if r is None {
                    assert(self@.slots =~= w.slots);
                    assert forall|i: int| 0 <= i < s.len() implies !#[trigger] w.is_due(ci, i) by {
                        assert(s[i].1 != 0);
                    }
            } else {
                    let x = r->0;
                    let i = choose|i: int|
                        0 <= i < s.len() && s[i].1 == 0 && s[i].0 == x && (forall|j: int|
                            0 <= j < i ==> #[trigger] s[j].1 != 0) && self.buckets@[ci].entries()
                            == s.remove(i);
                    assert(w.is_due(ci, i));
                    assert forall|j: int| 0 <= j < i implies !#[trigger] w.is_due(ci, j) by {
                        assert(s[j].1 != 0);
                    }
            }
        }
        r
    }
}

} // verus!
