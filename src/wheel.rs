use vstd::prelude::*;

use crate::slab::{link_at, Handle, Slab};

verus! {

/// Slots per level.
const WHEEL_SIZE: usize = 64;

/// Bits of a deadline that select a slot.
const WHEEL_BITS: u64 = 6;

/// Levels of the wheel.
const NUM_LEVELS: usize = 4;

/// Mask of the bits that select a slot.
const WHEEL_MASK: u64 = 63;

/// The level of a timer that is `duration` ticks away: the floor of the
/// duration's base-64 logarithm, kept within 0 to 3.
pub open spec fn level_for(duration: int) -> int {
    if duration < 64 {
        0
    } else if duration < 64 * 64 {
        1
    } else if duration < 64 * 64 * 64 {
        2
    } else {
        3
    }
}

/// The slot of `deadline` at `level`: the level's 6-bit field of the deadline.
pub open spec fn slot_for(deadline: u64, level: int) -> int {
    ((deadline >> ((6 * level) as u64)) & 63u64) as int
}

/// Where a timer due at `deadline` goes when the wheel stands at `now`:
/// its level and its slot.
pub open spec fn placement(deadline: u64, now: u64) -> (int, int) {
    let duration = if deadline > now {
        deadline - now
    } else {
        0
    };
    (level_for(duration), slot_for(deadline, level_for(duration)))
}

/// The ticks that one slot covers at `level`: 64 to the power `level`.
pub open spec fn span(level: int) -> int {
    if level <= 0 {
        1int
    } else if level == 1 {
        64int
    } else if level == 2 {
        4096int
    } else {
        262144int
    }
}

/// The farthest a deadline can lie ahead of the wheel and still be reached
/// on time: 64 to the power 4.
pub open spec fn horizon() -> int {
    16777216int
}

/// A timer due at `deadline`, held at `level` while the wheel stands at `now`,
/// is reached in time: at level 0 it is due within the next 64 ticks; above,
/// the first tick of its slot is still ahead, and within one round of the level.
pub open spec fn timely(deadline: u64, level: int, now: u64) -> bool {
    let (n, d) = (now as int, deadline as int);
    if level == 0 {
        n <= d < n + 64
    } else {
        n / span(level) < d / span(level) && d < n + 64 * span(level)
    }
}

/// Whether the tick that starts at `now` drains `bucket` (a level and a
/// slot): the level-0 slot of `now`, and for each higher level whose round
/// `now + 1` begins, that level's slot of `now + 1`.
pub open spec fn drained_by_tick(bucket: (int, int), now: u64) -> bool {
    let t = now as int + 1;
    ||| bucket.0 == 0 && bucket.1 == (now as int) % 64
    ||| 1 <= bucket.0 <= 3 && t % span(bucket.0) == 0 && bucket.1 == (t / span(bucket.0)) % 64
}

/// `timely`, or, for a level above `done`, due to be drained at `now`.
spec fn timely_or_due(deadline: u64, level: int, now: u64, done: int) -> bool {
    ||| timely(deadline, level, now)
    ||| (level > done && level >= 1 && (now as int) % span(level) == 0 && (now as int) / span(
        level,
    ) == (deadline as int) / span(level))
}

/// The slot of a deadline at a level is the level's digit of it in base 64.
proof fn lemma_slot_digit(d: u64, level: int)
    requires
        0 <= level < 4,
    ensures
        slot_for(d, level) == ((d as int) / span(level)) % 64,
{
    if level == 0 {
        assert((d >> 0u64) & 63u64 == d % 64) by (bit_vector);
    } else if level == 1 {
        assert((d >> 6u64) & 63u64 == (d / 64) % 64) by (bit_vector);
    } else if level == 2 {
        assert((d >> 12u64) & 63u64 == (d / 4096) % 64) by (bit_vector);
    } else {
        assert((d >> 18u64) & 63u64 == (d / 262144) % 64) by (bit_vector);
    }
}

/// A deadline not past and within the horizon is placed in time.
proof fn lemma_placement_timely(d: u64, now: u64)
    requires
        now <= d,
        d < now + horizon(),
    ensures
        timely(d, placement(d, now).0, now),
{
    let level = placement(d, now).0;
    if level == 1 {
        assert((now as int) / 64 < (d as int) / 64);
    } else if level == 2 {
        assert((now as int) / 4096 < (d as int) / 4096);
    } else if level == 3 {
        assert((now as int) / 262144 < (d as int) / 262144);
    }
}

/// The level of a duration is its base-64 logarithm, rounded down and kept
/// within 0 to 3: a duration at a level above 0 is at least that level's span,
/// and one below level 3 is under 64 spans.
pub proof fn lemma_level_is_log64(duration: int)
    requires
        duration >= 0,
    ensures
        0 <= level_for(duration) <= 3,
        level_for(duration) == 0 || span(level_for(duration)) <= duration,
        level_for(duration) == 3 || duration < 64 * span(level_for(duration)),
{
}

/// A timer in time at `c` and not due at `c` is in time at `c + 1`, or due
/// to be drained from its level at `c + 1`.
proof fn lemma_advance(d: u64, level: int, c: u64)
    requires
        0 <= level < 4,
        timely(d, level, c),
        d != c,
        c < u64::MAX,
    ensures
        timely_or_due(d, level, (c + 1) as u64, 0),
{
    let t = c + 1;
    if level == 1 {
        assert(t / 64 < d / 64 || (t % 64 == 0 && t / 64 == d / 64));
    } else if level == 2 {
        assert(t / 4096 < d / 4096 || (t % 4096 == 0 && t / 4096 == d / 4096));
    } else if level == 3 {
        assert(t / 262144 < d / 262144 || (t % 262144 == 0 && t / 262144 == d / 262144));
    }
}

/// `hs` lists, once each, the timers that left `before` to give `after`;
/// `out` holds their tasks in the same order, and each was due at `now`.
pub open spec fn fired_as<T>(
    before: Map<u32, (T, u64)>,
    after: Map<u32, (T, u64)>,
    hs: Seq<u32>,
    out: Seq<T>,
    now: u64,
) -> bool {
    &&& hs.no_duplicates()
    &&& hs.len() == out.len()
    &&& forall|j: int|
        0 <= j < hs.len() ==> {
            &&& before.contains_key(#[trigger] hs[j])
            &&& !after.contains_key(hs[j])
            &&& out[j] == before[hs[j]].0
            &&& before[hs[j]].1 <= now
        }
    &&& forall|h: u32| #[trigger] before.contains_key(h) && !after.contains_key(h) ==> hs.contains(h)
}

/// The pending timers went from `before` to `after`, and `out1` is `out0`
/// followed by the tasks of the timers that left, each once, each due at `now`.
/// The timers that stay keep their handles, tasks and deadlines.
pub open spec fn expired_between<T>(
    before: Map<u32, (T, u64)>,
    after: Map<u32, (T, u64)>,
    out0: Seq<T>,
    out1: Seq<T>,
    now: u64,
) -> bool {
    &&& after.submap_of(before)
    &&& out0.len() <= out1.len()
    &&& out1.subrange(0, out0.len() as int) == out0
    &&& exists|hs: Seq<u32>|
        fired_as(before, after, hs, out1.subrange(out0.len() as int, out1.len() as int), now)
}

/// The tasks of the timers of `list` due by `due_by`, in list order.
pub open spec fn due_tasks<T>(pending: Map<u32, (T, u64)>, list: Seq<u32>, due_by: u64) -> Seq<T>
    decreases list.len(),
{
    if list.len() == 0 {
        Seq::empty()
    } else {
        let rest = due_tasks(pending, list.drop_first(), due_by);
        if pending[list[0]].1 <= due_by {
            seq![pending[list[0]].0] + rest
        } else {
            rest
        }
    }
}

/// A hierarchical timing wheel: 4 levels of 64 buckets, each bucket a
/// doubly linked list of records in a slab.
pub struct TimingWheel<T> {
    current_tick: u64,
    /// The head of each bucket, bucket `level * 64 + slot`.
    wheels: Vec<Option<Handle>>,
    slab: Slab<T>,
    /// The handles of each bucket's list, from its head.
    buckets: Ghost<Seq<Seq<u32>>>,
    /// For each linked handle, its bucket and its position there.
    loc: Ghost<Map<u32, (int, int)>>,
}

impl<T> TimingWheel<T> {
    /// The current tick.
    pub closed spec fn now(&self) -> u64 {
        self.current_tick
    }

    /// The pending timers: for each handle, its task and deadline.
    pub closed spec fn pending(&self) -> Map<u32, (T, u64)> {
        Map::new(
            |h: u32| self.slab.occupied(h),
            |h: u32| (self.slab.entry(h).task, self.slab.entry(h).deadline),
        )
    }

    /// The level and slot of the bucket that holds the timer of `h`.
    pub closed spec fn bucket_of(&self, h: u32) -> (int, int) {
        (self.loc@[h].0 / 64, self.loc@[h].0 % 64)
    }

    /// The handles in bucket `(level, slot)`, from the head of its list.
    pub closed spec fn bucket_list(&self, level: int, slot: int) -> Seq<u32> {
        self.buckets@[level * 64 + slot]
    }

    /// The position of `h` in the list of its bucket, from the head.
    pub closed spec fn position(&self, h: u32) -> int {
        self.loc@[h].1
    }

    /// The timer of `h` is pending and will be reached in time.
    pub open spec fn on_time(&self, h: u32) -> bool {
        self.pending().contains_key(h) && timely(self.pending()[h].1, self.bucket_of(h).0, self.now())
    }

    /// The number of slots in the slab, free or not.
    pub closed spec fn slots_used(&self) -> nat {
        self.slab@.len()
    }

    /// The lists are well formed, except that the handles of `det` form a
    /// list of their own, linked by `next` only, in no bucket.
    closed spec fn inv(&self, det: Seq<u32>) -> bool {
        let bk = self.buckets@;
        let loc = self.loc@;
        &&& self.slab.wf()
        &&& self.wheels@.len() == 256
        &&& bk.len() == 256
        &&& forall|b: int| 0 <= b < 256 ==> #[trigger] self.wheels@[b] == link_at(bk[b], 0)
        &&& forall|b: int, i: int|
            0 <= b < 256 && 0 <= i < bk[b].len() ==> loc.contains_key(#[trigger] bk[b][i])
                && loc[bk[b][i]] == (b, i)
        &&& forall|h: u32| #[trigger]
            loc.contains_key(h) ==> {
                let (b, i) = loc[h];
                &&& 0 <= b < 256
                &&& 0 <= i < bk[b].len()
                &&& bk[b][i] == h
                &&& self.slab.occupied(h)
                &&& self.slab.entry(h).next == link_at(bk[b], i + 1)
                &&& self.slab.entry(h).prev == link_at(bk[b], i - 1)
                &&& self.slab.entry(h).level as int == b / 64
                &&& b % 64 == slot_for(self.slab.entry(h).deadline, b / 64)
            }
        &&& det.no_duplicates()
        &&& forall|k: int|
            0 <= k < det.len() ==> {
                &&& self.slab.occupied(#[trigger] det[k])
                &&& !loc.contains_key(det[k])
                &&& self.slab.entry(det[k]).next == link_at(det, k + 1)
            }
        &&& forall|h: u32| #[trigger]
            self.slab.occupied(h) ==> loc.contains_key(h) || det.contains(h)
    }

    /// The wheel is well formed.
    pub closed spec fn wf(&self) -> bool {
        self.inv(Seq::empty())
    }

    /// An empty wheel at tick 0.
    pub fn new() -> (r: Self)
        ensures
            r.wf(),
            r.now() == 0,
            r.pending() == Map::<u32, (T, u64)>::empty(),
            r.slots_used() == 0,
    {
        let mut wheels: Vec<Option<Handle>> = Vec::new();
        let mut i: usize = 0;
        while i < NUM_LEVELS * WHEEL_SIZE
            invariant
                i <= 256,
                wheels@.len() == i,
                forall|b: int| 0 <= b < i ==> wheels@[b] is None,
            decreases 256 - i,
        {
            wheels.push(None);
            i = i + 1;
        }
        let r = TimingWheel {
            current_tick: 0,
            wheels,
            slab: Slab::new(),
            buckets: Ghost(Seq::new(256, |b: int| Seq::<u32>::empty())),
            loc: Ghost(Map::empty()),
        };
        assert(r.pending() =~= Map::<u32, (T, u64)>::empty());
        r
    }

    /// The level and slot for a timer due at `deadline`.
    fn place(&self, deadline: u64) -> (r: (usize, usize))
        ensures
            r.0 < 4,
            r.1 < 64,
            (r.0 as int, r.1 as int) == placement(deadline, self.now()),
    {
        let duration: u64 = if deadline > self.current_tick {
            deadline - self.current_tick
        } else {
            0
        };
        let level: usize = if duration < (1u64 << WHEEL_BITS) {
            0
        } else if duration < (1u64 << (2 * WHEEL_BITS)) {
            1
        } else if duration < (1u64 << (3 * WHEEL_BITS)) {
            2
        } else {
            3
        };
        assert(1u64 << 6u64 == 64) by (bit_vector);
        assert(1u64 << 12u64 == 64 * 64) by (bit_vector);
        assert(1u64 << 18u64 == 64 * 64 * 64) by (bit_vector);
        let shifted = deadline >> (level as u64 * WHEEL_BITS);
        let slot = shifted & WHEEL_MASK;
        assert(shifted & 63u64 < 64) by (bit_vector);
        (level, slot as usize)
    }
    /// Links the first handle of `det` at the head of bucket `(level, slot)`.
    fn link(&mut self, h: Handle, level: usize, slot: usize, Ghost(det): Ghost<Seq<u32>>)
        requires
            old(self).inv(det),
            det.len() > 0,
            det[0] == h.0,
            level < 4,
            slot < 64,
            slot as int == slot_for(old(self).slab.entry(h.0).deadline, level as int),
        ensures
            final(self).inv(det.drop_first()),
            final(self).pending() == old(self).pending(),
            final(self).now() == old(self).now(),
            final(self).slots_used() == old(self).slots_used(),
            final(self).bucket_of(h.0) == (level as int, slot as int),
            final(self).loc@.contains_key(h.0),
            final(self).loc@[h.0].1 == 0,
            final(self).buckets@ == old(self).buckets@.update(
                level * 64 + slot,
                seq![h.0] + old(self).buckets@[level * 64 + slot],
            ),
            forall|x: u32| #[trigger]
                old(self).loc@.contains_key(x) ==> final(self).loc@.contains_key(x)
                    && final(self).loc@[x].0 == old(self).loc@[x].0,
    {
        let ghost bk = self.buckets@;
        let ghost loc = self.loc@;
        let ghost old_slab = self.slab@;
        let b = level * WHEEL_SIZE + slot;
        let ghost ob = bk[b as int];
        let old_head = self.wheels[b];
        assert(!loc.contains_key(h.0));
        match self.slab.get_mut(h) {
            Some(e) => {
                e.next = old_head;
                e.prev = None;
                e.level = level as u8;
            },
            None => {},
        }
        let ghost mid_slab = self.slab@;
        match old_head {
            Some(oh) => {
                assert(loc.contains_key(ob[0]));
                match self.slab.get_mut(oh) {
                    Some(e) => {
                        e.prev = Some(h);
                    },
                    None => {},
                }
            },
            None => {},
        }
        self.wheels[b] = Some(h);
        let ghost nb = seq![h.0] + ob;
        self.buckets = Ghost(bk.update(b as int, nb));
        self.loc = Ghost(
            Map::new(
                |x: u32| loc.contains_key(x) || x == h.0,
                |x: u32|
                    if x == h.0 {
                        (b as int, 0int)
                    } else if loc[x].0 == b as int {
                        (b as int, loc[x].1 + 1)
                    } else {
                        loc[x]
                    },
            ),
        );
        assert(self.pending() =~= old(self).pending());
        proof {
            let bk2 = self.buckets@;
            let loc2 = self.loc@;
            let d2 = det.drop_first();
            assert((b as int) / 64 == level as int && (b as int) % 64 == slot as int);
            assert forall|c: int| 0 <= c < 256 implies #[trigger] self.wheels@[c] == link_at(
                bk2[c],
                0,
            ) by {
                if c != b as int {
                    assert(old(self).wheels@[c] == link_at(bk[c], 0));
                }
            }
            assert forall|c: int, i: int| 0 <= c < 256 && 0 <= i < bk2[c].len() implies loc2.contains_key(
                #[trigger] bk2[c][i],
            ) && loc2[bk2[c][i]] == (c, i) by {
                if c == b as int {
                    if i > 0 {
                        assert(bk2[c][i] == ob[i - 1]);
                        assert(loc.contains_key(bk[c][i - 1]));
                    }
                } else {
                    assert(loc.contains_key(bk[c][i]));
                }
            }
            assert forall|x: u32| #[trigger] loc2.contains_key(x) implies {
                let (c, i) = loc2[x];
                &&& 0 <= c < 256
                &&& 0 <= i < bk2[c].len()
                &&& bk2[c][i] == x
                &&& self.slab.occupied(x)
                &&& self.slab.entry(x).next == link_at(bk2[c], i + 1)
                &&& self.slab.entry(x).prev == link_at(bk2[c], i - 1)
                &&& self.slab.entry(x).level as int == c / 64
                &&& c % 64 == slot_for(self.slab.entry(x).deadline, c / 64)
            } by {
                if x != h.0 {
                    assert(loc.contains_key(x));
                    let (c, i) = loc[x];
                    if c == b as int {
                        assert(bk2[c][i + 1] == ob[i]);
                        assert(link_at(bk2[c], i + 2) == link_at(ob, i + 1));
                        if i > 0 {
                            assert(link_at(bk2[c], i) == link_at(ob, i - 1));
                            assert(x != ob[0]);
                        }
                    } else {
                        assert(x != ob[0] || ob.len() == 0);
                    }
                } else {
                    assert(link_at(nb, 1) == link_at(ob, 0));
                }
            }
            assert forall|k: int| 0 <= k < d2.len() implies {
                &&& self.slab.occupied(#[trigger] d2[k])
                &&& !loc2.contains_key(d2[k])
                &&& self.slab.entry(d2[k]).next == link_at(d2, k + 1)
            } by {
                assert(d2[k] == det[k + 1]);
                assert(det[k + 1] != det[0]);
                assert(link_at(d2, k + 1) == link_at(det, k + 2));
                assert(ob.len() > 0 ==> loc.contains_key(ob[0]));
            }
            assert forall|x: u32| #[trigger] self.slab.occupied(x) implies loc2.contains_key(x)
                || d2.contains(x) by {
                if x != h.0 {
                    assert(old(self).slab.occupied(x));
                    if !loc.contains_key(x) {
                        let k = choose|k: int| 0 <= k < det.len() && det[k] == x;
                        assert(d2[k - 1] == x);
                    }
                }
            }
        }
    }
    /// Schedules `task` for `deadline` and returns its handle, which stays
    /// its handle until it expires or is cancelled. The timer goes to the
    /// bucket that `placement` gives; it is on time where its deadline is not
    /// past and lies within `horizon()` ticks. A deadline already past is
    /// placed by its own slot at level 0, and fires when that slot next comes
    /// round.
    pub fn insert(&mut self, task: T, deadline: u64) -> (h: Handle)
        requires
            old(self).wf(),
            old(self).slots_used() < u32::MAX,
        ensures
            final(self).wf(),
            h.0 != 0,
            !old(self).pending().contains_key(h.0),
            final(self).pending() == old(self).pending().insert(h.0, (task, deadline)),
            final(self).bucket_of(h.0) == placement(deadline, old(self).now()),
            final(self).position(h.0) == 0,
            ({
                let (l, s) = placement(deadline, old(self).now());
                final(self).bucket_list(l, s) == seq![h.0] + old(self).bucket_list(l, s)
            }),
            forall|l: int, s: int|
                0 <= l < 4 && 0 <= s < 64 && (l, s) != placement(deadline, old(self).now())
                    ==> #[trigger] final(self).bucket_list(l, s) == old(self).bucket_list(l, s),
            forall|x: u32| #[trigger]
                old(self).pending().contains_key(x)
                    ==> final(self).bucket_of(x) == old(self).bucket_of(x),
            old(self).now() <= deadline < old(self).now() + horizon() ==> final(self).on_time(h.0),
            forall|x: u32| #[trigger] old(self).on_time(x) ==> final(self).on_time(x),
            final(self).now() == old(self).now(),
            final(self).slots_used() <= old(self).slots_used() + 1,
    {
        let (level, slot) = self.place(deadline);
        let ghost old_slab = self.slab@;
        let ghost loc = self.loc@;
        let h = self.slab.allocate(task, deadline, level as u8);
        proof {
            let det = seq![h.0];
            assert(!old(self).slab.occupied(h.0));
            assert forall|x: u32| #[trigger] loc.contains_key(x) implies x != h.0 by {
                assert(old(self).slab.occupied(x));
            }
            assert forall|x: u32| #[trigger] self.slab.occupied(x) implies loc.contains_key(x)
                || det.contains(x) by {
                if x != h.0 {
                    assert(old(self).slab.occupied(x));
                } else {
                    assert(det[0] == x);
                }
            }
            assert(self.slab.entry(h.0).next is None);
            assert(self.inv(det));
        }
        assert(self.pending() =~= old(self).pending().insert(h.0, (task, deadline)));
        let ghost det = seq![h.0];
        self.link(h, level, slot, Ghost(det));
        assert(self.pending() =~= old(self).pending().insert(h.0, (task, deadline)));
        proof {
            if old(self).now() <= deadline < old(self).now() + horizon() {
                lemma_placement_timely(deadline, old(self).now());
            }
            assert forall|x: u32| #[trigger] old(self).on_time(x) implies self.on_time(x) by {
                assert(old(self).slab.occupied(x));
                assert(loc.contains_key(x));
            }
        }
        h
    }
    /// Cancels the timer of `idx` and returns its task; `None`, with nothing
    /// changed, where `idx` names no pending timer.
    #[verifier::rlimit(60)]
    #[verifier::spinoff_prover]
    pub fn cancel(&mut self, idx: Handle) -> (r: Option<T>)
        requires
            old(self).wf(),
        ensures
            final(self).wf(),
            final(self).now() == old(self).now(),
            final(self).slots_used() == old(self).slots_used(),
            old(self).pending().contains_key(idx.0) ==> {
                &&& r == Some(old(self).pending()[idx.0].0)
                &&& final(self).pending() == old(self).pending().remove(idx.0)
            },
            !old(self).pending().contains_key(idx.0) ==> {
                &&& r is None
                &&& *final(self) == *old(self)
            },
            old(self).pending().contains_key(idx.0) ==> {
                let (l, s) = old(self).bucket_of(idx.0);
                &&& 0 <= old(self).position(idx.0) < old(self).bucket_list(l, s).len()
                &&& old(self).bucket_list(l, s)[old(self).position(idx.0)] == idx.0
                &&& final(self).bucket_list(l, s) == old(self).bucket_list(l, s).remove(
                    old(self).position(idx.0),
                )
                &&& forall|l2: int, s2: int|
                    0 <= l2 < 4 && 0 <= s2 < 64 && (l2, s2) != (l, s)
                        ==> #[trigger] final(self).bucket_list(l2, s2) == old(self).bucket_list(l2, s2)
            },
            forall|x: u32| #[trigger]
                old(self).pending().contains_key(x) && x != idx.0 ==> final(self).bucket_of(x)
                    == old(self).bucket_of(x),
            forall|x: u32| #[trigger] old(self).on_time(x) && x != idx.0 ==> final(self).on_time(x),
    {
        let (prev, next, deadline, level) = match self.slab.get(idx) {
            Some(entry) => (entry.prev, entry.next, entry.deadline, entry.level),
            None => {
                return None;
            },
        };
        let ghost bk = self.buckets@;
        let ghost loc = self.loc@;
        assert(loc.contains_key(idx.0));
        let ghost b = loc[idx.0].0;
        let ghost i = loc[idx.0].1;
        let ghost ob = bk[b];
        let shift = level as u64 * WHEEL_BITS;
        let slot = ((deadline >> shift) & WHEEL_MASK) as usize;
        assert(b == (level as int) * 64 + (slot as int));
        match prev {
            Some(p) => {
                assert(loc.contains_key(ob[i - 1]));
                match self.slab.get_mut(p) {
                    Some(prev_entry) => {
                        prev_entry.next = next;
                    },
                    None => {},
                }
            },
            None => {
                self.wheels[level as usize * WHEEL_SIZE + slot] = next;
            },
        }
        match next {
            Some(n) => {
                assert(loc.contains_key(ob[i + 1]));
                match self.slab.get_mut(n) {
                    Some(next_entry) => {
                        next_entry.prev = prev;
                    },
                    None => {},
                }
            },
            None => {},
        }
        let ghost nb = ob.remove(i);
        self.buckets = Ghost(bk.update(b, nb));
        self.loc = Ghost(
            Map::new(
                |x: u32| loc.contains_key(x) && x != idx.0,
                |x: u32|
                    if loc[x].0 == b && loc[x].1 > i {
                        (b, loc[x].1 - 1)
                    } else {
                        loc[x]
                    },
            ),
        );
        let ghost mid = self.pending();
        assert(mid =~= old(self).pending());
        let r = self.slab.free(idx);
        assert(self.pending() =~= old(self).pending().remove(idx.0));
        proof {
            let bk2 = self.buckets@;
            let loc2 = self.loc@;
            assert forall|c: int| 0 <= c < 256 implies #[trigger] self.wheels@[c] == link_at(
                bk2[c],
                0,
            ) by {
                assert(old(self).wheels@[c] == link_at(bk[c], 0));
                if c == b && i > 0 {
                    assert(nb[0] == ob[0]);
                }
            }
            assert forall|c: int, j: int| 0 <= c < 256 && 0 <= j < bk2[c].len() implies loc2.contains_key(
                #[trigger] bk2[c][j],
            ) && loc2[bk2[c][j]] == (c, j) by {
                if c == b {
                    if j < i {
                        assert(bk2[c][j] == ob[j]);
                        assert(loc.contains_key(ob[j]));
                    } else {
                        assert(bk2[c][j] == ob[j + 1]);
                        assert(loc.contains_key(ob[j + 1]));
                    }
                } else {
                    assert(loc.contains_key(bk[c][j]));
                }
            }
            assert forall|x: u32| #[trigger] loc2.contains_key(x) implies {
                let (c, j) = loc2[x];
                &&& 0 <= c < 256
                &&& 0 <= j < bk2[c].len()
                &&& bk2[c][j] == x
                &&& self.slab.occupied(x)
                &&& self.slab.entry(x).next == link_at(bk2[c], j + 1)
                &&& self.slab.entry(x).prev == link_at(bk2[c], j - 1)
                &&& self.slab.entry(x).level as int == c / 64
                &&& c % 64 == slot_for(self.slab.entry(x).deadline, c / 64)
            } by {
                assert(loc.contains_key(x));
                let (c, j) = loc[x];
                if c == b {
                    assert(j != i);
                    if j < i {
                        assert(nb[j] == ob[j]);
                        if j > 0 {
                            assert(nb[j - 1] == ob[j - 1]);
                        }
                        if j + 1 < i {
                            assert(nb[j + 1] == ob[j + 1]);
                        } else {
                            assert(link_at(nb, j + 1) == link_at(ob, i + 1));
                        }
                    } else {
                        assert(nb[j - 1] == ob[j]);
                        if j + 1 < ob.len() {
                            assert(nb[j] == ob[j + 1]);
                        }
                        if j - 1 > i {
                            assert(nb[j - 2] == ob[j - 1]);
                        } else {
                            assert(link_at(nb, j - 2) == link_at(ob, i - 1));
                        }
                    }
                }
            }
            assert forall|x: u32| #[trigger] self.slab.occupied(x) implies loc2.contains_key(x)
                || Seq::<u32>::empty().contains(x) by {
                assert(old(self).slab.occupied(x));
            }
        }
        r
    }
    /// Drains bucket `(level, slot)`: the timers in it that are due at the
    /// current tick are appended to `expired`, in list order (most recently
    /// linked first), and leave the wheel; the others are placed again, by
    /// their deadline, keeping their handles.
    pub fn process_bucket(&mut self, level: usize, slot: usize, expired: &mut Vec<T>)
        requires
            old(self).wf(),
            level < 4,
            slot < 64,
        ensures
            final(self).wf(),
            final(self).now() == old(self).now(),
            final(self).slots_used() == old(self).slots_used(),
            expired_between(
                old(self).pending(),
                final(self).pending(),
                old(expired)@,
                final(expired)@,
                old(self).now(),
            ),
            final(expired)@ == old(expired)@ + due_tasks(
                old(self).pending(),
                old(self).bucket_list(level as int, slot as int),
                old(self).now(),
            ),
            forall|h: u32| #[trigger]
                old(self).pending().contains_key(h) && old(self).bucket_of(h) != (
                    level as int,
                    slot as int,
                ) ==> final(self).pending().contains_key(h) && final(self).bucket_of(h)
                    == old(self).bucket_of(h),
            forall|h: u32| #[trigger]
                old(self).pending().contains_key(h) && old(self).bucket_of(h) == (
                    level as int,
                    slot as int,
                ) ==> {
                    let d = old(self).pending()[h].1;
                    &&& d <= old(self).now() ==> !final(self).pending().contains_key(h)
                    &&& d > old(self).now() ==> final(self).pending().contains_key(h)
                        && final(self).bucket_of(h) == placement(d, old(self).now())
                },
    {
        let now = self.current_tick;
        self.drain(level, slot, now, expired);
    }

    /// Drains bucket `(level, slot)`: the timers in it due by `due_by` are
    /// appended to `expired`, in list order, and leave the wheel; the others
    /// are placed again, by their deadline, keeping their handles.
    #[verifier::rlimit(100)]
    #[verifier::spinoff_prover]
    fn drain(&mut self, level: usize, slot: usize, due_by: u64, expired: &mut Vec<T>)
        requires
            old(self).wf(),
            level < 4,
            slot < 64,
        ensures
            final(self).wf(),
            final(self).now() == old(self).now(),
            final(self).slots_used() == old(self).slots_used(),
            expired_between(
                old(self).pending(),
                final(self).pending(),
                old(expired)@,
                final(expired)@,
                due_by,
            ),
            final(expired)@ == old(expired)@ + due_tasks(
                old(self).pending(),
                old(self).bucket_list(level as int, slot as int),
                due_by,
            ),
            forall|h: u32| #[trigger]
                old(self).pending().contains_key(h) && old(self).bucket_of(h) != (
                    level as int,
                    slot as int,
                ) ==> final(self).pending().contains_key(h) && final(self).bucket_of(h)
                    == old(self).bucket_of(h),
            forall|h: u32| #[trigger]
                old(self).pending().contains_key(h) && old(self).bucket_of(h) == (
                    level as int,
                    slot as int,
                ) ==> {
                    let d = old(self).pending()[h].1;
                    &&& d <= due_by ==> !final(self).pending().contains_key(h)
                    &&& d > due_by ==> final(self).pending().contains_key(h)
                        && final(self).bucket_of(h) == placement(d, old(self).now())
                },
    {
        let ghost before = self.pending();
        let ghost out0 = expired@;
        let ghost now = self.now();
        let ghost used = self.slots_used();
        let b = level * WHEEL_SIZE + slot;
        let mut next_idx = self.wheels[b];
        self.wheels[b] = None;
        let ghost bk = self.buckets@;
        let ghost loc = self.loc@;
        let ghost mut det = bk[b as int];
        let ghost det0 = det;
        self.buckets = Ghost(bk.update(b as int, Seq::empty()));
        self.loc = Ghost(Map::new(|x: u32| loc.contains_key(x) && loc[x].0 != b as int, |x: u32| loc[x]));
        proof {
            self.lemma_detach(old(self), b as int);
        }
        let ghost mut hs: Seq<u32> = Seq::empty();
        proof {
            self.lemma_drained_start(old(self), b as int);
        }
        assert(expired@.subrange(0, out0.len() as int) =~= out0);
        assert(self.pending() =~= before);
        assert(out0 + due_tasks(before, det0, due_by) == expired@ + due_tasks(before, det, due_by));
        while next_idx.is_some()
            invariant
                self.inv(det),
                next_idx == link_at(det, 0),
                self.now() == now,
                self.slots_used() == used,
                self.pending().submap_of(before),
                out0.len() <= expired@.len(),
                expired@.subrange(0, out0.len() as int) == out0,
                fired_as(
                    before,
                    self.pending(),
                    hs,
                    expired@.subrange(out0.len() as int, expired@.len() as int),
                    due_by,
                ),
                out0 + due_tasks(before, det0, due_by) == expired@ + due_tasks(before, det, due_by),
                self.drained_so_far(before, loc, b as int, det, due_by, now),
            decreases det.len(),
        {
            let curr = next_idx.unwrap();
            let entry = self.slab.get(curr).unwrap();
            let deadline = entry.deadline;
            let next_node = entry.next;
            assert(self.pending().contains_key(curr.0));
            assert(before.contains_key(curr.0));
            assert(before[curr.0].1 == deadline);
            if deadline <= due_by {
                let ghost p0 = self.pending();
                let ghost e0 = expired@;
                let ghost s0 = *self;
                let r = self.slab.free(curr);
                assert(r is Some);
                match r {
                    Some(task) => {
                        expired.push(task);
                    },
                    None => {},
                }
                proof {
                    self.lemma_after_free(&s0, det);
                    assert(self.pending() =~= p0.remove(curr.0));
                    lemma_fired_push(before, p0, self.pending(), hs, e0.subrange(
                        out0.len() as int,
                        e0.len() as int,
                    ), curr.0, due_by);
                    self.lemma_drained_free(&s0, before, loc, b as int, det, due_by, now);
                    assert(due_tasks(before, det, due_by) == seq![p0[curr.0].0] + due_tasks(
                        before,
                        det.drop_first(),
                        due_by,
                    ));
                    assert(e0 + due_tasks(before, det, due_by) =~= expired@ + due_tasks(
                        before,
                        det.drop_first(),
                        due_by,
                    ));
                    hs = hs.push(curr.0);
                    det = det.drop_first();
                    assert(expired@.subrange(0, out0.len() as int) =~= out0);
                    assert(expired@.subrange(out0.len() as int, expired@.len() as int) =~= e0.subrange(
                        out0.len() as int,
                        e0.len() as int,
                    ).push(p0[curr.0].0));
                }
            } else {
                let (new_level, new_slot) = self.place(deadline);
                let ghost s0 = *self;
                self.link(curr, new_level, new_slot, Ghost(det));
                proof {
                    self.lemma_drained_link(&s0, before, loc, b as int, det, due_by, now);
                    assert(due_tasks(before, det, due_by) == due_tasks(
                        before,
                        det.drop_first(),
                        due_by,
                    ));
                    det = det.drop_first();
                }
            }
            next_idx = next_node;
        }
        assert(det =~= Seq::<u32>::empty());
        assert(expired@ =~= out0 + due_tasks(before, det0, due_by));
        proof {
            reveal(TimingWheel::drained_so_far);
            assert forall|h: u32| #[trigger] before.contains_key(h) implies loc.contains_key(h) by {
                assert(old(self).slab.occupied(h));
            }
        }
        assert(fired_as(
            before,
            self.pending(),
            hs,
            expired@.subrange(out0.len() as int, expired@.len() as int),
            due_by,
        ));
    }
    /// While bucket `b` drains: the timers of other buckets stay where they
    /// were, those of `det` wait, and each other timer of `b` has expired
    /// (if due at `now`) or been placed again.
    #[verifier::opaque]
    closed spec fn drained_so_far(
        &self,
        before: Map<u32, (T, u64)>,
        loc0: Map<u32, (int, int)>,
        b: int,
        det: Seq<u32>,
        due_by: u64,
        now: u64,
    ) -> bool {
        &&& forall|k: int|
            0 <= k < det.len() ==> before.contains_key(#[trigger] det[k]) && loc0[det[k]].0 == b
        &&& forall|x: u32| #[trigger]
            before.contains_key(x) && loc0[x].0 != b ==> self.loc@.contains_key(x)
                && self.loc@[x].0 == loc0[x].0
        &&& forall|x: u32| #[trigger]
            before.contains_key(x) && loc0[x].0 == b && !det.contains(x) ==> {
                &&& before[x].1 <= due_by ==> !self.pending().contains_key(x)
                &&& before[x].1 > due_by ==> self.loc@.contains_key(x) && (
                    self.loc@[x].0 / 64,
                    self.loc@[x].0 % 64,
                ) == placement(before[x].1, now)
            }
    }

    proof fn lemma_drained_start(&self, pre: &Self, b: int)
        requires
            pre.wf(),
            0 <= b < 256,
            self.buckets@ == pre.buckets@.update(b, Seq::empty()),
            self.loc@ == Map::new(
                |x: u32| pre.loc@.contains_key(x) && pre.loc@[x].0 != b,
                |x: u32| pre.loc@[x],
            ),
        ensures
            forall|due_by: u64|
                #[trigger] self.drained_so_far(pre.pending(), pre.loc@, b, pre.buckets@[b], due_by, pre.now()),
    {
        reveal(TimingWheel::drained_so_far);
        let det = pre.buckets@[b];
        assert forall|k: int| 0 <= k < det.len() implies pre.pending().contains_key(
            #[trigger] det[k],
        ) && pre.loc@[det[k]].0 == b by {
            assert(pre.loc@.contains_key(det[k]));
        }
        assert forall|x: u32| #[trigger]
            pre.pending().contains_key(x) && pre.loc@[x].0 == b implies det.contains(x) by {
            assert(pre.slab.occupied(x));
            assert(det[pre.loc@[x].1] == x);
        }
        assert forall|x: u32| #[trigger]
            pre.pending().contains_key(x) && pre.loc@[x].0 != b implies self.loc@.contains_key(x) by {
            assert(pre.slab.occupied(x));
        }
    }

    proof fn lemma_drained_free(
        &self,
        pre: &Self,
        before: Map<u32, (T, u64)>,
        loc0: Map<u32, (int, int)>,
        b: int,
        det: Seq<u32>,
        due_by: u64,
        now: u64,
    )
        requires
            pre.drained_so_far(before, loc0, b, det, due_by, now),
            det.len() > 0,
            det.no_duplicates(),
            self.loc == pre.loc,
            self.pending() == pre.pending().remove(det[0]),
            before[det[0]].1 <= due_by,
        ensures
            self.drained_so_far(before, loc0, b, det.drop_first(), due_by, now),
    {
        reveal(TimingWheel::drained_so_far);
        let d2 = det.drop_first();
        assert forall|k: int| 0 <= k < d2.len() implies before.contains_key(#[trigger] d2[k])
            && loc0[d2[k]].0 == b by {
            assert(d2[k] == det[k + 1]);
        }
        assert forall|x: u32| #[trigger]
            before.contains_key(x) && loc0[x].0 == b && !d2.contains(x) && x != det[0] implies !det.contains(x) by {
            if det.contains(x) {
                let k = choose|k: int| 0 <= k < det.len() && det[k] == x;
                assert(d2[k - 1] == x);
            }
        }
    }

    proof fn lemma_drained_link(
        &self,
        pre: &Self,
        before: Map<u32, (T, u64)>,
        loc0: Map<u32, (int, int)>,
        b: int,
        det: Seq<u32>,
        due_by: u64,
        now: u64,
    )
        requires
            pre.drained_so_far(before, loc0, b, det, due_by, now),
            det.len() > 0,
            det.no_duplicates(),
            self.pending() == pre.pending(),
            forall|x: u32| #[trigger]
                pre.loc@.contains_key(x) ==> self.loc@.contains_key(x) && self.loc@[x].0
                    == pre.loc@[x].0,
            self.loc@.contains_key(det[0]),
            self.bucket_of(det[0]) == placement(before[det[0]].1, now),
            before[det[0]].1 > due_by,
        ensures
            self.drained_so_far(before, loc0, b, det.drop_first(), due_by, now),
    {
        reveal(TimingWheel::drained_so_far);
        let d2 = det.drop_first();
        assert forall|k: int| 0 <= k < d2.len() implies before.contains_key(#[trigger] d2[k])
            && loc0[d2[k]].0 == b by {
            assert(d2[k] == det[k + 1]);
        }
        assert forall|x: u32| #[trigger]
            before.contains_key(x) && loc0[x].0 == b && !d2.contains(x) && x != det[0] implies !det.contains(x) by {
            if det.contains(x) {
                let k = choose|k: int| 0 <= k < det.len() && det[k] == x;
                assert(d2[k - 1] == x);
            }
        }
    }

    /// One tick from `a` to `b`: time moves on by one, no timer joins, the
    /// timers that stay keep their tasks and deadlines, an on-time timer due
    /// at `a`'s tick is gone, and an on-time timer that stays is still on time.
    pub open spec fn keeps_time(a: &Self, b: &Self) -> bool {
        &&& b.now() == a.now() + 1
        &&& b.pending().submap_of(a.pending())
        &&& forall|h: u32| #[trigger]
            a.on_time(h) && a.pending()[h].1 == a.now() ==> !b.pending().contains_key(h)
        &&& forall|h: u32| #[trigger] a.on_time(h) && b.pending().contains_key(h) ==> b.on_time(h)
    }

    /// A timer on time is not overdue.
    pub proof fn lemma_on_time_ahead(&self, h: u32)
        requires
            self.on_time(h),
        ensures
            self.pending()[h].1 >= self.now(),
    {
    }

    /// No timer is lost: along a run of ticks, a timer that was on time at the
    /// start is gone once the wheel has passed its deadline.
    pub proof fn lemma_gone_after_deadline(run: Seq<Self>, h: u32)
        requires
            run.len() >= 1,
            forall|i: int| 0 <= i < run.len() - 1 ==> Self::keeps_time(#[trigger] &run[i], &run[i + 1]),
            run[0].on_time(h),
            run.last().now() > run[0].pending()[h].1,
        ensures
            !run.last().pending().contains_key(h),
    {
        Self::lemma_run_on_time(run, h, run.len() - 1);
    }

    /// No leaks and no duplicate firing: along a run of ticks from a wheel
    /// whose timers are all on time, once the wheel has passed every deadline
    /// no timer is left, and the expired list has gained the task of each
    /// timer exactly once.
    pub proof fn lemma_run_fires_all(run: Seq<Self>, outs: Seq<Seq<T>>)
        requires
            run.len() >= 1,
            outs.len() == run.len(),
            forall|i: int|
                0 <= i < run.len() - 1 ==> Self::keeps_time(#[trigger] &run[i], &run[i + 1])
                    && expired_between(
                    run[i].pending(),
                    run[i + 1].pending(),
                    outs[i],
                    outs[i + 1],
                    run[i].now(),
                ),
            forall|h: u32| #[trigger]
                run[0].pending().contains_key(h) ==> run[0].on_time(h) && run[0].pending()[h].1
                    < run.last().now(),
        ensures
            run.last().pending().dom().is_empty(),
            expired_between(run[0].pending(), run.last().pending(), outs[0], outs.last(), run.last().now()),
    {
        Self::lemma_run_expired(run, outs, run.len() - 1);
        assert forall|h: u32| !run.last().pending().contains_key(h) by {
            if run.last().pending().contains_key(h) {
                assert(run[0].pending().contains_key(h));
                Self::lemma_gone_after_deadline(run, h);
            }
        }
        assert(run.last().pending().dom() =~= Set::empty());
    }

    proof fn lemma_run_expired(run: Seq<Self>, outs: Seq<Seq<T>>, i: int)
        requires
            0 <= i < run.len(),
            outs.len() == run.len(),
            forall|j: int|
                0 <= j < run.len() - 1 ==> Self::keeps_time(#[trigger] &run[j], &run[j + 1])
                    && expired_between(
                    run[j].pending(),
                    run[j + 1].pending(),
                    outs[j],
                    outs[j + 1],
                    run[j].now(),
                ),
        ensures
            expired_between(run[0].pending(), run[i].pending(), outs[0], outs[i], run[i].now()),
            run[0].now() <= run[i].now(),
        decreases i,
    {
        if i == 0 {
            let o = outs[0];
            let e = o.subrange(o.len() as int, o.len() as int);
            assert(o.subrange(0, o.len() as int) =~= o);
            assert(fired_as(run[0].pending(), run[0].pending(), Seq::<u32>::empty(), e, run[0].now()));
        } else {
            Self::lemma_run_expired(run, outs, i - 1);
            assert(Self::keeps_time(&run[i - 1], &run[i]));
            lemma_expired_later(
                run[i - 1].pending(),
                run[i].pending(),
                outs[i - 1],
                outs[i],
                run[i - 1].now(),
                run[i].now(),
            );
            lemma_expired_later(
                run[0].pending(),
                run[i - 1].pending(),
                outs[0],
                outs[i - 1],
                run[i - 1].now(),
                run[i].now(),
            );
            lemma_expired_trans(
                run[0].pending(),
                run[i - 1].pending(),
                run[i].pending(),
                outs[0],
                outs[i - 1],
                outs[i],
                run[i].now(),
            );
        }
    }

    proof fn lemma_run_on_time(run: Seq<Self>, h: u32, i: int)
        requires
            0 <= i < run.len(),
            forall|j: int| 0 <= j < run.len() - 1 ==> Self::keeps_time(#[trigger] &run[j], &run[j + 1]),
            run[0].on_time(h),
        ensures
            run[i].pending().contains_key(h) ==> {
                &&& run[i].on_time(h)
                &&& run[i].pending()[h].1 == run[0].pending()[h].1
                &&& run[i].now() <= run[0].pending()[h].1
            },
        decreases i,
    {
        if i > 0 {
            Self::lemma_run_on_time(run, h, i - 1);
            assert(Self::keeps_time(&run[i - 1], &run[i]));
            if run[i].pending().contains_key(h) {
                assert(run[i - 1].pending().contains_key(h));
                run[i - 1].lemma_on_time_ahead(h);
            }
        } else {
            run[0].lemma_on_time_ahead(h);
        }
    }

    /// Where a pending timer is, by the lists.
    proof fn lemma_bucket_digit(&self, h: u32)
        requires
            self.wf(),
            self.pending().contains_key(h),
        ensures
            0 <= self.bucket_of(h).0 < 4,
            0 <= self.bucket_of(h).1 < 64,
            self.bucket_of(h).1 == ((self.pending()[h].1 as int) / span(self.bucket_of(h).0)) % 64,
    {
        assert(self.slab.occupied(h));
        assert(self.loc@.contains_key(h));
        lemma_slot_digit(self.pending()[h].1, self.bucket_of(h).0);
    }

    /// A level whose round the current tick does not end has nothing due.
    proof fn lemma_skip_level(&self, watched: Set<u32>, level: int)
        requires
            1 <= level < 4,
            (self.now() as int) % span(level) != 0,
            forall|h: u32|
                watched.contains(h) && #[trigger] self.pending().contains_key(h)
                    ==> timely_or_due(self.pending()[h].1, self.bucket_of(h).0, self.now(), level - 1),
        ensures
            forall|h: u32|
                watched.contains(h) && #[trigger] self.pending().contains_key(h)
                    ==> timely_or_due(self.pending()[h].1, self.bucket_of(h).0, self.now(), level),
    {
    }

    /// Emptying bucket `b` of a well-formed wheel detaches its list whole.
    proof fn lemma_detach(&self, pre: &Self, b: int)
        requires
            pre.wf(),
            0 <= b < 256,
            self.slab == pre.slab,
            self.wheels@ == pre.wheels@.update(b, None),
            self.buckets@ == pre.buckets@.update(b, Seq::empty()),
            self.loc@ == Map::new(
                |x: u32| pre.loc@.contains_key(x) && pre.loc@[x].0 != b,
                |x: u32| pre.loc@[x],
            ),
        ensures
            self.inv(pre.buckets@[b]),
    {
        let det = pre.buckets@[b];
        let loc = pre.loc@;
        let bk = pre.buckets@;
        assert forall|c: int| 0 <= c < 256 implies #[trigger] self.wheels@[c] == link_at(
            self.buckets@[c],
            0,
        ) by {
            assert(pre.wheels@[c] == link_at(bk[c], 0));
        }
        assert forall|c: int, i: int|
            0 <= c < 256 && 0 <= i < self.buckets@[c].len() implies self.loc@.contains_key(
            #[trigger] self.buckets@[c][i],
        ) && self.loc@[self.buckets@[c][i]] == (c, i) by {
            assert(loc.contains_key(bk[c][i]));
        }
        assert forall|x: u32| #[trigger] self.loc@.contains_key(x) implies {
            let (c, i) = self.loc@[x];
            &&& 0 <= c < 256
            &&& 0 <= i < self.buckets@[c].len()
            &&& self.buckets@[c][i] == x
            &&& self.slab.occupied(x)
            &&& self.slab.entry(x).next == link_at(self.buckets@[c], i + 1)
            &&& self.slab.entry(x).prev == link_at(self.buckets@[c], i - 1)
            &&& self.slab.entry(x).level as int == c / 64
            &&& c % 64 == slot_for(self.slab.entry(x).deadline, c / 64)
        } by {
            assert(loc.contains_key(x));
        }
        assert forall|i: int, j: int| 0 <= i < det.len() && 0 <= j < det.len() && i != j implies det[i]
            != det[j] by {
            assert(loc.contains_key(bk[b][i]));
            assert(loc.contains_key(bk[b][j]));
        }
        assert forall|k: int| 0 <= k < det.len() implies {
            &&& self.slab.occupied(#[trigger] det[k])
            &&& !self.loc@.contains_key(det[k])
            &&& self.slab.entry(det[k]).next == link_at(det, k + 1)
        } by {
            assert(loc.contains_key(bk[b][k]));
        }
        assert forall|x: u32| #[trigger] self.slab.occupied(x) implies self.loc@.contains_key(x)
            || det.contains(x) by {
            assert(pre.slab.occupied(x));
            assert(loc.contains_key(x));
            if loc[x].0 == b {
                assert(det[loc[x].1] == x);
            }
        }
    }

    /// Freeing the first record of the detached list leaves the rest of it.
    #[verifier::rlimit(80)]
    #[verifier::spinoff_prover]
    proof fn lemma_after_free(&self, pre: &Self, det: Seq<u32>)
        requires
            pre.inv(det),
            det.len() > 0,
            self.wheels == pre.wheels,
            self.buckets == pre.buckets,
            self.loc == pre.loc,
            self.slab.wf(),
            self.slab@ == pre.slab@.update(det[0] - 1, None),
        ensures
            self.inv(det.drop_first()),
    {
        let d2 = det.drop_first();
        let h = det[0];
        assert(pre.slab.occupied(h));
        assert forall|x: u32| x != h implies #[trigger] self.slab.occupied(x) == pre.slab.occupied(x)
            && (pre.slab.occupied(x) ==> self.slab.entry(x) == pre.slab.entry(x)) by {
            if 1 <= x <= self.slab@.len() {
                assert(self.slab@[x - 1] == pre.slab@[x - 1]);
            }
        }
        assert(!self.slab.occupied(h));
        assert forall|x: u32| #[trigger] self.loc@.contains_key(x) implies {
            let (c, i) = self.loc@[x];
            &&& 0 <= c < 256
            &&& 0 <= i < self.buckets@[c].len()
            &&& self.buckets@[c][i] == x
            &&& self.slab.occupied(x)
            &&& self.slab.entry(x).next == link_at(self.buckets@[c], i + 1)
            &&& self.slab.entry(x).prev == link_at(self.buckets@[c], i - 1)
            &&& self.slab.entry(x).level as int == c / 64
            &&& c % 64 == slot_for(self.slab.entry(x).deadline, c / 64)
        } by {
            assert(x != h);
        }
        assert forall|k: int| 0 <= k < d2.len() implies {
            &&& self.slab.occupied(#[trigger] d2[k])
            &&& !self.loc@.contains_key(d2[k])
            &&& self.slab.entry(d2[k]).next == link_at(d2, k + 1)
        } by {
            assert(d2[k] == det[k + 1]);
            assert(det[k + 1] != det[0]);
            assert(link_at(d2, k + 1) == link_at(det, k + 2));
        }
        assert forall|x: u32| #[trigger] self.slab.occupied(x) implies self.loc@.contains_key(x)
            || d2.contains(x) by {
            assert(x != h);
            assert(pre.slab.occupied(x));
            if !self.loc@.contains_key(x) {
                let k = choose|k: int| 0 <= k < det.len() && det[k] == x;
                assert(d2[k - 1] == x);
            }
        }
    }
    /// Advances the wheel by one tick: drains the current level-0 bucket,
    /// then, where the new tick ends a round of a lower level, the bucket of
    /// each higher level that the new tick selects (`drained_by_tick`). Timers
    /// of those buckets due by the tick the call starts at are appended to
    /// `expired`; the rest are placed again against the new tick, so that one
    /// due exactly at the new tick fires in the next call. A timer on time that
    /// is due at the current tick fires now; one on time that stays pending
    /// stays on time. Timers of other buckets stay where they are.
    pub fn tick(&mut self, expired: &mut Vec<T>)
        requires
            old(self).wf(),
            old(self).now() < u64::MAX,
        ensures
            final(self).wf(),
            final(self).now() == old(self).now() + 1,
            final(self).slots_used() == old(self).slots_used(),
            expired_between(
                old(self).pending(),
                final(self).pending(),
                old(expired)@,
                final(expired)@,
                old(self).now(),
            ),
            Self::keeps_time(old(self), final(self)),
            forall|h: u32| #[trigger]
                old(self).pending().contains_key(h) && !drained_by_tick(
                    old(self).bucket_of(h),
                    old(self).now(),
                ) ==> final(self).pending().contains_key(h) && final(self).bucket_of(h)
                    == old(self).bucket_of(h),
    {
        let ghost p0 = self.pending();
        let ghost kept = Set::new(
            |h: u32| old(self).pending().contains_key(h) && !drained_by_tick(old(self).bucket_of(h), old(self).now()),
        );
        let ghost where0 = Map::new(|h: u32| old(self).pending().contains_key(h), |h: u32| old(self).bucket_of(h));
        let ghost o0 = expired@;
        let ghost watched = Set::new(|h: u32| old(self).on_time(h));
        let ct = self.current_tick;
        let slot0 = (ct & WHEEL_MASK) as usize;
        assert(ct & 63u64 < 64 && ct & 63u64 == ct % 64) by (bit_vector);
        self.process_bucket(0, slot0, expired);
        self.current_tick = self.current_tick + 1;
        let tick = self.current_tick;
        proof {
            assert forall|h: u32| #[trigger] old(self).on_time(h) implies {
                &&& old(self).pending()[h].1 == old(self).now() ==> !self.pending().contains_key(h)
                &&& self.pending().contains_key(h) ==> timely_or_due(
                    self.pending()[h].1,
                    self.bucket_of(h).0,
                    tick,
                    0,
                )
            } by {
                old(self).lemma_bucket_digit(h);
                let d = old(self).pending()[h].1;
                if old(self).bucket_of(h) != (0int, slot0 as int) {
                    if old(self).bucket_of(h).0 == 0 {
                        assert(d != ct);
                    }
                    lemma_advance(d, old(self).bucket_of(h).0, ct);
                }
            }
        }
        assert(1u64 << 12u64 == 4096 && 1u64 << 18u64 == 262144) by (bit_vector);
        assert(tick & 63u64 == tick % 64 && tick & 4095u64 == tick % 4096 && tick & 262143u64
            == tick % 262144) by (bit_vector);
        proof {
            lemma_slot_digit(tick, 1);
            lemma_slot_digit(tick, 2);
            lemma_slot_digit(tick, 3);
        }
        if (tick & WHEEL_MASK) == 0 {
            let slot1 = ((tick >> WHEEL_BITS) & WHEEL_MASK) as usize;
            assert((tick >> 6u64) & 63u64 < 64) by (bit_vector);
            self.drain_step(1, slot1, ct, expired, Ghost(p0), Ghost(o0), Ghost(watched), Ghost(kept), Ghost(where0));
        } else {
            proof {
                self.lemma_skip_level(watched, 1);
            }
        }
        if (tick & ((1u64 << (2 * WHEEL_BITS)) - 1)) == 0 {
            let slot2 = ((tick >> (2 * WHEEL_BITS)) & WHEEL_MASK) as usize;
            assert((tick >> 12u64) & 63u64 < 64) by (bit_vector);
            self.drain_step(2, slot2, ct, expired, Ghost(p0), Ghost(o0), Ghost(watched), Ghost(kept), Ghost(where0));
        } else {
            proof {
                self.lemma_skip_level(watched, 2);
            }
        }
        if (tick & ((1u64 << (3 * WHEEL_BITS)) - 1)) == 0 {
            let slot3 = ((tick >> (3 * WHEEL_BITS)) & WHEEL_MASK) as usize;
            assert((tick >> 18u64) & 63u64 < 64) by (bit_vector);
            self.drain_step(3, slot3, ct, expired, Ghost(p0), Ghost(o0), Ghost(watched), Ghost(kept), Ghost(where0));
        } else {
            proof {
                self.lemma_skip_level(watched, 3);
            }
        }
        proof {
            assert forall|h: u32| #[trigger]
                old(self).on_time(h) && self.pending().contains_key(h) implies self.on_time(h) by {
                assert(watched.contains(h));
            }
            assert forall|h: u32| #[trigger]
                old(self).pending().contains_key(h) && !drained_by_tick(
                    old(self).bucket_of(h),
                    old(self).now(),
                ) implies self.pending().contains_key(h) && self.bucket_of(h) == old(self).bucket_of(h) by {
                assert(kept.contains(h));
            }
        }
    }

    /// Drains one bucket of `level`, the one that the current tick selects,
    /// extending what has expired since `p0` and `o0`.
    fn drain_step(
        &mut self,
        level: usize,
        slot: usize,
        due_by: u64,
        expired: &mut Vec<T>,
        Ghost(p0): Ghost<Map<u32, (T, u64)>>,
        Ghost(o0): Ghost<Seq<T>>,
        Ghost(watched): Ghost<Set<u32>>,
        Ghost(kept): Ghost<Set<u32>>,
        Ghost(where0): Ghost<Map<u32, (int, int)>>,
    )
        requires
            forall|h: u32| #[trigger]
                kept.contains(h) ==> old(self).pending().contains_key(h) && old(self).bucket_of(h)
                    == where0[h] && where0[h] != (level as int, slot as int),
            old(self).wf(),
            1 <= level < 4,
            slot < 64,
            (old(self).now() as int) % span(level as int) == 0,
            slot as int == ((old(self).now() as int) / span(level as int)) % 64,
            due_by + 1 == old(self).now(),
            expired_between(p0, old(self).pending(), o0, old(expired)@, due_by),
            forall|h: u32|
                watched.contains(h) && #[trigger] old(self).pending().contains_key(h)
                    ==> timely_or_due(
                    old(self).pending()[h].1,
                    old(self).bucket_of(h).0,
                    old(self).now(),
                    level - 1,
                ),
        ensures
            final(self).wf(),
            final(self).now() == old(self).now(),
            final(self).slots_used() == old(self).slots_used(),
            expired_between(p0, final(self).pending(), o0, final(expired)@, due_by),
            forall|h: u32|
                watched.contains(h) && #[trigger] final(self).pending().contains_key(h)
                    ==> timely_or_due(
                    final(self).pending()[h].1,
                    final(self).bucket_of(h).0,
                    final(self).now(),
                    level as int,
                ),
            forall|h: u32| #[trigger]
                kept.contains(h) ==> final(self).pending().contains_key(h) && final(self).bucket_of(h)
                    == where0[h],
    {
        let ghost p1 = self.pending();
        let ghost o1 = expired@;
        let ghost s1 = *self;
        self.drain(level, slot, due_by, expired);
        proof {
            lemma_expired_trans(p0, p1, self.pending(), o0, o1, expired@, due_by);
            let now = self.now();
            assert forall|h: u32|
                watched.contains(h) && #[trigger] self.pending().contains_key(h) implies timely_or_due(
                self.pending()[h].1,
                self.bucket_of(h).0,
                now,
                level as int,
            ) by {
                assert(p1.contains_key(h));
                s1.lemma_bucket_digit(h);
                let d = p1[h].1;
                if s1.bucket_of(h) == (level as int, slot as int) {
                    assert(s1.pending().contains_key(h));
                    assert(d > due_by);
                    assert(timely_or_due(d, level as int, now, level - 1));
                    if level == 1 {
                        assert((d as int) < (d as int) / 64 * 64 + 64);
                        assert((now as int) / 64 * 64 <= now as int);
                        assert(d < now + horizon());
                    } else if level == 2 {
                        assert((d as int) < (d as int) / 4096 * 4096 + 4096);
                        assert((now as int) / 4096 * 4096 <= now as int);
                        assert(d < now + horizon());
                    } else {
                        assert(d < now + horizon());
                    }
                    lemma_placement_timely(d, now);
                }
            }
        }
    }

    /// The number of slab slots in use or free; `insert` needs it under
    /// `u32::MAX`.
    pub fn slot_count(&self) -> (r: usize)
        ensures
            r == self.slots_used(),
    {
        self.slab.len()
    }

    /// The current tick.
    pub fn current_time(&self) -> (r: u64)
        ensures
            r == self.now(),
    {
        self.current_tick
    }
}

/// One more due timer leaving the pending ones extends a record of fired timers.
proof fn lemma_fired_push<T>(
    before: Map<u32, (T, u64)>,
    p0: Map<u32, (T, u64)>,
    p1: Map<u32, (T, u64)>,
    hs: Seq<u32>,
    out: Seq<T>,
    h: u32,
    now: u64,
)
    requires
        fired_as(before, p0, hs, out, now),
        p0.submap_of(before),
        p0.contains_key(h),
        p0[h].1 <= now,
        p1 == p0.remove(h),
    ensures
        fired_as(before, p1, hs.push(h), out.push(p0[h].0), now),
        p1.submap_of(before),
{
    let hs2 = hs.push(h);
    let out2 = out.push(p0[h].0);
    assert forall|x: u32| #[trigger] p1.contains_key(x) implies before.contains_key(x) && p1[x]
        == before[x] by {
        assert(p0.contains_key(x));
    }
    assert(!hs.contains(h));
    assert forall|j: int| 0 <= j < hs2.len() implies {
        &&& before.contains_key(#[trigger] hs2[j])
        &&& !p1.contains_key(hs2[j])
        &&& out2[j] == before[hs2[j]].0
        &&& before[hs2[j]].1 <= now
    } by {
        if j < hs.len() {
            assert(hs2[j] == hs[j]);
        }
    }
    assert forall|x: u32| before.contains_key(x) && !p1.contains_key(x) implies hs2.contains(x) by {
        if x != h {
            assert(hs.contains(x));
            let j = choose|j: int| 0 <= j < hs.len() && hs[j] == x;
            assert(hs2[j] == x);
        } else {
            assert(hs2[hs.len() as int] == x);
        }
    }
}

/// What expired by one tick expired by any later one.
proof fn lemma_expired_later<T>(
    p0: Map<u32, (T, u64)>,
    p1: Map<u32, (T, u64)>,
    o0: Seq<T>,
    o1: Seq<T>,
    n0: u64,
    n1: u64,
)
    requires
        expired_between(p0, p1, o0, o1, n0),
        n0 <= n1,
    ensures
        expired_between(p0, p1, o0, o1, n1),
{
    let out = o1.subrange(o0.len() as int, o1.len() as int);
    let hs = choose|hs: Seq<u32>| fired_as(p0, p1, hs, out, n0);
    assert(fired_as(p0, p1, hs, out, n1));
}

/// Two drains or ticks in a row, the second at `now`, make one: across both,
/// each timer that left fired exactly once and no other timer fired.
pub proof fn lemma_expired_trans<T>(
    p0: Map<u32, (T, u64)>,
    p1: Map<u32, (T, u64)>,
    p2: Map<u32, (T, u64)>,
    o0: Seq<T>,
    o1: Seq<T>,
    o2: Seq<T>,
    now: u64,
)
    requires
        expired_between(p0, p1, o0, o1, now),
        expired_between(p1, p2, o1, o2, now),
    ensures
        expired_between(p0, p2, o0, o2, now),
{
    let out1 = o1.subrange(o0.len() as int, o1.len() as int);
    let out2 = o2.subrange(o1.len() as int, o2.len() as int);
    let hs1 = choose|hs: Seq<u32>| fired_as(p0, p1, hs, out1, now);
    let hs2 = choose|hs: Seq<u32>| fired_as(p1, p2, hs, out2, now);
    let hs = hs1 + hs2;
    let out = o2.subrange(o0.len() as int, o2.len() as int);
    assert(out =~= out1 + out2);
    assert(o2.subrange(0, o0.len() as int) =~= o1.subrange(0, o0.len() as int));
    assert forall|x: u32| #[trigger] p2.contains_key(x) implies p0.contains_key(x) && p2[x]
        == p0[x] by {
        assert(p1.contains_key(x));
    }
    assert forall|i: int, j: int| 0 <= i < hs.len() && 0 <= j < hs.len() && i != j implies hs[i]
        != hs[j] by {
        if i < hs1.len() && j >= hs1.len() {
            assert(hs[i] == hs1[i]);
            assert(hs[j] == hs2[j - hs1.len()]);
            assert(p1.contains_key(hs2[j - hs1.len()]));
        } else if j < hs1.len() && i >= hs1.len() {
            assert(hs[j] == hs1[j]);
            assert(hs[i] == hs2[i - hs1.len()]);
            assert(p1.contains_key(hs2[i - hs1.len()]));
        } else if i < hs1.len() {
            assert(hs[i] == hs1[i] && hs[j] == hs1[j]);
        } else {
            assert(hs[i] == hs2[i - hs1.len()] && hs[j] == hs2[j - hs1.len()]);
        }
    }
    assert forall|j: int| 0 <= j < hs.len() implies {
        &&& p0.contains_key(#[trigger] hs[j])
        &&& !p2.contains_key(hs[j])
        &&& out[j] == p0[hs[j]].0
        &&& p0[hs[j]].1 <= now
    } by {
        if j < hs1.len() {
            assert(hs[j] == hs1[j]);
            assert(out[j] == out1[j]);
            assert(!p1.contains_key(hs1[j]));
            if p2.contains_key(hs1[j]) {
                assert(p1.contains_key(hs1[j]));
            }
        } else {
            let k = j - hs1.len();
            assert(hs[j] == hs2[k]);
            assert(out[j] == out2[k]);
            assert(p1.contains_key(hs2[k]));
            assert(p0.contains_key(hs2[k]));
            assert(p1[hs2[k]] == p0[hs2[k]]);
        }
    }
    assert forall|x: u32| p0.contains_key(x) && !p2.contains_key(x) implies hs.contains(x) by {
        if p1.contains_key(x) {
            assert(hs2.contains(x));
            let j = choose|j: int| 0 <= j < hs2.len() && hs2[j] == x;
            assert(hs[hs1.len() + j] == x);
        } else {
            assert(hs1.contains(x));
            let j = choose|j: int| 0 <= j < hs1.len() && hs1[j] == x;
            assert(hs[j] == x);
        }
    }
    assert(fired_as(p0, p2, hs, out, now));
}

/// A timer that is no longer pending (for instance, one cancelled) is not
/// among the timers that a drain or a tick fires, and stays not pending.
pub proof fn lemma_cancelled_never_fires<T>(
    before: Map<u32, (T, u64)>,
    after: Map<u32, (T, u64)>,
    hs: Seq<u32>,
    out: Seq<T>,
    now: u64,
    h: u32,
)
    requires
        !before.contains_key(h),
        after.submap_of(before),
        fired_as(before, after, hs, out, now),
    ensures
        !hs.contains(h),
        !after.contains_key(h),
{
}

} // verus!
