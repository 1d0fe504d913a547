//! The slot store: a hot zone held in a cache-line aligned vector and a cold
//! zone, addressed as one range of slots.

use vstd::prelude::*;
use vstd::multiset::Multiset;
use aligned_vec::AVec;
use crate::value::{RlapValue, ValueModel, distinct_fields, field_get, field_index, field_position, field_put, fields_model, items_model, lemma_hash_model, lemma_list_model, put_field};
use vstd::pervasive::VecAdditionalExecFns;
use std::collections::VecDeque;
use std::time::{Duration, Instant};

verus! {

/// One slot of the store.
pub struct Slot {
    pub data: RlapValue,
    pub access_count: u64,
    pub pinned: bool,
    pub expires_at: Option<u128>,
}

/// The hot zone: slots kept in an `aligned_vec::AVec`.
#[verifier::external_body]
pub struct HotZone {
    slots: AVec<Slot>,
}

/// Names the slots that the hot zone holds, in order.
pub uninterp spec fn hot_slots(z: HotZone) -> Seq<Slot>;

impl HotZone {
    /// Calls `AVec::new`: an empty vector. The crate panics unless `align` is
    /// 0 or a power of two no larger than its cache-line constant (or the
    /// slot's own alignment); with 0 it never panics. The vector is aligned
    /// to that constant, or to the slot's alignment if larger, whatever
    /// `align` asks.
    #[verifier::external_body]
    fn new(align: usize) -> (z: HotZone)
        requires
            align == 0,
        ensures
            hot_slots(z) == Seq::<Slot>::empty(),
    {
        HotZone { slots: AVec::new(align) }
    }

    /// Calls `AVec::len`: the number of slots held.
    #[verifier::external_body]
    fn len(&self) -> (n: usize)
        ensures
            n == hot_slots(*self).len(),
    {
        self.slots.len()
    }

    /// Calls `AVec::push`: appends a slot.
    #[verifier::external_body]
    fn push(&mut self, s: Slot)
        ensures
            hot_slots(*final(self)) == hot_slots(*old(self)).push(s),
    {
        self.slots.push(s)
    }

    /// Indexes the vector (through its `Deref` to a slice): the slot at `i`.
    #[verifier::external_body]
    fn get(&self, i: usize) -> (s: &Slot)
        requires
            i < hot_slots(*self).len(),
        ensures
            *s == hot_slots(*self)[i as int],
    {
        &self.slots[i]
    }

    /// Indexes the vector mutably (through its `DerefMut` to a slice) and
    /// swaps `s` into slot `i`, returning the slot that was there.
    #[verifier::external_body]
    fn replace(&mut self, i: usize, s: Slot) -> (old_slot: Slot)
        requires
            i < hot_slots(*old(self)).len(),
        ensures
            old_slot == hot_slots(*old(self))[i as int],
            hot_slots(*final(self)) == hot_slots(*old(self)).update(i as int, s),
    {
        core::mem::replace(&mut self.slots[i], s)
    }
}

#[verifier::external_type_specification]
#[verifier::external_body]
pub struct ExInstant(Instant);

/// Calls `Instant::now`: a reading of the monotonic clock, of which nothing is
/// stated.
#[verifier::external_body]
fn clock_instant() -> Instant {
    Instant::now()
}

/// Calls `Instant::checked_add` with `secs` seconds (made a `Duration` by
/// `Duration::from_secs`): whether the clock can represent the instant `secs`
/// seconds after `at`. std documents no bound, and the answer depends on the
/// machine's clock, so nothing is stated of it.
#[verifier::external_body]
fn deadline_fits(at: &Instant, secs: u64) -> bool {
    at.checked_add(Duration::from_secs(secs)).is_some()
}

/// Whether the clock can represent the instant `secs` seconds from now.
pub(crate) fn deadline_fits_now(secs: u64) -> bool {
    deadline_fits(&clock_instant(), secs)
}

/// The largest number of nanoseconds a `Duration` holds.
pub open spec fn max_duration_nanos() -> int {
    (u64::MAX as u128) * 1_000_000_000 + 999_999_999
}

/// Calls `Instant::elapsed` on `origin` and converts the `Duration` with
/// `as_nanos`: nanoseconds since `origin` on the monotonic clock. Only the
/// bound of a `Duration` is stated; the reading depends on the time.
#[verifier::external_body]
fn clock_nanos(origin: &Instant) -> (n: u128)
    ensures
        n <= max_duration_nanos(),
{
    origin.elapsed().as_nanos()
}

/// The content of a slot.
pub struct SlotModel {
    pub data: ValueModel,
    pub access_count: u64,
    pub pinned: bool,
    pub expires_at: Option<u128>,
}

impl Slot {
    /// The content of this slot.
    pub open spec fn model(self) -> SlotModel {
        SlotModel {
            data: self.data.model(),
            access_count: self.access_count,
            pinned: self.pinned,
            expires_at: self.expires_at,
        }
    }

    /// A slot that holds nothing.
    fn vacant() -> (s: Slot)
        ensures
            s.model() == empty_slot(),
    {
        Slot { data: RlapValue::Empty, access_count: 0, pinned: false, expires_at: None }
    }
}

/// The content of a fresh slot.
pub open spec fn empty_slot() -> SlotModel {
    SlotModel { data: ValueModel::Empty, access_count: 0, pinned: false, expires_at: None }
}

/// A slot as it is read at time `now`: past its deadline, it is emptied, its
/// deadline dropped and its access count reset.
pub open spec fn live(s: SlotModel, now: u128) -> SlotModel {
    match s.expires_at {
        Some(e) => if now > e {
            SlotModel { data: ValueModel::Empty, access_count: 0, pinned: s.pinned, expires_at: None }
        } else {
            s
        },
        None => s,
    }
}

/// The deadline, in clock nanoseconds, of a time-to-live given in seconds.
pub open spec fn deadline(now: u128, secs: u64) -> u128 {
    (now + secs * 1_000_000_000) as u128
}

/// An access count after one more access (the count wraps, as an atomic
/// `fetch_add` does).
pub open spec fn bumped(c: u64) -> u64 {
    if c == u64::MAX {
        0
    } else {
        (c + 1) as u64
    }
}

/// What counting an access reports.
#[derive(Debug, Clone, Copy, PartialEq, Eq, Structural)]
pub enum Promotion {
    /// No value moved.
    Stay,
    /// Cold slot `addr` traded its value and deadline with hot slot `hot`.
    Moved { addr: usize, hot: usize },
    /// The store has no hot slot to promote to: the count was bumped, and
    /// the server's connection task gives up here.
    Fault,
}

impl Promotion {
    /// Whether this reports a division by zero.
    pub fn is_fault(&self) -> (b: bool)
        ensures
            b == (*self is Fault),
    {
        match self {
            Promotion::Fault => true,
            _ => false,
        }
    }
}

/// The content of the store: its slots, addressed from 0, the first
/// `hot_len` of which form the hot zone, and its value stack.
pub struct DbModel {
    pub slots: Seq<SlotModel>,
    pub hot_len: nat,
    pub stack: Seq<ValueModel>,
}

impl DbModel {
    /// Whether `addr` names a slot.
    pub open spec fn holds(self, addr: int) -> bool {
        0 <= addr < self.slots.len()
    }

    /// The store with slot `addr` replaced.
    pub open spec fn with_slot(self, addr: int, s: SlotModel) -> DbModel {
        DbModel { slots: self.slots.update(addr, s), ..self }
    }

    /// The store with slot `addr` holding `v` and keeping its other fields.
    pub open spec fn with_data(self, addr: int, v: ValueModel) -> DbModel {
        self.with_slot(addr, SlotModel { data: v, ..self.slots[addr] })
    }

    /// The store after slot `addr` is looked at at time `now`.
    pub open spec fn touch(self, addr: int, now: u128) -> DbModel {
        if self.holds(addr) {
            self.with_slot(addr, live(self.slots[addr], now))
        } else {
            self
        }
    }

    /// The store after an access to cold slot `addr` is counted: on the sixth
    /// access since its count was last reset, an unpinned cold slot trades its
    /// value and deadline with hot slot `addr % hot_len`, unless that one is
    /// pinned. Without hot slots that step divides by zero (see
    /// `promote_event`); the count has been bumped by then.
    pub open spec fn promote(self, addr: int) -> DbModel {
        if addr < self.hot_len || !self.holds(addr) {
            self
        } else {
            let c = self.slots[addr];
            let counted = self.with_slot(addr, SlotModel { access_count: bumped(c.access_count), ..c });
            if c.access_count == 5 && !c.pinned && self.hot_len > 0 {
                let h = addr % (self.hot_len as int);
                let hs = self.slots[h];
                if !hs.pinned {
                    counted.with_slot(
                        addr,
                        SlotModel { data: hs.data, expires_at: hs.expires_at, access_count: bumped(c.access_count), pinned: c.pinned },
                    ).with_slot(h, SlotModel { data: c.data, expires_at: c.expires_at, ..hs })
                } else {
                    counted
                }
            } else {
                counted
            }
        }
    }

    /// What counting an access to `addr` reports: a move of cold slot `addr`
    /// to hot slot `addr % hot_len`, no move, or a division by zero (a sixth
    /// access to an unpinned cold slot in a store without hot slots).
    pub open spec fn promote_event(self, addr: int) -> Promotion {
        if addr < self.hot_len || !self.holds(addr) {
            Promotion::Stay
        } else {
            let c = self.slots[addr];
            if c.access_count == 5 && !c.pinned {
                if self.hot_len == 0 {
                    Promotion::Fault
                } else {
                    let h = addr % (self.hot_len as int);
                    if !self.slots[h].pinned {
                        Promotion::Moved { addr: addr as usize, hot: h as usize }
                    } else {
                        Promotion::Stay
                    }
                }
            } else {
                Promotion::Stay
            }
        }
    }

    /// What an access to `addr` at time `now` reports (after lazy expiry).
    pub open spec fn access_event(self, addr: int, now: u128) -> Promotion {
        self.touch(addr, now).promote_event(addr)
    }

    /// What a read of `addr` at time `now` reports: reads of an empty slot
    /// are not counted.
    pub open spec fn read_event(self, addr: int, now: u128) -> Promotion {
        let d = self.touch(addr, now);
        if d.holds(addr) && d.slots[addr].data is Empty {
            Promotion::Stay
        } else {
            d.promote_event(addr)
        }
    }

    /// Whether a counted access to `addr` divides by zero: the sixth access
    /// to an unpinned cold slot of a store without hot slots.
    pub open spec fn faults(self, addr: int) -> bool {
        &&& self.hot_len == 0
        &&& self.holds(addr)
        &&& self.slots[addr].access_count == 5
        &&& !self.slots[addr].pinned
    }

    /// `set`: slot `addr` takes `v`, a deadline `ttl` seconds from `now` if
    /// one is given, and a zero access count.
    pub open spec fn set_op(self, addr: int, v: ValueModel, ttl: Option<u64>, now: u128) -> DbModel {
        let d = self.touch(addr, now);
        if d.holds(addr) {
            d.with_slot(
                addr,
                SlotModel {
                    data: v,
                    access_count: 0,
                    pinned: d.slots[addr].pinned,
                    expires_at: match ttl {
                        Some(secs) => Some(deadline(now, secs)),
                        None => None,
                    },
                },
            )
        } else {
            d
        }
    }

    /// `set` where `fits` tells whether the clock can represent the deadline
    /// `ttl` seconds after `now`: whether it completes, and the store after
    /// it. When it cannot, the value is stored and the slot keeps its
    /// deadline and count, and `set` goes no further.
    pub open spec fn set_outcome(self, addr: int, v: ValueModel, ttl: Option<u64>, now: u128, fits: bool) -> (bool, DbModel) {
        if ttl is Some && !fits && self.holds(addr) {
            (false, self.overwrite_op(addr, v, now))
        } else {
            (true, self.set_op(addr, v, ttl, now))
        }
    }

    /// `expire` where `fits` tells whether the clock can represent the
    /// deadline `secs` seconds after `now`: `None` when a value would get a
    /// deadline the clock cannot represent (the store is then only looked
    /// at), otherwise what `expire_op` answers.
    pub open spec fn expire_outcome(self, addr: int, secs: u64, now: u128, fits: bool) -> (Option<bool>, DbModel) {
        let d = self.touch(addr, now);
        if !fits && d.holds(addr) && !(d.slots[addr].data is Empty) {
            (None, d)
        } else {
            (Some(self.expire_op(addr, secs, now).0), self.expire_op(addr, secs, now).1)
        }
    }

    /// What `set` has done by the time it computes the deadline: slot `addr`
    /// holds `v` and keeps its deadline and count.
    pub open spec fn overwrite_op(self, addr: int, v: ValueModel, now: u128) -> DbModel {
        let d = self.touch(addr, now);
        if d.holds(addr) {
            d.with_data(addr, v)
        } else {
            d
        }
    }

    /// `del`: slot `addr` is emptied, its deadline dropped and its count reset.
    pub open spec fn del_op(self, addr: int, now: u128) -> DbModel {
        let d = self.touch(addr, now);
        if d.holds(addr) {
            d.with_slot(
                addr,
                SlotModel { data: ValueModel::Empty, access_count: 0, pinned: d.slots[addr].pinned, expires_at: None },
            )
        } else {
            d
        }
    }

    /// `get_and_promote`: the value of slot `addr`; a non-empty read counts
    /// as an access (in the hot zone by bumping the count, in the cold zone
    /// by `promote`).
    pub open spec fn get_op(self, addr: int, now: u128) -> (ValueModel, DbModel) {
        let d = self.touch(addr, now);
        if !d.holds(addr) {
            (ValueModel::Empty, d)
        } else {
            let s = d.slots[addr];
            if s.data is Empty {
                (ValueModel::Empty, d)
            } else if addr < d.hot_len {
                (s.data, d.with_slot(addr, SlotModel { access_count: bumped(s.access_count), ..s }))
            } else {
                (s.data, d.promote(addr))
            }
        }
    }

    /// `push_list`: `v` goes to the front of the list at `addr` (a slot that
    /// holds no list gets a new list); then the access is counted.
    pub open spec fn push_op(self, addr: int, v: ValueModel, now: u128) -> DbModel {
        let d = self.touch(addr, now);
        let e = if d.holds(addr) {
            d.with_data(
                addr,
                match d.slots[addr].data {
                    ValueModel::List(l) => ValueModel::List(seq![v] + l),
                    _ => ValueModel::List(seq![v]),
                },
            )
        } else {
            d
        };
        e.promote(addr)
    }

    /// `pop_list`: the front of the list at `addr`, removed, or the empty
    /// value; then the access is counted.
    pub open spec fn pop_op(self, addr: int, now: u128) -> (ValueModel, DbModel) {
        let d = self.touch(addr, now);
        if d.holds(addr) {
            match d.slots[addr].data {
                ValueModel::List(l) => if l.len() > 0 {
                    (l[0], d.with_data(addr, ValueModel::List(l.subrange(1, l.len() as int))).promote(addr))
                } else {
                    (ValueModel::Empty, d.promote(addr))
                },
                _ => (ValueModel::Empty, d.promote(addr)),
            }
        } else {
            (ValueModel::Empty, d)
        }
    }

    /// `set_hash`: field `key` of the hash at `addr` takes `v` (a slot that
    /// holds no hash gets a new hash); then the access is counted.
    pub open spec fn hset_op(self, addr: int, key: Seq<char>, v: ValueModel, now: u128) -> DbModel {
        let d = self.touch(addr, now);
        let e = if d.holds(addr) {
            d.with_data(
                addr,
                match d.slots[addr].data {
                    ValueModel::Hash(h) => ValueModel::Hash(field_put(h, key, v)),
                    _ => ValueModel::Hash(seq![(key, v)]),
                },
            )
        } else {
            d
        };
        e.promote(addr)
    }

    /// The fields of the hash at `addr` after it is looked at at time `now`,
    /// or none when it holds no hash.
    pub open spec fn fields_at(self, addr: int, now: u128) -> Seq<(Seq<char>, ValueModel)> {
        let d = self.touch(addr, now);
        if d.holds(addr) {
            match d.slots[addr].data {
                ValueModel::Hash(h) => h,
                _ => Seq::empty(),
            }
        } else {
            Seq::empty()
        }
    }

    /// `get_hash`: field `key` of the hash at `addr`, or the empty value;
    /// then the access is counted.
    pub open spec fn hget_op(self, addr: int, key: Seq<char>, now: u128) -> (ValueModel, DbModel) {
        (field_get(self.fields_at(addr, now), key), self.touch(addr, now).promote(addr))
    }

    /// `get_hash_all`: every field of the hash at `addr`, in order; then the
    /// access is counted.
    pub open spec fn hgetall_op(self, addr: int, now: u128) -> (Seq<(Seq<char>, ValueModel)>, DbModel) {
        (self.fields_at(addr, now), self.touch(addr, now).promote(addr))
    }

    /// `expire`: a slot that holds a value gets a deadline `secs` seconds
    /// from `now`.
    pub open spec fn expire_op(self, addr: int, secs: u64, now: u128) -> (bool, DbModel) {
        let d = self.touch(addr, now);
        if d.holds(addr) && !(d.slots[addr].data is Empty) {
            (true, d.with_slot(addr, SlotModel { expires_at: Some(deadline(now, secs)), ..d.slots[addr] }))
        } else {
            (false, d)
        }
    }

    /// `ttl`: whole seconds left before the deadline of slot `addr`; -1 for a
    /// value without deadline; -2 for no value.
    pub open spec fn ttl_op(self, addr: int, now: u128) -> (i64, DbModel) {
        let d = self.touch(addr, now);
        (
            if !d.holds(addr) || d.slots[addr].data is Empty {
                -2i64
            } else {
                match d.slots[addr].expires_at {
                    Some(e) => if e > now {
                        (((e - now) / 1_000_000_000) as u64) as i64
                    } else {
                        -2i64
                    },
                    None => -1i64,
                }
            },
            d,
        )
    }
}

/// The store: slots `0..hot_len` live in the hot zone, the rest in the cold
/// zone. Expiry is measured in nanoseconds of the monotonic clock since the
/// store was made.
pub struct RlapDb {
    pub hot_zone: HotZone,
    pub cold_zone: Vec<Slot>,
    pub stack: Vec<RlapValue>,
    origin: Instant,
    last: u128,
}

impl View for RlapDb {
    type V = DbModel;

    closed spec fn view(&self) -> DbModel {
        DbModel {
            slots: (hot_slots(self.hot_zone) + self.cold_zone@).map_values(|s: Slot| s.model()),
            hot_len: hot_slots(self.hot_zone).len(),
            stack: self.stack@.map_values(|v: RlapValue| v.model()),
        }
    }
}

impl RlapDb {
    /// The latest clock reading the store has taken (nanoseconds since it
    /// was made); readings never go below it.
    pub closed spec fn latest(self) -> u128 {
        if self.last <= max_duration_nanos() {
            self.last
        } else {
            0
        }
    }

    /// All slots, hot zone first.
    pub closed spec fn all_slots(self) -> Seq<Slot> {
        hot_slots(self.hot_zone) + self.cold_zone@
    }

    /// Number of hot slots.
    pub fn hot_len(&self) -> (n: usize)
        ensures
            n == self@.hot_len,
    {
        self.hot_zone.len()
    }

    /// Number of cold slots.
    pub fn cold_len(&self) -> (n: usize)
        ensures
            n == self@.slots.len() - self@.hot_len,
    {
        self.cold_zone.len()
    }

    /// Whether `addr` names a slot, computed without overflow.
    fn in_range(&self, addr: usize) -> (b: bool)
        ensures
            b == self@.holds(addr as int),
    {
        let h = self.hot_zone.len();
        addr < h || addr - h < self.cold_zone.len()
    }

    /// The slot at `addr`.
    fn slot_ref(&self, addr: usize) -> (s: &Slot)
        requires
            self@.holds(addr as int),
        ensures
            *s == self.all_slots()[addr as int],
    {
        let h = self.hot_zone.len();
        if addr < h {
            self.hot_zone.get(addr)
        } else {
            &self.cold_zone[addr - h]
        }
    }

    /// Puts `s` into slot `addr` and returns the slot that was there.
    fn swap_slot(&mut self, addr: usize, s: Slot) -> (prev: Slot)
        requires
            old(self)@.holds(addr as int),
        ensures
            final(self).latest() == old(self).latest(),
            prev == old(self).all_slots()[addr as int],
            final(self).all_slots() == old(self).all_slots().update(addr as int, s),
            final(self)@ == old(self)@.with_slot(addr as int, s.model()),
    {
        let h = self.hot_zone.len();
        if addr < h {
            let prev = self.hot_zone.replace(addr, s);
            assert(self.all_slots() =~= old(self).all_slots().update(addr as int, s));
            assert(self@.slots =~= old(self)@.slots.update(addr as int, s.model()));
            prev
        } else {
            let mut t = s;
            self.cold_zone.set_and_swap(addr - h, &mut t);
            assert(self.all_slots() =~= old(self).all_slots().update(addr as int, s));
            assert(self@.slots =~= old(self)@.slots.update(addr as int, s.model()));
            t
        }
    }

    /// Applies lazy expiry to slot `addr` at time `now`; tells whether `addr`
    /// names a slot.
    fn refresh(&mut self, addr: usize, now: u128) -> (found: bool)
        ensures
            final(self).latest() == old(self).latest(),
            found == old(self)@.holds(addr as int),
            final(self)@ == old(self)@.touch(addr as int, now),
    {
        if !self.in_range(addr) {
            return false;
        }
        let s = self.slot_ref(addr);
        let expired = match s.expires_at {
            Some(e) => now > e,
            None => false,
        };
        if expired {
            let pinned = s.pinned;
            let cleared = Slot { data: RlapValue::Empty, access_count: 0, pinned, expires_at: None };
            let _ = self.swap_slot(addr, cleared);
        } else {
            assert(old(self)@.slots.update(addr as int, old(self)@.slots[addr as int]) =~= old(self)@.slots);
        }
        true
    }
}

impl RlapDb {
    /// A store of `hot_cap` hot slots and `cold_cap` cold slots, all empty.
    pub fn new(hot_cap: usize, cold_cap: usize) -> (db: Self)
        ensures
            db@.hot_len == hot_cap,
            db@.slots == Seq::new((hot_cap + cold_cap) as nat, |i: int| empty_slot()),
            db@.stack == Seq::<ValueModel>::empty(),
            db.latest() == 0,
    {
        let mut hot = HotZone::new(0);
        let mut i: usize = 0;
        while i < hot_cap
            invariant
                i <= hot_cap,
                hot_slots(hot).len() == i,
                forall|k: int| 0 <= k < i ==> #[trigger] hot_slots(hot)[k].model() == empty_slot(),
            decreases hot_cap - i,
        {
            hot.push(Slot::vacant());
            i = i + 1;
        }
        let mut cold: Vec<Slot> = Vec::with_capacity(cold_cap);
        let mut j: usize = 0;
        while j < cold_cap
            invariant
                j <= cold_cap,
                cold@.len() == j,
                forall|k: int| 0 <= k < j ==> #[trigger] cold@[k].model() == empty_slot(),
            decreases cold_cap - j,
        {
            cold.push(Slot::vacant());
            j = j + 1;
        }
        let db = RlapDb { hot_zone: hot, cold_zone: cold, stack: Vec::with_capacity(64), origin: clock_instant(), last: 0 };
        assert(db@.slots =~= Seq::new((hot_cap + cold_cap) as nat, |i: int| empty_slot()));
        assert(db@.stack =~= Seq::<ValueModel>::empty());
        db
    }

    /// Takes the value out of slot `addr`, leaving the empty value there.
    fn take_data(&mut self, addr: usize) -> (v: RlapValue)
        requires
            old(self)@.holds(addr as int),
        ensures
            final(self).latest() == old(self).latest(),
            v.model() == old(self)@.slots[addr as int].data,
            final(self)@ == old(self)@.with_data(addr as int, ValueModel::Empty),
    {
        let mut slot = self.swap_slot(addr, Slot::vacant());
        let mut v = RlapValue::Empty;
        core::mem::swap(&mut v, &mut slot.data);
        let _ = self.swap_slot(addr, slot);
        assert(self@.slots =~= old(self)@.with_data(addr as int, ValueModel::Empty).slots);
        v
    }

    /// Puts `v` into slot `addr`, keeping its other fields.
    fn put_data(&mut self, addr: usize, v: RlapValue)
        requires
            old(self)@.holds(addr as int),
        ensures
            final(self).latest() == old(self).latest(),
            final(self)@ == old(self)@.with_data(addr as int, v.model()),
    {
        let mut slot = self.swap_slot(addr, Slot::vacant());
        slot.data = v;
        let _ = self.swap_slot(addr, slot);
        assert(self@.slots =~= old(self)@.with_data(addr as int, v.model()).slots);
    }

    /// Counts an access to cold slot `addr`, promoting it on its sixth
    /// access (see `DbModel::promote`).
    fn try_promote(&mut self, addr: usize) -> (p: Promotion)
        ensures
            final(self).latest() == old(self).latest(),
            final(self)@ == old(self)@.promote(addr as int),
            p == old(self)@.promote_event(addr as int),
    {
        let hot_len = self.hot_zone.len();
        if addr < hot_len {
            return Promotion::Stay;
        }
        let c_idx = addr - hot_len;
        if c_idx >= self.cold_zone.len() {
            return Promotion::Stay;
        }
        let mut event = Promotion::Stay;
        let ghost d = self@;
        let mut cold = self.swap_slot(addr, Slot::vacant());
        let prev_count = cold.access_count;
        cold.access_count = prev_count.wrapping_add(1);
        if prev_count == 5 && !cold.pinned {
            if hot_len == 0 {
                event = Promotion::Fault;
            } else {
                let h_idx = addr % hot_len;
                if !self.slot_ref(h_idx).pinned {
                    let mut hot = self.swap_slot(h_idx, Slot::vacant());
                    core::mem::swap(&mut cold.data, &mut hot.data);
                    core::mem::swap(&mut cold.expires_at, &mut hot.expires_at);
                    let _ = self.swap_slot(h_idx, hot);
                    event = Promotion::Moved { addr, hot: h_idx };
                }
            }
        }
        let _ = self.swap_slot(addr, cold);
        assert(self@.slots =~= d.promote(addr as int).slots);
        event
    }

    /// `set` at clock reading `now`, where `fits` tells whether the clock
    /// can represent the deadline: tells whether it completed.
    pub fn set_at(&mut self, addr: usize, val: RlapValue, ttl_secs: Option<u64>, now: u128, fits: bool) -> (done: bool)
        requires
            now <= max_duration_nanos(),
        ensures
            final(self).latest() == old(self).latest(),
            (done, final(self)@) == old(self)@.set_outcome(addr as int, val.model(), ttl_secs, now, fits),
    {
        if ttl_secs.is_some() && !fits && self.in_range(addr) {
            self.overwrite_at(addr, val, now);
            return false;
        }
        if self.refresh(addr, now) {
            let mut slot = self.swap_slot(addr, Slot::vacant());
            slot.data = val;
            slot.expires_at = match ttl_secs {
                Some(secs) => Some(now + (secs as u128) * 1_000_000_000),
                None => None,
            };
            slot.access_count = 0;
            let _ = self.swap_slot(addr, slot);
            assert(self@.slots =~= old(self)@.set_op(addr as int, val.model(), ttl_secs, now).slots);
        }
        true
    }

    /// `del` at clock reading `now`.
    pub fn del_at(&mut self, addr: usize, now: u128)
        ensures
            final(self).latest() == old(self).latest(),
            final(self)@ == old(self)@.del_op(addr as int, now),
    {
        if self.refresh(addr, now) {
            let mut slot = self.swap_slot(addr, Slot::vacant());
            slot.data = RlapValue::Empty;
            slot.expires_at = None;
            slot.access_count = 0;
            let _ = self.swap_slot(addr, slot);
            assert(self@.slots =~= old(self)@.del_op(addr as int, now).slots);
        }
    }

    /// `get_and_promote` at clock reading `now`.
    pub fn get_and_promote_at(&mut self, addr: usize, now: u128) -> (r: (RlapValue, Promotion))
        ensures
            final(self).latest() == old(self).latest(),
            (r.0.model(), final(self)@) == old(self)@.get_op(addr as int, now),
            r.1 == old(self)@.read_event(addr as int, now),
    {
        let hot_len = self.hot_zone.len();
        if !self.refresh(addr, now) {
            return (RlapValue::Empty, Promotion::Stay);
        }
        let val = self.slot_ref(addr).data.duplicate();
        if val.is_empty() {
            return (RlapValue::Empty, Promotion::Stay);
        }
        let mut event = Promotion::Stay;
        if addr < hot_len {
            let ghost d = self@;
            let mut slot = self.swap_slot(addr, Slot::vacant());
            slot.access_count = slot.access_count.wrapping_add(1);
            let _ = self.swap_slot(addr, slot);
            assert(self@.slots =~= d.with_slot(addr as int, SlotModel { access_count: bumped(d.slots[addr as int].access_count), ..d.slots[addr as int] }).slots);
        } else {
            event = self.try_promote(addr);
        }
        (val, event)
    }
}

impl RlapDb {
    /// `push_list` at clock reading `now`.
    pub fn push_list_at(&mut self, addr: usize, val: RlapValue, now: u128) -> (p: Promotion)
        ensures
            final(self).latest() == old(self).latest(),
            final(self)@ == old(self)@.push_op(addr as int, val.model(), now),
            p == old(self)@.access_event(addr as int, now),
    {
        let ghost vm = val.model();
        if self.refresh(addr, now) {
            let data = self.take_data(addr);
            let new_data = match data {
                RlapValue::List(mut list) => {
                    proof {
                        lemma_list_model(list);
                    }
                    let ghost ol = items_model(list@);
                    list.push_front(val);
                    proof {
                        lemma_list_model(list);
                        assert(items_model(list@) =~= seq![vm] + ol);
                    }
                    RlapValue::List(list)
                },
                _ => {
                    let mut list: VecDeque<RlapValue> = VecDeque::new();
                    list.push_front(val);
                    proof {
                        lemma_list_model(list);
                        assert(items_model(list@) =~= seq![vm]);
                    }
                    RlapValue::List(list)
                },
            };
            self.put_data(addr, new_data);
            assert(self@.slots =~= old(self)@.touch(addr as int, now).with_data(addr as int, new_data.model()).slots);
        }
        self.try_promote(addr)
    }
}

impl RlapDb {
    /// `pop_list` at clock reading `now`.
    pub fn pop_list_at(&mut self, addr: usize, now: u128) -> (r: (RlapValue, Promotion))
        ensures
            final(self).latest() == old(self).latest(),
            (r.0.model(), final(self)@) == old(self)@.pop_op(addr as int, now),
            r.1 == old(self)@.access_event(addr as int, now),
    {
        let ghost d = old(self)@.touch(addr as int, now);
        let val = if self.refresh(addr, now) {
            let data = self.take_data(addr);
            match data {
                RlapValue::List(mut list) => {
                    proof {
                        lemma_list_model(list);
                    }
                    let ghost ol = items_model(list@);
                    let v = match list.pop_front() {
                        Some(x) => x,
                        None => RlapValue::Empty,
                    };
                    proof {
                        lemma_list_model(list);
                        if ol.len() > 0 {
                            assert(items_model(list@) =~= ol.subrange(1, ol.len() as int));
                        } else {
                            assert(items_model(list@) =~= ol);
                        }
                    }
                    self.put_data(addr, RlapValue::List(list));
                    proof {
                        if ol.len() == 0 {
                            assert(self@.slots =~= d.slots);
                        } else {
                            assert(self@.slots =~= d.with_data(addr as int, ValueModel::List(ol.subrange(1, ol.len() as int))).slots);
                        }
                    }
                    v
                },
                other => {
                    self.put_data(addr, other);
                    assert(self@.slots =~= d.slots);
                    RlapValue::Empty
                },
            }
        } else {
            RlapValue::Empty
        };
        let event = self.try_promote(addr);
        (val, event)
    }

    /// `set_hash` at clock reading `now`.
    pub fn set_hash_at(&mut self, addr: usize, field: String, val: RlapValue, now: u128) -> (p: Promotion)
        ensures
            final(self).latest() == old(self).latest(),
            final(self)@ == old(self)@.hset_op(addr as int, field@, val.model(), now),
            p == old(self)@.access_event(addr as int, now),
    {
        let ghost vm = val.model();
        let ghost km = field@;
        if self.refresh(addr, now) {
            let data = self.take_data(addr);
            let new_data = match data {
                RlapValue::Hash(mut map) => {
                    proof {
                        lemma_hash_model(map);
                    }
                    put_field(&mut map, field, val);
                    proof {
                        lemma_hash_model(map);
                    }
                    RlapValue::Hash(map)
                },
                _ => {
                    let mut map: Vec<(String, RlapValue)> = Vec::new();
                    map.push((field, val));
                    proof {
                        lemma_hash_model(map);
                        assert(fields_model(map@) =~= seq![(km, vm)]);
                    }
                    RlapValue::Hash(map)
                },
            };
            self.put_data(addr, new_data);
            assert(self@.slots =~= old(self)@.touch(addr as int, now).with_data(addr as int, new_data.model()).slots);
        }
        self.try_promote(addr)
    }

    /// The value of field `key` of the hash in slot `addr`, or the empty value.
    fn read_field(&self, addr: usize, key: &String) -> (r: RlapValue)
        requires
            self@.holds(addr as int),
        ensures
            r.model() == (match self@.slots[addr as int].data {
                ValueModel::Hash(h) => field_get(h, key@),
                _ => ValueModel::Empty,
            }),
    {
        match &self.slot_ref(addr).data {
            RlapValue::Hash(map) => {
                proof {
                    lemma_hash_model(*map);
                    crate::value::lemma_field_index(fields_model(map@), key@);
                }
                match field_position(map, key) {
                    Some(i) => map[i].1.duplicate(),
                    None => RlapValue::Empty,
                }
            },
            _ => RlapValue::Empty,
        }
    }

    /// `get_hash` at clock reading `now`.
    pub fn get_hash_at(&mut self, addr: usize, field: &str, now: u128) -> (r: (RlapValue, Promotion))
        ensures
            final(self).latest() == old(self).latest(),
            (r.0.model(), final(self)@) == old(self)@.hget_op(addr as int, field@, now),
            r.1 == old(self)@.access_event(addr as int, now),
    {
        let key = field.to_owned();
        let val = if self.refresh(addr, now) {
            self.read_field(addr, &key)
        } else {
            RlapValue::Empty
        };
        let event = self.try_promote(addr);
        (val, event)
    }

    /// `get_hash_all` at clock reading `now`.
    pub fn get_hash_all_at(&mut self, addr: usize, now: u128) -> (r: (Vec<(String, RlapValue)>, Promotion))
        ensures
            final(self).latest() == old(self).latest(),
            (fields_model(r.0@), final(self)@) == old(self)@.hgetall_op(addr as int, now),
            r.1 == old(self)@.access_event(addr as int, now),
    {
        let mut res: Vec<(String, RlapValue)> = Vec::new();
        if self.refresh(addr, now) {
            match &self.slot_ref(addr).data {
                RlapValue::Hash(map) => {
                    proof {
                        lemma_hash_model(*map);
                    }
                    let mut i: usize = 0;
                    while i < map.len()
                        invariant
                            i <= map@.len(),
                            res@.len() == i,
                            forall|k: int| 0 <= k < i ==> (#[trigger] res@[k]).0@ == map@[k].0@ && res@[k].1.model() == map@[k].1.model(),
                        decreases map@.len() - i,
                    {
                        let entry = &map[i];
                        res.push((entry.0.clone(), entry.1.duplicate()));
                        i = i + 1;
                    }
                    assert forall|k: int| 0 <= k < res@.len() implies fields_model(res@)[k] == fields_model(map@)[k] by {
                        assert(res@[k].0@ == map@[k].0@);
                    }
                    assert(fields_model(res@) =~= fields_model(map@));
                },
                _ => {
                    assert(fields_model(res@) =~= Seq::<(Seq<char>, ValueModel)>::empty());
                },
            }
        } else {
            assert(fields_model(res@) =~= Seq::<(Seq<char>, ValueModel)>::empty());
        }
        let event = self.try_promote(addr);
        (res, event)
    }

    /// `expire` at clock reading `now`, where `fits` tells whether the
    /// clock can represent the deadline.
    pub fn expire_at(&mut self, addr: usize, ttl_secs: u64, now: u128, fits: bool) -> (r: Option<bool>)
        requires
            now <= max_duration_nanos(),
        ensures
            final(self).latest() == old(self).latest(),
            (r, final(self)@) == old(self)@.expire_outcome(addr as int, ttl_secs, now, fits),
    {
        if self.refresh(addr, now) {
            if !self.slot_ref(addr).data.is_empty() {
                if !fits {
                    return None;
                }
                let mut slot = self.swap_slot(addr, Slot::vacant());
                slot.expires_at = Some(now + (ttl_secs as u128) * 1_000_000_000);
                let _ = self.swap_slot(addr, slot);
                assert(self@.slots =~= old(self)@.expire_op(addr as int, ttl_secs, now).1.slots);
                return Some(true);
            }
        }
        Some(false)
    }

    /// `ttl` at clock reading `now`.
    pub fn ttl_at(&mut self, addr: usize, now: u128) -> (t: i64)
        ensures
            final(self).latest() == old(self).latest(),
            (t, final(self)@) == old(self)@.ttl_op(addr as int, now),
    {
        if self.refresh(addr, now) {
            let slot = self.slot_ref(addr);
            if slot.data.is_empty() {
                return -2;
            }
            match slot.expires_at {
                Some(expiry) => {
                    if expiry > now {
                        return (((expiry - now) / 1_000_000_000) as u64) as i64;
                    } else {
                        return -2;
                    }
                },
                None => {
                    return -1;
                },
            }
        }
        -2
    }
}

impl RlapDb {
    /// Reads the monotonic clock: nanoseconds since this store was made, and
    /// never less than an earlier reading (std documents the clock as
    /// monotonic; the floor keeps that so on any platform).
    pub fn clock(&mut self) -> (n: u128)
        ensures
            old(self).latest() <= n <= max_duration_nanos(),
            final(self).latest() == n,
            final(self)@ == old(self)@,
    {
        let reading = clock_nanos(&self.origin);
        let floor = if self.last <= 18_446_744_073_709_551_615_999_999_999u128 {
            self.last
        } else {
            0
        };
        let n = if reading < floor {
            floor
        } else {
            reading
        };
        self.last = n;
        n
    }

    /// Stores `val` in slot `addr` with an optional time-to-live in seconds,
    /// as `set_at` does at the current clock reading; tells whether it
    /// completed (it stops after storing the value when the clock cannot
    /// represent the deadline).
    pub fn set(&mut self, addr: usize, val: RlapValue, ttl_secs: Option<u64>) -> (done: bool)
        ensures
            exists|now: u128, fits: bool|
                old(self).latest() <= now <= max_duration_nanos() && final(self).latest() == now
                    && (done, final(self)@) == old(self)@.set_outcome(addr as int, val.model(), ttl_secs, now, fits),
    {
        let now = self.clock();
        let fits = match ttl_secs {
            Some(secs) => deadline_fits_now(secs),
            None => true,
        };
        self.set_at(addr, val, ttl_secs, now, fits)
    }

    /// Empties slot `addr`, as `del_at` does at the current clock reading.
    pub fn del(&mut self, addr: usize)
        ensures
            exists|now: u128|
                old(self).latest() <= now <= max_duration_nanos() && final(self).latest() == now
                    && final(self)@ == old(self)@.del_op(addr as int, now),
    {
        let now = self.clock();
        self.del_at(addr, now);
    }

    /// Reads slot `addr` and counts the access, as `get_and_promote_at` does
    /// at the current clock reading.
    pub fn get_and_promote(&mut self, addr: usize) -> (r: (RlapValue, Promotion))
        ensures
            exists|now: u128|
                old(self).latest() <= now <= max_duration_nanos() && final(self).latest() == now
                    && (r.0.model(), final(self)@) == old(self)@.get_op(addr as int, now)
                    && r.1 == old(self)@.read_event(addr as int, now),
    {
        let now = self.clock();
        self.get_and_promote_at(addr, now)
    }

    /// Pushes `val` to the front of the list in slot `addr`, as
    /// `push_list_at` does at the current clock reading.
    pub fn push_list(&mut self, addr: usize, val: RlapValue) -> (p: Promotion)
        ensures
            exists|now: u128|
                old(self).latest() <= now <= max_duration_nanos() && final(self).latest() == now
                    && final(self)@ == old(self)@.push_op(addr as int, val.model(), now)
                    && p == old(self)@.access_event(addr as int, now),
    {
        let now = self.clock();
        self.push_list_at(addr, val, now)
    }

    /// Pops the front of the list in slot `addr`, as `pop_list_at` does at
    /// the current clock reading.
    pub fn pop_list(&mut self, addr: usize) -> (r: (RlapValue, Promotion))
        ensures
            exists|now: u128|
                old(self).latest() <= now <= max_duration_nanos() && final(self).latest() == now
                    && (r.0.model(), final(self)@) == old(self)@.pop_op(addr as int, now)
                    && r.1 == old(self)@.access_event(addr as int, now),
    {
        let now = self.clock();
        self.pop_list_at(addr, now)
    }

    /// Sets a field of the hash in slot `addr`, as `set_hash_at` does at the
    /// current clock reading.
    pub fn set_hash(&mut self, addr: usize, field: String, val: RlapValue) -> (p: Promotion)
        ensures
            exists|now: u128|
                old(self).latest() <= now <= max_duration_nanos() && final(self).latest() == now
                    && final(self)@ == old(self)@.hset_op(addr as int, field@, val.model(), now)
                    && p == old(self)@.access_event(addr as int, now),
    {
        let now = self.clock();
        self.set_hash_at(addr, field, val, now)
    }

    /// Reads a field of the hash in slot `addr`, as `get_hash_at` does at the
    /// current clock reading.
    pub fn get_hash(&mut self, addr: usize, field: &str) -> (r: (RlapValue, Promotion))
        ensures
            exists|now: u128|
                old(self).latest() <= now <= max_duration_nanos() && final(self).latest() == now
                    && (r.0.model(), final(self)@) == old(self)@.hget_op(addr as int, field@, now)
                    && r.1 == old(self)@.access_event(addr as int, now),
    {
        let now = self.clock();
        self.get_hash_at(addr, field, now)
    }

    /// Reads every field of the hash in slot `addr`, as `get_hash_all_at`
    /// does at the current clock reading.
    pub fn get_hash_all(&mut self, addr: usize) -> (r: (Vec<(String, RlapValue)>, Promotion))
        ensures
            exists|now: u128|
                old(self).latest() <= now <= max_duration_nanos() && final(self).latest() == now
                    && (fields_model(r.0@), final(self)@) == old(self)@.hgetall_op(addr as int, now)
                    && r.1 == old(self)@.access_event(addr as int, now),
    {
        let now = self.clock();
        self.get_hash_all_at(addr, now)
    }

    /// Gives slot `addr` a time-to-live, as `expire_at` does at the current
    /// clock reading (`None` when the clock cannot represent the deadline).
    pub fn expire(&mut self, addr: usize, ttl_secs: u64) -> (r: Option<bool>)
        ensures
            exists|now: u128, fits: bool|
                old(self).latest() <= now <= max_duration_nanos() && final(self).latest() == now
                    && (r, final(self)@) == old(self)@.expire_outcome(addr as int, ttl_secs, now, fits),
    {
        let now = self.clock();
        let fits = deadline_fits_now(ttl_secs);
        self.expire_at(addr, ttl_secs, now, fits)
    }

    /// Seconds left to live for slot `addr`, as `ttl_at` reports at the
    /// current clock reading.
    pub fn ttl(&mut self, addr: usize) -> (t: i64)
        ensures
            exists|now: u128|
                old(self).latest() <= now <= max_duration_nanos() && final(self).latest() == now
                    && (t, final(self)@) == old(self)@.ttl_op(addr as int, now),
    {
        let now = self.clock();
        self.ttl_at(addr, now)
    }
}

/// Looking at a slot twice at the same time is looking at it once.
pub proof fn lemma_touch_twice(d: DbModel, addr: int, now: u128)
    ensures
        d.touch(addr, now).touch(addr, now) == d.touch(addr, now),
{
    if d.holds(addr) {
        assert(d.touch(addr, now).touch(addr, now).slots =~= d.touch(addr, now).slots);
    }
}

/// The hot zone is a prefix of the slots.
pub proof fn lemma_view_shape(db: &RlapDb)
    ensures
        db@.hot_len <= db@.slots.len(),
{
}

/// Lazy expiry keeps the number of slots, the hot zone, an empty slot
/// empty, and the access count or resets it to zero.
pub proof fn lemma_touch_keeps_empty(d: DbModel, addr: int, now: u128)
    ensures
        d.touch(addr, now).slots.len() == d.slots.len(),
        d.touch(addr, now).hot_len == d.hot_len,
        d.holds(addr) && d.slots[addr].data is Empty ==> d.touch(addr, now).slots[addr].data is Empty,
        d.holds(addr) ==> d.touch(addr, now).slots[addr].pinned == d.slots[addr].pinned,
        d.holds(addr) ==> (d.touch(addr, now).slots[addr].access_count == d.slots[addr].access_count
            || d.touch(addr, now).slots[addr].access_count == 0),
{
}

/// An access reports a division by zero only where `faults` says so; a read
/// of an empty slot never does.
pub proof fn lemma_fault_exact(d: DbModel, addr: int, now: u128)
    ensures
        d.access_event(addr, now) == Promotion::Fault ==> d.faults(addr),
        d.read_event(addr, now) == Promotion::Fault ==> d.faults(addr) && !(d.slots[addr].data is Empty),
        d.faults(addr) && d.touch(addr, now) == d ==> d.access_event(addr, now) == Promotion::Fault,
{
    lemma_touch_keeps_empty(d, addr, now);
}

/// A read returns what the last `set` stored, until the stored deadline
/// passes; after that it returns the empty value. A missing address reads
/// as the empty value.
pub proof fn lemma_get_after_set(d: DbModel, addr: int, v: ValueModel, ttl: Option<u64>, t: u128, later: u128)
    requires
        t <= later,
    ensures
        d.set_op(addr, v, ttl, t).get_op(addr, later).0 == (if !d.holds(addr) {
            ValueModel::Empty
        } else {
            match ttl {
                Some(secs) => if later > deadline(t, secs) {
                    ValueModel::Empty
                } else {
                    v
                },
                None => v,
            }
        }),
{
}

/// A read after `del` returns the empty value.
pub proof fn lemma_get_after_del(d: DbModel, addr: int, t: u128, later: u128)
    ensures
        d.del_op(addr, t).get_op(addr, later).0 == ValueModel::Empty,
{
}

/// Within the second after `expire` succeeds, `ttl` reports the seconds just
/// given, less one once any time has passed (it counts whole seconds left).
pub proof fn lemma_ttl_after_expire(d: DbModel, addr: int, secs: u64, now: u128, later: u128)
    requires
        0 < secs <= i64::MAX,
        now <= max_duration_nanos(),
        now <= later < now + 1_000_000_000,
        d.expire_op(addr, secs, now).0,
    ensures
        d.expire_op(addr, secs, now).1.ttl_op(addr, later).0 == (if later == now { secs as i64 } else { (secs - 1) as i64 }),
{
    let e = deadline(now, secs);
    assert(e == now + secs * 1_000_000_000);
    let gap = later - now;
    assert(e - later == secs * 1_000_000_000 - gap);
    if later == now {
        assert((e - now) / 1_000_000_000 == secs as int) by (nonlinear_arith)
            requires e == now + secs * 1_000_000_000;
    } else {
        assert((secs * 1_000_000_000 - gap) / 1_000_000_000 == secs - 1) by (nonlinear_arith)
            requires 0 < gap < 1_000_000_000, secs > 0;
    }
}

/// Across calls: an `expire` that gave a value `secs` seconds at reading
/// `t1`, then a `ttl` at reading `t2`, less than a second later (the public
/// calls expose their readings as `latest()`, which never goes back),
/// reports `secs`, or `secs - 1` once any time has passed.
pub proof fn lemma_ttl_after_expire_calls(
    d0: DbModel,
    addr: int,
    secs: u64,
    t1: u128,
    fits: bool,
    t2: u128,
)
    requires
        0 < secs <= i64::MAX,
        t1 <= max_duration_nanos(),
        t1 <= t2 < t1 + 1_000_000_000,
        d0.expire_outcome(addr, secs, t1, fits).0 == Some(true),
    ensures
        ({
            let t = d0.expire_outcome(addr, secs, t1, fits).1.ttl_op(addr, t2).0;
            t == secs as i64 || t == secs as i64 - 1
        }),
{
    lemma_ttl_after_expire(d0, addr, secs, t1, t2);
}

/// A value stored without a deadline reports -1 as its time-to-live; the
/// empty value reports -2.
pub proof fn lemma_ttl_without_deadline(d: DbModel, addr: int, v: ValueModel, t: u128, later: u128)
    requires
        d.holds(addr),
    ensures
        d.set_op(addr, v, None, t).ttl_op(addr, later).0 == (if v is Empty { -2i64 } else { -1i64 }),
{
}

/// The count that the next access to `addr` at time `now` starts from.
pub open spec fn count_before(d: DbModel, addr: int, now: u128) -> u64 {
    d.touch(addr, now).slots[addr].access_count
}

/// A pop returns what the push before it put at the front of the list,
/// unless the push was the access that promoted a cold slot (whose value
/// then moves to the hot zone).
pub proof fn lemma_pop_after_push(d: DbModel, addr: int, v: ValueModel, now: u128)
    requires
        d.holds(addr),
        addr < d.hot_len || count_before(d, addr, now) != 5,
    ensures
        d.push_op(addr, v, now).pop_op(addr, now).0 == v,
{
    let t = d.touch(addr, now);
    let e = t.with_data(
        addr,
        match t.slots[addr].data {
            ValueModel::List(l) => ValueModel::List(seq![v] + l),
            _ => ValueModel::List(seq![v]),
        },
    );
    let p = e.promote(addr);
    assert(p.slots[addr].data == e.slots[addr].data);
    assert(p.slots[addr].expires_at == t.slots[addr].expires_at);
    if let Some(x) = t.slots[addr].expires_at {
        assert(!(now > x));
    }
    assert(p.touch(addr, now).slots[addr].data == e.slots[addr].data);
}

/// A read of a hash field returns what the `set_hash` before it stored,
/// unless that `set_hash` was the access that promoted a cold slot.
pub proof fn lemma_hget_after_hset(d: DbModel, addr: int, key: Seq<char>, v: ValueModel, now: u128)
    requires
        d.holds(addr),
        addr < d.hot_len || count_before(d, addr, now) != 5,
    ensures
        d.hset_op(addr, key, v, now).hget_op(addr, key, now).0 == v,
{
    let t = d.touch(addr, now);
    let h = match t.slots[addr].data {
        ValueModel::Hash(h) => field_put(h, key, v),
        _ => seq![(key, v)],
    };
    let e = t.with_data(addr, ValueModel::Hash(h));
    let p = e.promote(addr);
    assert(p.slots[addr].data == e.slots[addr].data);
    assert(p.slots[addr].expires_at == t.slots[addr].expires_at);
    if let Some(x) = t.slots[addr].expires_at {
        assert(!(now > x));
    }
    assert(p.touch(addr, now).slots[addr].data == ValueModel::Hash(h));
    crate::value::lemma_field_put_get(match t.slots[addr].data {
        ValueModel::Hash(h0) => h0,
        _ => Seq::empty(),
    }, key, v);
    if !(t.slots[addr].data is Hash) {
        assert(field_put(Seq::<(Seq<char>, ValueModel)>::empty(), key, v) =~= seq![(key, v)]);
    }
}

/// No operation changes how many slots there are, how many are hot, or the
/// value stack.
pub proof fn lemma_ops_keep_shape(
    d: DbModel,
    addr: int,
    key: Seq<char>,
    v: ValueModel,
    ttl: Option<u64>,
    secs: u64,
    now: u128,
)
    ensures
        d.set_op(addr, v, ttl, now).slots.len() == d.slots.len(),
        d.set_op(addr, v, ttl, now).hot_len == d.hot_len,
        d.del_op(addr, now).slots.len() == d.slots.len(),
        d.del_op(addr, now).hot_len == d.hot_len,
        d.get_op(addr, now).1.slots.len() == d.slots.len(),
        d.get_op(addr, now).1.hot_len == d.hot_len,
        d.push_op(addr, v, now).slots.len() == d.slots.len(),
        d.push_op(addr, v, now).hot_len == d.hot_len,
        d.pop_op(addr, now).1.slots.len() == d.slots.len(),
        d.pop_op(addr, now).1.hot_len == d.hot_len,
        d.hset_op(addr, key, v, now).slots.len() == d.slots.len(),
        d.hset_op(addr, key, v, now).hot_len == d.hot_len,
        d.hget_op(addr, key, now).1.slots.len() == d.slots.len(),
        d.hget_op(addr, key, now).1.hot_len == d.hot_len,
        d.hgetall_op(addr, now).1.slots.len() == d.slots.len(),
        d.hgetall_op(addr, now).1.hot_len == d.hot_len,
        d.expire_op(addr, secs, now).1.slots.len() == d.slots.len(),
        d.expire_op(addr, secs, now).1.hot_len == d.hot_len,
        d.ttl_op(addr, now).1 == d.touch(addr, now),
        d.set_op(addr, v, ttl, now).stack == d.stack,
        d.del_op(addr, now).stack == d.stack,
        d.get_op(addr, now).1.stack == d.stack,
        d.push_op(addr, v, now).stack == d.stack,
        d.pop_op(addr, now).1.stack == d.stack,
        d.hset_op(addr, key, v, now).stack == d.stack,
        d.hget_op(addr, key, now).1.stack == d.stack,
        d.hgetall_op(addr, now).1.stack == d.stack,
        d.expire_op(addr, secs, now).1.stack == d.stack,
{
}

/// An address that names no slot reads as the empty value (and as -2 for
/// `ttl`, `false` for `expire`), and no operation on it changes the store.
pub proof fn lemma_missing_address(
    d: DbModel,
    addr: int,
    key: Seq<char>,
    v: ValueModel,
    ttl: Option<u64>,
    secs: u64,
    now: u128,
)
    requires
        !d.holds(addr),
    ensures
        d.set_op(addr, v, ttl, now) == d,
        d.del_op(addr, now) == d,
        d.get_op(addr, now) == (ValueModel::Empty, d),
        d.push_op(addr, v, now) == d,
        d.pop_op(addr, now) == (ValueModel::Empty, d),
        d.hset_op(addr, key, v, now) == d,
        d.hget_op(addr, key, now) == (ValueModel::Empty, d),
        d.hgetall_op(addr, now) == (Seq::<(Seq<char>, ValueModel)>::empty(), d),
        d.expire_op(addr, secs, now) == (false, d),
        d.ttl_op(addr, now) == (-2i64, d),
{
    let none = Seq::<(Seq<char>, ValueModel)>::empty();
    assert(field_index(none, key) is None);
}

/// Promotion exchanges the values of a cold slot and of a hot slot, or
/// leaves every value where it is; no value is lost or copied.
pub proof fn lemma_promote_exchanges(d: DbModel, addr: int)
    requires
        d.holds(addr),
        d.hot_len <= addr,
        d.hot_len > 0,
    ensures
        ({
            let p = d.promote(addr);
            let h = addr % (d.hot_len as int);
            &&& p.slots.len() == d.slots.len()
            &&& forall|i: int| 0 <= i < d.slots.len() && i != addr && i != h ==> p.slots[i] == d.slots[i]
            &&& (p.slots[addr].data == d.slots[addr].data && p.slots[h].data == d.slots[h].data)
                || (p.slots[addr].data == d.slots[h].data && p.slots[h].data == d.slots[addr].data)
        }),
{
    let h = addr % (d.hot_len as int);
    assert(0 <= h < d.hot_len);
}

/// The values the slots hold, counted with multiplicity.
pub open spec fn stored_values(d: DbModel) -> Multiset<ValueModel> {
    d.slots.map_values(|s: SlotModel| s.data).to_multiset()
}

/// The deadlines the slots hold, counted with multiplicity.
pub open spec fn stored_deadlines(d: DbModel) -> Multiset<Option<u128>> {
    d.slots.map_values(|s: SlotModel| s.expires_at).to_multiset()
}

/// Exchanging two items of a sequence keeps its multiset.
proof fn lemma_exchange_multiset<A>(v: Seq<A>, i: int, j: int)
    requires
        0 <= i < v.len(),
        0 <= j < v.len(),
        i != j,
    ensures
        v.update(i, v[j]).update(j, v[i]).to_multiset() == v.to_multiset(),
{
    broadcast use vstd::seq_lib::to_multiset_update;
    broadcast use vstd::multiset::group_multiset_axioms;

    let a = v[i];
    let b = v[j];
    let v1 = v.update(i, b);
    assert(v1[j] == b);
    assert(v1.to_multiset() == v.to_multiset().insert(b).remove(a));
    assert(v1.update(j, a).to_multiset() == v1.to_multiset().insert(a).remove(b));
    let m = v.to_multiset();
    assert(m.count(a) > 0) by {
        broadcast use vstd::seq_lib::to_multiset_contains;
        assert(v.contains(a));
    }
    assert(v1.update(j, a).to_multiset() =~= m);
}

/// Counting an access never loses or copies a value or a deadline: the
/// store holds the same values, and the same deadlines, with the same
/// multiplicities, before and after; the shape is unchanged.
pub proof fn lemma_promote_keeps_values(d: DbModel, addr: int)
    ensures
        stored_values(d.promote(addr)) == stored_values(d),
        stored_deadlines(d.promote(addr)) == stored_deadlines(d),
        d.promote(addr).slots.len() == d.slots.len(),
        d.promote(addr).hot_len == d.hot_len,
{
    let v = d.slots.map_values(|s: SlotModel| s.data);
    let x = d.slots.map_values(|s: SlotModel| s.expires_at);
    let p = d.promote(addr);
    let w = p.slots.map_values(|s: SlotModel| s.data);
    let y = p.slots.map_values(|s: SlotModel| s.expires_at);
    if addr < d.hot_len || !d.holds(addr) {
    } else {
        let c = d.slots[addr];
        if c.access_count == 5 && !c.pinned && d.hot_len > 0 && !d.slots[addr % (d.hot_len as int)].pinned {
            let h = addr % (d.hot_len as int);
            assert(0 <= h < d.hot_len);
            assert(w =~= v.update(addr, v[h]).update(h, v[addr]));
            assert(y =~= x.update(addr, x[h]).update(h, x[addr]));
            lemma_exchange_multiset(v, addr, h);
            lemma_exchange_multiset(x, addr, h);
        } else {
            assert(w =~= v);
            assert(y =~= x);
        }
    }
}

/// Every hash in the store has distinct field names.
pub open spec fn hashes_distinct(d: DbModel) -> bool {
    forall|i: int| 0 <= i < d.slots.len() ==> (#[trigger] d.slots[i].data matches ValueModel::Hash(h) ==> distinct_fields(h))
}

/// `set_hash` keeps the field names of every hash distinct.
pub proof fn lemma_hset_keeps_fields_distinct(d: DbModel, addr: int, key: Seq<char>, v: ValueModel, now: u128)
    requires
        hashes_distinct(d),
    ensures
        hashes_distinct(d.hset_op(addr, key, v, now)),
{
    let t = d.touch(addr, now);
    assert(hashes_distinct(t)) by {
        assert forall|i: int| 0 <= i < t.slots.len() implies (#[trigger] t.slots[i].data matches ValueModel::Hash(h) ==> distinct_fields(h)) by {
            assert(d.slots[i].data matches ValueModel::Hash(h) ==> distinct_fields(h));
        }
    }
    if t.holds(addr) {
        let nd = match t.slots[addr].data {
            ValueModel::Hash(h) => ValueModel::Hash(field_put(h, key, v)),
            _ => ValueModel::Hash(seq![(key, v)]),
        };
        if let ValueModel::Hash(h0) = t.slots[addr].data {
            assert(t.slots[addr].data matches ValueModel::Hash(h) ==> distinct_fields(h));
            crate::value::lemma_field_put_distinct(h0, key, v);
        }
        let e = t.with_data(addr, nd);
        assert(hashes_distinct(e)) by {
            assert forall|i: int| 0 <= i < e.slots.len() implies (#[trigger] e.slots[i].data matches ValueModel::Hash(h) ==> distinct_fields(h)) by {
                if i != addr {
                    assert(t.slots[i].data matches ValueModel::Hash(h) ==> distinct_fields(h));
                }
            }
        }
        lemma_promote_keeps_distinct(e, addr);
    } else {
        lemma_promote_keeps_distinct(t, addr);
    }
}

proof fn lemma_promote_keeps_distinct(d: DbModel, addr: int)
    requires
        hashes_distinct(d),
    ensures
        hashes_distinct(d.promote(addr)),
{
    let p = d.promote(addr);
    if !(addr < d.hot_len || !d.holds(addr)) {
        let h = addr % (d.hot_len as int);
        assert forall|i: int| 0 <= i < p.slots.len() implies (#[trigger] p.slots[i].data matches ValueModel::Hash(x) ==> distinct_fields(x)) by {
            assert(d.slots[i].data matches ValueModel::Hash(x) ==> distinct_fields(x));
            assert(d.slots[addr].data matches ValueModel::Hash(x) ==> distinct_fields(x));
            if d.hot_len > 0 {
                assert(d.slots[h].data matches ValueModel::Hash(x) ==> distinct_fields(x));
            }
        }
    }
}

impl RlapDb {
    /// Stores `val` in slot `addr` after lazy expiry at `now`, keeping its
    /// deadline and count: the part of `set` that precedes the deadline.
    pub fn overwrite_at(&mut self, addr: usize, val: RlapValue, now: u128)
        ensures
            final(self).latest() == old(self).latest(),
            final(self)@ == old(self)@.overwrite_op(addr as int, val.model(), now),
    {
        if self.refresh(addr, now) {
            self.put_data(addr, val);
        }
    }
}

/// A pop right after a push undoes the push on a slot that held a list,
/// unless one of the two accesses promotes a cold slot.
pub proof fn lemma_pop_undoes_push(d: DbModel, addr: int, v: ValueModel, now: u128)
    requires
        d.holds(addr),
        d.touch(addr, now).slots[addr].data is List,
        addr < d.hot_len || (count_before(d, addr, now) != 4 && count_before(d, addr, now) != 5),
    ensures
        d.push_op(addr, v, now).pop_op(addr, now).1.slots[addr].data == d.touch(addr, now).slots[addr].data,
{
    let t = d.touch(addr, now);
    let l = t.slots[addr].data->List_0;
    let e = t.with_data(addr, ValueModel::List(seq![v] + l));
    let p = e.promote(addr);
    assert(p.slots[addr].data == e.slots[addr].data);
    if let Some(x) = t.slots[addr].expires_at {
        assert(!(now > x));
    }
    let q = p.touch(addr, now);
    assert(q.slots[addr].data == ValueModel::List(seq![v] + l));
    assert((seq![v] + l).subrange(1, (seq![v] + l).len() as int) =~= l);
    let r = q.with_data(addr, ValueModel::List(l));
    assert(r.promote(addr).slots[addr].data == ValueModel::List(l));
}

/// A slot whose deadline `e` has passed is seen by every operation as
/// empty, whatever it held: reads answer the empty value (no fields, -2 for
/// `ttl`), `expire` refuses it, the slot is left empty and without a
/// deadline, and a push or a hash set starts a fresh list or hash.
pub proof fn lemma_expired_slot_is_empty(
    d: DbModel,
    addr: int,
    e: u128,
    now: u128,
    key: Seq<char>,
    v: ValueModel,
    secs: u64,
)
    requires
        d.holds(addr),
        d.slots[addr].expires_at == Some(e),
        now > e,
    ensures
        d.get_op(addr, now).0 == ValueModel::Empty,
        d.get_op(addr, now).1.slots[addr].data == ValueModel::Empty,
        d.pop_op(addr, now).0 == ValueModel::Empty,
        d.pop_op(addr, now).1.slots[addr].data == ValueModel::Empty,
        d.hget_op(addr, key, now).0 == ValueModel::Empty,
        d.hget_op(addr, key, now).1.slots[addr].data == ValueModel::Empty,
        d.hgetall_op(addr, now).0 == Seq::<(Seq<char>, ValueModel)>::empty(),
        !d.expire_op(addr, secs, now).0,
        d.expire_op(addr, secs, now).1.slots[addr].data == ValueModel::Empty,
        d.expire_op(addr, secs, now).1.slots[addr].expires_at is None,
        d.ttl_op(addr, now).0 == -2,
        d.push_op(addr, v, now).slots[addr].data == ValueModel::List(seq![v]),
        d.hset_op(addr, key, v, now).slots[addr].data == ValueModel::Hash(seq![(key, v)]),
{
    let t = d.touch(addr, now);
    assert(t.slots[addr].data == ValueModel::Empty);
    assert(t.slots[addr].access_count == 0);
    assert(field_index(Seq::<(Seq<char>, ValueModel)>::empty(), key) is None);
}

/// A slot whose deadline has not passed is seen as it is stored: a read
/// answers its value, a pop the front of its list, a hash read the field or
/// fields of its hash, `expire` succeeds exactly when it holds a value, and
/// `ttl` answers -1 for a value without a deadline.
pub proof fn lemma_live_slot_reads_stored(d: DbModel, addr: int, now: u128, key: Seq<char>, secs: u64)
    requires
        d.holds(addr),
        d.slots[addr].expires_at matches Some(e) ==> now <= e,
    ensures
        d.get_op(addr, now).0 == d.slots[addr].data,
        d.pop_op(addr, now).0 == (match d.slots[addr].data {
            ValueModel::List(l) => if l.len() > 0 { l[0] } else { ValueModel::Empty },
            _ => ValueModel::Empty,
        }),
        d.hget_op(addr, key, now).0 == (match d.slots[addr].data {
            ValueModel::Hash(h) => field_get(h, key),
            _ => ValueModel::Empty,
        }),
        d.hgetall_op(addr, now).0 == (match d.slots[addr].data {
            ValueModel::Hash(h) => h,
            _ => Seq::<(Seq<char>, ValueModel)>::empty(),
        }),
        d.expire_op(addr, secs, now).0 == !(d.slots[addr].data is Empty),
        d.slots[addr].expires_at is None && !(d.slots[addr].data is Empty) ==> d.ttl_op(addr, now).0 == -1,
{
    let t = d.touch(addr, now);
    assert(t.slots =~= d.slots);
    assert(field_index(Seq::<(Seq<char>, ValueModel)>::empty(), key) is None);
}

} // verus!
