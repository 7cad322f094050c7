//! Polyphonic voice allocation.
//!
//! A `Manager` routes note-on and note-off messages to a fixed array of
//! voices. A note-on goes to the lowest free slot, or is dropped when every
//! voice is sounding; a note-off reaches every sounding voice that plays its
//! note.
use vstd::prelude::*;
use bit_set::BitSet;

verus! {

#[verifier::external_type_specification]
#[verifier::external_body]
#[verifier::reject_recursive_types(B)]
pub struct ExBitSet<B>(BitSet<B>);

/// The slot indices a bit set holds.
pub uninterp spec fn bits_of(s: BitSet) -> Set<usize>;

/// Relies on `BitSet::with_capacity`: the new set holds nothing.
#[verifier::external_body]
fn bitset_with_capacity(nbits: usize) -> (r: BitSet)
    ensures
        bits_of(r) == Set::<usize>::empty(),
{
    BitSet::with_capacity(nbits)
}

/// Relies on `BitSet::insert`: adds `value`, and says whether it was absent.
#[verifier::external_body]
fn bitset_insert(s: &mut BitSet, value: usize) -> (r: bool)
    requires
        value < usize::MAX,
    ensures
        bits_of(*final(s)) == bits_of(*old(s)).insert(value),
        r == !bits_of(*old(s)).contains(value),
{
    s.insert(value)
}

/// Relies on `BitSet::remove`: takes `value` out, and says whether it was present.
#[verifier::external_body]
fn bitset_remove(s: &mut BitSet, value: usize) -> (r: bool)
    ensures
        bits_of(*final(s)) == bits_of(*old(s)).remove(value),
        r == bits_of(*old(s)).contains(value),
{
    s.remove(value)
}

/// Relies on `BitSet::iter`, whose iterator walks the blocks from the first
/// and each block from its lowest bit: its first item is the least member.
#[verifier::external_body]
fn bitset_first(s: &BitSet) -> (r: Option<usize>)
    ensures
        r is None <==> bits_of(*s) == Set::<usize>::empty(),
        r matches Some(i) ==> bits_of(*s).contains(i) && forall|j: usize|
            #[trigger] bits_of(*s).contains(j) ==> i <= j,
{
    s.iter().next()
}

/// One voice of a synthesizer.
pub trait Voice {
    type Configuration: ?Sized;

    /// Whether the voice is still sounding: what `is_running` returns. An
    /// implementation outside verified code defines it as `is_running` does.
    spec fn running(&self) -> bool;

    /// Whether `after` is what this voice becomes when it receives
    /// `note_on(config, note_number, velocity)`.
    spec fn noted_on(&self, config: &Self::Configuration, note_number: u8, velocity: u8, after: &Self) -> bool;

    /// Whether `after` is what this voice becomes when it receives
    /// `note_off(config, velocity)`.
    spec fn noted_off(&self, config: &Self::Configuration, velocity: u8, after: &Self) -> bool;

    fn note_on(&mut self, config: &Self::Configuration, note_number: u8, velocity: u8)
        ensures
            old(self).noted_on(config, note_number, velocity, final(self)),
    ;

    fn note_off(&mut self, config: &Self::Configuration, velocity: u8)
        ensures
            old(self).noted_off(config, velocity, final(self)),
    ;

    /// Returning false says that the voice is ready for a new note without
    /// audible glitch: its release is done. A voice may stop before it got a
    /// note-off; it then gets none.
    fn is_running(&self) -> (r: bool)
        ensures
            r == self.running(),
    ;
}

/// The slots that are not sounding.
pub open spec fn idle_slots<V: Voice>(voices: Seq<V>) -> Set<usize> {
    Set::new(|i: usize| i < voices.len() && !voices[i as int].running())
}

/// The least member of `s`, if any.
pub open spec fn lowest(s: Set<usize>) -> Option<usize> {
    if exists|i: usize| s.contains(i) {
        Some(choose|i: usize| s.contains(i) && forall|j: usize| #[trigger] s.contains(j) ==> i <= j)
    } else {
        None
    }
}

/// The entries whose voice is still sounding, in order.
pub open spec fn live_entries<V: Voice>(used: Seq<(usize, u8)>, voices: Seq<V>) -> Seq<(usize, u8)>
    decreases used.len(),
{
    if used.len() == 0 {
        used
    } else {
        let rest = live_entries(used.drop_last(), voices);
        if voices[used.last().0 as int].running() {
            rest.push(used.last())
        } else {
            rest
        }
    }
}

/// The entries for notes other than `note`, in order.
pub open spec fn other_notes(used: Seq<(usize, u8)>, note: u8) -> Seq<(usize, u8)>
    decreases used.len(),
{
    if used.len() == 0 {
        used
    } else {
        let rest = other_notes(used.drop_last(), note);
        if used.last().1 != note {
            rest.push(used.last())
        } else {
            rest
        }
    }
}

proof fn lemma_live_entries_within<V: Voice>(used: Seq<(usize, u8)>, voices: Seq<V>, bound: usize)
    requires
        forall|k: int| 0 <= k < used.len() ==> (#[trigger] used[k]).0 < bound,
    ensures
        forall|k: int| 0 <= k < live_entries(used, voices).len() ==> (#[trigger] live_entries(used, voices)[k]).0 < bound,
    decreases used.len(),
{
    if used.len() > 0 {
        let d = used.drop_last();
        assert forall|k: int| 0 <= k < d.len() implies (#[trigger] d[k]).0 < bound by {
            assert(d[k] == used[k]);
        }
        lemma_live_entries_within(d, voices, bound);
        assert(used.last() == used[used.len() - 1]);
        let res = live_entries(used, voices);
        let rest = live_entries(d, voices);
        assert forall|k: int| 0 <= k < res.len() implies (#[trigger] res[k]).0 < bound by {
            if k < rest.len() {
                assert(res[k] == rest[k]);
            }
        }
    }
}

proof fn lemma_other_notes_within(used: Seq<(usize, u8)>, note: u8, bound: usize)
    requires
        forall|k: int| 0 <= k < used.len() ==> (#[trigger] used[k]).0 < bound,
    ensures
        forall|k: int| 0 <= k < other_notes(used, note).len() ==> (#[trigger] other_notes(used, note)[k]).0 < bound,
    decreases used.len(),
{
    if used.len() > 0 {
        let d = used.drop_last();
        assert forall|k: int| 0 <= k < d.len() implies (#[trigger] d[k]).0 < bound by {
            assert(d[k] == used[k]);
        }
        lemma_other_notes_within(d, note, bound);
        assert(used.last() == used[used.len() - 1]);
        let res = other_notes(used, note);
        let rest = other_notes(d, note);
        assert forall|k: int| 0 <= k < res.len() implies (#[trigger] res[k]).0 < bound by {
            if k < rest.len() {
                assert(res[k] == rest[k]);
            }
        }
    }
}

/// Whether a note-off for `note` reaches slot `j`: an entry for that note
/// names the slot, and the voice there is sounding.
pub open spec fn released<V: Voice>(used: Seq<(usize, u8)>, voices: Seq<V>, note: u8, j: int) -> bool {
    voices[j].running() && exists|k: int| 0 <= k < used.len() && #[trigger] used[k] == (j as usize, note)
}

/// No two entries name the same slot.
pub open spec fn distinct_slots(used: Seq<(usize, u8)>) -> bool {
    forall|a: int, b: int| 0 <= a < b < used.len() ==> (#[trigger] used[a]).0 != (#[trigger] used[b]).0
}

proof fn lemma_live_entries_from<V: Voice>(used: Seq<(usize, u8)>, voices: Seq<V>)
    ensures
        forall|k: int|
            0 <= k < live_entries(used, voices).len() ==> {
                let e = #[trigger] live_entries(used, voices)[k];
                &&& voices[e.0 as int].running()
                &&& exists|m: int| 0 <= m < used.len() && used[m] == e
            },
    decreases used.len(),
{
    if used.len() > 0 {
        let d = used.drop_last();
        lemma_live_entries_from(d, voices);
        let res = live_entries(used, voices);
        let rest = live_entries(d, voices);
        assert forall|k: int| 0 <= k < res.len() implies {
            let e = #[trigger] res[k];
            &&& voices[e.0 as int].running()
            &&& exists|m: int| 0 <= m < used.len() && used[m] == e
        } by {
            if k < rest.len() {
                assert(res[k] == rest[k]);
                let m = choose|m: int| 0 <= m < d.len() && d[m] == rest[k];
                assert(used[m] == d[m]);
            } else {
                assert(used[used.len() - 1] == res[k]);
            }
        }
    }
}

proof fn lemma_other_notes_from(used: Seq<(usize, u8)>, note: u8)
    ensures
        forall|k: int|
            0 <= k < other_notes(used, note).len() ==> {
                let e = #[trigger] other_notes(used, note)[k];
                &&& e.1 != note
                &&& exists|m: int| 0 <= m < used.len() && used[m] == e
            },
    decreases used.len(),
{
    if used.len() > 0 {
        let d = used.drop_last();
        lemma_other_notes_from(d, note);
        let res = other_notes(used, note);
        let rest = other_notes(d, note);
        assert forall|k: int| 0 <= k < res.len() implies {
            let e = #[trigger] res[k];
            &&& e.1 != note
            &&& exists|m: int| 0 <= m < used.len() && used[m] == e
        } by {
            if k < rest.len() {
                assert(res[k] == rest[k]);
                let m = choose|m: int| 0 <= m < d.len() && d[m] == rest[k];
                assert(used[m] == d[m]);
            } else {
                assert(used[used.len() - 1] == res[k]);
            }
        }
    }
}

proof fn lemma_live_entries_distinct<V: Voice>(used: Seq<(usize, u8)>, voices: Seq<V>)
    requires
        distinct_slots(used),
    ensures
        distinct_slots(live_entries(used, voices)),
    decreases used.len(),
{
    if used.len() > 0 {
        let d = used.drop_last();
        assert forall|a: int, b: int| 0 <= a < b < d.len() implies (#[trigger] d[a]).0 != (#[trigger] d[b]).0 by {
            assert(d[a] == used[a] && d[b] == used[b]);
        }
        lemma_live_entries_distinct(d, voices);
        lemma_live_entries_from(d, voices);
        let res = live_entries(used, voices);
        let rest = live_entries(d, voices);
        assert forall|a: int, b: int| 0 <= a < b < res.len() implies (#[trigger] res[a]).0 != (#[trigger] res[b]).0 by {
            assert(res[a] == rest[a]);
            if b < rest.len() {
                assert(res[b] == rest[b]);
            } else {
                let m = choose|m: int| 0 <= m < d.len() && d[m] == rest[a];
                assert(used[m] == d[m]);
                assert(res[b] == used[used.len() - 1]);
            }
        }
    }
}

proof fn lemma_other_notes_distinct(used: Seq<(usize, u8)>, note: u8)
    requires
        distinct_slots(used),
    ensures
        distinct_slots(other_notes(used, note)),
    decreases used.len(),
{
    if used.len() > 0 {
        let d = used.drop_last();
        assert forall|a: int, b: int| 0 <= a < b < d.len() implies (#[trigger] d[a]).0 != (#[trigger] d[b]).0 by {
            assert(d[a] == used[a] && d[b] == used[b]);
        }
        lemma_other_notes_distinct(d, note);
        lemma_other_notes_from(d, note);
        let res = other_notes(used, note);
        let rest = other_notes(d, note);
        assert forall|a: int, b: int| 0 <= a < b < res.len() implies (#[trigger] res[a]).0 != (#[trigger] res[b]).0 by {
            assert(res[a] == rest[a]);
            if b < rest.len() {
                assert(res[b] == rest[b]);
            } else {
                let m = choose|m: int| 0 <= m < d.len() && d[m] == rest[a];
                assert(used[m] == d[m]);
                assert(res[b] == used[used.len() - 1]);
            }
        }
    }
}

/// Allocates a fixed number of voices to notes.
pub struct Manager {
    num_voices: usize,
    used_voices: Vec<(usize, u8)>,
    free_voices: BitSet,
}

impl Manager {
    /// Number of voice slots.
    pub closed spec fn capacity(&self) -> nat {
        self.num_voices as nat
    }

    /// The sounding notes as (slot, note) pairs, oldest first.
    pub closed spec fn used(&self) -> Seq<(usize, u8)> {
        self.used_voices@
    }

    /// The slots known to be free.
    pub closed spec fn free(&self) -> Set<usize> {
        bits_of(self.free_voices)
    }

    /// Entries and free slots name slots of the manager, and no two entries
    /// name the same slot.
    pub closed spec fn wf(&self) -> bool {
        &&& forall|k: int| 0 <= k < self.used_voices@.len() ==> (#[trigger] self.used_voices@[k]).0 < self.num_voices
        &&& forall|i: usize| #[trigger] bits_of(self.free_voices).contains(i) ==> i < self.num_voices
        &&& distinct_slots(self.used_voices@)
    }

    /// A manager of `num_voices` voices, none of them in use.
    pub fn new(num_voices: usize) -> (r: Manager)
        ensures
            r.wf(),
            r.capacity() == num_voices,
            r.used() == Seq::<(usize, u8)>::empty(),
            r.free() == Set::<usize>::empty(),
    {
        Manager {
            num_voices,
            used_voices: Vec::with_capacity(num_voices),
            free_voices: bitset_with_capacity(num_voices),
        }
    }

    /// What a note-on of `note` at `velocity` does: the entries whose voice
    /// stopped by itself are forgotten, the free set becomes the idle slots,
    /// and the lowest idle slot, if any, leaves it, gets an entry for the note
    /// and its voice receives `note_on(config, note, velocity)`; no other
    /// voice is touched. With no idle slot the note is dropped and no voice is
    /// touched.
    pub open spec fn note_on_done<V: Voice>(
        before: Manager,
        voices_before: Seq<V>,
        after: Manager,
        voices_after: Seq<V>,
        config: &V::Configuration,
        note: u8,
        velocity: u8,
    ) -> bool {
        let live = live_entries(before.used(), voices_before);
        let idle = idle_slots(voices_before);
        &&& after.capacity() == before.capacity()
        &&& voices_after.len() == voices_before.len()
        &&& match lowest(idle) {
            None => {
                &&& after.used() == live
                &&& after.free() == idle
                &&& voices_after == voices_before
            },
            Some(slot) => {
                &&& after.used() == live.push((slot, note))
                &&& after.free() == idle.remove(slot)
                &&& voices_before[slot as int].noted_on(config, note, velocity, &voices_after[slot as int])
                &&& forall|j: int|
                    0 <= j < voices_before.len() && j != slot ==> #[trigger] voices_after[j]
                        == voices_before[j]
            },
        }
    }

    /// What a note-off of `note` at `velocity` does: every entry for the note
    /// is forgotten, the others stay in order, the free set is kept, each
    /// voice it releases receives one `note_off(config, velocity)`, and no
    /// other voice is touched.
    pub open spec fn note_off_done<V: Voice>(
        before: Manager,
        voices_before: Seq<V>,
        after: Manager,
        voices_after: Seq<V>,
        config: &V::Configuration,
        note: u8,
        velocity: u8,
    ) -> bool {
        &&& after.capacity() == before.capacity()
        &&& after.free() == before.free()
        &&& after.used() == other_notes(before.used(), note)
        &&& voices_after.len() == voices_before.len()
        &&& forall|j: int|
            0 <= j < voices_before.len() ==> if released(before.used(), voices_before, note, j) {
                voices_before[j].noted_off(config, velocity, &voices_after[j])
            } else {
                #[trigger] voices_after[j] == voices_before[j]
            }
    }

    /// Sends a note-on with the voices' default configuration.
    pub fn note_on<C: Default, V: Voice<Configuration = C>>(
        &mut self,
        voices: &mut [V],
        note_number: u8,
        velocity: u8,
    )
        requires
            old(self).wf(),
            old(voices)@.len() == old(self).capacity(),
        ensures
            final(self).wf(),
            exists|config: C|
                Self::note_on_done(*old(self), old(voices)@, *final(self), final(voices)@, &config, note_number, velocity),
    {
        let config = C::default();
        self.note_on_with_config(voices, &config, note_number, velocity);
    }

    /// Sends a note-off with the voices' default configuration.
    pub fn note_off<C: Default, V: Voice<Configuration = C>>(
        &mut self,
        voices: &mut [V],
        note_number: u8,
        velocity: u8,
    )
        requires
            old(self).wf(),
            old(voices)@.len() == old(self).capacity(),
        ensures
            final(self).wf(),
            exists|config: C|
                Self::note_off_done(*old(self), old(voices)@, *final(self), final(voices)@, &config, note_number, velocity),
    {
        let config = C::default();
        self.note_off_with_config(voices, &config, note_number, velocity);
    }

    /// Sends a note-on to the lowest idle voice, or drops it when every voice
    /// is sounding. First forgets the notes whose voice has stopped by itself,
    /// and makes the free set the idle slots.
    pub fn note_on_with_config<V: Voice>(
        &mut self,
        voices: &mut [V],
        config: &V::Configuration,
        note_number: u8,
        velocity: u8,
    )
        requires
            old(self).wf(),
            old(voices)@.len() == old(self).capacity(),
        ensures
            final(self).wf(),
            Self::note_on_done(*old(self), old(voices)@, *final(self), final(voices)@, config, note_number, velocity),
    {
        let ghost used0 = self.used_voices@;
        let ghost voices0 = voices@;
        let ghost free0 = bits_of(self.free_voices);
        let n = self.used_voices.len();
        let mut w: usize = 0;
        let mut r: usize = 0;
        while r < n
            invariant
                w <= r <= n,
                n == used0.len(),
                voices@ == voices0,
                voices0.len() == self.num_voices,
                bits_of(self.free_voices) == free0,
                self.used_voices@.len() == n,
                self.used_voices@.take(w as int) == live_entries(used0.take(r as int), voices0),
                self.used_voices@.subrange(r as int, n as int) == used0.subrange(r as int, n as int),
                forall|k: int| 0 <= k < used0.len() ==> (#[trigger] used0[k]).0 < self.num_voices,
            decreases n - r,
        {
            let e = self.used_voices[r];
            assert(e == used0[r as int]) by {
                assert(self.used_voices@.subrange(r as int, n as int)[0] == used0.subrange(r as int, n as int)[0]);
            }
            let keep = voices[e.0].is_running();
            let ghost before = self.used_voices@;
            if keep {
                self.used_voices[w] = e;
            }
            assert(used0.take(r + 1).drop_last() =~= used0.take(r as int));
            assert(used0.take(r + 1).last() == e);
            assert(keep == voices0[e.0 as int].running());
            if keep {
                assert(live_entries(used0.take(r + 1), voices0) == live_entries(used0.take(r as int), voices0).push(e));
                assert(self.used_voices@.take(w + 1) =~= before.take(w as int).push(e));
                w = w + 1;
            } else {
                assert(live_entries(used0.take(r + 1), voices0) == live_entries(used0.take(r as int), voices0));
                assert(self.used_voices@ == before);
            }
            assert(self.used_voices@.subrange(r + 1, n as int) =~= used0.subrange(r + 1, n as int)) by {
                assert forall|k: int| r + 1 <= k < n implies self.used_voices@[k] == used0[k] by {
                    assert(before.subrange(r as int, n as int)[k - r] == used0.subrange(r as int, n as int)[k - r]);
                }
            }
            r = r + 1;
        }
        self.used_voices.truncate(w);
        assert(used0.take(n as int) =~= used0);
        assert(self.used_voices@ =~= live_entries(used0, voices0));
        let mut i: usize = 0;
        while i < voices.len()
            invariant
                i <= voices@.len(),
                voices@ == voices0,
                voices0.len() == self.num_voices,
                self.used_voices@ == live_entries(used0, voices0),
                bits_of(self.free_voices) == Set::new(
                    |j: usize| (i <= j && free0.contains(j)) || (j < i && !voices0[j as int].running()),
                ),
            decreases voices@.len() - i,
        {
            if !voices[i].is_running() {
                bitset_insert(&mut self.free_voices, i);
            } else {
                bitset_remove(&mut self.free_voices, i);
            }
            i = i + 1;
            assert(bits_of(self.free_voices) =~= Set::new(
                |j: usize| (i <= j && free0.contains(j)) || (j < i && !voices0[j as int].running()),
            ));
        }
        let ghost idle = idle_slots(voices0);
        assert(bits_of(self.free_voices) =~= idle);
        proof {
            lemma_live_entries_within(used0, voices0, self.num_voices);
            lemma_live_entries_distinct(used0, voices0);
            lemma_live_entries_from(used0, voices0);
        }
        match bitset_first(&self.free_voices) {
            None => {
                assert(!exists|k: usize| idle.contains(k)) by {
                    if exists|k: usize| idle.contains(k) {
                        let k = choose|k: usize| idle.contains(k);
                        assert(bits_of(self.free_voices).contains(k));
                    }
                }
            },
            Some(slot) => {
                assert(lowest(idle) == Some(slot)) by {
                    let c = choose|c: usize| idle.contains(c) && forall|j: usize| #[trigger] idle.contains(j) ==> c <= j;
                    assert(c <= slot && slot <= c);
                }
                bitset_remove(&mut self.free_voices, slot);
                voices[slot].note_on(config, note_number, velocity);
                let ghost live = self.used_voices@;
                self.used_voices.push((slot, note_number));
                assert forall|a: int, b: int| 0 <= a < b < self.used_voices@.len() implies
                    (#[trigger] self.used_voices@[a]).0 != (#[trigger] self.used_voices@[b]).0 by {
                    if b == live.len() {
                        assert(self.used_voices@[a] == live[a]);
                        assert(voices0[live[a].0 as int].running());
                    } else {
                        assert(self.used_voices@[a] == live[a] && self.used_voices@[b] == live[b]);
                    }
                }
            },
        }
    }

    /// Sends a note-off to every sounding voice that plays `note_number`, and
    /// forgets every entry for that note, sounding or not. Entries for other
    /// notes stay, in order.
    pub fn note_off_with_config<V: Voice>(
        &mut self,
        voices: &mut [V],
        config: &V::Configuration,
        note_number: u8,
        velocity: u8,
    )
        requires
            old(self).wf(),
            old(voices)@.len() == old(self).capacity(),
        ensures
            final(self).wf(),
            Self::note_off_done(*old(self), old(voices)@, *final(self), final(voices)@, config, note_number, velocity),
    {
        let ghost used0 = self.used_voices@;
        let ghost voices0 = voices@;
        let ghost free0 = bits_of(self.free_voices);
        let n = self.used_voices.len();
        let mut w: usize = 0;
        let mut r: usize = 0;
        while r < n
            invariant
                w <= r <= n,
                n == used0.len(),
                voices@.len() == voices0.len(),
                voices0.len() == self.num_voices,
                bits_of(self.free_voices) == free0,
                distinct_slots(used0),
                forall|j: int|
                    0 <= j < voices0.len() ==> if released(used0.take(r as int), voices0, note_number, j) {
                        voices0[j].noted_off(config, velocity, &voices@[j])
                    } else {
                        #[trigger] voices@[j] == voices0[j]
                    },
                forall|j: int|
                    0 <= j < voices0.len() && released(used0.take(r as int), voices0, note_number, j)
                        ==> exists|k: int| 0 <= k < r && #[trigger] used0[k].0 == j,
                self.used_voices@.len() == n,
                self.used_voices@.take(w as int) == other_notes(used0.take(r as int), note_number),
                self.used_voices@.subrange(r as int, n as int) == used0.subrange(r as int, n as int),
                forall|k: int| 0 <= k < used0.len() ==> (#[trigger] used0[k]).0 < self.num_voices,
            decreases n - r,
        {
            let e = self.used_voices[r];
            assert(e == used0[r as int]) by {
                assert(self.used_voices@.subrange(r as int, n as int)[0] == used0.subrange(r as int, n as int)[0]);
            }
            let ghost before = self.used_voices@;
            let ghost voices_before = voices@;
            let ghost t0 = used0.take(r as int);
            let ghost t1 = used0.take(r + 1);
            assert(t1.drop_last() =~= t0);
            assert(t1.last() == e);
            let ghost j0 = e.0 as int;
            assert(!released(t0, voices0, note_number, j0)) by {
                if released(t0, voices0, note_number, j0) {
                    let k = choose|k: int| 0 <= k < r && #[trigger] used0[k].0 == j0;
                    assert(used0[k].0 != used0[r as int].0);
                }
            }
            let keep = e.1 != note_number;
            if keep {
                self.used_voices[w] = e;
            } else if voices[e.0].is_running() {
                voices[e.0].note_off(config, velocity);
            }
            assert forall|j: int| 0 <= j < voices0.len() implies (if released(t1, voices0, note_number, j) {
                voices0[j].noted_off(config, velocity, &voices@[j])
            } else {
                #[trigger] voices@[j] == voices0[j]
            }) && (released(t1, voices0, note_number, j) ==> exists|k: int| 0 <= k < r + 1 && #[trigger] used0[k].0 == j) by {
                if released(t0, voices0, note_number, j) {
                    let k = choose|k: int| 0 <= k < t0.len() && #[trigger] t0[k] == (j as usize, note_number);
                    assert(t1[k] == t0[k]);
                    assert(j != j0);
                    assert(used0[k].0 == j);
                } else if released(t1, voices0, note_number, j) {
                    let k = choose|k: int| 0 <= k < t1.len() && #[trigger] t1[k] == (j as usize, note_number);
                    if k < r {
                        assert(t0[k] == t1[k]);
                    }
                    assert(k == r);
                    assert(j == j0);
                    assert(used0[r as int].0 == j);
                } else if j == j0 && !keep && voices_before[j].running() {
                    assert(t1[r as int] == (j as usize, note_number));
                }
            }
            if keep {
                assert(other_notes(t1, note_number) == other_notes(t0, note_number).push(e));
                assert(self.used_voices@.take(w + 1) =~= before.take(w as int).push(e));
                w = w + 1;
            } else {
                assert(other_notes(t1, note_number) == other_notes(t0, note_number));
                assert(self.used_voices@ == before);
            }
            assert(self.used_voices@.subrange(r + 1, n as int) =~= used0.subrange(r + 1, n as int)) by {
                assert forall|k: int| r + 1 <= k < n implies self.used_voices@[k] == used0[k] by {
                    assert(before.subrange(r as int, n as int)[k - r] == used0.subrange(r as int, n as int)[k - r]);
                }
            }
            r = r + 1;
        }
        self.used_voices.truncate(w);
        assert(used0.take(n as int) =~= used0);
        proof {
            lemma_other_notes_within(used0, note_number, self.num_voices);
            lemma_other_notes_distinct(used0, note_number);
        }
    }
}

/// No slot is at once free and held by an entry whose voice is sounding.
pub open spec fn slots_exclusive<V: Voice>(m: Manager, voices: Seq<V>) -> bool {
    forall|k: int|
        0 <= k < m.used().len() && voices[(#[trigger] m.used()[k]).0 as int].running()
            ==> !m.free().contains(m.used()[k].0)
}

/// After a note-on no slot is both free and held by an entry whose voice
/// is sounding.
pub proof fn lemma_note_on_keeps_slots_exclusive<V: Voice>(
    before: Manager,
    voices_before: Seq<V>,
    after: Manager,
    voices_after: Seq<V>,
    config: &V::Configuration,
    note: u8,
    velocity: u8,
)
    requires
        before.wf(),
        voices_before.len() == before.capacity(),
        Manager::note_on_done(before, voices_before, after, voices_after, config, note, velocity),
    ensures
        slots_exclusive(after, voices_after),
{
    let live = live_entries(before.used(), voices_before);
    lemma_live_entries_from(before.used(), voices_before);
    assert forall|k: int|
        0 <= k < after.used().len() && voices_after[(#[trigger] after.used()[k]).0 as int].running()
            implies !after.free().contains(after.used()[k].0) by {
        let e = after.used()[k];
        if k < live.len() {
            assert(e == live[k]);
            assert(!idle_slots(voices_before).contains(e.0));
        }
    }
}

/// A note-off keeps every slot either free or held by a sounding entry,
/// never both.
pub proof fn lemma_note_off_keeps_slots_exclusive<V: Voice>(
    before: Manager,
    voices_before: Seq<V>,
    after: Manager,
    voices_after: Seq<V>,
    config: &V::Configuration,
    note: u8,
    velocity: u8,
)
    requires
        before.wf(),
        voices_before.len() == before.capacity(),
        slots_exclusive(before, voices_before),
        Manager::note_off_done(before, voices_before, after, voices_after, config, note, velocity),
    ensures
        slots_exclusive(after, voices_after),
{
    lemma_other_notes_from(before.used(), note);
    assert forall|k: int|
        0 <= k < after.used().len() && voices_after[(#[trigger] after.used()[k]).0 as int].running()
            implies !after.free().contains(after.used()[k].0) by {
        let e = after.used()[k];
        let m = choose|m: int| 0 <= m < before.used().len() && before.used()[m] == e;
        assert(before.used()[m].0 < before.capacity());
        if !released(before.used(), voices_before, note, e.0 as int) {
            assert(voices_after[e.0 as int] == voices_before[e.0 as int]);
        }
    }
}

} // verus!
