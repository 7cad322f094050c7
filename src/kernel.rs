//! The parameter model of a kernel, the events it receives, and its
//! parameter store.
//!
//! Parameter values have the type `V` chosen by the kernel; a kernel's
//! derived configuration is a pure function of its audio format and of the
//! whole parameter store.
use vstd::prelude::*;
use std::collections::BTreeMap;

verus! {

broadcast use vstd::std_specs::btree::group_btree_axioms, vstd::laws_cmp::group_laws_cmp;

/// How many channels one side of a kernel accepts.
#[derive(Clone, Copy, Debug, PartialEq, Eq, Structural)]
pub enum AllowedChannels {
    AnyChannelCountAllowed,
    ChannelCountAllowed(u32),
}

/// One supported pair of input and output channel counts.
#[derive(Clone, Copy, Debug, PartialEq, Eq, Structural)]
pub struct AllowedFormat {
    pub input_channels: AllowedChannels,
    pub output_channels: AllowedChannels,
}

/// Whether a kernel transforms audio or makes it.
#[derive(Clone, Copy, Debug, PartialEq, Eq, Structural)]
pub enum KernelType {
    Effect,
    Instrument,
}

/// The unit a parameter is shown in.
#[derive(Clone, Debug)]
pub enum Unit {
    Generic,
    Percent,
    Second,
    SampleFrames,
    Rate,
    Custom(String),
}

/// The range and default of a parameter.
#[allow(inconsistent_fields)]
#[derive(Clone, Debug)]
pub enum Details<V> {
    Numeric { min: V, max: V, unit: Unit, default: V },
    Indexed { names: Vec<String>, default: usize },
}

#[derive(Clone, Copy, Debug, PartialEq, Eq, Structural)]
pub enum DisplayScale {
    Linear,
    Logarithmic,
}

#[derive(Clone, Copy, Debug, PartialEq, Eq, Structural)]
pub struct Flags {
    pub writable: bool,
    pub readable: bool,
    pub scale: DisplayScale,
}

/// The description of one parameter.
#[derive(Clone, Debug)]
pub struct Info<V> {
    pub id: String,
    pub address: u64,
    pub name: String,
    pub details: Details<V>,
    pub flags: Flags,
    pub dependent_parameters: Vec<u64>,
}

/// What a kernel declares about itself, once, before any processing.
#[derive(Clone, Debug)]
pub struct KernelInfo<V> {
    pub params: Vec<Info<V>>,
    pub bypass_param: Option<u64>,
    pub kernel_type: KernelType,
    pub formats: Vec<AllowedFormat>,
}

/// What an event carries.
#[derive(Clone, Copy, Debug)]
pub enum Data<V> {
    ParameterChange { address: u64, value: V },
    /// A change whose ramp duration is carried but not interpreted: it
    /// applies at once, as a plain change does.
    RampedParameterChange { address: u64, value: V, ramp_time: u32 },
    MIDIMessage { cable: u8, valid_bytes: u16, bytes: [u8; 3] },
}

/// A time-stamped event; `time` counts frames from the start of the block.
#[derive(Clone, Copy, Debug)]
pub struct Event<V> {
    pub time: i64,
    pub data: Data<V>,
}

/// The parameter write that an event asks for, if any.
pub open spec fn spec_parameter_change<V>(data: Data<V>) -> Option<(u64, V)> {
    match data {
        Data::ParameterChange { address, value } => Some((address, value)),
        Data::RampedParameterChange { address, value, .. } => Some((address, value)),
        Data::MIDIMessage { .. } => None,
    }
}

/// The parameter write that an event asks for: plain and ramped changes set
/// their parameter at once; MIDI messages set none.
pub fn parameter_change<V: Copy>(data: &Data<V>) -> (r: Option<(u64, V)>)
    ensures
        r == spec_parameter_change(*data),
{
    match data {
        Data::ParameterChange { address, value } => Some((*address, *value)),
        Data::RampedParameterChange { address, value, .. } => Some((*address, *value)),
        Data::MIDIMessage { .. } => None,
    }
}

/// The map from address to value that a list of (address, value) pairs
/// gives, a later pair winning over an earlier one.
pub open spec fn map_of<V>(entries: Seq<(u64, V)>) -> Map<u64, V>
    decreases entries.len(),
{
    if entries.len() == 0 {
        Map::empty()
    } else {
        map_of(entries.drop_last()).insert(entries.last().0, entries.last().1)
    }
}

/// The store after writing each pair of `entries` in turn.
pub open spec fn write_all<V>(store: Map<u64, V>, entries: Seq<(u64, V)>) -> Map<u64, V>
    decreases entries.len(),
{
    if entries.len() == 0 {
        store
    } else {
        write_all(store, entries.drop_last()).insert(entries.last().0, entries.last().1)
    }
}

/// Every address occurs once.
pub open spec fn distinct_addresses<V>(entries: Seq<(u64, V)>) -> bool {
    forall|i: int, j: int|
        0 <= i < entries.len() && 0 <= j < entries.len() && i != j ==> #[trigger] entries[i].0
            != #[trigger] entries[j].0
}

/// The current value of every declared parameter, by address.
pub struct Parameters<V> {
    values: BTreeMap<u64, V>,
}

impl<V: Copy> Parameters<V> {
    pub closed spec fn view(&self) -> Map<u64, V> {
        self.values@
    }

    /// A store that holds each (address, default) pair of `defaults`.
    pub fn new(defaults: &[(u64, V)]) -> (r: Parameters<V>)
        ensures
            r.view() == map_of(defaults@),
    {
        let mut values: BTreeMap<u64, V> = BTreeMap::new();
        let mut i: usize = 0;
        while i < defaults.len()
            invariant
                i <= defaults.len(),
                values@ == map_of(defaults@.take(i as int)),
            decreases defaults.len() - i,
        {
            let (address, value) = defaults[i];
            values.insert(address, value);
            assert(defaults@.take(i + 1).drop_last() =~= defaults@.take(i as int));
            i = i + 1;
        }
        assert(defaults@.take(i as int) =~= defaults@);
        Parameters { values }
    }

    /// Whether `address` names a parameter of the store.
    pub fn contains(&self, address: u64) -> (r: bool)
        ensures
            r == self.view().contains_key(address),
    {
        self.values.contains_key(&address)
    }

    /// Overwrites the value of a declared parameter.
    pub fn set_parameter(&mut self, address: u64, value: V)
        requires
            old(self).view().contains_key(address),
        ensures
            final(self).view() == old(self).view().insert(address, value),
    {
        self.values.insert(address, value);
    }

    /// The value of a declared parameter.
    pub fn get_parameter(&self, address: u64) -> (r: V)
        requires
            self.view().contains_key(address),
        ensures
            r == self.view()[address],
    {
        *self.values.get(&address).unwrap()
    }
}

proof fn lemma_write_all_defaults<V>(entries: Seq<(u64, V)>, k: nat)
    requires
        distinct_addresses(entries),
        k <= entries.len(),
    ensures
        write_all(map_of(entries), entries.take(k as int)) == map_of(entries),
    decreases k,
{
    if k > 0 {
        let t = entries.take(k as int);
        assert(t.drop_last() =~= entries.take(k - 1));
        lemma_write_all_defaults(entries, (k - 1) as nat);
        lemma_map_of_maps(entries, entries.len(), k - 1);
        assert(entries.take(entries.len() as int) =~= entries);
        assert(map_of(entries).insert(entries[k - 1].0, entries[k - 1].1) =~= map_of(entries));
    }
}

proof fn lemma_map_of_maps<V>(entries: Seq<(u64, V)>, n: nat, i: int)
    requires
        distinct_addresses(entries),
        n <= entries.len(),
        0 <= i < n,
    ensures
        map_of(entries.take(n as int)).contains_key(entries[i].0),
        map_of(entries.take(n as int))[entries[i].0] == entries[i].1,
    decreases n,
{
    let t = entries.take(n as int);
    assert(t.drop_last() =~= entries.take(n - 1));
    if i < n - 1 {
        lemma_map_of_maps(entries, (n - 1) as nat, i);
        assert(entries[n - 1].0 != entries[i].0);
    }
}

/// Writing every declared parameter's own default into a freshly made store
/// leaves the store as it was made; so the derived configuration, a pure
/// function of the audio format and the store, comes out the same.
pub proof fn lemma_defaults_round_trip<V>(defaults: Seq<(u64, V)>)
    requires
        distinct_addresses(defaults),
    ensures
        write_all(map_of(defaults), defaults) == map_of(defaults),
{
    lemma_write_all_defaults(defaults, defaults.len());
    assert(defaults.take(defaults.len() as int) =~= defaults);
}

} // verus!
