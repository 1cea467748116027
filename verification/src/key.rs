//! The identity of one tracked series: logical CPU, process and command name.

use crate::bytes::{pattern_of, unsigned32};
use crate::text::{decimal_text, render_i64};
use vstd::prelude::*;
use vstd::std_specs::cmp::PartialEqSpecImpl;
use vstd::string::*;
use vstd::utf8::encode_utf8;

verus! {

/// What a [`Key`] stands for in contracts.
pub ghost struct KeyModel {
    pub cpu: int,
    pub pid: int,
    pub name: Seq<char>,
}

/// Identifies one observed entity: a command running as a process on a logical CPU.
///
/// `cpu` and `pid` may be `-1` where the producer does not know them. Two keys are the same
/// series exactly when all three fields agree.
#[derive(Debug, Hash)]
pub struct Key {
    pub cpu: i32,
    pub pid: i32,
    pub name: String,
}

impl View for Key {
    type V = KeyModel;

    open spec fn view(&self) -> KeyModel {
        KeyModel { cpu: self.cpu as int, pid: self.pid as int, name: self.name@ }
    }
}

/// The three tags of a key, in the order in which they are sent: process, name, CPU.
pub open spec fn tags_of(k: KeyModel) -> Seq<Seq<char>> {
    seq![
        "pid:"@ + decimal_text(k.pid),
        "name:"@ + k.name,
        "cpu:"@ + decimal_text(k.cpu),
    ]
}

impl Key {
    /// A key from its three fields.
    pub fn new(cpu: i32, pid: i32, name: &str) -> (k: Key)
        ensures
            k@ == (KeyModel { cpu: cpu as int, pid: pid as int, name: name@ }),
    {
        Key { cpu, pid, name: String::from_str(name) }
    }

    /// The tags under which this key's metrics are reported: `pid:<pid>`, `name:<name>`,
    /// `cpu:<cpu>`, in that order.
    pub fn as_tags(&self) -> (tags: [String; 3])
        ensures
            tags@.len() == 3,
            tags@[0]@ == tags_of(self@)[0],
            tags@[1]@ == tags_of(self@)[1],
            tags@[2]@ == tags_of(self@)[2],
    {
        let mut pid = String::from_str("pid:");
        pid.append(render_i64(self.pid as i64).as_str());
        let mut name = String::from_str("name:");
        name.append(self.name.as_str());
        let mut cpu = String::from_str("cpu:");
        cpu.append(render_i64(self.cpu as i64).as_str());
        [pid, name, cpu]
    }
}

impl Clone for Key {
    fn clone(&self) -> (k: Key)
        ensures
            k == *self,
    {
        Key { cpu: self.cpu, pid: self.pid, name: self.name.clone() }
    }
}

impl PartialEq for Key {
    fn eq(&self, other: &Key) -> (same: bool) {
        self.cpu == other.cpu && self.pid == other.pid && self.name == other.name
    }
}

impl Eq for Key {

}

impl PartialEqSpecImpl for Key {
    open spec fn obeys_eq_spec() -> bool {
        true
    }

    open spec fn eq_spec(&self, other: &Key) -> bool {
        self@ == other@
    }
}

/// The state in which the hash of a key starts.
pub const HASH_SEED: u64 = 14695981039346656037;

/// The factor by which the hash state is multiplied at each step.
pub const HASH_FACTOR: u64 = 1099511628211;

/// One step of the hash: the state `h` after the number `b` is fed to it.
pub open spec fn mixed(h: u64, b: nat) -> u64 {
    ((h * HASH_FACTOR + b + 1) % 0x1_0000_0000_0000_0000) as u64
}

/// The hash state after a sequence of bytes is fed to it.
pub open spec fn bytes_hash(h: u64, bytes: Seq<u8>) -> u64
    decreases bytes.len(),
{
    if bytes.len() == 0 {
        h
    } else {
        mixed(bytes_hash(h, bytes.drop_last()), bytes.last() as nat)
    }
}

/// The hash of a key, a function of its three fields: the CPU, the process and the bytes of
/// the name are fed to the hash in that order, the integers as their 32-bit patterns.
pub open spec fn key_hash(k: KeyModel) -> u64 {
    bytes_hash(
        mixed(mixed(HASH_SEED, unsigned32(k.cpu)), unsigned32(k.pid)),
        encode_utf8(k.name),
    )
}

fn mix(h: u64, b: u32) -> (r: u64)
    ensures
        r == mixed(h, b as nat),
{
    ((h as u128 * HASH_FACTOR as u128 + b as u128 + 1) % 0x1_0000_0000_0000_0000) as u64
}

impl Key {
    /// The hash of the key. Keys that are the same have the same hash.
    pub fn hash_code(&self) -> (h: u64)
        ensures
            h == key_hash(self@),
    {
        let ghost start = mixed(mixed(HASH_SEED, unsigned32(self@.cpu)), unsigned32(self@.pid));
        let mut h = mix(mix(HASH_SEED, pattern_of(self.cpu)), pattern_of(self.pid));
        let bytes = self.name.as_str().as_bytes();
        let mut i: usize = 0;
        assert(bytes@.take(0) =~= Seq::empty());
        while i < bytes.len()
            invariant
                i <= bytes@.len(),
                h == bytes_hash(start, bytes@.take(i as int)),
            decreases bytes@.len() - i,
        {
            assert(bytes@.take(i + 1).drop_last() =~= bytes@.take(i as int));
            h = mix(h, bytes[i] as u32);
            i = i + 1;
        }
        assert(bytes@.take(i as int) =~= bytes@);
        h
    }
}

} // verus!
