//! A model of the store, and operations to compare the two on.
//!
//! Operations are drawn from raw bytes. The model is the map that a store stands for; it says what
//! every operation has to answer.

use crate::input_kv::{copy_bytes, same_bytes};
use arbitrary::Unstructured;
use vstd::prelude::*;

verus! {

/// Raw bytes that values are drawn from.
#[verifier::external_type_specification]
#[verifier::external_body]
pub struct ExUnstructured<'a>(Unstructured<'a>);

/// The raw bytes that are left.
pub uninterp spec fn bytes_left(u: Unstructured) -> Seq<u8>;

/// Byte `i` of what is left; zero behind the end.
pub open spec fn byte_or_zero(bytes: Seq<u8>, i: int) -> u8 {
    if 0 <= i < bytes.len() {
        bytes[i]
    } else {
        0
    }
}

/// What is left once `n` bytes are drawn.
pub open spec fn after_draw(bytes: Seq<u8>, n: int) -> Seq<u8> {
    if n <= bytes.len() {
        bytes.skip(n)
    } else {
        Seq::empty()
    }
}

/// Draws a byte: `u8::arbitrary` of the crate `arbitrary`.
///
/// It is claimed that this takes the next byte, that it draws zero where none is left, and that it
/// does not fail.
#[verifier::external_body]
fn arbitrary_u8(u: &mut Unstructured<'_>) -> (drawn: Option<u8>)
    ensures
        drawn is Some,
        drawn->0 == byte_or_zero(bytes_left(*old(u)), 0),
        bytes_left(*final(u)) == after_draw(bytes_left(*old(u)), 1),
{
    arbitrary::Arbitrary::arbitrary(u).ok()
}

/// Draws a number of two bytes: `u16::arbitrary` of the crate `arbitrary`.
///
/// It is claimed that this takes the next two bytes as a little-endian number, with zeroes for bytes
/// behind the end, and that it does not fail.
#[verifier::external_body]
fn arbitrary_u16(u: &mut Unstructured<'_>) -> (drawn: Option<u16>)
    ensures
        drawn is Some,
        drawn->0 == byte_or_zero(bytes_left(*old(u)), 0) + 256 * byte_or_zero(bytes_left(*old(u)), 1),
        bytes_left(*final(u)) == after_draw(bytes_left(*old(u)), 2),
{
    arbitrary::Arbitrary::arbitrary(u).ok()
}

/// The number that is drawn from the next two bytes.
pub open spec fn drawn_u16(bytes: Seq<u8>) -> int {
    byte_or_zero(bytes, 0) + 256 * byte_or_zero(bytes, 1)
}

/// The string of at most `max_len` bytes that is drawn from raw bytes: first its length, then the
/// bytes.
pub open spec fn drawn_bytes(bytes: Seq<u8>, max_len: int) -> Seq<u8> {
    let rest = after_draw(bytes, 2);
    Seq::new((drawn_u16(bytes) % (max_len + 1)) as nat, |i: int| byte_or_zero(rest, i))
}

/// What is left once such a string is drawn.
pub open spec fn after_bytes(bytes: Seq<u8>, max_len: int) -> Seq<u8> {
    after_draw(after_draw(bytes, 2), drawn_u16(bytes) % (max_len + 1))
}

/// Draws a string of at most `max_len` bytes.
pub fn limited_bytes(u: &mut Unstructured<'_>, max_len: usize) -> (drawn: Option<Vec<u8>>)
    requires
        max_len < usize::MAX,
    ensures
        drawn is Some,
        drawn->0@ == drawn_bytes(bytes_left(*old(u)), max_len as int),
        bytes_left(*final(u)) == after_bytes(bytes_left(*old(u)), max_len as int),
{
    let ghost start = bytes_left(*u);
    let number: u16 = match arbitrary_u16(u) {
        Some(number) => number,
        None => {
            return None;
        },
    };
    let len: usize = number as usize % (max_len + 1);
    let ghost rest = bytes_left(*u);
    let mut out: Vec<u8> = Vec::with_capacity(len);
    let mut i: usize = 0;
    assert(after_draw(rest, 0) =~= rest);
    while i < len
        invariant
            i <= len,
            out@ == Seq::new(i as nat, |k: int| byte_or_zero(rest, k)),
            bytes_left(*u) == after_draw(rest, i as int),
        decreases len - i,
    {
        let byte: u8 = match arbitrary_u8(u) {
            Some(byte) => byte,
            None => {
                return None;
            },
        };
        out.push(byte);
        proof {
            assert(byte == byte_or_zero(rest, i as int));
            assert(out@ =~= Seq::new((i + 1) as nat, |k: int| byte_or_zero(rest, k)));
            assert(bytes_left(*u) =~= after_draw(rest, i + 1));
        }
        i = i + 1;
    }
    Some(out)
}

/// An operation on a store.
#[derive(Debug)]
pub enum Operation {
    Put { key: Vec<u8>, value: Vec<u8> },
    Get { key: Vec<u8> },
    GetRange { key: Vec<u8>, start: u16, len: u16 },
    Remove { key: Vec<u8> },
    Sync,
    Remount,
}

/// Which operation is drawn from raw bytes: the key comes first, then the choice.
pub open spec fn choice_of(bytes: Seq<u8>) -> int {
    byte_or_zero(after_bytes(bytes, 64), 0) as int % 6
}

/// What is left once the key and the choice of an operation are drawn.
pub open spec fn after_choice(bytes: Seq<u8>) -> Seq<u8> {
    after_draw(after_bytes(bytes, 64), 1)
}

/// What is left once an operation is drawn.
pub open spec fn after_operation(bytes: Seq<u8>) -> Seq<u8> {
    let rest = after_choice(bytes);
    if choice_of(bytes) == 0 {
        after_bytes(rest, 2048)
    } else if choice_of(bytes) == 2 {
        after_draw(after_draw(rest, 2), 2)
    } else {
        rest
    }
}

/// The operation is the one that is drawn from raw bytes.
pub open spec fn is_drawn(operation: Operation, bytes: Seq<u8>) -> bool {
    let rest = after_choice(bytes);
    match operation {
        Operation::Put { key, value } => {
            &&& choice_of(bytes) == 0
            &&& key@ == drawn_bytes(bytes, 64)
            &&& value@ == drawn_bytes(rest, 2048)
        },
        Operation::Get { key } => choice_of(bytes) == 1 && key@ == drawn_bytes(bytes, 64),
        Operation::GetRange { key, start, len } => {
            &&& choice_of(bytes) == 2
            &&& key@ == drawn_bytes(bytes, 64)
            &&& start == drawn_u16(rest)
            &&& len == drawn_u16(after_draw(rest, 2))
        },
        Operation::Remove { key } => choice_of(bytes) == 3 && key@ == drawn_bytes(bytes, 64),
        Operation::Sync => choice_of(bytes) == 4,
        Operation::Remount => choice_of(bytes) == 5,
    }
}

impl Operation {
    /// Draws an operation.
    pub fn arbitrary(u: &mut Unstructured<'_>) -> (drawn: Option<Operation>)
        ensures
            drawn is Some,
            is_drawn(drawn->0, bytes_left(*old(u))),
            bytes_left(*final(u)) == after_operation(bytes_left(*old(u))),
    {
        let key: Vec<u8> = match limited_bytes(u, 64) {
            Some(key) => key,
            None => {
                return None;
            },
        };
        let byte: u8 = match arbitrary_u8(u) {
            Some(byte) => byte,
            None => {
                return None;
            },
        };
        let choice: u8 = byte % 6;
        if choice == 0 {
            match limited_bytes(u, 2048) {
                Some(value) => Some(Operation::Put { key, value }),
                None => None,
            }
        } else if choice == 1 {
            Some(Operation::Get { key })
        } else if choice == 2 {
            let start: u16 = match arbitrary_u16(u) {
                Some(start) => start,
                None => {
                    return None;
                },
            };
            match arbitrary_u16(u) {
                Some(len) => Some(Operation::GetRange { key, start, len }),
                None => None,
            }
        } else if choice == 3 {
            Some(Operation::Remove { key })
        } else if choice == 4 {
            Some(Operation::Sync)
        } else {
            Some(Operation::Remount)
        }
    }
}

/// A run of operations.
#[derive(Debug)]
pub struct FuzzInput {
    pub operations: Vec<Operation>,
}

/// What is left once `n` operations are drawn.
pub open spec fn after_operations(bytes: Seq<u8>, n: nat) -> Seq<u8>
    decreases n,
{
    if n == 0 {
        bytes
    } else {
        after_operation(after_operations(bytes, (n - 1) as nat))
    }
}

/// The operations are drawn one after the other.
pub open spec fn all_drawn(operations: Seq<Operation>, bytes: Seq<u8>) -> bool {
    forall|i: int| 0 <= i < operations.len() ==> is_drawn(#[trigger] operations[i], after_operations(bytes, i as nat))
}

impl FuzzInput {
    /// Draws a run of operations: first how many, then each of them.
    pub fn arbitrary(u: &mut Unstructured<'_>) -> (drawn: Option<FuzzInput>)
        ensures
            drawn is Some,
            drawn->0.operations@.len() == byte_or_zero(bytes_left(*old(u)), 0),
            all_drawn(drawn->0.operations@, after_draw(bytes_left(*old(u)), 1)),
            bytes_left(*final(u)) == after_operations(
                after_draw(bytes_left(*old(u)), 1),
                drawn->0.operations@.len(),
            ),
    {
        let op_count: u8 = match arbitrary_u8(u) {
            Some(op_count) => op_count,
            None => {
                return None;
            },
        };
        let ghost start = bytes_left(*u);
        let mut operations: Vec<Operation> = Vec::with_capacity(op_count as usize);
        let mut i: u8 = 0;
        while i < op_count
            invariant
                i <= op_count,
                operations@.len() == i,
                all_drawn(operations@, start),
                bytes_left(*u) == after_operations(start, i as nat),
            decreases op_count - i,
        {
            match Operation::arbitrary(u) {
                Some(operation) => {
                    operations.push(operation);
                },
                None => {
                    return None;
                },
            }
            i = i + 1;
        }
        Some(FuzzInput { operations })
    }
}

/// Why a range cannot be read.
#[derive(Clone, Copy, PartialEq, Eq, Structural, Debug)]
pub enum ExpectedGetRange {
    NotFound,
    RangeOutOfBounds,
}

/// A key and its value.
#[derive(Debug)]
pub struct ModelEntry {
    pub key: Vec<u8>,
    pub value: Vec<u8>,
}

/// The map that a store stands for.
#[derive(Debug)]
pub struct Model {
    entries: Vec<ModelEntry>,
}

/// The value of a key.
spec fn look_up(entries: Seq<ModelEntry>, key: Seq<u8>) -> Option<Seq<u8>>
    decreases entries.len(),
{
    if entries.len() == 0 {
        None
    } else if entries.last().key@ == key {
        Some(entries.last().value@)
    } else {
        look_up(entries.drop_last(), key)
    }
}

/// No key is there twice.
spec fn distinct_keys(entries: Seq<ModelEntry>) -> bool {
    forall|i: int, j: int| 0 <= i < j < entries.len() ==> (#[trigger] entries[i]).key@ != (#[trigger] entries[j]).key@
}

/// The entries are those of the map: each key once, with its value, and nothing else.
pub open spec fn lists(entries: Seq<ModelEntry>, map: Map<Seq<u8>, Seq<u8>>) -> bool {
    &&& forall|i: int, j: int|
        0 <= i < j < entries.len() ==> (#[trigger] entries[i]).key@ != (#[trigger] entries[j]).key@
    &&& forall|i: int| 0 <= i < entries.len() ==> map.dom().contains((#[trigger] entries[i]).key@)
        && map[entries[i].key@] == entries[i].value@
    &&& forall|key: Seq<u8>| #[trigger] map.dom().contains(key) ==> exists|i: int|
        0 <= i < entries.len() && (#[trigger] entries[i]).key@ == key
}

proof fn lemma_look_up(entries: Seq<ModelEntry>, key: Seq<u8>)
    ensures
        look_up(entries, key) is None <==> forall|i: int| 0 <= i < entries.len() ==> (#[trigger] entries[i]).key@ != key,
        distinct_keys(entries) ==> forall|i: int|
            0 <= i < entries.len() && (#[trigger] entries[i]).key@ == key ==> look_up(entries, key) == Some(
                entries[i].value@,
            ),
    decreases entries.len(),
{
    if entries.len() > 0 {
        let rest = entries.drop_last();
        lemma_look_up(rest, key);
        assert forall|i: int| 0 <= i < rest.len() implies #[trigger] entries[i] == rest[i] by {}
        if entries.last().key@ == key {
            assert(entries[entries.len() - 1].key@ == key);
        } else if look_up(rest, key) is None {
            assert forall|i: int| 0 <= i < entries.len() implies (#[trigger] entries[i]).key@ != key by {
                if i < rest.len() {
                    assert(rest[i].key@ != key);
                }
            }
        } else {
            let i = choose|i: int| 0 <= i < rest.len() && (#[trigger] rest[i]).key@ == key;
            assert(entries[i].key@ == key);
        }
        if distinct_keys(entries) {
            assert forall|i: int, j: int| 0 <= i < j < rest.len() implies (#[trigger] rest[i]).key@ != (
            #[trigger] rest[j]).key@ by {
                assert(entries[i].key@ != entries[j].key@);
            }
            assert forall|i: int| 0 <= i < entries.len() && (#[trigger] entries[i]).key@ == key implies look_up(
                entries,
                key,
            ) == Some(entries[i].value@) by {
                if i < rest.len() {
                    assert(rest[i].key@ == key);
                    assert(entries[i].key@ != entries[entries.len() - 1].key@);
                }
            }
        }
    }
}

impl View for Model {
    type V = Map<Seq<u8>, Seq<u8>>;

    closed spec fn view(&self) -> Map<Seq<u8>, Seq<u8>> {
        Map::new(
            |key: Seq<u8>| look_up(self.entries@, key) is Some,
            |key: Seq<u8>| look_up(self.entries@, key)->0,
        )
    }
}

impl Model {
    pub closed spec fn wf(self) -> bool {
        distinct_keys(self.entries@)
    }

    pub fn new() -> (model: Model)
        ensures
            model.wf(),
            model@ == Map::<Seq<u8>, Seq<u8>>::empty(),
    {
        let model = Model { entries: Vec::new() };
        assert(model@ =~= Map::<Seq<u8>, Seq<u8>>::empty());
        model
    }

    /// What a store that matches the model holds: each key once, with its value, and nothing else.
    pub fn entries(&self) -> (entries: &Vec<ModelEntry>)
        requires
            self.wf(),
        ensures
            lists(entries@, self@),
    {
        proof {
            let entries = self.entries@;
            assert forall|i: int| 0 <= i < entries.len() implies self@.dom().contains((#[trigger] entries[i]).key@)
                && self@[entries[i].key@] == entries[i].value@ by {
                lemma_look_up(entries, entries[i].key@);
            }
            assert forall|key: Seq<u8>| #[trigger] self@.dom().contains(key) implies exists|i: int|
                0 <= i < entries.len() && (#[trigger] entries[i]).key@ == key by {
                lemma_look_up(entries, key);
            }
        }
        &self.entries
    }

    /// Where the entry of a key is.
    fn position(&self, key: &[u8]) -> (at: Option<usize>)
        requires
            self.wf(),
        ensures
            match at {
                Some(at) => at < self.entries@.len() && self.entries@[at as int].key@ == key@,
                None => forall|i: int| 0 <= i < self.entries@.len() ==> (#[trigger] self.entries@[i]).key@ != key@,
            },
            at is Some <==> self@.dom().contains(key@),
    {
        proof {
            lemma_look_up(self.entries@, key@);
        }
        let mut i: usize = 0;
        while i < self.entries.len()
            invariant
                i <= self.entries@.len(),
                forall|k: int| 0 <= k < i ==> (#[trigger] self.entries@[k]).key@ != key@,
                look_up(self.entries@, key@) is None <==> forall|k: int|
                    0 <= k < self.entries@.len() ==> (#[trigger] self.entries@[k]).key@ != key@,
            decreases self.entries@.len() - i,
        {
            if same_bytes(self.entries[i].key.as_slice(), key) {
                return Some(i);
            }
            i = i + 1;
        }
        None
    }

    pub fn get(&self, key: &[u8]) -> (value: Option<&[u8]>)
        requires
            self.wf(),
        ensures
            match value {
                Some(value) => self@.dom().contains(key@) && value@ == self@[key@],
                None => !self@.dom().contains(key@),
            },
    {
        match self.position(key) {
            Some(at) => {
                proof {
                    lemma_look_up(self.entries@, key@);
                    assert(self.entries@[at as int].key@ == key@);
                }
                Some(self.entries[at].value.as_slice())
            },
            None => None,
        }
    }

    #[verifier::rlimit(50)]
    pub fn insert(&mut self, key: Vec<u8>, value: Vec<u8>)
        requires
            old(self).wf(),
        ensures
            final(self).wf(),
            final(self)@ == old(self)@.insert(key@, value@),
    {
        let ghost before = self.entries@;
        let ghost k = key@;
        let ghost v = value@;
        let at: Option<usize> = self.position(key.as_slice());
        match at {
            Some(at) => {
                self.entries[at].value = value;
            },
            None => {
                self.entries.push(ModelEntry { key, value });
            },
        }
        proof {
            let after = self.entries@;
            let i = match at {
                Some(at) => at as int,
                None => before.len() as int,
            };
            assert(after[i].key@ == k && after[i].value@ == v);
            assert forall|m: int| 0 <= m < before.len() implies (#[trigger] after[m]).key@ == before[m].key@ by {}
            assert(distinct_keys(after)) by {
                assert forall|x: int, y: int| 0 <= x < y < after.len() implies (#[trigger] after[x]).key@ != (
                #[trigger] after[y]).key@ by {
                    if y < before.len() {
                        assert(before[x].key@ != before[y].key@);
                    } else {
                        assert(before[x].key@ != k);
                    }
                }
            }
            assert forall|x: Seq<u8>| #[trigger] look_up(after, x) == (if x == k {
                Some(v)
            } else {
                look_up(before, x)
            }) by {
                lemma_look_up(after, x);
                lemma_look_up(before, x);
                if x == k {
                    assert(after[i].key@ == x);
                } else if look_up(before, x) is Some {
                    let m = choose|m: int| 0 <= m < before.len() && (#[trigger] before[m]).key@ == x;
                    assert(after[m] == before[m]);
                } else {
                    assert forall|m: int| 0 <= m < after.len() implies (#[trigger] after[m]).key@ != x by {
                        if m < before.len() {
                            assert(before[m].key@ != x);
                        }
                    }
                }
            }
            assert(self@ =~= old(self)@.insert(k, v));
        }
    }

    #[verifier::rlimit(50)]
    pub fn remove(&mut self, key: &[u8]) -> (existed: bool)
        requires
            old(self).wf(),
        ensures
            final(self).wf(),
            final(self)@ == old(self)@.remove(key@),
            existed == old(self)@.dom().contains(key@),
    {
        let ghost before = self.entries@;
        let ghost k = key@;
        match self.position(key) {
            Some(at) => {
                let _entry = self.entries.remove(at);
                proof {
                    let after = self.entries@;
                    let i = at as int;
                    assert forall|m: int| 0 <= m < after.len() implies #[trigger] after[m] == before[if m >= i {
                        m + 1
                    } else {
                        m
                    }] by {}
                    assert(distinct_keys(after)) by {
                        assert forall|x: int, y: int| 0 <= x < y < after.len() implies (#[trigger] after[x]).key@ != (
                        #[trigger] after[y]).key@ by {
                            let ox = if x >= i { x + 1 } else { x };
                            let oy = if y >= i { y + 1 } else { y };
                            assert(before[ox].key@ != before[oy].key@);
                        }
                    }
                    assert forall|x: Seq<u8>| #[trigger] look_up(after, x) == (if x == k {
                        None
                    } else {
                        look_up(before, x)
                    }) by {
                        lemma_look_up(after, x);
                        lemma_look_up(before, x);
                        if x != k && look_up(before, x) is Some {
                            let m = choose|m: int| 0 <= m < before.len() && (#[trigger] before[m]).key@ == x;
                            let am = if m > i { m - 1 } else { m };
                            assert(after[am] == before[m]);
                        } else {
                            assert forall|m: int| 0 <= m < after.len() implies (#[trigger] after[m]).key@ != x by {
                                let om = if m >= i { m + 1 } else { m };
                                if x == k {
                                    if om < i {
                                        assert(before[om].key@ != before[i].key@);
                                    } else {
                                        assert(before[i].key@ != before[om].key@);
                                    }
                                } else {
                                    assert(before[om].key@ != x);
                                }
                            }
                        }
                    }
                    assert(self@ =~= old(self)@.remove(k));
                }
                true
            },
            None => {
                assert(self@ =~= old(self)@.remove(k));
                false
            },
        }
    }
}

/// What a read of a range has to answer.
pub fn expected_get_range(model: &Model, key: &[u8], start: u16, len: u16) -> (expected: Result<Vec<u8>, ExpectedGetRange>)
    requires
        model.wf(),
    ensures
        match expected {
            Ok(bytes) => {
                &&& model@.dom().contains(key@)
                &&& start + len <= model@[key@].len()
                &&& bytes@ == model@[key@].subrange(start as int, start + len)
            },
            Err(ExpectedGetRange::NotFound) => !model@.dom().contains(key@),
            Err(ExpectedGetRange::RangeOutOfBounds) => model@.dom().contains(key@) && start + len > model@[key@].len(),
        },
{
    let value: &[u8] = match model.get(key) {
        Some(value) => value,
        None => {
            return Err(ExpectedGetRange::NotFound);
        },
    };
    let start: usize = start as usize;
    let end: usize = start.saturating_add(len as usize);
    if end > value.len() {
        return Err(ExpectedGetRange::RangeOutOfBounds);
    }
    let mut bytes: Vec<u8> = Vec::with_capacity(len as usize);
    let mut i: usize = start;
    while i < end
        invariant
            start <= i <= end <= value@.len(),
            bytes@ == value@.subrange(start as int, i as int),
        decreases end - i,
    {
        bytes.push(value[i]);
        assert(bytes@ =~= value@.subrange(start as int, i + 1));
        i = i + 1;
    }
    Ok(bytes)
}

/// What an operation has to answer.
#[derive(Debug)]
pub enum Expected {
    /// That it is done.
    Done,
    /// The value of the key, or that there is none.
    Value(Option<Vec<u8>>),
    /// A part of the value of the key.
    Range(Result<Vec<u8>, ExpectedGetRange>),
    /// Whether the key was there.
    Removed(bool),
    /// That it is done; the store then holds just what the model holds.
    Settled,
}

impl Model {
    /// Does an operation on the model, and returns what the store has to answer.
    pub fn apply(&mut self, operation: Operation) -> (expected: Expected)
        requires
            old(self).wf(),
        ensures
            final(self).wf(),
            match operation {
                Operation::Put { key, value } => expected is Done && final(self)@ == old(self)@.insert(key@, value@),
                Operation::Get { key } => {
                    &&& final(self)@ == old(self)@
                    &&& expected matches Expected::Value(value) && match value {
                        Some(value) => old(self)@.dom().contains(key@) && value@ == old(self)@[key@],
                        None => !old(self)@.dom().contains(key@),
                    }
                },
                Operation::GetRange { key, start, len } => {
                    &&& final(self)@ == old(self)@
                    &&& expected matches Expected::Range(range) && match range {
                        Ok(bytes) => {
                            &&& old(self)@.dom().contains(key@)
                            &&& start + len <= old(self)@[key@].len()
                            &&& bytes@ == old(self)@[key@].subrange(start as int, start + len)
                        },
                        Err(ExpectedGetRange::NotFound) => !old(self)@.dom().contains(key@),
                        Err(ExpectedGetRange::RangeOutOfBounds) => old(self)@.dom().contains(key@) && start + len
                            > old(self)@[key@].len(),
                    }
                },
                Operation::Remove { key } => {
                    &&& final(self)@ == old(self)@.remove(key@)
                    &&& expected matches Expected::Removed(existed) && existed == old(self)@.dom().contains(key@)
                },
                Operation::Sync => expected is Settled && final(self)@ == old(self)@,
                Operation::Remount => expected is Settled && final(self)@ == old(self)@,
            },
    {
        match operation {
            Operation::Put { key, value } => {
                self.insert(key, value);
                Expected::Done
            },
            Operation::Get { key } => match self.get(key.as_slice()) {
                Some(value) => Expected::Value(Some(copy_bytes(value))),
                None => Expected::Value(None),
            },
            Operation::GetRange { key, start, len } => Expected::Range(
                expected_get_range(self, key.as_slice(), start, len),
            ),
            Operation::Remove { key } => Expected::Removed(self.remove(key.as_slice())),
            Operation::Sync => Expected::Settled,
            Operation::Remount => Expected::Settled,
        }
    }
}

} // verus!
