//! The model and the store agree.
//!
//! A model that holds the map that a store stands for expects of every operation just what the store
//! does and answers.

use crate::disk;
use crate::error::Error;
use crate::input_kv::T4Key;
use crate::model;
use crate::model::{expected_get_range, limited_bytes, Expected, ExpectedGetRange, FuzzInput, Model, ModelEntry, Operation};
use crate::store::{ReadPlan, Store, T4Store};
use crate::store_laws;
use arbitrary::Unstructured;
use vstd::prelude::*;

verus! {

/// A `get` is answered as the model expects, and changes neither.
pub proof fn law_get_is_as_expected(
    model: &mut Model,
    key: Vec<u8>,
    asked: &[u8],
    expected: Expected,
    store: &Store,
    plan: Result<ReadPlan, Error>,
    disk: Seq<u8>,
)
    requires
        old(model).wf(),
        asked@ == key@,
        key@.len() <= 256,
        disk::holds(store.inner, disk, old(model)@),
        call_ensures(Model::apply, (model, Operation::Get { key }), expected),
        call_ensures(Store::get, (store, asked), plan),
    ensures
        final(model)@ == old(model)@,
        expected matches Expected::Value(value) && match value {
            Some(value) => store_laws::answers(plan, disk, value@),
            None => plan == Err::<ReadPlan, Error>(Error::NotFound),
        },
{
    store_laws::law_get_answers(store, asked, plan, disk, old(model)@);
}

/// A `get_range` is answered as the model expects, and changes neither.
pub proof fn law_get_range_is_as_expected(
    model: &mut Model,
    key: Vec<u8>,
    start: u16,
    len: u16,
    asked: &[u8],
    expected: Expected,
    store: &Store,
    plan: Result<ReadPlan, Error>,
    disk: Seq<u8>,
)
    requires
        old(model).wf(),
        asked@ == key@,
        key@.len() <= 256,
        disk::holds(store.inner, disk, old(model)@),
        call_ensures(Model::apply, (model, Operation::GetRange { key, start, len }), expected),
        call_ensures(Store::get_range, (store, asked, start as u64, len as u64), plan),
    ensures
        final(model)@ == old(model)@,
        expected matches Expected::Range(range) && match range {
            Ok(bytes) => store_laws::answers(plan, disk, bytes@),
            Err(ExpectedGetRange::NotFound) => plan == Err::<ReadPlan, Error>(Error::NotFound),
            Err(ExpectedGetRange::RangeOutOfBounds) => plan == Err::<ReadPlan, Error>(Error::RangeOutOfBounds),
        },
{
    store_laws::law_get_range_answers(store, asked, start as u64, len as u64, plan, disk, old(model)@);
}

/// A `remove` says what the model expects, and leaves what the model holds.
pub proof fn law_remove_is_as_expected(
    model: &mut Model,
    key: Vec<u8>,
    expected: Expected,
    store: &mut T4Store,
    owned: &T4Key,
    existed: bool,
    disk: Seq<u8>,
)
    requires
        old(model).wf(),
        owned@ == key@,
        store_laws::settling(*old(store), disk, old(model)@, old(store).index@.remove(key@)),
        call_ensures(Model::apply, (model, Operation::Remove { key }), expected),
        call_ensures(T4Store::remove_written, (store, owned), existed),
    ensures
        expected == Expected::Removed(existed),
        disk::holds(*final(store), disk, final(model)@),
{
    store_laws::law_remove_forgets(store, owned, existed, disk, old(model)@);
}

/// What was put into the model is found there, and nothing else has changed.
pub proof fn law_put_is_as_expected(
    model: &mut Model,
    key: Vec<u8>,
    value: Vec<u8>,
    expected: Expected,
    asked: &[u8],
    before: Option<&[u8]>,
    after: Option<&[u8]>,
)
    requires
        call_ensures(Model::get, (&*old(model), asked), before),
        call_ensures(Model::apply, (model, Operation::Put { key, value }), expected),
        call_ensures(Model::get, (final(model), asked), after),
    ensures
        expected is Done,
        final(model)@ == old(model)@.insert(key@, value@),
        if asked@ == key@ {
            after matches Some(found) && found@ == value@
        } else {
            match (before, after) {
                (Some(b), Some(a)) => b@ == a@,
                (None, None) => true,
                _ => false,
            }
        },
{
}

/// A sync and a remount change nothing.
pub proof fn law_nothing_is_lost(model: &mut Model, operation: Operation, expected: Expected)
    requires
        operation is Sync || operation is Remount,
        call_ensures(Model::apply, (model, operation), expected),
    ensures
        expected is Settled,
        final(model)@ == old(model)@,
{
}

/// A byte of the input, zero behind its end.
pub open spec fn input_byte(bytes: Seq<u8>, i: int) -> int {
    if 0 <= i < bytes.len() {
        bytes[i] as int
    } else {
        0
    }
}

/// The length of a string that is drawn at the start of the input.
pub open spec fn drawn_len(bytes: Seq<u8>, max_len: int) -> int {
    (input_byte(bytes, 0) + 256 * input_byte(bytes, 1)) % (max_len + 1)
}

/// A string that is drawn is no longer than it may be, and is the bytes of the input behind its length.
pub proof fn law_strings_are_drawn_from_the_input(
    u: &mut Unstructured<'_>,
    max_len: usize,
    drawn: Option<Vec<u8>>,
    i: int,
)
    requires
        max_len < usize::MAX,
        call_ensures(limited_bytes, (u, max_len), drawn),
    ensures
        ({
            let bytes = model::bytes_left(*old(u));
            drawn matches Some(drawn) && {
                &&& drawn@.len() == drawn_len(bytes, max_len as int)
                &&& drawn@.len() <= max_len
                &&& 0 <= i < drawn@.len() ==> drawn@[i] == input_byte(bytes, 2 + i)
            }
        }),
{
    let bytes = model::bytes_left(*old(u));
    let rest = model::after_draw(bytes, 2);
    if 0 <= i && 2 + i < bytes.len() {
        assert(rest[i] == bytes[2 + i]);
    }
}

/// The key of an operation that is drawn comes first, and the byte behind it says which operation it is.
/// A key has at most 64 bytes, a value at most 2048.
pub proof fn law_operations_are_drawn_from_the_input(
    u: &mut Unstructured<'_>,
    drawn: Option<Operation>,
    i: int,
)
    requires
        call_ensures(Operation::arbitrary, (u,), drawn),
    ensures
        ({
            let bytes = model::bytes_left(*old(u));
            let n = drawn_len(bytes, 64);
            let choice = input_byte(bytes, 2 + n) % 6;
            drawn matches Some(drawn) && match drawn {
                Operation::Put { key, value } => choice == 0 && key@.len() == n && value@.len() <= 2048 && (0 <= i < n
                    ==> key@[i] == input_byte(bytes, 2 + i)) && (0 <= i < value@.len() ==> value@[i] == input_byte(
                    bytes,
                    5 + n + i,
                )),
                Operation::Get { key } => choice == 1 && key@.len() == n && (0 <= i < n ==> key@[i] == input_byte(
                    bytes,
                    2 + i,
                )),
                Operation::GetRange { key, start, len } => choice == 2 && key@.len() == n && (0 <= i < n ==> key@[i]
                    == input_byte(bytes, 2 + i)) && start == input_byte(bytes, 3 + n) + 256 * input_byte(bytes, 4 + n)
                    && len == input_byte(bytes, 5 + n) + 256 * input_byte(bytes, 6 + n),
                Operation::Remove { key } => choice == 3 && key@.len() == n && (0 <= i < n ==> key@[i] == input_byte(
                    bytes,
                    2 + i,
                )),
                Operation::Sync => choice == 4,
                Operation::Remount => choice == 5,
            }
        }),
{
    let bytes = model::bytes_left(*old(u));
    let n = drawn_len(bytes, 64);
    assert forall|k: int, j: int| 0 <= k && 0 <= j implies #[trigger] model::byte_or_zero(
        model::after_draw(bytes, k),
        j,
    ) == input_byte(bytes, k + j) by {
        if k + j < bytes.len() {
            assert(model::after_draw(bytes, k)[j] == bytes[k + j]);
        }
    }
    assert(model::drawn_u16(bytes) == input_byte(bytes, 0) + 256 * input_byte(bytes, 1));
    lemma_draws(bytes, 2, n);
    lemma_draws(bytes, 2 + n, 1);
    lemma_draws(bytes, 3 + n, 2);
    assert(model::byte_or_zero(model::after_draw(bytes, 2), i) == input_byte(bytes, 2 + i) || i < 0);
    assert(model::byte_or_zero(model::after_draw(bytes, 2 + n), 0) == input_byte(bytes, 2 + n));
    assert(model::byte_or_zero(model::after_draw(bytes, 3 + n), 0) == input_byte(bytes, 3 + n));
    assert(model::byte_or_zero(model::after_draw(bytes, 3 + n), 1) == input_byte(bytes, 4 + n));
    assert(model::byte_or_zero(model::after_draw(bytes, 5 + n), 0) == input_byte(bytes, 5 + n));
    assert(model::byte_or_zero(model::after_draw(bytes, 5 + n), 1) == input_byte(bytes, 6 + n));
    assert(model::byte_or_zero(model::after_draw(bytes, 5 + n), i) == input_byte(bytes, 5 + n + i) || i < 0);
}

/// Drawing twice is drawing as much at once.
proof fn lemma_draws(bytes: Seq<u8>, a: int, b: int)
    requires
        0 <= a,
        0 <= b,
    ensures
        model::after_draw(model::after_draw(bytes, a), b) == model::after_draw(bytes, a + b),
{
    assert(model::after_draw(model::after_draw(bytes, a), b) =~= model::after_draw(bytes, a + b));
}

/// The first byte of the input says how many operations are drawn.
pub proof fn law_operations_are_counted(u: &mut Unstructured<'_>, drawn: Option<FuzzInput>)
    requires
        call_ensures(FuzzInput::arbitrary, (u,), drawn),
    ensures
        drawn matches Some(drawn) && drawn.operations@.len() == input_byte(model::bytes_left(*old(u)), 0),
{
}

/// A new model has no key, and what a model lists is what it answers.
pub proof fn law_model_lists_what_it_answers(
    fresh: Model,
    asked: &[u8],
    none: Option<&[u8]>,
    model: &Model,
    entries: &Vec<ModelEntry>,
    found: Option<&[u8]>,
    i: int,
)
    requires
        call_ensures(Model::new, (), fresh),
        call_ensures(Model::get, (&fresh, asked), none),
        model.wf(),
        call_ensures(Model::entries, (model,), entries),
        call_ensures(Model::get, (model, asked), found),
    ensures
        none is None,
        0 <= i < entries@.len() && entries@[i].key@ == asked@ ==> found is Some && found->0@ == entries@[i].value@,
        found is Some ==> exists|k: int| 0 <= k < entries@.len() && (#[trigger] entries@[k]).key@ == asked@,
{
    assert(model::lists(entries@, model@));
}

/// A range is expected to be that part of the value.
pub proof fn law_expected_range_is_a_part(
    model: &Model,
    key: &[u8],
    start: u16,
    len: u16,
    whole: Option<&[u8]>,
    part: Result<Vec<u8>, ExpectedGetRange>,
)
    requires
        call_ensures(Model::get, (model, key), whole),
        call_ensures(expected_get_range, (model, key, start, len), part),
    ensures
        match (whole, part) {
            (Some(whole), Ok(part)) => start + len <= whole@.len() && part@ == whole@.subrange(
                start as int,
                start + len,
            ),
            (Some(whole), Err(err)) => start + len > whole@.len() && err == ExpectedGetRange::RangeOutOfBounds,
            (None, Err(err)) => err == ExpectedGetRange::NotFound,
            _ => false,
        },
{
}

} // verus!
