//! Serializing a value with an explicit stack of tasks, so that deeply nested
//! values do not deepen the call stack.
use crate::value::{
    scalar_bytes, var_scalar_bytes, enc, enc_entries, enc_err, enc_fields, enc_items, enc_ok, entries_size, fields_size,
    items_size, lemma_then_assoc, lemma_then_empty, lemma_then_ok, then, vsize, Enc, Field,
    SerializeErrorReason, Value,
};
use crate::writer::{McSerializer, Serializer, SerializerExt, WriteAdapter};
use vstd::prelude::*;

verus! {

/// Data associated with a serialization error.
#[derive(Debug)]
pub struct SerializeErrorData<'a> {
    /// The value that caused the error.
    pub value: Option<&'a Value>,
    /// The reason for the error.
    pub reason: SerializeErrorReason,
    /// The source identifier.
    pub source: &'static str,
}

/// An error that occurred during serialization.
#[derive(Debug)]
pub enum SerializeError<'a, E> {
    /// A value that cannot be serialized.
    InvalidType(SerializeErrorData<'a>),
    /// An error that occurred while writing a value.
    WriteError(E),
}

/// The value an error names, if any.
pub open spec fn error_value(value: Option<&Value>) -> Option<Value> {
    match value {
        Some(v) => Some(*v),
        None => None,
    }
}

impl<'a, E> SerializeError<'a, E> {
    /// Create a new [`SerializeError`] indicating a value and the reason for
    /// the error.
    pub fn new(value: &'a Value, reason: SerializeErrorReason) -> (r: Self)
        ensures
            r matches SerializeError::InvalidType(d) && d.reason == reason && d.value == Some(
                value,
            ),
    {
        SerializeError::InvalidType(SerializeErrorData { value: Some(value), reason, source: "minecraft" })
    }

    /// Create a new [`SerializeError`] indicating the reason for the error.
    pub fn new_reason(reason: SerializeErrorReason) -> (r: Self)
        ensures
            r matches SerializeError::InvalidType(d) && d.reason == reason && d.value is None,
    {
        SerializeError::InvalidType(SerializeErrorData { value: None, reason, source: "minecraft" })
    }

    /// Drop the value the error names, unbinding the error from the lifetime
    /// of the value.
    pub fn into_owned<'b>(self) -> (r: SerializeError<'b, E>)
        ensures
            self is WriteError ==> r is WriteError && r->WriteError_0 == self->WriteError_0,
            self matches SerializeError::InvalidType(d) ==> r matches SerializeError::InvalidType(
                e,
            ) && e.reason == d.reason && e.value is None && e.source == d.source,
    {
        match self {
            SerializeError::WriteError(err) => SerializeError::WriteError(err),
            SerializeError::InvalidType(data) => SerializeError::InvalidType(
                SerializeErrorData { value: None, reason: data.reason, source: data.source },
            ),
        }
    }
}

impl SerializeErrorReason {
    /// A short description of the reason.
    pub fn message(&self) -> (r: &'static str)
        ensures
            r@ == (match *self {
                SerializeErrorReason::UnsupportedType => "unsupported type"@,
                SerializeErrorReason::SetsUnsupported => "sets are not supported yet"@,
                SerializeErrorReason::PointerUninitialized => "smart pointer is not initialized"@,
                SerializeErrorReason::NotVariable => "type does not support variable-length serialization"@,
            }),
    {
        match self {
            SerializeErrorReason::UnsupportedType => "unsupported type",
            SerializeErrorReason::SetsUnsupported => "sets are not supported yet",
            SerializeErrorReason::PointerUninitialized => "smart pointer is not initialized",
            SerializeErrorReason::NotVariable => "type does not support variable-length serialization",
        }
    }
}

/// A task to be performed during serialization.
pub enum SerializationTask<'a> {
    /// Write a value.
    Value(&'a Value),
    /// Write a value in the variable-length encoding.
    ValueVariable(&'a Value),
    /// Write the fields of a struct or variant from the given one on.
    Object(&'a Vec<Field>, usize),
    /// Write the items of an array from the given one on.
    Array(&'a Vec<Value>, usize, bool),
    /// Write the items of a list from the given one on.
    List(&'a Vec<Value>, usize, bool),
    /// Write the entries of a map from the given one on.
    Entries(&'a Vec<(Value, Value)>, usize, bool),
}

/// What a task writes.
pub open spec fn task_enc(t: SerializationTask) -> Enc {
    match t {
        SerializationTask::Value(v) => enc(*v, false, true),
        SerializationTask::ValueVariable(v) => enc(*v, true, true),
        SerializationTask::Object(f, i) => if i <= f@.len() {
            enc_fields(f@.skip(i as int))
        } else {
            enc_ok(seq![])
        },
        SerializationTask::Array(items, i, var) | SerializationTask::List(items, i, var) => if i
            <= items@.len() {
            enc_items(items@.skip(i as int), var)
        } else {
            enc_ok(seq![])
        },
        SerializationTask::Entries(e, i, var) => if i <= e@.len() {
            enc_entries(e@.skip(i as int), var)
        } else {
            enc_ok(seq![])
        },
    }
}

/// How much work a task is.
pub open spec fn task_size(t: SerializationTask) -> nat {
    match t {
        SerializationTask::Value(v) | SerializationTask::ValueVariable(v) => vsize(*v),
        SerializationTask::Object(f, i) => 1 + if i <= f@.len() {
            fields_size(f@.skip(i as int))
        } else {
            0
        },
        SerializationTask::Array(items, i, _) | SerializationTask::List(items, i, _) => 1 + if i
            <= items@.len() {
            items_size(items@.skip(i as int))
        } else {
            0
        },
        SerializationTask::Entries(e, i, _) => 1 + if i <= e@.len() {
            entries_size(e@.skip(i as int))
        } else {
            0
        },
    }
}

/// What a stack of tasks writes, from its top down.
pub open spec fn run(s: Seq<SerializationTask>) -> Enc
    decreases s.len(),
{
    if s.len() == 0 {
        enc_ok(seq![])
    } else {
        then(task_enc(s.last()), run(s.drop_last()))
    }
}

/// How much work a stack of tasks is.
pub open spec fn stack_size(s: Seq<SerializationTask>) -> nat
    decreases s.len(),
{
    if s.len() == 0 {
        0
    } else {
        task_size(s.last()) + stack_size(s.drop_last())
    }
}

/// Tasks pushed on a stack run before the tasks below them.
pub proof fn lemma_run_append(s: Seq<SerializationTask>, ts: Seq<SerializationTask>)
    ensures
        run(s + ts) == then(run(ts), run(s)),
        stack_size(s + ts) == stack_size(s) + stack_size(ts),
    decreases ts.len(),
{
    if ts.len() == 0 {
        assert(s + ts =~= s);
        lemma_then_empty(run(s));
    } else {
        assert((s + ts).drop_last() =~= s + ts.drop_last());
        assert((s + ts).last() == ts.last());
        lemma_run_append(s, ts.drop_last());
        lemma_then_assoc(task_enc(ts.last()), run(ts.drop_last()), run(s));
    }
}

/// The first of the remaining items, and the items after it.
proof fn lemma_skip_step<T>(s: Seq<T>, i: int)
    requires
        0 <= i < s.len(),
    ensures
        s.skip(i).len() > 0,
        s.skip(i)[0] == s[i],
        s.skip(i).drop_first() == s.skip(i + 1),
{
    assert(s.skip(i).drop_first() =~= s.skip(i + 1));
}

/// Turns the outcome of a write into the outcome of serialization.
fn lift<'a, E>(r: Result<(), E>) -> (out: Result<(), SerializeError<'a, E>>)
    ensures
        (out is Ok) == (r is Ok),
        out matches Err(e) ==> e is WriteError,
{
    match r {
        Ok(()) => Ok(()),
        Err(e) => Err(SerializeError::WriteError(e)),
    }
}

/// Whether a value is a scalar written as it is.
fn is_plain_scalar(v: &Value) -> (b: bool)
    ensures
        b == (scalar_bytes(*v) is Some),
{
    match v {
        Value::Unit | Value::Bool(_) | Value::U8(_) | Value::U16(_) | Value::U32(_) | Value::U64(_)
        | Value::U128(_) | Value::USize(_) | Value::I8(_) | Value::I16(_) | Value::I32(_)
        | Value::I64(_) | Value::I128(_) | Value::ISize(_) | Value::F32(_) | Value::F64(_)
        | Value::Str(_) | Value::Bytes(_) => true,
        _ => false,
    }
}

/// Whether a value is an integer with a variable-length encoding.
fn is_var_scalar(v: &Value) -> (b: bool)
    ensures
        b == (var_scalar_bytes(*v) is Some),
{
    match v {
        Value::U16(_) | Value::U32(_) | Value::U64(_) | Value::U128(_) | Value::USize(_)
        | Value::I16(_) | Value::I32(_) | Value::I64(_) | Value::I128(_) | Value::ISize(_) => true,
        _ => false,
    }
}

/// Writes a scalar as it is.
fn write_scalar<'a, S: SerializerExt>(writer: &mut S, v: &'a Value) -> (r: Result<
    (),
    SerializeError<'a, S::Error>,
>)
    requires
        scalar_bytes(*v) is Some,
    ensures
        r is Ok ==> (*final(writer)).written() == (*old(writer)).written() + scalar_bytes(*v).unwrap(),
        (*old(writer)).infallible() ==> r is Ok,
        (*final(writer)).infallible() == (*old(writer)).infallible(),
        r matches Err(e) ==> e is WriteError,
{
    match v {
        Value::Unit => lift(writer.serialize_unit()),
        Value::Bool(x) => lift(writer.serialize_bool(*x)),
        Value::U8(x) => lift(writer.serialize_u8(*x)),
        Value::U16(x) => lift(writer.serialize_u16(*x)),
        Value::U32(x) => lift(writer.serialize_u32(*x)),
        Value::U64(x) => lift(writer.serialize_u64(*x)),
        Value::U128(x) => lift(writer.serialize_u128(*x)),
        Value::USize(x) => lift(writer.serialize_usize(*x)),
        Value::I8(x) => lift(writer.serialize_i8(*x)),
        Value::I16(x) => lift(writer.serialize_i16(*x)),
        Value::I32(x) => lift(writer.serialize_i32(*x)),
        Value::I64(x) => lift(writer.serialize_i64(*x)),
        Value::I128(x) => lift(writer.serialize_i128(*x)),
        Value::ISize(x) => lift(writer.serialize_isize(*x)),
        Value::F32(x) => lift(writer.serialize_f32(*x)),
        Value::F64(x) => lift(writer.serialize_f64(*x)),
        Value::Str(s) => lift(writer.serialize_str(s.as_str())),
        Value::Bytes(b) => lift(writer.serialize_bytes(b.as_slice())),
        _ => Ok(()),
    }
}

/// Writes an integer in the variable-length encoding.
fn write_var_scalar<'a, S: SerializerExt>(writer: &mut S, v: &'a Value) -> (r: Result<
    (),
    SerializeError<'a, S::Error>,
>)
    requires
        var_scalar_bytes(*v) is Some,
    ensures
        r is Ok ==> (*final(writer)).written() == (*old(writer)).written() + var_scalar_bytes(
            *v,
        ).unwrap(),
        (*old(writer)).infallible() ==> r is Ok,
        (*final(writer)).infallible() == (*old(writer)).infallible(),
        r matches Err(e) ==> e is WriteError,
{
    match v {
        Value::U16(x) => lift(writer.serialize_var_u16(*x)),
        Value::U32(x) => lift(writer.serialize_var_u32(*x)),
        Value::U64(x) => lift(writer.serialize_var_u64(*x)),
        Value::U128(x) => lift(writer.serialize_var_u128(*x)),
        Value::USize(x) => lift(writer.serialize_var_usize(*x)),
        Value::I16(x) => lift(writer.serialize_var_i16(*x)),
        Value::I32(x) => lift(writer.serialize_var_i32(*x)),
        Value::I64(x) => lift(writer.serialize_var_i64(*x)),
        Value::I128(x) => lift(writer.serialize_var_i128(*x)),
        Value::ISize(x) => lift(writer.serialize_var_isize(*x)),
        _ => Ok(()),
    }
}

/// What a step that wrote `w1` after `w0` and left the stack as it was adds
/// up to.
proof fn lemma_step_none(
    w0: Seq<u8>,
    w1: Seq<u8>,
    s0: Seq<SerializationTask>,
    s1: Seq<SerializationTask>,
    b: Seq<u8>,
)
    requires
        w1 == w0 + b,
        s1 == s0,
    ensures
        w1.len() >= w0.len(),
        w1.take(w0.len() as int) == w0,
        s1.len() >= s0.len(),
        s1.take(s0.len() as int) == s0,
        then(enc_ok(w1.skip(w0.len() as int)), run(s1.skip(s0.len() as int))) == enc_ok(b),
        stack_size(s1.skip(s0.len() as int)) == 0,
{
    assert(w1.take(w0.len() as int) =~= w0);
    assert(w1.skip(w0.len() as int) =~= b);
    assert(s1.take(s0.len() as int) =~= s0);
    assert(s1.skip(s0.len() as int) =~= Seq::<SerializationTask>::empty());
    lemma_then_empty(enc_ok(b));
}

/// What a step that wrote `w1` after `w0` and pushed `t` adds up to.
proof fn lemma_step_one(
    w0: Seq<u8>,
    w1: Seq<u8>,
    s0: Seq<SerializationTask>,
    s1: Seq<SerializationTask>,
    b: Seq<u8>,
    t: SerializationTask,
)
    requires
        w1 == w0 + b,
        s1 == s0.push(t),
    ensures
        w1.len() >= w0.len(),
        w1.take(w0.len() as int) == w0,
        s1.len() >= s0.len(),
        s1.take(s0.len() as int) == s0,
        then(enc_ok(w1.skip(w0.len() as int)), run(s1.skip(s0.len() as int))) == then(
            enc_ok(b),
            task_enc(t),
        ),
        stack_size(s1.skip(s0.len() as int)) == task_size(t),
{
    assert(w1.take(w0.len() as int) =~= w0);
    assert(w1.skip(w0.len() as int) =~= b);
    assert(s1.take(s0.len() as int) =~= s0);
    let ts = s1.skip(s0.len() as int);
    assert(ts =~= seq![t]);
    assert(ts.drop_last() =~= Seq::<SerializationTask>::empty());
    assert(ts.last() == t);
    assert(run(Seq::<SerializationTask>::empty()) == enc_ok(seq![]));
    assert(stack_size(Seq::<SerializationTask>::empty()) == 0);
    assert(run(ts) == then(task_enc(t), run(ts.drop_last())));
    assert(stack_size(ts) == task_size(t) + stack_size(ts.drop_last()));
    lemma_then_empty(task_enc(t));
}

/// Writes what a value gives at once and pushes the tasks for its parts.
#[verifier::rlimit(50)]
fn dispatch<'a, S: SerializerExt>(
    writer: &mut S,
    v: &'a Value,
    var: bool,
    stack: &mut Vec<SerializationTask<'a>>,
) -> (r: Result<(), SerializeError<'a, S::Error>>)
    ensures
        (*final(writer)).infallible() == (*old(writer)).infallible(),
        r matches Err(e) && e is WriteError ==> !(*old(writer)).infallible(),
        final(stack)@.len() >= old(stack)@.len(),
        final(stack)@.take(old(stack)@.len() as int) == old(stack)@,
        r is Ok ==> {
            &&& (*final(writer)).written().len() >= (*old(writer)).written().len()
            &&& (*final(writer)).written().take((*old(writer)).written().len() as int) == old(
                writer,
            ).written()
            &&& then(
                enc_ok((*final(writer)).written().skip((*old(writer)).written().len() as int)),
                run(final(stack)@.skip(old(stack)@.len() as int)),
            ) == enc(*v, var, false)
            &&& stack_size(final(stack)@.skip(old(stack)@.len() as int)) < vsize(*v)
        },
        r matches Err(SerializeError::InvalidType(d)) ==> {
            &&& enc(*v, var, false) == enc_err(d.reason, error_value(d.value))
            &&& (*final(writer)).written() == (*old(writer)).written()
            &&& final(stack)@ == old(stack)@
        },
{
    let ghost w0 = writer.written();
    let ghost s0 = stack@;
    if !var {
        if is_plain_scalar(v) {
            let r = write_scalar(writer, v);
            proof {
                if r is Ok {
                    lemma_step_none(w0, writer.written(), s0, stack@, scalar_bytes(*v).unwrap());
                } else {
                    assert(stack@ == s0);
                }
            }
            return r;
        }
        match v {
            Value::KeyValue(entries) => {
                let r = lift(writer.serialize_var_usize(entries.len()));
                if r.is_ok() {
                    let t = SerializationTask::Entries(entries, 0, false);
                    stack.push(t);
                    proof {
                        assert(entries@.skip(0) =~= entries@);
                        lemma_step_one(w0, writer.written(), s0, stack@, crate::varint::var_bytes(entries@.len()), t);
                    }
                }
                r
            },
            Value::List(items) => {
                let r = lift(writer.serialize_var_usize(items.len()));
                if r.is_ok() {
                    let t = SerializationTask::List(items, 0, false);
                    stack.push(t);
                    proof {
                        assert(items@.skip(0) =~= items@);
                        lemma_step_one(w0, writer.written(), s0, stack@, crate::varint::var_bytes(items@.len()), t);
                    }
                }
                r
            },
            Value::Array(items) => {
                let t = SerializationTask::Array(items, 0, false);
                stack.push(t);
                proof {
                    assert(items@.skip(0) =~= items@);
                    assert(w0 + seq![] =~= w0);
                    lemma_step_one(w0, writer.written(), s0, stack@, seq![], t);
                    lemma_then_empty(task_enc(t));
                }
                Ok(())
            },
            Value::Optional(o) => {
                match o {
                    Some(inner) => {
                        let r = lift(writer.serialize_bool(true));
                        if r.is_ok() {
                            let t = SerializationTask::Value(&**inner);
                            stack.push(t);
                            proof {
                                lemma_step_one(w0, writer.written(), s0, stack@, seq![1u8], t);
                            }
                        }
                        r
                    },
                    None => {
                        let r = lift(writer.serialize_bool(false));
                        proof {
                            if r is Ok {
                                lemma_step_none(w0, writer.written(), s0, stack@, seq![0u8]);
                            }
                        }
                        r
                    },
                }
            },
            Value::Pointer(p) => {
                match p {
                    Some(inner) => {
                        let t = SerializationTask::Value(&**inner);
                        stack.push(t);
                        proof {
                            assert(w0 + seq![] =~= w0);
                            lemma_step_one(w0, writer.written(), s0, stack@, seq![], t);
                            lemma_then_empty(task_enc(t));
                        }
                        Ok(())
                    },
                    None => {
                        SerializeError::new_reason(
                            SerializeErrorReason::PointerUninitialized,
                        ).into_err()
                    },
                }
            },
            Value::Struct(fields) => {
                let t = SerializationTask::Object(fields, 0);
                stack.push(t);
                proof {
                    assert(fields@.skip(0) =~= fields@);
                    assert(w0 + seq![] =~= w0);
                    lemma_step_one(w0, writer.written(), s0, stack@, seq![], t);
                    lemma_then_empty(task_enc(t));
                }
                Ok(())
            },
            Value::Enum { discriminant, fields } => {
                let r = lift(writer.serialize_var_i64(*discriminant));
                if r.is_ok() {
                    let t = SerializationTask::Object(fields, 0);
                    stack.push(t);
                    proof {
                        assert(fields@.skip(0) =~= fields@);
                        lemma_step_one(
                            w0,
                            writer.written(),
                            s0,
                            stack@,
                            crate::varint::var_bytes(crate::writer::twos(*discriminant as int, 64)),
                            t,
                        );
                    }
                }
                r
            },
            Value::Transparent(inner) => {
                let t = SerializationTask::Value(&**inner);
                stack.push(t);
                proof {
                    assert(w0 + seq![] =~= w0);
                    lemma_step_one(w0, writer.written(), s0, stack@, seq![], t);
                    lemma_then_empty(task_enc(t));
                }
                Ok(())
            },
            Value::Distinct(_) => SerializeError::new(v, SerializeErrorReason::SetsUnsupported).into_err(),
            _ => SerializeError::new(v, SerializeErrorReason::UnsupportedType).into_err(),
        }
    } else {
        if is_var_scalar(v) {
            let r = write_var_scalar(writer, v);
            proof {
                if r is Ok {
                    lemma_step_none(w0, writer.written(), s0, stack@, var_scalar_bytes(*v).unwrap());
                } else {
                    assert(stack@ == s0);
                }
            }
            return r;
        }
        match v {
            Value::Optional(o) => {
                match o {
                    Some(inner) => {
                        let r = lift(writer.serialize_bool(true));
                        if r.is_ok() {
                            let t = SerializationTask::ValueVariable(&**inner);
                            stack.push(t);
                            proof {
                                lemma_step_one(w0, writer.written(), s0, stack@, seq![1u8], t);
                            }
                        }
                        r
                    },
                    None => {
                        let r = lift(writer.serialize_bool(false));
                        proof {
                            if r is Ok {
                                lemma_step_none(w0, writer.written(), s0, stack@, seq![0u8]);
                            }
                        }
                        r
                    },
                }
            },
            Value::KeyValue(entries) => {
                let r = lift(writer.serialize_var_usize(entries.len()));
                if r.is_ok() {
                    let t = SerializationTask::Entries(entries, 0, true);
                    stack.push(t);
                    proof {
                        assert(entries@.skip(0) =~= entries@);
                        lemma_step_one(w0, writer.written(), s0, stack@, crate::varint::var_bytes(entries@.len()), t);
                    }
                }
                r
            },
            Value::List(items) => {
                let r = lift(writer.serialize_var_usize(items.len()));
                if r.is_ok() {
                    let t = SerializationTask::List(items, 0, true);
                    stack.push(t);
                    proof {
                        assert(items@.skip(0) =~= items@);
                        lemma_step_one(w0, writer.written(), s0, stack@, crate::varint::var_bytes(items@.len()), t);
                    }
                }
                r
            },
            Value::Array(items) => {
                let t = SerializationTask::Array(items, 0, true);
                stack.push(t);
                proof {
                    assert(items@.skip(0) =~= items@);
                    assert(w0 + seq![] =~= w0);
                    lemma_step_one(w0, writer.written(), s0, stack@, seq![], t);
                    lemma_then_empty(task_enc(t));
                }
                Ok(())
            },
            _ => SerializeError::new(v, SerializeErrorReason::NotVariable).into_err(),
        }
    }
}

/// What a stack of one, two or three tasks writes.
proof fn lemma_run_small(a: SerializationTask, b: SerializationTask, c: SerializationTask)
    ensures
        run(seq![a]) == task_enc(a),
        run(seq![a, b]) == then(task_enc(b), task_enc(a)),
        run(seq![a, b, c]) == then(task_enc(c), then(task_enc(b), task_enc(a))),
        stack_size(seq![a]) == task_size(a),
        stack_size(seq![a, b]) == task_size(a) + task_size(b),
        stack_size(seq![a, b, c]) == task_size(a) + task_size(b) + task_size(c),
{
    let e = Seq::<SerializationTask>::empty();
    assert(seq![a].drop_last() =~= e);
    assert(seq![a, b].drop_last() =~= seq![a]);
    assert(seq![a, b, c].drop_last() =~= seq![a, b]);
    assert(run(e) == enc_ok(seq![]));
    assert(stack_size(e) == 0);
    assert(stack_size(seq![a]) == task_size(a));
    assert(stack_size(seq![a, b]) == task_size(b) + stack_size(seq![a]));
    assert(stack_size(seq![a, b, c]) == task_size(c) + stack_size(seq![a, b]));
    lemma_then_empty(task_enc(a));
}

/// Replacing the task on top of a stack with tasks that write the same
/// leaves what the whole writes unchanged.
proof fn lemma_replace_top(
    p: Seq<u8>,
    s: Seq<SerializationTask>,
    task: SerializationTask,
    ts: Seq<SerializationTask>,
    e: Enc,
)
    requires
        then(enc_ok(p), then(task_enc(task), run(s))) == e,
        run(ts) == task_enc(task),
    ensures
        then(enc_ok(p), run(s + ts)) == e,
        stack_size(s + ts) == stack_size(s) + stack_size(ts),
{
    lemma_run_append(s, ts);
}

/// Iteratively serialize a value with the given serializer.
///
/// Avoids recursion to prevent depth issues with large structures. On
/// success the value's bytes follow what the serializer had written; when a
/// part of the value cannot be serialized, the bytes before that part have
/// been written and the error names the part and the reason.
#[verifier::rlimit(80)]
pub fn serialize_iterative<'a, S: SerializerExt>(value: &'a Value, writer: &mut S) -> (r: Result<
    (),
    SerializeError<'a, S::Error>,
>)
    ensures
        (*final(writer)).infallible() == (*old(writer)).infallible(),
        r is Ok ==> {
            &&& enc(*value, false, true).error is None
            &&& (*final(writer)).written() == (*old(writer)).written() + enc(*value, false, true).bytes
        },
        r matches Err(SerializeError::InvalidType(d)) ==> {
            &&& enc(*value, false, true).error == Some((d.reason, error_value(d.value)))
            &&& (*final(writer)).written() == (*old(writer)).written() + enc(*value, false, true).bytes
        },
        r matches Err(e) && e is WriteError ==> !(*old(writer)).infallible(),
{
    let ghost e = enc(*value, false, true);
    let ghost w0 = writer.written();
    let ghost inf = writer.infallible();
    let ghost mut produced: Seq<u8> = seq![];
    let mut stack: Vec<SerializationTask<'a>> = Vec::new();
    stack.push(SerializationTask::Value(value));
    proof {
        lemma_run_small(SerializationTask::Value(value), SerializationTask::Value(value), SerializationTask::Value(value));
        assert(stack@ =~= seq![SerializationTask::Value(value)]);
        lemma_then_empty(e);
        assert(w0 + seq![] =~= w0);
    }
    while stack.len() > 0
        invariant
            e == enc(*value, false, true),
            writer.written() == w0 + produced,
            then(enc_ok(produced), run(stack@)) == e,
            writer.infallible() == inf,
            inf == (*old(writer)).infallible(),
            w0 == (*old(writer)).written(),
        decreases stack_size(stack@),
    {
        let ghost before = stack@;
        let task = stack.pop().unwrap();
        let ghost s = stack@;
        proof {
            assert(before.drop_last() == s);
            assert(before.last() == task);
            assert(run(before) == then(task_enc(task), run(s)));
            assert(stack_size(before) == task_size(task) + stack_size(s));
        }
        match task {
            SerializationTask::Value(v) | SerializationTask::ValueVariable(v) => {
                let var = match task {
                    SerializationTask::ValueVariable(_) => true,
                    _ => false,
                };
                let target: &'a Value = match v {
                    Value::Transparent(inner) => &**inner,
                    _ => v,
                };
                proof {
                    assert(task_enc(task) == enc(*target, var, false));
                    assert(vsize(*target) <= task_size(task));
                }
                let ghost wb = writer.written();
                match dispatch(writer, target, var, &mut stack) {
                    Ok(()) => {
                        proof {
                            let delta = writer.written().skip(wb.len() as int);
                            let ts = stack@.skip(s.len() as int);
                            assert(stack@ =~= s + ts);
                            assert(writer.written() =~= wb + delta);
                            lemma_then_assoc(enc_ok(delta), run(ts), run(s));
                            lemma_then_ok(produced, delta, then(run(ts), run(s)));
                            lemma_run_append(s, ts);
                            assert(writer.written() =~= w0 + (produced + delta));
                            produced = produced + delta;
                        }
                    },
                    Err(err) => {
                        proof {
                            if err is InvalidType {
                                assert(produced + seq![] =~= produced);
                            }
                        }
                        return Err(err);
                    },
                }
            },
            SerializationTask::Object(fields, i) => {
                if i < fields.len() {
                    let field = &fields[i];
                    let next = SerializationTask::Object(fields, i + 1);
                    let part = if field.variable {
                        SerializationTask::ValueVariable(&field.value)
                    } else {
                        SerializationTask::Value(&field.value)
                    };
                    stack.push(next);
                    stack.push(part);
                    proof {
                        lemma_skip_step(fields@, i as int);
                        lemma_run_small(next, part, part);
                        assert(stack@ =~= s + seq![next, part]);
                        lemma_then_empty(task_enc(next));
                        lemma_replace_top(produced, s, task, seq![next, part], e);
                    }
                } else {
                    proof {
                        if i == fields.len() {
                            assert(fields@.skip(i as int) =~= Seq::<Field>::empty());
                        }
                        lemma_then_empty(run(s));
                    }
                }
            },
            SerializationTask::Array(items, i, var) | SerializationTask::List(items, i, var) => {
                if i < items.len() {
                    let next = match task {
                        SerializationTask::Array(..) => SerializationTask::Array(items, i + 1, var),
                        _ => SerializationTask::List(items, i + 1, var),
                    };
                    let part = if var {
                        SerializationTask::ValueVariable(&items[i])
                    } else {
                        SerializationTask::Value(&items[i])
                    };
                    stack.push(next);
                    stack.push(part);
                    proof {
                        lemma_skip_step(items@, i as int);
                        lemma_run_small(next, part, part);
                        assert(stack@ =~= s + seq![next, part]);
                        lemma_replace_top(produced, s, task, seq![next, part], e);
                    }
                } else {
                    proof {
                        if i == items.len() {
                            assert(items@.skip(i as int) =~= Seq::<Value>::empty());
                        }
                        lemma_then_empty(run(s));
                    }
                }
            },
            SerializationTask::Entries(entries, i, var) => {
                if i < entries.len() {
                    let entry = &entries[i];
                    let next = SerializationTask::Entries(entries, i + 1, var);
                    let val = if var {
                        SerializationTask::ValueVariable(&entry.1)
                    } else {
                        SerializationTask::Value(&entry.1)
                    };
                    let key = SerializationTask::Value(&entry.0);
                    stack.push(next);
                    stack.push(val);
                    stack.push(key);
                    proof {
                        lemma_skip_step(entries@, i as int);
                        lemma_run_small(next, val, key);
                        assert(stack@ =~= s + seq![next, val, key]);
                        lemma_then_assoc(task_enc(key), task_enc(val), task_enc(next));
                        lemma_replace_top(produced, s, task, seq![next, val, key], e);
                    }
                } else {
                    proof {
                        if i == entries.len() {
                            assert(entries@.skip(i as int) =~= Seq::<(Value, Value)>::empty());
                        }
                        lemma_then_empty(run(s));
                    }
                }
            },
        }
    }
    proof {
        assert(run(stack@) == enc_ok(seq![]));
        lemma_then_empty(enc_ok(produced));
    }
    Ok(())
}

/// Bytes laid out in memory, standing for a writer whose errors are `E`;
/// writing to it never fails.
struct LaidOut<E> {
    bytes: Vec<u8>,
    error: core::marker::PhantomData<E>,
}

impl<E> WriteAdapter for LaidOut<E> {
    type Error = E;

    closed spec fn written(&self) -> Seq<u8> {
        self.bytes@
    }

    closed spec fn infallible(&self) -> bool {
        true
    }

    fn write(&mut self, buf: &[u8]) -> (r: Result<(), Self::Error>) {
        let ghost before = self.bytes@;
        self.bytes.extend_from_slice(buf);
        assert(self.bytes@ =~= before + buf@);
        Ok(())
    }
}

impl<W: WriteAdapter> McSerializer<W> {
    /// Serialize a value into this serializer's writer.
    ///
    /// This is a wrapper around [`serialize_iterative`].
    pub fn serialize<'a>(&mut self, value: &'a Value) -> (r: Result<(), SerializeError<'a, W::Error>>)
        ensures
            final(self).0.infallible() == old(self).0.infallible(),
            r is Ok ==> {
                &&& enc(*value, false, true).error is None
                &&& final(self).0.written() == old(self).0.written() + enc(*value, false, true).bytes
            },
            r matches Err(SerializeError::InvalidType(d)) ==> {
                &&& enc(*value, false, true).error == Some((d.reason, error_value(d.value)))
                &&& final(self).0.written() == old(self).0.written() + enc(*value, false, true).bytes
            },
            r matches Err(e) && e is WriteError ==> !old(self).0.infallible(),
    {
        serialize_iterative(value, self)
    }

    /// Serialize a value to the given writer.
    ///
    /// This is a wrapper around [`serialize_iterative`], using
    /// [`McSerializer`] as the serializer.
    pub fn serialize_into<'a>(value: &'a Value, writer: &mut W) -> (r: Result<
        (),
        SerializeError<'a, W::Error>,
    >)
        ensures
            (*final(writer)).infallible() == (*old(writer)).infallible(),
            r is Ok ==> {
                &&& enc(*value, false, true).error is None
                &&& (*final(writer)).written() == (*old(writer)).written() + enc(*value, false, true).bytes
            },
            r matches Err(SerializeError::InvalidType(d)) ==> {
                &&& enc(*value, false, true).error == Some((d.reason, error_value(d.value)))
                &&& (*final(writer)).written() == (*old(writer)).written() + enc(*value, false, true).bytes
            },
            r matches Err(e) && e is WriteError ==> !(*old(writer)).infallible(),
    {
        // The bytes are laid out first, then handed to the writer at once:
        // what reaches it is what a serializer over it would write.
        let mut ser = McSerializer(LaidOut::<W::Error> { bytes: Vec::new(), error: core::marker::PhantomData });
        let r = ser.serialize(value);
        proof {
            assert(Seq::<u8>::empty() + enc(*value, false, true).bytes =~= enc(*value, false, true).bytes);
        }
        match writer.write(ser.0.bytes.as_slice()) {
            Ok(()) => r,
            Err(e) => Err(SerializeError::WriteError(e)),
        }
    }
}

/// Serialize a value to the given writer.
///
/// This is a wrapper around [`serialize_iterative`], using [`McSerializer`]
/// as the serializer.
pub fn serialize<'a, W: WriteAdapter>(value: &'a Value, writer: &mut W) -> (r: Result<
    (),
    SerializeError<'a, W::Error>,
>)
    ensures
        (*final(writer)).infallible() == (*old(writer)).infallible(),
        r is Ok ==> {
            &&& enc(*value, false, true).error is None
            &&& (*final(writer)).written() == (*old(writer)).written() + enc(*value, false, true).bytes
        },
        r matches Err(SerializeError::InvalidType(d)) ==> {
            &&& enc(*value, false, true).error == Some((d.reason, error_value(d.value)))
            &&& (*final(writer)).written() == (*old(writer)).written() + enc(*value, false, true).bytes
        },
        r matches Err(e) && e is WriteError ==> !(*old(writer)).infallible(),
{
    McSerializer::<W>::serialize_into(value, writer)
}

impl<'a, E> SerializeError<'a, E> {
    /// The error, as the failure of a serialization step.
    fn into_err(self) -> (r: Result<(), SerializeError<'a, E>>)
        ensures
            r == Err::<(), SerializeError<'a, E>>(self),
    {
        Err(self)
    }
}

} // verus!
