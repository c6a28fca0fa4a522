//! Reading a value of a given shape, one part at a time, with a walk that
//! can stop when the input runs out and go on when more arrives.
use crate::cursor::{EndOfInput, InputCursor};
use crate::deserialize::{lemma_fields_view_push, lemma_first_variant, lemma_items_view_push};
use crate::process::{
    end_of_input, lemma_ran_out_in_place, lemma_step_extend, owned_processor, process_step, processed_view, step_ran_out,
    DeserializeValueError, PartialValue, ProcessedValue, ProcessedView, Step,
};
use crate::schema::{
    entries_view, fields_view, first_variant, items_view, FieldSchema, Schema, ValueView,
    VariantSchema,
};
use crate::value::{Field, Value};
use crate::varint::{lemma_var_end_range, var_end, var_read, var_read_width};
use vstd::prelude::*;

verus! {

/// Why reading a value failed, as the walk reports it.
#[derive(Debug, Clone, Copy, PartialEq, Eq)]
pub enum StepErr {
    Boolean(u8),
    StaticBorrow,
    Utf8(usize),
    EndOfInput(EndOfInput),
    InvalidVariant(i64),
}

/// The walk's error for an error of one part.
pub open spec fn step_err(e: DeserializeValueError) -> StepErr {
    match e {
        DeserializeValueError::Boolean(b) => StepErr::Boolean(b),
        DeserializeValueError::StaticBorrow => StepErr::StaticBorrow,
        DeserializeValueError::Utf8(n) => StepErr::Utf8(n),
        DeserializeValueError::EndOfInput(e) => StepErr::EndOfInput(e),
    }
}

/// What reading gives: a value and how many bytes it took, or an error.
pub type Read = Result<(ValueView, nat), StepErr>;

/// `k` more bytes taken before `r`.
pub open spec fn after(k: nat, r: Read) -> Read {
    match r {
        Ok((v, m)) => Ok((v, k + m)),
        Err(e) => Err(e),
    }
}

/// Whether the shape is a scalar read in one request.
pub open spec fn is_scalar(s: Schema) -> bool {
    match s {
        Schema::Bool | Schema::U8 | Schema::U16 | Schema::U32 | Schema::U64 | Schema::U128
        | Schema::USize | Schema::I8 | Schema::I16 | Schema::I32 | Schema::I64 | Schema::I128
        | Schema::ISize | Schema::F32 | Schema::F64 | Schema::Str => true,
        _ => false,
    }
}

/// The request for a scalar shape: integers wider than a byte carry whether
/// they are variable-length encoded.
pub open spec fn request(s: Schema, var: bool) -> PartialValue {
    match s {
        Schema::Bool => PartialValue::Bool,
        Schema::U8 => PartialValue::U8,
        Schema::U16 => PartialValue::U16(var),
        Schema::U32 => PartialValue::U32(var),
        Schema::U64 => PartialValue::U64(var),
        Schema::U128 => PartialValue::U128(var),
        Schema::USize => PartialValue::Usize(var),
        Schema::I8 => PartialValue::I8,
        Schema::I16 => PartialValue::I16(var),
        Schema::I32 => PartialValue::I32(var),
        Schema::I64 => PartialValue::I64(var),
        Schema::I128 => PartialValue::I128(var),
        Schema::ISize => PartialValue::Isize(var),
        Schema::F32 => PartialValue::F32,
        Schema::F64 => PartialValue::F64,
        _ => PartialValue::String,
    }
}

/// The number a read part holds.
pub open spec fn int_of(p: ProcessedView) -> int {
    match p {
        ProcessedView::Int(i) => i,
        _ => 0,
    }
}

/// The value of a scalar shape made from what its request read.
pub open spec fn scalar_value(s: Schema, p: ProcessedView) -> ValueView {
    let i = int_of(p);
    match s {
        Schema::Bool => ValueView::Bool(p matches ProcessedView::Bool(b) && b),
        Schema::U8 => ValueView::U8(i as u8),
        Schema::U16 => ValueView::U16(i as u16),
        Schema::U32 => ValueView::U32(i as u32),
        Schema::U64 => ValueView::U64(i as u64),
        Schema::U128 => ValueView::U128(i as u128),
        Schema::USize => ValueView::USize(i as usize),
        Schema::I8 => ValueView::I8(i as i8),
        Schema::I16 => ValueView::I16(i as i16),
        Schema::I32 => ValueView::I32(i as i32),
        Schema::I64 => ValueView::I64(i as i64),
        Schema::I128 => ValueView::I128(i as i128),
        Schema::ISize => ValueView::ISize(i as isize),
        Schema::F32 => ValueView::F32(i as u32),
        Schema::F64 => ValueView::F64(i as u64),
        _ => ValueView::Str(
            match p {
                ProcessedView::Str(c) => c,
                _ => seq![],
            },
        ),
    }
}

/// The flag of an optional value that is neither 0 nor 1, as the byte the
/// error carries: its low byte.
pub open spec fn flag_byte(x: usize) -> u8 {
    (x % 256) as u8
}

/// Reading a value of shape `s` from the start of `rest`, with integers in
/// the variable-length encoding when `var` is set.
pub open spec fn pdec(s: Schema, var: bool, rest: Seq<u8>) -> Read
    decreases s, 2int, 0nat,
{
    match s {
        Schema::Unit => Ok((ValueView::Unit, 0)),
        Schema::Array(e, n) => match pdec_items(*e, var, n as nat, rest) {
            Ok((vs, k)) => Ok((ValueView::Array(vs), k)),
            Err(x) => Err(x),
        },
        Schema::List(e) => {
            let st = process_step(rest, PartialValue::Length, false);
            match st.result {
                Err(x) => Err(step_err(x)),
                Ok(p) => match pdec_items(*e, var, int_of(p) as nat, rest.skip(st.advance as int)) {
                    Ok((vs, k)) => Ok((ValueView::List(vs), st.advance + k)),
                    Err(x) => Err(x),
                },
            }
        },
        Schema::Distinct(e) => {
            let st = process_step(rest, PartialValue::Length, false);
            match st.result {
                Err(x) => Err(step_err(x)),
                Ok(p) => match pdec_items(*e, var, int_of(p) as nat, rest.skip(st.advance as int)) {
                    Ok((vs, k)) => Ok((ValueView::Distinct(vs), st.advance + k)),
                    Err(x) => Err(x),
                },
            }
        },
        Schema::KeyValue(k, v) => {
            let st = process_step(rest, PartialValue::Length, false);
            match st.result {
                Err(x) => Err(step_err(x)),
                Ok(p) => match pdec_entries(s, var, int_of(p) as nat, rest.skip(st.advance as int)) {
                    Ok((es, m)) => Ok((ValueView::KeyValue(es), st.advance + m)),
                    Err(x) => Err(x),
                },
            }
        },
        Schema::Optional(e) => {
            let st = process_step(rest, PartialValue::Length, false);
            match st.result {
                Err(x) => Err(step_err(x)),
                Ok(p) => if int_of(p) == 0 {
                    Ok((ValueView::Optional(None), st.advance))
                } else if int_of(p) == 1 {
                    match pdec(*e, var, rest.skip(st.advance as int)) {
                        Ok((x, m)) => Ok((ValueView::Optional(Some(Box::new(x))), st.advance + m)),
                        Err(x) => Err(x),
                    }
                } else {
                    Err(StepErr::Boolean(flag_byte(int_of(p) as usize)))
                },
            }
        },
        Schema::Pointer(e) => match pdec(*e, var, rest) {
            Ok((x, m)) => Ok((ValueView::Pointer(Some(Box::new(x))), m)),
            Err(x) => Err(x),
        },
        Schema::Struct(fields) => match pdec_fields(fields@, rest) {
            Ok((fs, m)) => Ok((ValueView::Struct(fs), m)),
            Err(x) => Err(x),
        },
        Schema::Enum { variants, .. } => {
            let st = process_step(rest, PartialValue::Length, false);
            match st.result {
                Err(x) => Err(step_err(x)),
                Ok(p) => {
                    let disc = (int_of(p) as usize) as i64;
                    match first_variant(variants@, disc) {
                        None => Err(StepErr::InvalidVariant(disc)),
                        Some(i) => if i < variants@.len() {
                            match pdec_fields(
                                variants@[i as int].fields@,
                                rest.skip(st.advance as int),
                            ) {
                                Ok((fs, m)) => Ok((ValueView::Enum(disc, fs), st.advance + m)),
                                Err(x) => Err(x),
                            }
                        } else {
                            Err(StepErr::InvalidVariant(disc))
                        },
                    }
                },
            }
        },
        _ => {
            let st = process_step(rest, request(s, var), false);
            match st.result {
                Err(x) => Err(step_err(x)),
                Ok(p) => Ok((scalar_value(s, p), st.advance)),
            }
        },
    }
}

/// Reading `n` values of shape `e` one after another.
pub open spec fn pdec_items(e: Schema, var: bool, n: nat, rest: Seq<u8>) -> Result<
    (Seq<ValueView>, nat),
    StepErr,
>
    decreases e, 3int, n,
{
    if n == 0 {
        Ok((seq![], 0))
    } else {
        match pdec(e, var, rest) {
            Err(x) => Err(x),
            Ok((v, k)) => match pdec_items(e, var, (n - 1) as nat, rest.skip(k as int)) {
                Err(x) => Err(x),
                Ok((vs, m)) => Ok((seq![v] + vs, k + m)),
            },
        }
    }
}

/// Reading `n` entries of a map shape `s`, each a key then its value; keys
/// are never variable-length encoded.
pub open spec fn pdec_entries(s: Schema, var: bool, n: nat, rest: Seq<u8>) -> Result<
    (Seq<(ValueView, ValueView)>, nat),
    StepErr,
>
    decreases s, 1int, n,
{
    match s {
        Schema::KeyValue(ks, vs) => if n == 0 {
            Ok((seq![], 0))
        } else {
            match pdec(*ks, false, rest) {
                Err(x) => Err(x),
                Ok((k, a)) => match pdec(*vs, var, rest.skip(a as int)) {
                    Err(x) => Err(x),
                    Ok((v, b)) => match pdec_entries(s, var, (n - 1) as nat, rest.skip((a + b) as int)) {
                        Err(x) => Err(x),
                        Ok((es, m)) => Ok((seq![(k, v)] + es, a + b + m)),
                    },
                },
            }
        },
        _ => Ok((seq![], 0)),
    }
}

/// Reading fields one after another, each as its marking says.
pub open spec fn pdec_fields(fs: Seq<FieldSchema>, rest: Seq<u8>) -> Result<
    (Seq<(bool, ValueView)>, nat),
    StepErr,
>
    decreases fs, 0int, 0nat,
{
    if fs.len() == 0 {
        Ok((seq![], 0))
    } else {
        match pdec(fs[0].schema, fs[0].variable, rest) {
            Err(x) => Err(x),
            Ok((v, k)) => match pdec_fields(fs.drop_first(), rest.skip(k as int)) {
                Err(x) => Err(x),
                Ok((vs, m)) => Ok((seq![(fs[0].variable, v)] + vs, k + m)),
            },
        }
    }
}

/// Whether the walk can read every part of a shape: nothing in it is a
/// shape that cannot be read.
pub open spec fn walkable(s: Schema) -> bool
    decreases s, 1int,
{
    match s {
        Schema::Unsupported => false,
        Schema::Array(e, _) | Schema::List(e) | Schema::Distinct(e) | Schema::Optional(e)
        | Schema::Pointer(e) => walkable(*e),
        Schema::KeyValue(k, v) => walkable(*k) && walkable(*v),
        Schema::Struct(fields) => fields_walkable(fields@),
        Schema::Enum { variants, .. } => variants_walkable(variants@),
        _ => true,
    }
}

/// Whether every field's shape can be walked.
pub open spec fn fields_walkable(fs: Seq<FieldSchema>) -> bool
    decreases fs, 0int,
{
    if fs.len() == 0 {
        true
    } else {
        walkable(fs[0].schema) && fields_walkable(fs.drop_first())
    }
}

/// Whether the fields of every variant can be walked.
pub open spec fn variants_walkable(vs: Seq<VariantSchema>) -> bool
    decreases vs, 0int,
{
    if vs.len() == 0 {
        true
    } else {
        fields_walkable(vs[0].fields@) && variants_walkable(vs.drop_first())
    }
}


/// Whether the walk can read every part of a shape, tested before starting
/// one.
pub fn is_walkable(s: &Schema) -> (r: bool)
    ensures
        r == walkable(*s),
    decreases s,
{
    match s {
        Schema::Unsupported => false,
        Schema::Array(e, _) | Schema::List(e) | Schema::Distinct(e) | Schema::Optional(e)
        | Schema::Pointer(e) => is_walkable(e),
        Schema::KeyValue(k, v) => is_walkable(k) && is_walkable(v),
        Schema::Struct(fields) => fields_are_walkable(fields),
        Schema::Enum { variants, .. } => {
            let mut j: usize = 0;
            assert(variants@.skip(0) =~= variants@);
            while j < variants.len()
                invariant
                    j <= variants@.len(),
                    walkable(*s) == variants_walkable(variants@.skip(j as int)),
                    forall|k: int| 0 <= k < variants@.len() ==> decreases_to!(s => #[trigger] variants@[k].fields),
                decreases variants@.len() - j,
            {
                assert(variants@.skip(j as int).drop_first() =~= variants@.skip(j + 1));
                if !fields_are_walkable(&variants[j].fields) {
                    assert(variants@.skip(j as int)[0] == variants@[j as int]);
                    assert(!variants_walkable(variants@.skip(j as int)));
                    return false;
                }
                j = j + 1;
            }
            true
        },
        _ => true,
    }
}

/// Whether every field's shape can be walked.
fn fields_are_walkable(fs: &Vec<FieldSchema>) -> (r: bool)
    ensures
        r == fields_walkable(fs@),
    decreases fs,
{
    let mut i: usize = 0;
    assert(fs@.skip(0) =~= fs@);
    while i < fs.len()
        invariant
            i <= fs@.len(),
            fields_walkable(fs@) == fields_walkable(fs@.skip(i as int)),
        decreases fs@.len() - i,
    {
        assert(fs@.skip(i as int).drop_first() =~= fs@.skip(i + 1));
        assert(decreases_to!(fs => fs@[i as int].schema));
        if !is_walkable(&fs[i].schema) {
            assert(fs@.skip(i as int)[0] == fs@[i as int]);
            return false;
        }
        i = i + 1;
    }
    true
}

/// What is left of a sequence from an index on; nothing past its end.
pub open spec fn tail<A>(s: Seq<A>, i: int) -> Seq<A> {
    if i <= s.len() {
        s.skip(i)
    } else {
        seq![]
    }
}

/// Where a map entry stands.
#[derive(Debug)]
pub enum EntryState {
    /// No entry is being read.
    Idle,
    /// The key is being read.
    KeyStarted,
    /// The key is read; its value is not started.
    HaveKey(Value),
    /// The key is read and its value is being read.
    ValueStarted(Value),
}

/// One value being read on the walk's stack.
#[derive(Debug)]
pub enum Frame<'s> {
    /// A scalar or a unit, not read yet.
    Leaf { schema: &'s Schema, variable: bool },
    /// The fields of a struct, or of an enum variant with its discriminant,
    /// read up to `index`.
    Fields {
        fields: &'s Vec<FieldSchema>,
        index: usize,
        done: Vec<Field>,
        discriminant: Option<i64>,
    },
    /// An enum whose discriminant is not read yet.
    Variant { schema: &'s Schema },
    /// An array with `remaining` items to read.
    Array { item: &'s Schema, remaining: usize, done: Vec<Value>, variable: bool },
    /// A list, or a set when `set` is set: the length once it is read.
    List {
        schema: &'s Schema,
        item: &'s Schema,
        remaining: Option<usize>,
        done: Vec<Value>,
        variable: bool,
        set: bool,
    },
    /// A map: the length once it is read, and the entry being read.
    Entries {
        schema: &'s Schema,
        key: &'s Schema,
        value: &'s Schema,
        remaining: Option<usize>,
        entry: EntryState,
        done: Vec<(Value, Value)>,
        variable: bool,
    },
    /// A smart pointer: whether its value is started, and the value once read.
    Ptr { inner: &'s Schema, variable: bool, started: bool, got: Option<Value> },
    /// An optional value: whether its tag is read, and the value once read.
    Opt { schema: &'s Schema, inner: &'s Schema, variable: bool, read: bool, got: Option<Value> },
}

/// The name a frame is shown by.
pub open spec fn frame_name(f: Frame) -> Seq<char> {
    match f {
        Frame::Leaf { .. } => "Value"@,
        Frame::Fields { .. } => "Fields"@,
        Frame::Variant { .. } => "Variant"@,
        Frame::Array { .. } => "Array"@,
        Frame::List { .. } => "List"@,
        Frame::Entries { .. } => "Map"@,
        Frame::Ptr { .. } => "Ptr"@,
        Frame::Opt { .. } => "Option"@,
    }
}

impl<'s> Frame<'s> {
    /// The name the frame is shown by.
    pub fn name(&self) -> (r: &'static str)
        ensures
            r@ == frame_name(*self),
    {
        match self {
            Frame::Leaf { .. } => "Value",
            Frame::Fields { .. } => "Fields",
            Frame::Variant { .. } => "Variant",
            Frame::Array { .. } => "Array",
            Frame::List { .. } => "List",
            Frame::Entries { .. } => "Map",
            Frame::Ptr { .. } => "Ptr",
            Frame::Opt { .. } => "Option",
        }
    }
}

/// What a frame holds.
pub enum FrameView {
    Leaf(Schema, bool),
    Fields(Seq<FieldSchema>, nat, Seq<(bool, ValueView)>, Option<i64>),
    Variant(Schema),
    Array(Schema, nat, Seq<ValueView>, bool),
    List(Schema, Schema, Option<nat>, Seq<ValueView>, bool, bool),
    Entries(Schema, Schema, Option<nat>, Option<ValueView>, Seq<(ValueView, ValueView)>, bool),
    Ptr(Schema, bool, Option<ValueView>),
    Opt(Schema, Schema, bool, bool, Option<ValueView>),
}

/// What a frame holds.
pub open spec fn frame_view(f: Frame) -> FrameView {
    match f {
        Frame::Leaf { schema, variable } => FrameView::Leaf(*schema, variable),
        Frame::Fields { fields, index, done, discriminant } => FrameView::Fields(
            fields@,
            index as nat,
            fields_view(done@),
            discriminant,
        ),
        Frame::Variant { schema } => FrameView::Variant(*schema),
        Frame::Array { item, remaining, done, variable } => FrameView::Array(
            *item,
            remaining as nat,
            items_view(done@),
            variable,
        ),
        Frame::List { schema, item, remaining, done, variable, set } => FrameView::List(
            *schema,
            *item,
            match remaining {
                Some(r) => Some(r as nat),
                None => None,
            },
            items_view(done@),
            variable,
            set,
        ),
        Frame::Entries { schema, remaining, entry, done, variable, .. } => FrameView::Entries(
            *schema,
            match schema {
                Schema::KeyValue(_, v) => **v,
                _ => Schema::Unit,
            },
            match remaining {
                Some(r) => Some(r as nat),
                None => None,
            },
            match entry {
                EntryState::HaveKey(k) | EntryState::ValueStarted(k) => Some(k@),
                _ => None,
            },
            entries_view(done@),
            variable,
        ),
        Frame::Ptr { inner, variable, got, .. } => FrameView::Ptr(
            *inner,
            variable,
            match got {
                Some(v) => Some(v@),
                None => None,
            },
        ),
        Frame::Opt { schema, inner, variable, read, got } => FrameView::Opt(
            *schema,
            *inner,
            variable,
            read,
            match got {
                Some(v) => Some(v@),
                None => None,
            },
        ),
    }
}

/// The struct, or the enum variant with its discriminant, of the fields.
pub open spec fn fields_value(disc: Option<i64>, fs: Seq<(bool, ValueView)>) -> ValueView {
    match disc {
        Some(d) => ValueView::Enum(d, fs),
        None => ValueView::Struct(fs),
    }
}

/// The list, or the set, of the items.
pub open spec fn list_value(set: bool, vs: Seq<ValueView>) -> ValueView {
    if set {
        ValueView::Distinct(vs)
    } else {
        ValueView::List(vs)
    }
}

/// The value a frame comes to, reading what is left of it from `rest`.
pub open spec fn finish(f: FrameView, rest: Seq<u8>) -> Read {
    match f {
        FrameView::Leaf(s, var) => pdec(s, var, rest),
        FrameView::Fields(fs, i, done, disc) => match pdec_fields(tail(fs, i as int), rest) {
            Ok((xs, m)) => Ok((fields_value(disc, done + xs), m)),
            Err(x) => Err(x),
        },
        FrameView::Variant(s) => pdec(s, false, rest),
        FrameView::Array(item, r, done, var) => match pdec_items(item, var, r, rest) {
            Ok((vs, m)) => Ok((ValueView::Array(done + vs), m)),
            Err(x) => Err(x),
        },
        FrameView::List(s, item, r, done, var, set) => match r {
            None => pdec(s, var, rest),
            Some(n) => match pdec_items(item, var, n, rest) {
                Ok((vs, m)) => Ok((list_value(set, done + vs), m)),
                Err(x) => Err(x),
            },
        },
        FrameView::Entries(s, vs, r, pending, done, var) => match r {
            None => pdec(s, var, rest),
            Some(n) => match pending {
                None => match pdec_entries(s, var, n, rest) {
                    Ok((es, m)) => Ok((ValueView::KeyValue(done + es), m)),
                    Err(x) => Err(x),
                },
                Some(k) => match pdec(vs, var, rest) {
                    Err(x) => Err(x),
                    Ok((v, a)) => match pdec_entries(s, var, n, rest.skip(a as int)) {
                        Ok((es, m)) => Ok((ValueView::KeyValue(done + seq![(k, v)] + es), a + m)),
                        Err(x) => Err(x),
                    },
                },
            },
        },
        FrameView::Ptr(inner, var, got) => match got {
            Some(v) => Ok((ValueView::Pointer(Some(Box::new(v))), 0)),
            None => match pdec(inner, var, rest) {
                Ok((x, m)) => Ok((ValueView::Pointer(Some(Box::new(x))), m)),
                Err(x) => Err(x),
            },
        },
        FrameView::Opt(s, inner, var, read, got) => if !read {
            pdec(s, var, rest)
        } else {
            match got {
                Some(v) => Ok((ValueView::Optional(Some(Box::new(v))), 0)),
                None => match pdec(inner, var, rest) {
                    Ok((x, m)) => Ok((ValueView::Optional(Some(Box::new(x))), m)),
                    Err(x) => Err(x),
                },
            }
        },
    }
}

/// A frame given the value of the part it was waiting for.
pub open spec fn deliver(f: FrameView, v: ValueView) -> FrameView {
    match f {
        FrameView::Fields(fs, i, done, disc) => FrameView::Fields(
            fs,
            i,
            done.push((fs[i - 1].variable, v)),
            disc,
        ),
        FrameView::Array(item, r, done, var) => FrameView::Array(item, r, done.push(v), var),
        FrameView::List(s, item, r, done, var, set) => FrameView::List(s, item, r, done.push(v), var, set),
        FrameView::Entries(s, vs, r, pending, done, var) => match pending {
            None => FrameView::Entries(s, vs, r, Some(v), done, var),
            Some(k) => FrameView::Entries(s, vs, r, None, done.push((k, v)), var),
        },
        FrameView::Ptr(inner, var, _) => FrameView::Ptr(inner, var, Some(v)),
        FrameView::Opt(s, inner, var, read, _) => FrameView::Opt(s, inner, var, read, Some(v)),
        _ => f,
    }
}

/// The stack with its top replaced.
pub open spec fn with_top<A>(s: Seq<A>, f: A) -> Seq<A> {
    s.drop_last().push(f)
}

/// The value the walk comes to from a stack of frames, the top last,
/// reading what is left from `rest`: the top frame is finished, its value
/// given to the frame below, and so on.
#[verifier::opaque]
pub open spec fn resume(s: Seq<FrameView>, rest: Seq<u8>) -> Read
    decreases s.len(),
{
    if s.len() == 0 {
        Ok((ValueView::Unit, 0))
    } else {
        match finish(s.last(), rest) {
            Err(x) => Err(x),
            Ok((v, k)) => if s.len() == 1 {
                Ok((v, k))
            } else {
                after(
                    k,
                    resume(with_top(s.drop_last(), deliver(s.drop_last().last(), v)), rest.skip(k as int)),
                )
            },
        }
    }
}


// ---------------------------------------------------------------------------------------------
// How far reading goes.

/// A variable-length integer ends inside the input.
proof fn lemma_var_width_bound(rest: Seq<u8>)
    ensures
        var_read_width(rest, 19, 128) matches Some((_, n)) ==> n <= rest.len(),
{
    if var_end(rest, 0, 19) is Some {
        lemma_var_end_range(rest, 0, 19);
    }
}

/// Filling in a part moves the cursor no further than the input's end.
pub proof fn lemma_step_bound(rest: Seq<u8>, req: PartialValue, borrow: bool)
    ensures
        process_step(rest, req, borrow).advance <= rest.len(),
{
    lemma_var_width_bound(rest);
}

/// Reading a value takes no more bytes than there are.
pub proof fn lemma_pdec_bound(s: Schema, var: bool, rest: Seq<u8>)
    ensures
        pdec(s, var, rest) matches Ok((_, k)) ==> k <= rest.len(),
    decreases s, 2int, 0nat,
{
    lemma_step_bound(rest, PartialValue::Length, false);
    lemma_step_bound(rest, request(s, var), false);
    let a = process_step(rest, PartialValue::Length, false).advance;
    let n = int_of(process_step(rest, PartialValue::Length, false).result->Ok_0) as nat;
    match s {
        Schema::Array(e, c) => lemma_items_bound(*e, var, c as nat, rest),
        Schema::List(e) | Schema::Distinct(e) => lemma_items_bound(*e, var, n, rest.skip(a as int)),
        Schema::KeyValue(_, _) => lemma_entries_bound(s, var, n, rest.skip(a as int)),
        Schema::Optional(e) => lemma_pdec_bound(*e, var, rest.skip(a as int)),
        Schema::Pointer(e) => lemma_pdec_bound(*e, var, rest),
        Schema::Struct(fields) => lemma_fields_bound(fields@, rest),
        Schema::Enum { variants, .. } => {
            let disc = (n as usize) as i64;
            match first_variant(variants@, disc) {
                Some(i) => if i < variants@.len() {
                    lemma_fields_bound(variants@[i as int].fields@, rest.skip(a as int));
                },
                None => {},
            }
        },
        _ => {},
    }
}

proof fn lemma_items_bound(e: Schema, var: bool, n: nat, rest: Seq<u8>)
    ensures
        pdec_items(e, var, n, rest) matches Ok((_, k)) ==> k <= rest.len(),
    decreases e, 3int, n,
{
    if n > 0 {
        lemma_pdec_bound(e, var, rest);
        match pdec(e, var, rest) {
            Ok((_, k)) => lemma_items_bound(e, var, (n - 1) as nat, rest.skip(k as int)),
            Err(_) => {},
        }
    }
}

proof fn lemma_entries_bound(s: Schema, var: bool, n: nat, rest: Seq<u8>)
    ensures
        pdec_entries(s, var, n, rest) matches Ok((_, k)) ==> k <= rest.len(),
    decreases s, 1int, n,
{
    match s {
        Schema::KeyValue(ks, vs) => if n > 0 {
            lemma_pdec_bound(*ks, false, rest);
            match pdec(*ks, false, rest) {
                Ok((_, a)) => {
                    lemma_pdec_bound(*vs, var, rest.skip(a as int));
                    match pdec(*vs, var, rest.skip(a as int)) {
                        Ok((_, b)) => {
                            assert(rest.skip(a as int).skip(b as int) =~= rest.skip((a + b) as int));
                            lemma_entries_bound(s, var, (n - 1) as nat, rest.skip((a + b) as int));
                        },
                        Err(_) => {},
                    }
                },
                Err(_) => {},
            }
        },
        _ => {},
    }
}

proof fn lemma_fields_bound(fs: Seq<FieldSchema>, rest: Seq<u8>)
    ensures
        pdec_fields(fs, rest) matches Ok((_, k)) ==> k <= rest.len(),
    decreases fs, 0int, 0nat,
{
    if fs.len() > 0 {
        lemma_pdec_bound(fs[0].schema, fs[0].variable, rest);
        match pdec(fs[0].schema, fs[0].variable, rest) {
            Ok((_, k)) => lemma_fields_bound(fs.drop_first(), rest.skip(k as int)),
            Err(_) => {},
        }
    }
}

// ---------------------------------------------------------------------------------------------
// What follows the input.

/// Whether a read stopped because the input ran out.
pub open spec fn ran_out<T>(r: Result<T, StepErr>) -> bool {
    r matches Err(StepErr::EndOfInput(_))
}

/// A read that does not run out of input is decided by the bytes it has:
/// reading a value of shape `s` from `a` followed by any bytes `b` gives
/// the same value, or the same error, and takes as many bytes, as reading it
/// from `a` alone. Bytes left after a value never change what was read.
pub proof fn lemma_pdec_extend(s: Schema, var: bool, a: Seq<u8>, b: Seq<u8>)
    requires
        !ran_out(pdec(s, var, a)),
    ensures
        pdec(s, var, a + b) == pdec(s, var, a),
    decreases s, 2int, 0nat,
{
    let st = process_step(a, PartialValue::Length, false);
    let k = st.advance;
    let n = int_of(st.result->Ok_0) as nat;
    lemma_step_bound(a, PartialValue::Length, false);
    if k <= a.len() {
        assert((a + b).skip(k as int) =~= a.skip(k as int) + b);
    }
    match s {
        Schema::Unit => {},
        Schema::Array(e, c) => lemma_items_extend(*e, var, c as nat, a, b),
        Schema::List(e) | Schema::Distinct(e) => {
            lemma_step_extend(a, b, PartialValue::Length, false);
            if st.result is Ok {
                lemma_items_extend(*e, var, n, a.skip(k as int), b);
            }
        },
        Schema::KeyValue(_, _) => {
            lemma_step_extend(a, b, PartialValue::Length, false);
            if st.result is Ok {
                lemma_entries_extend(s, var, n, a.skip(k as int), b);
            }
        },
        Schema::Optional(e) => {
            lemma_step_extend(a, b, PartialValue::Length, false);
            if st.result is Ok && n == 1 {
                lemma_pdec_extend(*e, var, a.skip(k as int), b);
            }
        },
        Schema::Pointer(e) => lemma_pdec_extend(*e, var, a, b),
        Schema::Struct(fields) => lemma_fields_extend(fields@, a, b),
        Schema::Enum { variants, .. } => {
            lemma_step_extend(a, b, PartialValue::Length, false);
            if st.result is Ok {
                let disc = (n as usize) as i64;
                match first_variant(variants@, disc) {
                    Some(i) => if i < variants@.len() {
                        lemma_fields_extend(variants@[i as int].fields@, a.skip(k as int), b);
                    },
                    None => {},
                }
            }
        },
        _ => lemma_step_extend(a, b, request(s, var), false),
    }
}

proof fn lemma_items_extend(e: Schema, var: bool, n: nat, a: Seq<u8>, b: Seq<u8>)
    requires
        !ran_out(pdec_items(e, var, n, a)),
    ensures
        pdec_items(e, var, n, a + b) == pdec_items(e, var, n, a),
    decreases e, 3int, n,
{
    if n > 0 {
        lemma_pdec_extend(e, var, a, b);
        match pdec(e, var, a) {
            Ok((_, k)) => {
                lemma_pdec_bound(e, var, a);
                assert((a + b).skip(k as int) =~= a.skip(k as int) + b);
                lemma_items_extend(e, var, (n - 1) as nat, a.skip(k as int), b);
            },
            Err(_) => {},
        }
    }
}

#[verifier::spinoff_prover]
#[verifier::rlimit(40)]
proof fn lemma_entries_extend(s: Schema, var: bool, n: nat, a: Seq<u8>, b: Seq<u8>)
    requires
        !ran_out(pdec_entries(s, var, n, a)),
    ensures
        pdec_entries(s, var, n, a + b) == pdec_entries(s, var, n, a),
    decreases s, 1int, n,
{
    match s {
        Schema::KeyValue(ks, vs) => if n > 0 {
            lemma_pdec_extend(*ks, false, a, b);
            match pdec(*ks, false, a) {
                Ok((_, x)) => {
                    lemma_pdec_bound(*ks, false, a);
                    assert((a + b).skip(x as int) =~= a.skip(x as int) + b);
                    lemma_pdec_extend(*vs, var, a.skip(x as int), b);
                    match pdec(*vs, var, a.skip(x as int)) {
                        Ok((_, y)) => {
                            lemma_pdec_bound(*vs, var, a.skip(x as int));
                            assert(a.skip(x as int).skip(y as int) =~= a.skip((x + y) as int));
                            assert((a + b).skip((x + y) as int) =~= a.skip((x + y) as int) + b);
                            lemma_entries_extend(s, var, (n - 1) as nat, a.skip((x + y) as int), b);
                        },
                        Err(_) => {},
                    }
                },
                Err(_) => {},
            }
        },
        _ => {},
    }
}

proof fn lemma_fields_extend(fs: Seq<FieldSchema>, a: Seq<u8>, b: Seq<u8>)
    requires
        !ran_out(pdec_fields(fs, a)),
    ensures
        pdec_fields(fs, a + b) == pdec_fields(fs, a),
    decreases fs, 0int, 0nat,
{
    if fs.len() > 0 {
        lemma_pdec_extend(fs[0].schema, fs[0].variable, a, b);
        match pdec(fs[0].schema, fs[0].variable, a) {
            Ok((_, k)) => {
                lemma_pdec_bound(fs[0].schema, fs[0].variable, a);
                assert((a + b).skip(k as int) =~= a.skip(k as int) + b);
                lemma_fields_extend(fs.drop_first(), a.skip(k as int), b);
            },
            Err(_) => {},
        }
    }
}

/// Finishing a frame takes no more bytes than there are.
pub proof fn lemma_finish_bound(f: FrameView, rest: Seq<u8>)
    ensures
        finish(f, rest) matches Ok((_, k)) ==> k <= rest.len(),
{
    match f {
        FrameView::Leaf(s, var) => lemma_pdec_bound(s, var, rest),
        FrameView::Fields(fs, i, _, _) => lemma_fields_bound(tail(fs, i as int), rest),
        FrameView::Variant(s) => lemma_pdec_bound(s, false, rest),
        FrameView::Array(item, r, _, var) => lemma_items_bound(item, var, r, rest),
        FrameView::List(s, item, r, _, var, _) => match r {
            None => lemma_pdec_bound(s, var, rest),
            Some(n) => lemma_items_bound(item, var, n, rest),
        },
        FrameView::Entries(s, vs, r, pending, _, var) => match r {
            None => lemma_pdec_bound(s, var, rest),
            Some(n) => match pending {
                None => lemma_entries_bound(s, var, n, rest),
                Some(_) => {
                    lemma_pdec_bound(vs, var, rest);
                    match pdec(vs, var, rest) {
                        Ok((_, a)) => lemma_entries_bound(s, var, n, rest.skip(a as int)),
                        Err(_) => {},
                    }
                },
            },
        },
        FrameView::Ptr(inner, var, _) => lemma_pdec_bound(inner, var, rest),
        FrameView::Opt(s, inner, var, _, _) => {
            lemma_pdec_bound(s, var, rest);
            lemma_pdec_bound(inner, var, rest);
        },
    }
}

// ---------------------------------------------------------------------------------------------
// How the stack's value changes when its top does.

/// Replacing the top frame by one that comes to the same value after `a`
/// more bytes changes the walk's value by those bytes.
pub proof fn lemma_replace_top(s: Seq<FrameView>, f: FrameView, g: FrameView, rest: Seq<u8>, a: nat)
    requires
        s.len() >= 1,
        a <= rest.len(),
        finish(f, rest) == after(a, finish(g, rest.skip(a as int))),
    ensures
        resume(with_top(s, f), rest) == after(a, resume(with_top(s, g), rest.skip(a as int))),
{
    reveal(resume);
    let sf = with_top(s, f);
    let sg = with_top(s, g);
    assert(sf.last() == f);
    assert(sg.last() == g);
    assert(sf.drop_last() =~= s.drop_last());
    assert(sg.drop_last() =~= s.drop_last());
    lemma_finish_bound(g, rest.skip(a as int));
    match finish(g, rest.skip(a as int)) {
        Err(_) => {},
        Ok((v, k)) => {
            assert(rest.skip(a as int).skip(k as int) =~= rest.skip((a + k) as int));
        },
    }
}

/// Pushing a child frame onto a top frame that waits for it leaves the walk's
/// value as it was, when the top frame's value is the child's given to it.
pub proof fn lemma_push_child(s: Seq<FrameView>, f: FrameView, g: FrameView, c: FrameView, rest: Seq<u8>)
    requires
        s.len() >= 1,
        finish(f, rest) == (match finish(c, rest) {
            Err(x) => Err(x),
            Ok((v, k)) => after(k, finish(deliver(g, v), rest.skip(k as int))),
        }),
    ensures
        resume(with_top(s, f), rest) == resume(with_top(s, g).push(c), rest),
{
    reveal(resume);
    let t = with_top(s, g).push(c);
    assert(t.last() == c);
    assert(t.drop_last() =~= with_top(s, g));
    assert(with_top(s, g).last() == g);
    lemma_finish_bound(c, rest);
    match finish(c, rest) {
        Err(_) => {
            assert(with_top(s, f).last() == f);
        },
        Ok((v, k)) => {
            assert(with_top(with_top(s, g), deliver(g, v)) =~= with_top(s, deliver(g, v)));
            lemma_replace_top(s, f, deliver(g, v), rest, k);
        },
    }
}

/// Finishing the top frame with a value after `a` bytes gives the value to
/// the frame below.
pub proof fn lemma_complete_top(s: Seq<FrameView>, rest: Seq<u8>, v: ValueView, a: nat)
    requires
        s.len() >= 2,
        finish(s.last(), rest) == Ok::<(ValueView, nat), StepErr>((v, a)),
    ensures
        resume(s, rest) == after(
            a,
            resume(with_top(s.drop_last(), deliver(s.drop_last().last(), v)), rest.skip(a as int)),
        ),
{
    reveal(resume);
}


// ---------------------------------------------------------------------------------------------
// Starting a value.

/// The frame a value of shape `s` starts as.
pub open spec fn start_view(s: Schema, var: bool) -> FrameView {
    match s {
        Schema::Struct(fields) => FrameView::Fields(fields@, 0, seq![], None),
        Schema::Enum { .. } => FrameView::Variant(s),
        Schema::Array(e, n) => FrameView::Array(*e, n as nat, seq![], var),
        Schema::List(e) => FrameView::List(s, *e, None, seq![], var, false),
        Schema::Distinct(e) => FrameView::List(s, *e, None, seq![], var, true),
        Schema::KeyValue(_, v) => FrameView::Entries(s, *v, None, None, seq![], var),
        Schema::Pointer(e) => FrameView::Ptr(*e, var, None),
        Schema::Optional(e) => FrameView::Opt(s, *e, var, false, None),
        _ => FrameView::Leaf(s, var),
    }
}

/// A value's starting frame comes to the value read for its shape.
pub proof fn lemma_start_view(s: Schema, var: bool, rest: Seq<u8>)
    ensures
        finish(start_view(s, var), rest) == pdec(s, var, rest),
{
    match s {
        Schema::Struct(fields) => {
            assert(tail(fields@, 0) =~= fields@);
            match pdec_fields(fields@, rest) {
                Ok((xs, m)) => {
                    assert(seq![] + xs =~= xs);
                },
                Err(_) => {},
            }
        },
        Schema::Array(e, n) => {
            match pdec_items(*e, var, n as nat, rest) {
                Ok((vs, m)) => {
                    assert(seq![] + vs =~= vs);
                },
                Err(_) => {},
            }
        },
        _ => {},
    }
}

// ---------------------------------------------------------------------------------------------
// The walk's termination.

/// The most work a value of shape `s` takes: every length is at most
/// `usize::MAX`.
pub open spec fn sw(s: Schema) -> nat
    decreases s, 1int,
{
    match s {
        Schema::Array(e, n) => 2 + (n as nat) * (sw(*e) + 1),
        Schema::List(e) | Schema::Distinct(e) => 3 + (usize::MAX as nat) * (sw(*e) + 1),
        Schema::KeyValue(k, v) => 3 + (usize::MAX as nat) * (sw(*k) + sw(*v) + 2),
        Schema::Optional(e) | Schema::Pointer(e) => 3 + sw(*e),
        Schema::Struct(fields) => 2 + fw_fields(fields@),
        Schema::Enum { variants, .. } => 3 + vw(variants@),
        _ => 2,
    }
}

/// The work of a sequence of fields.
pub open spec fn fw_fields(fs: Seq<FieldSchema>) -> nat
    decreases fs, 0int,
{
    if fs.len() == 0 {
        0
    } else {
        sw(fs[0].schema) + 1 + fw_fields(fs.drop_first())
    }
}

/// The work of all variants together.
pub open spec fn vw(vs: Seq<VariantSchema>) -> nat
    decreases vs, 0int,
{
    if vs.len() == 0 {
        0
    } else {
        fw_fields(vs[0].fields@) + vw(vs.drop_first())
    }
}

/// The work left in a frame.
pub open spec fn fw(f: Frame) -> nat {
    match f {
        Frame::Leaf { .. } => 1,
        Frame::Fields { fields, index, .. } => 1 + fw_fields(tail(fields@, index as int)),
        Frame::Variant { schema } => match *schema {
            Schema::Enum { variants, .. } => 2 + vw(variants@),
            _ => 1,
        },
        Frame::Array { item, remaining, .. } => 1 + (remaining as nat) * (sw(*item) + 1),
        Frame::List { item, remaining, .. } => match remaining {
            None => 2 + (usize::MAX as nat) * (sw(*item) + 1),
            Some(r) => 1 + (r as nat) * (sw(*item) + 1),
        },
        Frame::Entries { key, value, remaining, entry, .. } => match remaining {
            None => 2 + (usize::MAX as nat) * (sw(*key) + sw(*value) + 2),
            Some(r) => 1 + (r as nat) * (sw(*key) + sw(*value) + 2) + match entry {
                EntryState::KeyStarted | EntryState::HaveKey(_) => sw(*value) + 1,
                _ => 0,
            },
        },
        Frame::Ptr { inner, started, .. } => if !started {
            2 + sw(*inner)
        } else {
            1
        },
        Frame::Opt { inner, read, .. } => if !read {
            2 + sw(*inner)
        } else {
            1
        },
    }
}

/// The work left in a stack of frames.
pub open spec fn ws(s: Seq<Frame>) -> nat
    decreases s.len(),
{
    if s.len() == 0 {
        0
    } else {
        fw(s.last()) + ws(s.drop_last())
    }
}

/// Whether the frame waits for a part being read above it.
pub open spec fn awaiting(f: Frame) -> bool {
    match f {
        Frame::Ptr { started, got, .. } => started && got is None,
        Frame::Opt { read, got, .. } => read && got is None,
        Frame::Entries { entry, .. } => entry is KeyStarted || entry is ValueStarted,
        _ => false,
    }
}

/// Whether the frame holds parts: a frame something can be read above.
pub open spec fn container(f: Frame) -> bool {
    match f {
        Frame::Leaf { .. } | Frame::Variant { .. } => false,
        Frame::Fields { index, .. } => index >= 1,
        Frame::List { remaining, .. } => remaining is Some,
        Frame::Ptr { .. } | Frame::Opt { .. } | Frame::Entries { .. } => awaiting(f),
        _ => true,
    }
}

/// Whether a frame is consistent with its shapes, and every shape in it can
/// be walked.
pub open spec fn wf_frame(f: Frame) -> bool {
    match f {
        Frame::Leaf { schema, .. } => is_scalar(*schema) || *schema is Unit,
        Frame::Fields { fields, index, .. } => index <= fields@.len() && fields_walkable(fields@),
        Frame::Variant { schema } => *schema is Enum && walkable(*schema),
        Frame::Array { item, .. } => walkable(*item),
        Frame::List { schema, item, set, remaining, done, .. } => walkable(*item) && *schema == (if set {
            Schema::Distinct(Box::new(*item))
        } else {
            Schema::List(Box::new(*item))
        }) && (remaining is None ==> done@.len() == 0),
        Frame::Entries { schema, key, value, remaining, entry, done, .. } => walkable(*key) && walkable(*value)
            && *schema == Schema::KeyValue(Box::new(*key), Box::new(*value)) && (remaining is None
            ==> entry is Idle && done@.len() == 0),
        Frame::Ptr { inner, started, got, .. } => walkable(*inner) && (got is Some ==> started),
        Frame::Opt { schema, inner, read, got, .. } => walkable(*inner) && *schema == Schema::Optional(
            Box::new(*inner),
        ) && (got is Some ==> read),
    }
}

/// Whether a stack is one the walk can be in: every frame consistent, every
/// frame below the top waiting for the one above it, and the top not.
pub open spec fn wf_stack(s: Seq<Frame>) -> bool {
    &&& forall|i: int| 0 <= i < s.len() ==> wf_frame(#[trigger] s[i])
    &&& forall|i: int| 0 <= i < s.len() - 1 ==> container(#[trigger] s[i])
    &&& s.len() >= 1 ==> !awaiting(s.last())
}

/// What the frames of a stack hold.
pub open spec fn stack_view(s: Seq<Frame>) -> Seq<FrameView> {
    s.map_values(|f: Frame| frame_view(f))
}


/// The views of map entries, one more pushed.
proof fn lemma_entries_view_push(s: Seq<(Value, Value)>, x: (Value, Value))
    ensures
        entries_view(s.push(x)) == entries_view(s).push((x.0@, x.1@)),
    decreases s.len(),
{
    if s.len() == 0 {
        assert(s.push(x).drop_first() =~= Seq::<(Value, Value)>::empty());
        assert(entries_view(Seq::<(Value, Value)>::empty()) =~= Seq::<(ValueView, ValueView)>::empty());
        assert(entries_view(s.push(x)) =~= seq![(x.0@, x.1@)]);
    } else {
        assert(s.push(x).drop_first() =~= s.drop_first().push(x));
        lemma_entries_view_push(s.drop_first(), x);
        assert(entries_view(s.push(x)) =~= entries_view(s).push((x.0@, x.1@)));
    }
}

/// The frame a value of shape `schema` starts as.
fn new_frame<'s>(schema: &'s Schema, variable: bool) -> (f: Frame<'s>)
    requires
        walkable(*schema),
    ensures
        frame_view(f) == start_view(*schema, variable),
        wf_frame(f),
        !awaiting(f),
        fw(f) + 1 <= sw(*schema),
{
    match schema {
        Schema::Struct(fields) => {
            assert(tail(fields@, 0) =~= fields@);
            Frame::Fields { fields, index: 0, done: Vec::new(), discriminant: None }
        },
        Schema::Enum { .. } => Frame::Variant { schema },
        Schema::Array(e, n) => Frame::Array { item: &**e, remaining: *n, done: Vec::new(), variable },
        Schema::List(e) => Frame::List {
            schema,
            item: &**e,
            remaining: None,
            done: Vec::new(),
            variable,
            set: false,
        },
        Schema::Distinct(e) => Frame::List {
            schema,
            item: &**e,
            remaining: None,
            done: Vec::new(),
            variable,
            set: true,
        },
        Schema::KeyValue(k, v) => Frame::Entries {
            schema,
            key: &**k,
            value: &**v,
            remaining: None,
            entry: EntryState::Idle,
            done: Vec::new(),
            variable,
        },
        Schema::Pointer(e) => Frame::Ptr { inner: &**e, variable, started: false, got: None },
        Schema::Optional(e) => Frame::Opt { schema, inner: &**e, variable, read: false, got: None },
        _ => Frame::Leaf { schema, variable },
    }
}

/// The value of a scalar shape made from what its request read.
fn leaf_value(schema: &Schema, variable: bool, p: ProcessedValue) -> (v: Value)
    requires
        is_scalar(*schema),
        crate::process::answers(request(*schema, variable), p),
    ensures
        v@ == scalar_value(*schema, processed_view(p)),
{
    match p {
        ProcessedValue::Bool(b) => Value::Bool(b),
        ProcessedValue::U8(x) => Value::U8(x),
        ProcessedValue::U16(x) => Value::U16(x),
        ProcessedValue::U32(x) => Value::U32(x),
        ProcessedValue::U64(x) => Value::U64(x),
        ProcessedValue::U128(x) => Value::U128(x),
        ProcessedValue::Usize(x) => Value::USize(x),
        ProcessedValue::I8(x) => Value::I8(x),
        ProcessedValue::I16(x) => Value::I16(x),
        ProcessedValue::I32(x) => Value::I32(x),
        ProcessedValue::I64(x) => Value::I64(x),
        ProcessedValue::I128(x) => Value::I128(x),
        ProcessedValue::Isize(x) => Value::ISize(x),
        ProcessedValue::F32(x) => Value::F32(x),
        ProcessedValue::F64(x) => Value::F64(x),
        ProcessedValue::String(s) => Value::Str(s),
        ProcessedValue::Str(s) => Value::Str(s.to_owned()),
        ProcessedValue::Bytes(_) | ProcessedValue::VecBytes(_) | ProcessedValue::Length(_) => Value::Unit,
    }
}

/// A frame given the value of the part it was waiting for.
fn deliver_frame<'s>(f: Frame<'s>, v: Value) -> (r: Frame<'s>)
    requires
        container(f),
        wf_frame(f),
    ensures
        frame_view(r) == deliver(frame_view(f), v@),
        wf_frame(r),
        !awaiting(r),
        fw(r) <= fw(f),
{
    match f {
        Frame::Fields { fields, index, mut done, discriminant } => {
            let variable = fields[index - 1].variable;
            let ghost before = done@;
            let field = Field { variable, value: v };
            done.push(field);
            proof {
                lemma_fields_view_push(before, field);
            }
            Frame::Fields { fields, index, done, discriminant }
        },
        Frame::Array { item, remaining, mut done, variable } => {
            let ghost before = done@;
            let ghost vv = v;
            done.push(v);
            proof {
                lemma_items_view_push(before, vv);
            }
            Frame::Array { item, remaining, done, variable }
        },
        Frame::List { schema, item, remaining, mut done, variable, set } => {
            let ghost before = done@;
            let ghost vv = v;
            done.push(v);
            proof {
                lemma_items_view_push(before, vv);
            }
            Frame::List { schema, item, remaining, done, variable, set }
        },
        Frame::Entries { schema, key, value, remaining, entry, mut done, variable } => match entry {
            EntryState::ValueStarted(k) => {
                let ghost before = done@;
                let ghost e = (k, v);
                done.push((k, v));
                proof {
                    lemma_entries_view_push(before, e);
                }
                Frame::Entries { schema, key, value, remaining, entry: EntryState::Idle, done, variable }
            },
            _ => Frame::Entries {
                schema,
                key,
                value,
                remaining,
                entry: EntryState::HaveKey(v),
                done,
                variable,
            },
        },
        Frame::Ptr { inner, variable, started, .. } => Frame::Ptr {
            inner,
            variable,
            started,
            got: Some(v),
        },
        Frame::Opt { schema, inner, variable, read, .. } => Frame::Opt {
            schema,
            inner,
            variable,
            read,
            got: Some(v),
        },
        other => other,
    }
}


/// The request for a scalar shape.
fn request_for(schema: &Schema, variable: bool) -> (r: PartialValue)
    ensures
        r == request(*schema, variable),
{
    match schema {
        Schema::Bool => PartialValue::Bool,
        Schema::U8 => PartialValue::U8,
        Schema::U16 => PartialValue::U16(variable),
        Schema::U32 => PartialValue::U32(variable),
        Schema::U64 => PartialValue::U64(variable),
        Schema::U128 => PartialValue::U128(variable),
        Schema::USize => PartialValue::Usize(variable),
        Schema::I8 => PartialValue::I8,
        Schema::I16 => PartialValue::I16(variable),
        Schema::I32 => PartialValue::I32(variable),
        Schema::I64 => PartialValue::I64(variable),
        Schema::I128 => PartialValue::I128(variable),
        Schema::ISize => PartialValue::Isize(variable),
        Schema::F32 => PartialValue::F32,
        Schema::F64 => PartialValue::F64,
        _ => PartialValue::String,
    }
}

/// The walk's error for an error of one part.
fn to_step_err(e: DeserializeValueError) -> (r: StepErr)
    ensures
        r == step_err(e),
{
    match e {
        DeserializeValueError::Boolean(b) => StepErr::Boolean(b),
        DeserializeValueError::StaticBorrow => StepErr::StaticBorrow,
        DeserializeValueError::Utf8(n) => StepErr::Utf8(n),
        DeserializeValueError::EndOfInput(e) => StepErr::EndOfInput(e),
    }
}

/// Reads a length from the cursor.
fn read_length<'i>(cursor: &mut InputCursor<'i>) -> (r: Result<usize, StepErr>)
    ensures
        ({
            let st = process_step(old(cursor).rest(), PartialValue::Length, false);
            &&& final(cursor).data() == old(cursor).data()
            &&& final(cursor).pos() == old(cursor).pos() + st.advance
            &&& match st.result {
                Ok(p) => r == Ok::<usize, StepErr>(int_of(p) as usize) && 0 <= int_of(p) <= usize::MAX,
                Err(e) => r == Err::<usize, StepErr>(step_err(e)),
            }
        }),
        r matches Err(StepErr::EndOfInput(_)) ==> final(cursor).pos() == old(cursor).pos(),
{
    proof {
        lemma_ran_out_in_place(cursor.rest(), PartialValue::Length, false);
    }
    match owned_processor(cursor, PartialValue::Length) {
        Ok(ProcessedValue::Length(n)) => Ok(n),
        Ok(_) => Err(StepErr::StaticBorrow),
        Err(e) => Err(to_step_err(e)),
    }
}

/// The work of one variant's fields is part of the work of all of them, and
/// a variant of walkable variants has walkable fields.
proof fn lemma_variant_part(vs: Seq<VariantSchema>, i: int)
    requires
        0 <= i < vs.len(),
    ensures
        fw_fields(vs[i].fields@) <= vw(vs),
        variants_walkable(vs) ==> fields_walkable(vs[i].fields@),
    decreases i,
{
    if i > 0 {
        lemma_variant_part(vs.drop_first(), i - 1);
        assert(vs.drop_first()[i - 1] == vs[i]);
    }
}

/// The first field's shape can be walked when all of them can.
proof fn lemma_field_part(fs: Seq<FieldSchema>, i: int)
    requires
        0 <= i < fs.len(),
        fields_walkable(fs),
    ensures
        walkable(fs[i].schema),
    decreases i,
{
    if i > 0 {
        lemma_field_part(fs.drop_first(), i - 1);
        assert(fs.drop_first()[i - 1] == fs[i]);
    }
}

/// The walk reads the field at `i`, then the fields after it.
proof fn lemma_fields_step(fs: Seq<FieldSchema>, i: int, done: Seq<(bool, ValueView)>, disc: Option<i64>, rest: Seq<u8>)
    requires
        0 <= i < fs.len(),
    ensures
        finish(FrameView::Fields(fs, i as nat, done, disc), rest) == (match finish(
            start_view(fs[i].schema, fs[i].variable),
            rest,
        ) {
            Err(x) => Err(x),
            Ok((v, k)) => after(
                k,
                finish(deliver(FrameView::Fields(fs, (i + 1) as nat, done, disc), v), rest.skip(k as int)),
            ),
        }),
        fw_fields(tail(fs, i)) == sw(fs[i].schema) + 1 + fw_fields(tail(fs, i + 1)),
{
    lemma_start_view(fs[i].schema, fs[i].variable, rest);
    assert(tail(fs, i).drop_first() =~= tail(fs, i + 1));
    assert(tail(fs, i)[0] == fs[i]);
    match pdec(fs[i].schema, fs[i].variable, rest) {
        Err(_) => {},
        Ok((v, k)) => match pdec_fields(tail(fs, i + 1), rest.skip(k as int)) {
            Err(_) => {},
            Ok((xs, m)) => {
                assert(done + (seq![(fs[i].variable, v)] + xs) =~= done.push((fs[i].variable, v)) + xs);
            },
        },
    }
}

/// The walk reads one item of a sequence, then the items after it.
proof fn lemma_items_step(item: Schema, var: bool, n: nat, done: Seq<ValueView>, mk: spec_fn(Seq<ValueView>) -> ValueView, rest: Seq<u8>)
    requires
        n >= 1,
    ensures
        (match pdec_items(item, var, n, rest) {
            Ok((vs, m)) => Ok((mk(done + vs), m)),
            Err(x) => Err(x),
        }) == (match finish(start_view(item, var), rest) {
            Err(x) => Err(x),
            Ok((v, k)) => after(
                k,
                match pdec_items(item, var, (n - 1) as nat, rest.skip(k as int)) {
                    Ok((vs, m)) => Ok((mk(done.push(v) + vs), m)),
                    Err(x) => Err::<(ValueView, nat), StepErr>(x),
                },
            ),
        }),
{
    lemma_start_view(item, var, rest);
    match pdec(item, var, rest) {
        Err(_) => {},
        Ok((v, k)) => match pdec_items(item, var, (n - 1) as nat, rest.skip(k as int)) {
            Err(_) => {},
            Ok((vs, m)) => {
                assert(done + (seq![v] + vs) =~= done.push(v) + vs);
            },
        },
    }
}

proof fn lemma_stack_push(s: Seq<Frame>, f: Frame)
    ensures
        stack_view(s.push(f)) == stack_view(s).push(frame_view(f)),
        ws(s.push(f)) == fw(f) + ws(s),
        s.push(f).drop_last() == s,
        s.push(f).last() == f,
{
    assert(stack_view(s.push(f)) =~= stack_view(s).push(frame_view(f)));
    assert(s.push(f).drop_last() =~= s);
}


/// A walk over the parts of a value of a given shape, that reads each part
/// from a cursor and can stop when the input runs out.
#[derive(Debug)]
pub struct DeserializeIter<'s> {
    stack: Vec<Frame<'s>>,
    result: Option<Value>,
}

/// An error that can occur during deserialization.
#[derive(Debug)]
pub enum DeserializeIterError<'s> {
    /// Attempted to create a boolean from a non-boolean value.
    Boolean(u8),
    /// Attempted to borrow data with a static lifetime.
    StaticBorrow,
    /// A string was not UTF-8: the number of bytes that were valid.
    Utf8(usize),
    /// An enum's discriminant selects none of its variants.
    InvalidVariant(i64),
    /// The deserializer ran out of data.
    EndOfInput {
        /// The error's data.
        error: EndOfInput,
        /// The iterator, which may be resumed with more data.
        iterator: DeserializeIter<'s>,
    },
}

/// The walk's error an iterator error stands for.
pub open spec fn iter_err(e: DeserializeIterError) -> StepErr {
    match e {
        DeserializeIterError::Boolean(b) => StepErr::Boolean(b),
        DeserializeIterError::StaticBorrow => StepErr::StaticBorrow,
        DeserializeIterError::Utf8(n) => StepErr::Utf8(n),
        DeserializeIterError::InvalidVariant(d) => StepErr::InvalidVariant(d),
        DeserializeIterError::EndOfInput { error, .. } => StepErr::EndOfInput(error),
    }
}

/// The value a walk with the stack and the value read comes to, reading
/// what is left from `rest`.
pub open spec fn stack_outcome(s: Seq<Frame>, result: Option<Value>, rest: Seq<u8>) -> Read {
    if s.len() == 0 {
        match result {
            Some(v) => Ok((v@, 0)),
            None => Ok((ValueView::Unit, 0)),
        }
    } else {
        resume(stack_view(s), rest)
    }
}

/// Whether one step of the walk went as it should: the cursor moved on over
/// its input, and either the walk has less work left and comes to the same
/// value with the bytes it read, or the step failed with the error the walk
/// comes to and left the walk as it was.
spec fn stepped<'s, 'i>(
    before: Seq<Frame<'s>>,
    c0: InputCursor<'i>,
    it: DeserializeIter<'s>,
    c1: InputCursor<'i>,
    r: Result<(), StepErr>,
) -> bool {
    &&& c1.data() == c0.data()
    &&& c0.pos() <= c1.pos()
    &&& it.wf()
    &&& match r {
        Ok(()) => ws(it.stack@) < ws(before) && after(
            (c1.pos() - c0.pos()) as nat,
            it.outcome(c1.rest()),
        ) == resume(stack_view(before), c0.rest()) && forall|m: Seq<u8>| #[trigger]
            moved_on(before, c0, it, c1, m),
        Err(e) => resume(stack_view(before), c0.rest()) == Err::<(ValueView, nat), StepErr>(e)
            && it.stack@ == before && (e is EndOfInput ==> c1.pos() == c0.pos()),
    }
}

/// Whether the step from the walk `before`, at `c0`, to the walk `it`, at
/// `c1`, holds when the input goes on with `m`: the bytes the step read are
/// the same, and the rest is read by the new walk.
spec fn moved_on<'s, 'i>(
    before: Seq<Frame<'s>>,
    c0: InputCursor<'i>,
    it: DeserializeIter<'s>,
    c1: InputCursor<'i>,
    m: Seq<u8>,
) -> bool {
    resume(stack_view(before), c0.rest() + m) == after(
        (c1.pos() - c0.pos()) as nat,
        it.outcome(c1.rest() + m),
    )
}

/// A stack whose top frame fails comes to that failure.
proof fn lemma_top_fails(s: Seq<FrameView>, rest: Seq<u8>)
    requires
        s.len() >= 1,
    ensures
        finish(s.last(), rest) is Err ==> resume(s, rest) == finish(s.last(), rest),
{
    reveal(resume);
}

/// The stack's value when its top frame finishes with `v` after `a` bytes.
proof fn lemma_completed<'s>(
    before: Seq<Frame<'s>>,
    v: ValueView,
    a: nat,
    rest0: Seq<u8>,
    after_stack: Seq<Frame<'s>>,
    result: Option<Value>,
)
    requires
        before.len() >= 1,
        finish(frame_view(before.last()), rest0) == Ok::<(ValueView, nat), StepErr>((v, a)),
        a <= rest0.len(),
        before.len() == 1 ==> after_stack.len() == 0 && (result matches Some(x) && x@ == v),
        before.len() > 1 ==> after_stack.len() > 0 && stack_view(after_stack) == with_top(
            stack_view(before.drop_last()),
            deliver(stack_view(before.drop_last()).last(), v),
        ),
    ensures
        after(a, stack_outcome(after_stack, result, rest0.skip(a as int))) == resume(stack_view(before), rest0),
{
    reveal(resume);
    let sv = stack_view(before);
    assert(sv.last() == frame_view(before.last()));
    if before.len() > 1 {
        assert(sv.drop_last() =~= stack_view(before.drop_last()));
        lemma_complete_top(sv, rest0, v, a);
    }
}

/// A cursor moved on by `a` bytes has the rest after those bytes left.
proof fn lemma_cursor_moved(c0: InputCursor, c1: InputCursor, a: nat)
    requires
        c1.data() == c0.data(),
        c1.pos() == c0.pos() + a,
        c1.pos() <= c1.data().len(),
    ensures
        c1.rest() == c0.rest().skip(a as int),
        a <= c0.rest().len(),
{
    assert(c1.rest() =~= c0.rest().skip(a as int));
}

impl<'s> DeserializeIter<'s> {
    /// Whether the walk is in a state it can be in.
    pub closed spec fn wf(&self) -> bool {
        &&& wf_stack(self.stack@)
        &&& self.stack@.len() == 0 ==> self.result is Some
    }

    /// Whether the walk is over.
    pub closed spec fn finished(&self) -> bool {
        self.stack@.len() == 0
    }

    /// The value the walk comes to, reading what is left from `rest`: the
    /// value it holds when it is over.
    pub closed spec fn outcome(&self, rest: Seq<u8>) -> Read {
        stack_outcome(self.stack@, self.result, rest)
    }

    /// The value read, once the walk is over.
    pub closed spec fn value(&self) -> Option<Value> {
        self.result
    }

    /// Creates a new [`DeserializeIter`] for a value of the given shape.
    pub fn new(schema: &'s Schema) -> (it: Self)
        requires
            walkable(*schema),
        ensures
            it.wf(),
            !it.finished(),
            forall|rest: Seq<u8>| #[trigger] it.outcome(rest) == pdec(*schema, false, rest),
    {
        let f = new_frame(schema, false);
        let mut stack: Vec<Frame<'s>> = Vec::new();
        stack.push(f);
        let it = DeserializeIter { stack, result: None };
        proof {
            assert(stack@ =~= seq![f]);
            assert forall|rest: Seq<u8>| #[trigger] it.outcome(rest) == pdec(*schema, false, rest) by {
                assert(stack_view(stack@) =~= seq![frame_view(f)]);
                lemma_start_view(*schema, false, rest);
                reveal(resume);
            }
        }
        it
    }

    /// Gives the value of the frame just taken off the top to the frame
    /// below it, or keeps it as the walk's value when there is none.
    fn hand_up(&mut self, v: Value, Ghost(top): Ghost<Frame<'s>>)
        requires
            wf_stack(old(self).stack@.push(top)),
        ensures
            final(self).wf(),
            ws(final(self).stack@) <= ws(old(self).stack@),
            old(self).stack@.len() == 0 ==> final(self).stack@.len() == 0 && final(self).result == Some(v),
            old(self).stack@.len() > 0 ==> final(self).stack@.len() > 0 && stack_view(final(self).stack@)
                == with_top(stack_view(old(self).stack@), deliver(stack_view(old(self).stack@).last(), v@)),
    {
        let ghost below = self.stack@;
        proof {
            lemma_stack_push(below, top);
        }
        if self.stack.len() == 0 {
            self.result = Some(v);
        } else {
            let parent = self.stack.pop().unwrap();
            proof {
                lemma_stack_push(self.stack@, parent);
                assert(below == self.stack@.push(parent));
                assert(below.push(top)[below.len() - 1] == parent);
                assert(wf_frame(below.push(top)[below.len() - 1]));
                assert(container(below.push(top)[below.len() - 1]));
            }
            let p2 = deliver_frame(parent, v);
            let ghost mid = self.stack@;
            self.stack.push(p2);
            proof {
                lemma_stack_push(mid, p2);
                assert forall|i: int| 0 <= i < self.stack@.len() implies wf_frame(#[trigger] self.stack@[i]) by {
                    if i < mid.len() {
                        assert(self.stack@[i] == below.push(top)[i]);
                    }
                }
                assert forall|i: int| 0 <= i < self.stack@.len() - 1 implies container(#[trigger] self.stack@[i]) by {
                    assert(self.stack@[i] == below.push(top)[i]);
                }
                assert(stack_view(below).last() == frame_view(parent));
                assert(stack_view(below).drop_last() =~= stack_view(mid));
            }
        }
    }
}


/// Pushing a child frame above the top, which becomes `g`, keeps the stack
/// one the walk can be in, with less work and the same value.
proof fn lemma_pushed<'s>(before: Seq<Frame<'s>>, g: Frame<'s>, c: Frame<'s>, rest0: Seq<u8>)
    requires
        before.len() >= 1,
        wf_stack(before),
        finish(frame_view(before.last()), rest0) == (match finish(frame_view(c), rest0) {
            Err(x) => Err(x),
            Ok((v, k)) => after(k, finish(deliver(frame_view(g), v), rest0.skip(k as int))),
        }),
        wf_frame(g),
        container(g),
        wf_frame(c),
        !awaiting(c),
        fw(g) + fw(c) < fw(before.last()),
    ensures
        wf_stack(before.drop_last().push(g).push(c)),
        ws(before.drop_last().push(g).push(c)) < ws(before),
        resume(stack_view(before.drop_last().push(g).push(c)), rest0) == resume(stack_view(before), rest0),
{
    let below = before.drop_last();
    let s1 = below.push(g);
    let s2 = s1.push(c);
    lemma_stack_push(below, before.last());
    assert(below.push(before.last()) =~= before);
    lemma_stack_push(below, g);
    lemma_stack_push(s1, c);
    assert forall|i: int| 0 <= i < s2.len() implies wf_frame(#[trigger] s2[i]) by {
        if i < below.len() {
            assert(s2[i] == before[i]);
        }
    }
    assert forall|i: int| 0 <= i < s2.len() - 1 implies container(#[trigger] s2[i]) by {
        if i < below.len() {
            assert(s2[i] == before[i]);
        }
    }
    let sv = stack_view(before);
    assert(sv =~= stack_view(below).push(frame_view(before.last())));
    assert(with_top(sv, frame_view(before.last())) =~= sv);
    lemma_push_child(sv, frame_view(before.last()), frame_view(g), frame_view(c), rest0);
    assert(with_top(sv, frame_view(g)).push(frame_view(c)) =~= stack_view(s2));
}

/// Replacing the top by `g`, which comes to the same value after `a` more
/// bytes, keeps the stack one the walk can be in, with less work.
proof fn lemma_replaced<'s>(before: Seq<Frame<'s>>, g: Frame<'s>, a: nat, rest0: Seq<u8>)
    requires
        before.len() >= 1,
        wf_stack(before),
        a <= rest0.len(),
        finish(frame_view(before.last()), rest0) == after(a, finish(frame_view(g), rest0.skip(a as int))),
        wf_frame(g),
        !awaiting(g),
        fw(g) < fw(before.last()),
    ensures
        wf_stack(before.drop_last().push(g)),
        ws(before.drop_last().push(g)) < ws(before),
        resume(stack_view(before), rest0) == after(
            a,
            resume(stack_view(before.drop_last().push(g)), rest0.skip(a as int)),
        ),
{
    let below = before.drop_last();
    let s1 = below.push(g);
    lemma_stack_push(below, before.last());
    assert(below.push(before.last()) =~= before);
    lemma_stack_push(below, g);
    assert forall|i: int| 0 <= i < s1.len() implies wf_frame(#[trigger] s1[i]) by {
        if i < below.len() {
            assert(s1[i] == before[i]);
        }
    }
    assert forall|i: int| 0 <= i < s1.len() - 1 implies container(#[trigger] s1[i]) by {
        assert(s1[i] == before[i]);
    }
    let sv = stack_view(before);
    assert(sv =~= stack_view(below).push(frame_view(before.last())));
    assert(with_top(sv, frame_view(before.last())) =~= sv);
    lemma_replace_top(sv, frame_view(before.last()), frame_view(g), rest0, a);
    assert(with_top(sv, frame_view(g)) =~= stack_view(s1));
}

/// An enum's discriminant selects the variant whose fields are read next.
proof fn lemma_variant_step(s: Schema, rest: Seq<u8>, i: nat)
    requires
        s is Enum,
        process_step(rest, PartialValue::Length, false).result is Ok,
        first_variant(
            s->variants@,
            (int_of(process_step(rest, PartialValue::Length, false).result->Ok_0) as usize) as i64,
        ) == Some(i),
        i < s->variants@.len(),
    ensures
        ({
            let st = process_step(rest, PartialValue::Length, false);
            let disc = (int_of(st.result->Ok_0) as usize) as i64;
            finish(FrameView::Variant(s), rest) == after(
                st.advance,
                finish(
                    FrameView::Fields(s->variants@[i as int].fields@, 0, seq![], Some(disc)),
                    rest.skip(st.advance as int),
                ),
            )
        }),
{
    let st = process_step(rest, PartialValue::Length, false);
    let fs = s->variants@[i as int].fields@;
    assert(tail(fs, 0) =~= fs);
    match pdec_fields(fs, rest.skip(st.advance as int)) {
        Ok((xs, m)) => {
            assert(seq![] + xs =~= xs);
        },
        Err(_) => {},
    }
}

/// Replacing the top by `g` after `a` more bytes, then pushing a child frame
/// above it, keeps the stack one the walk can be in, with less work.
proof fn lemma_replaced_pushed<'s>(before: Seq<Frame<'s>>, g: Frame<'s>, c: Frame<'s>, a: nat, rest0: Seq<u8>)
    requires
        before.len() >= 1,
        wf_stack(before),
        a <= rest0.len(),
        finish(frame_view(before.last()), rest0) == after(a, finish(frame_view(g), rest0.skip(a as int))),
        finish(frame_view(g), rest0.skip(a as int)) == (match finish(frame_view(c), rest0.skip(a as int)) {
            Err(x) => Err(x),
            Ok((v, k)) => after(k, finish(deliver(frame_view(g), v), rest0.skip(a as int).skip(k as int))),
        }),
        wf_frame(g),
        container(g),
        wf_frame(c),
        !awaiting(c),
        fw(g) + fw(c) < fw(before.last()),
    ensures
        wf_stack(before.drop_last().push(g).push(c)),
        ws(before.drop_last().push(g).push(c)) < ws(before),
        resume(stack_view(before), rest0) == after(
            a,
            resume(stack_view(before.drop_last().push(g).push(c)), rest0.skip(a as int)),
        ),
{
    let below = before.drop_last();
    let s1 = below.push(g);
    let s2 = s1.push(c);
    lemma_stack_push(below, before.last());
    assert(below.push(before.last()) =~= before);
    lemma_stack_push(below, g);
    lemma_stack_push(s1, c);
    assert forall|i: int| 0 <= i < s2.len() implies wf_frame(#[trigger] s2[i]) by {
        if i < below.len() {
            assert(s2[i] == before[i]);
        }
    }
    assert forall|i: int| 0 <= i < s2.len() - 1 implies container(#[trigger] s2[i]) by {
        if i < below.len() {
            assert(s2[i] == before[i]);
        }
    }
    let sv = stack_view(before);
    assert(sv =~= stack_view(below).push(frame_view(before.last())));
    assert(with_top(sv, frame_view(before.last())) =~= sv);
    lemma_replace_top(sv, frame_view(before.last()), frame_view(g), rest0, a);
    lemma_push_child(sv, frame_view(g), frame_view(g), frame_view(c), rest0.skip(a as int));
    assert(with_top(sv, frame_view(g)).push(frame_view(c)) =~= stack_view(s2));
}

/// Reading the length of a sequence starts on its items.
proof fn lemma_length_read(s: Schema, f: FrameView, g: FrameView, rest: Seq<u8>)
    requires
        process_step(rest, PartialValue::Length, false).result is Ok,
        ({
            let n = int_of(process_step(rest, PartialValue::Length, false).result->Ok_0) as nat;
            ||| (s matches Schema::List(e) && f == FrameView::List(s, *e, None, seq![], f->List_4, false)
                && g == FrameView::List(s, *e, Some(n), seq![], f->List_4, false))
            ||| (s matches Schema::Distinct(e) && f == FrameView::List(s, *e, None, seq![], f->List_4, true)
                && g == FrameView::List(s, *e, Some(n), seq![], f->List_4, true))
            ||| (s matches Schema::KeyValue(_, v) && f == FrameView::Entries(s, *v, None, None, seq![], f->Entries_5)
                && g == FrameView::Entries(s, *v, Some(n), None, seq![], f->Entries_5))
        }),
    ensures
        ({
            let st = process_step(rest, PartialValue::Length, false);
            finish(f, rest) == after(st.advance, finish(g, rest.skip(st.advance as int)))
        }),
{
    let st = process_step(rest, PartialValue::Length, false);
    let n = int_of(st.result->Ok_0) as nat;
    match s {
        Schema::List(e) | Schema::Distinct(e) => match pdec_items(*e, f->List_4, n, rest.skip(st.advance as int)) {
            Ok((vs, m)) => {
                assert(seq![] + vs =~= vs);
            },
            Err(_) => {},
        },
        Schema::KeyValue(_, _) => match pdec_entries(s, f->Entries_5, n, rest.skip(st.advance as int)) {
            Ok((es, m)) => {
                assert(seq![] + es =~= es);
            },
            Err(_) => {},
        },
        _ => {},
    }
}

/// A map entry's key is read first; its value follows it.
proof fn lemma_entries_key_step(s: Schema, r: nat, dv: Seq<(ValueView, ValueView)>, var: bool, rest: Seq<u8>)
    requires
        s is KeyValue,
        r >= 1,
    ensures
        ({
            let ks = *s->KeyValue_0;
            let vs = *s->KeyValue_1;
            finish(FrameView::Entries(s, vs, Some(r), None, dv, var), rest) == (match finish(
                start_view(ks, false),
                rest,
            ) {
                Err(x) => Err(x),
                Ok((k, a)) => after(
                    a,
                    finish(
                        deliver(FrameView::Entries(s, vs, Some((r - 1) as nat), None, dv, var), k),
                        rest.skip(a as int),
                    ),
                ),
            })
        }),
{
    let ks = *s->KeyValue_0;
    let vs = *s->KeyValue_1;
    lemma_start_view(ks, false, rest);
    lemma_pdec_bound(ks, false, rest);
    match pdec(ks, false, rest) {
        Err(_) => {},
        Ok((k, a)) => {
            lemma_pdec_bound(vs, var, rest.skip(a as int));
            match pdec(vs, var, rest.skip(a as int)) {
                Err(_) => {},
                Ok((v, b)) => {
                    assert(rest.skip(a as int).skip(b as int) =~= rest.skip((a + b) as int));
                    match pdec_entries(s, var, (r - 1) as nat, rest.skip((a + b) as int)) {
                        Err(_) => {},
                        Ok((es, m)) => {
                            assert(dv + (seq![(k, v)] + es) =~= dv + seq![(k, v)] + es);
                        },
                    }
                },
            }
        },
    }
}

/// A map entry's value is read after its key, then the entries after it.
proof fn lemma_entries_value_step(
    s: Schema,
    r: nat,
    k: ValueView,
    dv: Seq<(ValueView, ValueView)>,
    var: bool,
    rest: Seq<u8>,
)
    requires
        s is KeyValue,
    ensures
        ({
            let vs = *s->KeyValue_1;
            finish(FrameView::Entries(s, vs, Some(r), Some(k), dv, var), rest) == (match finish(
                start_view(vs, var),
                rest,
            ) {
                Err(x) => Err(x),
                Ok((v, b)) => after(
                    b,
                    finish(deliver(FrameView::Entries(s, vs, Some(r), Some(k), dv, var), v), rest.skip(b as int)),
                ),
            })
        }),
{
    let vs = *s->KeyValue_1;
    lemma_start_view(vs, var, rest);
    match pdec(vs, var, rest) {
        Err(_) => {},
        Ok((v, b)) => match pdec_entries(s, var, r, rest.skip(b as int)) {
            Err(_) => {},
            Ok((es, m)) => {
                assert(dv + seq![(k, v)] + es =~= dv.push((k, v)) + es);
            },
        },
    }
}

/// Bytes taken one after the other add up.
proof fn lemma_after_after(a: nat, b: nat, r: Read)
    ensures
        after(a, after(b, r)) == after(a + b, r),
{
}

/// Input that goes on after the first `k` bytes goes on after what is left.
proof fn lemma_skip_append(r: Seq<u8>, m: Seq<u8>, k: nat)
    requires
        k <= r.len(),
    ensures
        (r + m).skip(k as int) == r.skip(k as int) + m,
{
    assert((r + m).skip(k as int) =~= r.skip(k as int) + m);
}

impl<'s> DeserializeIter<'s> {
    /// Reads a scalar or a unit.
    #[verifier::spinoff_prover]
    #[verifier::rlimit(60)]
    fn step_leaf<'i>(&mut self, cursor: &mut InputCursor<'i>, schema: &'s Schema, variable: bool) -> (r: Result<(), StepErr>)
        requires
            wf_stack(old(self).stack@.push(Frame::Leaf { schema, variable })),
        ensures
            stepped(old(self).stack@.push(Frame::Leaf { schema, variable }), *old(cursor), *final(self), *final(cursor), r),
    {
        let ghost top = Frame::Leaf { schema, variable };
        let ghost before = self.stack@.push(top);
        let ghost below = self.stack@;
        let ghost c0 = *cursor;
        proof {
            lemma_stack_push(below, top);
            lemma_top_fails(stack_view(before), c0.rest());
            use_type_invariant(&*cursor);
            cursor.lemma_rest_len();
        }
        if let Schema::Unit = schema {
            self.hand_up(Value::Unit, Ghost(top));
            proof {
                lemma_completed(before, ValueView::Unit, 0, c0.rest(), self.stack@, self.result);
                assert(c0.rest().skip(0) =~= c0.rest());
                assert forall|m: Seq<u8>| #[trigger] moved_on(before, c0, *self, *cursor, m) by {
                    lemma_skip_append(c0.rest(), m, 0);
                    assert(c0.rest().skip(0) =~= c0.rest());
                    lemma_completed(before, ValueView::Unit, 0, c0.rest() + m, self.stack@, self.result);
                }
            }
            return Ok(());
        }
        let req = request_for(schema, variable);
        match owned_processor(cursor, req) {
            Ok(p) => {
                let ghost st = process_step(c0.rest(), req, false);
                proof {
                    use_type_invariant(&*cursor);
                    cursor.lemma_rest_len();
                    lemma_cursor_moved(c0, *cursor, st.advance);
                }
                let v = leaf_value(schema, variable, p);
                self.hand_up(v, Ghost(top));
                proof {
                    assert(finish(frame_view(top), c0.rest()) == Ok::<(ValueView, nat), StepErr>((v@, st.advance)));
                    lemma_completed(before, v@, st.advance, c0.rest(), self.stack@, self.result);
                    assert forall|m: Seq<u8>| #[trigger] moved_on(before, c0, *self, *cursor, m) by {
                        lemma_pdec_extend(*schema, variable, c0.rest(), m);
                        lemma_skip_append(c0.rest(), m, st.advance);
                        lemma_completed(before, v@, st.advance, c0.rest() + m, self.stack@, self.result);
                    }
                }
                Ok(())
            },
            Err(e) => {
                proof {
                    use_type_invariant(&*cursor);
                    cursor.lemma_rest_len();
                    lemma_ran_out_in_place(c0.rest(), req, false);
                }
                self.stack.push(Frame::Leaf { schema, variable });
                Err(to_step_err(e))
            },
        }
    }

    /// Reads the next field of a struct or a variant, or finishes it.
    #[verifier::spinoff_prover]
    #[verifier::rlimit(60)]
    fn step_fields<'i>(
        &mut self,
        cursor: &mut InputCursor<'i>,
        fields: &'s Vec<FieldSchema>,
        index: usize,
        done: Vec<Field>,
        discriminant: Option<i64>,
    ) -> (r: Result<(), StepErr>)
        requires
            wf_stack(old(self).stack@.push(Frame::Fields { fields, index, done, discriminant })),
        ensures
            stepped(
                old(self).stack@.push(Frame::Fields { fields, index, done, discriminant }),
                *old(cursor),
                *final(self),
                *final(cursor),
                r,
            ),
    {
        let ghost top = Frame::Fields { fields, index, done, discriminant };
        let ghost before = self.stack@.push(top);
        let ghost c0 = *cursor;
        proof {
            lemma_stack_push(self.stack@, top);
            lemma_top_fails(stack_view(before), c0.rest());
            use_type_invariant(&*cursor);
            cursor.lemma_rest_len();
            assert(wf_frame(before[before.len() - 1]));
        }
        if index < fields.len() {
            let field = &fields[index];
            proof {
                lemma_field_part(fields@, index as int);
                lemma_fields_step(fields@, index as int, fields_view(done@), discriminant, c0.rest());
                lemma_start_view(fields@[index as int].schema, fields@[index as int].variable, c0.rest());
            }
            let child = new_frame(&field.schema, field.variable);
            let g = Frame::Fields { fields, index: index + 1, done, discriminant };
            proof {
                lemma_pushed(before, g, child, c0.rest());
            }
            self.stack.push(g);
            self.stack.push(child);
            proof {
                assert(c0.rest().skip(0) =~= c0.rest());
                assert forall|m: Seq<u8>| #[trigger] moved_on(before, c0, *self, *cursor, m) by {
                    let r2 = c0.rest() + m;
                    lemma_fields_step(fields@, index as int, fields_view(done@), discriminant, r2);
                    lemma_start_view(fields@[index as int].schema, fields@[index as int].variable, r2);
                    lemma_pushed(before, g, child, r2);
                }
            }
            Ok(())
        } else {
            let ghost dv = fields_view(done@);
            let v = match discriminant {
                Some(d) => Value::Enum { discriminant: d, fields: done },
                None => Value::Struct(done),
            };
            proof {
                assert(tail(fields@, index as int).len() == 0);
                assert(dv + seq![] =~= dv);
            }
            self.hand_up(v, Ghost(top));
            proof {
                lemma_completed(before, v@, 0, c0.rest(), self.stack@, self.result);
                assert(c0.rest().skip(0) =~= c0.rest());
                assert forall|m: Seq<u8>| #[trigger] moved_on(before, c0, *self, *cursor, m) by {
                    lemma_skip_append(c0.rest(), m, 0);
                    assert(c0.rest().skip(0) =~= c0.rest());
                    lemma_completed(before, v@, 0, c0.rest() + m, self.stack@, self.result);
                }
            }
            Ok(())
        }
    }

    /// Reads an enum's discriminant and goes on with its variant's fields.
    #[verifier::spinoff_prover]
    #[verifier::rlimit(60)]
    fn step_variant<'i>(&mut self, cursor: &mut InputCursor<'i>, schema: &'s Schema) -> (r: Result<(), StepErr>)
        requires
            wf_stack(old(self).stack@.push(Frame::Variant { schema })),
        ensures
            stepped(old(self).stack@.push(Frame::Variant { schema }), *old(cursor), *final(self), *final(cursor), r),
    {
        let ghost top = Frame::Variant { schema };
        let ghost before = self.stack@.push(top);
        let ghost c0 = *cursor;
        proof {
            lemma_stack_push(self.stack@, top);
            lemma_top_fails(stack_view(before), c0.rest());
            use_type_invariant(&*cursor);
            cursor.lemma_rest_len();
            assert(wf_frame(before[before.len() - 1]));
        }
        let variants = match schema {
            Schema::Enum { variants, .. } => variants,
            _ => {
                self.stack.push(Frame::Variant { schema });
                return Err(StepErr::StaticBorrow);
            },
        };
        let ghost st = process_step(c0.rest(), PartialValue::Length, false);
        let n = match read_length(cursor) {
            Ok(n) => n,
            Err(e) => {
                self.stack.push(Frame::Variant { schema });
                return Err(e);
            },
        };
        proof {
            use_type_invariant(&*cursor);
            cursor.lemma_rest_len();
            lemma_cursor_moved(c0, *cursor, st.advance);
        }
        let disc = n as i64;
        let mut i: usize = 0;
        while i < variants.len() && variants[i].discriminant != disc
            invariant
                i <= variants@.len(),
                forall|j: int| 0 <= j < i ==> #[trigger] variants@[j].discriminant != disc,
            decreases variants@.len() - i,
        {
            i = i + 1;
        }
        proof {
            lemma_first_variant(variants@, disc, i as int);
        }
        if i == variants.len() {
            self.stack.push(Frame::Variant { schema });
            return Err(StepErr::InvalidVariant(disc));
        }
        let g = Frame::Fields { fields: &variants[i].fields, index: 0, done: Vec::new(), discriminant: Some(disc) };
        proof {
            lemma_variant_step(*schema, c0.rest(), i as nat);
            lemma_variant_part(variants@, i as int);
            assert(tail(variants@[i as int].fields@, 0) =~= variants@[i as int].fields@);
            lemma_replaced(before, g, st.advance, c0.rest());
        }
        self.stack.push(g);
        proof {
            assert forall|m: Seq<u8>| #[trigger] moved_on(before, c0, *self, *cursor, m) by {
                let r2 = c0.rest() + m;
                lemma_step_extend(c0.rest(), m, PartialValue::Length, false);
                lemma_skip_append(c0.rest(), m, st.advance);
                lemma_variant_step(*schema, r2, i as nat);
                lemma_replaced(before, g, st.advance, r2);
            }
        }
        Ok(())
    }

    /// Reads the next item of an array, or finishes it.
    #[verifier::spinoff_prover]
    #[verifier::rlimit(60)]
    fn step_array<'i>(
        &mut self,
        cursor: &mut InputCursor<'i>,
        item: &'s Schema,
        remaining: usize,
        done: Vec<Value>,
        variable: bool,
    ) -> (r: Result<(), StepErr>)
        requires
            wf_stack(old(self).stack@.push(Frame::Array { item, remaining, done, variable })),
        ensures
            stepped(
                old(self).stack@.push(Frame::Array { item, remaining, done, variable }),
                *old(cursor),
                *final(self),
                *final(cursor),
                r,
            ),
    {
        let ghost top = Frame::Array { item, remaining, done, variable };
        let ghost before = self.stack@.push(top);
        let ghost c0 = *cursor;
        proof {
            lemma_stack_push(self.stack@, top);
            lemma_top_fails(stack_view(before), c0.rest());
            use_type_invariant(&*cursor);
            cursor.lemma_rest_len();
            assert(wf_frame(before[before.len() - 1]));
            assert(c0.rest().skip(0) =~= c0.rest());
        }
        if remaining > 0 {
            let child = new_frame(item, variable);
            let g = Frame::Array { item, remaining: remaining - 1, done, variable };
            proof {
                let dv = items_view(done@);
                lemma_items_step(*item, variable, remaining as nat, dv, |vs: Seq<ValueView>| ValueView::Array(vs), c0.rest());
                let c = sw(*item) + 1;
                assert((remaining as nat) * c == ((remaining - 1) as nat) * c + c) by (nonlinear_arith)
                    requires
                        remaining >= 1,
                ;
                lemma_pushed(before, g, child, c0.rest());
            }
            self.stack.push(g);
            self.stack.push(child);
            proof {
                assert forall|m: Seq<u8>| #[trigger] moved_on(before, c0, *self, *cursor, m) by {
                    let r2 = c0.rest() + m;
                    let dv = items_view(done@);
                    lemma_items_step(*item, variable, remaining as nat, dv, |vs: Seq<ValueView>| ValueView::Array(vs), r2);
                    lemma_pushed(before, g, child, r2);
                }
            }
            Ok(())
        } else {
            let ghost dv = items_view(done@);
            let v = Value::Array(done);
            proof {
                assert(dv + seq![] =~= dv);
            }
            self.hand_up(v, Ghost(top));
            proof {
                lemma_completed(before, v@, 0, c0.rest(), self.stack@, self.result);
                assert forall|m: Seq<u8>| #[trigger] moved_on(before, c0, *self, *cursor, m) by {
                    lemma_skip_append(c0.rest(), m, 0);
                    assert(c0.rest().skip(0) =~= c0.rest());
                    lemma_completed(before, v@, 0, c0.rest() + m, self.stack@, self.result);
                }
            }
            Ok(())
        }
    }

    /// Reads a list's length, its next item, or finishes it.
    #[verifier::spinoff_prover]
    #[verifier::rlimit(60)]
    fn step_list<'i>(
        &mut self,
        cursor: &mut InputCursor<'i>,
        schema: &'s Schema,
        item: &'s Schema,
        remaining: Option<usize>,
        done: Vec<Value>,
        variable: bool,
        set: bool,
    ) -> (r: Result<(), StepErr>)
        requires
            wf_stack(old(self).stack@.push(Frame::List { schema, item, remaining, done, variable, set })),
        ensures
            stepped(
                old(self).stack@.push(Frame::List { schema, item, remaining, done, variable, set }),
                *old(cursor),
                *final(self),
                *final(cursor),
                r,
            ),
    {
        let ghost top = Frame::List { schema, item, remaining, done, variable, set };
        let ghost before = self.stack@.push(top);
        let ghost c0 = *cursor;
        proof {
            lemma_stack_push(self.stack@, top);
            lemma_top_fails(stack_view(before), c0.rest());
            use_type_invariant(&*cursor);
            cursor.lemma_rest_len();
            assert(wf_frame(before[before.len() - 1]));
            assert(c0.rest().skip(0) =~= c0.rest());
        }
        match remaining {
            None => {
                let ghost st = process_step(c0.rest(), PartialValue::Length, false);
                let n = match read_length(cursor) {
                    Ok(n) => n,
                    Err(e) => {
                        self.stack.push(Frame::List { schema, item, remaining, done, variable, set });
                        return Err(e);
                    },
                };
                proof {
                    use_type_invariant(&*cursor);
                    cursor.lemma_rest_len();
                    lemma_cursor_moved(c0, *cursor, st.advance);
                }
                let g = Frame::List { schema, item, remaining: Some(n), done, variable, set };
                proof {
                    assert(items_view(done@) =~= seq![]);
                    lemma_length_read(*schema, frame_view(top), frame_view(g), c0.rest());
                    let c = sw(*item) + 1;
                    assert((n as nat) * c <= (usize::MAX as nat) * c) by (nonlinear_arith)
                        requires
                            n <= usize::MAX,
                    ;
                    lemma_replaced(before, g, st.advance, c0.rest());
                }
                self.stack.push(g);
                proof {
                    assert forall|m: Seq<u8>| #[trigger] moved_on(before, c0, *self, *cursor, m) by {
                        let r2 = c0.rest() + m;
                        lemma_step_extend(c0.rest(), m, PartialValue::Length, false);
                        lemma_skip_append(c0.rest(), m, st.advance);
                        lemma_length_read(*schema, frame_view(top), frame_view(g), r2);
                        lemma_replaced(before, g, st.advance, r2);
                    }
                }
                Ok(())
            },
            Some(r) => if r > 0 {
                let child = new_frame(item, variable);
                let g = Frame::List { schema, item, remaining: Some(r - 1), done, variable, set };
                proof {
                    let dv = items_view(done@);
                    lemma_items_step(*item, variable, r as nat, dv, |vs: Seq<ValueView>| list_value(set, vs), c0.rest());
                    let c = sw(*item) + 1;
                    assert((r as nat) * c == ((r - 1) as nat) * c + c) by (nonlinear_arith)
                        requires
                            r >= 1,
                    ;
                    lemma_pushed(before, g, child, c0.rest());
                }
                self.stack.push(g);
                self.stack.push(child);
                proof {
                    assert forall|m: Seq<u8>| #[trigger] moved_on(before, c0, *self, *cursor, m) by {
                        let r2 = c0.rest() + m;
                        let dv = items_view(done@);
                        lemma_items_step(*item, variable, r as nat, dv, |vs: Seq<ValueView>| list_value(set, vs), r2);
                        lemma_pushed(before, g, child, r2);
                    }
                }
                Ok(())
            } else {
                let ghost dv = items_view(done@);
                let v = if set {
                    Value::Distinct(done)
                } else {
                    Value::List(done)
                };
                proof {
                    assert(dv + seq![] =~= dv);
                }
                self.hand_up(v, Ghost(top));
                proof {
                    lemma_completed(before, v@, 0, c0.rest(), self.stack@, self.result);
                    assert forall|m: Seq<u8>| #[trigger] moved_on(before, c0, *self, *cursor, m) by {
                        lemma_skip_append(c0.rest(), m, 0);
                        assert(c0.rest().skip(0) =~= c0.rest());
                        lemma_completed(before, v@, 0, c0.rest() + m, self.stack@, self.result);
                    }
                }
                Ok(())
            },
        }
    }

    /// Reads a smart pointer's value, or finishes it.
    #[verifier::spinoff_prover]
    #[verifier::rlimit(60)]
    fn step_ptr<'i>(
        &mut self,
        cursor: &mut InputCursor<'i>,
        inner: &'s Schema,
        variable: bool,
        started: bool,
        got: Option<Value>,
    ) -> (r: Result<(), StepErr>)
        requires
            wf_stack(old(self).stack@.push(Frame::Ptr { inner, variable, started, got })),
        ensures
            stepped(
                old(self).stack@.push(Frame::Ptr { inner, variable, started, got }),
                *old(cursor),
                *final(self),
                *final(cursor),
                r,
            ),
    {
        let ghost top = Frame::Ptr { inner, variable, started, got };
        let ghost before = self.stack@.push(top);
        let ghost c0 = *cursor;
        proof {
            lemma_stack_push(self.stack@, top);
            lemma_top_fails(stack_view(before), c0.rest());
            use_type_invariant(&*cursor);
            cursor.lemma_rest_len();
            assert(wf_frame(before[before.len() - 1]));
            assert(c0.rest().skip(0) =~= c0.rest());
        }
        match got {
            Some(v) => {
                let p = Value::Pointer(Some(Box::new(v)));
                self.hand_up(p, Ghost(top));
                proof {
                    lemma_completed(before, p@, 0, c0.rest(), self.stack@, self.result);
                    assert forall|m: Seq<u8>| #[trigger] moved_on(before, c0, *self, *cursor, m) by {
                        lemma_skip_append(c0.rest(), m, 0);
                        assert(c0.rest().skip(0) =~= c0.rest());
                        lemma_completed(before, p@, 0, c0.rest() + m, self.stack@, self.result);
                    }
                }
                Ok(())
            },
            None => {
                let child = new_frame(inner, variable);
                let g = Frame::Ptr { inner, variable, started: true, got: None };
                proof {
                    lemma_start_view(*inner, variable, c0.rest());
                    lemma_pushed(before, g, child, c0.rest());
                }
                self.stack.push(g);
                self.stack.push(child);
                proof {
                    assert forall|m: Seq<u8>| #[trigger] moved_on(before, c0, *self, *cursor, m) by {
                        let r2 = c0.rest() + m;
                        lemma_start_view(*inner, variable, r2);
                        lemma_pushed(before, g, child, r2);
                    }
                }
                Ok(())
            },
        }
    }

    /// Reads a map's length, the next key or value, or finishes it.
    #[verifier::spinoff_prover]
    #[verifier::rlimit(60)]
    fn step_entries<'i>(
        &mut self,
        cursor: &mut InputCursor<'i>,
        schema: &'s Schema,
        key: &'s Schema,
        value: &'s Schema,
        remaining: Option<usize>,
        entry: EntryState,
        done: Vec<(Value, Value)>,
        variable: bool,
    ) -> (r: Result<(), StepErr>)
        requires
            wf_stack(old(self).stack@.push(Frame::Entries { schema, key, value, remaining, entry, done, variable })),
        ensures
            stepped(
                old(self).stack@.push(Frame::Entries { schema, key, value, remaining, entry, done, variable }),
                *old(cursor),
                *final(self),
                *final(cursor),
                r,
            ),
    {
        let ghost top = Frame::Entries { schema, key, value, remaining, entry, done, variable };
        let ghost before = self.stack@.push(top);
        let ghost c0 = *cursor;
        proof {
            lemma_stack_push(self.stack@, top);
            lemma_top_fails(stack_view(before), c0.rest());
            use_type_invariant(&*cursor);
            cursor.lemma_rest_len();
            assert(wf_frame(before[before.len() - 1]));
            assert(!awaiting(before.last()));
            assert(c0.rest().skip(0) =~= c0.rest());
        }
        let ghost c2 = sw(*key) + sw(*value) + 2;
        match remaining {
            None => {
                let ghost st = process_step(c0.rest(), PartialValue::Length, false);
                let n = match read_length(cursor) {
                    Ok(n) => n,
                    Err(e) => {
                        self.stack.push(Frame::Entries { schema, key, value, remaining, entry, done, variable });
                        return Err(e);
                    },
                };
                proof {
                    use_type_invariant(&*cursor);
                    cursor.lemma_rest_len();
                    lemma_cursor_moved(c0, *cursor, st.advance);
                }
                let g = Frame::Entries {
                    schema,
                    key,
                    value,
                    remaining: Some(n),
                    entry: EntryState::Idle,
                    done,
                    variable,
                };
                proof {
                    assert(entries_view(done@) =~= seq![]);
                    lemma_length_read(*schema, frame_view(top), frame_view(g), c0.rest());
                    assert((n as nat) * c2 <= (usize::MAX as nat) * c2) by (nonlinear_arith)
                        requires
                            n <= usize::MAX,
                    ;
                    lemma_replaced(before, g, st.advance, c0.rest());
                }
                self.stack.push(g);
                proof {
                    assert forall|m: Seq<u8>| #[trigger] moved_on(before, c0, *self, *cursor, m) by {
                        let r2 = c0.rest() + m;
                        lemma_step_extend(c0.rest(), m, PartialValue::Length, false);
                        lemma_skip_append(c0.rest(), m, st.advance);
                        lemma_length_read(*schema, frame_view(top), frame_view(g), r2);
                        lemma_replaced(before, g, st.advance, r2);
                    }
                }
                Ok(())
            },
            Some(r) => match entry {
                EntryState::HaveKey(k) => {
                    let child = new_frame(value, variable);
                    let ghost kv = k@;
                    let g = Frame::Entries {
                        schema,
                        key,
                        value,
                        remaining: Some(r),
                        entry: EntryState::ValueStarted(k),
                        done,
                        variable,
                    };
                    proof {
                        lemma_entries_value_step(*schema, r as nat, kv, entries_view(done@), variable, c0.rest());
                        lemma_pushed(before, g, child, c0.rest());
                    }
                    self.stack.push(g);
                    self.stack.push(child);
                    proof {
                        assert forall|m: Seq<u8>| #[trigger] moved_on(before, c0, *self, *cursor, m) by {
                            let r2 = c0.rest() + m;
                            lemma_entries_value_step(*schema, r as nat, kv, entries_view(done@), variable, r2);
                            lemma_pushed(before, g, child, r2);
                        }
                    }
                    Ok(())
                },
                EntryState::Idle => if r > 0 {
                    let child = new_frame(key, false);
                    let g = Frame::Entries {
                        schema,
                        key,
                        value,
                        remaining: Some(r - 1),
                        entry: EntryState::KeyStarted,
                        done,
                        variable,
                    };
                    proof {
                        lemma_entries_key_step(*schema, r as nat, entries_view(done@), variable, c0.rest());
                        assert((r as nat) * c2 == ((r - 1) as nat) * c2 + c2) by (nonlinear_arith)
                            requires
                                r >= 1,
                        ;
                        lemma_pushed(before, g, child, c0.rest());
                    }
                    self.stack.push(g);
                    self.stack.push(child);
                    proof {
                        assert forall|m: Seq<u8>| #[trigger] moved_on(before, c0, *self, *cursor, m) by {
                            let r2 = c0.rest() + m;
                            lemma_entries_key_step(*schema, r as nat, entries_view(done@), variable, r2);
                            lemma_pushed(before, g, child, r2);
                        }
                    }
                    Ok(())
                } else {
                    let ghost dv = entries_view(done@);
                    let v = Value::KeyValue(done);
                    proof {
                        assert(dv + seq![] =~= dv);
                    }
                    self.hand_up(v, Ghost(top));
                    proof {
                        lemma_completed(before, v@, 0, c0.rest(), self.stack@, self.result);
                        assert forall|m: Seq<u8>| #[trigger] moved_on(before, c0, *self, *cursor, m) by {
                            lemma_skip_append(c0.rest(), m, 0);
                            assert(c0.rest().skip(0) =~= c0.rest());
                            lemma_completed(before, v@, 0, c0.rest() + m, self.stack@, self.result);
                        }
                    }
                    Ok(())
                },
                EntryState::KeyStarted => {
                    self.stack.push(Frame::Entries { schema, key, value, remaining, entry: EntryState::KeyStarted, done, variable });
                    Err(StepErr::StaticBorrow)
                },
                EntryState::ValueStarted(k) => {
                    self.stack.push(Frame::Entries { schema, key, value, remaining, entry: EntryState::ValueStarted(k), done, variable });
                    Err(StepErr::StaticBorrow)
                },
            },
        }
    }

    /// Reads an optional value's tag, its value, or finishes it.
    #[verifier::spinoff_prover]
    #[verifier::rlimit(100)]
    fn step_opt<'i>(
        &mut self,
        cursor: &mut InputCursor<'i>,
        schema: &'s Schema,
        inner: &'s Schema,
        variable: bool,
        read: bool,
        got: Option<Value>,
    ) -> (r: Result<(), StepErr>)
        requires
            wf_stack(old(self).stack@.push(Frame::Opt { schema, inner, variable, read, got })),
        ensures
            stepped(
                old(self).stack@.push(Frame::Opt { schema, inner, variable, read, got }),
                *old(cursor),
                *final(self),
                *final(cursor),
                r,
            ),
    {
        let ghost top = Frame::Opt { schema, inner, variable, read, got };
        let ghost before = self.stack@.push(top);
        let ghost c0 = *cursor;
        proof {
            lemma_stack_push(self.stack@, top);
            lemma_top_fails(stack_view(before), c0.rest());
            use_type_invariant(&*cursor);
            cursor.lemma_rest_len();
            assert(wf_frame(before[before.len() - 1]));
            assert(!awaiting(before.last()));
            assert(c0.rest().skip(0) =~= c0.rest());
        }
        if read {
            match got {
                Some(v) => {
                    let o = Value::Optional(Some(Box::new(v)));
                    self.hand_up(o, Ghost(top));
                    proof {
                        lemma_completed(before, o@, 0, c0.rest(), self.stack@, self.result);
                        assert forall|m: Seq<u8>| #[trigger] moved_on(before, c0, *self, *cursor, m) by {
                            lemma_skip_append(c0.rest(), m, 0);
                            assert(c0.rest().skip(0) =~= c0.rest());
                            lemma_completed(before, o@, 0, c0.rest() + m, self.stack@, self.result);
                        }
                    }
                    Ok(())
                },
                None => {
                    self.stack.push(Frame::Opt { schema, inner, variable, read, got: None });
                    Err(StepErr::StaticBorrow)
                },
            }
        } else {
            let ghost st = process_step(c0.rest(), PartialValue::Length, false);
            let n = match read_length(cursor) {
                Ok(n) => n,
                Err(e) => {
                    self.stack.push(Frame::Opt { schema, inner, variable, read, got });
                    return Err(e);
                },
            };
            proof {
                use_type_invariant(&*cursor);
                cursor.lemma_rest_len();
                lemma_cursor_moved(c0, *cursor, st.advance);
            }
            if n == 0 {
                let o = Value::Optional(None);
                self.hand_up(o, Ghost(top));
                proof {
                    lemma_completed(before, o@, st.advance, c0.rest(), self.stack@, self.result);
                    assert forall|m: Seq<u8>| #[trigger] moved_on(before, c0, *self, *cursor, m) by {
                        lemma_step_extend(c0.rest(), m, PartialValue::Length, false);
                        lemma_skip_append(c0.rest(), m, st.advance);
                        lemma_completed(before, o@, st.advance, c0.rest() + m, self.stack@, self.result);
                    }
                }
                Ok(())
            } else if n == 1 {
                let child = new_frame(inner, variable);
                let g = Frame::Opt { schema, inner, variable, read: true, got: None };
                proof {
                    lemma_start_view(*inner, variable, c0.rest().skip(st.advance as int));
                    lemma_replaced_pushed(before, g, child, st.advance, c0.rest());
                }
                self.stack.push(g);
                self.stack.push(child);
                proof {
                    assert forall|m: Seq<u8>| #[trigger] moved_on(before, c0, *self, *cursor, m) by {
                        let r2 = c0.rest() + m;
                        lemma_step_extend(c0.rest(), m, PartialValue::Length, false);
                        lemma_skip_append(c0.rest(), m, st.advance);
                        lemma_start_view(*inner, variable, r2.skip(st.advance as int));
                        lemma_replaced_pushed(before, g, child, st.advance, r2);
                    }
                }
                Ok(())
            } else {
                self.stack.push(Frame::Opt { schema, inner, variable, read, got });
                Err(StepErr::Boolean((n % 256) as u8))
            }
        }
    }

    /// Takes one step of the walk.
    fn step<'i>(&mut self, cursor: &mut InputCursor<'i>) -> (r: Result<(), StepErr>)
        requires
            old(self).wf(),
            old(self).stack@.len() > 0,
        ensures
            stepped(old(self).stack@, *old(cursor), *final(self), *final(cursor), r),
    {
        let ghost before = self.stack@;
        let top = self.stack.pop().unwrap();
        proof {
            assert(before =~= self.stack@.push(top));
        }
        match top {
            Frame::Leaf { schema, variable } => self.step_leaf(cursor, schema, variable),
            Frame::Fields { fields, index, done, discriminant } => self.step_fields(
                cursor,
                fields,
                index,
                done,
                discriminant,
            ),
            Frame::Variant { schema } => self.step_variant(cursor, schema),
            Frame::Array { item, remaining, done, variable } => self.step_array(
                cursor,
                item,
                remaining,
                done,
                variable,
            ),
            Frame::List { schema, item, remaining, done, variable, set } => self.step_list(
                cursor,
                schema,
                item,
                remaining,
                done,
                variable,
                set,
            ),
            Frame::Entries { schema, key, value, remaining, entry, done, variable } => self.step_entries(
                cursor,
                schema,
                key,
                value,
                remaining,
                entry,
                done,
                variable,
            ),
            Frame::Ptr { inner, variable, started, got } => self.step_ptr(
                cursor,
                inner,
                variable,
                started,
                got,
            ),
            Frame::Opt { schema, inner, variable, read, got } => self.step_opt(
                cursor,
                schema,
                inner,
                variable,
                read,
                got,
            ),
        }
    }

    /// Advances the walk until the value is read, reading each part from the
    /// cursor.
    ///
    /// Returns itself, and `true` once the walk is over.
    ///
    /// # Errors
    ///
    /// Returns an error if a part cannot be read. When the input runs out,
    /// the error holds the walk, which can be resumed by calling `next`
    /// again with more data: a part that is not all there is not started,
    /// so the cursor stands where the walk stopped, and the walk resumed on
    /// what is left of the input followed by more bytes reads what one walk
    /// over all of it reads.
    #[verifier::rlimit(50)]
    pub fn next<'i>(self, cursor: &mut InputCursor<'i>) -> (r: Result<(Self, bool), DeserializeIterError<'s>>)
        requires
            self.wf(),
        ensures
            final(cursor).data() == old(cursor).data(),
            old(cursor).pos() <= final(cursor).pos(),
            r matches Ok((it, done)) ==> done && it.wf() && it.finished() && (it.value() matches Some(v)
                && self.outcome(old(cursor).rest()) == Ok::<(ValueView, nat), StepErr>(
                (v@, (final(cursor).pos() - old(cursor).pos()) as nat),
            )),
            r matches Err(e) ==> self.outcome(old(cursor).rest()) == Err::<(ValueView, nat), StepErr>(iter_err(e)),
            r matches Err(DeserializeIterError::EndOfInput { iterator, .. }) ==> iterator.wf() && !iterator.finished(),
            self.finished() ==> (r matches Ok((it, done)) && done && it == self && *final(cursor) == *old(cursor)),
            match r {
                Err(DeserializeIterError::EndOfInput { iterator, .. }) => forall|
                    m: Seq<u8>,
                |
                    after(
                        (final(cursor).pos() - old(cursor).pos()) as nat,
                        #[trigger] iterator.outcome(final(cursor).rest() + m),
                    ) == self.outcome(old(cursor).rest() + m),
                _ => true,
            },
    {
        if self.stack.len() == 0 {
            return Ok((self, true));
        }
        let ghost c0 = *cursor;
        let ghost target = self.outcome(c0.rest());
        let mut it = self;
        proof {
            use_type_invariant(&*cursor);
            cursor.lemma_rest_len();
            assert(c0.rest().skip(0) =~= c0.rest());
        }
        loop
            invariant
                c0 == *old(cursor),
                it.wf(),
                cursor.data() == c0.data(),
                c0.pos() <= cursor.pos(),
                after((cursor.pos() - c0.pos()) as nat, it.outcome(cursor.rest())) == target,
                target == self.outcome(c0.rest()),
                !self.finished(),
                forall|m: Seq<u8>|
                    after((cursor.pos() - c0.pos()) as nat, #[trigger] it.outcome(cursor.rest() + m))
                        == self.outcome(c0.rest() + m),
            decreases ws(it.stack@),
        {
            if it.stack.len() == 0 {
                return Ok((it, true));
            }
            let ghost c1 = *cursor;
            let ghost o1 = it.outcome(c1.rest());
            let ghost prev = it;
            match it.step(cursor) {
                Ok(()) => {
                    proof {
                        let d1 = (c1.pos() - c0.pos()) as nat;
                        let d2 = (cursor.pos() - c1.pos()) as nat;
                        lemma_after_after(d1, d2, it.outcome(cursor.rest()));
                        assert forall|m: Seq<u8>|
                            after((cursor.pos() - c0.pos()) as nat, #[trigger] it.outcome(cursor.rest() + m))
                                == self.outcome(c0.rest() + m) by {
                            assert(moved_on(prev.stack@, c1, it, *cursor, m));
                            assert(after(d1, prev.outcome(c1.rest() + m)) == self.outcome(c0.rest() + m));
                            lemma_after_after(d1, d2, it.outcome(cursor.rest() + m));
                        }
                    }
                },
                Err(e) => {
                    proof {
                        assert forall|m: Seq<u8>| #[trigger] it.outcome(c1.rest() + m) == prev.outcome(c1.rest() + m) by {}
                        if e is EndOfInput {
                            assert(cursor.rest() =~= c1.rest());
                        }
                    }
                    return Err(
                        match e {
                            StepErr::Boolean(b) => DeserializeIterError::Boolean(b),
                            StepErr::StaticBorrow => DeserializeIterError::StaticBorrow,
                            StepErr::Utf8(n) => DeserializeIterError::Utf8(n),
                            StepErr::InvalidVariant(d) => DeserializeIterError::InvalidVariant(d),
                            StepErr::EndOfInput(error) => DeserializeIterError::EndOfInput {
                                error,
                                iterator: it,
                            },
                        },
                    );
                },
            }
        }
    }

    /// Advances the walk until the value is read, and gives the value.
    ///
    /// # Errors
    ///
    /// Returns an error if deserialization fails.
    pub fn complete<'i>(self, cursor: &mut InputCursor<'i>) -> (r: Result<Value, DeserializeIterError<'s>>)
        requires
            self.wf(),
        ensures
            final(cursor).data() == old(cursor).data(),
            r matches Ok(v) ==> self.outcome(old(cursor).rest()) == Ok::<(ValueView, nat), StepErr>(
                (v@, (final(cursor).pos() - old(cursor).pos()) as nat),
            ),
            r matches Err(e) ==> self.outcome(old(cursor).rest()) == Err::<(ValueView, nat), StepErr>(iter_err(e)),
    {
        match self.next(cursor) {
            Ok((it, _)) => match it.into_value() {
                Some(v) => Ok(v),
                None => Err(DeserializeIterError::StaticBorrow),
            },
            Err(e) => Err(e),
        }
    }

    /// Consumes the walk and gives the value read, once the walk is over.
    pub fn into_value(self) -> (r: Option<Value>)
        ensures
            r == self.value(),
    {
        self.result
    }
}

/// Deserialize a value of the given shape from the start of a slice: the
/// value, and how many bytes it took.
///
/// # Errors
///
/// Returns an error if a part cannot be read or the slice ends first.
pub fn from_slice_remainder<'s>(slice: &[u8], schema: &'s Schema) -> (r: Result<(Value, usize), DeserializeIterError<'s>>)
    requires
        walkable(*schema),
    ensures
        match pdec(*schema, false, slice@) {
            Ok((v, n)) => r matches Ok((x, m)) && x@ == v && m == n,
            Err(e) => r matches Err(x) && iter_err(x) == e,
        },
{
    let it = DeserializeIter::new(schema);
    let mut cursor = InputCursor::new(slice);
    proof {
        assert(cursor.rest() =~= slice@);
        assert(it.outcome(cursor.rest()) == pdec(*schema, false, slice@));
    }
    let ghost c0 = cursor;
    match it.complete(&mut cursor) {
        Ok(v) => {
            proof {
                use_type_invariant(&cursor);
                cursor.lemma_rest_len();
            }
            let left = cursor.as_slice().len();
            let n = slice.len() - left;
            Ok((v, n))
        },
        Err(e) => Err(e),
    }
}

/// Deserialize a value of the given shape from a slice.
///
/// # Errors
///
/// Returns an error if a part cannot be read or the slice ends first.
pub fn from_slice<'s>(slice: &[u8], schema: &'s Schema) -> (r: Result<Value, DeserializeIterError<'s>>)
    requires
        walkable(*schema),
    ensures
        match pdec(*schema, false, slice@) {
            Ok((v, _)) => r matches Ok(x) && x@ == v,
            Err(e) => r matches Err(x) && iter_err(x) == e,
        },
{
    match from_slice_remainder(slice, schema) {
        Ok((v, _)) => Ok(v),
        Err(e) => Err(e),
    }
}

} // verus!
