//! Walking a value as the sequence of scalars the big-endian format writes
//! for it.
use crate::value::{Field, Value};
use crate::writer::{pow2, twos, unsigned_bits};
use vstd::prelude::*;
use vstd::utf8::encode_utf8;

verus! {

/// A value returned by [`SerializeIter`].
///
/// Does not care about signed/unsigned values as they serialize the same,
/// and treats all variable-length values as `u128`s for simplicity.
/// Floating-point numbers are carried as their IEEE 754 bits.
#[derive(Debug, Clone, Copy, PartialEq)]
pub enum PeekValue<'a> {
    /// A unit value.
    Unit,
    Bool(bool),
    U8(u8),
    U16(u16),
    U32(u32),
    U64(u64),
    U128(u128),
    /// A variable-length value.
    Variable(u128),
    /// The bits of an `f32`.
    F32(u32),
    /// The bits of an `f64`.
    F64(u64),
    /// Raw bytes.
    Bytes(&'a [u8]),
}

/// What a [`PeekValue`] holds.
pub enum PeekView {
    Unit,
    Bool(bool),
    U8(u8),
    U16(u16),
    U32(u32),
    U64(u64),
    U128(u128),
    Variable(u128),
    F32(u32),
    F64(u64),
    Bytes(Seq<u8>),
}

impl<'a> View for PeekValue<'a> {
    type V = PeekView;

    open spec fn view(&self) -> PeekView {
        match *self {
            PeekValue::Unit => PeekView::Unit,
            PeekValue::Bool(b) => PeekView::Bool(b),
            PeekValue::U8(x) => PeekView::U8(x),
            PeekValue::U16(x) => PeekView::U16(x),
            PeekValue::U32(x) => PeekView::U32(x),
            PeekValue::U64(x) => PeekView::U64(x),
            PeekValue::U128(x) => PeekView::U128(x),
            PeekValue::Variable(x) => PeekView::Variable(x),
            PeekValue::F32(x) => PeekView::F32(x),
            PeekValue::F64(x) => PeekView::F64(x),
            PeekValue::Bytes(b) => PeekView::Bytes(b@),
        }
    }
}

/// An error that can occur during serialization.
#[derive(Debug, Clone, Copy, PartialEq, Eq, Structural)]
pub struct SerializeIterError;

impl SerializeIterError {
    /// Create a new [`SerializeIterError`].
    pub fn new() -> (r: Self)
        ensures
            r == SerializeIterError,
    {
        SerializeIterError
    }
}

/// The scalars a walk gives, up to the point where it fails if it does.
pub struct Flat {
    pub toks: Seq<PeekView>,
    pub error: bool,
}

/// Scalars that do not fail.
pub open spec fn fok(toks: Seq<PeekView>) -> Flat {
    Flat { toks, error: false }
}

/// A failure before any scalar.
pub open spec fn ferr() -> Flat {
    Flat { toks: seq![], error: true }
}

/// `a`, followed by `b` when `a` does not fail.
pub open spec fn fthen(a: Flat, b: Flat) -> Flat {
    if a.error {
        a
    } else {
        Flat { toks: a.toks + b.toks, error: b.error }
    }
}

/// The scalars of a scalar value, in the variable-length form when `var` is
/// set and the value is an integer of more than a byte; `None` for a scalar
/// with no form.
pub open spec fn scalar_toks(v: Value, var: bool) -> Option<Seq<PeekView>> {
    match v {
        Value::Unit => Some(seq![]),
        Value::Bool(b) => Some(seq![PeekView::Bool(b)]),
        Value::U8(x) => Some(seq![PeekView::U8(x)]),
        Value::I8(x) => Some(seq![PeekView::U8(twos(x as int, 8) as u8)]),
        Value::U16(x) => Some(
            seq![if var { PeekView::Variable(x as u128) } else { PeekView::U16(x) }],
        ),
        Value::I16(x) => Some(
            seq![if var { PeekView::Variable(twos(x as int, 16) as u128) } else { PeekView::U16(twos(x as int, 16) as u16) }],
        ),
        Value::U32(x) => Some(
            seq![if var { PeekView::Variable(x as u128) } else { PeekView::U32(x) }],
        ),
        Value::I32(x) => Some(
            seq![if var { PeekView::Variable(twos(x as int, 32) as u128) } else { PeekView::U32(twos(x as int, 32) as u32) }],
        ),
        Value::U64(x) => Some(
            seq![if var { PeekView::Variable(x as u128) } else { PeekView::U64(x) }],
        ),
        Value::I64(x) => Some(
            seq![if var { PeekView::Variable(twos(x as int, 64) as u128) } else { PeekView::U64(twos(x as int, 64) as u64) }],
        ),
        Value::USize(x) => Some(
            seq![if var { PeekView::Variable(x as u128) } else { PeekView::U64(x as u64) }],
        ),
        Value::ISize(x) => Some(
            seq![if var { PeekView::Variable(twos(x as int, 64) as u128) } else { PeekView::U64(twos(x as int, 64) as u64) }],
        ),
        Value::U128(x) => Some(
            seq![if var { PeekView::Variable(x) } else { PeekView::U128(x) }],
        ),
        Value::I128(x) => Some(
            seq![if var { PeekView::Variable(twos(x as int, 128) as u128) } else { PeekView::U128(twos(x as int, 128) as u128) }],
        ),
        Value::F32(x) => Some(seq![PeekView::F32(x)]),
        Value::F64(x) => Some(seq![PeekView::F64(x)]),
        Value::Str(s) => Some(
            seq![PeekView::Variable(encode_utf8(s@).len() as u128), PeekView::Bytes(encode_utf8(s@))],
        ),
        Value::Bytes(b) => Some(seq![PeekView::Variable(b@.len() as u128), PeekView::Bytes(b@)]),
        _ => None,
    }
}

/// The scalars a walk over a value gives, with integers in the
/// variable-length form when `var` is set.
pub open spec fn flat(v: Value, var: bool) -> Flat
    decreases v, 1int,
{
    match v {
        Value::KeyValue(e) => fthen(
            fok(seq![PeekView::Variable(e@.len() as u128)]),
            flat_entries(e@, var),
        ),
        Value::List(items) | Value::Distinct(items) => fthen(
            fok(seq![PeekView::Variable(items@.len() as u128)]),
            flat_items(items@, var),
        ),
        Value::Array(items) => flat_items(items@, var),
        Value::Optional(o) => match o {
            Some(x) => fthen(fok(seq![PeekView::Variable(1)]), flat(*x, var)),
            None => fok(seq![PeekView::Variable(0)]),
        },
        Value::Pointer(o) => match o {
            Some(x) => flat(*x, var),
            None => ferr(),
        },
        Value::Struct(fields) => flat_fields(fields@),
        Value::Enum { discriminant, fields } => fthen(
            fok(seq![PeekView::Variable(twos(discriminant as int, 128) as u128)]),
            flat_fields(fields@),
        ),
        Value::Transparent(x) => flat(*x, false),
        _ => match scalar_toks(v, var) {
            Some(t) => fok(t),
            None => ferr(),
        },
    }
}

/// The scalars of a sequence of values.
pub open spec fn flat_items(s: Seq<Value>, var: bool) -> Flat
    decreases s, 0int,
{
    if s.len() == 0 {
        fok(seq![])
    } else {
        fthen(flat(s[0], var), flat_items(s.drop_first(), var))
    }
}

/// The scalars of a sequence of fields, each as its marking says.
pub open spec fn flat_fields(s: Seq<Field>) -> Flat
    decreases s, 0int,
{
    if s.len() == 0 {
        fok(seq![])
    } else {
        fthen(flat(s[0].value, s[0].variable), flat_fields(s.drop_first()))
    }
}

/// The scalars of a sequence of map entries: each key, then its value.
pub open spec fn flat_entries(s: Seq<(Value, Value)>, var: bool) -> Flat
    decreases s, 0int,
{
    if s.len() == 0 {
        fok(seq![])
    } else {
        fthen(
            fthen(flat(s[0].0, var), flat(s[0].1, var)),
            flat_entries(s.drop_first(), var),
        )
    }
}

/// Three parts give the same scalars however they are grouped.
pub proof fn lemma_fthen_assoc(a: Flat, b: Flat, c: Flat)
    ensures
        fthen(fthen(a, b), c) == fthen(a, fthen(b, c)),
{
    if !a.error && !b.error {
        assert(a.toks + b.toks + c.toks =~= a.toks + (b.toks + c.toks));
    }
}

/// Following nothing that does not fail changes nothing.
pub proof fn lemma_fthen_empty(a: Flat)
    ensures
        fthen(fok(seq![]), a) == a,
        fthen(a, fok(seq![])) == a,
{
    assert(seq![] + a.toks =~= a.toks);
    assert(a.toks + seq![] =~= a.toks);
}


/// The scalars that one [`PeekValue`] stands for: a byte string is written
/// after its length, a unit writes nothing.
pub open spec fn peek_toks(p: PeekView) -> Seq<PeekView> {
    match p {
        PeekView::Unit => seq![],
        PeekView::Bytes(b) => seq![PeekView::Variable(b.len() as u128), PeekView::Bytes(b)],
        _ => seq![p],
    }
}

/// The [`PeekValue`] of a scalar value, in the variable-length form when
/// `var` is set; an error for a value that is not a scalar of the format.
pub fn peek_scalar<'a>(value: &'a Value, var: bool) -> (r: Result<PeekValue<'a>, SerializeIterError>)
    ensures
        r is Ok <==> scalar_toks(*value, var) is Some,
        r matches Ok(p) ==> scalar_toks(*value, var) == Some(peek_toks(p@)),
{
    match value {
        Value::Unit => Ok(PeekValue::Unit),
        Value::Bool(b) => Ok(PeekValue::Bool(*b)),
        Value::U8(x) => Ok(PeekValue::U8(*x)),
        Value::I8(x) => Ok(PeekValue::U8(unsigned_bits(*x as i128, 8) as u8)),
        Value::U16(x) => if var {
            Ok(PeekValue::Variable(*x as u128))
        } else {
            Ok(PeekValue::U16(*x))
        },
        Value::I16(x) => {
            let u = unsigned_bits(*x as i128, 16);
            if var {
                Ok(PeekValue::Variable(u))
            } else {
                Ok(PeekValue::U16(u as u16))
            }
        },
        Value::U32(x) => if var {
            Ok(PeekValue::Variable(*x as u128))
        } else {
            Ok(PeekValue::U32(*x))
        },
        Value::I32(x) => {
            let u = unsigned_bits(*x as i128, 32);
            if var {
                Ok(PeekValue::Variable(u))
            } else {
                Ok(PeekValue::U32(u as u32))
            }
        },
        Value::U64(x) => if var {
            Ok(PeekValue::Variable(*x as u128))
        } else {
            Ok(PeekValue::U64(*x))
        },
        Value::I64(x) => {
            let u = unsigned_bits(*x as i128, 64);
            if var {
                Ok(PeekValue::Variable(u))
            } else {
                Ok(PeekValue::U64(u as u64))
            }
        },
        Value::USize(x) => if var {
            Ok(PeekValue::Variable(*x as u128))
        } else {
            Ok(PeekValue::U64(*x as u64))
        },
        Value::ISize(x) => {
            let u = unsigned_bits(*x as i128, 64);
            if var {
                Ok(PeekValue::Variable(u))
            } else {
                Ok(PeekValue::U64(u as u64))
            }
        },
        Value::U128(x) => if var {
            Ok(PeekValue::Variable(*x))
        } else {
            Ok(PeekValue::U128(*x))
        },
        Value::I128(x) => {
            let u = unsigned_bits(*x, 128);
            if var {
                Ok(PeekValue::Variable(u))
            } else {
                Ok(PeekValue::U128(u))
            }
        },
        Value::F32(x) => Ok(PeekValue::F32(*x)),
        Value::F64(x) => Ok(PeekValue::F64(*x)),
        Value::Str(s) => Ok(PeekValue::Bytes(s.as_str().as_bytes())),
        Value::Bytes(b) => Ok(PeekValue::Bytes(b.as_slice())),
        _ => Err(SerializeIterError::new()),
    }
}


/// Where the walk stands inside one value.
enum PeekIter<'a> {
    /// A scalar, not yet given out.
    Scalar(&'a Value),
    /// The elements of a sequence from the index on.
    Items(&'a Vec<Value>, usize),
    /// The entries of a map from the index on.
    Entries(&'a Vec<(Value, Value)>, usize),
    /// The fields of a struct or an enum variant from the index on.
    Fields(&'a Vec<Field>, usize),
    /// A value that is walked in place of the one that holds it.
    Inner(&'a Value),
    /// Nothing left.
    Empty,
}

/// One value on the walk's stack.
struct ItemState<'a> {
    iter: PeekIter<'a>,
    length: u128,
    write_length: bool,
    variable: bool,
}

/// An iterator over the scalars of a value, in the order they are written.
pub struct SerializeIter<'a> {
    state: Vec<ItemState<'a>>,
    next: Option<PeekValue<'a>>,
}

/// What is left of a walk position.
spec fn body(it: PeekIter, var: bool) -> Flat {
    match it {
        PeekIter::Scalar(v) => match scalar_toks(*v, var) {
            Some(t) => fok(t),
            None => ferr(),
        },
        PeekIter::Items(items, i) => flat_items(tail(items@, i as int), var),
        PeekIter::Entries(e, i) => flat_entries(tail(e@, i as int), var),
        PeekIter::Fields(f, i) => flat_fields(tail(f@, i as int)),
        PeekIter::Inner(x) => flat(*x, var),
        PeekIter::Empty => fok(seq![]),
    }
}

/// What is left of one value on the stack: its length first when it is
/// still to be written.
spec fn rest(st: ItemState) -> Flat {
    fthen(
        fok(if st.write_length { seq![PeekView::Variable(st.length)] } else { seq![] }),
        body(st.iter, st.variable),
    )
}

/// What is left of a stack, the top first.
spec fn run(s: Seq<ItemState>) -> Flat
    decreases s.len(),
{
    if s.len() == 0 {
        fok(seq![])
    } else {
        fthen(rest(s.last()), run(s.drop_last()))
    }
}

/// The weight of a value for the walk's termination.
spec fn wsize(v: Value) -> nat
    decreases v, 1int,
{
    match v {
        Value::KeyValue(e) => 3 + wentries(e@),
        Value::List(items) | Value::Array(items) | Value::Distinct(items) => 3 + witems(items@),
        Value::Optional(o) | Value::Pointer(o) => match o {
            Some(x) => 3 + wsize(*x),
            None => 3,
        },
        Value::Transparent(x) => 3 + wsize(*x),
        Value::Struct(fields) | Value::Enum { fields, .. } => 3 + wfields(fields@),
        _ => 3,
    }
}

spec fn witems(s: Seq<Value>) -> nat
    decreases s, 0int,
{
    if s.len() == 0 {
        0
    } else {
        wsize(s[0]) + witems(s.drop_first())
    }
}

spec fn wfields(s: Seq<Field>) -> nat
    decreases s, 0int,
{
    if s.len() == 0 {
        0
    } else {
        wsize(s[0].value) + wfields(s.drop_first())
    }
}

spec fn wentries(s: Seq<(Value, Value)>) -> nat
    decreases s, 0int,
{
    if s.len() == 0 {
        0
    } else {
        wsize(s[0].0) + wsize(s[0].1) + wentries(s.drop_first())
    }
}

spec fn wstate(st: ItemState) -> nat {
    (if st.write_length { 1nat } else { 0nat }) + match st.iter {
        PeekIter::Scalar(_) => 1nat,
        PeekIter::Items(items, i) => 1 + witems(tail(items@, i as int)),
        PeekIter::Entries(e, i) => 1 + wentries(tail(e@, i as int)),
        PeekIter::Fields(f, i) => 1 + wfields(tail(f@, i as int)),
        PeekIter::Inner(x) => 1 + wsize(*x),
        PeekIter::Empty => 1nat,
    }
}

spec fn wstack(s: Seq<ItemState>) -> nat
    decreases s.len(),
{
    if s.len() == 0 {
        0
    } else {
        wstate(s.last()) + wstack(s.drop_last())
    }
}

proof fn lemma_push<'a>(s: Seq<ItemState<'a>>, x: ItemState<'a>)
    ensures
        run(s.push(x)) == fthen(rest(x), run(s)),
        wstack(s.push(x)) == wstate(x) + wstack(s),
{
    assert(s.push(x).drop_last() =~= s);
}

impl<'a> SerializeIter<'a> {
    /// The scalars the iterator has yet to give, and whether the walk then
    /// fails.
    pub closed spec fn remaining(&self) -> Flat {
        fthen(
            fok(match self.next {
                Some(p) => seq![p@],
                None => seq![],
            }),
            run(self.state@),
        )
    }

    /// The walk position for a value.
    fn create_state(value: &'a Value, variable: bool) -> (st: ItemState<'a>)
        ensures
            rest(st) == flat(*value, variable),
            wstate(st) < wsize(*value),
    {
        proof {
            reveal_with_fuel(flat_items, 1);
        }
        match value {
            Value::KeyValue(e) => {
                proof { lemma_tail_start(e@); }
                ItemState { iter: PeekIter::Entries(e, 0), length: e.len() as u128, write_length: true, variable }
            },
            Value::List(items) | Value::Distinct(items) => {
                proof { lemma_tail_start(items@); }
                ItemState { iter: PeekIter::Items(items, 0), length: items.len() as u128, write_length: true, variable }
            },
            Value::Array(items) => {
                proof { lemma_tail_start(items@); }
                proof {
                    lemma_fthen_empty(flat_items(items@, variable));
                }
                ItemState { iter: PeekIter::Items(items, 0), length: items.len() as u128, write_length: false, variable }
            },
            Value::Optional(o) => match o {
                Some(x) => ItemState { iter: PeekIter::Inner(x), length: 1, write_length: true, variable },
                None => {
                    proof {
                        lemma_fthen_empty(fok(seq![PeekView::Variable(0)]));
                    }
                    ItemState { iter: PeekIter::Empty, length: 0, write_length: true, variable }
                },
            },
            Value::Pointer(o) => match o {
                Some(x) => {
                    proof {
                        lemma_fthen_empty(flat(**x, variable));
                    }
                    ItemState { iter: PeekIter::Inner(x), length: 0, write_length: false, variable }
                },
                None => {
                    proof {
                        lemma_fthen_empty(ferr());
                    }
                    ItemState { iter: PeekIter::Scalar(value), length: 0, write_length: false, variable }
                },
            },
            Value::Struct(fields) => {
                proof { lemma_tail_start(fields@); }
                proof {
                    lemma_fthen_empty(flat_fields(fields@));
                }
                ItemState { iter: PeekIter::Fields(fields, 0), length: 0, write_length: false, variable: false }
            },
            Value::Enum { discriminant, fields } => {
                proof { lemma_tail_start(fields@); }
                let length = unsigned_bits(*discriminant as i128, 128);
                ItemState { iter: PeekIter::Fields(fields, 0), length, write_length: true, variable: false }
            },
            Value::Transparent(x) => {
                proof {
                    lemma_fthen_empty(flat(**x, false));
                }
                ItemState { iter: PeekIter::Inner(x), length: 0, write_length: false, variable: false }
            },
            _ => {
                proof {
                    match scalar_toks(*value, variable) {
                        Some(t) => lemma_fthen_empty(fok(t)),
                        None => lemma_fthen_empty(ferr()),
                    }
                }
                ItemState { iter: PeekIter::Scalar(value), length: 0, write_length: false, variable }
            },
        }
    }
}


/// A first scalar, then the rest.
proof fn lemma_emit(t: PeekView, rest: Flat)
    ensures
        fthen(fok(seq![t]), rest).toks.len() > 0,
        fthen(fok(seq![t]), rest).toks[0] == t,
        fthen(fok(seq![t]), rest).error == rest.error,
        fthen(fok(seq![t]), rest).toks.drop_first() == rest.toks,
{
    assert((seq![t] + rest.toks).drop_first() =~= rest.toks);
}

/// The walk of a sequence's element at `i`, then the rest of it.
proof fn lemma_items_step(s: Seq<Value>, i: int, var: bool)
    requires
        0 <= i < s.len(),
    ensures
        flat_items(tail(s, i), var) == fthen(flat(s[i], var), flat_items(tail(s, i + 1), var)),
        witems(tail(s, i)) == wsize(s[i]) + witems(tail(s, i + 1)),
{
    assert(tail(s, i).drop_first() =~= tail(s, i + 1));
}

proof fn lemma_fields_step(s: Seq<Field>, i: int)
    requires
        0 <= i < s.len(),
    ensures
        flat_fields(tail(s, i)) == fthen(flat(s[i].value, s[i].variable), flat_fields(tail(s, i + 1))),
        wfields(tail(s, i)) == wsize(s[i].value) + wfields(tail(s, i + 1)),
{
    assert(tail(s, i).drop_first() =~= tail(s, i + 1));
}

proof fn lemma_entries_step(s: Seq<(Value, Value)>, i: int, var: bool)
    requires
        0 <= i < s.len(),
    ensures
        flat_entries(tail(s, i), var) == fthen(
            fthen(flat(s[i].0, var), flat(s[i].1, var)),
            flat_entries(tail(s, i + 1), var),
        ),
        wentries(tail(s, i)) == wsize(s[i].0) + wsize(s[i].1) + wentries(tail(s, i + 1)),
{
    assert(tail(s, i).drop_first() =~= tail(s, i + 1));
}

/// What is left of a sequence from an index on; nothing past its end.
spec fn tail<A>(s: Seq<A>, i: int) -> Seq<A> {
    if i <= s.len() {
        s.skip(i)
    } else {
        seq![]
    }
}

proof fn lemma_tail_end<A>(s: Seq<A>, i: int)
    requires
        i >= s.len(),
    ensures
        tail(s, i).len() == 0,
{
}

proof fn lemma_tail_start<A>(s: Seq<A>)
    ensures
        tail(s, 0) == s,
{
    assert(s.skip(0) =~= s);
}

impl<'a> SerializeIter<'a> {
    /// Gives the next scalar, or the failure the walk comes to.
    #[verifier::rlimit(40)]
    fn next_inner(&mut self) -> (r: Option<Result<PeekValue<'a>, SerializeIterError>>)
        ensures
            old(self).remaining().toks.len() > 0 ==> (r matches Some(Ok(p)) && p@
                == old(self).remaining().toks[0] && final(self).remaining() == Flat {
                toks: old(self).remaining().toks.drop_first(),
                error: old(self).remaining().error,
            }),
            old(self).remaining().toks.len() == 0 && old(self).remaining().error ==> (r matches Some(Err(_))),
            old(self).remaining().toks.len() == 0 && !old(self).remaining().error ==> (r is None
                && final(self).remaining() == old(self).remaining()),
    {
        match self.next {
            Some(p) => {
                proof {
                    lemma_emit(p@, run(self.state@));
                    lemma_fthen_empty(run(self.state@));
                }
                self.next = None;
                return Some(Ok(p));
            },
            None => {},
        }
        proof {
            lemma_fthen_empty(run(self.state@));
        }
        loop
            invariant
                self.next is None,
                run(self.state@) == old(self).remaining(),
            decreases wstack(self.state@),
        {
            let len = self.state.len();
            if len == 0 {
                proof {
                    lemma_fthen_empty(fok(seq![]));
                    assert(run(self.state@).toks =~= seq![]);
                }
                return None;
            }
            let ghost below = self.state@.drop_last();
            let mut top = self.state.pop().unwrap();
            assert(old(self).remaining() == fthen(rest(top), run(below)));
            if top.write_length {
                let length = top.length;
                top.write_length = false;
                proof {
                    lemma_fthen_empty(body(top.iter, top.variable));
                    lemma_fthen_assoc(
                        fok(seq![PeekView::Variable(length)]),
                        body(top.iter, top.variable),
                        run(below),
                    );
                    lemma_emit(PeekView::Variable(length), fthen(rest(top), run(below)));
                }
                self.state.push(top);
                proof {
                    lemma_push(below, top);
                    lemma_fthen_empty(run(self.state@));
                }
                return Some(Ok(PeekValue::Variable(length)));
            }
            proof {
                lemma_fthen_empty(body(top.iter, top.variable));
            }
            match top.iter {
                PeekIter::Scalar(v) => {
                    match peek_scalar(v, top.variable) {
                        Err(e) => {
                            return Some(Err(e));
                        },
                        Ok(PeekValue::Unit) => {
                            proof {
                                lemma_fthen_empty(run(below));
                            }
                        },
                        Ok(PeekValue::Bytes(b)) => {
                            let length = b.len() as u128;
                            proof {
                                let t = seq![PeekView::Variable(length), PeekView::Bytes(b@)];
                                assert(t =~= seq![PeekView::Variable(length)] + seq![PeekView::Bytes(b@)]);
                                lemma_fthen_assoc(
                                    fok(seq![PeekView::Variable(length)]),
                                    fok(seq![PeekView::Bytes(b@)]),
                                    run(below),
                                );
                                lemma_emit(
                                    PeekView::Variable(length),
                                    fthen(fok(seq![PeekView::Bytes(b@)]), run(below)),
                                );
                            }
                            self.next = Some(PeekValue::Bytes(b));
                            return Some(Ok(PeekValue::Variable(length)));
                        },
                        Ok(p) => {
                            proof {
                                lemma_emit(p@, run(below));
                                lemma_fthen_empty(run(below));
                            }
                            return Some(Ok(p));
                        },
                    }
                },
                PeekIter::Items(items, i) => {
                    if i < items.len() {
                        let variable = top.variable;
                        proof {
                            lemma_items_step(items@, i as int, variable);
                            lemma_fthen_empty(flat_items(tail(items@, i + 1), variable));
                        }
                        let next_top = ItemState {
                            iter: PeekIter::Items(items, i + 1),
                            length: top.length,
                            write_length: false,
                            variable,
                        };
                        let child = Self::create_state(&items[i], variable);
                        let ghost mid = self.state@;
                        self.state.push(next_top);
                        proof {
                            lemma_push(mid, next_top);
                        }
                        let ghost mid2 = self.state@;
                        self.state.push(child);
                        proof {
                            lemma_push(mid2, child);
                            lemma_fthen_assoc(
                                flat(items@[i as int], variable),
                                flat_items(tail(items@, i + 1), variable),
                                run(below),
                            );
                        }
                    } else {
                        proof {
                            lemma_tail_end(items@, i as int);
                            lemma_fthen_empty(run(below));
                        }
                    }
                },
                PeekIter::Entries(e, i) => {
                    if i < e.len() {
                        let variable = top.variable;
                        proof {
                            lemma_entries_step(e@, i as int, variable);
                            lemma_fthen_empty(flat_entries(tail(e@, i + 1), variable));
                        }
                        let next_top = ItemState {
                            iter: PeekIter::Entries(e, i + 1),
                            length: top.length,
                            write_length: false,
                            variable,
                        };
                        let entry = &e[i];
                        let value_state = Self::create_state(&entry.1, variable);
                        let key_state = Self::create_state(&entry.0, variable);
                        let ghost mid = self.state@;
                        self.state.push(next_top);
                        proof {
                            lemma_push(mid, next_top);
                        }
                        let ghost mid2 = self.state@;
                        self.state.push(value_state);
                        proof {
                            lemma_push(mid2, value_state);
                        }
                        let ghost mid3 = self.state@;
                        self.state.push(key_state);
                        proof {
                            lemma_push(mid3, key_state);
                            let k = flat(e@[i as int].0, variable);
                            let v = flat(e@[i as int].1, variable);
                            let t = flat_entries(tail(e@, i + 1), variable);
                            lemma_fthen_assoc(fthen(k, v), t, run(below));
                            lemma_fthen_assoc(k, v, fthen(t, run(below)));
                        }
                    } else {
                        proof {
                            lemma_tail_end(e@, i as int);
                            lemma_fthen_empty(run(below));
                        }
                    }
                },
                PeekIter::Fields(f, i) => {
                    if i < f.len() {
                        proof {
                            lemma_fields_step(f@, i as int);
                            lemma_fthen_empty(flat_fields(tail(f@, i + 1)));
                        }
                        let next_top = ItemState {
                            iter: PeekIter::Fields(f, i + 1),
                            length: top.length,
                            write_length: false,
                            variable: top.variable,
                        };
                        let field = &f[i];
                        let child = Self::create_state(&field.value, field.variable);
                        let ghost mid = self.state@;
                        self.state.push(next_top);
                        proof {
                            lemma_push(mid, next_top);
                        }
                        let ghost mid2 = self.state@;
                        self.state.push(child);
                        proof {
                            lemma_push(mid2, child);
                            lemma_fthen_assoc(
                                flat(f@[i as int].value, f@[i as int].variable),
                                flat_fields(tail(f@, i + 1)),
                                run(below),
                            );
                        }
                    } else {
                        proof {
                            lemma_tail_end(f@, i as int);
                            lemma_fthen_empty(run(below));
                        }
                    }
                },
                PeekIter::Inner(x) => {
                    let child = Self::create_state(x, top.variable);
                    let ghost mid = self.state@;
                    self.state.push(child);
                    proof {
                        lemma_push(mid, child);
                    }
                },
                PeekIter::Empty => {
                    proof {
                        lemma_fthen_empty(run(below));
                    }
                },
            }
        }
    }
}


impl<'a> SerializeIter<'a> {
    /// Create a new [`SerializeIter`] for the given value.
    ///
    /// Every value can be walked; a part that cannot be written shows as an
    /// error from [`SerializeIter::next`] when the walk reaches it.
    pub fn new(value: &'a Value) -> (r: Result<Self, SerializeIterError>)
        ensures
            r matches Ok(iter) && iter.remaining() == flat(*value, false),
    {
        let st = Self::create_state(value, false);
        let mut state: Vec<ItemState<'a>> = Vec::new();
        state.push(st);
        proof {
            lemma_push(seq![], st);
            assert(state@ == seq![].push(st));
            lemma_fthen_empty(rest(st));
            lemma_fthen_empty(run(state@));
        }
        Ok(SerializeIter { state, next: None })
    }

    /// Gives the next scalar of the walk.
    ///
    /// After the walk fails, the error is given once and then nothing more.
    pub fn next(&mut self) -> (r: Option<Result<PeekValue<'a>, SerializeIterError>>)
        ensures
            old(self).remaining().toks.len() > 0 ==> (r matches Some(Ok(p)) && p@
                == old(self).remaining().toks[0] && final(self).remaining() == Flat {
                toks: old(self).remaining().toks.drop_first(),
                error: old(self).remaining().error,
            }),
            old(self).remaining().toks.len() == 0 ==> final(self).remaining() == fok(seq![]),
            old(self).remaining().toks.len() == 0 ==> (old(self).remaining().error <==> r matches Some(Err(_))),
            old(self).remaining().toks.len() == 0 ==> (!old(self).remaining().error <==> r is None),
    {
        let r = self.next_inner();
        match r {
            Some(Err(e)) => {
                self.state = Vec::new();
                self.next = None;
                proof {
                    lemma_fthen_empty(fok(seq![]));
                }
                Some(Err(e))
            },
            _ => {
                proof {
                    if old(self).remaining().toks.len() == 0 {
                        assert(old(self).remaining().toks =~= seq![]);
                    }
                }
                r
            },
        }
    }
}

/// The scalars of a whole value, in the order they are written.
///
/// # Errors
///
/// Returns an error when the walk reaches a part that cannot be written.
pub fn parse_peek<'a>(value: &'a Value) -> (r: Result<Vec<PeekValue<'a>>, SerializeIterError>)
    ensures
        r is Ok <==> !flat(*value, false).error,
        r matches Ok(v) ==> v@.map_values(|p: PeekValue<'a>| p@) == flat(*value, false).toks,
{
    let mut values: Vec<PeekValue<'a>> = Vec::new();
    let mut iter = match SerializeIter::new(value) {
        Ok(iter) => iter,
        Err(e) => return Err(e),
    };
    let ghost all = flat(*value, false);
    loop
        invariant
            all == flat(*value, false),
            values@.len() + iter.remaining().toks.len() == all.toks.len(),
            values@.map_values(|p: PeekValue<'a>| p@) + iter.remaining().toks == all.toks,
            iter.remaining().error == all.error,
        decreases iter.remaining().toks.len(),
    {
        let ghost before = iter.remaining();
        match iter.next() {
            Some(Ok(p)) => {
                proof {
                    assert(before.toks.len() > 0);
                    let old_mapped = values@.map_values(|p: PeekValue<'a>| p@);
                    assert(old_mapped.push(p@) + before.toks.drop_first() =~= old_mapped + before.toks);
                }
                values.push(p);
                proof {
                    let m = values@.map_values(|p: PeekValue<'a>| p@);
                    assert(m =~= values@.drop_last().map_values(|p: PeekValue<'a>| p@).push(p@));
                }
            },
            Some(Err(e)) => {
                return Err(e);
            },
            None => {
                proof {
                    assert(before.toks.len() == 0);
                    assert(values@.map_values(|p: PeekValue<'a>| p@) =~= all.toks);
                }
                return Ok(values);
            },
        }
    }
}

} // verus!
