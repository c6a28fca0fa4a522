//! The text a deserialization error shows of the input, and where in that
//! text the error is.
use crate::de::{DeserializeError, ErrorReason};
use crate::text::{decimal, decimal_len, push_decimal, push_signed_decimal, signed_decimal, str_from_utf8};
use crate::schema::variants_view;
use vstd::utf8::{decode_utf8, valid_utf8};
use core::ops::Range;
use vstd::prelude::*;

verus! {

/// The bytes in decimal, separated by `", "`.
pub open spec fn joined(s: Seq<u8>) -> Seq<char>
    decreases s.len(),
{
    if s.len() == 0 {
        seq![]
    } else if s.len() == 1 {
        decimal(s[0] as nat)
    } else {
        joined(s.drop_last()) + seq![',', ' '] + decimal(s.last() as nat)
    }
}

/// The total number of decimal digits of the bytes.
pub open spec fn widths(s: Seq<u8>) -> nat
    decreases s.len(),
{
    if s.len() == 0 {
        0
    } else {
        widths(s.drop_last()) + decimal(s.last() as nat).len()
    }
}

/// Where in the whole input, of `input_len` bytes, an error raised with
/// `err_len` bytes left points, before it is pulled back inside the input.
pub open spec fn raw_position(input_len: nat, err_len: nat, reason: ErrorReason) -> nat {
    let base: nat = if input_len >= err_len {
        (input_len - err_len) as nat
    } else {
        0
    };
    match reason {
        ErrorReason::InvalidUtf8(pos) => base + pos as nat,
        _ => base,
    }
}

/// Where in the whole input the error points: never past its last byte.
pub open spec fn error_position(input_len: nat, err_len: nat, reason: ErrorReason) -> nat {
    let p = raw_position(input_len, err_len, reason);
    if p == input_len && input_len >= 1 {
        (input_len - 1) as nat
    } else {
        p
    }
}

/// The first byte shown around position `e` of an input of `len` bytes.
pub open spec fn window_start(e: nat) -> nat {
    if e >= 4 {
        (e - 4) as nat
    } else {
        0
    }
}

/// The end of the bytes shown around position `e`: four bytes on each side,
/// eight in all where the input has them.
pub open spec fn window_end(len: nat, e: nat) -> nat {
    let start = window_start(e);
    let end0: nat = if e + 4 < len {
        e + 4
    } else {
        len
    };
    if end0 - start < 8 {
        let grown: nat = (end0 + 8 - (end0 - start)) as nat;
        if grown < len {
            grown
        } else {
            len
        }
    } else {
        end0
    }
}

/// The start of the text shown for an input: `"Input: ["`, and an ellipsis
/// when bytes before the shown ones are left out.
pub open spec fn head(start: nat) -> Seq<char> {
    "Input: ["@ + (if start != 0 {
        "..., "@
    } else {
        seq![]
    })
}

/// The text shown for the whole input, around position `e`.
pub open spec fn origin_text(input: Seq<u8>, e: nat) -> Seq<char> {
    let start = window_start(e);
    let end = window_end(input.len(), e);
    head(start) + joined(input.subrange(start as int, end as int)) + (if end != input.len() {
        ", ..."@
    } else {
        seq![]
    }) + "]"@
}

/// Where the text for the byte at `i` starts, in the text shown around `e`.
pub open spec fn item_start(input: Seq<u8>, e: nat, i: nat) -> nat {
    let start = window_start(e);
    head(start).len() + joined(input.subrange(start as int, i as int)).len() + (if i > start {
        2nat
    } else {
        0nat
    })
}

/// Where the marked bytes end: the byte at `e`, and, when a length is known
/// and the marked text does not start right after the bracket, the bytes
/// that length covers within the shown ones.
pub open spec fn marked_end(input: Seq<u8>, e: nat, length: Option<usize>) -> nat {
    let end = window_end(input.len(), e);
    match length {
        Some(l) => if item_start(input, e, e) != 8 {
            let cover: nat = if e + l < end {
                e + l as nat
            } else {
                end
            };
            if cover > e + 1 {
                cover
            } else {
                e + 1
            }
        } else {
            e + 1
        },
        None => e + 1,
    }
}

/// The span of the marked bytes in the text shown around `e`.
pub open spec fn origin_span(input: Seq<u8>, e: nat, length: Option<usize>) -> (nat, nat) {
    let start = window_start(e);
    let end = window_end(input.len(), e);
    if start <= e < end {
        let s0 = item_start(input, e, e);
        (s0, s0 + joined(input.subrange(e as int, marked_end(input, e, length) as int)).len())
    } else {
        (8, 8)
    }
}

/// The text shown when only the input from the error on is known.
pub open spec fn rest_text(err: Seq<u8>) -> Seq<char> {
    "Input: "@ + (if err.len() == 0 {
        "<empty>"@
    } else if err.len() <= 8 {
        "["@ + joined(err) + "]"@
    } else {
        "["@ + joined(err.take(8)) + ", ...]"@
    })
}

/// The span marked when only the input from the error on is known: the
/// digits of the bytes the length covers, at least one.
pub open spec fn rest_span(err: Seq<u8>, length: Option<usize>) -> (nat, nat) {
    if err.len() == 0 {
        (8, 8)
    } else {
        let take: nat = match length {
            Some(l) => if l >= 1 {
                l as nat
            } else {
                1
            },
            None => 1,
        };
        let n: nat = if take < err.len() {
            take
        } else {
            err.len()
        };
        (8, 8 + widths(err.take(n as int)))
    }
}

/// The text a deserialization error shows of the input, and the span of the
/// bytes at fault in it.
pub open spec fn source_of(e: DeserializeError) -> (Seq<char>, (nat, nat)) {
    match e.origin {
        Some((input, _)) => if input@.len() == 0 {
            ("Input: <empty>"@, (8, 8))
        } else {
            let p = error_position(input@.len(), e.error.0@.len(), e.reason);
            (origin_text(input@, p), origin_span(input@, p, e.length))
        },
        None => (rest_text(e.error.0@), rest_span(e.error.0@, e.length)),
    }
}

/// Whether the text can be built without running past the ends of the
/// input: the error points at most four bytes past the end of the whole
/// input, and the lengths leave room in `usize`.
pub open spec fn source_defined(e: DeserializeError) -> bool {
    match e.origin {
        Some((input, _)) => input@.len() + 16 <= usize::MAX && raw_position(
            input@.len(),
            e.error.0@.len(),
            e.reason,
        ) <= input@.len() + 4,
        None => e.error.0@.len() <= usize::MAX / 4,
    }
}

proof fn lemma_joined_push(s: Seq<u8>, x: u8)
    ensures
        joined(s.push(x)) == if s.len() == 0 {
            decimal(x as nat)
        } else {
            joined(s) + seq![',', ' '] + decimal(x as nat)
        },
{
    assert(s.push(x).drop_last() =~= s);
}

proof fn lemma_widths_push(s: Seq<u8>, x: u8)
    ensures
        widths(s.push(x)) == widths(s) + decimal(x as nat).len(),
{
    assert(s.push(x).drop_last() =~= s);
}

proof fn lemma_widths_bound(s: Seq<u8>)
    ensures
        widths(s) <= 3 * s.len(),
    decreases s.len(),
{
    if s.len() > 0 {
        lemma_widths_bound(s.drop_last());
        crate::text::lemma_decimal_u8(s.last());
    }
}

/// Appends the bytes of `s` from `from` to `to` in decimal, separated by
/// `", "`.
fn push_joined(out: &mut String, s: &[u8], from: usize, to: usize)
    requires
        from <= to <= s@.len(),
    ensures
        final(out)@ == old(out)@ + joined(s@.subrange(from as int, to as int)),
{
    let mut i = from;
    proof {
        assert(s@.subrange(from as int, from as int) =~= Seq::<u8>::empty());
        assert(old(out)@ + joined(Seq::<u8>::empty()) =~= old(out)@);
    }
    while i < to
        invariant
            from <= i <= to <= s@.len(),
            out@ == old(out)@ + joined(s@.subrange(from as int, i as int)),
        decreases to - i,
    {
        let ghost before = out@;
        if i > from {
            proof {
                reveal_strlit(", ");
            }
            out.append(", ");
        }
        push_decimal(out, s[i] as u64);
        proof {
            let t = s@.subrange(from as int, i as int);
            assert(s@.subrange(from as int, i + 1) =~= t.push(s@[i as int]));
            lemma_joined_push(t, s@[i as int]);
            if i > from {
                assert(out@ =~= old(out)@ + (joined(t) + seq![',', ' '] + decimal(s@[i as int] as nat)));
            } else {
                assert(out@ =~= old(out)@ + decimal(s@[i as int] as nat));
            }
        }
        i = i + 1;
    }
}

/// The text shown for the whole input around position `e`, with the span
/// of the marked bytes.
#[verifier::rlimit(40)]
fn origin_source(input: &[u8], error_pos: usize, length: Option<usize>) -> (r: (String, usize, usize))
    requires
        input@.len() > 0,
        input@.len() + 16 <= usize::MAX,
        error_pos < input@.len() + 5,
    ensures
        r.0@ == origin_text(input@, error_pos as nat),
        (r.1 as nat, r.2 as nat) == origin_span(input@, error_pos as nat, length),
{
    proof {
        reveal_strlit("Input: [");
        reveal_strlit("]");
        reveal_strlit("..., ");
        reveal_strlit(", ...");
        reveal_strlit(", ");
    }
    let ghost e = error_pos as nat;
    let len = input.len();
    let start: usize = if error_pos >= 4 {
        error_pos - 4
    } else {
        0
    };
    let mut end: usize = if error_pos + 4 < len {
        error_pos + 4
    } else {
        len
    };
    if end - start < 8 {
        let grown = end + 8 - (end - start);
        end = if grown < len {
            grown
        } else {
            len
        };
    }
    assert(start == window_start(e));
    assert(end == window_end(len as nat, e));
    let mut source = String::new();
    source.append("Input: [");
    let mut count: usize = 8;
    if start != 0 {
        source.append("..., ");
        count = count + 5;
    }
    assert(source@ == head(start as nat));
    let mut span_start: usize = 8;
    let mut span_end: usize = 8;
    let mut index = start;
    assert(input@.subrange(start as int, start as int) =~= Seq::<u8>::empty());
    while index < end
        invariant
            start <= index <= end <= len,
            len == input@.len(),
            len + 16 <= usize::MAX,
            start == window_start(e),
            end == window_end(len as nat, e),
            error_pos == e,
            e < len + 5,
            count == source@.len(),
            count <= 13 + 5 * (index - start),
            source@ == head(start as nat) + joined(input@.subrange(start as int, index as int)) + (
            if start < index < end {
                seq![',', ' ']
            } else {
                seq![]
            }),
            index <= e ==> span_start == 8 && span_end == 8,
            span_end + (if start < index < end {
                2nat
            } else {
                0nat
            }) <= count,
            e < index ==> span_start == item_start(input@, e, e) && span_end == span_start
                + joined(input@.subrange(e as int, (if index < marked_end(input@, e, length) {
                index as nat
            } else {
                marked_end(input@, e, length)
            }) as int)).len(),
        decreases end - index,
    {
        proof {
            reveal_strlit(", ");
        }
        let value = input[index];
        let width = decimal_len(value as u64);
        // The text of this byte starts here.
        let ghost at = count;
        proof {
            crate::text::lemma_decimal_u8(value);
            if index > start {
                assert(head(start as nat).len() + joined(input@.subrange(start as int, index as int)).len()
                    + 2 == count);
            }
            assert(index == e ==> at == item_start(input@, e, e));
        }
        let grow = match length {
            Some(length) => span_start != 8 && error_pos <= index && index - error_pos < length,
            None => false,
        };
        if grow {
            span_end = span_end + 2 + width;
        } else if index == error_pos {
            span_start = count;
            span_end = count + width;
        }
        let ghost before = source@;
        push_decimal(&mut source, value as u64);
        count = count + width;
        let ghost mid = source@;
        if index < end - 1 {
            source.append(", ");
            count = count + 2;
        }
        proof {
            let t = input@.subrange(start as int, index as int);
            assert(input@.subrange(start as int, index + 1) =~= t.push(input@[index as int]));
            lemma_joined_push(t, input@[index as int]);
            let h = head(start as nat);
            let d = decimal(value as nat);
            if index > start {
                assert(mid =~= h + joined(t.push(value)));
            } else {
                assert(t =~= Seq::<u8>::empty());
                assert(mid =~= h + joined(t.push(value)));
            }
            if index < end - 1 {
                assert(source@ =~= h + joined(t.push(value)) + seq![',', ' ']);
            } else {
                assert(source@ =~= h + joined(t.push(value)) + Seq::<char>::empty());
            }
            let me = marked_end(input@, e, length);
            if e < index + 1 {
                let u = input@.subrange(e as int, index as int);
                if index == e {
                    assert(input@.subrange(e as int, e as int + 1) =~= seq![input@[e as int]]);
                    assert(seq![input@[e as int]] =~= Seq::<u8>::empty().push(input@[e as int]));
                    lemma_joined_push(Seq::<u8>::empty(), input@[e as int]);
                } else if index < me {
                    assert(input@.subrange(e as int, index + 1) =~= u.push(input@[index as int]));
                    lemma_joined_push(u, input@[index as int]);
                }
            }
        }
        index = index + 1;
    }
    if end != len {
        source.append(", ...");
    }
    source.append("]");
    proof {
        assert(input@.subrange(start as int, end as int) == input@.subrange(start as int, index as int));
        let me = marked_end(input@, e, length);
        if start <= e && e < end {
            assert(me <= end);
        }
        assert(source@ =~= origin_text(input@, e));
    }
    (source, span_start, span_end)
}

/// The text shown when only the input from the error on is known, with the
/// end of the marked span.
fn rest_source(err: &[u8], length: Option<usize>) -> (r: (String, usize))
    requires
        err@.len() <= usize::MAX / 4,
    ensures
        r.0@ == rest_text(err@),
        (8nat, r.1 as nat) == rest_span(err@, length),
{
    proof {
        reveal_strlit("Input: ");
        reveal_strlit("<empty>");
        reveal_strlit("[");
        reveal_strlit("]");
        reveal_strlit(", ...]");
    }
    let mut source = String::new();
    source.append("Input: ");
    if err.len() == 0 {
        source.append("<empty>");
    } else if err.len() <= 8 {
        source.append("[");
        push_joined(&mut source, err, 0, err.len());
        source.append("]");
        assert(err@.subrange(0, err@.len() as int) =~= err@);
    } else {
        source.append("[");
        push_joined(&mut source, err, 0, 8);
        source.append(", ...]");
        assert(err@.subrange(0, 8) =~= err@.take(8));
    }
    assert(source@ =~= rest_text(err@));
    let mut span_end: usize = 8;
    if err.len() != 0 {
        let take: usize = match length {
            Some(l) => if l >= 1 {
                l
            } else {
                1
            },
            None => 1,
        };
        let n = if take < err.len() {
            take
        } else {
            err.len()
        };
        let mut i: usize = 0;
        assert(err@.take(0) =~= Seq::<u8>::empty());
        while i < n
            invariant
                i <= n <= err@.len(),
                err@.len() <= usize::MAX / 4,
                span_end == 8 + widths(err@.take(i as int)),
            decreases n - i,
        {
            proof {
                assert(err@.take(i + 1) =~= err@.take(i as int).push(err@[i as int]));
                lemma_widths_push(err@.take(i as int), err@[i as int]);
                lemma_widths_bound(err@.take(i + 1));
            }
            span_end = span_end + decimal_len(err[i] as u64);
            i = i + 1;
        }
    }
    (source, span_end)
}

impl<'input> DeserializeError<'input> {
    /// Whether the text of the error can be built: the position it points to
    /// is at most four bytes past the end of the whole input.
    pub fn source_is_defined(&self) -> (r: bool)
        ensures
            r == source_defined(*self),
    {
        match &self.origin {
            Some((input, _)) => {
                if input.len() > usize::MAX - 16 {
                    return false;
                }
                let base: usize = if input.len() >= self.error.0.len() {
                    input.len() - self.error.0.len()
                } else {
                    0
                };
                let extra: usize = match self.reason {
                    ErrorReason::InvalidUtf8(pos) => pos,
                    _ => 0,
                };
                extra <= input.len() + 4 - base
            },
            None => self.error.0.len() <= usize::MAX / 4,
        }
    }

    /// Build the text to show for the error: the input around the error, and
    /// the span of the bytes at fault in that text.
    ///
    /// ```text
    /// # If no origin is provided:
    /// Input: [0, 1, 2, 3, 4, 5, 6, 7, ...]
    ///         _
    ///         |---> Reason For Error
    ///
    /// # If the origin is provided:
    /// Input: [..., 4, 5, 6, 7, 8, 9, 10, 11, ...]
    ///         ___
    ///          |---> Reason For Error
    /// ```
    pub fn build_source(&self) -> (r: (String, Range<usize>))
        requires
            source_defined(*self),
        ensures
            r.0@ == source_of(*self).0,
            r.1.start == source_of(*self).1.0,
            r.1.end == source_of(*self).1.1,
    {
        match &self.origin {
            Some((input, _)) => {
                if input.len() == 0 {
                    proof {
                        reveal_strlit("Input: <empty>");
                    }
                    return (String::from_str("Input: <empty>"), 8..8);
                }
                let len = input.len();
                let err_len = self.error.0.len();
                let base: usize = if len >= err_len {
                    len - err_len
                } else {
                    0
                };
                let mut error_pos: usize = match self.reason {
                    ErrorReason::InvalidUtf8(pos) => base + pos,
                    _ => base,
                };
                if error_pos == len {
                    error_pos = len - 1;
                }
                assert(error_pos == error_position(len as nat, err_len as nat, self.reason));
                let (source, span_start, span_end) = origin_source(input, error_pos, self.length);
                (source, span_start..span_end)
            },
            None => {
                let (source, span_end) = rest_source(self.error.0, self.length);
                (source, 8..span_end)
            },
        }
    }
}


/// One line of the list of expected variants: `Type::Variant (discriminant)`.
pub open spec fn variant_line(name: Seq<char>, v: (Seq<char>, i64)) -> Seq<char> {
    name + "::"@ + v.0 + " ("@ + signed_decimal(v.1 as int) + ")"@
}

/// The lines of the expected variants, one per line.
pub open spec fn variant_lines(name: Seq<char>, vs: Seq<(Seq<char>, i64)>) -> Seq<char>
    decreases vs.len(),
{
    if vs.len() == 0 {
        seq![]
    } else if vs.len() == 1 {
        variant_line(name, vs[0])
    } else {
        variant_lines(name, vs.drop_last()) + "\n"@ + variant_line(name, vs.last())
    }
}

/// `a - b`, or nothing below zero.
pub open spec fn saturating_sub(a: nat, b: nat) -> nat {
    if a >= b {
        (a - b) as nat
    } else {
        0
    }
}

/// How many more bytes the error says were needed: the length blamed, less
/// what was left from where the error is.
pub open spec fn missing(e: DeserializeError, input: Seq<u8>, length: usize) -> int {
    length - (input.len() - saturating_sub(input.len(), e.error.0@.len()))
}

/// The note that says what was expected, for the reason `r` and the error
/// `e`.
pub open spec fn note_of(r: ErrorReason, e: DeserializeError) -> Option<Seq<char>> {
    let name = e.error.1@;
    match r {
        ErrorReason::EndOfInput => match (e.origin, e.length) {
            (Some((input, _)), Some(length)) => {
                let d = missing(e, input@, length);
                if d == 0 {
                    None
                } else if d == 1 {
                    Some("Expected 1 more byte for a `"@ + name + "`"@)
                } else {
                    Some("Expected "@ + decimal(d as nat) + " more bytes for a `"@ + name + "`"@)
                }
            },
            _ => None,
        },
        ErrorReason::InvalidVariant(_) => match variants_view(e.variants) {
            Some(vs) => Some("Expected one of:\n"@ + variant_lines(name, vs)),
            None => None,
        },
        ErrorReason::InvalidUtf8(pos) => Some(
            "Valid string slice: \""@ + decode_utf8(e.error.0@.take(pos as int)) + "\" (0.."@
                + decimal(pos as nat) + ")"@,
        ),
        _ => None,
    }
}

/// Whether the note can be made: the length blamed covers what was left,
/// and a UTF-8 error's valid prefix is inside the input and valid.
pub open spec fn note_defined(r: ErrorReason, e: DeserializeError) -> bool {
    match r {
        ErrorReason::EndOfInput => match (e.origin, e.length) {
            (Some((input, _)), Some(length)) => missing(e, input@, length) >= 0,
            _ => true,
        },
        ErrorReason::InvalidUtf8(pos) => pos <= e.error.0@.len() && valid_utf8(e.error.0@.take(pos as int)),
        _ => true,
    }
}

/// Appends the lines of the expected variants.
fn push_variant_lines(out: &mut String, name: &String, vs: &Vec<(String, i64)>)
    ensures
        final(out)@ == old(out)@ + variant_lines(name@, vs@.map_values(|x: (String, i64)| (x.0@, x.1))),
{
    let ghost m = vs@.map_values(|x: (String, i64)| (x.0@, x.1));
    let mut i: usize = 0;
    proof {
        assert(m.take(0) =~= Seq::<(Seq<char>, i64)>::empty());
        assert(old(out)@ + variant_lines(name@, Seq::<(Seq<char>, i64)>::empty()) =~= old(out)@);
    }
    while i < vs.len()
        invariant
            i <= vs@.len(),
            m == vs@.map_values(|x: (String, i64)| (x.0@, x.1)),
            out@ == old(out)@ + variant_lines(name@, m.take(i as int)),
        decreases vs@.len() - i,
    {
        proof {
            reveal_strlit("\n");
            reveal_strlit("::");
            reveal_strlit(" (");
            reveal_strlit(")");
        }
        let ghost before = out@;
        if i > 0 {
            out.append("\n");
        }
        let v = &vs[i];
        out.append(name.as_str());
        out.append("::");
        out.append(v.0.as_str());
        out.append(" (");
        push_signed_decimal(out, v.1);
        out.append(")");
        proof {
            let t = m.take(i as int);
            assert(m.take(i + 1) =~= t.push(m[i as int]));
            assert(m.take(i + 1).drop_last() =~= t);
            let line = variant_line(name@, m[i as int]);
            if i > 0 {
                assert(out@ =~= before + ("\n"@ + line));
                assert(variant_lines(name@, m.take(i + 1)) == variant_lines(name@, t) + "\n"@ + line);
                assert(out@ =~= old(out)@ + variant_lines(name@, m.take(i + 1)));
            } else {
                assert(t.len() == 0);
                assert(out@ =~= before + line);
                assert(out@ =~= old(out)@ + variant_lines(name@, m.take(i + 1)));
            }
        }
        i += 1;
    }
    proof {
        assert(m.take(vs@.len() as int) =~= m);
    }
}

impl ErrorReason {
    /// Whether the note for this reason can be built for `error`: an error
    /// at the end of the input blames no fewer bytes than were left, and an
    /// error in a string points into it, after valid UTF-8.
    pub fn note_is_defined(&self, error: &DeserializeError<'_>) -> (r: bool)
        ensures
            r == note_defined(*self, *error),
    {
        match self {
            ErrorReason::EndOfInput => match (&error.origin, error.length) {
                (Some((input, _)), Some(length)) => {
                    let rest: usize = if input.len() >= error.error.0.len() {
                        error.error.0.len()
                    } else {
                        input.len()
                    };
                    length >= rest
                },
                _ => true,
            },
            ErrorReason::InvalidUtf8(pos) => {
                if *pos > error.error.0.len() {
                    return false;
                }
                let head = vstd::slice::slice_subrange(error.error.0, 0, *pos);
                assert(head@ =~= error.error.0@.take(*pos as int));
                str_from_utf8(head).is_ok()
            },
            _ => true,
        }
    }

    /// Get a note describing what was expected.
    pub fn expected_note(&self, error: &DeserializeError<'_>) -> (r: Option<String>)
        requires
            note_defined(*self, *error),
        ensures
            match note_of(*self, *error) {
                Some(n) => r matches Some(s) && s@ == n,
                None => r is None,
            },
    {
        proof {
            reveal_strlit("Expected 1 more byte for a `");
            reveal_strlit("`");
            reveal_strlit("Expected ");
            reveal_strlit(" more bytes for a `");
            reveal_strlit("Expected one of:\n");
            reveal_strlit("Valid string slice: \"");
            reveal_strlit("\" (0..");
            reveal_strlit(")");
        }
        match self {
            ErrorReason::EndOfInput => match (&error.origin, error.length) {
                (Some((input, _)), Some(length)) => {
                    let input_len = input.len();
                    let err_len = error.error.0.len();
                    let start = if input_len >= err_len {
                        input_len - err_len
                    } else {
                        0
                    };
                    let d = length - (input_len - start);
                    if d == 0 {
                        None
                    } else if d == 1 {
                        let mut out = String::from_str("Expected 1 more byte for a `");
                        out.append(error.error.1.as_str());
                        out.append("`");
                        Some(out)
                    } else {
                        let mut out = String::from_str("Expected ");
                        push_decimal(&mut out, d as u64);
                        out.append(" more bytes for a `");
                        out.append(error.error.1.as_str());
                        out.append("`");
                        Some(out)
                    }
                },
                _ => None,
            },
            ErrorReason::InvalidVariant(_) => match &error.variants {
                Some(vs) => {
                    let mut out = String::from_str("Expected one of:\n");
                    push_variant_lines(&mut out, &error.error.1, vs);
                    Some(out)
                },
                None => None,
            },
            ErrorReason::InvalidUtf8(pos) => {
                let valid = &error.error.0[0..*pos];
                assert(valid@ =~= error.error.0@.take(*pos as int));
                match str_from_utf8(valid) {
                    Ok(slice) => {
                        let mut out = String::from_str("Valid string slice: \"");
                        out.append(slice);
                        out.append("\" (0..");
                        push_decimal(&mut out, *pos as u64);
                        out.append(")");
                        Some(out)
                    },
                    Err(_) => None,
                }
            },
            _ => None,
        }
    }
}

} // verus!
