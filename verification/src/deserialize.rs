//! Reading a value of a given shape from the start of a byte slice.
use crate::de::{DeserializeError, Deserializer, DeserializerExt, ErrorReason, McDeserializer};
use crate::schema::{
    variant_names,
    dec, dec_fields, dec_seq, error_matches, fields_readable, fields_view, first_variant, items_view,
    len_of, lemma_valid_prefix_len_unique, readable, scalar_dec, value_view, variants_readable, Dec,
    DecErr, FieldSchema, Schema, ValueView, VariantSchema,
};
use crate::value::{Field, Value};
use vstd::prelude::*;

verus! {

/// Whether `r` is what reading described by `d` gives for `input`.
pub open spec fn dec_result<'input>(
    r: Result<(Value, &'input [u8]), DeserializeError<'input>>,
    d: Dec,
    input: Seq<u8>,
) -> bool {
    match d {
        Ok((v, k)) => r matches Ok((x, rest)) && x@ == v && k <= input.len() && rest@ == input.skip(
            k as int,
        ),
        Err(x) => r matches Err(e) && error_matches(e, x),
    }
}

/// The values of the first part, then those of the rest when the rest reads.
pub open spec fn prepend<T>(vs: Seq<T>, c: nat, r: Result<(Seq<T>, nat), DecErr>) -> Result<
    (Seq<T>, nat),
    DecErr,
> {
    match r {
        Ok((ws, m)) => Ok((vs + ws, c + m)),
        Err(x) => Err(x),
    }
}

/// Reading one more part after some is the same as reading them together.
proof fn lemma_prepend_step<T>(vs: Seq<T>, c: nat, v: T, k: nat, r: Result<(Seq<T>, nat), DecErr>)
    ensures
        prepend(vs, c, prepend(seq![v], k, r)) == prepend(vs.push(v), c + k, r),
{
    if let Ok((ws, m)) = r {
        assert(vs + (seq![v] + ws) =~= vs.push(v) + ws);
    }
}

/// The views of values, one more pushed.
pub proof fn lemma_items_view_push(s: Seq<Value>, x: Value)
    ensures
        items_view(s.push(x)) == items_view(s).push(x@),
    decreases s.len(),
{
    if s.len() == 0 {
        assert(s.push(x).drop_first() =~= Seq::<Value>::empty());
        assert(items_view(Seq::<Value>::empty()) =~= Seq::<ValueView>::empty());
        assert(items_view(s.push(x)) =~= seq![value_view(x)]);
    } else {
        assert(s.push(x).drop_first() =~= s.drop_first().push(x));
        lemma_items_view_push(s.drop_first(), x);
        assert(items_view(s.push(x)) =~= items_view(s).push(x@));
    }
}

/// The views of fields, one more pushed.
pub proof fn lemma_fields_view_push(s: Seq<Field>, x: Field)
    ensures
        fields_view(s.push(x)) == fields_view(s).push((x.variable, x.value@)),
    decreases s.len(),
{
    if s.len() == 0 {
        assert(s.push(x).drop_first() =~= Seq::<Field>::empty());
        assert(fields_view(Seq::<Field>::empty()) =~= Seq::<(bool, ValueView)>::empty());
        assert(fields_view(s.push(x)) =~= seq![(x.variable, value_view(x.value))]);
    } else {
        assert(s.push(x).drop_first() =~= s.drop_first().push(x));
        lemma_fields_view_push(s.drop_first(), x);
        assert(fields_view(s.push(x)) =~= fields_view(s).push((x.variable, x.value@)));
    }
}

/// The first variant with a discriminant is the one a search from the start
/// finds.
pub proof fn lemma_first_variant(vs: Seq<VariantSchema>, disc: i64, i: int)
    requires
        0 <= i <= vs.len(),
        forall|j: int| 0 <= j < i ==> #[trigger] vs[j].discriminant != disc,
    ensures
        i < vs.len() && vs[i].discriminant == disc ==> first_variant(vs, disc) == Some(i as nat),
        i == vs.len() ==> first_variant(vs, disc) is None,
    decreases i,
{
    if i > 0 {
        let rest = vs.drop_first();
        assert forall|j: int| 0 <= j < i - 1 implies #[trigger] rest[j].discriminant != disc by {
            assert(rest[j] == vs[j + 1]);
        }
        lemma_first_variant(rest, disc, i - 1);
    } else if vs.len() > 0 {
        if i < vs.len() && vs[i].discriminant == disc {
        }
    }
}

/// Reads `n` values of shape `e` one after another.
fn deserialize_items<'input, D: DeserializerExt>(
    input: &'input [u8],
    e: &Schema,
    n: usize,
    var: bool,
    de: &mut D,
) -> (r: Result<(Vec<Value>, &'input [u8]), DeserializeError<'input>>)
    requires
        readable(*e, var),
    ensures
        match dec_seq(*e, var, n as nat, input@) {
            Ok((vs, k)) => r matches Ok((items, rest)) && items_view(items@) == vs && k
                <= input@.len() && rest@ == input@.skip(k as int),
            Err(x) => r matches Err(err) && error_matches(err, x),
        },
    decreases *e, 2int,
{
    let mut items: Vec<Value> = Vec::new();
    let mut rest = input;
    let mut i: usize = 0;
    let ghost mut c: nat = 0;
    proof {
        assert(input@.skip(0) =~= input@);
        assert(items_view(items@) =~= Seq::<ValueView>::empty());
        let r0 = dec_seq(*e, var, n as nat, input@);
        if let Ok((ws, m)) = r0 {
            assert(Seq::<ValueView>::empty() + ws =~= ws);
        }
    }
    while i < n
        invariant
            readable(*e, var),
            i <= n,
            c <= input@.len(),
            rest@ == input@.skip(c as int),
            dec_seq(*e, var, n as nat, input@) == prepend(
                items_view(items@),
                c,
                dec_seq(*e, var, (n - i) as nat, input@.skip(c as int)),
            ),
        decreases n - i,
    {
        let ghost here = input@.skip(c as int);
        match deserialize_value(rest, e, var, de) {
            Ok((x, after)) => {
                proof {
                    let (v, k) = dec(*e, var, here)->Ok_0;
                    lemma_prepend_step(
                        items_view(items@),
                        c,
                        v,
                        k,
                        dec_seq(*e, var, (n - i - 1) as nat, here.skip(k as int)),
                    );
                    lemma_items_view_push(items@, x);
                    assert(here.skip(k as int) =~= input@.skip((c + k) as int));
                    c = c + k;
                }
                items.push(x);
                rest = after;
                i += 1;
            },
            Err(err) => {
                return Err(err);
            },
        }
    }
    proof {
        assert(items_view(items@) + Seq::<ValueView>::empty() =~= items_view(items@));
    }
    Ok((items, rest))
}

/// Reads fields one after another, each as its marking says.
fn deserialize_fields<'input, D: DeserializerExt>(
    input: &'input [u8],
    fs: &Vec<FieldSchema>,
    de: &mut D,
) -> (r: Result<(Vec<Field>, &'input [u8]), DeserializeError<'input>>)
    requires
        fields_readable(fs@),
    ensures
        match dec_fields(fs@, input@) {
            Ok((vs, k)) => r matches Ok((fields, rest)) && fields_view(fields@) == vs && k
                <= input@.len() && rest@ == input@.skip(k as int),
            Err(x) => r matches Err(err) && error_matches(err, x),
        },
    decreases *fs, 0int,
{
    let mut fields: Vec<Field> = Vec::new();
    let mut rest = input;
    let mut i: usize = 0;
    let ghost mut c: nat = 0;
    proof {
        assert(input@.skip(0) =~= input@);
        assert(fs@.skip(0) =~= fs@);
        assert(fields_view(fields@) =~= Seq::<(bool, ValueView)>::empty());
        let r0 = dec_fields(fs@, input@);
        if let Ok((ws, m)) = r0 {
            assert(Seq::<(bool, ValueView)>::empty() + ws =~= ws);
        }
    }
    while i < fs.len()
        invariant
            fields_readable(fs@),
            i <= fs@.len(),
            c <= input@.len(),
            rest@ == input@.skip(c as int),
            fields_readable(fs@.skip(i as int)),
            dec_fields(fs@, input@) == prepend(
                fields_view(fields@),
                c,
                dec_fields(fs@.skip(i as int), input@.skip(c as int)),
            ),
        decreases fs@.len() - i,
    {
        let ghost here = input@.skip(c as int);
        let ghost tail = fs@.skip(i as int);
        let f = &fs[i];
        proof {
            assert(tail[0] == fs@[i as int]);
            assert(tail.drop_first() =~= fs@.skip(i + 1));
        }
        match deserialize_value(rest, &f.schema, f.variable, de) {
            Ok((x, after)) => {
                let field = Field { variable: f.variable, value: x };
                proof {
                    let (v, k) = dec(f.schema, f.variable, here)->Ok_0;
                    lemma_prepend_step(
                        fields_view(fields@),
                        c,
                        (f.variable, v),
                        k,
                        dec_fields(tail.drop_first(), here.skip(k as int)),
                    );
                    lemma_fields_view_push(fields@, field);
                    assert(here.skip(k as int) =~= input@.skip((c + k) as int));
                    c = c + k;
                }
                fields.push(field);
                rest = after;
                i += 1;
            },
            Err(err) => {
                return Err(err);
            },
        }
    }
    proof {
        assert(fs@.skip(i as int) =~= Seq::<FieldSchema>::empty());
        assert(fields_view(fields@) + Seq::<(bool, ValueView)>::empty() =~= fields_view(fields@));
    }
    Ok((fields, rest))
}

/// A variable-length integer that reads ends within the input.
proof fn lemma_var_read_fits(s: Seq<u8>, max: nat)
    requires
        max >= 1,
    ensures
        crate::varint::var_read(s, max) matches Some((v, k)) ==> k <= s.len(),
{
    if crate::varint::var_end(s, 0, max) is Some {
        crate::varint::lemma_var_end_range(s, 0, max);
    }
}

/// Reads a scalar of the given shape.
fn deserialize_scalar<'input, D: DeserializerExt>(
    input: &'input [u8],
    schema: &Schema,
    var: bool,
    de: &mut D,
) -> (r: Result<(Value, &'input [u8]), DeserializeError<'input>>)
    requires
        readable(*schema, var),
        !(schema is Array || schema is List || schema is Optional || schema is Pointer
            || schema is Struct || schema is Enum),
    ensures
        dec_result(r, scalar_dec(*schema, var, input@), input@),
{
    if !var {
        match schema {
            Schema::Unit => match de.deserialize_unit(input) {
                Ok((_, rest)) => {
                    assert(input@.skip(0) =~= input@);
                    Ok((Value::Unit, rest))
                },
                Err(e) => Err(e),
            },
            Schema::Bool => match de.deserialize_bool(input) {
                Ok((x, rest)) => Ok((Value::Bool(x), rest)),
                Err(e) => Err(e),
            },
            Schema::U8 => match de.deserialize_u8(input) {
                Ok((x, rest)) => Ok((Value::U8(x), rest)),
                Err(e) => Err(e),
            },
            Schema::U16 => match de.deserialize_u16(input) {
                Ok((x, rest)) => Ok((Value::U16(x), rest)),
                Err(e) => Err(e),
            },
            Schema::U32 => match de.deserialize_u32(input) {
                Ok((x, rest)) => Ok((Value::U32(x), rest)),
                Err(e) => Err(e),
            },
            Schema::U64 => match de.deserialize_u64(input) {
                Ok((x, rest)) => Ok((Value::U64(x), rest)),
                Err(e) => Err(e),
            },
            Schema::U128 => match de.deserialize_u128(input) {
                Ok((x, rest)) => Ok((Value::U128(x), rest)),
                Err(e) => Err(e),
            },
            Schema::USize => match de.deserialize_usize(input) {
                Ok((x, rest)) => Ok((Value::USize(x), rest)),
                Err(e) => Err(e),
            },
            Schema::I8 => match de.deserialize_i8(input) {
                Ok((x, rest)) => Ok((Value::I8(x), rest)),
                Err(e) => Err(e),
            },
            Schema::I16 => match de.deserialize_i16(input) {
                Ok((x, rest)) => Ok((Value::I16(x), rest)),
                Err(e) => Err(e),
            },
            Schema::I32 => match de.deserialize_i32(input) {
                Ok((x, rest)) => Ok((Value::I32(x), rest)),
                Err(e) => Err(e),
            },
            Schema::I64 => match de.deserialize_i64(input) {
                Ok((x, rest)) => Ok((Value::I64(x), rest)),
                Err(e) => Err(e),
            },
            Schema::I128 => match de.deserialize_i128(input) {
                Ok((x, rest)) => Ok((Value::I128(x), rest)),
                Err(e) => Err(e),
            },
            Schema::ISize => match de.deserialize_isize(input) {
                Ok((x, rest)) => Ok((Value::ISize(x), rest)),
                Err(e) => Err(e),
            },
            Schema::F32 => match de.deserialize_f32(input) {
                Ok((x, rest)) => Ok((Value::F32(x), rest)),
                Err(e) => Err(e),
            },
            Schema::F64 => match de.deserialize_f64(input) {
                Ok((x, rest)) => Ok((Value::F64(x), rest)),
                Err(e) => Err(e),
            },
            _ => match de.deserialize_str(input) {
                Ok((s, rest)) => {
                    proof {
                        let (v, k) = crate::varint::var_read(input@, 10).unwrap();
                        crate::varint::lemma_var_end_range(input@, 0, 10);
                        let len = len_of(v);
                        assert(input@.skip(k as int).skip(len as int) =~= input@.skip(
                            (k + len) as int,
                        ));
                    }
                    Ok((Value::Str(s.to_owned()), rest))
                },
                Err(e) => {
                    proof {
                        if let Some((v, k)) = crate::varint::var_read(input@, 10) {
                            let len = len_of(v);
                            let remainder = input@.skip(k as int);
                            if len <= remainder.len() && !vstd::utf8::valid_utf8(
                                remainder.take(len as int),
                            ) {
                                if let ErrorReason::InvalidUtf8(p) = e.reason {
                                    let b = remainder.take(len as int);
                                    assert(b.take(p as int) =~= remainder.take(p as int));
                                    lemma_valid_prefix_len_unique(b, p as nat);
                                }
                            }
                        }
                    }
                    Err(e)
                },
            },
        }
    } else {
        proof {
            lemma_var_read_fits(input@, 3);
            lemma_var_read_fits(input@, 5);
            lemma_var_read_fits(input@, 10);
            lemma_var_read_fits(input@, 19);
        }
        match schema {
            Schema::U16 => match de.deserialize_var_u16(input) {
                Ok((x, rest)) => Ok((Value::U16(x), rest)),
                Err(e) => Err(e),
            },
            Schema::U32 => match de.deserialize_var_u32(input) {
                Ok((x, rest)) => Ok((Value::U32(x), rest)),
                Err(e) => Err(e),
            },
            Schema::U64 => match de.deserialize_var_u64(input) {
                Ok((x, rest)) => Ok((Value::U64(x), rest)),
                Err(e) => Err(e),
            },
            Schema::U128 => match de.deserialize_var_u128(input) {
                Ok((x, rest)) => Ok((Value::U128(x), rest)),
                Err(e) => Err(e),
            },
            Schema::USize => match de.deserialize_var_usize(input) {
                Ok((x, rest)) => Ok((Value::USize(x), rest)),
                Err(e) => Err(e),
            },
            Schema::I16 => match de.deserialize_var_i16(input) {
                Ok((x, rest)) => Ok((Value::I16(x), rest)),
                Err(e) => Err(e),
            },
            Schema::I32 => match de.deserialize_var_i32(input) {
                Ok((x, rest)) => Ok((Value::I32(x), rest)),
                Err(e) => Err(e),
            },
            Schema::I64 => match de.deserialize_var_i64(input) {
                Ok((x, rest)) => Ok((Value::I64(x), rest)),
                Err(e) => Err(e),
            },
            Schema::I128 => match de.deserialize_var_i128(input) {
                Ok((x, rest)) => Ok((Value::I128(x), rest)),
                Err(e) => Err(e),
            },
            _ => match de.deserialize_var_isize(input) {
                Ok((x, rest)) => Ok((Value::ISize(x), rest)),
                Err(e) => Err(e),
            },
        }
    }
}

/// Reads a list: its length, then its items.
fn deserialize_list<'input, D: DeserializerExt>(
    input: &'input [u8],
    schema: &Schema,
    var: bool,
    de: &mut D,
) -> (r: Result<(Value, &'input [u8]), DeserializeError<'input>>)
    requires
        schema is List,
        readable(*schema, var),
    ensures
        dec_result(r, dec(*schema, var, input@), input@),
    decreases *schema, 0int,
{
    let e = match schema {
        Schema::List(e) => &**e,
        _ => return Err(DeserializeError::new(input, String::new(), ErrorReason::EndOfInput)),
    };
    let (len, after) = match de.deserialize_var_usize(input) {
        Ok(x) => x,
        Err(err) => return Err(err),
    };
    let ghost k = (input@.len() - after@.len()) as nat;
    proof {
        let (v, kk) = crate::varint::var_read(input@, 10).unwrap();
        assert(kk <= input@.len()) by {
            crate::varint::lemma_var_end_range(input@, 0, 10);
        }
        assert(kk == k);
    }
    match deserialize_items(after, e, len, var, de) {
        Ok((items, rest)) => {
            proof {
                let (vs, m) = dec_seq(*e, var, len as nat, after@)->Ok_0;
                assert(after@.skip(m as int) =~= input@.skip((k + m) as int));
            }
            Ok((Value::List(items), rest))
        },
        Err(err) => Err(err),
    }
}

/// Reads an optional value: whether it is there, then the value.
fn deserialize_option<'input, D: DeserializerExt>(
    input: &'input [u8],
    schema: &Schema,
    var: bool,
    de: &mut D,
) -> (r: Result<(Value, &'input [u8]), DeserializeError<'input>>)
    requires
        schema is Optional,
        readable(*schema, var),
    ensures
        dec_result(r, dec(*schema, var, input@), input@),
    decreases *schema, 0int,
{
    let e = match schema {
        Schema::Optional(e) => &**e,
        _ => return Err(DeserializeError::new(input, String::new(), ErrorReason::EndOfInput)),
    };
    let (present, after) = match de.deserialize_bool(input) {
        Ok(x) => x,
        Err(err) => return Err(err),
    };
    if present {
        match deserialize_value(after, e, var, de) {
            Ok((x, rest)) => {
                proof {
                    let (v, m) = dec(*e, var, input@.skip(1))->Ok_0;
                    assert(input@.skip(1).skip(m as int) =~= input@.skip((1 + m) as int));
                }
                Ok((Value::Optional(Some(Box::new(x))), rest))
            },
            Err(err) => Err(err),
        }
    } else {
        Ok((Value::Optional(None), after))
    }
}

/// Reads an enum: the discriminant that selects the variant, then the
/// variant's fields.
fn deserialize_enum<'input, D: DeserializerExt>(
    input: &'input [u8],
    schema: &Schema,
    de: &mut D,
) -> (r: Result<(Value, &'input [u8]), DeserializeError<'input>>)
    requires
        schema is Enum,
        readable(*schema, false),
    ensures
        dec_result(r, dec(*schema, false, input@), input@),
    decreases *schema, 0int,
{
    let (name, variants) = match schema {
        Schema::Enum { name, variants } => (name, variants),
        _ => return Err(DeserializeError::new(input, String::new(), ErrorReason::EndOfInput)),
    };
    let (disc, after) = match de.deserialize_var_i64(input) {
        Ok(x) => x,
        Err(err) => return Err(err),
    };
    let ghost k = (input@.len() - after@.len()) as nat;
    proof {
        let (v, kk) = crate::varint::var_read(input@, 10).unwrap();
        assert(kk <= input@.len()) by {
            crate::varint::lemma_var_end_range(input@, 0, 10);
        }
        assert(kk == k);
    }
    let mut index: usize = 0;
    while index < variants.len() && variants[index].discriminant != disc
        invariant
            index <= variants@.len(),
            forall|j: int| 0 <= j < index ==> #[trigger] variants@[j].discriminant != disc,
        decreases variants@.len() - index,
    {
        index += 1;
    }
    proof {
        lemma_first_variant(variants@, disc, index as int);
    }
    if index == variants.len() {
        let names = variant_list(variants);
        return Err(
            DeserializeError::new(input, name.clone(), ErrorReason::InvalidVariant(disc)).with_length(
                input.len() - after.len(),
            ).with_variants(Some(names)),
        );
    }
    proof {
        lemma_variants_readable(variants@, index as int);
    }
    match deserialize_fields(after, &variants[index].fields, de) {
        Ok((fs, rest)) => {
            proof {
                let (vs, m) = dec_fields(variants@[index as int].fields@, after@)->Ok_0;
                assert(after@.skip(m as int) =~= input@.skip((k + m) as int));
                assert(after@ == input@.skip(k as int));
                assert(first_variant(variants@, disc) == Some(index as nat));
                assert(dec(*schema, false, input@) == Ok::<(ValueView, nat), DecErr>(
                    (ValueView::Enum(disc, vs), k + m),
                ));
            }
            let v = Value::Enum { discriminant: disc, fields: fs };
            assert(v@ == ValueView::Enum(disc, fields_view(fs@)));
            Ok((v, rest))
        },
        Err(err) => Err(err),
    }
}

/// The names and discriminants of an enum's variants.
fn variant_list(variants: &Vec<VariantSchema>) -> (r: Vec<(String, i64)>)
    ensures
        r@.map_values(|x: (String, i64)| (x.0@, x.1)) == variant_names(variants@),
{
    let mut names: Vec<(String, i64)> = Vec::new();
    let mut i: usize = 0;
    while i < variants.len()
        invariant
            i <= variants@.len(),
            names@.map_values(|x: (String, i64)| (x.0@, x.1)) == variant_names(variants@.take(i as int)),
        decreases variants@.len() - i,
    {
        let v = &variants[i];
        let entry = (v.name.clone(), v.discriminant);
        let ghost before = names@;
        names.push(entry);
        proof {
            assert(variants@.take(i + 1) =~= variants@.take(i as int).push(variants@[i as int]));
            assert(names@.map_values(|x: (String, i64)| (x.0@, x.1)) =~= before.map_values(
                |x: (String, i64)| (x.0@, x.1),
            ).push((entry.0@, entry.1)));
            assert(variant_names(variants@.take(i + 1)) =~= variant_names(variants@.take(i as int)).push(
                (variants@[i as int].name@, variants@[i as int].discriminant),
            ));
        }
        i += 1;
    }
    assert(variants@.take(variants@.len() as int) =~= variants@);
    names
}

/// Reads a value of the given shape from the start of `input`, in the
/// variable-length encoding when `var` is set: the value and the rest of
/// the input.
pub fn deserialize_value<'input, D: DeserializerExt>(
    input: &'input [u8],
    schema: &Schema,
    var: bool,
    de: &mut D,
) -> (r: Result<(Value, &'input [u8]), DeserializeError<'input>>)
    requires
        readable(*schema, var),
    ensures
        dec_result(r, dec(*schema, var, input@), input@),
    decreases *schema, 1int,
{
    match schema {
        Schema::Array(e, n) => match deserialize_items(input, &**e, *n, var, de) {
            Ok((items, rest)) => Ok((Value::Array(items), rest)),
            Err(err) => Err(err),
        },
        Schema::List(_) => deserialize_list(input, schema, var, de),
        Schema::Optional(_) => deserialize_option(input, schema, var, de),
        Schema::Pointer(e) => match deserialize_value(input, &**e, var, de) {
            Ok((x, rest)) => Ok((Value::Pointer(Some(Box::new(x))), rest)),
            Err(err) => Err(err),
        },
        Schema::Struct(fields) => match deserialize_fields(input, fields, de) {
            Ok((fs, rest)) => Ok((Value::Struct(fs), rest)),
            Err(err) => Err(err),
        },
        Schema::Enum { .. } => deserialize_enum(input, schema, de),
        _ => deserialize_scalar(input, schema, var, de),
    }
}

/// Every variant of a readable enum has readable fields.
proof fn lemma_variants_readable(vs: Seq<VariantSchema>, i: int)
    requires
        variants_readable(vs),
        0 <= i < vs.len(),
    ensures
        fields_readable(vs[i].fields@),
    decreases i,
{
    if i > 0 {
        assert(vs.drop_first()[i - 1] == vs[i]);
        lemma_variants_readable(vs.drop_first(), i - 1);
    }
}

/// Deserialize a value of the given shape from the start of `input` with
/// the given deserializer: the value and the rest of the input.
pub fn deserialize_iterative<'input, D: DeserializerExt>(
    input: &'input [u8],
    schema: &Schema,
    de: D,
) -> (r: Result<(Value, &'input [u8]), DeserializeError<'input>>)
    requires
        readable(*schema, false),
    ensures
        dec_result(r, dec(*schema, false, input@), input@),
{
    let mut de = de;
    deserialize_value(input, schema, false, &mut de)
}

impl McDeserializer {
    /// Deserialize a value of the given shape from the start of `input`: the
    /// value and the rest of the input.
    pub fn deserialize<'input>(input: &'input [u8], schema: &Schema) -> (r: Result<
        (Value, &'input [u8]),
        DeserializeError<'input>,
    >)
        requires
            readable(*schema, false),
        ensures
            dec_result(r, dec(*schema, false, input@), input@),
    {
        deserialize_iterative(input, schema, McDeserializer)
    }
}

/// Deserialize a value of the given shape from the start of `input`: the
/// value and the rest of the input.
pub fn deserialize<'input>(input: &'input [u8], schema: &Schema) -> (r: Result<
    (Value, &'input [u8]),
    DeserializeError<'input>,
>)
    requires
        readable(*schema, false),
    ensures
        dec_result(r, dec(*schema, false, input@), input@),
{
    McDeserializer::deserialize(input, schema)
}

} // verus!
