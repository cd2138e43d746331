//! The bus's text form of a fragment: each byte in decimal, each followed
//! by a comma (`128,1,2,`).
use vstd::prelude::*;

verus! {

/// ASCII code of the digit `0`.
pub const DIGIT_ZERO: u8 = 48;

/// ASCII code of the comma that ends each value.
pub const COMMA: u8 = 44;

/// ASCII code of the sign that may stand before a value.
pub const PLUS: u8 = 43;

/// The decimal digits of `b`, without leading zeros.
pub open spec fn decimal(b: u8) -> Seq<u8> {
    if b >= 100 {
        seq![(48 + b / 100) as u8, (48 + (b / 10) % 10) as u8, (48 + b % 10) as u8]
    } else if b >= 10 {
        seq![(48 + b / 10) as u8, (48 + b % 10) as u8]
    } else {
        seq![(48 + b) as u8]
    }
}

/// The text form of `bytes`: each in decimal and followed by a comma.
pub open spec fn encoded(bytes: Seq<u8>) -> Seq<u8>
    decreases bytes.len(),
{
    if bytes.len() == 0 {
        Seq::empty()
    } else {
        encoded(bytes.drop_last()) + decimal(bytes.last()) + seq![COMMA]
    }
}

pub open spec fn is_digit(c: u8) -> bool {
    48 <= c <= 57
}

/// The number that a string of decimal digits spells.
pub open spec fn decimal_value(digits: Seq<u8>) -> nat
    decreases digits.len(),
{
    if digits.len() == 0 {
        0
    } else {
        decimal_value(digits.drop_last()) * 10 + (digits.last() - 48) as nat
    }
}

/// Whether `s` holds decimal digits only.
pub open spec fn all_digits(s: Seq<u8>) -> bool {
    forall|i: int| 0 <= i < s.len() ==> is_digit(#[trigger] s[i])
}

/// A field without its leading `+`, if it has one.
pub open spec fn unsigned_part(field: Seq<u8>) -> Seq<u8> {
    if field.len() > 0 && field[0] == PLUS {
        field.drop_first()
    } else {
        field
    }
}

/// The byte that a field spells: an optional `+`, then one or more decimal
/// digits whose value is at most 255. Any other field spells none.
pub open spec fn field_value(field: Seq<u8>) -> Option<u8> {
    let digits = unsigned_part(field);
    if digits.len() >= 1 && all_digits(digits) && decimal_value(digits) <= 255 {
        Some(decimal_value(digits) as u8)
    } else {
        None
    }
}

/// `text` cut at each comma; a text with `n` commas has `n + 1` fields.
pub open spec fn fields(text: Seq<u8>) -> Seq<Seq<u8>>
    decreases text.len(),
{
    if text.len() == 0 {
        seq![Seq::empty()]
    } else {
        let before = fields(text.drop_last());
        if text.last() == COMMA {
            before.push(Seq::empty())
        } else {
            before.update(before.len() - 1, before.last().push(text.last()))
        }
    }
}

/// The bytes that `fs` spell, in order; fields that spell no byte are
/// skipped.
pub open spec fn field_values(fs: Seq<Seq<u8>>) -> Seq<u8> {
    fs.filter_map(|f: Seq<u8>| field_value(f))
}

/// The bytes that the fields of `text` spell.
pub open spec fn decoded(text: Seq<u8>) -> Seq<u8> {
    field_values(fields(text))
}

/// `opt` as a sequence of zero or one bytes.
pub open spec fn opt_seq(opt: Option<u8>) -> Seq<u8> {
    match opt {
        Some(b) => seq![b],
        None => Seq::empty(),
    }
}

proof fn lemma_field_values_push(fs: Seq<Seq<u8>>, f: Seq<u8>)
    ensures
        field_values(fs.push(f)) == field_values(fs) + opt_seq(field_value(f)),
{
    assert(fs.push(f).drop_last() =~= fs);
    assert(fs.push(f).last() == f);
    match field_value(f) {
        Some(b) => {},
        None => {
            assert(field_values(fs) + opt_seq(field_value(f)) =~= field_values(fs));
        },
    }
}

proof fn lemma_fields_nonempty(text: Seq<u8>)
    ensures
        fields(text).len() >= 1,
    decreases text.len(),
{
    if text.len() > 0 {
        lemma_fields_nonempty(text.drop_last());
    }
}

/// The decimal digits of one byte.
fn push_decimal(out: &mut Vec<u8>, b: u8)
    ensures
        final(out)@ == old(out)@ + decimal(b),
{
    if b >= 100 {
        out.push(DIGIT_ZERO + b / 100);
        out.push(DIGIT_ZERO + (b / 10) % 10);
    } else if b >= 10 {
        out.push(DIGIT_ZERO + b / 10);
    }
    out.push(DIGIT_ZERO + b % 10);
    assert(final(out)@ =~= old(out)@ + decimal(b));
}

/// The text form of a fragment, as ASCII bytes.
pub fn encode(bytes: &[u8]) -> (text: Vec<u8>)
    ensures
        text@ == encoded(bytes@),
{
    let mut text: Vec<u8> = Vec::new();
    let mut i: usize = 0;
    while i < bytes.len()
        invariant
            i <= bytes@.len(),
            text@ == encoded(bytes@.take(i as int)),
        decreases bytes@.len() - i,
    {
        push_decimal(&mut text, bytes[i]);
        text.push(COMMA);
        assert(bytes@.take(i + 1).drop_last() =~= bytes@.take(i as int));
        i = i + 1;
    }
    assert(bytes@.take(i as int) =~= bytes@);
    text
}

/// The byte that `text[start..end]` spells, if any.
fn parse_field(text: &[u8], start: usize, end: usize) -> (r: Option<u8>)
    requires
        start <= end <= text@.len(),
    ensures
        r == field_value(text@.subrange(start as int, end as int)),
{
    let ghost field = text@.subrange(start as int, end as int);
    let mut first: usize = start;
    if first < end && text[first] == PLUS {
        first = first + 1;
    }
    let ghost digits = text@.subrange(first as int, end as int);
    assert(digits =~= unsigned_part(field));
    if first == end {
        return None;
    }
    let mut i: usize = first;
    let mut value: u32 = 0;
    while i < end
        invariant
            start <= first <= i <= end <= text@.len(),
            field == text@.subrange(start as int, end as int),
            digits == text@.subrange(first as int, end as int),
            digits == unsigned_part(field),
            forall|k: int| first <= k < i ==> is_digit(#[trigger] text@[k]),
            value as nat == if decimal_value(text@.subrange(first as int, i as int)) < 256 {
                decimal_value(text@.subrange(first as int, i as int))
            } else {
                256
            },
        decreases end - i,
    {
        let c = text[i];
        if c < DIGIT_ZERO || c > DIGIT_ZERO + 9 {
            assert(digits[i - first] == text@[i as int]);
            assert(!is_digit(digits[i - first]));
            return None;
        }
        let ghost before = text@.subrange(first as int, i as int);
        let ghost after = text@.subrange(first as int, i + 1);
        assert(after.drop_last() =~= before);
        let d: u32 = (c - DIGIT_ZERO) as u32;
        let ghost dv = decimal_value(before);
        assert(decimal_value(after) == dv * 10 + d);
        if value >= 256 || value * 10 + d >= 256 {
            assert(dv * 10 + d >= 256) by (nonlinear_arith)
                requires
                    value >= 256 ==> dv >= 256,
                    value < 256 ==> dv == value,
                    value >= 256 || value * 10 + d >= 256,
            ;
            value = 256;
        } else {
            value = value * 10 + d;
        }
        i = i + 1;
    }
    assert(text@.subrange(first as int, i as int) == digits);
    assert forall|k: int| 0 <= k < digits.len() implies is_digit(#[trigger] digits[k]) by {
        assert(digits[k] == text@[first + k]);
    }
    if value <= 255 {
        Some(value as u8)
    } else {
        None
    }
}

/// The bytes that a text form spells. Fields that are not a decimal byte
/// (the empty field after the last comma among them) are skipped.
pub fn decode(text: &[u8]) -> (bytes: Vec<u8>)
    ensures
        bytes@ == decoded(text@),
{
    let mut out: Vec<u8> = Vec::new();
    let mut start: usize = 0;
    let mut i: usize = 0;
    proof {
        assert(text@.take(0) =~= Seq::<u8>::empty());
        assert(text@.subrange(0, 0) =~= Seq::<u8>::empty());
        assert(fields(Seq::<u8>::empty()).drop_last() =~= Seq::<Seq<u8>>::empty());
    }
    while i < text.len()
        invariant
            start <= i <= text@.len(),
            fields(text@.take(i as int)).len() >= 1,
            fields(text@.take(i as int)).last() == text@.subrange(start as int, i as int),
            out@ == field_values(fields(text@.take(i as int)).drop_last()),
        decreases text@.len() - i,
    {
        let ghost fs = fields(text@.take(i as int));
        let ghost next = text@.take(i + 1);
        assert(next.drop_last() =~= text@.take(i as int));
        assert(next.last() == text@[i as int]);
        if text[i] == COMMA {
            let v = parse_field(text, start, i);
            proof {
                lemma_field_values_push(fs.drop_last(), fs.last());
                assert(fs.drop_last().push(fs.last()) =~= fs);
                assert(fields(next) == fs.push(Seq::empty()));
                assert(fields(next).drop_last() =~= fs);
                assert(text@.subrange(i + 1, i + 1) =~= Seq::<u8>::empty());
            }
            match v {
                Some(b) => {
                    out.push(b);
                },
                None => {},
            }
            assert(out@ =~= field_values(fs.drop_last()) + opt_seq(v));
            start = i + 1;
        } else {
            proof {
                assert(fields(next).drop_last() =~= fs.drop_last());
                assert(text@.subrange(start as int, i + 1) =~= text@.subrange(start as int, i as int).push(text@[i as int]));
            }
        }
        i = i + 1;
    }
    assert(text@.take(i as int) =~= text@);
    let ghost fs = fields(text@);
    let v = parse_field(text, start, i);
    proof {
        lemma_field_values_push(fs.drop_last(), fs.last());
        assert(fs.drop_last().push(fs.last()) =~= fs);
    }
    match v {
        Some(b) => {
            out.push(b);
        },
        None => {},
    }
    assert(out@ =~= field_values(fs.drop_last()) + opt_seq(v));
    out
}

proof fn lemma_decimal_field(b: u8)
    ensures
        field_value(decimal(b)) == Some(b),
        decimal(b).len() >= 1,
        forall|i: int| 0 <= i < decimal(b).len() ==> decimal(b)[i] != COMMA,
{
    let d = decimal(b);
    reveal_with_fuel(decimal_value, 4);
    if b >= 100 {
        assert(d.drop_last() =~= seq![(48 + b / 100) as u8, (48 + (b / 10) % 10) as u8]);
        assert(d.drop_last().drop_last() =~= seq![(48 + b / 100) as u8]);
        assert(d.drop_last().drop_last().drop_last() =~= Seq::<u8>::empty());
    } else if b >= 10 {
        assert(d.drop_last() =~= seq![(48 + b / 10) as u8]);
        assert(d.drop_last().drop_last() =~= Seq::<u8>::empty());
    } else {
        assert(d.drop_last() =~= Seq::<u8>::empty());
    }
    assert(unsigned_part(d) == d);
    assert(all_digits(d));
}

/// Text without commas extends the last field.
proof fn lemma_fields_plain(a: Seq<u8>, t: Seq<u8>)
    requires
        forall|i: int| 0 <= i < t.len() ==> t[i] != COMMA,
    ensures
        fields(a + t) == fields(a).update(fields(a).len() - 1, fields(a).last() + t),
    decreases t.len(),
{
    lemma_fields_nonempty(a);
    if t.len() == 0 {
        assert(a + t =~= a);
        assert(fields(a).last() + t =~= fields(a).last());
        assert(fields(a).update(fields(a).len() - 1, fields(a).last()) =~= fields(a));
    } else {
        let t0 = t.drop_last();
        lemma_fields_plain(a, t0);
        assert((a + t).drop_last() =~= a + t0);
        assert((a + t).last() == t.last());
        assert(t.last() != COMMA);
        let fa = fields(a);
        let before = fields(a + t0);
        assert(before == fa.update(fa.len() - 1, fa.last() + t0));
        assert(before.len() == fa.len());
        assert(before.last() == fa.last() + t0);
        assert(fields(a + t) == before.update(before.len() - 1, before.last().push(t.last())));
        assert(fields(a).last() + t0 + seq![t.last()] =~= fields(a).last() + t);
        assert((fa.last() + t0).push(t.last()) =~= fa.last() + t);
        assert(fields(a + t) =~= fa.update(fa.len() - 1, fa.last() + t));
    }
}

proof fn lemma_fields_of_encoded(bytes: Seq<u8>)
    ensures
        fields(encoded(bytes)) == Seq::new(bytes.len(), |i: int| decimal(bytes[i])).push(
            Seq::empty(),
        ),
    decreases bytes.len(),
{
    let ds = Seq::new(bytes.len(), |i: int| decimal(bytes[i]));
    if bytes.len() == 0 {
        assert(fields(encoded(bytes)) =~= ds.push(Seq::empty()));
    } else {
        let init = bytes.drop_last();
        let x = bytes.last();
        lemma_fields_of_encoded(init);
        lemma_decimal_field(x);
        let a = encoded(init);
        lemma_fields_plain(a, decimal(x));
        let with_digits = a + decimal(x);
        let e = with_digits + seq![COMMA];
        assert(e.drop_last() =~= with_digits);
        assert(Seq::new(init.len(), |i: int| decimal(init[i])).push(Seq::empty()).update(
            init.len() as int,
            Seq::<u8>::empty() + decimal(x),
        ) =~= ds);
        assert(fields(e) =~= ds.push(Seq::empty()));
    }
}

proof fn lemma_decimal_fields_values(bytes: Seq<u8>)
    ensures
        field_values(Seq::new(bytes.len(), |i: int| decimal(bytes[i]))) == bytes,
    decreases bytes.len(),
{
    let ds = Seq::new(bytes.len(), |i: int| decimal(bytes[i]));
    if bytes.len() == 0 {
        assert(field_values(ds) =~= bytes);
    } else {
        let init = bytes.drop_last();
        lemma_decimal_fields_values(init);
        lemma_decimal_field(bytes.last());
        let di = Seq::new(init.len(), |i: int| decimal(init[i]));
        assert(ds =~= di.push(decimal(bytes.last())));
        lemma_field_values_push(di, decimal(bytes.last()));
        assert(init + seq![bytes.last()] =~= bytes);
    }
}

/// Decoding the text form of any bytes gives those bytes back.
pub proof fn lemma_decode_encoded(bytes: Seq<u8>)
    ensures
        decoded(encoded(bytes)) == bytes,
{
    let ds = Seq::new(bytes.len(), |i: int| decimal(bytes[i]));
    lemma_fields_of_encoded(bytes);
    lemma_field_values_push(ds, Seq::empty());
    lemma_decimal_fields_values(bytes);
    assert(field_value(Seq::<u8>::empty()) is None);
    assert(bytes + opt_seq(None) =~= bytes);
}

} // verus!
