use vstd::prelude::*;

use crate::error::AbiError;
use crate::text::{char_from_code, chars_of, is_scalar_code, push_char};
use crate::types::{fields_model, lemma_fields_model, Type, TypeModel};

verus! {

/// Exactly four words: a 256-bit quantity such as an address, a hash or an
/// event topic. On the wire its words go in the order in which it holds them.
#[derive(Debug, Clone, Copy, PartialEq, Eq)]
pub struct FixedArray4(pub [u64; 4]);

impl FixedArray4 {
    /// Whether both hold the same four words.
    pub fn same_words(&self, other: &FixedArray4) -> (r: bool)
        ensures
            r == (self.0@ == other.0@),
    {
        let r = self.0[0] == other.0[0] && self.0[1] == other.0[1] && self.0[2] == other.0[2]
            && self.0[3] == other.0[3];
        if r {
            assert(self.0@ =~= other.0@);
        }
        r
    }
}

/// A value of an ABI type.
#[derive(Debug, PartialEq, Eq)]
pub enum Value {
    U32(u32),
    U256(FixedArray4),
    Field(u64),
    Address(FixedArray4),
    Hash(FixedArray4),
    Bool(bool),
    String(String),
    Fields(Vec<u64>),
    /// The elements and the element type, which an empty array needs.
    Array(Vec<Value>, Type),
    /// The elements and the element type.
    FixedArray(Vec<Value>, Type),
    /// Named field values, in declaration order.
    Tuple(Vec<(String, Value)>),
}

/// The mathematical model of a `Value`.
pub enum ValueModel {
    U32(u32),
    U256(Seq<u64>),
    Field(u64),
    Address(Seq<u64>),
    Hash(Seq<u64>),
    Bool(bool),
    String(Seq<char>),
    Fields(Seq<u64>),
    Array(Seq<ValueModel>, TypeModel),
    FixedArray(Seq<ValueModel>, TypeModel),
    Tuple(Seq<(Seq<char>, ValueModel)>),
}

impl Value {
    pub open spec fn model(&self) -> ValueModel
        decreases self,
    {
        match self {
            Value::U32(x) => ValueModel::U32(*x),
            Value::U256(w) => ValueModel::U256(w.0@),
            Value::Field(x) => ValueModel::Field(*x),
            Value::Address(w) => ValueModel::Address(w.0@),
            Value::Hash(w) => ValueModel::Hash(w.0@),
            Value::Bool(b) => ValueModel::Bool(*b),
            Value::String(s) => ValueModel::String(s@),
            Value::Fields(ws) => ValueModel::Fields(ws@),
            Value::Array(vs, t) => ValueModel::Array(values_model(vs@), t.model()),
            Value::FixedArray(vs, t) => ValueModel::FixedArray(values_model(vs@), t.model()),
            Value::Tuple(fs) => ValueModel::Tuple(named_values_model(fs@)),
        }
    }
}

pub open spec fn values_model(vs: Seq<Value>) -> Seq<ValueModel>
    decreases vs,
{
    if vs.len() == 0 {
        Seq::empty()
    } else {
        values_model(vs.drop_last()).push(vs.last().model())
    }
}

pub open spec fn named_values_model(fs: Seq<(String, Value)>) -> Seq<(Seq<char>, ValueModel)>
    decreases fs,
{
    if fs.len() == 0 {
        Seq::empty()
    } else {
        named_values_model(fs.drop_last()).push((fs.last().0@, fs.last().1.model()))
    }
}

pub proof fn lemma_values_model(vs: Seq<Value>)
    ensures
        values_model(vs).len() == vs.len(),
        forall|i: int| 0 <= i < vs.len() ==> #[trigger] values_model(vs)[i] == vs[i].model(),
    decreases vs.len(),
{
    if vs.len() > 0 {
        lemma_values_model(vs.drop_last());
    }
}

pub proof fn lemma_named_values_model(fs: Seq<(String, Value)>)
    ensures
        named_values_model(fs).len() == fs.len(),
        forall|i: int|
            0 <= i < fs.len() ==> #[trigger] named_values_model(fs)[i] == (
                fs[i].0@,
                fs[i].1.model(),
            ),
    decreases fs.len(),
{
    if fs.len() > 0 {
        lemma_named_values_model(fs.drop_last());
    }
}

/// One word per character: its code point.
pub open spec fn char_words(cs: Seq<char>) -> Seq<u64> {
    Seq::new(cs.len(), |i: int| cs[i] as u32 as u64)
}

/// The words that encode one value.
pub open spec fn enc(v: ValueModel) -> Seq<u64>
    decreases v,
{
    match v {
        ValueModel::U32(x) => seq![x as u64],
        ValueModel::Field(x) => seq![x],
        ValueModel::Bool(b) => seq![if b { 1u64 } else { 0u64 }],
        ValueModel::U256(w) => w,
        ValueModel::Address(w) => w,
        ValueModel::Hash(w) => w,
        ValueModel::String(cs) => seq![cs.len() as u64] + char_words(cs),
        ValueModel::Fields(ws) => seq![ws.len() as u64] + ws,
        ValueModel::Array(vs, _) => seq![vs.len() as u64] + encs(vs),
        ValueModel::FixedArray(vs, _) => encs(vs),
        ValueModel::Tuple(fs) => enc_fields(fs),
    }
}

/// The encodings of the values, one after another.
pub open spec fn encs(vs: Seq<ValueModel>) -> Seq<u64>
    decreases vs,
{
    if vs.len() == 0 {
        Seq::empty()
    } else {
        encs(vs.drop_last()) + enc(vs.last())
    }
}

/// The encodings of the field values, in declaration order.
pub open spec fn enc_fields(fs: Seq<(Seq<char>, ValueModel)>) -> Seq<u64>
    decreases fs,
{
    if fs.len() == 0 {
        Seq::empty()
    } else {
        enc_fields(fs.drop_last()) + enc(fs.last().1)
    }
}

/// The character whose code is `w`.
pub open spec fn char_of(w: u64) -> char {
    choose|c: char| is_code_of(c, w)
}

pub open spec fn is_code_of(c: char, w: u64) -> bool {
    c as u32 as u64 == w
}

/// The value of type `t` that the words at `p` encode, and the position
/// after it.
pub open spec fn dec(ws: Seq<u64>, p: int, t: TypeModel) -> Option<(ValueModel, int)>
    decreases t, 0nat,
{
    if p < 0 || (p >= ws.len() && !(t is FixedArray) && !(t is Tuple)) {
        None
    } else {
        match t {
            TypeModel::U32 => if ws[p] <= u32::MAX {
                Some((ValueModel::U32(ws[p] as u32), p + 1))
            } else {
                None
            },
            TypeModel::Field => Some((ValueModel::Field(ws[p]), p + 1)),
            TypeModel::Bool => if ws[p] == 0 {
                Some((ValueModel::Bool(false), p + 1))
            } else if ws[p] == 1 {
                Some((ValueModel::Bool(true), p + 1))
            } else {
                None
            },
            TypeModel::U256 => if p + 4 <= ws.len() {
                Some((ValueModel::U256(ws.subrange(p, p + 4)), p + 4))
            } else {
                None
            },
            TypeModel::Address => if p + 4 <= ws.len() {
                Some((ValueModel::Address(ws.subrange(p, p + 4)), p + 4))
            } else {
                None
            },
            TypeModel::Hash => if p + 4 <= ws.len() {
                Some((ValueModel::Hash(ws.subrange(p, p + 4)), p + 4))
            } else {
                None
            },
            TypeModel::String => {
                let n = ws[p] as int;
                if p + 1 + n <= ws.len() && (forall|i: int|
                    p + 1 <= i < p + 1 + n ==> is_scalar_code(#[trigger] ws[i] as int)) {
                    Some(
                        (
                            ValueModel::String(Seq::new(n as nat, |i: int| char_of(ws[p + 1 + i]))),
                            p + 1 + n,
                        ),
                    )
                } else {
                    None
                }
            },
            TypeModel::Fields => {
                let n = ws[p] as int;
                if p + 1 + n <= ws.len() {
                    Some((ValueModel::Fields(ws.subrange(p + 1, p + 1 + n)), p + 1 + n))
                } else {
                    None
                }
            },
            TypeModel::Array(e) => match dec_repeat(ws, p + 1, *e, ws[p] as nat) {
                Some((vs, q)) => Some((ValueModel::Array(vs, *e), q)),
                None => None,
            },
            TypeModel::FixedArray(e, n) => match dec_repeat(ws, p, *e, n as nat) {
                Some((vs, q)) => Some((ValueModel::FixedArray(vs, *e), q)),
                None => None,
            },
            TypeModel::Tuple(fs) => match dec_fields(ws, p, fs) {
                Some((vs, q)) => Some((ValueModel::Tuple(vs), q)),
                None => None,
            },
        }
    }
}

/// `n` values of type `e` one after another from `p`.
pub open spec fn dec_repeat(ws: Seq<u64>, p: int, e: TypeModel, n: nat) -> Option<
    (Seq<ValueModel>, int),
>
    decreases e, n,
{
    if n == 0 {
        Some((Seq::empty(), p))
    } else {
        match dec(ws, p, e) {
            None => None,
            Some((v, q)) => match dec_repeat(ws, q, e, (n - 1) as nat) {
                None => None,
                Some((vs, r)) => Some((seq![v] + vs, r)),
            },
        }
    }
}

/// The values of the fields, one after another from `p`.
pub open spec fn dec_fields(ws: Seq<u64>, p: int, fs: Seq<(Seq<char>, TypeModel)>) -> Option<
    (Seq<(Seq<char>, ValueModel)>, int),
>
    decreases fs, 0nat,
{
    if fs.len() == 0 {
        Some((Seq::empty(), p))
    } else {
        match dec(ws, p, fs[0].1) {
            None => None,
            Some((v, q)) => match dec_fields(ws, q, fs.skip(1)) {
                None => None,
                Some((vs, r)) => Some((seq![(fs[0].0, v)] + vs, r)),
            },
        }
    }
}

/// The values of the types, one after another from `p`.
pub open spec fn dec_all(ws: Seq<u64>, p: int, ts: Seq<TypeModel>) -> Option<(Seq<ValueModel>, int)>
    decreases ts,
{
    if ts.len() == 0 {
        Some((Seq::empty(), p))
    } else {
        match dec(ws, p, ts[0]) {
            None => None,
            Some((v, q)) => match dec_all(ws, q, ts.skip(1)) {
                None => None,
                Some((vs, r)) => Some((seq![v] + vs, r)),
            },
        }
    }
}

} // verus!

verus! {

proof fn lemma_string_fails(ws: Seq<u64>, p: int, k: int)
    requires
        0 <= p < ws.len(),
        p + 1 <= k < p + 1 + ws[p],
        !is_scalar_code(ws[k] as int),
    ensures
        dec(ws, p, TypeModel::String) is None,
{
}

proof fn lemma_char_code_injective(c: char, w: u64)
    requires
        is_code_of(c, w),
    ensures
        char_of(w) == c,
{
    assert(is_code_of(char_of(w), w));
}

/// The models of a list of types.
pub open spec fn types_model(ts: Seq<Type>) -> Seq<TypeModel> {
    Seq::new(ts.len(), |i: int| ts[i].model())
}

pub open spec fn values_then(acc: Seq<ValueModel>, o: Option<(Seq<ValueModel>, int)>) -> Option<
    (Seq<ValueModel>, int),
> {
    match o {
        Some((vs, q)) => Some((acc + vs, q)),
        None => None,
    }
}

pub open spec fn named_then(
    acc: Seq<(Seq<char>, ValueModel)>,
    o: Option<(Seq<(Seq<char>, ValueModel)>, int)>,
) -> Option<(Seq<(Seq<char>, ValueModel)>, int)> {
    match o {
        Some((vs, q)) => Some((acc + vs, q)),
        None => None,
    }
}

} // verus!

verus! {

impl Value {
    /// Appends the encoding of this value to `out`.
    pub fn encode_into(&self, out: &mut Vec<u64>)
        ensures
            final(out)@ == old(out)@ + enc(self.model()),
        decreases self,
    {
        let ghost start = out@;
        match self {
            Value::U32(x) => {
                out.push(*x as u64);
            },
            Value::Field(x) => {
                out.push(*x);
            },
            Value::Bool(b) => {
                out.push(if *b { 1u64 } else { 0u64 });
            },
            Value::U256(w) | Value::Address(w) | Value::Hash(w) => {
                out.push(w.0[0]);
                out.push(w.0[1]);
                out.push(w.0[2]);
                out.push(w.0[3]);
            },
            Value::String(s) => {
                let cs = chars_of(s.as_str());
                out.push(cs.len() as u64);
                let mut i: usize = 0;
                while i < cs.len()
                    invariant
                        cs@ == s@,
                        i <= cs@.len(),
                        out@ == start + seq![cs@.len() as u64] + char_words(cs@).take(i as int),
                    decreases cs@.len() - i,
                {
                    out.push(cs[i] as u32 as u64);
                    i = i + 1;
                    assert(char_words(cs@).take(i as int) =~= char_words(cs@).take(i - 1 as int).push(
                        cs@[i - 1] as u32 as u64,
                    ));
                }
                assert(char_words(cs@).take(i as int) =~= char_words(cs@));
            },
            Value::Fields(ws) => {
                out.push(ws.len() as u64);
                let mut i: usize = 0;
                while i < ws.len()
                    invariant
                        i <= ws@.len(),
                        out@ == start + seq![ws@.len() as u64] + ws@.take(i as int),
                    decreases ws@.len() - i,
                {
                    out.push(ws[i]);
                    i = i + 1;
                    assert(ws@.take(i as int) =~= ws@.take(i - 1 as int).push(ws@[i - 1]));
                }
                assert(ws@.take(i as int) =~= ws@);
            },
            Value::Array(vs, _) => {
                out.push(vs.len() as u64);
                encode_each(vs, out);
                proof {
                    lemma_values_model(vs@);
                }
                assert(out@ =~= start + enc(self.model()));
            },
            Value::FixedArray(vs, _) => {
                encode_each(vs, out);
            },
            Value::Tuple(fs) => {
                let mut i: usize = 0;
                while i < fs.len()
                    invariant
                        *self == Value::Tuple(*fs),
                        i <= fs@.len(),
                        out@ == start + enc_fields(named_values_model(fs@.take(i as int))),
                    decreases fs@.len() - i,
                {
                    proof {
                        assert(decreases_to!(*self => self->Tuple_0));
                        assert(decreases_to!(*fs => fs@));
                        vstd::seq::axiom_seq_index_decreases(fs@, i as int);
                        assert(decreases_to!(fs@[i as int] => fs@[i as int].1));
                    }
                    let ghost before = out@;
                    fs[i].1.encode_into(out);
                    proof {
                        let t = fs@.take(i + 1 as int);
                        assert(t.drop_last() =~= fs@.take(i as int));
                        assert(named_values_model(t).drop_last() =~= named_values_model(
                            fs@.take(i as int),
                        ));
                    }
                    i = i + 1;
                    assert(out@ =~= start + enc_fields(named_values_model(fs@.take(i as int))));
                }
                assert(fs@.take(i as int) =~= fs@);
            },
        }
        assert(final(out)@ =~= old(out)@ + enc(self.model()));
    }

    /// The encodings of the values, one after another, with no separators.
    pub fn encode(values: &[Value]) -> (r: Vec<u64>)
        ensures
            r@ == encs(values_model(values@)),
    {
        let mut out: Vec<u64> = Vec::new();
        let mut i: usize = 0;
        while i < values.len()
            invariant
                i <= values@.len(),
                out@ == encs(values_model(values@.take(i as int))),
            decreases values@.len() - i,
        {
            values[i].encode_into(&mut out);
            proof {
                let t = values@.take(i + 1 as int);
                assert(t.drop_last() =~= values@.take(i as int));
                assert(values_model(t).drop_last() =~= values_model(values@.take(i as int)));
            }
            i = i + 1;
        }
        assert(values@.take(i as int) =~= values@);
        out
    }
}

/// Appends the encodings of the values to `out`.
fn encode_each(vs: &Vec<Value>, out: &mut Vec<u64>)
    ensures
        final(out)@ == old(out)@ + encs(values_model(vs@)),
    decreases vs,
{
    let ghost start = out@;
    let mut i: usize = 0;
    while i < vs.len()
        invariant
            i <= vs@.len(),
            out@ == start + encs(values_model(vs@.take(i as int))),
        decreases vs@.len() - i,
    {
        proof {
            assert(decreases_to!(*vs => vs@));
            vstd::seq::axiom_seq_index_decreases(vs@, i as int);
        }
        vs[i].encode_into(out);
        proof {
            let t = vs@.take(i + 1 as int);
            assert(t.drop_last() =~= vs@.take(i as int));
            assert(values_model(t).drop_last() =~= values_model(vs@.take(i as int)));
        }
        i = i + 1;
        assert(out@ =~= start + encs(values_model(vs@.take(i as int))));
    }
    assert(vs@.take(i as int) =~= vs@);
}

} // verus!

verus! {

impl Value {
    /// Decodes one value of type `t` from the words at `p`, returning it with
    /// the position after it.
    pub fn decode_one(ws: &[u64], p: usize, t: &Type) -> (r: Result<(Value, usize), AbiError>)
        requires
            p <= ws@.len(),
        ensures
            match r {
                Ok((v, q)) => dec(ws@, p as int, t.model()) == Some((v.model(), q as int)) && q
                    <= ws@.len(),
                Err(e) => dec(ws@, p as int, t.model()) is None && e == AbiError::Codec,
            },
        decreases t, 0u64,
    {
        let n = ws.len();
        match t {
            Type::FixedArray(e, count) => {
                return match decode_repeat(ws, p, e, *count) {
                    Err(e) => Err(e),
                    Ok((vs, q)) => Ok((Value::FixedArray(vs, e.duplicate()), q)),
                };
            },
            Type::Tuple(fs) => {
                return match decode_fields(ws, p, fs) {
                    Err(e) => Err(e),
                    Ok((vs, q)) => Ok((Value::Tuple(vs), q)),
                };
            },
            _ => {},
        }
        if p >= n {
            return Err(AbiError::Codec);
        }
        let w = ws[p];
        match t {
            Type::U32 => if w <= 0xffff_ffff {
                Ok((Value::U32(w as u32), p + 1))
            } else {
                Err(AbiError::Codec)
            },
            Type::Field => Ok((Value::Field(w), p + 1)),
            Type::Bool => if w == 0 {
                Ok((Value::Bool(false), p + 1))
            } else if w == 1 {
                Ok((Value::Bool(true), p + 1))
            } else {
                Err(AbiError::Codec)
            },
            Type::U256 | Type::Address | Type::Hash => {
                if n - p < 4 {
                    return Err(AbiError::Codec);
                }
                let a = FixedArray4([ws[p], ws[p + 1], ws[p + 2], ws[p + 3]]);
                assert(a.0@ =~= ws@.subrange(p as int, p + 4));
                let v = match t {
                    Type::U256 => Value::U256(a),
                    Type::Address => Value::Address(a),
                    _ => Value::Hash(a),
                };
                Ok((v, p + 4))
            },
            Type::String => {
                if w > (n - p - 1) as u64 {
                    return Err(AbiError::Codec);
                }
                let len = w as usize;
                let mut s = String::new();
                let mut i: usize = 0;
                while i < len
                    invariant
                        t.model() == TypeModel::String,
                        n == ws@.len(),
                        p < n,
                        p + 1 + len <= n,
                        len == ws@[p as int],
                        i <= len,
                        forall|k: int|
                            p + 1 <= k < p + 1 + i ==> is_scalar_code(#[trigger] ws@[k] as int),
                        s@ == Seq::new(i as nat, |k: int| char_of(ws@[p + 1 + k])),
                    decreases len - i,
                {
                    let code = ws[p + 1 + i];
                    if code > 0x10ffff {
                        assert(!is_scalar_code(ws@[p + 1 + i] as int));
                        proof {
                            lemma_string_fails(ws@, p as int, (p + 1 + i) as int);
                        }
                        return Err(AbiError::Codec);
                    }
                    let c = match char_from_code(code as u32) {
                        None => {
                            assert(!is_scalar_code(ws@[p + 1 + i] as int));
                            proof {
                                lemma_string_fails(ws@, p as int, (p + 1 + i) as int);
                            }
                            return Err(AbiError::Codec);
                        },
                        Some(c) => c,
                    };
                    proof {
                        lemma_char_code_injective(c, code);
                    }
                    push_char(&mut s, c);
                    i = i + 1;
                    assert(s@ =~= Seq::new(i as nat, |k: int| char_of(ws@[p + 1 + k])));
                }
                Ok((Value::String(s), p + 1 + len))
            },
            Type::Fields => {
                if w > (n - p - 1) as u64 {
                    return Err(AbiError::Codec);
                }
                let len = w as usize;
                let mut out: Vec<u64> = Vec::new();
                let mut i: usize = 0;
                while i < len
                    invariant
                        n == ws@.len(),
                        p + 1 + len <= n,
                        i <= len,
                        out@ == ws@.subrange(p + 1, p + 1 + i),
                    decreases len - i,
                {
                    out.push(ws[p + 1 + i]);
                    i = i + 1;
                    assert(out@ =~= ws@.subrange(p + 1, p + 1 + i));
                }
                Ok((Value::Fields(out), p + 1 + len))
            },
            Type::Array(e) => match decode_repeat(ws, p + 1, e, w) {
                Err(e) => Err(e),
                Ok((vs, q)) => Ok((Value::Array(vs, e.duplicate()), q)),
            },
            _ => Err(AbiError::Codec),
        }
    }

    /// Decodes values of the given types one after another from the start of
    /// `input`; words after the last value are left unread.
    pub fn decode_from_slice(input: &[u64], types: &[Type]) -> (r: Result<Vec<Value>, AbiError>)
        ensures
            match r {
                Ok(vs) => dec_all(input@, 0, types_model(types@)) matches Some(d) && d.0
                    == values_model(vs@),
                Err(e) => dec_all(input@, 0, types_model(types@)) is None && e
                    == AbiError::Codec,
            },
    {
        let ghost ts = types_model(types@);
        let mut out: Vec<Value> = Vec::new();
        let mut pos: usize = 0;
        let mut i: usize = 0;
        assert(ts.skip(0) =~= ts);
        proof {
            match dec_all(input@, 0, ts) {
                Some((vs, q)) => assert(values_model(out@) + vs =~= vs),
                None => {},
            }
        }
        while i < types.len()
            invariant
                ts == types_model(types@),
                i <= types@.len(),
                pos <= input@.len(),
                dec_all(input@, 0, ts) == values_then(
                    values_model(out@),
                    dec_all(input@, pos as int, ts.skip(i as int)),
                ),
            decreases types@.len() - i,
        {
            let ghost rest = ts.skip(i as int);
            assert(rest[0] == types@[i as int].model());
            assert(rest.skip(1) =~= ts.skip(i + 1));
            let (v, q) = match Value::decode_one(input, pos, &types[i]) {
                Err(e) => return Err(e),
                Ok(x) => x,
            };
            let ghost before = values_model(out@);
            let ghost old_seq = out@;
            out.push(v);
            proof {
                assert(out@.drop_last() =~= old_seq);
                assert(values_model(out@) == before.push(v.model()));
                match dec_all(input@, q as int, ts.skip(i + 1)) {
                    Some((vs, r)) => assert(before + (seq![v.model()] + vs) =~= values_model(out@)
                        + vs),
                    None => {},
                }
            }
            pos = q;
            i = i + 1;
        }
        proof {
            assert(ts.skip(i as int) =~= Seq::<TypeModel>::empty());
            assert(values_model(out@) + Seq::<ValueModel>::empty() =~= values_model(out@));
        }
        Ok(out)
    }
}

} // verus!

verus! {

/// Decodes `count` values of type `e` one after another from `p`.
fn decode_repeat(ws: &[u64], p: usize, e: &Type, count: u64) -> (r: Result<
    (Vec<Value>, usize),
    AbiError,
>)
    requires
        p <= ws@.len(),
    ensures
        match r {
            Ok((vs, q)) => dec_repeat(ws@, p as int, e.model(), count as nat) == Some(
                (values_model(vs@), q as int),
            ) && q <= ws@.len(),
            Err(err) => dec_repeat(ws@, p as int, e.model(), count as nat) is None && err
                == AbiError::Codec,
        },
    decreases e, count,
{
    let ghost em = e.model();
    let mut out: Vec<Value> = Vec::new();
    let mut pos: usize = p;
    let mut i: u64 = 0;
    proof {
        match dec_repeat(ws@, p as int, em, count as nat) {
            Some((vs, q)) => assert(values_model(out@) + vs =~= vs),
            None => {},
        }
    }
    while i < count
        invariant
            em == e.model(),
            i <= count,
            pos <= ws@.len(),
            dec_repeat(ws@, p as int, em, count as nat) == values_then(
                values_model(out@),
                dec_repeat(ws@, pos as int, em, (count - i) as nat),
            ),
        decreases count - i,
    {
        let (v, q) = match Value::decode_one(ws, pos, e) {
            Err(err) => return Err(err),
            Ok(x) => x,
        };
        let ghost before = values_model(out@);
        let ghost old_seq = out@;
        out.push(v);
        proof {
            assert(out@.drop_last() =~= old_seq);
            assert(values_model(out@) == before.push(v.model()));
            match dec_repeat(ws@, q as int, em, (count - i - 1) as nat) {
                Some((vs, r)) => assert(before + (seq![v.model()] + vs) =~= values_model(out@)
                    + vs),
                None => {},
            }
        }
        pos = q;
        i = i + 1;
    }
    assert(values_model(out@) + Seq::<ValueModel>::empty() =~= values_model(out@));
    Ok((out, pos))
}

/// Decodes the values of the fields one after another from `p`.
fn decode_fields(ws: &[u64], p: usize, fs: &Vec<(String, Type)>) -> (r: Result<
    (Vec<(String, Value)>, usize),
    AbiError,
>)
    requires
        p <= ws@.len(),
    ensures
        match r {
            Ok((vs, q)) => dec_fields(ws@, p as int, fields_model(fs@)) == Some(
                (named_values_model(vs@), q as int),
            ) && q <= ws@.len(),
            Err(err) => dec_fields(ws@, p as int, fields_model(fs@)) is None && err
                == AbiError::Codec,
        },
    decreases fs, 0u64,
{
    let ghost fm = fields_model(fs@);
    proof {
        lemma_fields_model(fs@);
    }
    let mut out: Vec<(String, Value)> = Vec::new();
    let mut pos: usize = p;
    let mut i: usize = 0;
    assert(fm.skip(0) =~= fm);
    proof {
        match dec_fields(ws@, p as int, fm) {
            Some((vs, q)) => assert(named_values_model(out@) + vs =~= vs),
            None => {},
        }
    }
    while i < fs.len()
        invariant
            fm == fields_model(fs@),
            fm.len() == fs@.len(),
            forall|k: int| 0 <= k < fs@.len() ==> #[trigger] fm[k] == (fs@[k].0@, fs@[k].1.model()),
            i <= fs@.len(),
            pos <= ws@.len(),
            dec_fields(ws@, p as int, fm) == named_then(
                named_values_model(out@),
                dec_fields(ws@, pos as int, fm.skip(i as int)),
            ),
        decreases fs@.len() - i,
    {
        let ghost rest = fm.skip(i as int);
        assert(rest[0] == fm[i as int]);
        assert(rest.skip(1) =~= fm.skip(i + 1));
        proof {
            assert(decreases_to!(*fs => fs@));
            vstd::seq::axiom_seq_index_decreases(fs@, i as int);
            assert(decreases_to!(fs@[i as int] => fs@[i as int].1));
        }
        let (v, q) = match Value::decode_one(ws, pos, &fs[i].1) {
            Err(err) => return Err(err),
            Ok(x) => x,
        };
        let ghost before = named_values_model(out@);
        let ghost old_seq = out@;
        let name = fs[i].0.clone();
        out.push((name, v));
        proof {
            assert(out@.drop_last() =~= old_seq);
            assert(named_values_model(out@) == before.push((fs@[i as int].0@, v.model())));
            match dec_fields(ws@, q as int, fm.skip(i + 1)) {
                Some((vs, r)) => assert(before + (seq![(fs@[i as int].0@, v.model())] + vs)
                    =~= named_values_model(out@) + vs),
                None => {},
            }
        }
        pos = q;
        i = i + 1;
    }
    assert(fm.skip(i as int) =~= Seq::<(Seq<char>, TypeModel)>::empty());
    assert(named_values_model(out@) + Seq::<(Seq<char>, ValueModel)>::empty() =~= named_values_model(out@));
    Ok((out, pos))
}

} // verus!

verus! {

/// The type that a value has.
pub open spec fn type_of(v: ValueModel) -> TypeModel
    decreases v,
{
    match v {
        ValueModel::U32(_) => TypeModel::U32,
        ValueModel::U256(_) => TypeModel::U256,
        ValueModel::Field(_) => TypeModel::Field,
        ValueModel::Address(_) => TypeModel::Address,
        ValueModel::Hash(_) => TypeModel::Hash,
        ValueModel::Bool(_) => TypeModel::Bool,
        ValueModel::String(_) => TypeModel::String,
        ValueModel::Fields(_) => TypeModel::Fields,
        ValueModel::Array(_, e) => TypeModel::Array(Box::new(e)),
        ValueModel::FixedArray(vs, e) => TypeModel::FixedArray(Box::new(e), vs.len() as u64),
        ValueModel::Tuple(fs) => TypeModel::Tuple(field_types(fs)),
    }
}

pub open spec fn field_types(fs: Seq<(Seq<char>, ValueModel)>) -> Seq<(Seq<char>, TypeModel)>
    decreases fs,
{
    if fs.len() == 0 {
        Seq::empty()
    } else {
        field_types(fs.drop_last()).push((fs.last().0, type_of(fs.last().1)))
    }
}

/// A value that matches its own type: four words where a 256-bit quantity
/// stands, lengths that fit a word, array elements of the element type.
pub open spec fn well_formed(v: ValueModel) -> bool
    decreases v,
{
    match v {
        ValueModel::U256(w) => w.len() == 4,
        ValueModel::Address(w) => w.len() == 4,
        ValueModel::Hash(w) => w.len() == 4,
        ValueModel::String(cs) => cs.len() <= u64::MAX,
        ValueModel::Fields(ws) => ws.len() <= u64::MAX,
        ValueModel::Array(vs, e) => vs.len() <= u64::MAX && forall|i: int|
            0 <= i < vs.len() ==> well_formed(#[trigger] vs[i]) && type_of(vs[i]) == e,
        ValueModel::FixedArray(vs, e) => vs.len() <= u64::MAX && forall|i: int|
            0 <= i < vs.len() ==> well_formed(#[trigger] vs[i]) && type_of(vs[i]) == e,
        ValueModel::Tuple(fs) => forall|i: int|
            0 <= i < fs.len() ==> well_formed(#[trigger] fs[i].1),
        _ => true,
    }
}

proof fn lemma_field_types(fs: Seq<(Seq<char>, ValueModel)>)
    ensures
        field_types(fs).len() == fs.len(),
        forall|i: int|
            0 <= i < fs.len() ==> #[trigger] field_types(fs)[i] == (fs[i].0, type_of(fs[i].1)),
    decreases fs.len(),
{
    if fs.len() > 0 {
        lemma_field_types(fs.drop_last());
    }
}

proof fn lemma_encs_front(vs: Seq<ValueModel>)
    requires
        vs.len() > 0,
    ensures
        encs(vs) == enc(vs[0]) + encs(vs.skip(1)),
    decreases vs.len(),
{
    if vs.len() == 1 {
        assert(vs.drop_last() =~= Seq::<ValueModel>::empty());
        assert(vs.skip(1) =~= Seq::<ValueModel>::empty());
        assert(encs(vs) =~= enc(vs[0]) + encs(vs.skip(1)));
    } else {
        let dl = vs.drop_last();
        lemma_encs_front(dl);
        assert(dl.skip(1) =~= vs.skip(1).drop_last());
        assert(vs.skip(1).last() == vs.last());
        assert(encs(vs) =~= enc(vs[0]) + encs(vs.skip(1)));
    }
}

proof fn lemma_enc_fields_front(fs: Seq<(Seq<char>, ValueModel)>)
    requires
        fs.len() > 0,
    ensures
        enc_fields(fs) == enc(fs[0].1) + enc_fields(fs.skip(1)),
    decreases fs.len(),
{
    if fs.len() == 1 {
        assert(fs.drop_last() =~= Seq::<(Seq<char>, ValueModel)>::empty());
        assert(fs.skip(1) =~= Seq::<(Seq<char>, ValueModel)>::empty());
        assert(enc_fields(fs) =~= enc(fs[0].1) + enc_fields(fs.skip(1)));
    } else {
        let dl = fs.drop_last();
        lemma_enc_fields_front(dl);
        assert(dl.skip(1) =~= fs.skip(1).drop_last());
        assert(fs.skip(1).last() == fs.last());
        assert(enc_fields(fs) =~= enc(fs[0].1) + enc_fields(fs.skip(1)));
    }
}

/// Splits a match of `a + b` at `p` into a match of `a` and one of `b`.
proof fn lemma_split(ws: Seq<u64>, p: int, a: Seq<u64>, b: Seq<u64>)
    requires
        0 <= p,
        p + a.len() + b.len() <= ws.len(),
        ws.subrange(p, p + a.len() + b.len()) == a + b,
    ensures
        ws.subrange(p, p + a.len()) == a,
        ws.subrange(p + a.len(), p + a.len() + b.len()) == b,
{
    assert(ws.subrange(p, p + a.len()) =~= (a + b).subrange(0, a.len() as int));
    assert(ws.subrange(p + a.len(), p + a.len() + b.len()) =~= (a + b).subrange(
        a.len() as int,
        (a.len() + b.len()) as int,
    ));
}

proof fn lemma_dec_enc(ws: Seq<u64>, p: int, v: ValueModel)
    requires
        well_formed(v),
        0 <= p,
        p + enc(v).len() <= ws.len(),
        ws.subrange(p, p + enc(v).len()) == enc(v),
    ensures
        dec(ws, p, type_of(v)) == Some((v, p + enc(v).len())),
    decreases v, 0nat,
{
    let e = enc(v);
    if e.len() > 0 {
        assert(ws[p] == ws.subrange(p, p + e.len())[0]);
    }
    match v {
        ValueModel::U256(w) => {
            assert(ws.subrange(p, p + 4) == w);
        },
        ValueModel::Address(w) => {
            assert(ws.subrange(p, p + 4) == w);
        },
        ValueModel::Hash(w) => {
            assert(ws.subrange(p, p + 4) == w);
        },
        ValueModel::String(cs) => {
            let n = cs.len();
            assert forall|i: int| p + 1 <= i < p + 1 + n implies is_scalar_code(
                #[trigger] ws[i] as int,
            ) by {
                assert(ws[i] == ws.subrange(p, p + e.len())[i - p]);
                assert(ws[i] == cs[i - p - 1] as u32 as u64);
                vstd::utf8::char_is_scalar(cs[i - p - 1]);
            };
            assert forall|i: int| 0 <= i < n implies char_of(ws[p + 1 + i]) == cs[i] by {
                assert(ws[p + 1 + i] == ws.subrange(p, p + e.len())[1 + i]);
                lemma_char_code_injective(cs[i], ws[p + 1 + i]);
            };
            assert(Seq::new(n as nat, |i: int| char_of(ws[p + 1 + i])) =~= cs);
        },
        ValueModel::Fields(ws2) => {
            assert(ws.subrange(p + 1, p + 1 + ws2.len()) =~= ws2) by {
                assert forall|i: int| 0 <= i < ws2.len() implies ws.subrange(
                    p + 1,
                    p + 1 + ws2.len(),
                )[i] == ws2[i] by {
                    assert(ws[p + 1 + i] == ws.subrange(p, p + e.len())[1 + i]);
                };
            };
        },
        ValueModel::Array(vs, et) => {
            lemma_split(ws, p, seq![vs.len() as u64], encs(vs));
            lemma_dec_repeat_encs(ws, p + 1, vs, et);
        },
        ValueModel::FixedArray(vs, et) => {
            lemma_dec_repeat_encs(ws, p, vs, et);
        },
        ValueModel::Tuple(fs) => {
            lemma_dec_fields_enc(ws, p, fs);
        },
        _ => {},
    }
}

proof fn lemma_dec_repeat_encs(ws: Seq<u64>, p: int, vs: Seq<ValueModel>, et: TypeModel)
    requires
        forall|i: int| 0 <= i < vs.len() ==> well_formed(#[trigger] vs[i]) && type_of(vs[i]) == et,
        0 <= p,
        p + encs(vs).len() <= ws.len(),
        ws.subrange(p, p + encs(vs).len()) == encs(vs),
    ensures
        dec_repeat(ws, p, et, vs.len()) == Some((vs, p + encs(vs).len())),
    decreases vs, 0nat,
{
    if vs.len() > 0 {
        lemma_encs_front(vs);
        let a = enc(vs[0]);
        let rest = vs.skip(1);
        lemma_split(ws, p, a, encs(rest));
        assert(decreases_to!(vs => vs[0]));
        lemma_dec_enc(ws, p, vs[0]);
        assert forall|i: int| 0 <= i < rest.len() implies well_formed(#[trigger] rest[i])
            && type_of(rest[i]) == et by {
            assert(rest[i] == vs[i + 1]);
        };
        lemma_dec_repeat_encs(ws, p + a.len(), rest, et);
        assert(seq![vs[0]] + rest =~= vs);
        assert((vs.len() - 1) as nat == rest.len());
    } else {
        assert(vs =~= Seq::<ValueModel>::empty());
    }
}

proof fn lemma_dec_fields_enc(ws: Seq<u64>, p: int, fs: Seq<(Seq<char>, ValueModel)>)
    requires
        forall|i: int| 0 <= i < fs.len() ==> well_formed(#[trigger] fs[i].1),
        0 <= p,
        p + enc_fields(fs).len() <= ws.len(),
        ws.subrange(p, p + enc_fields(fs).len()) == enc_fields(fs),
    ensures
        dec_fields(ws, p, field_types(fs)) == Some((fs, p + enc_fields(fs).len())),
    decreases fs, 0nat,
{
    lemma_field_types(fs);
    let ft = field_types(fs);
    if fs.len() > 0 {
        lemma_enc_fields_front(fs);
        let a = enc(fs[0].1);
        let rest = fs.skip(1);
        lemma_split(ws, p, a, enc_fields(rest));
        assert(decreases_to!(fs => fs[0]));
        assert(decreases_to!(fs[0] => fs[0].1));
        lemma_dec_enc(ws, p, fs[0].1);
        assert forall|i: int| 0 <= i < rest.len() implies well_formed(#[trigger] rest[i].1) by {
            assert(rest[i] == fs[i + 1]);
        };
        lemma_field_types(rest);
        assert(ft.skip(1) =~= field_types(rest));
        lemma_dec_fields_enc(ws, p + a.len(), rest);
        assert(seq![(fs[0].0, fs[0].1)] + rest =~= fs);
    } else {
        assert(fs =~= Seq::<(Seq<char>, ValueModel)>::empty());
    }
}

} // verus!

verus! {

/// The types of the values, in order.
pub open spec fn types_of(vs: Seq<ValueModel>) -> Seq<TypeModel> {
    Seq::new(vs.len(), |i: int| type_of(vs[i]))
}

proof fn lemma_dec_all_encs(ws: Seq<u64>, p: int, vs: Seq<ValueModel>)
    requires
        forall|i: int| 0 <= i < vs.len() ==> well_formed(#[trigger] vs[i]),
        0 <= p,
        p + encs(vs).len() <= ws.len(),
        ws.subrange(p, p + encs(vs).len()) == encs(vs),
    ensures
        dec_all(ws, p, types_of(vs)) == Some((vs, p + encs(vs).len())),
    decreases vs.len(),
{
    if vs.len() > 0 {
        lemma_encs_front(vs);
        let a = enc(vs[0]);
        let rest = vs.skip(1);
        lemma_split(ws, p, a, encs(rest));
        lemma_dec_enc(ws, p, vs[0]);
        assert forall|i: int| 0 <= i < rest.len() implies well_formed(#[trigger] rest[i]) by {
            assert(rest[i] == vs[i + 1]);
        };
        lemma_dec_all_encs(ws, p + a.len(), rest);
        assert(types_of(vs).skip(1) =~= types_of(rest));
        assert(seq![vs[0]] + rest =~= vs);
    } else {
        assert(vs =~= Seq::<ValueModel>::empty());
        assert(types_of(vs) =~= Seq::<TypeModel>::empty());
    }
}

/// Decoding the encoding of well-formed values against their own types gives
/// the same values back, and reads the whole encoding.
pub proof fn lemma_round_trip(vs: Seq<ValueModel>)
    requires
        forall|i: int| 0 <= i < vs.len() ==> well_formed(#[trigger] vs[i]),
    ensures
        dec_all(encs(vs), 0, types_of(vs)) == Some((vs, encs(vs).len() as int)),
{
    assert(encs(vs).subrange(0, encs(vs).len() as int) =~= encs(vs));
    lemma_dec_all_encs(encs(vs), 0, vs);
}

} // verus!
