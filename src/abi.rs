use vstd::prelude::*;

use tiny_keccak::{Hasher, Keccak};

use crate::error::AbiError;
use crate::params::{DecodedParam, DecodedParams, Param};
use crate::text::{push_char, same_text};
use crate::types::{param_type_string, render, TypeModel};
use crate::value::{
    dec_all, encs, lemma_values_model, types_model, values_model, FixedArray4, Value,
    ValueModel,
};
use vstd::utf8::encode_utf8;

verus! {

/// The Keccak-256 digest of a byte string.
pub uninterp spec fn keccak256(data: Seq<u8>) -> Seq<u8>;

/// Relies on tiny_keccak's `Keccak::v256` with `update` and `finalize`: the
/// Keccak-256 digest of the bytes, written over the whole 32-byte output.
#[verifier::external_body]
fn keccak256_digest(data: &[u8]) -> (r: [u8; 32])
    ensures
        r@ == keccak256(data@),
{
    let mut out = [0u8; 32];
    let mut hasher = Keccak::v256();
    hasher.update(data);
    hasher.finalize(&mut out);
    out
}

/// The big-endian number in the four bytes from `k`.
pub open spec fn be_u32_at(d: Seq<u8>, k: int) -> nat {
    (d[k] as nat) * 0x1000000 + (d[k + 1] as nat) * 0x10000 + (d[k + 2] as nat) * 0x100 + (d[k
        + 3] as nat)
}

/// The big-endian word in the eight bytes from `k`.
pub open spec fn be_u64_at(d: Seq<u8>, k: int) -> nat {
    be_u32_at(d, k) * 0x100000000 + be_u32_at(d, k + 4)
}

/// The method id of a signature: the first four bytes of its digest, read
/// big-endian.
pub open spec fn selector_of(sig: Seq<char>) -> nat {
    be_u32_at(keccak256(encode_utf8(sig)), 0)
}

/// The topic of a signature: its whole digest as four big-endian words.
pub open spec fn topic_of(sig: Seq<char>) -> Seq<u64> {
    let d = keccak256(encode_utf8(sig));
    seq![
        be_u64_at(d, 0) as u64,
        be_u64_at(d, 8) as u64,
        be_u64_at(d, 16) as u64,
        be_u64_at(d, 24) as u64,
    ]
}

/// The method id that a signature digest gives: its first four bytes, read
/// big-endian.
pub fn selector_from_digest(d: &[u8; 32]) -> (r: u64)
    ensures
        r as nat == be_u32_at(d@, 0),
{
    (d[0] as u64) * 0x1000000 + (d[1] as u64) * 0x10000 + (d[2] as u64) * 0x100 + (d[3] as u64)
}

/// The topic that a signature digest gives: its 32 bytes as four big-endian
/// words, in order.
pub fn topic_from_digest(d: &[u8; 32]) -> (r: FixedArray4)
    ensures
        r.0@ == seq![
            be_u64_at(d@, 0) as u64,
            be_u64_at(d@, 8) as u64,
            be_u64_at(d@, 16) as u64,
            be_u64_at(d@, 24) as u64,
        ],
{
    let w0 = be_word(d, 0);
    let w1 = be_word(d, 8);
    let w2 = be_word(d, 16);
    let w3 = be_word(d, 24);
    let r = FixedArray4([w0, w1, w2, w3]);
    assert(r.0@ =~= seq![
        be_u64_at(d@, 0) as u64,
        be_u64_at(d@, 8) as u64,
        be_u64_at(d@, 16) as u64,
        be_u64_at(d@, 24) as u64,
    ]);
    r
}

/// The renderings of the types, separated by commas.
pub open spec fn type_list(ts: Seq<TypeModel>) -> Seq<char>
    decreases ts.len(),
{
    if ts.len() == 0 {
        Seq::empty()
    } else if ts.len() == 1 {
        render(ts[0])
    } else {
        type_list(ts.drop_last()) + seq![','] + render(ts.last())
    }
}

/// `name(type1,type2,...)`.
pub open spec fn signature_of(name: Seq<char>, ts: Seq<TypeModel>) -> Seq<char> {
    name + seq!['('] + type_list(ts) + seq![')']
}

/// The types of the parameters, in order.
pub open spec fn param_types(ps: Seq<Param>) -> Seq<TypeModel> {
    Seq::new(ps.len(), |i: int| ps[i].type_.model())
}

/// Whether `d` pairs each parameter with the value of the same position.
pub open spec fn pairs_with(d: DecodedParams, ps: Seq<Param>, vals: Seq<ValueModel>) -> bool {
    &&& d.0@.len() == ps.len()
    &&& vals.len() == ps.len()
    &&& forall|i: int|
        0 <= i < ps.len() ==> (#[trigger] d.0@[i]).param.model() == ps[i].model()
            && d.0@[i].value.model() == vals[i]
}

/// The values that the words decode to against the types of the parameters.
pub open spec fn decoded_values(ws: Seq<u64>, ps: Seq<Param>) -> Option<Seq<ValueModel>> {
    match dec_all(ws, 0, param_types(ps)) {
        Some((vs, _)) => Some(vs),
        None => None,
    }
}

proof fn lemma_dec_all_len(ws: Seq<u64>, p: int, ts: Seq<TypeModel>)
    requires
        dec_all(ws, p, ts) is Some,
    ensures
        dec_all(ws, p, ts)->Some_0.0.len() == ts.len(),
    decreases ts.len(),
{
    if ts.len() > 0 {
        let (v, q) = crate::value::dec(ws, p, ts[0])->Some_0;
        lemma_dec_all_len(ws, q, ts.skip(1));
    }
}

/// Decodes the words against the types of the parameters and pairs each
/// parameter with its value.
fn decode_params(ps: &Vec<Param>, words: &[u64]) -> (r: Result<DecodedParams, AbiError>)
    ensures
        match r {
            Ok(d) => decoded_values(words@, ps@) matches Some(vals) && pairs_with(d, ps@, vals),
            Err(e) => decoded_values(words@, ps@) is None && e == AbiError::Codec,
        },
{
    let mut types: Vec<crate::types::Type> = Vec::new();
    let mut i: usize = 0;
    while i < ps.len()
        invariant
            i <= ps@.len(),
            types@.len() == i,
            forall|k: int| 0 <= k < i ==> (#[trigger] types@[k]).model() == ps@[k].type_.model(),
        decreases ps@.len() - i,
    {
        types.push(ps[i].type_.duplicate());
        i = i + 1;
    }
    assert(types_model(types@) =~= param_types(ps@));
    let values = match Value::decode_from_slice(words, types.as_slice()) {
        Err(e) => return Err(e),
        Ok(vs) => vs,
    };
    let ghost vals = values_model(values@);
    proof {
        lemma_dec_all_len(words@, 0, param_types(ps@));
        lemma_values_model(values@);
    }
    let mut out: Vec<DecodedParam> = Vec::new();
    let mut rest = values;
    let ghost all = rest@;
    let mut j: usize = 0;
    while j < ps.len()
        invariant
            all.len() == ps@.len(),
            vals.len() == ps@.len(),
            forall|k: int| 0 <= k < all.len() ==> #[trigger] all[k].model() == vals[k],
            j <= ps@.len(),
            rest@ == all.skip(j as int),
            out@.len() == j,
            forall|k: int|
                0 <= k < j ==> (#[trigger] out@[k]).param.model() == ps@[k].model()
                    && out@[k].value.model() == vals[k],
        decreases ps@.len() - j,
    {
        let value = rest.remove(0);
        out.push(DecodedParam { param: ps[j].duplicate(), value });
        j = j + 1;
        assert(rest@ =~= all.skip(j as int));
    }
    Ok(DecodedParams(out))
}

/// Contract function definition.
#[derive(Debug, PartialEq, Eq)]
pub struct Function {
    /// Function name.
    pub name: String,
    /// Function inputs.
    pub inputs: Vec<Param>,
    /// Function outputs.
    pub outputs: Vec<Param>,
}

impl Function {
    pub open spec fn signature_spec(&self) -> Seq<char> {
        signature_of(self.name@, param_types(self.inputs@))
    }

    pub open spec fn method_id_spec(&self) -> u64 {
        selector_of(self.signature_spec()) as u64
    }

    /// Computes the function's method id (function selector).
    pub fn method_id(&self) -> (r: u64)
        ensures
            r == self.method_id_spec(),
            r as nat == selector_of(self.signature_spec()),
    {
        let sig = self.signature();
        let d = keccak256_digest(sig.as_str().as_bytes());
        assert(d@ == keccak256(encode_utf8(self.signature_spec())));
        selector_from_digest(&d)
    }

    /// Returns the function's signature: its name and its input types.
    pub fn signature(&self) -> (r: String)
        ensures
            r@ == self.signature_spec(),
    {
        signature_string(&self.name, &self.inputs)
    }

    /// Decodes function input from a slice.
    pub fn decode_input_from_slice(&self, input: &[u64]) -> (r: Result<DecodedParams, AbiError>)
        ensures
            match r {
                Ok(d) => decoded_values(input@, self.inputs@) matches Some(vals) && pairs_with(
                    d,
                    self.inputs@,
                    vals,
                ),
                Err(e) => decoded_values(input@, self.inputs@) is None && e == AbiError::Codec,
            },
    {
        decode_params(&self.inputs, input)
    }

    /// Decodes function output from a slice.
    pub fn decode_output_from_slice(&self, output: &[u64]) -> (r: Result<DecodedParams, AbiError>)
        ensures
            match r {
                Ok(d) => decoded_values(output@, self.outputs@) matches Some(vals) && pairs_with(
                    d,
                    self.outputs@,
                    vals,
                ),
                Err(e) => decoded_values(output@, self.outputs@) is None && e == AbiError::Codec,
            },
    {
        decode_params(&self.outputs, output)
    }
}

/// `name(type1,type2,...)` for the types of the parameters.
fn signature_string(name: &String, ps: &Vec<Param>) -> (r: String)
    ensures
        r@ == signature_of(name@, param_types(ps@)),
{
    let mut s = name.clone();
    push_char(&mut s, '(');
    let ghost head = s@;
    let mut i: usize = 0;
    while i < ps.len()
        invariant
            i <= ps@.len(),
            s@ == head + type_list(param_types(ps@).take(i as int)),
        decreases ps@.len() - i,
    {
        let ghost t = param_types(ps@).take(i + 1 as int);
        assert(t.drop_last() =~= param_types(ps@).take(i as int));
        if i > 0 {
            push_char(&mut s, ',');
        }
        let rendered = param_type_string(&ps[i].type_);
        s.append(rendered.as_str());
        proof {
            if i == 0 {
                assert(param_types(ps@).take(0) =~= Seq::<TypeModel>::empty());
            }
        }
        i = i + 1;
        assert(s@ =~= head + type_list(param_types(ps@).take(i as int)));
    }
    assert(param_types(ps@).take(i as int) =~= param_types(ps@));
    push_char(&mut s, ')');
    assert(s@ =~= signature_of(name@, param_types(ps@)));
    s
}

/// Contract event definition.
#[derive(Debug, PartialEq, Eq)]
pub struct Event {
    /// Event name.
    pub name: String,
    /// Event inputs.
    pub inputs: Vec<Param>,
    /// Whether the event is anonymous.
    pub anonymous: bool,
}

/// The value that an indexed parameter takes from its topic: the topic's
/// words for a 256-bit kind, else the topic as a hash.
pub open spec fn indexed_value(t: TypeModel, w: Seq<u64>) -> ValueModel {
    match t {
        TypeModel::U256 => ValueModel::U256(w),
        TypeModel::Address => ValueModel::Address(w),
        _ => ValueModel::Hash(w),
    }
}

pub open spec fn is_indexed(p: Param) -> bool {
    p.indexed == Some(true)
}

/// The values of the event parameters in declaration order: each indexed one
/// from the next topic, each other one from the next data value.
pub open spec fn merge_values(
    ps: Seq<Param>,
    topics: Seq<Seq<u64>>,
    data: Seq<ValueModel>,
) -> Option<Seq<ValueModel>>
    decreases ps.len(),
{
    if ps.len() == 0 {
        Some(Seq::empty())
    } else if is_indexed(ps[0]) {
        if topics.len() == 0 {
            None
        } else {
            match merge_values(ps.skip(1), topics.skip(1), data) {
                Some(rest) => Some(seq![indexed_value(ps[0].type_.model(), topics[0])] + rest),
                None => None,
            }
        }
    } else {
        if data.len() == 0 {
            None
        } else {
            match merge_values(ps.skip(1), topics, data.skip(1)) {
                Some(rest) => Some(seq![data[0]] + rest),
                None => None,
            }
        }
    }
}

/// The parameters that are not indexed, in order.
pub open spec fn non_indexed(ps: Seq<Param>) -> Seq<Param>
    decreases ps.len(),
{
    if ps.len() == 0 {
        Seq::empty()
    } else if is_indexed(ps.last()) {
        non_indexed(ps.drop_last())
    } else {
        non_indexed(ps.drop_last()).push(ps.last())
    }
}

/// The topics after the event's own one (all of them for an anonymous event).
pub open spec fn value_topics(anonymous: bool, topics: Seq<FixedArray4>) -> Seq<Seq<u64>> {
    let ts = if anonymous {
        topics
    } else {
        topics.skip(1)
    };
    Seq::new(ts.len(), |i: int| ts[i].0@)
}

/// The values of the event parameters that the topics and the data give.
pub open spec fn event_values(
    ps: Seq<Param>,
    anonymous: bool,
    topics: Seq<FixedArray4>,
    data: Seq<u64>,
) -> Option<Seq<ValueModel>> {
    if !anonymous && topics.len() == 0 {
        None
    } else {
        match decoded_values(data, non_indexed(ps)) {
            None => None,
            Some(ds) => merge_values(ps, value_topics(anonymous, topics), ds),
        }
    }
}

pub open spec fn values_then(acc: Seq<ValueModel>, o: Option<Seq<ValueModel>>) -> Option<
    Seq<ValueModel>,
> {
    match o {
        Some(rest) => Some(acc + rest),
        None => None,
    }
}

impl Event {
    pub open spec fn signature_spec(&self) -> Seq<char> {
        signature_of(self.name@, param_types(self.inputs@))
    }

    /// The event's signature: its name and its input types.
    pub fn signature(&self) -> (r: String)
        ensures
            r@ == self.signature_spec(),
    {
        signature_string(&self.name, &self.inputs)
    }

    /// The event's topic: the whole digest of its signature.
    pub fn topic(&self) -> (r: FixedArray4)
        ensures
            r.0@ == topic_of(self.signature_spec()),
    {
        let sig = self.signature();
        let d = keccak256_digest(sig.as_str().as_bytes());
        assert(d@ == keccak256(encode_utf8(self.signature_spec())));
        topic_from_digest(&d)
    }

    /// Decodes the event's parameters: indexed ones from the topics after the
    /// event's own (all topics for an anonymous event), the others from the
    /// data.
    pub fn decode_data_from_slice(&self, topics: &[FixedArray4], data: &[u64]) -> (r: Result<
        DecodedParams,
        AbiError,
    >)
        ensures
            match r {
                Ok(d) => event_values(self.inputs@, self.anonymous, topics@, data@) matches Some(
                    vals,
                ) && pairs_with(d, self.inputs@, vals),
                Err(e) => event_values(self.inputs@, self.anonymous, topics@, data@) is None && e
                    == (if !self.anonymous && topics@.len() == 0 {
                    AbiError::MissingTopic
                } else {
                    AbiError::Codec
                }),
            },
    {
        let ps = &self.inputs;
        let start: usize = if self.anonymous {
            0
        } else {
            if topics.len() == 0 {
                return Err(AbiError::MissingTopic);
            }
            1
        };
        let mut plain: Vec<Param> = Vec::new();
        let mut i: usize = 0;
        while i < ps.len()
            invariant
                i <= ps@.len(),
                plain@.len() == non_indexed(ps@.take(i as int)).len(),
                forall|k: int|
                    0 <= k < plain@.len() ==> (#[trigger] plain@[k]).model() == non_indexed(
                        ps@.take(i as int),
                    )[k].model(),
            decreases ps@.len() - i,
        {
            let ghost t = ps@.take(i + 1 as int);
            assert(t.drop_last() =~= ps@.take(i as int));
            if ps[i].indexed != Some(true) {
                plain.push(ps[i].duplicate());
            }
            i = i + 1;
        }
        assert(ps@.take(i as int) =~= ps@);
        assert(param_types(plain@) =~= param_types(non_indexed(ps@)));
        let data_params = match decode_params(&plain, data) {
            Err(e) => {
                assert(decoded_values(data@, plain@) == decoded_values(data@, non_indexed(ps@)));
                return Err(e);
            },
            Ok(d) => d,
        };
        assert(decoded_values(data@, plain@) == decoded_values(data@, non_indexed(ps@)));
        let ghost ds = decoded_values(data@, plain@)->Some_0;
        let ghost vt = value_topics(self.anonymous, topics@);
        let mut rest = data_params.0;
        let ghost all = rest@;
        let mut out: Vec<DecodedParam> = Vec::new();
        let mut ti: usize = start;
        let mut di: usize = 0;
        let mut j: usize = 0;
        let ghost acc: Seq<ValueModel> = Seq::empty();
        proof {
            assert(vt.skip(0) =~= vt);
            assert(ds.skip(0) =~= ds);
            assert(ps@.skip(0) =~= ps@);
            match merge_values(ps@, vt, ds) {
                Some(m) => assert(acc + m =~= m),
                None => {},
            }
        }
        while j < ps.len()
            invariant
                ps == &self.inputs,
                vt == value_topics(self.anonymous, topics@),
                start <= ti <= topics@.len() || (ti == start && topics@.len() == 0),
                start == (if self.anonymous { 0usize } else { 1usize }),
                start <= topics@.len() || self.anonymous,
                ti - start <= vt.len(),
                vt.len() == topics@.len() - start,
                all.len() == ds.len(),
                forall|k: int| 0 <= k < all.len() ==> (#[trigger] all[k]).value.model() == ds[k],
                di <= all.len(),
                di <= j,
                rest@ == all.skip(di as int),
                j <= ps@.len(),
                out@.len() == j,
                acc.len() == j,
                forall|k: int|
                    0 <= k < j ==> (#[trigger] out@[k]).param.model() == ps@[k].model()
                        && out@[k].value.model() == acc[k],
                event_values(ps@, self.anonymous, topics@, data@) == values_then(
                    acc,
                    merge_values(ps@.skip(j as int), vt.skip(ti - start), ds.skip(di as int)),
                ),
            decreases ps@.len() - j,
        {
            let ghost pr = ps@.skip(j as int);
            assert(pr[0] == ps@[j as int]);
            assert(pr.skip(1) =~= ps@.skip(j + 1));
            let value = if ps[j].indexed == Some(true) {
                if ti >= topics.len() {
                    return Err(AbiError::Codec);
                }
                let w = topics[ti];
                let ghost vts = vt.skip(ti - start);
                assert(vts[0] == w.0@);
                assert(vts.skip(1) =~= vt.skip(ti + 1 - start));
                ti = ti + 1;
                match &ps[j].type_ {
                    crate::types::Type::U256 => Value::U256(w),
                    crate::types::Type::Address => Value::Address(w),
                    _ => Value::Hash(w),
                }
            } else {
                if rest.len() == 0 {
                    return Err(AbiError::Codec);
                }
                let ghost dss = ds.skip(di as int);
                assert(dss[0] == ds[di as int]);
                assert(dss.skip(1) =~= ds.skip(di + 1));
                assert(rest@.len() == all.len() - di);
                let d = rest.remove(0);
                di = di + 1;
                assert(rest@ =~= all.skip(di as int));
                d.value
            };
            proof {
                let a2 = acc.push(value.model());
                match merge_values(ps@.skip(j + 1), vt.skip(ti - start), ds.skip(di as int)) {
                    Some(m) => assert(acc + (seq![value.model()] + m) =~= a2 + m),
                    None => {},
                }
                acc = a2;
            }
            out.push(DecodedParam { param: ps[j].duplicate(), value });
            j = j + 1;
        }
        proof {
            assert(ps@.skip(j as int) =~= Seq::<Param>::empty());
            assert(acc + Seq::<ValueModel>::empty() =~= acc);
        }
        Ok(DecodedParams(out))
    }
}

/// The big-endian word in the eight bytes from `k`.
fn be_word(d: &[u8; 32], k: usize) -> (r: u64)
    requires
        k + 8 <= 32,
    ensures
        r as nat == be_u64_at(d@, k as int),
{
    let hi: u64 = (d[k] as u64) * 0x1000000 + (d[k + 1] as u64) * 0x10000 + (d[k + 2] as u64)
        * 0x100 + (d[k + 3] as u64);
    let lo: u64 = (d[k + 4] as u64) * 0x1000000 + (d[k + 5] as u64) * 0x10000 + (d[k + 6] as u64)
        * 0x100 + (d[k + 7] as u64);
    assert(hi < 0x100000000);
    hi * 0x100000000 + lo
}

} // verus!

verus! {

/// Contract ABI: its functions and events, in schema order.
#[derive(Debug, PartialEq, Eq)]
pub struct Abi {
    /// Contract defined functions.
    pub functions: Vec<Function>,
    /// Contract defined events.
    pub events: Vec<Event>,
}

/// The position of the first function from `i` on whose method id is `id`.
pub open spec fn first_with_id(fs: Seq<Function>, id: u64, i: int) -> Option<int>
    decreases fs.len() - i,
{
    if i < 0 || i >= fs.len() {
        None
    } else if fs[i].method_id_spec() == id {
        Some(i)
    } else {
        first_with_id(fs, id, i + 1)
    }
}

/// The position of the first function from `i` on whose signature is `sig`.
pub open spec fn first_with_signature(fs: Seq<Function>, sig: Seq<char>, i: int) -> Option<int>
    decreases fs.len() - i,
{
    if i < 0 || i >= fs.len() {
        None
    } else if fs[i].signature_spec() == sig {
        Some(i)
    } else {
        first_with_signature(fs, sig, i + 1)
    }
}

/// The position of the first event from `i` on whose topic is `topic`.
pub open spec fn first_with_topic(es: Seq<Event>, topic: Seq<u64>, i: int) -> Option<int>
    decreases es.len() - i,
{
    if i < 0 || i >= es.len() {
        None
    } else if topic_of(es[i].signature_spec()) == topic {
        Some(i)
    } else {
        first_with_topic(es, topic, i + 1)
    }
}

/// The words of encoded values followed by their count.
pub open spec fn framed(vals: Seq<ValueModel>) -> Seq<u64> {
    encs(vals) + seq![encs(vals).len() as u64]
}

impl Abi {
    fn find_by_id(&self, id: u64) -> (r: Option<usize>)
        ensures
            match r {
                Some(i) => first_with_id(self.functions@, id, 0) == Some(i as int) && i
                    < self.functions@.len(),
                None => first_with_id(self.functions@, id, 0) is None,
            },
    {
        let mut i: usize = 0;
        while i < self.functions.len()
            invariant
                i <= self.functions@.len(),
                first_with_id(self.functions@, id, 0) == first_with_id(self.functions@, id, i as int),
            decreases self.functions@.len() - i,
        {
            if self.functions[i].method_id() == id {
                return Some(i);
            }
            i = i + 1;
        }
        None
    }

    fn find_by_signature(&self, signature: &str) -> (r: Option<usize>)
        ensures
            match r {
                Some(i) => first_with_signature(self.functions@, signature@, 0) == Some(i as int)
                    && i < self.functions@.len(),
                None => first_with_signature(self.functions@, signature@, 0) is None,
            },
    {
        let mut i: usize = 0;
        while i < self.functions.len()
            invariant
                i <= self.functions@.len(),
                first_with_signature(self.functions@, signature@, 0) == first_with_signature(
                    self.functions@,
                    signature@,
                    i as int,
                ),
            decreases self.functions@.len() - i,
        {
            let sig = self.functions[i].signature();
            if same_text(sig.as_str(), signature) {
                return Some(i);
            }
            i = i + 1;
        }
        None
    }

    fn find_by_topic(&self, topic: &FixedArray4) -> (r: Option<usize>)
        ensures
            match r {
                Some(i) => first_with_topic(self.events@, topic.0@, 0) == Some(i as int) && i
                    < self.events@.len(),
                None => first_with_topic(self.events@, topic.0@, 0) is None,
            },
    {
        let mut i: usize = 0;
        while i < self.events.len()
            invariant
                i <= self.events@.len(),
                first_with_topic(self.events@, topic.0@, 0) == first_with_topic(
                    self.events@,
                    topic.0@,
                    i as int,
                ),
            decreases self.events@.len() - i,
        {
            if self.events[i].topic().same_words(topic) {
                return Some(i);
            }
            i = i + 1;
        }
        None
    }

    /// Decodes function input from a slice laid out as
    /// `[param words.., word count, method id]`: the function is the first
    /// whose method id is the last word.
    pub fn decode_input_from_slice<'a>(&'a self, input: &[u64]) -> (r: Result<
        (&'a Function, DecodedParams),
        AbiError,
    >)
        ensures
            match r {
                Ok((f, d)) => input@.len() >= 2 && (first_with_id(
                    self.functions@,
                    input@.last(),
                    0,
                ) matches Some(i) && *f == self.functions@[i]) && (decoded_values(
                    input@.take(input@.len() - 2),
                    f.inputs@,
                ) matches Some(vals) && pairs_with(d, f.inputs@, vals)),
                Err(e) => if input@.len() == 0 {
                    e == AbiError::Codec
                } else {
                    match first_with_id(self.functions@, input@.last(), 0) {
                        None => e == AbiError::NotFound,
                        Some(i) => e == AbiError::Codec && (input@.len() < 2 || decoded_values(
                            input@.take(input@.len() - 2),
                            self.functions@[i].inputs@,
                        ) is None),
                    }
                },
            },
    {
        let n = input.len();
        if n == 0 {
            return Err(AbiError::Codec);
        }
        let i = match self.find_by_id(input[n - 1]) {
            None => return Err(AbiError::NotFound),
            Some(i) => i,
        };
        if n < 2 {
            return Err(AbiError::Codec);
        }
        let f = &self.functions[i];
        let params = &input[0..n - 2];
        assert(params@ == input@.take(n - 2));
        match f.decode_input_from_slice(params) {
            Err(e) => Err(e),
            Ok(d) => Ok((f, d)),
        }
    }

    /// Decodes function output from a slice laid out as
    /// `[param words.., word count]`, against the function with this
    /// signature.
    pub fn decode_output_from_slice<'a>(&'a self, signature: &str, output: &[u64]) -> (r: Result<
        (&'a Function, DecodedParams),
        AbiError,
    >)
        ensures
            match r {
                Ok((f, d)) => output@.len() >= 1 && (first_with_signature(
                    self.functions@,
                    signature@,
                    0,
                ) matches Some(i) && *f == self.functions@[i]) && (decoded_values(
                    output@.drop_last(),
                    f.outputs@,
                ) matches Some(vals) && pairs_with(d, f.outputs@, vals)),
                Err(e) => match first_with_signature(self.functions@, signature@, 0) {
                    None => e == AbiError::NotFound,
                    Some(i) => e == AbiError::Codec && (output@.len() == 0 || decoded_values(
                        output@.drop_last(),
                        self.functions@[i].outputs@,
                    ) is None),
                },
            },
    {
        let i = match self.find_by_signature(signature) {
            None => return Err(AbiError::NotFound),
            Some(i) => i,
        };
        let n = output.len();
        if n == 0 {
            return Err(AbiError::Codec);
        }
        let f = &self.functions[i];
        let words = &output[0..n - 1];
        assert(words@ =~= output@.drop_last());
        match f.decode_output_from_slice(words) {
            Err(e) => Err(e),
            Ok(d) => Ok((f, d)),
        }
    }

    /// Decodes event data: the event is the first whose topic is the first
    /// topic.
    pub fn decode_log_from_slice<'a>(&'a self, topics: &[FixedArray4], data: &[u64]) -> (r: Result<
        (&'a Event, DecodedParams),
        AbiError,
    >)
        ensures
            topics@.len() == 0 ==> r == Err::<(&'a Event, DecodedParams), AbiError>(
                AbiError::MissingTopic,
            ),
            topics@.len() > 0 && first_with_topic(self.events@, topics@[0].0@, 0) is None ==> r
                == Err::<(&'a Event, DecodedParams), AbiError>(AbiError::NotFound),
            match r {
                Ok((e, d)) => topics@.len() > 0 && (first_with_topic(
                    self.events@,
                    topics@[0].0@,
                    0,
                ) matches Some(i) && *e == self.events@[i]) && (event_values(
                    e.inputs@,
                    e.anonymous,
                    topics@,
                    data@,
                ) matches Some(vals) && pairs_with(d, e.inputs@, vals)),
                Err(_) => topics@.len() == 0 || match first_with_topic(
                    self.events@,
                    topics@[0].0@,
                    0,
                ) {
                    None => true,
                    Some(i) => event_values(
                        self.events@[i].inputs@,
                        self.events@[i].anonymous,
                        topics@,
                        data@,
                    ) is None && r == Err::<(&'a Event, DecodedParams), AbiError>(AbiError::Codec),
                },
            },
    {
        if topics.len() == 0 {
            return Err(AbiError::MissingTopic);
        }
        let i = match self.find_by_topic(&topics[0]) {
            None => return Err(AbiError::NotFound),
            Some(i) => i,
        };
        let e = &self.events[i];
        match e.decode_data_from_slice(topics, data) {
            Err(err) => Err(err),
            Ok(d) => Ok((e, d)),
        }
    }

    /// Encodes the values as input of the function with this signature:
    /// the value words, their count, then the method id.
    pub fn encode_input_with_signature(&self, signature: &str, params: &[Value]) -> (r: Result<
        Vec<u64>,
        AbiError,
    >)
        ensures
            match first_with_signature(self.functions@, signature@, 0) {
                None => r == Err::<Vec<u64>, AbiError>(AbiError::NotFound),
                Some(i) => r matches Ok(ws) && ws@ == framed(values_model(params@)).push(
                    self.functions@[i].method_id_spec(),
                ),
            },
    {
        let i = match self.find_by_signature(signature) {
            None => return Err(AbiError::NotFound),
            Some(i) => i,
        };
        let mut words = Value::encode(params);
        let count = words.len() as u64;
        words.push(count);
        words.push(self.functions[i].method_id());
        Ok(words)
    }

    /// Encodes the values followed by their word count.
    pub fn encode_values(&self, params: &[Value]) -> (r: Result<Vec<u64>, AbiError>)
        ensures
            r matches Ok(ws) && ws@ == framed(values_model(params@)),
    {
        let mut words = Value::encode(params);
        let count = words.len() as u64;
        words.push(count);
        Ok(words)
    }
}

/// The comma-separated type list depends on the renderings of the types
/// alone.
proof fn lemma_type_list_renderings(a: Seq<TypeModel>, b: Seq<TypeModel>)
    requires
        a.len() == b.len(),
        forall|i: int| 0 <= i < a.len() ==> render(#[trigger] a[i]) == render(b[i]),
    ensures
        type_list(a) == type_list(b),
    decreases a.len(),
{
    if a.len() > 1 {
        lemma_type_list_renderings(a.drop_last(), b.drop_last());
    }
}

/// A function's signature, and so its method id, depend on its name and on
/// the renderings of its input types alone: two functions that agree on
/// those have the same signature and the same method id, whatever their
/// parameter names and outputs.
pub proof fn lemma_selector_determinism(f: Function, g: Function)
    requires
        f.name@ == g.name@,
        f.inputs@.len() == g.inputs@.len(),
        forall|i: int|
            0 <= i < f.inputs@.len() ==> render(#[trigger] f.inputs@[i].type_.model()) == render(
                g.inputs@[i].type_.model(),
            ),
    ensures
        f.signature_spec() == g.signature_spec(),
        f.method_id_spec() == g.method_id_spec(),
{
    let a = param_types(f.inputs@);
    let b = param_types(g.inputs@);
    assert forall|i: int| 0 <= i < a.len() implies render(#[trigger] a[i]) == render(b[i]) by {
        assert(render(f.inputs@[i].type_.model()) == render(g.inputs@[i].type_.model()));
    };
    lemma_type_list_renderings(a, b);
}

} // verus!
