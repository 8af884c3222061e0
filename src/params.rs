use vstd::prelude::*;

use crate::error::AbiError;
use crate::text::same_text;
use crate::types::{
    base_of, lemma_render_parse, parse_fields_spec,
    fields_model, lemma_fields_model, param_type_string, parse_exact_type, parse_spec, render,
    Type, TypeModel,
};
use crate::value::Value;

verus! {

/// The schema form of a parameter: its type as a signature string, with the
/// fields of a tuple given apart as component entries.
#[derive(Debug, PartialEq, Eq)]
pub struct ParamEntry {
    pub name: String,
    pub type_: String,
    pub indexed: Option<bool>,
    pub components: Option<Vec<ParamEntry>>,
}

/// A parameter of a function or an event.
#[derive(Debug, PartialEq, Eq)]
pub struct Param {
    /// Parameter name; it may be empty.
    pub name: String,
    /// Parameter type.
    pub type_: Type,
    /// Whether it is an indexed parameter (events only).
    pub indexed: Option<bool>,
}

/// The mathematical model of a `Param`.
pub struct ParamModel {
    pub name: Seq<char>,
    pub ty: TypeModel,
    pub indexed: Option<bool>,
}

impl Param {
    pub open spec fn model(&self) -> ParamModel {
        ParamModel { name: self.name@, ty: self.type_.model(), indexed: self.indexed }
    }

    /// A copy of this parameter with the same model.
    pub fn duplicate(&self) -> (r: Param)
        ensures
            r.model() == self.model(),
    {
        Param { name: self.name.clone(), type_: self.type_.duplicate(), indexed: self.indexed }
    }

    /// The parameter that a schema entry describes: its type string parsed
    /// against its components.
    pub fn from_entry(entry: &ParamEntry) -> (r: Result<Param, AbiError>)
        ensures
            match r {
                Ok(p) => parse_spec(entry.type_@, entry.components) == Some(p.type_.model())
                    && p.name@ == entry.name@ && p.indexed == entry.indexed,
                Err(e) => parse_spec(entry.type_@, entry.components) is None && e
                    == AbiError::Grammar,
            },
    {
        let ty = match parse_exact_type(&entry.components, entry.type_.as_str()) {
            Err(e) => return Err(e),
            Ok(t) => t,
        };
        Ok(Param { name: entry.name.clone(), type_: ty, indexed: entry.indexed })
    }

    /// The schema entry of this parameter. Components are given for a tuple,
    /// and for an array whose element type is a tuple (one level only).
    pub fn build_param_entry(&self) -> (r: ParamEntry)
        ensures
            describes(r, self.name@, self.type_.model(), self.indexed),
    {
        entry_for(&self.name, &self.type_, self.indexed)
    }
}

impl Clone for Param {
    fn clone(&self) -> Param {
        self.duplicate()
    }
}

pub open spec fn params_model(ps: Seq<Param>) -> Seq<ParamModel> {
    Seq::new(ps.len(), |i: int| ps[i].model())
}

/// Whether `e` is the schema entry of a parameter with this name, type and
/// flag.
pub open spec fn describes(e: ParamEntry, name: Seq<char>, t: TypeModel, indexed: Option<bool>) -> bool
    decreases t, 1nat,
{
    &&& e.name@ == name
    &&& e.type_@ == render(t)
    &&& e.indexed == indexed
    &&& match t {
        TypeModel::Tuple(fs) => components_describe(e.components, fs),
        TypeModel::Array(el) => match *el {
            TypeModel::Tuple(fs) => components_describe(e.components, fs),
            _ => e.components is None,
        },
        TypeModel::FixedArray(el, _) => match *el {
            TypeModel::Tuple(fs) => components_describe(e.components, fs),
            _ => e.components is None,
        },
        _ => e.components is None,
    }
}

/// Whether `c` holds one entry for each field, in order.
pub open spec fn components_describe(
    c: Option<Vec<ParamEntry>>,
    fs: Seq<(Seq<char>, TypeModel)>,
) -> bool
    decreases fs, 0nat,
{
    match c {
        None => false,
        Some(cs) => cs@.len() == fs.len() && forall|i: int|
            0 <= i < fs.len() ==> describes(#[trigger] cs@[i], fs[i].0, fs[i].1, None),
    }
}

fn entry_for(name: &String, t: &Type, indexed: Option<bool>) -> (r: ParamEntry)
    ensures
        describes(r, name@, t.model(), indexed),
    decreases t, 1u64,
{
    let components = match t {
        Type::Tuple(fs) => Some(component_entries(fs)),
        Type::Array(el) | Type::FixedArray(el, _) => match &**el {
            Type::Tuple(fs) => {
                assert(el.model() == TypeModel::Tuple(fields_model(fs@)));
                Some(component_entries(fs))
            },
            _ => {
                assert(!(el.model() is Tuple));
                None
            },
        },
        _ => None,
    };
    ParamEntry { name: name.clone(), type_: param_type_string(t), indexed, components }
}

fn component_entries(fs: &Vec<(String, Type)>) -> (r: Vec<ParamEntry>)
    ensures
        components_describe(Some(r), fields_model(fs@)),
    decreases fs, 0u64,
{
    proof {
        lemma_fields_model(fs@);
    }
    let mut out: Vec<ParamEntry> = Vec::new();
    let mut i: usize = 0;
    while i < fs.len()
        invariant
            i <= fs@.len(),
            fields_model(fs@).len() == fs@.len(),
            forall|k: int|
                0 <= k < fs@.len() ==> #[trigger] fields_model(fs@)[k] == (
                    fs@[k].0@,
                    fs@[k].1.model(),
                ),
            out@.len() == i,
            forall|k: int|
                0 <= k < i ==> describes(
                    #[trigger] out@[k],
                    fields_model(fs@)[k].0,
                    fields_model(fs@)[k].1,
                    None,
                ),
        decreases fs@.len() - i,
    {
        proof {
            assert(decreases_to!(*fs => fs@));
            vstd::seq::axiom_seq_index_decreases(fs@, i as int);
            assert(decreases_to!(fs@[i as int] => fs@[i as int].1));
        }
        let e = entry_for(&fs[i].0, &fs[i].1, None);
        out.push(e);
        i = i + 1;
    }
    out
}

/// A parameter together with the value decoded for it.
#[derive(Debug, PartialEq, Eq)]
pub struct DecodedParam {
    /// Param definition.
    pub param: Param,
    /// Decoded param value.
    pub value: Value,
}

/// Decoded parameters, in declaration order.
#[derive(Debug, PartialEq, Eq)]
pub struct DecodedParams(pub Vec<DecodedParam>);

impl DecodedParams {
    /// Pairs each parameter with its value, in order.
    pub fn from_pairs(pairs: Vec<(Param, Value)>) -> (r: DecodedParams)
        ensures
            r.0@.len() == pairs@.len(),
            forall|i: int|
                0 <= i < pairs@.len() ==> (#[trigger] r.0@[i]).param == pairs@[i].0 && r.0@[i].value
                    == pairs@[i].1,
    {
        let mut out: Vec<DecodedParam> = Vec::new();
        let mut rest = pairs;
        let ghost all = rest@;
        let mut i: usize = 0;
        let n = rest.len();
        while i < n
            invariant
                n == all.len(),
                i <= n,
                rest@ == all.skip(i as int),
                out@.len() == i,
                forall|k: int|
                    0 <= k < i ==> (#[trigger] out@[k]).param == all[k].0 && out@[k].value
                        == all[k].1,
            decreases n - i,
        {
            let (param, value) = rest.remove(0);
            out.push(DecodedParam { param, value });
            i = i + 1;
            assert(rest@ =~= all.skip(i as int));
        }
        DecodedParams(out)
    }

    /// The decoded parameters, in declaration order.
    pub fn params(&self) -> (r: &Vec<DecodedParam>)
        ensures
            r == &self.0,
    {
        &self.0
    }

    /// A reader with access by position and by name.
    pub fn reader(&self) -> (r: DecodedParamsReader<'_>)
        ensures
            r.by_index@.len() == self.0@.len(),
            forall|i: int| 0 <= i < self.0@.len() ==> *(#[trigger] r.by_index@[i]) == self.0@[i],
            r.by_name@.len() == first_named(self.0@).len(),
            forall|i: int|
                0 <= i < r.by_name@.len() ==> *(#[trigger] r.by_name@[i]) == first_named(
                    self.0@,
                )[i],
    {
        DecodedParamsReader::new(self)
    }
}

/// Whether some parameter before position `i` has the name `name`.
pub open spec fn named_before(ps: Seq<DecodedParam>, i: int, name: Seq<char>) -> bool {
    exists|j: int| 0 <= j < i && (#[trigger] ps[j]).param.name@ == name
}

/// The parameters that the name index keeps: those with a non-empty name
/// that no earlier parameter has, in order. The first of equal names wins.
pub open spec fn first_named(ps: Seq<DecodedParam>) -> Seq<DecodedParam>
    decreases ps.len(),
{
    if ps.len() == 0 {
        Seq::empty()
    } else {
        let rest = first_named(ps.drop_last());
        let p = ps.last();
        if p.param.name@.len() > 0 && !named_before(ps, ps.len() - 1, p.param.name@) {
            rest.push(p)
        } else {
            rest
        }
    }
}

/// Access to decoded parameters by position and by name.
pub struct DecodedParamsReader<'a> {
    /// Decoded params by parameter index.
    pub by_index: Vec<&'a DecodedParam>,
    /// Decoded params with a non-empty name, one per name (the first), in
    /// declaration order.
    pub by_name: Vec<&'a DecodedParam>,
}

impl<'a> DecodedParamsReader<'a> {
    fn new(decoded_params: &'a DecodedParams) -> (r: Self)
        ensures
            r.by_index@.len() == decoded_params.0@.len(),
            forall|i: int|
                0 <= i < decoded_params.0@.len() ==> *(#[trigger] r.by_index@[i])
                    == decoded_params.0@[i],
            r.by_name@.len() == first_named(decoded_params.0@).len(),
            forall|i: int|
                0 <= i < r.by_name@.len() ==> *(#[trigger] r.by_name@[i]) == first_named(
                    decoded_params.0@,
                )[i],
    {
        let ps = &decoded_params.0;
        let mut by_index: Vec<&'a DecodedParam> = Vec::new();
        let mut by_name: Vec<&'a DecodedParam> = Vec::new();
        let mut i: usize = 0;
        while i < ps.len()
            invariant
                ps == &decoded_params.0,
                i <= ps@.len(),
                by_index@.len() == i,
                forall|k: int| 0 <= k < i ==> *(#[trigger] by_index@[k]) == ps@[k],
                by_name@.len() == first_named(ps@.take(i as int)).len(),
                forall|k: int|
                    0 <= k < by_name@.len() ==> *(#[trigger] by_name@[k]) == first_named(
                        ps@.take(i as int),
                    )[k],
            decreases ps@.len() - i,
        {
            let p = &ps[i];
            by_index.push(p);
            let ghost t = ps@.take(i + 1 as int);
            assert(t.drop_last() =~= ps@.take(i as int));
            let named = p.param.name.as_str().unicode_len() > 0;
            if named {
                let mut seen = false;
                let mut j: usize = 0;
                while j < i
                    invariant
                        ps == &decoded_params.0,
                        i < ps@.len(),
                        j <= i,
                        p == &ps@[i as int],
                        seen == named_before(ps@, j as int, p.param.name@),
                    decreases i - j,
                {
                    if same_text(ps[j].param.name.as_str(), p.param.name.as_str()) {
                        seen = true;
                    }
                    proof {
                        if named_before(ps@, j + 1, p.param.name@) && !named_before(ps@, j as int, p.param.name@) {
                            let w = choose|w: int| 0 <= w < j + 1 && (#[trigger] ps@[w]).param.name@ == p.param.name@;
                            assert(w == j);
                        }
                        if named_before(ps@, j as int, p.param.name@) {
                            let w = choose|w: int| 0 <= w < j && (#[trigger] ps@[w]).param.name@ == p.param.name@;
                            assert(0 <= w < j + 1 && ps@[w].param.name@ == p.param.name@);
                        }
                        if ps@[j as int].param.name@ == p.param.name@ {
                            assert(0 <= j < j + 1 && ps@[j as int].param.name@ == p.param.name@);
                        }
                    }
                    j = j + 1;
                }
                proof {
                    assert(named_before(ps@, i as int, p.param.name@) == named_before(t, i as int, p.param.name@)) by {
                        if named_before(ps@, i as int, p.param.name@) {
                            let w = choose|w: int| 0 <= w < i && (#[trigger] ps@[w]).param.name@ == p.param.name@;
                            assert(t[w] == ps@[w]);
                        }
                        if named_before(t, i as int, p.param.name@) {
                            let w = choose|w: int| 0 <= w < i && (#[trigger] t[w]).param.name@ == p.param.name@;
                            assert(t[w] == ps@[w]);
                        }
                    };
                }
                if !seen {
                    by_name.push(p);
                }
            }
            i = i + 1;
        }
        assert(ps@.take(i as int) =~= ps@);
        DecodedParamsReader { by_index, by_name }
    }

    /// The parameter with this name: the first one that has it. An empty name
    /// finds nothing.
    pub fn get(&self, name: &str) -> (r: Option<&'a DecodedParam>)
        ensures
            r is Some <==> exists|i: int|
                0 <= i < self.by_name@.len() && (#[trigger] self.by_name@[i]).param.name@ == name@,
            r matches Some(p) ==> p.param.name@ == name@ && exists|i: int|
                0 <= i < self.by_name@.len() && *(#[trigger] self.by_name@[i]) == *p,
    {
        let mut i: usize = 0;
        while i < self.by_name.len()
            invariant
                i <= self.by_name@.len(),
                forall|k: int| 0 <= k < i ==> (#[trigger] self.by_name@[k]).param.name@ != name@,
            decreases self.by_name@.len() - i,
        {
            if same_text(self.by_name[i].param.name.as_str(), name) {
                return Some(self.by_name[i]);
            }
            i = i + 1;
        }
        None
    }
}

} // verus!

verus! {

/// A type that its schema entry can carry: a tuple stands at the base of at
/// most one array layer, and so do the tuples among its fields.
pub open spec fn representable(t: TypeModel) -> bool
    decreases t, 1nat,
{
    match t {
        TypeModel::Tuple(fs) => fields_representable(fs),
        TypeModel::Array(el) => match *el {
            TypeModel::Tuple(fs) => fields_representable(fs),
            _ => !(base_of(*el) is Tuple),
        },
        TypeModel::FixedArray(el, _) => match *el {
            TypeModel::Tuple(fs) => fields_representable(fs),
            _ => !(base_of(*el) is Tuple),
        },
        _ => true,
    }
}

pub open spec fn fields_representable(fs: Seq<(Seq<char>, TypeModel)>) -> bool
    decreases fs, 0nat,
{
    forall|i: int| 0 <= i < fs.len() ==> representable(#[trigger] fs[i].1)
}

proof fn lemma_entry_parses(e: ParamEntry, name: Seq<char>, t: TypeModel, indexed: Option<bool>)
    requires
        describes(e, name, t, indexed),
        representable(t),
    ensures
        parse_spec(e.type_@, e.components) == Some(t),
    decreases t, 1nat,
{
    match t {
        TypeModel::Tuple(fs) => {
            lemma_components_parse(e.components->Some_0@, fs);
        },
        TypeModel::Array(el) => match *el {
            TypeModel::Tuple(fs) => {
                lemma_components_parse(e.components->Some_0@, fs);
            },
            _ => {},
        },
        TypeModel::FixedArray(el, _) => match *el {
            TypeModel::Tuple(fs) => {
                lemma_components_parse(e.components->Some_0@, fs);
            },
            _ => {},
        },
        _ => {},
    }
    lemma_render_parse(t, e.components);
}

proof fn lemma_components_parse(cs: Seq<ParamEntry>, fs: Seq<(Seq<char>, TypeModel)>)
    requires
        cs.len() == fs.len(),
        forall|i: int| 0 <= i < fs.len() ==> describes(#[trigger] cs[i], fs[i].0, fs[i].1, None),
        fields_representable(fs),
    ensures
        parse_fields_spec(cs) == Some(fs),
    decreases fs, 0nat,
{
    if cs.len() > 0 {
        let n = cs.len() - 1;
        assert(describes(cs[n], fs[n].0, fs[n].1, None));
        assert(representable(fs[n].1));
        lemma_entry_parses(cs[n], fs[n].0, fs[n].1, None);
        lemma_components_parse(cs.drop_last(), fs.drop_last());
        assert(fs.drop_last().push((fs[n].0, fs[n].1)) =~= fs);
    } else {
        assert(fs =~= Seq::<(Seq<char>, TypeModel)>::empty());
    }
}

/// The schema entry of a parameter parses back to the same parameter,
/// where its type has tuples at most one array layer deep.
pub proof fn lemma_entry_round_trip(p: Param, e: ParamEntry)
    requires
        describes(e, p.name@, p.type_.model(), p.indexed),
        representable(p.type_.model()),
    ensures
        parse_spec(e.type_@, e.components) == Some(p.type_.model()),
        e.name@ == p.name@,
        e.indexed == p.indexed,
{
    lemma_entry_parses(e, p.name@, p.type_.model(), p.indexed);
}

} // verus!
