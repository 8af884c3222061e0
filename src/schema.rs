use vstd::prelude::*;

use crate::abi::{Abi, Event, Function};
use crate::error::AbiError;
use crate::params::{
    describes, lemma_entry_round_trip, params_model, representable, Param, ParamEntry, ParamModel,
};
use crate::text::same_text;
use crate::types::parse_spec;

verus! {

/// One entry of a schema: a function or an event, with its parameters in
/// schema form.
#[derive(Debug, PartialEq, Eq)]
pub struct AbiEntry {
    /// `function` or `event`.
    pub type_: String,
    pub name: Option<String>,
    pub inputs: Option<Vec<ParamEntry>>,
    pub outputs: Option<Vec<ParamEntry>>,
    pub anonymous: Option<bool>,
}

pub struct FunctionModel {
    pub name: Seq<char>,
    pub inputs: Seq<ParamModel>,
    pub outputs: Seq<ParamModel>,
}

pub struct EventModel {
    pub name: Seq<char>,
    pub inputs: Seq<ParamModel>,
    pub anonymous: bool,
}

pub enum EntryModel {
    Function(FunctionModel),
    Event(EventModel),
}

pub open spec fn function_model(f: Function) -> FunctionModel {
    FunctionModel {
        name: f.name@,
        inputs: params_model(f.inputs@),
        outputs: params_model(f.outputs@),
    }
}

pub open spec fn event_model(e: Event) -> EventModel {
    EventModel { name: e.name@, inputs: params_model(e.inputs@), anonymous: e.anonymous }
}

pub open spec fn functions_model(fs: Seq<Function>) -> Seq<FunctionModel> {
    Seq::new(fs.len(), |i: int| function_model(fs[i]))
}

pub open spec fn events_model(es: Seq<Event>) -> Seq<EventModel> {
    Seq::new(es.len(), |i: int| event_model(es[i]))
}

/// The parameters that a list of entries describes; an absent list is empty.
/// `None` where a type does not parse.
pub open spec fn param_list_spec(es: Option<Vec<ParamEntry>>) -> Option<Seq<ParamModel>> {
    match es {
        None => Some(Seq::empty()),
        Some(v) => if forall|i: int|
            0 <= i < v@.len() ==> (#[trigger] parse_spec(v@[i].type_@, v@[i].components)) is Some {
            Some(
                Seq::new(
                    v@.len(),
                    |i: int|
                        ParamModel {
                            name: v@[i].name@,
                            ty: parse_spec(v@[i].type_@, v@[i].components)->Some_0,
                            indexed: v@[i].indexed,
                        },
                ),
            )
        } else {
            None
        },
    }
}

/// What one entry gives: its parameters are parsed first, then its kind and
/// its required fields are checked.
pub open spec fn entry_outcome(e: AbiEntry) -> Result<EntryModel, AbiError> {
    match (param_list_spec(e.inputs), param_list_spec(e.outputs)) {
        (Some(ins), Some(outs)) => if e.type_@ == "function"@ {
            match e.name {
                None => Err(AbiError::Schema),
                Some(n) => Ok(EntryModel::Function(FunctionModel { name: n@, inputs: ins, outputs: outs })),
            }
        } else if e.type_@ == "event"@ {
            match (e.name, e.anonymous) {
                (Some(n), Some(a)) => Ok(EntryModel::Event(EventModel { name: n@, inputs: ins, anonymous: a })),
                _ => Err(AbiError::Schema),
            }
        } else {
            Err(AbiError::Schema)
        },
        _ => Err(AbiError::Grammar),
    }
}

/// The functions and events that the entries give, each in schema order, or
/// the failure of the first entry that fails.
pub open spec fn abi_spec(es: Seq<AbiEntry>) -> Result<(Seq<FunctionModel>, Seq<EventModel>), AbiError>
    decreases es.len(),
{
    if es.len() == 0 {
        Ok((Seq::empty(), Seq::empty()))
    } else {
        match abi_spec(es.drop_last()) {
            Err(e) => Err(e),
            Ok((fs, evs)) => match entry_outcome(es.last()) {
                Err(e) => Err(e),
                Ok(EntryModel::Function(f)) => Ok((fs.push(f), evs)),
                Ok(EntryModel::Event(ev)) => Ok((fs, evs.push(ev))),
            },
        }
    }
}

proof fn lemma_abi_spec_err(es: Seq<AbiEntry>, j: int)
    requires
        0 <= j <= es.len(),
        abi_spec(es.take(j)) is Err,
    ensures
        abi_spec(es) == abi_spec(es.take(j)),
    decreases es.len(),
{
    if j == es.len() {
        assert(es.take(j) =~= es);
    } else {
        assert(es.drop_last().take(j) =~= es.take(j));
        lemma_abi_spec_err(es.drop_last(), j);
    }
}

/// Parses a list of parameter entries; an absent list is empty.
fn parse_param_list(es: &Option<Vec<ParamEntry>>) -> (r: Result<Vec<Param>, AbiError>)
    ensures
        match r {
            Ok(ps) => param_list_spec(*es) == Some(params_model(ps@)),
            Err(e) => param_list_spec(*es) is None && e == AbiError::Grammar,
        },
{
    let mut out: Vec<Param> = Vec::new();
    match es {
        None => {
            assert(params_model(out@) =~= Seq::<ParamModel>::empty());
        },
        Some(v) => {
            let mut i: usize = 0;
            while i < v.len()
                invariant
                    *es == Some(*v),
                    i <= v@.len(),
                    out@.len() == i,
                    forall|k: int|
                        0 <= k < i ==> parse_spec(v@[k].type_@, v@[k].components) == Some(
                            (#[trigger] out@[k]).type_.model(),
                        ) && out@[k].name@ == v@[k].name@ && out@[k].indexed == v@[k].indexed,
                decreases v@.len() - i,
            {
                let p = match Param::from_entry(&v[i]) {
                    Err(e) => {
                        assert(parse_spec(v@[i as int].type_@, v@[i as int].components) is None);
                        return Err(e);
                    },
                    Ok(p) => p,
                };
                out.push(p);
                i = i + 1;
            }
            assert forall|k: int| 0 <= k < v@.len() implies (#[trigger] parse_spec(
                v@[k].type_@,
                v@[k].components,
            )) is Some by {
                assert(parse_spec(v@[k].type_@, v@[k].components) == Some(out@[k].type_.model()));
            };
            assert(params_model(out@) =~= param_list_spec(*es)->Some_0);
        },
    }
    Ok(out)
}

impl Abi {
    /// Builds the ABI from schema entries, in order. Fails with `Grammar`
    /// where a parameter type does not parse, and with `Schema` for an
    /// entry that is neither `function` nor `event`, that has no name, or an
    /// event without its `anonymous` flag; the first failing entry decides.
    pub fn from_entries(entries: &Vec<AbiEntry>) -> (r: Result<Abi, AbiError>)
        ensures
            match r {
                Ok(abi) => abi_spec(entries@) == Ok::<(Seq<FunctionModel>, Seq<EventModel>), AbiError>(
                    (functions_model(abi.functions@), events_model(abi.events@)),
                ),
                Err(e) => abi_spec(entries@) == Err::<(Seq<FunctionModel>, Seq<EventModel>), AbiError>(e),
            },
    {
        let mut functions: Vec<Function> = Vec::new();
        let mut events: Vec<Event> = Vec::new();
        let mut i: usize = 0;
        assert(functions_model(functions@) =~= Seq::<FunctionModel>::empty());
        assert(events_model(events@) =~= Seq::<EventModel>::empty());
        assert(entries@.take(0) =~= Seq::<AbiEntry>::empty());
        while i < entries.len()
            invariant
                i <= entries@.len(),
                abi_spec(entries@.take(i as int)) == Ok::<(Seq<FunctionModel>, Seq<EventModel>), AbiError>(
                    (functions_model(functions@), events_model(events@)),
                ),
            decreases entries@.len() - i,
        {
            let e = &entries[i];
            let ghost t = entries@.take(i + 1 as int);
            assert(t.drop_last() =~= entries@.take(i as int));
            assert(t.last() == *e);
            let inputs = match parse_param_list(&e.inputs) {
                Err(err) => {
                    proof {
                        lemma_abi_spec_err(entries@, i + 1);
                    }
                    return Err(err);
                },
                Ok(ps) => ps,
            };
            let outputs = match parse_param_list(&e.outputs) {
                Err(err) => {
                    proof {
                        lemma_abi_spec_err(entries@, i + 1);
                    }
                    return Err(err);
                },
                Ok(ps) => ps,
            };
            if same_text(e.type_.as_str(), "function") {
                let name = match &e.name {
                    None => {
                        proof {
                            lemma_abi_spec_err(entries@, i + 1);
                        }
                        return Err(AbiError::Schema);
                    },
                    Some(n) => n.clone(),
                };
                let ghost before = functions@;
                functions.push(Function { name, inputs, outputs });
                assert(functions_model(functions@) =~= functions_model(before).push(
                    function_model(functions@.last()),
                ));
            } else if same_text(e.type_.as_str(), "event") {
                let name = match &e.name {
                    None => {
                        proof {
                            lemma_abi_spec_err(entries@, i + 1);
                        }
                        return Err(AbiError::Schema);
                    },
                    Some(n) => n.clone(),
                };
                let anonymous = match e.anonymous {
                    None => {
                        proof {
                            lemma_abi_spec_err(entries@, i + 1);
                        }
                        return Err(AbiError::Schema);
                    },
                    Some(a) => a,
                };
                let ghost before = events@;
                events.push(Event { name, inputs, anonymous });
                assert(events_model(events@) =~= events_model(before).push(
                    event_model(events@.last()),
                ));
            } else {
                proof {
                    lemma_abi_spec_err(entries@, i + 1);
                }
                return Err(AbiError::Schema);
            }
            i = i + 1;
        }
        assert(entries@.take(i as int) =~= entries@);
        Ok(Abi { functions, events })
    }

    /// The schema entries of the ABI: its functions, then its events.
    pub fn to_entries(&self) -> (r: Vec<AbiEntry>)
        ensures
            r@.len() == self.functions@.len() + self.events@.len(),
            forall|i: int|
                0 <= i < self.functions@.len() ==> function_entry(
                    #[trigger] r@[i],
                    self.functions@[i],
                ),
            forall|k: int|
                0 <= k < self.events@.len() ==> event_entry(
                    #[trigger] r@[self.functions@.len() + k],
                    self.events@[k],
                ),
    {
        let mut out: Vec<AbiEntry> = Vec::new();
        let mut i: usize = 0;
        while i < self.functions.len()
            invariant
                i <= self.functions@.len(),
                out@.len() == i,
                forall|k: int| 0 <= k < i ==> function_entry(#[trigger] out@[k], self.functions@[k]),
            decreases self.functions@.len() - i,
        {
            let f = &self.functions[i];
            out.push(
                AbiEntry {
                    type_: String::from_str("function"),
                    name: Some(f.name.clone()),
                    inputs: Some(param_entries(&f.inputs)),
                    outputs: Some(param_entries(&f.outputs)),
                    anonymous: None,
                },
            );
            i = i + 1;
        }
        let nf = self.functions.len();
        let mut k: usize = 0;
        while k < self.events.len()
            invariant
                nf == self.functions@.len(),
                k <= self.events@.len(),
                out@.len() == nf + k,
                forall|j: int| 0 <= j < nf ==> function_entry(#[trigger] out@[j], self.functions@[j]),
                forall|j: int| 0 <= j < k ==> event_entry(#[trigger] out@[nf + j], self.events@[j]),
            decreases self.events@.len() - k,
        {
            let e = &self.events[k];
            out.push(
                AbiEntry {
                    type_: String::from_str("event"),
                    name: Some(e.name.clone()),
                    inputs: Some(param_entries(&e.inputs)),
                    outputs: None,
                    anonymous: Some(e.anonymous),
                },
            );
            k = k + 1;
        }
        out
    }
}

/// Whether each entry describes the parameter of the same position.
pub open spec fn entries_describe(v: Seq<ParamEntry>, ps: Seq<Param>) -> bool {
    &&& v.len() == ps.len()
    &&& forall|i: int|
        0 <= i < ps.len() ==> describes(
            #[trigger] v[i],
            ps[i].name@,
            ps[i].type_.model(),
            ps[i].indexed,
        )
}

/// Whether `e` is the schema entry of the function `f`.
pub open spec fn function_entry(e: AbiEntry, f: Function) -> bool {
    &&& e.type_@ == "function"@
    &&& e.name matches Some(n) && n@ == f.name@
    &&& e.inputs matches Some(v) && entries_describe(v@, f.inputs@)
    &&& e.outputs matches Some(v) && entries_describe(v@, f.outputs@)
    &&& e.anonymous is None
}

/// Whether `e` is the schema entry of the event `ev`.
pub open spec fn event_entry(e: AbiEntry, ev: Event) -> bool {
    &&& e.type_@ == "event"@
    &&& e.name matches Some(n) && n@ == ev.name@
    &&& e.inputs matches Some(v) && entries_describe(v@, ev.inputs@)
    &&& e.outputs is None
    &&& e.anonymous == Some(ev.anonymous)
}

/// The schema entries of the parameters, in order.
fn param_entries(ps: &Vec<Param>) -> (r: Vec<ParamEntry>)
    ensures
        entries_describe(r@, ps@),
{
    let mut out: Vec<ParamEntry> = Vec::new();
    let mut i: usize = 0;
    while i < ps.len()
        invariant
            i <= ps@.len(),
            out@.len() == i,
            forall|k: int|
                0 <= k < i ==> describes(
                    #[trigger] out@[k],
                    ps@[k].name@,
                    ps@[k].type_.model(),
                    ps@[k].indexed,
                ),
        decreases ps@.len() - i,
    {
        out.push(ps[i].build_param_entry());
        i = i + 1;
    }
    out
}

} // verus!

verus! {

/// Whether every parameter type of the list can be carried by its entry.
pub open spec fn params_representable(ps: Seq<Param>) -> bool {
    forall|j: int| 0 <= j < ps.len() ==> representable(#[trigger] ps[j].type_.model())
}

/// Whether every parameter type of the ABI can be carried by its entry.
pub open spec fn abi_representable(abi: Abi) -> bool {
    &&& forall|i: int|
        0 <= i < abi.functions@.len() ==> params_representable(
            (#[trigger] abi.functions@[i]).inputs@,
        ) && params_representable(abi.functions@[i].outputs@)
    &&& forall|k: int|
        0 <= k < abi.events@.len() ==> params_representable((#[trigger] abi.events@[k]).inputs@)
}

proof fn lemma_param_list(v: Vec<ParamEntry>, ps: Seq<Param>)
    requires
        entries_describe(v@, ps),
        params_representable(ps),
    ensures
        param_list_spec(Some(v)) == Some(params_model(ps)),
{
    assert forall|i: int| 0 <= i < v@.len() implies (#[trigger] parse_spec(
        v@[i].type_@,
        v@[i].components,
    )) == Some(ps[i].type_.model()) by {
        lemma_entry_round_trip(ps[i], v@[i]);
    };
    assert(param_list_spec(Some(v))->Some_0 =~= params_model(ps));
}

pub open spec fn prefix_models(abi: Abi, m: int) -> (Seq<FunctionModel>, Seq<EventModel>) {
    let nf = abi.functions@.len() as int;
    if m <= nf {
        (functions_model(abi.functions@.take(m)), Seq::<EventModel>::empty())
    } else {
        (functions_model(abi.functions@), events_model(abi.events@.take(m - nf)))
    }
}

proof fn lemma_abi_prefix(abi: Abi, es: Seq<AbiEntry>, m: int)
    requires
        abi_representable(abi),
        0 <= m <= es.len(),
        es.len() == abi.functions@.len() + abi.events@.len(),
        forall|i: int|
            0 <= i < abi.functions@.len() ==> function_entry(#[trigger] es[i], abi.functions@[i]),
        forall|k: int|
            0 <= k < abi.events@.len() ==> event_entry(
                #[trigger] es[abi.functions@.len() + k],
                abi.events@[k],
            ),
    ensures
        abi_spec(es.take(m)) == Ok::<(Seq<FunctionModel>, Seq<EventModel>), AbiError>(
            prefix_models(abi, m),
        ),
    decreases m,
{
    let fs = abi.functions@;
    let evs = abi.events@;
    let nf = fs.len() as int;
    if m == 0 {
        assert(es.take(0) =~= Seq::<AbiEntry>::empty());
        assert(functions_model(fs.take(0)) =~= Seq::<FunctionModel>::empty());
        return;
    }
    reveal_strlit("function");
    reveal_strlit("event");
    assert("function"@ != "event"@) by {
        assert("function"@.len() != "event"@.len());
    };
    let j = m - 1;
    lemma_abi_prefix(abi, es, j);
    let t = es.take(m);
    assert(t.drop_last() =~= es.take(j));
    assert(t.last() == es[j]);
    let e = es[j];
    if j < nf {
        let f = fs[j];
        assert(function_entry(e, f));
        assert(params_representable(f.inputs@) && params_representable(f.outputs@));
        lemma_param_list(e.inputs->Some_0, f.inputs@);
        lemma_param_list(e.outputs->Some_0, f.outputs@);
        assert(functions_model(fs.take(m)) =~= functions_model(fs.take(j)).push(
            function_model(f),
        ));
        if m == nf {
            assert(fs.take(m) =~= fs);
            assert(evs.take(0) =~= Seq::<Event>::empty());
            assert(events_model(evs.take(0)) =~= Seq::<EventModel>::empty());
        }
    } else {
        let k = j - nf;
        let ev = evs[k];
        assert(event_entry(es[nf + k], ev));
        assert(params_representable(ev.inputs@));
        lemma_param_list(e.inputs->Some_0, ev.inputs@);
        assert(events_model(evs.take(k + 1)) =~= events_model(evs.take(k)).push(
            event_model(ev),
        ));
        if j == nf {
            assert(fs.take(j) =~= fs);
            assert(evs.take(0) =~= Seq::<Event>::empty());
            assert(events_model(evs.take(0)) =~= Seq::<EventModel>::empty());
        }
    }
}

/// Storing an ABI as schema entries and building it from them again gives
/// the same functions and events, where every parameter type can be carried
/// by its entry (tuples at most one array layer deep).
pub proof fn lemma_abi_round_trip(abi: Abi, es: Seq<AbiEntry>)
    requires
        abi_representable(abi),
        es.len() == abi.functions@.len() + abi.events@.len(),
        forall|i: int|
            0 <= i < abi.functions@.len() ==> function_entry(#[trigger] es[i], abi.functions@[i]),
        forall|k: int|
            0 <= k < abi.events@.len() ==> event_entry(
                #[trigger] es[abi.functions@.len() + k],
                abi.events@[k],
            ),
    ensures
        abi_spec(es) == Ok::<(Seq<FunctionModel>, Seq<EventModel>), AbiError>(
            (functions_model(abi.functions@), events_model(abi.events@)),
        ),
{
    let nf = abi.functions@.len() as int;
    lemma_abi_prefix(abi, es, es.len() as int);
    assert(es.take(es.len() as int) =~= es);
    if es.len() == nf {
        assert(abi.functions@.take(nf) =~= abi.functions@);
        assert(abi.events@ =~= Seq::<Event>::empty());
        assert(events_model(abi.events@) =~= Seq::<EventModel>::empty());
    } else {
        assert(abi.events@.take(es.len() - nf) =~= abi.events@);
    }
}

} // verus!
