use vstd::prelude::*;

use crate::error::AbiError;
use crate::params::ParamEntry;
use crate::text::{chars_of, push_char, push_chars};

verus! {

/// An ABI type.
#[derive(Debug, PartialEq, Eq)]
pub enum Type {
    U32,
    U256,
    Field,
    Address,
    Hash,
    Bool,
    String,
    Fields,
    /// A dynamic array of the element type.
    Array(Box<Type>),
    /// An array of the element type with a length fixed by the type.
    FixedArray(Box<Type>, u64),
    /// Named fields, in declaration order.
    Tuple(Vec<(String, Type)>),
}

/// The mathematical model of a `Type`.
pub enum TypeModel {
    U32,
    U256,
    Field,
    Address,
    Hash,
    Bool,
    String,
    Fields,
    Array(Box<TypeModel>),
    FixedArray(Box<TypeModel>, u64),
    Tuple(Seq<(Seq<char>, TypeModel)>),
}

impl Type {
    pub open spec fn model(&self) -> TypeModel
        decreases self,
    {
        match self {
            Type::U32 => TypeModel::U32,
            Type::U256 => TypeModel::U256,
            Type::Field => TypeModel::Field,
            Type::Address => TypeModel::Address,
            Type::Hash => TypeModel::Hash,
            Type::Bool => TypeModel::Bool,
            Type::String => TypeModel::String,
            Type::Fields => TypeModel::Fields,
            Type::Array(t) => TypeModel::Array(Box::new(t.model())),
            Type::FixedArray(t, n) => TypeModel::FixedArray(Box::new(t.model()), *n),
            Type::Tuple(fs) => TypeModel::Tuple(fields_model(fs@)),
        }
    }

    /// A copy of this type with the same model.
    pub fn duplicate(&self) -> (r: Type)
        ensures
            r.model() == self.model(),
        decreases self,
    {
        match self {
            Type::U32 => Type::U32,
            Type::U256 => Type::U256,
            Type::Field => Type::Field,
            Type::Address => Type::Address,
            Type::Hash => Type::Hash,
            Type::Bool => Type::Bool,
            Type::String => Type::String,
            Type::Fields => Type::Fields,
            Type::Array(t) => Type::Array(Box::new(t.duplicate())),
            Type::FixedArray(t, n) => Type::FixedArray(Box::new(t.duplicate()), *n),
            Type::Tuple(fs) => {
                let mut out: Vec<(String, Type)> = Vec::new();
                let mut i: usize = 0;
                while i < fs.len()
                    invariant
                        *self == Type::Tuple(*fs),
                        i <= fs@.len(),
                        fields_model(out@) == fields_model(fs@.take(i as int)),
                    decreases fs@.len() - i,
                {
                    let ghost before = out@;
                    let name = fs[i].0.clone();
                    proof {
                        assert(decreases_to!(*self => self->Tuple_0));
                        assert(decreases_to!(*fs => fs@));
                        vstd::seq::axiom_seq_index_decreases(fs@, i as int);
                        assert(decreases_to!(fs@[i as int] => fs@[i as int].1));
                    }
                    let t = fs[i].1.duplicate();
                    out.push((name, t));
                    assert(out@.drop_last() =~= before);
                    assert(fs@.take(i + 1 as int).drop_last() =~= fs@.take(i as int));
                    i = i + 1;
                }
                assert(fs@.take(fs@.len() as int) =~= fs@);
                Type::Tuple(out)
            },
        }
    }
}

impl Clone for Type {
    fn clone(&self) -> Type {
        self.duplicate()
    }
}

pub open spec fn fields_model(fs: Seq<(String, Type)>) -> Seq<(Seq<char>, TypeModel)>
    decreases fs,
{
    if fs.len() == 0 {
        Seq::empty()
    } else {
        fields_model(fs.drop_last()).push((fs.last().0@, fs.last().1.model()))
    }
}

pub proof fn lemma_fields_model(fs: Seq<(String, Type)>)
    ensures
        fields_model(fs).len() == fs.len(),
        forall|i: int|
            0 <= i < fs.len() ==> #[trigger] fields_model(fs)[i] == (fs[i].0@, fs[i].1.model()),
    decreases fs.len(),
{
    if fs.len() > 0 {
        lemma_fields_model(fs.drop_last());
    }
}

/// The keyword that names a scalar type or a tuple.
pub open spec fn keyword(t: TypeModel) -> Seq<char> {
    match t {
        TypeModel::U32 => seq!['u', '3', '2'],
        TypeModel::U256 => seq!['u', '2', '5', '6'],
        TypeModel::Field => seq!['f', 'i', 'e', 'l', 'd'],
        TypeModel::Address => seq!['a', 'd', 'd', 'r', 'e', 's', 's'],
        TypeModel::Hash => seq!['h', 'a', 's', 'h'],
        TypeModel::Bool => seq!['b', 'o', 'o', 'l'],
        TypeModel::String => seq!['s', 't', 'r', 'i', 'n', 'g'],
        TypeModel::Fields => seq!['f', 'i', 'e', 'l', 'd', 's'],
        TypeModel::Tuple(_) => seq!['t', 'u', 'p', 'l', 'e'],
        _ => Seq::empty(),
    }
}

/// The simple types in the order in which the grammar tries them.
pub open spec fn candidate(i: int) -> TypeModel {
    if i == 0 {
        TypeModel::Tuple(Seq::empty())
    } else if i == 1 {
        TypeModel::Fields
    } else if i == 2 {
        TypeModel::U32
    } else if i == 3 {
        TypeModel::U256
    } else if i == 4 {
        TypeModel::Field
    } else if i == 5 {
        TypeModel::Address
    } else if i == 6 {
        TypeModel::Hash
    } else if i == 7 {
        TypeModel::Bool
    } else {
        TypeModel::String
    }
}

pub const N_CANDIDATES: usize = 9;

pub open spec fn is_prefix(p: Seq<char>, s: Seq<char>) -> bool {
    p.len() <= s.len() && s.take(p.len() as int) == p
}

/// The first candidate, from `i` on, whose keyword begins `s`.
pub open spec fn first_keyword(s: Seq<char>, i: int) -> Option<int>
    decreases 9 - i,
{
    if i < 0 || i >= 9 {
        None
    } else if is_prefix(keyword(candidate(i)), s) {
        Some(i)
    } else {
        first_keyword(s, i + 1)
    }
}

pub open spec fn is_digit(c: char) -> bool {
    '0' <= c && c <= '9'
}

pub open spec fn digit_of(c: char) -> nat {
    (c as u32 - '0' as u32) as nat
}

pub open spec fn digit_char(d: nat) -> char {
    ((d + 48) as u8) as char
}

/// The number of leading decimal digits of `s`.
pub open spec fn digit_run(s: Seq<char>) -> nat
    decreases s.len(),
{
    if s.len() > 0 && is_digit(s[0]) {
        1 + digit_run(s.skip(1))
    } else {
        0
    }
}

/// The number that a string of decimal digits denotes.
pub open spec fn digits_value(d: Seq<char>) -> nat
    decreases d.len(),
{
    if d.len() == 0 {
        0
    } else {
        digits_value(d.drop_last()) * 10 + digit_of(d.last())
    }
}

/// The decimal rendering of `n`, without leading zeros.
pub open spec fn decimal(n: nat) -> Seq<char>
    decreases n,
{
    if n < 10 {
        seq![digit_char(n)]
    } else {
        decimal(n / 10).push(digit_char(n % 10))
    }
}

/// The bracket groups `[]` and `[N]` that make up all of `r`, in order:
/// `None` for a dynamic dimension, `Some(N)` for a fixed one.
pub open spec fn brackets(r: Seq<char>) -> Option<Seq<Option<u64>>>
    decreases r.len(),
{
    if r.len() == 0 {
        Some(Seq::empty())
    } else if r[0] != '[' {
        None
    } else {
        let d = digit_run(r.skip(1)) as int;
        if 1 + d >= r.len() || r[1 + d] != ']' {
            None
        } else if d > 0 && digits_value(r.subrange(1, 1 + d)) > u64::MAX {
            None
        } else {
            let dim = if d == 0 {
                None
            } else {
                Some(digits_value(r.subrange(1, 1 + d)) as u64)
            };
            match brackets(r.skip(d + 2)) {
                Some(rest) => Some(seq![dim] + rest),
                None => None,
            }
        }
    }
}

pub open spec fn wrap_one(t: TypeModel, dim: Option<u64>) -> TypeModel {
    match dim {
        None => TypeModel::Array(Box::new(t)),
        Some(n) => TypeModel::FixedArray(Box::new(t), n),
    }
}

/// The type that the dimensions make of `base`: the first one wraps `base`
/// directly, each later one wraps the result so far.
pub open spec fn wrap(base: TypeModel, dims: Seq<Option<u64>>) -> TypeModel
    decreases dims.len(),
{
    if dims.len() == 0 {
        base
    } else {
        wrap_one(wrap(base, dims.drop_last()), dims.last())
    }
}

/// The type that `s` denotes, with `comps` giving the fields of a `tuple`.
pub open spec fn parse_spec(s: Seq<char>, comps: Option<Vec<ParamEntry>>) -> Option<TypeModel>
    decreases comps,
{
    match first_keyword(s, 0) {
        None => None,
        Some(k) => match brackets(s.skip(keyword(candidate(k)).len() as int)) {
            None => None,
            Some(dims) => if k == 0 {
                match comps {
                    None => None,
                    Some(cs) => match parse_fields_spec(cs@) {
                        None => None,
                        Some(fs) => Some(wrap(TypeModel::Tuple(fs), dims)),
                    },
                }
            } else {
                Some(wrap(candidate(k), dims))
            },
        },
    }
}

/// The fields that the component entries denote, in order.
pub open spec fn parse_fields_spec(cs: Seq<ParamEntry>) -> Option<Seq<(Seq<char>, TypeModel)>>
    decreases cs,
{
    if cs.len() == 0 {
        Some(Seq::empty())
    } else {
        match parse_fields_spec(cs.drop_last()) {
            None => None,
            Some(fs) => match parse_spec(cs.last().type_@, cs.last().components) {
                None => None,
                Some(t) => Some(fs.push((cs.last().name@, t))),
            },
        }
    }
}

/// The canonical signature string of a type.
pub open spec fn render(t: TypeModel) -> Seq<char>
    decreases t,
{
    match t {
        TypeModel::Array(e) => render(*e) + seq!['[', ']'],
        TypeModel::FixedArray(e, n) => render(*e) + seq!['['] + decimal(n as nat) + seq![']'],
        _ => keyword(t),
    }
}

} // verus!

verus! {

/// The keyword of the `i`-th candidate simple type.
fn candidate_keyword(i: usize) -> (r: Vec<char>)
    requires
        i < N_CANDIDATES,
    ensures
        r@ == keyword(candidate(i as int)),
{
    let r = if i == 0 {
        vec!['t', 'u', 'p', 'l', 'e']
    } else if i == 1 {
        vec!['f', 'i', 'e', 'l', 'd', 's']
    } else if i == 2 {
        vec!['u', '3', '2']
    } else if i == 3 {
        vec!['u', '2', '5', '6']
    } else if i == 4 {
        vec!['f', 'i', 'e', 'l', 'd']
    } else if i == 5 {
        vec!['a', 'd', 'd', 'r', 'e', 's', 's']
    } else if i == 6 {
        vec!['h', 'a', 's', 'h']
    } else if i == 7 {
        vec!['b', 'o', 'o', 'l']
    } else {
        vec!['s', 't', 'r', 'i', 'n', 'g']
    };
    assert(r@ =~= keyword(candidate(i as int)));
    r
}

/// The scalar type of the `i`-th candidate (not the tuple).
fn candidate_type(i: usize) -> (r: Type)
    requires
        1 <= i < N_CANDIDATES,
    ensures
        r.model() == candidate(i as int),
{
    if i == 1 {
        Type::Fields
    } else if i == 2 {
        Type::U32
    } else if i == 3 {
        Type::U256
    } else if i == 4 {
        Type::Field
    } else if i == 5 {
        Type::Address
    } else if i == 6 {
        Type::Hash
    } else if i == 7 {
        Type::Bool
    } else {
        Type::String
    }
}

/// The keyword of a scalar type or of a tuple.
fn keyword_of(t: &Type) -> (r: Vec<char>)
    requires
        !(t is Array),
        !(t is FixedArray),
    ensures
        r@ == keyword(t.model()),
{
    let i: usize = match t {
        Type::Tuple(_) => 0,
        Type::Fields => 1,
        Type::U32 => 2,
        Type::U256 => 3,
        Type::Field => 4,
        Type::Address => 5,
        Type::Hash => 6,
        Type::Bool => 7,
        _ => 8,
    };
    candidate_keyword(i)
}

/// Appends the decimal rendering of `n` to `s`.
fn push_decimal(s: &mut String, n: u64)
    ensures
        final(s)@ == old(s)@ + decimal(n as nat),
    decreases n,
{
    if n >= 10 {
        push_decimal(s, n / 10);
    }
    let d: u8 = (n % 10) as u8;
    let c: char = (d + 48u8) as char;
    assert(c == digit_char((n % 10) as nat));
    push_char(s, c);
    proof {
        if n >= 10 {
            assert(decimal(n as nat) == decimal((n / 10) as nat).push(digit_char((n % 10) as nat)));
        }
    }
    assert(final(s)@ =~= old(s)@ + decimal(n as nat));
}

/// The canonical signature string of a type: a tuple renders as `tuple`,
/// its fields being carried apart.
pub fn param_type_string(ty: &Type) -> (r: String)
    ensures
        r@ == render(ty.model()),
    decreases ty,
{
    match ty {
        Type::Array(e) => {
            let mut s = param_type_string(e);
            push_char(&mut s, '[');
            push_char(&mut s, ']');
            assert(s@ =~= render(ty.model()));
            s
        },
        Type::FixedArray(e, n) => {
            let mut s = param_type_string(e);
            push_char(&mut s, '[');
            push_decimal(&mut s, *n);
            push_char(&mut s, ']');
            assert(s@ =~= render(ty.model()));
            s
        },
        _ => {
            let mut s = String::new();
            push_chars(&mut s, &keyword_of(ty));
            assert(s@ =~= render(ty.model()));
            s
        },
    }
}

} // verus!

verus! {

proof fn lemma_digit_run(s: Seq<char>, k: int)
    requires
        0 <= k <= s.len(),
        forall|i: int| 0 <= i < k ==> is_digit(#[trigger] s[i]),
        k == s.len() || !is_digit(s[k]),
    ensures
        digit_run(s) == k,
    decreases k,
{
    if k > 0 {
        lemma_digit_run(s.skip(1), k - 1);
    }
}

proof fn lemma_first_keyword(s: Seq<char>, i: int)
    requires
        first_keyword(s, i) is Some,
    ensures
        0 <= first_keyword(s, i)->0 < 9,
        is_prefix(keyword(candidate(first_keyword(s, i)->0)), s),
    decreases 9 - i,
{
    if i >= 0 && i < 9 && !is_prefix(keyword(candidate(i)), s) {
        lemma_first_keyword(s, i + 1);
    }
}

proof fn lemma_fields_none(cs: Seq<ParamEntry>, j: int)
    requires
        0 <= j <= cs.len(),
        parse_fields_spec(cs.take(j)) is None,
    ensures
        parse_fields_spec(cs) is None,
    decreases cs.len(),
{
    if j == cs.len() {
        assert(cs.take(j) =~= cs);
    } else {
        assert(cs.drop_last().take(j) =~= cs.take(j));
        lemma_fields_none(cs.drop_last(), j);
    }
}

pub open spec fn prefix_then(
    acc: Seq<Option<u64>>,
    o: Option<Seq<Option<u64>>>,
) -> Option<Seq<Option<u64>>> {
    match o {
        Some(rest) => Some(acc + rest),
        None => None,
    }
}

/// Whether `p` begins `s`.
fn starts_with(s: &Vec<char>, p: &Vec<char>) -> (r: bool)
    ensures
        r == is_prefix(p@, s@),
{
    if p.len() > s.len() {
        return false;
    }
    let mut i: usize = 0;
    while i < p.len()
        invariant
            p@.len() <= s@.len(),
            i <= p@.len(),
            forall|k: int| 0 <= k < i ==> s@[k] == p@[k],
        decreases p@.len() - i,
    {
        if s[i] != p[i] {
            assert(s@.take(p@.len() as int)[i as int] != p@[i as int]);
            return false;
        }
        i = i + 1;
    }
    assert(s@.take(p@.len() as int) =~= p@);
    true
}

/// The index of the first candidate whose keyword begins `s`.
fn match_keyword(s: &Vec<char>) -> (r: Option<usize>)
    ensures
        match r {
            Some(k) => first_keyword(s@, 0) == Some(k as int) && k < N_CANDIDATES,
            None => first_keyword(s@, 0) is None,
        },
{
    let mut i: usize = 0;
    while i < N_CANDIDATES
        invariant
            i <= N_CANDIDATES,
            first_keyword(s@, 0) == first_keyword(s@, i as int),
        decreases N_CANDIDATES - i,
    {
        let kw = candidate_keyword(i);
        if starts_with(s, &kw) {
            return Some(i);
        }
        i = i + 1;
    }
    None
}

/// The bracket groups of `s` from `start` to the end.
fn parse_brackets(s: &Vec<char>, start: usize) -> (r: Option<Vec<Option<u64>>>)
    requires
        start <= s@.len(),
    ensures
        match r {
            Some(dims) => brackets(s@.skip(start as int)) == Some(dims@),
            None => brackets(s@.skip(start as int)) is None,
        },
{
    let n = s.len();
    let mut dims: Vec<Option<u64>> = Vec::new();
    let mut pos: usize = start;
    proof {
        match brackets(s@.skip(start as int)) {
            Some(v) => assert(dims@ + v =~= v),
            None => {},
        }
    }
    while pos < n
        invariant
            n == s@.len(),
            start <= pos <= n,
            brackets(s@.skip(start as int)) == prefix_then(dims@, brackets(s@.skip(pos as int))),
        decreases n - pos,
    {
        let ghost r = s@.skip(pos as int);
        if s[pos] != '[' {
            return None;
        }
        let mut j: usize = pos + 1;
        let mut value: u64 = 0;
        let mut overflow = false;
        while j < n && '0' <= s[j] && s[j] <= '9'
            invariant
                n == s@.len(),
                pos < j <= n,
                forall|i: int| pos + 1 <= i < j ==> is_digit(#[trigger] s@[i]),
                !overflow ==> value == digits_value(s@.subrange(pos + 1, j as int)),
                overflow ==> digits_value(s@.subrange(pos + 1, j as int)) > u64::MAX,
            decreases n - j,
        {
            let d: u64 = (s[j] as u32 - '0' as u32) as u64;
            let ghost sub = s@.subrange(pos + 1, j + 1);
            assert(sub.drop_last() =~= s@.subrange(pos + 1, j as int));
            assert(digits_value(sub) == digits_value(s@.subrange(pos + 1, j as int)) * 10 + d);
            if !overflow {
                match value.checked_mul(10) {
                    Some(v) => match v.checked_add(d) {
                        Some(w) => {
                            value = w;
                        },
                        None => {
                            overflow = true;
                        },
                    },
                    None => {
                        overflow = true;
                    },
                }
            }
            j = j + 1;
        }
        proof {
            assert forall|i: int| 0 <= i < j - pos - 1 implies is_digit(#[trigger] r.skip(1)[i]) by {
                assert(r.skip(1)[i] == s@[pos + 1 + i]);
            };
            lemma_digit_run(r.skip(1), j - pos - 1);
            assert(r.subrange(1, (j - pos) as int) =~= s@.subrange(pos + 1, j as int));
        }
        if j >= n || s[j] != ']' {
            return None;
        }
        if j > pos + 1 && overflow {
            return None;
        }
        let dim = if j == pos + 1 {
            None
        } else {
            Some(value)
        };
        let ghost old_dims = dims@;
        dims.push(dim);
        proof {
            assert(r.skip((j - pos) + 1) =~= s@.skip(j + 1));
            match brackets(s@.skip(j + 1)) {
                Some(rest) => {
                    assert(brackets(r) == Some(seq![dim] + rest));
                    assert(old_dims + (seq![dim] + rest) =~= dims@ + rest);
                },
                None => {},
            }
        }
        pos = j + 1;
    }
    assert(s@.skip(pos as int) =~= Seq::<char>::empty());
    assert(dims@ + Seq::<Option<u64>>::empty() =~= dims@);
    Some(dims)
}

/// Wraps `base` in the array layers that `dims` give, the first innermost.
fn apply_dims(base: Type, dims: &Vec<Option<u64>>) -> (r: Type)
    ensures
        r.model() == wrap(base.model(), dims@),
{
    let ghost b = base.model();
    let mut t = base;
    let mut i: usize = 0;
    while i < dims.len()
        invariant
            i <= dims@.len(),
            t.model() == wrap(b, dims@.take(i as int)),
        decreases dims@.len() - i,
    {
        t = match dims[i] {
            None => Type::Array(Box::new(t)),
            Some(n) => Type::FixedArray(Box::new(t), n),
        };
        assert(dims@.take(i + 1 as int).drop_last() =~= dims@.take(i as int));
        i = i + 1;
    }
    assert(dims@.take(i as int) =~= dims@);
    t
}

/// Parses a type signature; `components` gives the fields of a `tuple`.
/// Fails with `Grammar` exactly when the signature is not in the grammar,
/// a `tuple` has no components, or a component's type fails to parse.
pub fn parse_exact_type(components: &Option<Vec<ParamEntry>>, input: &str) -> (r: Result<
    Type,
    AbiError,
>)
    ensures
        match r {
            Ok(t) => parse_spec(input@, *components) == Some(t.model()),
            Err(e) => parse_spec(input@, *components) is None && e == AbiError::Grammar,
        },
    decreases components,
{
    let s = chars_of(input);
    let k = match match_keyword(&s) {
        None => return Err(AbiError::Grammar),
        Some(k) => k,
    };
    proof {
        lemma_first_keyword(s@, 0);
    }
    let klen = candidate_keyword(k).len();
    let dims = match parse_brackets(&s, klen) {
        None => return Err(AbiError::Grammar),
        Some(d) => d,
    };
    let base = if k == 0 {
        match components {
            None => return Err(AbiError::Grammar),
            Some(cs) => {
                proof {
                    assert(decreases_to!(*components => components->Some_0));
                }
                match parse_fields(cs) {
                    Err(e) => return Err(e),
                    Ok(fs) => Type::Tuple(fs),
                }
            },
        }
    } else {
        candidate_type(k)
    };
    Ok(apply_dims(base, &dims))
}

/// Parses each component entry into a named field, in order.
fn parse_fields(cs: &Vec<ParamEntry>) -> (r: Result<Vec<(String, Type)>, AbiError>)
    ensures
        match r {
            Ok(fs) => parse_fields_spec(cs@) == Some(fields_model(fs@)),
            Err(e) => parse_fields_spec(cs@) is None && e == AbiError::Grammar,
        },
    decreases cs,
{
    let mut out: Vec<(String, Type)> = Vec::new();
    let mut i: usize = 0;
    while i < cs.len()
        invariant
            i <= cs@.len(),
            parse_fields_spec(cs@.take(i as int)) == Some(fields_model(out@)),
        decreases cs@.len() - i,
    {
        let ghost before = out@;
        assert(cs@.take(i + 1 as int).drop_last() =~= cs@.take(i as int));
        proof {
            assert(decreases_to!(*cs => cs@));
            vstd::seq::axiom_seq_index_decreases(cs@, i as int);
            assert(decreases_to!(cs@[i as int] => cs@[i as int].components));
        }
        let t = match parse_exact_type(&cs[i].components, cs[i].type_.as_str()) {
            Err(e) => {
                proof {
                    lemma_fields_none(cs@, i + 1);
                }
                return Err(e);
            },
            Ok(t) => t,
        };
        out.push((cs[i].name.clone(), t));
        assert(out@.drop_last() =~= before);
        i = i + 1;
    }
    assert(cs@.take(i as int) =~= cs@);
    Ok(out)
}

} // verus!

verus! {

/// The simple type at the bottom of the array layers of `t`.
pub open spec fn base_of(t: TypeModel) -> TypeModel
    decreases t,
{
    match t {
        TypeModel::Array(e) => base_of(*e),
        TypeModel::FixedArray(e, _) => base_of(*e),
        _ => t,
    }
}

/// The array layers of `t`, innermost first.
pub open spec fn dims_of(t: TypeModel) -> Seq<Option<u64>>
    decreases t,
{
    match t {
        TypeModel::Array(e) => dims_of(*e).push(None),
        TypeModel::FixedArray(e, n) => dims_of(*e).push(Some(n)),
        _ => Seq::empty(),
    }
}

pub open spec fn dim_text(dim: Option<u64>) -> Seq<char> {
    match dim {
        None => seq!['[', ']'],
        Some(n) => seq!['['] + decimal(n as nat) + seq![']'],
    }
}

pub open spec fn dims_text(ds: Seq<Option<u64>>) -> Seq<char>
    decreases ds.len(),
{
    if ds.len() == 0 {
        Seq::empty()
    } else {
        dims_text(ds.drop_last()) + dim_text(ds.last())
    }
}

/// The position of a simple type among the candidates.
pub open spec fn candidate_index(b: TypeModel) -> int {
    match b {
        TypeModel::Tuple(_) => 0,
        TypeModel::Fields => 1,
        TypeModel::U32 => 2,
        TypeModel::U256 => 3,
        TypeModel::Field => 4,
        TypeModel::Address => 5,
        TypeModel::Hash => 6,
        TypeModel::Bool => 7,
        _ => 8,
    }
}

proof fn lemma_wrap_parts(t: TypeModel)
    ensures
        wrap(base_of(t), dims_of(t)) == t,
        render(t) == keyword(base_of(t)) + dims_text(dims_of(t)),
        !(base_of(t) is Array) && !(base_of(t) is FixedArray),
    decreases t,
{
    match t {
        TypeModel::Array(e) => {
            lemma_wrap_parts(*e);
            assert(dims_of(t).drop_last() =~= dims_of(*e));
            assert(render(t) =~= keyword(base_of(t)) + dims_text(dims_of(t)));
        },
        TypeModel::FixedArray(e, n) => {
            lemma_wrap_parts(*e);
            assert(dims_of(t).drop_last() =~= dims_of(*e));
            assert(render(t) =~= keyword(base_of(t)) + dims_text(dims_of(t)));
        },
        _ => {
            assert(dims_text(Seq::<Option<u64>>::empty()) =~= Seq::<char>::empty());
            assert(render(t) =~= keyword(t) + Seq::<char>::empty());
        },
    }
}

proof fn lemma_decimal(n: nat)
    ensures
        decimal(n).len() >= 1,
        forall|i: int| 0 <= i < decimal(n).len() ==> is_digit(#[trigger] decimal(n)[i]),
        digits_value(decimal(n)) == n,
    decreases n,
{
    if n < 10 {
        assert(digit_of(digit_char(n)) == n);
        assert(decimal(n).drop_last() =~= Seq::<char>::empty());
        assert(digits_value(decimal(n)) == digits_value(Seq::<char>::empty()) * 10 + digit_of(
            digit_char(n),
        ));
    } else {
        lemma_decimal(n / 10);
        let d = decimal(n);
        assert(d.drop_last() =~= decimal(n / 10));
        assert(d.last() == digit_char(n % 10));
        assert(digit_of(digit_char(n % 10)) == n % 10);
        assert(digits_value(d) == digits_value(decimal(n / 10)) * 10 + digit_of(d.last()));
        assert(n == (n / 10) * 10 + n % 10);
    }
}

proof fn lemma_brackets_step(dim: Option<u64>, rest: Seq<char>)
    ensures
        brackets(dim_text(dim) + rest) == match brackets(rest) {
            Some(ds) => Some(seq![dim] + ds),
            None => None,
        },
{
    let r = dim_text(dim) + rest;
    match dim {
        None => {
            assert(r[0] == '[');
            assert(r.skip(1)[0] == ']');
            assert(digit_run(r.skip(1)) == 0);
            assert(r.skip(2) =~= rest);
        },
        Some(n) => {
            lemma_decimal(n as nat);
            let dec = decimal(n as nat);
            let k = dec.len() as int;
            assert(r[0] == '[');
            assert forall|i: int| 0 <= i < k implies is_digit(#[trigger] r.skip(1)[i]) by {
                assert(r.skip(1)[i] == dec[i]);
            };
            assert(r.skip(1)[k] == ']');
            lemma_digit_run(r.skip(1), k);
            assert(r.subrange(1, 1 + k) =~= dec);
            assert(r.skip(k + 2) =~= rest);
        },
    }
}

proof fn lemma_dims_text_front(ds: Seq<Option<u64>>)
    requires
        ds.len() > 0,
    ensures
        dims_text(ds) == dim_text(ds[0]) + dims_text(ds.skip(1)),
    decreases ds.len(),
{
    if ds.len() == 1 {
        assert(ds.drop_last() =~= Seq::<Option<u64>>::empty());
        assert(ds.skip(1) =~= Seq::<Option<u64>>::empty());
        assert(dims_text(ds) =~= dim_text(ds[0]) + dims_text(ds.skip(1)));
    } else {
        lemma_dims_text_front(ds.drop_last());
        assert(ds.drop_last().skip(1) =~= ds.skip(1).drop_last());
        assert(dims_text(ds) =~= dim_text(ds[0]) + dims_text(ds.skip(1)));
    }
}

proof fn lemma_brackets_dims(ds: Seq<Option<u64>>)
    ensures
        brackets(dims_text(ds)) == Some(ds),
    decreases ds.len(),
{
    if ds.len() == 0 {
        assert(dims_text(ds) =~= Seq::<char>::empty());
        assert(ds =~= Seq::<Option<u64>>::empty());
    } else {
        lemma_dims_text_front(ds);
        lemma_brackets_dims(ds.skip(1));
        lemma_brackets_step(ds[0], dims_text(ds.skip(1)));
        assert(seq![ds[0]] + ds.skip(1) =~= ds);
    }
}

proof fn lemma_not_prefix(p: Seq<char>, s: Seq<char>, i: int)
    requires
        0 <= i < p.len(),
        i < s.len() ==> p[i] != s[i],
    ensures
        !is_prefix(p, s),
{
    if is_prefix(p, s) {
        assert(s.take(p.len() as int)[i] == p[i]);
    }
}

proof fn lemma_first_keyword_from(s: Seq<char>, k: int, j: int)
    requires
        0 <= j <= k < 9,
        is_prefix(keyword(candidate(k)), s),
        forall|c: int| j <= c < k ==> !is_prefix(#[trigger] keyword(candidate(c)), s),
    ensures
        first_keyword(s, j) == Some(k),
    decreases k - j,
{
    if j < k {
        lemma_first_keyword_from(s, k, j + 1);
    }
}

/// The keyword of a simple type is found first when the rest of the text
/// is empty or opens a bracket.
proof fn lemma_keyword_found(b: TypeModel, rest: Seq<char>)
    requires
        !(b is Array) && !(b is FixedArray),
        rest.len() == 0 || rest[0] == '[',
    ensures
        first_keyword(keyword(b) + rest, 0) == Some(candidate_index(b)),
        keyword(candidate(candidate_index(b))) == keyword(b),
{
    let s = keyword(b) + rest;
    let k = candidate_index(b);
    let kw = keyword(b);
    assert(s.take(kw.len() as int) =~= kw);
    assert forall|c: int| 0 <= c < k implies !is_prefix(#[trigger] keyword(candidate(c)), s) by {
        let p = keyword(candidate(c));
        if c == 1 && k == 4 {
            lemma_not_prefix(p, s, 5);
        } else if c == 2 && k == 3 {
            lemma_not_prefix(p, s, 1);
        } else {
            lemma_not_prefix(p, s, 0);
        }
    };
    lemma_first_keyword_from(s, k, 0);
}

/// Parsing the canonical string of a type gives the type back. Where the
/// type's base is a tuple, the components must give its fields; any
/// components do otherwise.
pub proof fn lemma_render_parse(t: TypeModel, comps: Option<Vec<ParamEntry>>)
    requires
        base_of(t) matches TypeModel::Tuple(fs) ==> (comps matches Some(cs) && parse_fields_spec(
            cs@,
        ) == Some(fs)),
    ensures
        parse_spec(render(t), comps) == Some(t),
{
    lemma_wrap_parts(t);
    let b = base_of(t);
    let ds = dims_of(t);
    let s = render(t);
    lemma_brackets_dims(ds);
    let dt = dims_text(ds);
    if ds.len() > 0 {
        lemma_dims_text_front(ds);
    }
    lemma_keyword_found(b, dt);
    assert(s.skip(keyword(b).len() as int) =~= dt);
}

} // verus!
