//! Clarity values, as the runtime passes them to and from WebAssembly.
use vstd::prelude::*;
use vstd::slice::slice_to_vec;

verus! {

/// A standard principal: a version byte and a 20-byte hash.
#[derive(Debug, PartialEq, Eq)]
pub struct StandardPrincipal {
    pub version: u8,
    pub data: [u8; 20],
}

/// A contract identifier: the issuing principal and the contract's name.
#[derive(Debug, PartialEq, Eq)]
pub struct ContractIdentifier {
    pub issuer: StandardPrincipal,
    pub name: String,
}

/// A trait identifier: the contract that defines the trait and the trait's name.
#[derive(Debug, PartialEq, Eq)]
pub struct TraitIdentifier {
    pub contract_identifier: ContractIdentifier,
    pub name: String,
}

/// A Clarity value.
///
/// A UTF-8 string holds the UTF-8 encoding of its characters. A tuple holds
/// its entries in ascending order of name, each name once, as Clarity keeps
/// them (see [`tuples_ordered`]).
#[derive(Debug, PartialEq, Eq)]
pub enum Value {
    Int(i128),
    UInt(u128),
    Bool(bool),
    Optional(Option<Box<Value>>),
    /// A response: whether it is committed (`ok`) and its data.
    Response(bool, Box<Value>),
    AsciiString(Vec<u8>),
    Utf8String(Vec<u8>),
    Buffer(Vec<u8>),
    List(Vec<Value>),
    StandardPrincipal(StandardPrincipal),
    ContractPrincipal(ContractIdentifier),
    /// A callable contract: its identifier and, optionally, the trait it is used as.
    CallableContract(ContractIdentifier, Option<TraitIdentifier>),
    Tuple(Vec<(String, Value)>),
}

/// A principal as a mathematical value: version, hash bytes and, for a contract, its name.
pub ghost struct PrincipalModel {
    pub version: u8,
    pub data: Seq<u8>,
    pub name: Seq<char>,
}

/// A trait identifier as a mathematical value: the contract that defines the
/// trait (issuer and contract name) and the trait's name.
pub ghost struct TraitModel {
    pub contract: PrincipalModel,
    pub name: Seq<char>,
}

/// The mathematical model of a [`Value`].
pub ghost enum ValueModel {
    Int(i128),
    UInt(u128),
    Bool(bool),
    Optional(Option<Box<ValueModel>>),
    Response(bool, Box<ValueModel>),
    AsciiString(Seq<u8>),
    Utf8String(Seq<u8>),
    Buffer(Seq<u8>),
    List(Seq<ValueModel>),
    StandardPrincipal(PrincipalModel),
    ContractPrincipal(PrincipalModel),
    CallableContract(PrincipalModel, Option<TraitModel>),
    Tuple(Seq<(Seq<char>, ValueModel)>),
}

pub open spec fn standard_model(p: StandardPrincipal) -> PrincipalModel {
    PrincipalModel { version: p.version, data: p.data@, name: Seq::empty() }
}

pub open spec fn contract_model(c: ContractIdentifier) -> PrincipalModel {
    PrincipalModel { version: c.issuer.version, data: c.issuer.data@, name: c.name@ }
}

pub open spec fn trait_model(t: TraitIdentifier) -> TraitModel {
    TraitModel { contract: contract_model(t.contract_identifier), name: t.name@ }
}

/// The models of a sequence of values.
pub open spec fn model_list(items: Seq<Value>) -> Seq<ValueModel>
    decreases items,
{
    if items.len() == 0 {
        Seq::empty()
    } else {
        model_list(items.drop_last()).push(model_of(items.last()))
    }
}

pub proof fn lemma_model_list_len(items: Seq<Value>)
    ensures
        model_list(items).len() == items.len(),
    decreases items.len(),
{
    if items.len() > 0 {
        lemma_model_list_len(items.drop_last());
    }
}

/// The models of a list of values, one by one.
pub open spec fn models(values: Seq<Value>) -> Seq<ValueModel> {
    values.map_values(|v: Value| v@)
}

/// The model of a list's items is the list of their models.
pub proof fn lemma_model_list_models(items: Seq<Value>)
    ensures
        model_list(items) == models(items),
{
    lemma_model_list_len(items);
    assert forall|i: int| 0 <= i < items.len() implies #[trigger] model_list(items)[i] == models(items)[i] by {
        lemma_model_list_index(items, i);
    }
    assert(model_list(items) =~= models(items));
}

pub proof fn lemma_model_list_index(items: Seq<Value>, i: int)
    requires
        0 <= i < items.len(),
    ensures
        model_list(items)[i] == model_of(items[i]),
    decreases items.len(),
{
    lemma_model_list_len(items.drop_last());
    if i < items.len() - 1 {
        lemma_model_list_index(items.drop_last(), i);
    }
}

/// The models of a sequence of tuple entries.
pub open spec fn model_entries(entries: Seq<(String, Value)>) -> Seq<(Seq<char>, ValueModel)>
    decreases entries,
{
    if entries.len() == 0 {
        Seq::empty()
    } else {
        model_entries(entries.drop_last()).push(
            (entries.last().0@, model_of(entries.last().1)),
        )
    }
}

pub proof fn lemma_model_entries_len(entries: Seq<(String, Value)>)
    ensures
        model_entries(entries).len() == entries.len(),
    decreases entries.len(),
{
    if entries.len() > 0 {
        lemma_model_entries_len(entries.drop_last());
    }
}

pub proof fn lemma_model_entries_index(entries: Seq<(String, Value)>, i: int)
    requires
        0 <= i < entries.len(),
    ensures
        model_entries(entries)[i] == (entries[i].0@, model_of(entries[i].1)),
    decreases entries.len(),
{
    lemma_model_entries_len(entries.drop_last());
    if i < entries.len() - 1 {
        lemma_model_entries_index(entries.drop_last(), i);
    }
}

/// Whether name `a` comes before name `b`: at the first character where they
/// differ `a` has the lower code point, or `a` is a proper prefix of `b`. This
/// is the order of the names' UTF-8 bytes, in which Rust orders strings.
pub open spec fn name_before(a: Seq<char>, b: Seq<char>) -> bool
    decreases a.len(),
{
    if a.len() == 0 {
        b.len() > 0
    } else if b.len() == 0 {
        false
    } else if a[0] != b[0] {
        (a[0] as u32) < (b[0] as u32)
    } else {
        name_before(a.drop_first(), b.drop_first())
    }
}

/// Whether every tuple within a value holds its entries in ascending order of
/// name, each name once.
pub open spec fn tuples_ordered(m: ValueModel) -> bool
    decreases m, 1nat,
{
    match m {
        ValueModel::Optional(Some(x)) => tuples_ordered(*x),
        ValueModel::Response(_, x) => tuples_ordered(*x),
        ValueModel::List(items) => all_tuples_ordered(items),
        ValueModel::Tuple(entries) => {
            &&& forall|i: int, j: int|
                0 <= i < j < entries.len() ==> name_before(#[trigger] entries[i].0, #[trigger] entries[j].0)
            &&& entry_tuples_ordered(entries)
        },
        _ => true,
    }
}

/// Whether the tuples within every value of a sequence are ordered.
pub open spec fn all_tuples_ordered(items: Seq<ValueModel>) -> bool
    decreases items, 0nat,
{
    items.len() > 0 ==> tuples_ordered(items[0]) && all_tuples_ordered(items.drop_first())
}

/// Whether the tuples within every value of a sequence of entries are ordered.
pub open spec fn entry_tuples_ordered(entries: Seq<(Seq<char>, ValueModel)>) -> bool
    decreases entries, 0nat,
{
    entries.len() > 0 ==> {
        &&& tuples_ordered(entries[0].1)
        &&& entry_tuples_ordered(entries.drop_first())
    }
}

pub proof fn lemma_list_item_ordered(items: Seq<ValueModel>, i: int)
    requires
        all_tuples_ordered(items),
        0 <= i < items.len(),
    ensures
        tuples_ordered(items[i]),
    decreases items.len(),
{
    if i > 0 {
        lemma_list_item_ordered(items.drop_first(), i - 1);
    }
}

pub proof fn lemma_entry_ordered(entries: Seq<(Seq<char>, ValueModel)>, i: int)
    requires
        entry_tuples_ordered(entries),
        0 <= i < entries.len(),
    ensures
        tuples_ordered(entries[i].1),
    decreases entries.len(),
{
    if i > 0 {
        lemma_entry_ordered(entries.drop_first(), i - 1);
    }
}

/// The model of a value.
pub open spec fn model_of(v: Value) -> ValueModel
    decreases v,
{
    match v {
        Value::Int(n) => ValueModel::Int(n),
        Value::UInt(n) => ValueModel::UInt(n),
        Value::Bool(b) => ValueModel::Bool(b),
        Value::Optional(None) => ValueModel::Optional(None),
        Value::Optional(Some(x)) => ValueModel::Optional(Some(Box::new(model_of(*x)))),
        Value::Response(c, x) => ValueModel::Response(c, Box::new(model_of(*x))),
        Value::AsciiString(b) => ValueModel::AsciiString(b@),
        Value::Utf8String(b) => ValueModel::Utf8String(b@),
        Value::Buffer(b) => ValueModel::Buffer(b@),
        Value::List(items) => ValueModel::List(model_list(items@)),
        Value::StandardPrincipal(p) => ValueModel::StandardPrincipal(standard_model(p)),
        Value::ContractPrincipal(c) => ValueModel::ContractPrincipal(contract_model(c)),
        Value::CallableContract(c, t) => ValueModel::CallableContract(
            contract_model(c),
            match t {
                Some(t) => Some(trait_model(t)),
                None => None,
            },
        ),
        Value::Tuple(entries) => ValueModel::Tuple(model_entries(entries@)),
    }
}

impl View for Value {
    type V = ValueModel;

    open spec fn view(&self) -> ValueModel {
        model_of(*self)
    }
}

impl StandardPrincipal {
    /// A copy of this principal.
    pub fn copy(&self) -> (r: StandardPrincipal)
        ensures
            r.version == self.version,
            r.data@ == self.data@,
    {
        StandardPrincipal { version: self.version, data: self.data }
    }
}

impl ContractIdentifier {
    /// A copy of this identifier.
    pub fn copy(&self) -> (r: ContractIdentifier)
        ensures
            contract_model(r) == contract_model(*self),
    {
        ContractIdentifier { issuer: self.issuer.copy(), name: self.name.clone() }
    }
}

impl TraitIdentifier {
    /// A copy of this identifier.
    pub fn copy(&self) -> (r: TraitIdentifier)
        ensures
            trait_model(r) == trait_model(*self),
    {
        TraitIdentifier {
            contract_identifier: self.contract_identifier.copy(),
            name: self.name.clone(),
        }
    }
}

impl Value {
    /// A deep copy of this value, with the same model.
    pub fn deep_copy(&self) -> (r: Value)
        ensures
            r@ == self@,
        decreases self,
    {
        match self {
            Value::Int(n) => Value::Int(*n),
            Value::UInt(n) => Value::UInt(*n),
            Value::Bool(b) => Value::Bool(*b),
            Value::Optional(None) => Value::Optional(None),
            Value::Optional(Some(x)) => Value::Optional(Some(Box::new((**x).deep_copy()))),
            Value::Response(c, x) => Value::Response(*c, Box::new((**x).deep_copy())),
            Value::AsciiString(b) => Value::AsciiString(slice_to_vec(b.as_slice())),
            Value::Utf8String(b) => Value::Utf8String(slice_to_vec(b.as_slice())),
            Value::Buffer(b) => Value::Buffer(slice_to_vec(b.as_slice())),
            Value::List(items) => {
                let mut out: Vec<Value> = Vec::new();
                let mut i: usize = 0;
                while i < items.len()
                    invariant
                        0 <= i <= items.len(),
                        *self == Value::List(*items),
                        model_list(out@) == model_list(items@.subrange(0, i as int)),
                    decreases items.len() - i,
                {
                    proof {
                        vstd::std_specs::vec::axiom_vec_index_decreases(*items, i as int);
                        assert(decreases_to!(*self => (*self)->List_0));
                        assert(decreases_to!(*self => items[i as int]));
                    }
                    let c = items[i].deep_copy();
                    let ghost prev = out@;
                    out.push(c);
                    assert(out@.drop_last() =~= prev);
                    assert(items@.subrange(0, i + 1).drop_last() =~= items@.subrange(0, i as int));
                    i = i + 1;
                }
                assert(items@.subrange(0, items.len() as int) =~= items@);
                Value::List(out)
            },
            Value::StandardPrincipal(p) => Value::StandardPrincipal(p.copy()),
            Value::ContractPrincipal(c) => Value::ContractPrincipal(c.copy()),
            Value::CallableContract(c, t) => Value::CallableContract(
                c.copy(),
                match t {
                    Some(t) => Some(t.copy()),
                    None => None,
                },
            ),
            Value::Tuple(entries) => {
                let mut out: Vec<(String, Value)> = Vec::new();
                let mut i: usize = 0;
                while i < entries.len()
                    invariant
                        0 <= i <= entries.len(),
                        *self == Value::Tuple(*entries),
                        model_entries(out@) == model_entries(entries@.subrange(0, i as int)),
                    decreases entries.len() - i,
                {
                    proof {
                        vstd::std_specs::vec::axiom_vec_index_decreases(*entries, i as int);
                        assert(decreases_to!(*self => (*self)->Tuple_0));
                        assert(decreases_to!(entries[i as int] => entries[i as int].1));
                        assert(decreases_to!(*self => entries[i as int].1));
                    }
                    let c = entries[i].1.deep_copy();
                    let ghost prev = out@;
                    out.push((entries[i].0.clone(), c));
                    assert(out@.drop_last() =~= prev);
                    assert(entries@.subrange(0, i + 1).drop_last() =~= entries@.subrange(0, i as int));
                    i = i + 1;
                }
                assert(entries@.subrange(0, entries.len() as int) =~= entries@);
                Value::Tuple(out)
            },
        }
    }
}

impl Clone for Value {
    fn clone(&self) -> (r: Self)
        ensures
            r@ == self@,
    {
        self.deep_copy()
    }
}

} // verus!
