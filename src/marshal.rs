//! Marshalling of declared data shapes between host values and the foreign
//! engine's values: a structure becomes an object keyed by field name, a
//! closed enumeration the name of its case, and a tagged variant a pair of
//! case name and optional payload. Each field or payload value is a handle to
//! a value that its own type has already marshalled.

use vstd::prelude::*;

verus! {

/// How an enum-shaped declaration is marshalled.
#[derive(Debug, Clone, Copy, PartialEq, Eq, Structural)]
pub enum EnumType {
    /// A closed enumeration: the case name alone.
    Enum,
    /// A tagged variant: the case name and its payload.
    Variant,
}

/// The kind that one attribute's tokens select, if any.
pub open spec fn attribute_kind(tokens: Seq<char>) -> Option<EnumType> {
    if tokens == "(enum)"@ {
        Some(EnumType::Enum)
    } else if tokens == "(variant)"@ {
        Some(EnumType::Variant)
    } else {
        None
    }
}

/// The kind that the first selecting attribute gives.
pub open spec fn first_kind(attributes: Seq<Seq<char>>) -> Option<EnumType>
    decreases attributes.len(),
{
    if attributes.len() == 0 {
        None
    } else {
        match attribute_kind(attributes[0]) {
            Some(k) => Some(k),
            None => first_kind(attributes.drop_first()),
        }
    }
}

/// A list of strings as character sequences.
pub open spec fn names_of(v: Seq<String>) -> Seq<Seq<char>> {
    v.map_values(|s: String| s@)
}

proof fn lemma_first_kind_skip(attributes: Seq<Seq<char>>, i: int)
    requires
        0 <= i <= attributes.len(),
        forall|j: int| 0 <= j < i ==> attribute_kind(#[trigger] attributes[j]) is None,
    ensures
        first_kind(attributes) == first_kind(attributes.skip(i)),
    decreases i,
{
    if i > 0 {
        let rest = attributes.drop_first();
        assert forall|j: int| 0 <= j < i - 1 implies attribute_kind(#[trigger] rest[j]) is None by {
            assert(rest[j] == attributes[j + 1]);
        }
        lemma_first_kind_skip(rest, i - 1);
        assert(rest.skip(i - 1) =~= attributes.skip(i));
        assert(attribute_kind(attributes[0]) is None);
    } else {
        assert(attributes.skip(0) =~= attributes);
    }
}

impl EnumType {
    /// The kind selected by the first attribute whose tokens are `(enum)` or
    /// `(variant)`; none if no attribute is.
    pub fn from_attributes(attributes: &Vec<String>) -> (r: Option<EnumType>)
        ensures
            r == first_kind(names_of(attributes@)),
    {
        let ghost names = names_of(attributes@);
        let enum_tokens = String::from_str("(enum)");
        let variant_tokens = String::from_str("(variant)");
        let mut i: usize = 0;
        while i < attributes.len()
            invariant
                names == names_of(attributes@),
                i <= attributes@.len(),
                enum_tokens@ == "(enum)"@,
                variant_tokens@ == "(variant)"@,
                forall|j: int| 0 <= j < i ==> attribute_kind(#[trigger] names[j]) is None,
            decreases attributes@.len() - i,
        {
            let ghost here = attributes@[i as int]@;
            assert(names[i as int] == here);
            if attributes[i] == enum_tokens {
                proof {
                    lemma_first_kind_skip(names, i as int);
                    assert(names.skip(i as int)[0] == here);
                }
                return Some(EnumType::Enum);
            } else if attributes[i] == variant_tokens {
                proof {
                    lemma_first_kind_skip(names, i as int);
                    assert(names.skip(i as int)[0] == here);
                }
                return Some(EnumType::Variant);
            }
            i = i + 1;
        }
        proof {
            lemma_first_kind_skip(names, i as int);
        }
        None
    }
}

/// One case of an enum-shaped declaration.
#[derive(Debug, Clone, PartialEq, Eq)]
pub struct CaseDecl {
    pub name: String,
    pub has_payload: bool,
}

impl View for CaseDecl {
    type V = (Seq<char>, bool);

    open spec fn view(&self) -> (Seq<char>, bool) {
        (self.name@, self.has_payload)
    }
}

/// The cases of an enum-shaped declaration as names and payload flags.
pub open spec fn cases_of(v: Seq<CaseDecl>) -> Seq<(Seq<char>, bool)> {
    v.map_values(|c: CaseDecl| c@)
}

/// The names of a list of cases.
pub open spec fn case_names(cases: Seq<(Seq<char>, bool)>) -> Seq<Seq<char>> {
    cases.map_values(|c: (Seq<char>, bool)| c.0)
}

/// The body of a declaration.
#[derive(Debug, Clone, PartialEq, Eq)]
pub enum DeclShape {
    /// A structure with these field names, in declared order.
    Struct(Vec<String>),
    /// An enum-shaped declaration with these cases, in declared order.
    Enum(Vec<CaseDecl>),
}

/// A declared data shape with the tokens of its attributes.
#[derive(Debug, Clone, PartialEq, Eq)]
pub struct Declaration {
    pub name: String,
    pub attributes: Vec<String>,
    pub shape: DeclShape,
}

/// Why no marshalling can be derived for a declaration.
#[derive(Debug, Clone, Copy, PartialEq, Eq, Structural)]
pub enum DeriveError {
    /// An enum-shaped declaration selects neither `(enum)` nor `(variant)`.
    AmbiguousEnumKind,
}

/// The marshalling derived for a declaration.
#[derive(Debug, Clone, PartialEq, Eq)]
pub enum Marshaller {
    /// A structure with these field names.
    Record(Vec<String>),
    /// A closed enumeration with these case names.
    Enumeration(Vec<String>),
    /// A tagged variant with these cases.
    Tagged(Vec<CaseDecl>),
}

/// What a marshaller is, mathematically.
pub enum Plan {
    Record(Seq<Seq<char>>),
    Enumeration(Seq<Seq<char>>),
    Tagged(Seq<(Seq<char>, bool)>),
}

impl View for Marshaller {
    type V = Plan;

    open spec fn view(&self) -> Plan {
        match self {
            Marshaller::Record(fs) => Plan::Record(names_of(fs@)),
            Marshaller::Enumeration(cs) => Plan::Enumeration(names_of(cs@)),
            Marshaller::Tagged(cs) => Plan::Tagged(cases_of(cs@)),
        }
    }
}

/// The marshalling that a declaration's shape and attributes select.
pub open spec fn derived(attributes: Seq<Seq<char>>, shape: DeclShape) -> Result<Plan, DeriveError> {
    match shape {
        DeclShape::Struct(fs) => Ok(Plan::Record(names_of(fs@))),
        DeclShape::Enum(cs) => match first_kind(attributes) {
            Some(EnumType::Enum) => Ok(Plan::Enumeration(case_names(cases_of(cs@)))),
            Some(EnumType::Variant) => Ok(Plan::Tagged(cases_of(cs@))),
            None => Err(DeriveError::AmbiguousEnumKind),
        },
    }
}

fn copy_names(v: &Vec<String>) -> (r: Vec<String>)
    ensures
        names_of(r@) == names_of(v@),
{
    let mut r: Vec<String> = Vec::new();
    let mut i: usize = 0;
    while i < v.len()
        invariant
            i <= v@.len(),
            r@.len() == i,
            names_of(r@) =~= names_of(v@.take(i as int)),
        decreases v@.len() - i,
    {
        let ghost old_r = r@;
        r.push(v[i].clone());
        assert forall|j: int| 0 <= j <= i implies #[trigger] names_of(r@)[j] == names_of(v@.take(i + 1))[j] by {
            if j < i {
                assert(names_of(old_r)[j] == names_of(v@.take(i as int))[j]);
                assert(r@[j] == old_r[j]);
            }
        }
        assert(names_of(r@) =~= names_of(v@.take(i + 1)));
        i = i + 1;
    }
    assert(v@.take(i as int) =~= v@);
    r
}

fn copy_cases(v: &Vec<CaseDecl>) -> (r: Vec<CaseDecl>)
    ensures
        cases_of(r@) == cases_of(v@),
{
    let mut r: Vec<CaseDecl> = Vec::new();
    let mut i: usize = 0;
    while i < v.len()
        invariant
            i <= v@.len(),
            r@.len() == i,
            cases_of(r@) =~= cases_of(v@.take(i as int)),
        decreases v@.len() - i,
    {
        let ghost old_r = r@;
        r.push(CaseDecl { name: v[i].name.clone(), has_payload: v[i].has_payload });
        assert forall|j: int| 0 <= j <= i implies #[trigger] cases_of(r@)[j] == cases_of(v@.take(i + 1))[j] by {
            if j < i {
                assert(cases_of(old_r)[j] == cases_of(v@.take(i as int))[j]);
                assert(r@[j] == old_r[j]);
            }
        }
        assert(cases_of(r@) =~= cases_of(v@.take(i + 1)));
        i = i + 1;
    }
    assert(v@.take(i as int) =~= v@);
    r
}

fn names_of_cases(v: &Vec<CaseDecl>) -> (r: Vec<String>)
    ensures
        names_of(r@) == case_names(cases_of(v@)),
{
    let mut r: Vec<String> = Vec::new();
    let mut i: usize = 0;
    while i < v.len()
        invariant
            i <= v@.len(),
            r@.len() == i,
            names_of(r@) =~= case_names(cases_of(v@.take(i as int))),
        decreases v@.len() - i,
    {
        let ghost old_r = r@;
        r.push(v[i].name.clone());
        assert forall|j: int| 0 <= j <= i implies #[trigger] names_of(r@)[j] == case_names(cases_of(v@.take(i + 1)))[j] by {
            if j < i {
                assert(names_of(old_r)[j] == case_names(cases_of(v@.take(i as int)))[j]);
                assert(r@[j] == old_r[j]);
            }
        }
        assert(names_of(r@) =~= case_names(cases_of(v@.take(i + 1))));
        i = i + 1;
    }
    assert(v@.take(i as int) =~= v@);
    r
}

/// Derives the marshalling of a declaration: a structure by its fields, an
/// enum-shaped declaration by the kind that its attributes select.
pub fn derive_marshaller(decl: &Declaration) -> (r: Result<Marshaller, DeriveError>)
    ensures
        r matches Ok(m) ==> derived(names_of(decl.attributes@), decl.shape) == Ok::<Plan, DeriveError>(m@),
        r matches Err(e) ==> derived(names_of(decl.attributes@), decl.shape) == Err::<Plan, DeriveError>(e),
{
    match &decl.shape {
        DeclShape::Struct(fs) => Ok(Marshaller::Record(copy_names(fs))),
        DeclShape::Enum(cs) => match EnumType::from_attributes(&decl.attributes) {
            Some(EnumType::Enum) => Ok(Marshaller::Enumeration(names_of_cases(cs))),
            Some(EnumType::Variant) => Ok(Marshaller::Tagged(copy_cases(cs))),
            None => Err(DeriveError::AmbiguousEnumKind),
        },
    }
}

/// A host value of a declared shape. Each field or payload is a handle to a
/// value that its own type marshals.
#[derive(Debug, Clone, PartialEq, Eq)]
pub enum HostValue {
    /// A structure's fields, in declared order.
    Record(Vec<u64>),
    /// The case at this index of the declaration, with its payload if any.
    Case(usize, Option<u64>),
}

/// A host value, mathematically.
pub enum HostModel {
    Record(Seq<u64>),
    Case(int, Option<u64>),
}

impl View for HostValue {
    type V = HostModel;

    open spec fn view(&self) -> HostModel {
        match self {
            HostValue::Record(vs) => HostModel::Record(vs@),
            HostValue::Case(i, p) => HostModel::Case(*i as int, *p),
        }
    }
}

/// A value as the foreign engine holds it.
#[derive(Debug, Clone, PartialEq, Eq)]
pub enum ForeignValue {
    /// An object with these properties.
    Object(Vec<(String, u64)>),
    /// A string: the name of an enumeration case.
    Text(String),
    /// A tagged variant: the name of its case and its payload.
    Tagged(String, Option<u64>),
}

/// A foreign value, mathematically.
pub enum ForeignModel {
    Object(Seq<(Seq<char>, u64)>),
    Text(Seq<char>),
    Tagged(Seq<char>, Option<u64>),
}

/// An object's properties as names and values.
pub open spec fn props_of(v: Seq<(String, u64)>) -> Seq<(Seq<char>, u64)> {
    v.map_values(|p: (String, u64)| (p.0@, p.1))
}

/// The names of an object's properties.
pub open spec fn prop_names(props: Seq<(Seq<char>, u64)>) -> Seq<Seq<char>> {
    props.map_values(|p: (Seq<char>, u64)| p.0)
}

impl View for ForeignValue {
    type V = ForeignModel;

    open spec fn view(&self) -> ForeignModel {
        match self {
            ForeignValue::Object(ps) => ForeignModel::Object(props_of(ps@)),
            ForeignValue::Text(s) => ForeignModel::Text(s@),
            ForeignValue::Tagged(t, p) => ForeignModel::Tagged(t@, *p),
        }
    }
}

/// The marshalled value failed to have the declared shape.
#[derive(Debug, Clone, Copy, PartialEq, Eq, Structural)]
pub enum ShapeMismatch {
    /// A value of another kind than the declaration's.
    WrongKind,
    /// An object with another number of properties than the structure's fields.
    WrongFieldCount,
    /// A field of the structure is not among the object's properties.
    MissingField,
    /// The case name is none of the declaration's.
    UnknownCase,
    /// A payload where the case has none, or none where it has one.
    PayloadMismatch,
}

/// The index of the first occurrence of `s` in `names`.
pub open spec fn find(names: Seq<Seq<char>>, s: Seq<char>) -> Option<int>
    decreases names.len(),
{
    if names.len() == 0 {
        None
    } else if names[0] == s {
        Some(0)
    } else {
        match find(names.drop_first(), s) {
            Some(i) => Some(i + 1),
            None => None,
        }
    }
}

/// No name occurs twice.
pub open spec fn distinct(names: Seq<Seq<char>>) -> bool {
    forall|i: int, j: int|
        0 <= i < names.len() && 0 <= j < names.len() && i != j ==> #[trigger] names[i] != #[trigger] names[j]
}

/// The names of a plan are distinct, as a valid declaration's are.
pub open spec fn plan_distinct(p: Plan) -> bool {
    match p {
        Plan::Record(fs) => distinct(fs),
        Plan::Enumeration(cs) => distinct(cs),
        Plan::Tagged(cs) => distinct(case_names(cs)),
    }
}

/// The host value is one of the plan's declaration.
pub open spec fn accepts(p: Plan, v: HostModel) -> bool {
    match (p, v) {
        (Plan::Record(fs), HostModel::Record(vs)) => vs.len() == fs.len(),
        (Plan::Enumeration(cs), HostModel::Case(i, payload)) => 0 <= i < cs.len() && payload is None,
        (Plan::Tagged(cs), HostModel::Case(i, payload)) => 0 <= i < cs.len() && (payload is Some <==> cs[i].1),
        _ => false,
    }
}

/// The foreign value that a host value is marshalled to.
pub open spec fn lowered(p: Plan, v: HostModel) -> ForeignModel {
    match (p, v) {
        (Plan::Record(fs), HostModel::Record(vs)) => ForeignModel::Object(Seq::new(fs.len(), |i: int| (fs[i], vs[i]))),
        (Plan::Enumeration(cs), HostModel::Case(i, _)) => ForeignModel::Text(cs[i]),
        (Plan::Tagged(cs), HostModel::Case(i, payload)) => ForeignModel::Tagged(cs[i].0, payload),
        _ => ForeignModel::Text(Seq::empty()),
    }
}

/// Every field of the structure is among the properties.
pub open spec fn fields_present(fs: Seq<Seq<char>>, props: Seq<(Seq<char>, u64)>) -> bool {
    forall|i: int| 0 <= i < fs.len() ==> #[trigger] find(prop_names(props), fs[i]) is Some
}

/// The host value that a foreign value is read back as, if it has the
/// plan's shape.
pub open spec fn lifted(p: Plan, f: ForeignModel) -> Result<HostModel, ShapeMismatch> {
    match (p, f) {
        (Plan::Record(fs), ForeignModel::Object(props)) => if props.len() != fs.len() {
            Err(ShapeMismatch::WrongFieldCount)
        } else if !fields_present(fs, props) {
            Err(ShapeMismatch::MissingField)
        } else {
            Ok(HostModel::Record(Seq::new(fs.len(), |i: int| props[find(prop_names(props), fs[i])->Some_0].1)))
        },
        (Plan::Enumeration(cs), ForeignModel::Text(s)) => match find(cs, s) {
            Some(i) => Ok(HostModel::Case(i, None)),
            None => Err(ShapeMismatch::UnknownCase),
        },
        (Plan::Tagged(cs), ForeignModel::Tagged(t, payload)) => match find(case_names(cs), t) {
            Some(i) => if (payload is Some) == cs[i].1 {
                Ok(HostModel::Case(i, payload))
            } else {
                Err(ShapeMismatch::PayloadMismatch)
            },
            None => Err(ShapeMismatch::UnknownCase),
        },
        _ => Err(ShapeMismatch::WrongKind),
    }
}

/// `find` gives `i` when no earlier name is `s` and the name at `i` is;
/// none when no name is.
proof fn lemma_find_at(names: Seq<Seq<char>>, s: Seq<char>, i: int)
    requires
        0 <= i <= names.len(),
        forall|j: int| 0 <= j < i ==> #[trigger] names[j] != s,
        i < names.len() ==> names[i] == s,
    ensures
        find(names, s) == if i < names.len() { Some(i) } else { None::<int> },
    decreases i,
{
    if i > 0 {
        let rest = names.drop_first();
        assert forall|j: int| 0 <= j < i - 1 implies #[trigger] rest[j] != s by {
            assert(rest[j] == names[j + 1]);
        }
        assert(names[0] != s);
        lemma_find_at(rest, s, i - 1);
    }
}

/// `find` gives an index that holds the name.
proof fn lemma_find_valid(names: Seq<Seq<char>>, s: Seq<char>)
    ensures
        find(names, s) matches Some(i) ==> 0 <= i < names.len() && names[i] == s,
    decreases names.len(),
{
    if names.len() > 0 && names[0] != s {
        lemma_find_valid(names.drop_first(), s);
    }
}

/// With distinct names, the name at `i` is found at `i`.
proof fn lemma_find_distinct(names: Seq<Seq<char>>, i: int)
    requires
        distinct(names),
        0 <= i < names.len(),
    ensures
        find(names, names[i]) == Some(i),
{
    assert forall|j: int| 0 <= j < i implies #[trigger] names[j] != names[i] by {}
    lemma_find_at(names, names[i], i);
}

/// Marshalling a value of a declared shape to the foreign engine and reading
/// it back gives the same value, for structures (the empty one included),
/// closed enumerations and tagged variants alike.
pub proof fn lemma_round_trip(p: Plan, v: HostModel)
    requires
        plan_distinct(p),
        accepts(p, v),
    ensures
        lifted(p, lowered(p, v)) == Ok::<HostModel, ShapeMismatch>(v),
{
    match (p, v) {
        (Plan::Record(fs), HostModel::Record(vs)) => {
            let props = Seq::new(fs.len(), |i: int| (fs[i], vs[i]));
            assert(prop_names(props) =~= fs);
            assert forall|i: int| 0 <= i < fs.len() implies #[trigger] find(prop_names(props), fs[i]) == Some(i) by {
                lemma_find_distinct(fs, i);
            }
            let back = Seq::new(fs.len(), |i: int| props[find(prop_names(props), fs[i])->Some_0].1);
            assert(back =~= vs);
        },
        (Plan::Enumeration(cs), HostModel::Case(i, _)) => {
            lemma_find_distinct(cs, i);
        },
        (Plan::Tagged(cs), HostModel::Case(i, _)) => {
            lemma_find_distinct(case_names(cs), i);
        },
        _ => {},
    }
}

fn index_of(v: &Vec<String>, s: &String) -> (r: Option<usize>)
    ensures
        match r {
            Some(i) => find(names_of(v@), s@) == Some(i as int),
            None => find(names_of(v@), s@) is None,
        },
{
    let ghost names = names_of(v@);
    let mut i: usize = 0;
    while i < v.len()
        invariant
            names == names_of(v@),
            names.len() == v@.len(),
            i <= v@.len(),
            forall|j: int| 0 <= j < i ==> #[trigger] names[j] != s@,
        decreases v@.len() - i,
    {
        assert(names[i as int] == v@[i as int]@);
        if v[i] == *s {
            proof {
                lemma_find_at(names, s@, i as int);
            }
            return Some(i);
        }
        i = i + 1;
    }
    proof {
        lemma_find_at(names, s@, i as int);
    }
    None
}

fn case_index(v: &Vec<CaseDecl>, s: &String) -> (r: Option<usize>)
    ensures
        match r {
            Some(i) => find(case_names(cases_of(v@)), s@) == Some(i as int),
            None => find(case_names(cases_of(v@)), s@) is None,
        },
{
    let ghost names = case_names(cases_of(v@));
    let mut i: usize = 0;
    while i < v.len()
        invariant
            names == case_names(cases_of(v@)),
            names.len() == v@.len(),
            i <= v@.len(),
            forall|j: int| 0 <= j < i ==> #[trigger] names[j] != s@,
        decreases v@.len() - i,
    {
        assert(names[i as int] == v@[i as int].name@);
        if v[i].name == *s {
            proof {
                lemma_find_at(names, s@, i as int);
            }
            return Some(i);
        }
        i = i + 1;
    }
    proof {
        lemma_find_at(names, s@, i as int);
    }
    None
}

fn property_index(v: &Vec<(String, u64)>, s: &String) -> (r: Option<usize>)
    ensures
        match r {
            Some(i) => find(prop_names(props_of(v@)), s@) == Some(i as int),
            None => find(prop_names(props_of(v@)), s@) is None,
        },
{
    let ghost names = prop_names(props_of(v@));
    let mut i: usize = 0;
    while i < v.len()
        invariant
            names == prop_names(props_of(v@)),
            names.len() == v@.len(),
            i <= v@.len(),
            forall|j: int| 0 <= j < i ==> #[trigger] names[j] != s@,
        decreases v@.len() - i,
    {
        assert(names[i as int] == v@[i as int].0@);
        if v[i].0 == *s {
            proof {
                lemma_find_at(names, s@, i as int);
            }
            return Some(i);
        }
        i = i + 1;
    }
    proof {
        lemma_find_at(names, s@, i as int);
    }
    None
}

/// Marshals a host value of the declaration to the foreign engine.
pub fn to_js_value(m: &Marshaller, v: &HostValue) -> (r: ForeignValue)
    requires
        accepts(m@, v@),
    ensures
        r@ == lowered(m@, v@),
{
    match (m, v) {
        (Marshaller::Record(fs), HostValue::Record(vs)) => {
            let ghost names = names_of(fs@);
            let mut props: Vec<(String, u64)> = Vec::new();
            let mut i: usize = 0;
            while i < fs.len()
                invariant
                    names == names_of(fs@),
                    vs@.len() == fs@.len(),
                    i <= fs@.len(),
                    props@.len() == i,
                    props_of(props@) =~= Seq::new(i as nat, |j: int| (names[j], vs@[j])),
                decreases fs@.len() - i,
            {
                let ghost before = props@;
                props.push((fs[i].clone(), vs[i]));
                assert forall|j: int| 0 <= j <= i implies #[trigger] props_of(props@)[j] == (names[j], vs@[j]) by {
                    if j < i {
                        assert(props@[j] == before[j]);
                        assert(props_of(before)[j] == (names[j], vs@[j]));
                    }
                }
                assert(props_of(props@) =~= Seq::new((i + 1) as nat, |j: int| (names[j], vs@[j])));
                i = i + 1;
            }
            ForeignValue::Object(props)
        },
        (Marshaller::Enumeration(cs), HostValue::Case(i, _)) => {
            assert(names_of(cs@)[*i as int] == cs@[*i as int]@);
            ForeignValue::Text(cs[*i].clone())
        },
        (Marshaller::Tagged(cs), HostValue::Case(i, payload)) => {
            assert(cases_of(cs@)[*i as int] == cs@[*i as int]@);
            ForeignValue::Tagged(cs[*i].name.clone(), *payload)
        },
        _ => ForeignValue::Text(String::new()),
    }
}

/// Reads a foreign value back as a host value of the declaration, failing
/// when it does not have the declared shape.
pub fn from_js_value(m: &Marshaller, f: &ForeignValue) -> (r: Result<HostValue, ShapeMismatch>)
    ensures
        match r {
            Ok(h) => lifted(m@, f@) == Ok::<HostModel, ShapeMismatch>(h@),
            Err(e) => lifted(m@, f@) == Err::<HostModel, ShapeMismatch>(e),
        },
{
    match (m, f) {
        (Marshaller::Record(fs), ForeignValue::Object(props)) => {
            let ghost names = names_of(fs@);
            let ghost pv = props_of(props@);
            if props.len() != fs.len() {
                return Err(ShapeMismatch::WrongFieldCount);
            }
            let mut out: Vec<u64> = Vec::new();
            let mut i: usize = 0;
            while i < fs.len()
                invariant
                    names == names_of(fs@),
                    pv == props_of(props@),
                    m@ == Plan::Record(names),
                    f@ == ForeignModel::Object(pv),
                    props@.len() == fs@.len(),
                    i <= fs@.len(),
                    out@.len() == i,
                    forall|j: int| 0 <= j < i ==> #[trigger] find(prop_names(pv), names[j]) is Some,
                    out@ =~= Seq::new(i as nat, |j: int| pv[find(prop_names(pv), names[j])->Some_0].1),
                decreases fs@.len() - i,
            {
                assert(names[i as int] == fs@[i as int]@);
                match property_index(props, &fs[i]) {
                    Some(k) => {
                        proof {
                            lemma_find_valid(prop_names(pv), names[i as int]);
                        }
                        let ghost before = out@;
                        out.push(props[k].1);
                        assert forall|j: int| 0 <= j <= i implies #[trigger] out@[j] == pv[find(prop_names(pv), names[j])->Some_0].1 by {
                            if j < i {
                                assert(out@[j] == before[j]);
                            }
                        }
                        assert(out@ =~= Seq::new((i + 1) as nat, |j: int| pv[find(prop_names(pv), names[j])->Some_0].1));
                    },
                    None => {
                        assert(find(prop_names(pv), names[i as int]) is None);
                        assert(!fields_present(names, pv));
                        return Err(ShapeMismatch::MissingField);
                    },
                }
                i = i + 1;
            }
            assert(fields_present(names, pv));
            Ok(HostValue::Record(out))
        },
        (Marshaller::Enumeration(cs), ForeignValue::Text(s)) => match index_of(cs, s) {
            Some(i) => Ok(HostValue::Case(i, None)),
            None => Err(ShapeMismatch::UnknownCase),
        },
        (Marshaller::Tagged(cs), ForeignValue::Tagged(t, payload)) => match case_index(cs, t) {
            Some(i) => {
                proof {
                    lemma_find_valid(case_names(cases_of(cs@)), t@);
                }
                assert(cases_of(cs@)[i as int] == cs@[i as int]@);
                if payload.is_some() == cs[i].has_payload {
                    Ok(HostValue::Case(i, *payload))
                } else {
                    Err(ShapeMismatch::PayloadMismatch)
                }
            },
            None => Err(ShapeMismatch::UnknownCase),
        },
        _ => Err(ShapeMismatch::WrongKind),
    }
}

} // verus!
