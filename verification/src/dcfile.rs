//! The schema model: the tree a successful parse produces.
//!
//! A [`DCFile`] is an ordered sequence of type declarations, together
//! with the expanded Python import records of its import declarations.
//! It is append-only while the parse builds it and read-only afterwards;
//! the parser's contract ties the stored import records to the
//! declarations through [`imports_match`].

use vstd::prelude::*;
use crate::dclexer::DCToken;
use crate::dclexer::Span;

verus! {

/// An inclusive numeric or array-size range.  An omitted range is stored
/// as `[0, 0]`, meaning unbounded.
#[derive(Clone, Copy, Debug, PartialEq, Eq, Structural)]
pub struct IntRange {
    pub min: i64,
    pub max: i64,
}

/// An inclusive floating-point range, kept as source text.
#[derive(Clone, Debug, PartialEq)]
pub struct FloatRange {
    pub min: String,
    pub max: String,
}

/// The base kind of a declared data type.
#[derive(Clone, Copy, Debug, PartialEq, Eq, Structural)]
pub enum BaseType {
    CharType,
    IntType,
    FloatType,
    StringType,
    BlobType,
    StructType,
}

/// A declared data type: its base kind plus, where the kind needs it,
/// the spelled-out type word (signedness and width) or struct name.
#[derive(Clone, Debug, PartialEq)]
pub struct DataType {
    pub base_type: BaseType,
    pub identifier: Option<String>,
}

/// An arithmetic transform applied between the wire value and the
/// exposed value of a numeric parameter.
#[derive(Clone, Debug, PartialEq)]
pub enum IntTransform {
    /// An operator token (`%`, `/`, `*`, `-` or `+`) with its literal.
    OperatorIntLiteral { operator: DCToken, int_literal: i64 },
}

/// An arithmetic transform on a floating-point parameter, kept as text.
#[derive(Clone, Debug, PartialEq)]
pub enum FloatTransform {
    /// An operator token with its literal's source text.
    OperatorFloatLiteral { operator: DCToken, float_literal: String },
}

/// A `char` parameter: optional name, optional literal default.
#[derive(Clone, Debug, PartialEq)]
pub struct CharParameter {
    pub identifier: Option<String>,
    pub char_literal: Option<char>,
}

/// An integer parameter: type word, optional range, transform, name and
/// literal default.
#[derive(Clone, Debug, PartialEq)]
pub struct IntParameter {
    pub identifier: Option<String>,
    pub int_type: Option<String>,
    pub int_range: Option<IntRange>,
    pub int_transform: Option<IntTransform>,
    pub int_constant: Option<i64>,
}

/// A floating-point parameter; numeric pieces are kept as source text.
#[derive(Clone, Debug, PartialEq)]
pub struct FloatParameter {
    pub identifier: Option<String>,
    pub float_type: Option<String>,
    pub float_range: Option<FloatRange>,
    pub float_transform: Option<FloatTransform>,
    pub float_constant: Option<String>,
}

/// A sized (string or blob) parameter: optional size constraint, name
/// and literal default.
#[derive(Clone, Debug, PartialEq)]
pub struct SizedParameter {
    pub sized_type: Option<String>,
    pub size_constraint: Option<i64>,
    pub identifier: Option<String>,
    pub string_literal: Option<String>,
}

/// A struct-typed parameter: the struct's name and an optional field
/// name.
#[derive(Clone, Debug, PartialEq)]
pub struct StructParameter {
    pub identifier1: String,
    pub identifier2: Option<String>,
}

/// An array parameter: element type, optional name, bracketed range.
#[derive(Clone, Debug, PartialEq)]
pub struct ArrayParameter {
    pub data_type: DataType,
    pub identifier: Option<String>,
    pub array_range: IntRange,
}

/// One typed value in a parameter list.
#[derive(Clone, Debug, PartialEq)]
pub enum Parameter {
    Char(CharParameter),
    Int(IntParameter),
    Float(FloatParameter),
    Sized(SizedParameter),
    Struct(StructParameter),
    Array(ArrayParameter),
}

/// A keyword declaration, or the keyword list attached to a field.
#[derive(Clone, Debug, PartialEq)]
pub struct KeywordType {
    pub span: Span,
    pub node: KeywordType_,
}

/// Either one newly declared keyword or a list of applied keywords.
#[derive(Clone, Debug, PartialEq)]
pub enum KeywordType_ {
    KeywordType(String),
    KeywordList(Vec<String>),
}

/// A remote-callable field: name, ordered parameters, applied keywords.
#[derive(Clone, Debug, PartialEq)]
pub struct AtomicField {
    pub identifier: String,
    pub parameters: Vec<Parameter>,
    pub keyword_list: Option<KeywordType>,
}

/// A single typed value declared as a field, with applied keywords.
#[derive(Clone, Debug, PartialEq)]
pub struct ParameterField {
    pub parameter: Parameter,
    pub keyword_list: Option<KeywordType>,
}

/// One aggregated member of a molecular field.
#[derive(Clone, Debug, PartialEq)]
pub enum FieldType {
    Atomic(AtomicField),
    Parameter(ParameterField),
}

/// A molecular field: existing fields aggregated under one name, with no
/// independent wire form.
#[derive(Clone, Debug, PartialEq)]
pub struct MolecularField {
    pub identifier: String,
    pub fields: Vec<FieldType>,
}

/// One field declaration of a distributed class.
#[derive(Clone, Debug, PartialEq)]
pub enum FieldDecl_ {
    MolecularField(MolecularField),
    AtomicField(AtomicField),
    ParameterField(ParameterField),
}

/// A field declaration with its source span.
#[derive(Clone, Debug, PartialEq)]
pub struct FieldDecl {
    pub span: Span,
    pub node: FieldDecl_,
}

/// A `struct` declaration: a name and its member parameters.
#[derive(Clone, Debug, PartialEq)]
pub struct StructType {
    pub span: Span,
    pub identifier: String,
    pub parameters: Vec<ParameterField>,
}

/// A distributed class: name, optional ordered parent list, ordered
/// field declarations.
#[derive(Clone, Debug, PartialEq)]
pub struct DistributedClassType {
    pub span: Span,
    pub identifier: String,
    pub parents: Option<Vec<String>>,
    pub field_declarations: Vec<FieldDecl>,
}

/// A Python import declaration: module path segments, optional module
/// view suffixes, a class name, optional class view suffixes.
#[derive(Clone, Debug, PartialEq)]
pub struct DCImport {
    pub span: Span,
    pub module: Vec<String>,
    pub module_views: Vec<String>,
    pub class: String,
    pub class_views: Vec<String>,
}

/// A `typedef` declaration: a data type and its new alias.
#[derive(Clone, Debug, PartialEq)]
pub struct TypeDefinition {
    pub span: Span,
    pub dc_type: DataType,
    pub alias: String,
}

/// One top-level declaration of a schema document.
#[derive(Clone, Debug, PartialEq)]
pub enum TypeDecl_ {
    KeywordType(KeywordType),
    StructType(StructType),
    DistributedClassType(DistributedClassType),
    PythonImport(DCImport),
    TypeDefinition(TypeDefinition),
}

/// A top-level declaration with its source span.
#[derive(Clone, Debug, PartialEq)]
pub struct TypeDecl {
    pub span: Span,
    pub node: TypeDecl_,
}

/// One expanded Python import record: a joined module path and the
/// symbols bound to it.
#[derive(Clone, Debug, PartialEq)]
pub struct DCImportRecord {
    pub module: String,
    pub symbols: Vec<String>,
}

/// Failures of the model's lookups.
#[derive(Clone, Copy, Debug, PartialEq, Eq, Structural)]
pub enum LookupError {
    /// The requested declaration-order id lies past the last class.
    OutOfRange,
    /// No declared class bears the requested name.
    NotFound,
}

/// Module path segments joined by `.`.
pub open spec fn joined_modules(segs: Seq<Seq<char>>) -> Seq<char>
    decreases segs.len(),
{
    if segs.len() == 0 {
        Seq::empty()
    } else if segs.len() == 1 {
        segs[0]
    } else {
        joined_modules(segs.drop_last()) + seq!['.'] + segs[segs.len() - 1]
    }
}

/// The class symbols of an import: the bare class name, then the name
/// extended by each class view suffix in order.
pub open spec fn class_symbols(c: Seq<char>, cs: Seq<Seq<char>>) -> Seq<Seq<char>> {
    seq![c] + cs.map_values(|s: Seq<char>| c + s)
}

/// How many import records an import declaration expands to: one without
/// module view suffixes, one more than the suffix count with them.
pub open spec fn import_count(im: DCImport) -> nat {
    if im.module_views@.len() == 0 {
        1
    } else {
        im.module_views@.len() + 1
    }
}

/// The records an import declaration expands to.  Without module view
/// suffixes: one record binding every class symbol to the module path.
/// With N module suffixes (which must pair 1:1 with the class suffixes):
/// the first record binds the bare class name to the bare path, and the
/// i-th suffix extends the path and pairs with the i-th suffixed symbol.
pub open spec fn is_expansion(recs: Seq<DCImportRecord>, im: DCImport) -> bool {
    let m = joined_modules(im.module.deep_view());
    let ms = im.module_views.deep_view();
    let c = im.class@;
    let cs = im.class_views.deep_view();
    if ms.len() == 0 {
        &&& recs.len() == 1
        &&& recs[0].module@ == m
        &&& recs[0].symbols.deep_view() == class_symbols(c, cs)
    } else {
        &&& ms.len() == cs.len()
        &&& recs.len() == ms.len() + 1
        &&& recs[0].module@ == m
        &&& recs[0].symbols.deep_view() == seq![c]
        &&& forall|i: int|
            1 <= i <= ms.len() ==> (#[trigger] recs[i]).module@ == m + ms[i - 1]
                && recs[i].symbols.deep_view() == seq![c + cs[i - 1]]
    }
}

/// How many records a declaration contributes to the import list.
pub open spec fn decl_import_count(d: TypeDecl) -> nat {
    match d.node {
        TypeDecl_::PythonImport(im) => import_count(im),
        _ => 0,
    }
}

/// How many import records the first `i` declarations contribute.
pub open spec fn records_before(decls: Seq<TypeDecl>, i: int) -> nat
    decreases i,
{
    if i <= 0 {
        0
    } else {
        records_before(decls, i - 1) + decl_import_count(decls[i - 1])
    }
}

/// Declaration `i`'s slice of the record list is its own expansion.
pub open spec fn imports_match_at(
    decls: Seq<TypeDecl>,
    recs: Seq<DCImportRecord>,
    i: int,
) -> bool {
    match decls[i].node {
        TypeDecl_::PythonImport(im) => is_expansion(
            recs.subrange(
                records_before(decls, i) as int,
                records_before(decls, i) as int + import_count(im) as int,
            ),
            im,
        ),
        _ => true,
    }
}

/// The record list is exactly the concatenated expansions of the import
/// declarations, in declaration order.
pub open spec fn imports_match(decls: Seq<TypeDecl>, recs: Seq<DCImportRecord>) -> bool {
    &&& recs.len() == records_before(decls, decls.len() as int)
    &&& forall|i: int| 0 <= i < decls.len() ==> #[trigger] imports_match_at(decls, recs, i)
}

/// Counting records over a prefix ignores declarations appended later.
pub proof fn lemma_records_before_push(decls: Seq<TypeDecl>, d: TypeDecl, i: int)
    requires
        0 <= i <= decls.len(),
    ensures
        records_before(decls.push(d), i) == records_before(decls, i),
    decreases i,
{
    if i > 0 {
        assert(decls.push(d)[i - 1] == decls[i - 1]);
        lemma_records_before_push(decls, d, i - 1);
    }
}

/// Appending a declaration together with its own expansion keeps the
/// record list matching the declarations.
pub proof fn lemma_imports_match_push(
    decls: Seq<TypeDecl>,
    recs: Seq<DCImportRecord>,
    d: TypeDecl,
    newrecs: Seq<DCImportRecord>,
)
    requires
        imports_match(decls, recs),
        newrecs.len() == decl_import_count(d),
        (d.node matches TypeDecl_::PythonImport(im) ==> is_expansion(newrecs, im)),
    ensures
        imports_match(decls.push(d), recs + newrecs),
{
    let decls2 = decls.push(d);
    let recs2 = recs + newrecs;
    lemma_records_before_push(decls, d, decls.len() as int);
    assert(records_before(decls2, decls2.len() as int) == records_before(
        decls2,
        decls.len() as int,
    ) + decl_import_count(d));
    assert forall|i: int| 0 <= i < decls2.len() implies #[trigger] imports_match_at(
        decls2,
        recs2,
        i,
    ) by {
        lemma_records_before_push(decls, d, i);
        if i < decls.len() {
            assert(imports_match_at(decls, recs, i));
            assert(decls2[i] == decls[i]);
            match decls[i].node {
                TypeDecl_::PythonImport(im) => {
                    let a = records_before(decls, i) as int;
                    let b = a + import_count(im) as int;
                    assert(b <= recs.len()) by {
                        assert(records_before(decls, i + 1) == records_before(decls, i)
                            + decl_import_count(decls[i]));
                        lemma_records_before_bound(decls, i + 1);
                    }
                    assert(recs2.subrange(a, b) =~= recs.subrange(a, b));
                },
                _ => {},
            }
        } else {
            assert(decls2[i] == d);
            match d.node {
                TypeDecl_::PythonImport(im) => {
                    let a = records_before(decls2, i) as int;
                    assert(a == recs.len());
                    assert(recs2.subrange(a, a + import_count(im) as int) =~= newrecs);
                },
                _ => {},
            }
        }
    }
}

/// The records of the first `i` declarations never outnumber the whole
/// record list of a matching model.
pub proof fn lemma_records_before_bound(decls: Seq<TypeDecl>, i: int)
    requires
        0 <= i <= decls.len(),
    ensures
        records_before(decls, i) <= records_before(decls, decls.len() as int),
    decreases decls.len() - i,
{
    if i < decls.len() {
        lemma_records_before_bound(decls, i + 1);
    }
}

/// The distributed classes among a declaration sequence, in order.
pub open spec fn dclass_seq(decls: Seq<TypeDecl>) -> Seq<DistributedClassType>
    decreases decls.len(),
{
    if decls.len() == 0 {
        Seq::empty()
    } else {
        dclass_seq(decls.drop_last()) + (match decls[decls.len() - 1].node {
            TypeDecl_::DistributedClassType(dc) => seq![dc],
            _ => Seq::empty(),
        })
    }
}

/// The root of a parsed schema: the ordered declarations and the
/// expanded Python import records.
#[derive(Clone, Debug, PartialEq)]
pub struct DCFile {
    pub type_decl: Vec<TypeDecl>,
    pub imports: Vec<DCImportRecord>,
}

/// Whether two strings hold the same characters.
pub fn str_eq_content(a: &str, b: &str) -> (r: bool)
    ensures
        r <==> a@ == b@,
{
    let la: usize = a.unicode_len();
    let lb: usize = b.unicode_len();
    if la != lb {
        return false;
    }
    let mut i: usize = 0;
    while i < la
        invariant
            la == a@.len(),
            la == b@.len(),
            i <= la,
            forall|j: int| 0 <= j < i ==> a@[j] == b@[j],
        decreases la - i,
    {
        if a.get_char(i) != b.get_char(i) {
            return false;
        }
        i += 1;
    }
    proof {
        assert(a@ =~= b@);
    }
    true
}

impl DCFile {
    /// Whether the stored import records are exactly the expansions of
    /// the import declarations, in order.
    pub open spec fn wf(&self) -> bool {
        imports_match(self.type_decl@, self.imports@)
    }

    /// An empty schema model.
    pub fn new() -> (r: DCFile)
        ensures
            r.type_decl@ == Seq::<TypeDecl>::empty(),
            r.imports@ == Seq::<DCImportRecord>::empty(),
            r.wf(),
    {
        DCFile { type_decl: Vec::new(), imports: Vec::new() }
    }

    /// How many expanded import records the schema holds.
    pub fn get_num_imports(&self) -> (r: usize)
        ensures
            r == self.imports@.len(),
    {
        self.imports.len()
    }

    /// How many distributed classes the schema declares.
    pub fn get_num_dclasses(&self) -> (r: usize)
        ensures
            r == dclass_seq(self.type_decl@).len(),
    {
        let mut count: usize = 0;
        let mut i: usize = 0;
        while i < self.type_decl.len()
            invariant
                i <= self.type_decl@.len(),
                count == dclass_seq(self.type_decl@.take(i as int)).len(),
                count <= i,
            decreases self.type_decl@.len() - i,
        {
            proof {
                assert(self.type_decl@.take(i + 1).drop_last() =~= self.type_decl@.take(i as int));
                assert(self.type_decl@.take(i + 1)[i as int] == self.type_decl@[i as int]);
            }
            match &self.type_decl[i].node {
                TypeDecl_::DistributedClassType(_) => {
                    count += 1;
                },
                _ => {},
            }
            i += 1;
        }
        proof {
            assert(self.type_decl@.take(self.type_decl@.len() as int) =~= self.type_decl@);
        }
        count
    }

    /// The class declared `id`-th (0-based, in declaration order), or
    /// `OutOfRange` past the last declared class.
    pub fn get_dclass_by_id(&self, id: usize) -> (r: Result<&DistributedClassType, LookupError>)
        ensures
            id < dclass_seq(self.type_decl@).len() ==> (r matches Ok(c) && *c == dclass_seq(
                self.type_decl@,
            )[id as int]),
            id >= dclass_seq(self.type_decl@).len() ==> r == Err::<
                &DistributedClassType,
                LookupError,
            >(LookupError::OutOfRange),
    {
        let mut seen: usize = 0;
        let mut i: usize = 0;
        while i < self.type_decl.len()
            invariant
                i <= self.type_decl@.len(),
                seen == dclass_seq(self.type_decl@.take(i as int)).len(),
                seen <= id,
            decreases self.type_decl@.len() - i,
        {
            proof {
                assert(self.type_decl@.take(i + 1).drop_last() =~= self.type_decl@.take(i as int));
                assert(self.type_decl@.take(i + 1)[i as int] == self.type_decl@[i as int]);
                lemma_dclass_seq_prefix(self.type_decl@, i as int);
            }
            match &self.type_decl[i].node {
                TypeDecl_::DistributedClassType(dc) => {
                    if seen == id {
                        proof {
                            lemma_dclass_seq_take_index(self.type_decl@, i as int);
                        }
                        return Ok(dc);
                    }
                    seen += 1;
                },
                _ => {},
            }
            i += 1;
        }
        proof {
            assert(self.type_decl@.take(self.type_decl@.len() as int) =~= self.type_decl@);
        }
        Err(LookupError::OutOfRange)
    }

    /// The first class declared under `name`, or `NotFound` when no
    /// declared class bears it.
    pub fn get_dclass_by_name(&self, name: &str) -> (r: Result<
        &DistributedClassType,
        LookupError,
    >)
        ensures
            (r matches Ok(c) ==> exists|i: int|
                0 <= i < dclass_seq(self.type_decl@).len() && *c == dclass_seq(self.type_decl@)[i]
                    && c.identifier@ == name@ && (forall|j: int|
                    0 <= j < i ==> dclass_seq(self.type_decl@)[j].identifier@ != name@)),
            r is Err ==> r == Err::<&DistributedClassType, LookupError>(LookupError::NotFound) && (
            forall|i: int|
                0 <= i < dclass_seq(self.type_decl@).len() ==> dclass_seq(
                    self.type_decl@,
                )[i].identifier@ != name@),
    {
        let mut i: usize = 0;
        while i < self.type_decl.len()
            invariant
                i <= self.type_decl@.len(),
                forall|j: int|
                    0 <= j < dclass_seq(self.type_decl@.take(i as int)).len() ==> dclass_seq(
                        self.type_decl@.take(i as int),
                    )[j].identifier@ != name@,
            decreases self.type_decl@.len() - i,
        {
            proof {
                assert(self.type_decl@.take(i + 1).drop_last() =~= self.type_decl@.take(i as int));
                assert(self.type_decl@.take(i + 1)[i as int] == self.type_decl@[i as int]);
                lemma_dclass_seq_prefix(self.type_decl@, i as int);
            }
            match &self.type_decl[i].node {
                TypeDecl_::DistributedClassType(dc) => {
                    if str_eq_content(dc.identifier.as_str(), name) {
                        proof {
                            lemma_dclass_seq_take_index(self.type_decl@, i as int);
                            lemma_dclass_seq_full_prefix(self.type_decl@, i as int);
                        }
                        return Ok(dc);
                    }
                },
                _ => {},
            }
            i += 1;
        }
        proof {
            assert(self.type_decl@.take(self.type_decl@.len() as int) =~= self.type_decl@);
        }
        Err(LookupError::NotFound)
    }
}

/// Scanning one more declaration either keeps the class list or appends
/// that declaration's class.
pub proof fn lemma_dclass_seq_prefix(decls: Seq<TypeDecl>, i: int)
    requires
        0 <= i < decls.len(),
    ensures
        dclass_seq(decls.take(i + 1)) == dclass_seq(decls.take(i)) + (match decls[i].node {
            TypeDecl_::DistributedClassType(dc) => seq![dc],
            _ => Seq::<DistributedClassType>::empty(),
        }),
{
    assert(decls.take(i + 1).drop_last() =~= decls.take(i));
    assert(decls.take(i + 1)[i] == decls[i]);
}

/// The class list of a prefix of the declarations is a prefix of the
/// whole class list.
pub proof fn lemma_dclass_seq_take_prefix(decls: Seq<TypeDecl>, i: int)
    requires
        0 <= i <= decls.len(),
    ensures
        dclass_seq(decls.take(i)).len() <= dclass_seq(decls).len(),
        forall|j: int|
            0 <= j < dclass_seq(decls.take(i)).len() ==> #[trigger] dclass_seq(decls.take(i))[j]
                == dclass_seq(decls)[j],
    decreases decls.len() - i,
{
    if i == decls.len() {
        assert(decls.take(i) =~= decls);
    } else {
        lemma_dclass_seq_prefix(decls, i);
        lemma_dclass_seq_take_prefix(decls, i + 1);
        assert forall|j: int|
            0 <= j < dclass_seq(decls.take(i)).len() implies #[trigger] dclass_seq(
            decls.take(i),
        )[j] == dclass_seq(decls)[j] by {
            assert(dclass_seq(decls.take(i))[j] == dclass_seq(decls.take(i + 1))[j]);
        }
    }
}

/// The class appended at declaration `i` sits right after the classes of
/// the first `i` declarations, at the same position in the whole list.
pub proof fn lemma_dclass_seq_take_index(decls: Seq<TypeDecl>, i: int)
    requires
        0 <= i < decls.len(),
    ensures
        dclass_seq(decls.take(i)).len() <= dclass_seq(decls).len(),
        forall|j: int|
            0 <= j < dclass_seq(decls.take(i)).len() ==> #[trigger] dclass_seq(decls.take(i))[j]
                == dclass_seq(decls)[j],
        (decls[i].node matches TypeDecl_::DistributedClassType(dc) ==> dclass_seq(
            decls.take(i),
        ).len() < dclass_seq(decls).len() && dclass_seq(decls)[dclass_seq(decls.take(i)).len() as int]
            == dc),
    decreases decls.len() - i,
{
    lemma_dclass_seq_prefix(decls, i);
    lemma_dclass_seq_take_prefix(decls, i + 1);
    lemma_dclass_seq_take_prefix(decls, i);
    match decls[i].node {
        TypeDecl_::DistributedClassType(dc) => {
            let k = dclass_seq(decls.take(i)).len() as int;
            assert(dclass_seq(decls.take(i + 1))[k] == dc);
            assert(dclass_seq(decls.take(i + 1))[k] == dclass_seq(decls)[k]);
        },
        _ => {},
    }
}

/// Every class listed before declaration `i`'s own class keeps its
/// position in the whole class list.
pub proof fn lemma_dclass_seq_full_prefix(decls: Seq<TypeDecl>, i: int)
    requires
        0 <= i < decls.len(),
    ensures
        forall|j: int|
            0 <= j < dclass_seq(decls.take(i)).len() ==> #[trigger] dclass_seq(decls)[j]
                == dclass_seq(decls.take(i))[j],
{
    lemma_dclass_seq_take_index(decls, i);
}

} // verus!
