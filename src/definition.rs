use vstd::prelude::*;

verus! {

/// A field type of a schema definition, once resolved.
pub enum Type {
    Bool,
    U8,
    U32,
    U64,
    String,
    List(Box<Type>),
    /// A structure defined earlier, by name.
    Struct(String),
}

/// A field of a resolved structure definition.
pub struct FieldDef {
    pub name: String,
    pub type_: Type,
}

/// A resolved structure definition.
pub struct StructDef {
    pub struct_name: String,
    pub fields: Vec<FieldDef>,
}

/// The structure definitions known so far, which later definitions may refer to.
pub struct Parser {
    defs: Vec<StructDef>,
}

/// Why a definition does not compile.
pub enum DefinitionError {
    /// Two fields of one structure have this name.
    DuplicateField(String),
    /// No structure of this name is known.
    UnrecognizedType(String),
    /// A generic type of this name is not known.
    UnresolvedType(String),
}

/// A field type as written in a definition, before resolution.
pub enum TypeDef<'i> {
    Primitive(Type),
    Generic(&'i str, Box<TypeDef<'i>>),
    Struct(&'i str),
}

/// A field as written in a definition.
pub struct ParsedField<'i> {
    pub name: &'i str,
    pub type_: TypeDef<'i>,
}

/// A structure definition as written, before its field types are resolved.
pub struct ParsedStruct<'i> {
    pub struct_name: &'i str,
    pub fields: Vec<ParsedField<'i>>,
}

pub enum TypeModel {
    Bool,
    U8,
    U32,
    U64,
    Str,
    List(Box<TypeModel>),
    Struct(Seq<char>),
}

pub enum TypeDefModel {
    Primitive(TypeModel),
    Generic(Seq<char>, Box<TypeDefModel>),
    Struct(Seq<char>),
}

pub enum ErrorModel {
    DuplicateField(Seq<char>),
    UnrecognizedType(Seq<char>),
    UnresolvedType(Seq<char>),
}

impl Type {
    pub open spec fn model(&self) -> TypeModel
        decreases self,
    {
        match self {
            Type::Bool => TypeModel::Bool,
            Type::U8 => TypeModel::U8,
            Type::U32 => TypeModel::U32,
            Type::U64 => TypeModel::U64,
            Type::String => TypeModel::Str,
            Type::List(t) => TypeModel::List(Box::new(t.model())),
            Type::Struct(n) => TypeModel::Struct(n@),
        }
    }
}

impl<'i> TypeDef<'i> {
    pub open spec fn model(&self) -> TypeDefModel
        decreases self,
    {
        match self {
            TypeDef::Primitive(t) => TypeDefModel::Primitive(t.model()),
            TypeDef::Generic(n, t) => TypeDefModel::Generic(n@, Box::new(t.model())),
            TypeDef::Struct(n) => TypeDefModel::Struct(n@),
        }
    }
}

impl DefinitionError {
    pub open spec fn model(&self) -> ErrorModel {
        match self {
            DefinitionError::DuplicateField(n) => ErrorModel::DuplicateField(n@),
            DefinitionError::UnrecognizedType(n) => ErrorModel::UnrecognizedType(n@),
            DefinitionError::UnresolvedType(n) => ErrorModel::UnresolvedType(n@),
        }
    }
}

pub open spec fn result_model<T, M>(r: Result<T, DefinitionError>, m: spec_fn(T) -> M) -> Result<
    M,
    ErrorModel,
> {
    match r {
        Ok(t) => Ok(m(t)),
        Err(e) => Err(e.model()),
    }
}

/// The one generic type that resolves: a list of its element type.
pub open spec fn list_name() -> Seq<char> {
    seq!['L', 'i', 's', 't']
}

/// What a written field type resolves to, given the names of the known structures.
pub open spec fn resolve_spec(t: TypeDefModel, known: Seq<Seq<char>>) -> Result<TypeModel, ErrorModel>
    decreases t,
{
    match t {
        TypeDefModel::Primitive(p) => Ok(p),
        TypeDefModel::Generic(n, inner) => {
            if n == list_name() {
                match resolve_spec(*inner, known) {
                    Ok(r) => Ok(TypeModel::List(Box::new(r))),
                    Err(e) => Err(e),
                }
            } else {
                Err(ErrorModel::UnresolvedType(n))
            }
        },
        TypeDefModel::Struct(n) => {
            if known.contains(n) {
                Ok(TypeModel::Struct(n))
            } else {
                Err(ErrorModel::UnrecognizedType(n))
            }
        },
    }
}

/// Whether `a` and `b` hold the same text.
fn same_text(a: &str, b: &str) -> (r: bool)
    ensures
        r == (a@ == b@),
{
    a.to_owned() == b.to_owned()
}

impl Parser {
    /// The names of the known structures.
    pub closed spec fn names(&self) -> Seq<Seq<char>> {
        self.defs@.map_values(|d: StructDef| d.struct_name@)
    }

    /// A parser that knows no structure yet.
    pub fn new() -> (p: Parser)
        ensures
            p.names().len() == 0,
    {
        let p = Parser { defs: Vec::new() };
        assert(p.names() =~= Seq::empty());
        p
    }

    /// Makes `def` known to later definitions.
    pub fn register(&mut self, def: StructDef)
        ensures
            final(self).names() == old(self).names().push(def.struct_name@),
    {
        let ghost n = def.struct_name@;
        self.defs.push(def);
        assert(self.names() =~= old(self).names().push(n));
    }

    /// The known structure named `name`, if there is one.
    pub fn struct_def(&self, name: &str) -> (r: Option<&StructDef>)
        ensures
            r is Some <==> self.names().contains(name@),
            r matches Some(d) ==> d.struct_name@ == name@,
    {
        let mut i: usize = 0;
        while i < self.defs.len()
            invariant
                0 <= i <= self.defs@.len(),
                forall|j: int| 0 <= j < i ==> (#[trigger] self.names()[j]) != name@,
            decreases self.defs@.len() - i,
        {
            if same_text(self.defs[i].struct_name.as_str(), name) {
                assert(self.names()[i as int] == name@);
                return Some(&self.defs[i]);
            }
            assert(self.names()[i as int] == self.defs@[i as int].struct_name@);
            i = i + 1;
        }
        None
    }
}

impl<'i> TypeDef<'i> {
    /// Resolves a written field type against the structures that `parser` knows:
    /// `List<T>` becomes a list of `T` resolved, a known structure name a reference to
    /// it; any other generic or an unknown name is an error.
    pub fn resolve(self, parser: &Parser) -> (r: Result<Type, DefinitionError>)
        ensures
            result_model(r, |t: Type| t.model()) == resolve_spec(self.model(), parser.names()),
        decreases self,
    {
        proof {
            reveal_strlit("List");
            assert("List"@ =~= list_name());
        }
        match self {
            TypeDef::Primitive(t) => Ok(t),
            TypeDef::Generic(name, t) => {
                if same_text(name, "List") {
                    match t.resolve(parser) {
                        Ok(inner) => Ok(Type::List(Box::new(inner))),
                        Err(e) => Err(e),
                    }
                } else {
                    Err(DefinitionError::UnresolvedType(name.to_owned()))
                }
            },
            TypeDef::Struct(name) => {
                match parser.struct_def(name) {
                    Some(_) => Ok(Type::Struct(name.to_owned())),
                    None => Err(DefinitionError::UnrecognizedType(name.to_owned())),
                }
            },
        }
    }
}

pub open spec fn field_names<'i>(fs: Seq<ParsedField<'i>>) -> Seq<Seq<char>> {
    fs.map_values(|f: ParsedField<'i>| f.name@)
}

/// The first position whose name repeats an earlier one, if there is one.
pub open spec fn first_repeat(names: Seq<Seq<char>>) -> Option<int>
    decreases names.len(),
{
    if names.len() == 0 {
        None
    } else {
        match first_repeat(names.drop_last()) {
            Some(j) => Some(j),
            None => if names.drop_last().contains(names.last()) {
                Some(names.len() - 1)
            } else {
                None
            },
        }
    }
}

/// The fields resolved in order, or the error of the first that does not resolve.
pub open spec fn resolve_fields<'i>(fs: Seq<ParsedField<'i>>, known: Seq<Seq<char>>) -> Result<
    Seq<(Seq<char>, TypeModel)>,
    ErrorModel,
>
    decreases fs.len(),
{
    if fs.len() == 0 {
        Ok(Seq::empty())
    } else {
        match resolve_fields(fs.drop_last(), known) {
            Err(e) => Err(e),
            Ok(rs) => match resolve_spec(fs.last().type_.model(), known) {
                Ok(t) => Ok(rs.push((fs.last().name@, t))),
                Err(e) => Err(e),
            },
        }
    }
}

pub open spec fn struct_model(d: StructDef) -> (Seq<char>, Seq<(Seq<char>, TypeModel)>) {
    (d.struct_name@, d.fields@.map_values(|f: FieldDef| (f.name@, f.type_.model())))
}

/// What a written structure compiles to: an error for the first field whose name
/// repeats an earlier one; else its fields resolved in order, or the error of the
/// first that does not resolve.
pub open spec fn compile_spec<'i>(p: ParsedStruct<'i>, known: Seq<Seq<char>>) -> Result<
    (Seq<char>, Seq<(Seq<char>, TypeModel)>),
    ErrorModel,
> {
    match first_repeat(field_names(p.fields@)) {
        Some(j) => Err(ErrorModel::DuplicateField(field_names(p.fields@)[j])),
        None => match resolve_fields(p.fields@, known) {
            Ok(fs) => Ok((p.struct_name@, fs)),
            Err(e) => Err(e),
        },
    }
}

impl<'i> ParsedStruct<'i> {
    /// Compiles a written structure against the structures that `parser` knows.
    pub fn compile(self, parser: &Parser) -> (r: Result<StructDef, DefinitionError>)
        ensures
            result_model(r, |d: StructDef| struct_model(d)) == compile_spec(self, parser.names()),
    {
        let ghost names = field_names(self.fields@);
        let mut i: usize = 0;
        while i < self.fields.len()
            invariant
                0 <= i <= self.fields@.len(),
                names == field_names(self.fields@),
                first_repeat(names.take(i as int)) is None,
            decreases self.fields@.len() - i,
        {
            let mut j: usize = 0;
            while j < i
                invariant
                    0 <= j <= i < self.fields@.len(),
                    names == field_names(self.fields@),
                    forall|k: int| 0 <= k < j ==> names[k] != names[i as int],
                    first_repeat(names.take(i as int)) is None,
                decreases i - j,
            {
                if same_text(self.fields[j].name, self.fields[i].name) {
                    proof {
                        assert(names.take(i + 1).drop_last() =~= names.take(i as int));
                        assert(names.take(i as int)[j as int] == names[i as int]);
                        assert(names.take(i + 1).last() == names[i as int]);
                        assert(names.take(i as int).contains(names[i as int]));
                        assert(first_repeat(names.take(i + 1)) == Some(i as int));
                        lemma_first_repeat_prefix(names, i + 1);
                    }
                    return Err(DefinitionError::DuplicateField(self.fields[i].name.to_owned()));
                }
                j = j + 1;
            }
            proof {
                assert(names.take(i + 1).drop_last() =~= names.take(i as int));
                if names.take(i as int).contains(names[i as int]) {
                    let k = choose|k: int| 0 <= k < i && names.take(i as int)[k] == names[i as int];
                    assert(names[k] == names[i as int]);
                }
            }
            i = i + 1;
        }
        assert(names.take(i as int) =~= names);
        let ghost fs = self.fields@;
        let ghost known = parser.names();
        let ghost sname = self.struct_name@;
        let ghost goal = compile_spec(self, known);
        assert(goal == match resolve_fields(fs, known) {
            Ok(x) => Ok((sname, x)),
            Err(e) => Err(e),
        });
        let ParsedStruct { struct_name, fields } = self;
        let mut out: Vec<FieldDef> = Vec::new();
        let mut rest = fields;
        proof {
            assert(rest@ =~= fs.subrange(0, fs.len() as int));
            assert(fs.take(0) =~= Seq::<ParsedField<'i>>::empty());
            assert(out@.map_values(|f: FieldDef| (f.name@, f.type_.model())) =~= Seq::empty());
        }
        while rest.len() > 0
            invariant
                out@.len() + rest@.len() == fs.len(),
                rest@ =~= fs.subrange(out@.len() as int, fs.len() as int),
                goal == match resolve_fields(fs, known) {
                    Ok(x) => Ok((sname, x)),
                    Err(e) => Err(e),
                },
                goal == compile_spec(self, parser.names()),
                known == parser.names(),
                resolve_fields(fs.take(out@.len() as int), known) == Ok::<
                    Seq<(Seq<char>, TypeModel)>,
                    ErrorModel,
                >(out@.map_values(|f: FieldDef| (f.name@, f.type_.model()))),
            decreases rest@.len(),
        {
            let n = out.len();
            let f = rest.remove(0);
            proof {
                assert(f == fs[n as int]);
                assert(fs.take(n + 1).drop_last() =~= fs.take(n as int));
                assert(fs.take(n + 1).last() == fs[n as int]);
            }
            let ghost fname = f.name@;
            let ParsedField { name, type_ } = f;
            match type_.resolve(parser) {
                Ok(t) => {
                    let ghost before = out@;
                    out.push(FieldDef { name: name.to_owned(), type_: t });
                    proof {
                        assert(out@.map_values(|f: FieldDef| (f.name@, f.type_.model())) =~= before.map_values(
                            |f: FieldDef| (f.name@, f.type_.model()),
                        ).push((fname, out@[n as int].type_.model())));
                        assert(rest@ =~= fs.subrange(out@.len() as int, fs.len() as int));
                    }
                },
                Err(e) => {
                    proof {
                        lemma_resolve_fields_err(fs, n + 1, known);
                    }
                    return Err(e);
                },
            }
        }
        proof {
            assert(fs.take(fs.len() as int) =~= fs);
        }
        Ok(StructDef { struct_name: struct_name.to_owned(), fields: out })
    }
}

pub proof fn lemma_first_repeat_prefix(names: Seq<Seq<char>>, i: int)
    requires
        0 <= i <= names.len(),
        first_repeat(names.take(i)) is Some,
    ensures
        first_repeat(names) == first_repeat(names.take(i)),
    decreases names.len() - i,
{
    if i < names.len() {
        assert(names.take(i + 1).drop_last() =~= names.take(i));
        lemma_first_repeat_prefix(names, i + 1);
    } else {
        assert(names.take(i) =~= names);
    }
}

pub proof fn lemma_resolve_fields_err<'i>(fs: Seq<ParsedField<'i>>, i: int, known: Seq<Seq<char>>)
    requires
        0 <= i <= fs.len(),
        resolve_fields(fs.take(i), known) is Err,
    ensures
        resolve_fields(fs, known) == resolve_fields(fs.take(i), known),
    decreases fs.len() - i,
{
    if i < fs.len() {
        assert(fs.take(i + 1).drop_last() =~= fs.take(i));
        lemma_resolve_fields_err(fs, i + 1, known);
    } else {
        assert(fs.take(i) =~= fs);
    }
}

} // verus!
