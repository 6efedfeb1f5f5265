//! The schema model: the introspection document as a graph of named types,
//! with lookup and classification primitives used by the path search.

use vstd::prelude::*;
use crate::text::{seq_contains_sub, seq_ends_with, str_contains, str_ends_with, str_eq};

verus! {

/// Top-level envelope of an introspection document; `data` absent means
/// "empty schema" and no search is run.
pub struct Root {
    pub data: Option<Data>,
}

pub struct Data {
    pub schema: Schema,
}

pub struct Schema {
    pub types: Vec<Type>,
}

/// A named type; kind `"OBJECT"` marks types that participate in traversal.
pub struct Type {
    pub name: String,
    pub kind: String,
    pub fields: Option<Vec<Field>>,
}

/// A possibly wrapped type reference; the `of_type` chain is finite and ends
/// in a reference with `of_type == None`, the "deepest" type.
pub struct TypeRef {
    pub name: Option<String>,
    pub kind: String,
    pub of_type: Option<Box<TypeRef>>,
}

pub struct Field {
    pub name: String,
    pub field_type: TypeRef,
}

/// Index of the last element of `ts` named `n`, or -1 when there is none.
/// A name-keyed map built from `ts` front to back keeps the last occurrence,
/// so lookups resolve to this element.
pub open spec fn find_last(ts: Seq<Type>, n: Seq<char>) -> int
    decreases ts.len(),
{
    if ts.len() == 0 {
        -1
    } else if ts.last().name@ == n {
        ts.len() - 1
    } else {
        find_last(ts.drop_last(), n)
    }
}

pub proof fn lemma_find_last(ts: Seq<Type>, n: Seq<char>)
    ensures
        (find_last(ts, n) >= 0) <==> (exists|i: int|
            0 <= i < ts.len() && ts[i].name@ == n),
        find_last(ts, n) >= 0 ==> find_last(ts, n) < ts.len() && ts[find_last(ts, n)].name@
            == n && (forall|j: int| find_last(ts, n) < j < ts.len() ==> ts[j].name@ != n),
    decreases ts.len(),
{
    if ts.len() == 0 {
    } else if ts.last().name@ == n {
        assert(ts[ts.len() - 1].name@ == n);
    } else {
        lemma_find_last(ts.drop_last(), n);
        let fl = find_last(ts, n);
        if fl >= 0 {
            assert(ts.drop_last()[fl] == ts[fl]);
            assert forall|j: int| fl < j < ts.len() implies ts[j].name@ != n by {
                if j < ts.len() - 1 {
                    assert(ts.drop_last()[j] == ts[j]);
                }
            }
        }
        if exists|i: int| 0 <= i < ts.len() && ts[i].name@ == n {
            let i = choose|i: int| 0 <= i < ts.len() && ts[i].name@ == n;
            assert(i < ts.len() - 1);
            assert(ts.drop_last()[i].name@ == n);
        }
    }
}

/// `find_last` finds exactly the position of a match with no later match.
pub proof fn lemma_find_last_at(ts: Seq<Type>, n: Seq<char>, i: int)
    requires
        0 <= i < ts.len(),
        ts[i].name@ == n,
        forall|j: int| i < j < ts.len() ==> ts[j].name@ != n,
    ensures
        find_last(ts, n) == i,
    decreases ts.len(),
{
    if i == ts.len() - 1 {
    } else {
        assert(ts.last().name@ != n);
        lemma_find_last_at(ts.drop_last(), n, i);
    }
}

/// A name-keyed view of the types of a schema.  Lookups resolve a name to
/// the last type of that name, as insertion into a name-keyed map would;
/// iteration follows declaration order.
pub struct TypeMap {
    pub types: Vec<Type>,
}

impl TypeMap {
    pub open spec fn contains_name(self, n: Seq<char>) -> bool {
        exists|i: int| 0 <= i < self.types@.len() && self.types@[i].name@ == n
    }

    /// The type a lookup of `n` resolves to.
    pub open spec fn spec_get(self, n: Seq<char>) -> Type {
        self.types@[find_last(self.types@, n)]
    }

    /// Whether position `i` is the entry a name-keyed map keeps for its name.
    pub open spec fn is_entry(self, i: int) -> bool {
        0 <= i < self.types@.len() && (forall|j: int|
            i < j < self.types@.len() ==> self.types@[j].name@ != self.types@[i].name@)
    }

    /// Every field of the type `n` resolves to (if any) has a named deepest
    /// type, so its target type name can be read off.
    pub open spec fn resolvable(self, n: Seq<char>) -> bool {
        self.contains_name(n) ==> self.spec_get(n).fields_resolvable()
    }

    /// Looks a type up by name.
    pub fn get(&self, name: &str) -> (r: Option<&Type>)
        ensures
            match r {
                Some(t) => self.contains_name(name@) && *t == self.spec_get(name@),
                None => !self.contains_name(name@),
            },
    {
        let mut i = self.types.len();
        while i > 0
            invariant
                i <= self.types@.len(),
                forall|j: int| i <= j < self.types@.len() ==> self.types@[j].name@ != name@,
            decreases i,
        {
            i -= 1;
            if str_eq(self.types[i].name.as_str(), name) {
                proof {
                    lemma_find_last_at(self.types@, name@, i as int);
                }
                return Some(&self.types[i]);
            }
        }
        None
    }

    /// Whether position `j` holds the entry a name-keyed map keeps for its
    /// name: no later type shares it.
    pub fn is_entry_at(&self, j: usize) -> (r: bool)
        requires
            j < self.types@.len(),
        ensures
            r == self.is_entry(j as int),
    {
        let n = self.types.len();
        let mut j2 = j + 1;
        while j2 < n
            invariant
                n == self.types@.len(),
                j < j2 <= self.types@.len(),
                forall|i: int|
                    j < i < j2 ==> (#[trigger] self.types@[i]).name@ != self.types@[j as int].name@,
            decreases n - j2,
        {
            if str_eq(self.types[j2].name.as_str(), self.types[j].name.as_str()) {
                return false;
            }
            j2 += 1;
        }
        true
    }

    /// Runtime check for `resolvable`: callers that cannot establish it by
    /// proof test it before searching from `name`.
    pub fn check_resolvable(&self, name: &str) -> (r: bool)
        ensures
            r == self.resolvable(name@),
    {
        let ot = self.get(name);
        if ot.is_none() {
            return true;
        }
        let t = ot.unwrap();
        if t.fields.is_none() {
            return true;
        }
        let fs = t.fields.as_ref().unwrap();
        let mut k: usize = 0;
        while k < fs.len()
            invariant
                fs@ == t.fields.unwrap()@,
                t.fields is Some,
                self.contains_name(name@),
                *t == self.spec_get(name@),
                k <= fs@.len(),
                forall|j: int| 0 <= j < k ==> #[trigger] fs@[j].resolvable(),
            decreases fs@.len() - k,
        {
            let deep = fs[k].field_type.get_deepest();
            if deep.name.is_none() {
                proof {
                    assert(!fs@[k as int].resolvable());
                    assert(!t.fields_resolvable());
                }
                return false;
            }
            proof {
                assert(fs@[k as int].resolvable());
            }
            k += 1;
        }
        true
    }
}

impl Schema {
    /// The types of this schema as a name-keyed map.
    pub fn get_type_map(self) -> (r: TypeMap)
        ensures
            r.types@ == self.types@,
    {
        TypeMap { types: self.types }
    }

    /// The types whose name equals `kind`, as a map, in declaration order.
    pub fn filter_type_map(self, kind: &str) -> (r: TypeMap)
        ensures
            r.types@ == kept_types(self.types@, kind@),
    {
        let ghost orig: Seq<Type> = self.types@;
        let mut rest = self.types;
        let ghost mut done: Seq<Type> = Seq::empty();
        let mut out: Vec<Type> = Vec::new();
        while rest.len() > 0
            invariant
                orig == done + rest@,
                out@ == kept_types(done, kind@),
            decreases rest@.len(),
        {
            let t = rest.remove(0);
            let keep = str_eq(t.name.as_str(), kind);
            proof {
                let done1 = done.push(t);
                assert(done1.drop_last() =~= done);
                done = done1;
                assert(orig =~= done + rest@);
            }
            if keep {
                out.push(t);
            }
        }
        proof {
            assert(orig =~= done);
        }
        TypeMap { types: out }
    }
}

/// The subsequence of `ts` whose names equal `kind`, in order.
pub open spec fn kept_types(ts: Seq<Type>, kind: Seq<char>) -> Seq<Type>
    decreases ts.len(),
{
    if ts.len() == 0 {
        Seq::empty()
    } else if ts.last().name@ == kind {
        kept_types(ts.drop_last(), kind).push(ts.last())
    } else {
        kept_types(ts.drop_last(), kind)
    }
}

impl TypeRef {
    /// The terminal reference of the `of_type` unwrap chain.
    pub open spec fn deepest(self) -> TypeRef
        decreases self,
    {
        match self.of_type {
            Some(b) => b.deepest(),
            None => self,
        }
    }

    pub open spec fn spec_is_object(self) -> bool {
        self.kind@ == "OBJECT"@
    }

    /// Unwraps `of_type` until the terminal reference and returns an
    /// independent copy of it.
    pub fn get_deepest(&self) -> (r: TypeRef)
        ensures
            r == self.deepest(),
        decreases *self,
    {
        match &self.of_type {
            Some(b) => b.get_deepest(),
            None => TypeRef {
                name: clone_opt_string(&self.name),
                kind: self.kind.clone(),
                of_type: None,
            },
        }
    }

    /// True iff this reference's own kind is `"OBJECT"`.
    pub fn is_object(&self) -> (r: bool)
        ensures
            r == self.spec_is_object(),
    {
        str_eq(self.kind.as_str(), "OBJECT")
    }
}

fn clone_opt_string(o: &Option<String>) -> (r: Option<String>)
    ensures
        r == *o,
{
    match o {
        Some(s) => Some(s.clone()),
        None => None,
    }
}

impl Field {
    /// The deepest type of this field carries a name.
    pub open spec fn resolvable(self) -> bool {
        self.field_type.deepest().name is Some
    }

    /// The name of the deepest type.
    pub open spec fn spec_type_name(self) -> Seq<char> {
        self.field_type.deepest().name.unwrap()@
    }

    /// Returns the name of the field's deepest type.  A field whose deepest
    /// type is unnamed makes the schema un-searchable, so callers establish
    /// `resolvable` first (`TypeMap::check_resolvable` tests it at runtime).
    pub fn get_type_name(&self) -> (r: String)
        requires
            self.resolvable(),
        ensures
            r@ == self.spec_type_name(),
    {
        let deep = self.field_type.get_deepest();
        match deep.name {
            Some(s) => s,
            None => vstd::pervasive::unreached(),
        }
    }
}

/// Whether a field's name matches a query, exactly or by containment.
pub open spec fn field_matches(f: Field, q: Seq<char>, containing: bool) -> bool {
    if containing {
        seq_contains_sub(f.name@, q)
    } else {
        f.name@ == q
    }
}

/// The fields of a type as a name-keyed collection, in declaration order.
pub struct FieldMap {
    pub fields: Vec<Field>,
}

impl Type {
    pub open spec fn spec_is_object(self) -> bool {
        self.kind@ == "OBJECT"@
    }

    /// Some field of this type is named `n`.
    pub open spec fn has_field_named(self, n: Seq<char>) -> bool {
        match self.fields {
            Some(fs) => exists|k: int| 0 <= k < fs@.len() && fs@[k].name@ == n,
            None => false,
        }
    }

    /// Every field has a named deepest type.
    pub open spec fn fields_resolvable(self) -> bool {
        match self.fields {
            Some(fs) => forall|k: int| 0 <= k < fs@.len() ==> #[trigger] fs@[k].resolvable(),
            None => true,
        }
    }

    /// Pagination scaffolding: `PageInfo` with its two page flags, a
    /// `…Connection` with `edges` and `pageInfo`, or an `…Edge` with
    /// `cursor` and `node`.
    pub open spec fn spec_is_relay(self) -> bool {
        self.fields is Some && ((self.name@ == "PageInfo"@ && self.has_field_named(
            "hasNextPage"@,
        ) && self.has_field_named("hasPreviousPage"@)) || (seq_ends_with(
            self.name@,
            "Connection"@,
        ) && self.has_field_named("edges"@) && self.has_field_named("pageInfo"@)) || (
        seq_ends_with(self.name@, "Edge"@) && self.has_field_named("cursor"@)
            && self.has_field_named("node"@)))
    }

    pub fn is_object(&self) -> (r: bool)
        ensures
            r == self.spec_is_object(),
    {
        str_eq(self.kind.as_str(), "OBJECT")
    }

    /// Finds the first field matching `field_name`: by equality, or by
    /// substring containment when `containing` is set.
    pub fn get_field(&self, field_name: &str, containing: bool) -> (r: Option<&Field>)
        ensures
            match r {
                Some(f) => self.fields is Some && exists|k: int|
                    #![trigger field_matches(self.fields.unwrap()@[k], field_name@, containing)]
                    {
                        0 <= k < self.fields.unwrap()@.len() && *f == self.fields.unwrap()@[k]
                            && field_matches(self.fields.unwrap()@[k], field_name@, containing)
                            && forall|j: int|
                            0 <= j < k ==> !field_matches(
                                self.fields.unwrap()@[j],
                                field_name@,
                                containing,
                            )
                    },
                None => match self.fields {
                    Some(fs) => forall|k: int|
                        0 <= k < fs@.len() ==> !field_matches(fs@[k], field_name@, containing),
                    None => true,
                },
            },
    {
        if self.fields.is_none() {
            return None;
        }
        let fs = self.fields.as_ref().unwrap();
        let mut k: usize = 0;
        while k < fs.len()
            invariant
                self.fields is Some,
                fs@ == self.fields.unwrap()@,
                k <= fs@.len(),
                forall|j: int| 0 <= j < k ==> !field_matches(fs@[j], field_name@, containing),
            decreases fs@.len() - k,
        {
            let hit = if containing {
                str_contains(fs[k].name.as_str(), field_name)
            } else {
                str_eq(fs[k].name.as_str(), field_name)
            };
            if hit {
                proof {
                    assert(field_matches(
                        self.fields.unwrap()@[k as int],
                        field_name@,
                        containing,
                    ));
                }
                return Some(&fs[k]);
            }
            k += 1;
        }
        None
    }

    /// The fields of this type as a collection; empty when it has none.
    pub fn get_field_map(&self) -> (r: FieldMap)
        ensures
            r.fields@ == match self.fields {
                Some(fs) => fs@,
                None => Seq::<Field>::empty(),
            },
    {
        match &self.fields {
            None => FieldMap { fields: Vec::new() },
            Some(fs) => {
                let mut out: Vec<Field> = Vec::new();
                let mut k: usize = 0;
                while k < fs.len()
                    invariant
                        k <= fs@.len(),
                        out@ == fs@.subrange(0, k as int),
                    decreases fs@.len() - k,
                {
                    out.push(clone_field(&fs[k]));
                    proof {
                        assert(out@ =~= fs@.subrange(0, k + 1));
                    }
                    k += 1;
                }
                proof {
                    assert(fs@.subrange(0, fs@.len() as int) =~= fs@);
                }
                FieldMap { fields: out }
            },
        }
    }

    /// Checks whether this type is relay pagination scaffolding.
    pub fn is_relay(&self) -> (r: bool)
        ensures
            r == self.spec_is_relay(),
    {
        match &self.fields {
            None => false,
            Some(fs) => {
                if str_eq(self.name.as_str(), "PageInfo") && fields_contain(fs, "hasNextPage")
                    && fields_contain(fs, "hasPreviousPage") {
                    return true;
                }
                if str_ends_with(self.name.as_str(), "Connection") && fields_contain(fs, "edges")
                    && fields_contain(fs, "pageInfo") {
                    return true;
                }
                if str_ends_with(self.name.as_str(), "Edge") && fields_contain(fs, "cursor")
                    && fields_contain(fs, "node") {
                    return true;
                }
                false
            },
        }
    }
}

/// Some field in `fs` is named `name`.
fn fields_contain(fs: &Vec<Field>, name: &str) -> (r: bool)
    ensures
        r == exists|k: int| 0 <= k < fs@.len() && #[trigger] fs@[k].name@ == name@,
{
    let mut k: usize = 0;
    while k < fs.len()
        invariant
            k <= fs@.len(),
            forall|j: int| 0 <= j < k ==> #[trigger] fs@[j].name@ != name@,
        decreases fs@.len() - k,
    {
        if str_eq(fs[k].name.as_str(), name) {
            return true;
        }
        k += 1;
    }
    false
}

fn clone_type_ref(tr: &TypeRef) -> (r: TypeRef)
    ensures
        r == *tr,
    decreases *tr,
{
    TypeRef {
        name: clone_opt_string(&tr.name),
        kind: tr.kind.clone(),
        of_type: match &tr.of_type {
            Some(b) => Some(Box::new(clone_type_ref(b))),
            None => None,
        },
    }
}

pub(crate) fn clone_field(f: &Field) -> (r: Field)
    ensures
        r == *f,
{
    Field { name: f.name.clone(), field_type: clone_type_ref(&f.field_type) }
}

} // verus!
