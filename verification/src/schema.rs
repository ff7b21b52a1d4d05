//! The shape of a record: its fields, in declaration order.

use vstd::prelude::*;

verus! {

/// One field of a record: its name and the name of its type. The type is an
/// opaque leaf; a field that is itself a record is not looked into.
#[derive(Debug)]
pub struct Field {
    pub name: String,
    pub ty: String,
}

impl Field {
    pub fn new(name: &str, ty: &str) -> (f: Field)
        ensures
            f.name@ == name@,
            f.ty@ == ty@,
    {
        Field { name: name.to_owned(), ty: ty.to_owned() }
    }
}

/// No name occurs twice in `names`.
pub open spec fn distinct(names: Seq<Seq<char>>) -> bool {
    forall|i: int, j: int| 0 <= i < j < names.len() ==> names[i] != names[j]
}

/// The names of `fields`, in order.
pub open spec fn names_of(fields: Seq<Field>) -> Seq<Seq<char>> {
    Seq::new(fields.len(), |i: int| fields[i].name@)
}

/// The type names of `fields`, in order.
pub open spec fn types_of(fields: Seq<Field>) -> Seq<Seq<char>> {
    Seq::new(fields.len(), |i: int| fields[i].ty@)
}

/// The ordered list of the fields of one record type. The position of a field
/// in it is the position of its capability in every capability vector of the
/// record. A schema is never changed once it is made, and no two of its fields
/// have the same name.
#[derive(Debug)]
pub struct Schema {
    fields: Vec<Field>,
}

impl Schema {
    /// The field names, in declaration order.
    pub closed spec fn names(&self) -> Seq<Seq<char>> {
        names_of(self.fields@)
    }

    /// The names of the field types, in declaration order.
    pub closed spec fn types(&self) -> Seq<Seq<char>> {
        types_of(self.fields@)
    }

    /// Every schema that exists at run time has as many types as names, and
    /// no name twice.
    #[verifier::type_invariant]
    pub open spec fn wf(&self) -> bool {
        &&& self.names().len() == self.types().len()
        &&& distinct(self.names())
    }

    /// Makes the schema of a record with the given fields; `None` if two of
    /// them have the same name.
    pub fn new(fields: Vec<Field>) -> (r: Option<Schema>)
        ensures
            r is Some <==> distinct(names_of(fields@)),
            r matches Some(s) ==> s.wf() && s.names() == names_of(fields@) && s.types()
                == types_of(fields@),
    {
        let n = fields.len();
        let mut j: usize = 0;
        while j < n
            invariant
                j <= n,
                n == fields@.len(),
                forall|a: int, b: int| 0 <= a < b < j ==> fields@[a].name@ != fields@[b].name@,
            decreases n - j,
        {
            let mut i: usize = 0;
            while i < j
                invariant
                    i <= j,
                    j < n,
                    n == fields@.len(),
                    forall|a: int| 0 <= a < i ==> fields@[a].name@ != fields@[j as int].name@,
                decreases j - i,
            {
                if fields[i].name == fields[j].name {
                    proof {
                        let names = names_of(fields@);
                        assert(names[i as int] == names[j as int]);
                    }
                    return None;
                }
                i += 1;
            }
            j += 1;
        }
        Some(Schema { fields })
    }

    /// The number of fields.
    pub fn len(&self) -> (n: usize)
        ensures
            n == self.names().len(),
            n == self.types().len(),
    {
        self.fields.len()
    }

    /// The name of field `i`; `None` if the record has no field `i`.
    pub fn name(&self, i: usize) -> (r: Option<&String>)
        ensures
            match r {
                Some(s) => i < self.names().len() && s@ == self.names()[i as int],
                None => i >= self.names().len(),
            },
    {
        if i < self.fields.len() {
            Some(&self.fields[i].name)
        } else {
            None
        }
    }

    /// The name of the type of field `i`; `None` if the record has no
    /// field `i`.
    pub fn type_of(&self, i: usize) -> (r: Option<&String>)
        ensures
            match r {
                Some(s) => i < self.types().len() && s@ == self.types()[i as int],
                None => i >= self.types().len(),
            },
    {
        if i < self.fields.len() {
            Some(&self.fields[i].ty)
        } else {
            None
        }
    }

    /// The position of the field called `name`, if the record has one.
    pub fn index_of(&self, name: &str) -> (r: Option<usize>)
        ensures
            match r {
                Some(i) => i < self.names().len() && self.names()[i as int] == name@,
                None => !self.names().contains(name@),
            },
    {
        let wanted = name.to_owned();
        let mut i: usize = 0;
        while i < self.fields.len()
            invariant
                i <= self.fields@.len(),
                wanted@ == name@,
                forall|a: int| 0 <= a < i ==> self.fields@[a].name@ != name@,
            decreases self.fields@.len() - i,
        {
            if self.fields[i].name == wanted {
                assert(self.names()[i as int] == self.fields@[i as int].name@);
                return Some(i);
            }
            i += 1;
        }
        proof {
            let names = self.names();
            assert forall|a: int| 0 <= a < names.len() implies names[a] != name@ by {
                assert(self.fields@[a].name@ != name@);
            }
        }
        None
    }

    /// Tells whether two schemas describe the same record shape: the same
    /// field names with the same types, in the same order.
    pub fn same_as(&self, other: &Schema) -> (r: bool)
        ensures
            r == (self.names() == other.names() && self.types() == other.types()),
    {
        if self.fields.len() != other.fields.len() {
            assert(self.names().len() != other.names().len());
            return false;
        }
        let mut i: usize = 0;
        while i < self.fields.len()
            invariant
                i <= self.fields@.len(),
                self.fields@.len() == other.fields@.len(),
                forall|a: int|
                    0 <= a < i ==> self.fields@[a].name@ == other.fields@[a].name@
                        && self.fields@[a].ty@ == other.fields@[a].ty@,
            decreases self.fields@.len() - i,
        {
            if self.fields[i].name != other.fields[i].name || self.fields[i].ty
                != other.fields[i].ty {
                proof {
                    let a = i as int;
                    assert(self.names()[a] == self.fields@[a].name@);
                    assert(other.names()[a] == other.fields@[a].name@);
                    assert(self.types()[a] == self.fields@[a].ty@);
                    assert(other.types()[a] == other.fields@[a].ty@);
                }
                return false;
            }
            i += 1;
        }
        proof {
            assert(self.names() =~= other.names());
            assert(self.types() =~= other.types());
        }
        true
    }
}

} // verus!
