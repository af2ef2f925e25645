//! The schema registry: table definitions keyed by table name and version.

use vstd::prelude::*;

use crate::error::PackError;
use crate::table::{FieldType, TableDefinition};

verus! {

/// Definitions, at most one per table name and version.
pub struct SchemaRegistry {
    pub definitions: Vec<TableDefinition>,
}

/// The definition at `i` is the one for `name` and `version`.
pub open spec fn keyed(defs: Seq<TableDefinition>, i: int, name: Seq<char>, version: u32) -> bool {
    defs[i].table_name@ == name && defs[i].version == version
}

impl SchemaRegistry {
    /// No two definitions share a table name and a version.
    pub open spec fn wf(&self) -> bool {
        forall|i: int, j: int|
            0 <= i < self.definitions@.len() && 0 <= j < self.definitions@.len() && i != j ==> !(
            (#[trigger] self.definitions@[i]).table_name@ == (
            #[trigger] self.definitions@[j]).table_name@ && self.definitions@[i].version
                == self.definitions@[j].version)
    }

    /// Some definition is known for `name` and `version`.
    pub open spec fn knows(&self, name: Seq<char>, version: u32) -> bool {
        exists|i: int| 0 <= i < self.definitions@.len() && keyed(self.definitions@, i, name, version)
    }

    pub fn new() -> (r: Self)
        ensures
            r.wf(),
            r.definitions@.len() == 0,
    {
        SchemaRegistry { definitions: Vec::new() }
    }

    /// The index of the definition for `name` and `version`, if known.
    fn index_of(&self, name: &String, version: u32) -> (r: Option<usize>)
        ensures
            match r {
                Some(i) => i < self.definitions@.len() && keyed(
                    self.definitions@,
                    i as int,
                    name@,
                    version,
                ),
                None => !self.knows(name@, version),
            },
    {
        let mut i: usize = 0;
        while i < self.definitions.len()
            invariant
                i <= self.definitions@.len(),
                forall|k: int| 0 <= k < i ==> !keyed(self.definitions@, k, name@, version),
            decreases self.definitions@.len() - i,
        {
            if self.definitions[i].version == version && self.definitions[i].table_name == *name {
                return Some(i);
            }
            i = i + 1;
        }
        None
    }

    /// The definition of `name` at `version`; `SchemaUnavailable` when none is known,
    /// in which case the table stays raw bytes.
    pub fn lookup(&self, name: &String, version: u32) -> (r: Result<&TableDefinition, PackError>)
        ensures
            self.knows(name@, version) ==> r is Ok && exists|i: int|
                0 <= i < self.definitions@.len() && keyed(self.definitions@, i, name@, version)
                    && self.definitions@[i] == *r->Ok_0,
            !self.knows(name@, version) ==> r == Err::<&TableDefinition, PackError>(
                PackError::SchemaUnavailable,
            ),
    {
        match self.index_of(name, version) {
            Some(i) => Ok(&self.definitions[i]),
            None => Err(PackError::SchemaUnavailable),
        }
    }

    /// Adds a definition, replacing the one with the same table name and version.
    pub fn insert(&mut self, def: TableDefinition)
        requires
            old(self).wf(),
        ensures
            final(self).wf(),
            final(self).knows(def.table_name@, def.version),
            final(self).definitions@.contains(def),
            forall|name: Seq<char>, version: u32|
                !(name == def.table_name@ && version == def.version) ==> (final(self).knows(
                    name,
                    version,
                ) == old(self).knows(name, version)),
    {
        let ghost key = (def.table_name@, def.version);
        match self.index_of(&def.table_name, def.version) {
            Some(i) => {
                let _replaced = self.definitions.remove(i);
                self.definitions.insert(i, def);
                let ghost defs = self.definitions@;
                assert(defs =~= old(self).definitions@.update(i as int, def));
                assert forall|name: Seq<char>, version: u32|
                    !(name == key.0 && version == key.1) implies (self.knows(name, version) == old(
                    self).knows(name, version)) by {
                    if old(self).knows(name, version) {
                        let k = choose|k: int|
                            0 <= k < old(self).definitions@.len() && keyed(
                                old(self).definitions@,
                                k,
                                name,
                                version,
                            );
                        assert(k != i);
                        assert(keyed(defs, k, name, version));
                    }
                    if self.knows(name, version) {
                        let k = choose|k: int|
                            0 <= k < defs.len() && keyed(defs, k, name, version);
                        assert(k != i);
                        assert(keyed(old(self).definitions@, k, name, version));
                    }
                }
                assert(keyed(defs, i as int, key.0, key.1));
                assert(defs[i as int] == def);
                assert forall|a: int, b: int|
                    0 <= a < defs.len() && 0 <= b < defs.len() && a != b implies !((
                    #[trigger] defs[a]).table_name@ == (#[trigger] defs[b]).table_name@
                    && defs[a].version == defs[b].version) by {
                    let od = old(self).definitions@;
                    assert(defs[a].table_name@ == od[a].table_name@ && defs[a].version
                        == od[a].version);
                    assert(defs[b].table_name@ == od[b].table_name@ && defs[b].version
                        == od[b].version);
                }
            },
            None => {
                self.definitions.push(def);
                let ghost defs = self.definitions@;
                let ghost n: int = defs.len() - 1;
                assert(keyed(defs, n as int, key.0, key.1));
                assert(defs[n] == def);
                assert forall|a: int, b: int|
                    0 <= a < defs.len() && 0 <= b < defs.len() && a != b implies !((
                    #[trigger] defs[a]).table_name@ == (#[trigger] defs[b]).table_name@
                    && defs[a].version == defs[b].version) by {
                    let od = old(self).definitions@;
                    if a < n && b < n {
                        assert(defs[a] == od[a] && defs[b] == od[b]);
                    } else if a < n {
                        assert(keyed(od, a, key.0, key.1) == keyed(defs, a, key.0, key.1));
                    } else {
                        assert(keyed(od, b, key.0, key.1) == keyed(defs, b, key.0, key.1));
                    }
                }
                assert forall|name: Seq<char>, version: u32|
                    !(name == key.0 && version == key.1) implies (self.knows(name, version) == old(
                    self).knows(name, version)) by {
                    if old(self).knows(name, version) {
                        let k = choose|k: int|
                            0 <= k < old(self).definitions@.len() && keyed(
                                old(self).definitions@,
                                k,
                                name,
                                version,
                            );
                        assert(keyed(defs, k, name, version));
                    }
                    if self.knows(name, version) {
                        let k = choose|k: int|
                            0 <= k < defs.len() && keyed(defs, k, name, version);
                        assert(k != n as int);
                        assert(keyed(old(self).definitions@, k, name, version));
                    }
                }
            },
        }
    }
}

/// The field type a schema document's tag names, if any.
pub open spec fn type_of_tag(tag: Seq<char>) -> Option<FieldType> {
    if tag == "boolean"@ {
        Some(FieldType::Boolean)
    } else if tag == "string"@ {
        Some(FieldType::Str)
    } else if tag == "string_ascii"@ {
        Some(FieldType::StrAscii)
    } else if tag == "optstring"@ {
        Some(FieldType::OptStr)
    } else if tag == "optstring_ascii"@ {
        Some(FieldType::OptStrAscii)
    } else if tag == "int"@ {
        Some(FieldType::Int)
    } else if tag == "float"@ {
        Some(FieldType::Float)
    } else {
        None
    }
}

impl FieldType {
    /// The field type a schema document's tag names; `UnsupportedFieldType` for a
    /// tag outside the closed set.
    pub fn from_tag(tag: &String) -> (r: Result<FieldType, PackError>)
        ensures
            r == match type_of_tag(tag@) {
                Some(t) => Ok::<FieldType, PackError>(t),
                None => Err(PackError::UnsupportedFieldType),
            },
    {
        if *tag == String::from_str("boolean") {
            Ok(FieldType::Boolean)
        } else if *tag == String::from_str("string") {
            Ok(FieldType::Str)
        } else if *tag == String::from_str("string_ascii") {
            Ok(FieldType::StrAscii)
        } else if *tag == String::from_str("optstring") {
            Ok(FieldType::OptStr)
        } else if *tag == String::from_str("optstring_ascii") {
            Ok(FieldType::OptStrAscii)
        } else if *tag == String::from_str("int") {
            Ok(FieldType::Int)
        } else if *tag == String::from_str("float") {
            Ok(FieldType::Float)
        } else {
            Err(PackError::UnsupportedFieldType)
        }
    }
}

/// Some field's type tag names no known type.
pub open spec fn has_unknown_tag(fields: Seq<(String, String)>) -> bool {
    exists|i: int| 0 <= i < fields.len() && type_of_tag((#[trigger] fields[i]).1@) is None
}

impl TableDefinition {
    /// The definition a schema document gives for one table version: its fields in
    /// order, each as a name and a type tag. `UnsupportedFieldType` when a tag is
    /// outside the closed set.
    pub fn from_tags(table_name: String, version: u32, fields: &Vec<(String, String)>) -> (r:
        Result<TableDefinition, PackError>)
        ensures
            has_unknown_tag(fields@) ==> r == Err::<TableDefinition, PackError>(
                PackError::UnsupportedFieldType,
            ),
            !has_unknown_tag(fields@) ==> r is Ok && r->Ok_0.table_name@ == table_name@
                && r->Ok_0.version == version && r->Ok_0.fields@.len() == fields@.len() && forall|
                i: int,
            |
                0 <= i < fields@.len() ==> (#[trigger] r->Ok_0.fields@[i]).name@ == fields@[i].0@
                    && Some(r->Ok_0.fields@[i].field_type) == type_of_tag(fields@[i].1@),
    {
        let mut def = TableDefinition::new(table_name, version);
        let mut i: usize = 0;
        while i < fields.len()
            invariant
                i <= fields@.len(),
                def.table_name@ == table_name@,
                def.version == version,
                def.fields@.len() == i,
                forall|k: int|
                    0 <= k < i ==> (#[trigger] def.fields@[k]).name@ == fields@[k].0@ && Some(
                        def.fields@[k].field_type,
                    ) == type_of_tag(fields@[k].1@),
            decreases fields@.len() - i,
        {
            let (name, tag) = &fields[i];
            match FieldType::from_tag(tag) {
                Ok(t) => {
                    def.push_field(name.clone(), t);
                },
                Err(e) => {
                    assert(type_of_tag(fields@[i as int].1@) is None);
                    return Err(e);
                },
            }
            i = i + 1;
        }
        assert forall|k: int| 0 <= k < fields@.len() implies type_of_tag(
            (#[trigger] fields@[k]).1@,
        ) is Some by {
            assert(Some(def.fields@[k].field_type) == type_of_tag(fields@[k].1@));
        }
        Ok(def)
    }
}

} // verus!
