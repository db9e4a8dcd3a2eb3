use vstd::prelude::*;
use vstd::string::StringExecFns;

use super::field::{field_text, Field};
use crate::store::util::str_eq;

verus! {

/// A list of fields: the unit of indexing and search.
#[derive(Debug, Clone)]
pub struct Document {
    pub fields: Vec<Field>,
}

/// The place of the first field of that name, or the number of fields when
/// there is none.
pub open spec fn first_named(fields: Seq<Field>, name: Seq<char>) -> int
    decreases fields.len(),
{
    if fields.len() == 0 || fields[0].name@ == name {
        0
    } else {
        1 + first_named(fields.skip(1), name)
    }
}

/// The fields as they are shown, with a space between one and the next.
pub open spec fn fields_text(fields: Seq<Field>) -> Seq<char>
    decreases fields.len(),
{
    if fields.len() == 0 {
        Seq::empty()
    } else {
        let last = fields.last();
        let shown = field_text(
            last.name@,
            last.value@,
            last.is_stored,
            last.is_indexed,
            last.is_analyzed,
        );
        if fields.len() == 1 {
            shown
        } else {
            fields_text(fields.drop_last()) + " "@ + shown
        }
    }
}

impl Document {
    /// A document without fields.
    pub fn new() -> (doc: Document)
        ensures
            doc.fields@.len() == 0,
    {
        Document { fields: Vec::new() }
    }

    pub fn add(&mut self, field: Field)
        ensures
            final(self).fields@ == old(self).fields@.push(field),
    {
        self.fields.push(field);
    }

    /// The first field of that name.
    pub fn get_field(&self, name: &str) -> (r: Option<&Field>)
        ensures
            match r {
                Some(field) => first_named(self.fields@, name@) < self.fields@.len() && *field
                    == self.fields@[first_named(self.fields@, name@)],
                None => first_named(self.fields@, name@) == self.fields@.len(),
            },
    {
        let mut i: usize = 0;
        proof {
            assert(self.fields@.skip(0) =~= self.fields@);
        }
        while i < self.fields.len()
            invariant
                i <= self.fields@.len(),
                first_named(self.fields@, name@) == i + first_named(
                    self.fields@.skip(i as int),
                    name@,
                ),
            decreases self.fields@.len() - i,
        {
            if str_eq(self.fields[i].name.as_str(), name) {
                return Some(&self.fields[i]);
            }
            proof {
                assert(self.fields@.skip(i as int).skip(1) =~= self.fields@.skip(i + 1));
            }
            i = i + 1;
        }
        None
    }

    /// The value of the first field of that name.
    pub fn get(&self, name: &str) -> (r: Option<&str>)
        ensures
            match r {
                Some(value) => first_named(self.fields@, name@) < self.fields@.len() && value@
                    == self.fields@[first_named(self.fields@, name@)].value@,
                None => first_named(self.fields@, name@) == self.fields@.len(),
            },
    {
        match self.get_field(name) {
            Some(field) => Some(field.value.as_str()),
            None => None,
        }
    }

    pub fn to_string(&self) -> (text: String)
        ensures
            text@ == "Document<"@ + fields_text(self.fields@) + ">"@,
    {
        let mut text = String::from_str("Document<");
        let mut i: usize = 0;
        while i < self.fields.len()
            invariant
                i <= self.fields@.len(),
                text@ == "Document<"@ + fields_text(self.fields@.take(i as int)),
            decreases self.fields@.len() - i,
        {
            proof {
                assert(self.fields@.take(i + 1).drop_last() =~= self.fields@.take(i as int));
            }
            if i > 0 {
                text.append(" ");
            }
            let shown = self.fields[i].to_string();
            text.append(shown.as_str());
            i = i + 1;
        }
        proof {
            assert(self.fields@.take(i as int) =~= self.fields@);
        }
        text.append(">");
        text
    }
}

} // verus!
