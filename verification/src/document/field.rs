use vstd::prelude::*;
use vstd::string::StringExecFns;

verus! {

/// The bits of the boost factor one, as a 32-bit IEEE 754 number.
pub const DEFAULT_BOOST_BITS: u32 = 0x3f80_0000;

/// A named part of a document. Values are analyzed into terms, keywords are
/// indexed as they stand, and a stored field is kept to be returned with the
/// document.
#[derive(Debug, Clone)]
pub struct Field {
    pub name: String,
    pub value: String,
    /// Whether the value is kept in the index.
    pub is_stored: bool,
    /// Whether the field can be searched.
    pub is_indexed: bool,
    /// Whether the value is split into tokens.
    pub is_analyzed: bool,
    /// The boost factor for scoring, as the bits of a 32-bit IEEE 754 number.
    pub boost_bits: u32,
}

/// How a field is shown: the kind that its three flags give, then name and
/// value.
pub open spec fn field_text(
    name: Seq<char>,
    value: Seq<char>,
    is_stored: bool,
    is_indexed: bool,
    is_analyzed: bool,
) -> Seq<char> {
    let kind = if is_stored && is_indexed && !is_analyzed {
        "Keyword<"@
    } else if is_stored && is_indexed && is_analyzed {
        "Text<"@
    } else if is_stored && !is_indexed && !is_analyzed {
        "UnIndexed<"@
    } else {
        "Field<"@
    };
    kind + name + ":"@ + value + ">"@
}

impl Field {
    /// A field that is indexed and analyzed but not stored.
    pub fn new(name: String, value: String) -> (field: Field)
        ensures
            field.name == name,
            field.value == value,
            !field.is_stored && field.is_indexed && field.is_analyzed,
            field.boost_bits == DEFAULT_BOOST_BITS,
    {
        Field {
            name,
            value,
            is_stored: false,
            is_indexed: true,
            is_analyzed: true,
            boost_bits: DEFAULT_BOOST_BITS,
        }
    }

    /// A field that is stored and indexed as it stands.
    pub fn keyword(name: String, value: String) -> (field: Field)
        ensures
            field.name == name,
            field.value == value,
            field.is_stored && field.is_indexed && !field.is_analyzed,
            field.boost_bits == DEFAULT_BOOST_BITS,
    {
        Field {
            name,
            value,
            is_stored: true,
            is_indexed: true,
            is_analyzed: false,
            boost_bits: DEFAULT_BOOST_BITS,
        }
    }

    /// A field that is stored, indexed and analyzed.
    pub fn text(name: String, value: String) -> (field: Field)
        ensures
            field.name == name,
            field.value == value,
            field.is_stored && field.is_indexed && field.is_analyzed,
            field.boost_bits == DEFAULT_BOOST_BITS,
    {
        Field {
            name,
            value,
            is_stored: true,
            is_indexed: true,
            is_analyzed: true,
            boost_bits: DEFAULT_BOOST_BITS,
        }
    }

    /// A field that is only stored: it is returned with the document but
    /// cannot be searched.
    pub fn unindexed(name: String, value: String) -> (field: Field)
        ensures
            field.name == name,
            field.value == value,
            field.is_stored && !field.is_indexed && !field.is_analyzed,
            field.boost_bits == DEFAULT_BOOST_BITS,
    {
        Field {
            name,
            value,
            is_stored: true,
            is_indexed: false,
            is_analyzed: false,
            boost_bits: DEFAULT_BOOST_BITS,
        }
    }

    pub fn to_string(&self) -> (text: String)
        ensures
            text@ == field_text(
                self.name@,
                self.value@,
                self.is_stored,
                self.is_indexed,
                self.is_analyzed,
            ),
    {
        let mut text = if self.is_stored && self.is_indexed && !self.is_analyzed {
            String::from_str("Keyword<")
        } else if self.is_stored && self.is_indexed && self.is_analyzed {
            String::from_str("Text<")
        } else if self.is_stored && !self.is_indexed && !self.is_analyzed {
            String::from_str("UnIndexed<")
        } else {
            String::from_str("Field<")
        };
        text.append(self.name.as_str());
        text.append(":");
        text.append(self.value.as_str());
        text.append(">");
        text
    }
}

} // verus!
