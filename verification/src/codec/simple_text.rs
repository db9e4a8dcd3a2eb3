use vstd::prelude::*;
use vstd::string::StringExecFns;

use super::{Codec, FormatKind};

verus! {

/// The codec that is used when none is chosen. None of its formats is
/// written yet.
pub struct SimpleTextCodec {
    name: String,
}

impl SimpleTextCodec {
    pub fn new() -> (codec: SimpleTextCodec)
        ensures
            codec.spec_name() == "SimpleText"@,
    {
        SimpleTextCodec { name: String::from_str("SimpleText") }
    }
}

impl Codec for SimpleTextCodec {
    closed spec fn spec_name(&self) -> Seq<char> {
        self.name@
    }

    fn name(&self) -> (name: &str) {
        self.name.as_str()
    }

    open spec fn provides(&self, kind: FormatKind) -> bool {
        false
    }

    fn has_format(&self, kind: FormatKind) -> (r: bool) {
        false
    }
}

} // verus!
