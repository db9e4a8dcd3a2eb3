use vstd::prelude::*;

pub mod simple_text;

pub use simple_text::SimpleTextCodec;

verus! {

/// The parts of a segment that a codec may give a format for.
#[derive(Debug, Clone, Copy, PartialEq, Eq, Structural)]
pub enum FormatKind {
    Postings,
    DocValues,
    StoredFields,
    TermVectors,
    FieldInfos,
    SegmentInfo,
    Norms,
    LiveDocs,
    Compound,
    Points,
    KnnVectors,
}

/// Encodes and decodes an inverted index.
pub trait Codec {
    /// The name under which the codec is written into file headers.
    spec fn spec_name(&self) -> Seq<char>;

    fn name(&self) -> (name: &str)
        ensures
            name@ == self.spec_name(),
    ;

    /// Whether the codec has a format for this part of a segment.
    spec fn provides(&self, kind: FormatKind) -> bool;

    fn has_format(&self, kind: FormatKind) -> (r: bool)
        ensures
            r == self.provides(kind),
    ;
}

pub trait PostingsFormat {

}

pub trait DocValuesFormat {

}

pub trait StoredFieldsFormat {

}

pub trait TermVectorsFormat {

}

pub trait FieldInfosFormat {

}

pub trait SegmentInfoFormat {

}

pub trait NormsFormat {

}

pub trait LiveDocsFormat {

}

pub trait CompoundFormat {

}

pub trait PointsFormat {

}

pub trait KnnVectorsFormat {

}

} // verus!
