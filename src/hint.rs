//! Hints: the notifications the client sends the host so that it can make
//! preimages available before they are read.

use vstd::prelude::*;

verus! {

/// The tag of a data-availability blob hint.
pub const EIGEN_DA_BLOB_TAG: &'static str = "eigen-da-blob";

/// A hint kind: one of the base kinds `H`, or a data-availability blob.
#[derive(Clone, Copy, Debug)]
pub enum HintWrapper<H> {
    Standard(H),
    EigenDABlob,
}

/// A tag that neither the base parser nor this one knows.
#[derive(Clone, Copy, Debug, PartialEq, Eq, Structural)]
pub enum HintParsingError {
    UnknownHint,
}

/// What parsing `tag` gives, where `base` is what the base parser made of it.
pub open spec fn parse_spec<H>(tag: Seq<char>, base: Option<H>) -> Result<HintWrapper<H>, HintParsingError> {
    match base {
        Some(h) => Ok(HintWrapper::Standard(h)),
        None => if tag == EIGEN_DA_BLOB_TAG@ {
            Ok(HintWrapper::EigenDABlob)
        } else {
            Err(HintParsingError::UnknownHint)
        },
    }
}

/// The tag of `w`, where `base_tag` is the base printer's tag for a
/// standard hint.
pub open spec fn format_spec<H>(w: HintWrapper<H>, base_tag: Seq<char>) -> Seq<char> {
    match w {
        HintWrapper::Standard(_) => base_tag,
        HintWrapper::EigenDABlob => EIGEN_DA_BLOB_TAG@,
    }
}

impl<H> HintWrapper<H> {
    /// Parses a tag: the base parser's result `base` wins; else the tag must
    /// be the data-availability blob tag.
    pub fn from_tag(tag: &str, base: Option<H>) -> (r: Result<HintWrapper<H>, HintParsingError>)
        ensures
            r == parse_spec(tag@, base),
    {
        match base {
            Some(h) => Ok(HintWrapper::Standard(h)),
            None => {
                let t = tag.to_owned();
                let lit = EIGEN_DA_BLOB_TAG.to_owned();
                if t == lit {
                    Ok(HintWrapper::EigenDABlob)
                } else {
                    Err(HintParsingError::UnknownHint)
                }
            },
        }
    }

    /// The tag of this hint; `base_tag` is the base printer's tag for a
    /// standard hint.
    pub fn to_tag(&self, base_tag: &str) -> (r: String)
        ensures
            r@ == format_spec(*self, base_tag@),
    {
        match self {
            HintWrapper::Standard(_) => base_tag.to_owned(),
            HintWrapper::EigenDABlob => EIGEN_DA_BLOB_TAG.to_owned(),
        }
    }

    /// Whether this hint asks for a data-availability blob.
    pub fn is_eigen_da_blob(&self) -> (r: bool)
        ensures
            r == (*self is EigenDABlob),
    {
        match self {
            HintWrapper::Standard(_) => false,
            HintWrapper::EigenDABlob => true,
        }
    }
}

/// Printing a parsed tag gives the tag back in normal form: the base
/// printer's tag where the base parser knows the tag, else the tag itself.
pub proof fn lemma_parse_then_format<H>(tag: Seq<char>, base: Option<H>, base_tag: Seq<char>)
    requires
        parse_spec(tag, base) is Ok,
    ensures
        format_spec(parse_spec(tag, base)->Ok_0, base_tag) == match base {
            Some(_) => base_tag,
            None => tag,
        },
{
}

} // verus!
