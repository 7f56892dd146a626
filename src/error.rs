use vstd::prelude::*;

verus! {

/// Errors returned by `LanguageTag` parsing.
#[derive(Debug, Clone, Copy, PartialEq, Eq, Structural)]
pub enum ParseError {
    /// If an extension subtag is present, it must not be empty.
    EmptyExtension,
    /// If the `x` subtag is present, it must not be empty.
    EmptyPrivateUse,
    /// The langtag contains a char that is not A-Z, a-z, 0-9 or the dash.
    ForbiddenChar,
    /// A subtag fails to parse, it does not match any other subtags.
    InvalidSubtag,
    /// The given language subtag is invalid.
    InvalidLanguage,
    /// A subtag may be eight characters in length at maximum.
    SubtagTooLong,
    /// A subtag should not be empty.
    EmptySubtag,
    /// At maximum three extlangs are allowed, but zero to one extlangs are preferred.
    TooManyExtlangs,
}

/// The sentence that describes each parse error.
pub open spec fn parse_error_text(e: ParseError) -> &'static str {
    match e {
        ParseError::EmptyExtension => "If an extension subtag is present, it must not be empty",
        ParseError::EmptyPrivateUse => "If the `x` subtag is present, it must not be empty",
        ParseError::ForbiddenChar => "The langtag contains a char not allowed",
        ParseError::InvalidSubtag => "A subtag fails to parse, it does not match any other subtags",
        ParseError::InvalidLanguage => "The given language subtag is invalid",
        ParseError::SubtagTooLong => "A subtag may be eight characters in length at maximum",
        ParseError::EmptySubtag => "A subtag should not be empty",
        ParseError::TooManyExtlangs => "At maximum three extlangs are allowed",
    }
}

impl ParseError {
    /// A sentence that describes the error.
    pub fn description(&self) -> (r: &'static str)
        ensures
            r@ == parse_error_text(*self)@,
    {
        match self {
            ParseError::EmptyExtension => "If an extension subtag is present, it must not be empty",
            ParseError::EmptyPrivateUse => "If the `x` subtag is present, it must not be empty",
            ParseError::ForbiddenChar => "The langtag contains a char not allowed",
            ParseError::InvalidSubtag => "A subtag fails to parse, it does not match any other subtags",
            ParseError::InvalidLanguage => "The given language subtag is invalid",
            ParseError::SubtagTooLong => "A subtag may be eight characters in length at maximum",
            ParseError::EmptySubtag => "A subtag should not be empty",
            ParseError::TooManyExtlangs => "At maximum three extlangs are allowed",
        }
    }
}

/// Errors returned by the `LanguageTag` validation.
#[derive(Debug, Clone, Copy, PartialEq, Eq, Structural)]
pub enum ValidationError {
    /// The same variant subtag is only allowed once in a tag.
    DuplicateVariant,
    /// The same extension subtag is only allowed once in a tag before the private use part.
    DuplicateExtension,
    /// Only one extended language subtag is allowed.
    MultipleExtendedLanguageSubtags,
}

/// The sentence that describes each validation error.
pub open spec fn validation_error_text(e: ValidationError) -> &'static str {
    match e {
        ValidationError::DuplicateVariant => "The same variant subtag is only allowed once in a tag",
        ValidationError::DuplicateExtension => "The same extension subtag is only allowed once in a tag",
        ValidationError::MultipleExtendedLanguageSubtags => "only one extended language subtag is allowed",
    }
}

impl ValidationError {
    /// A sentence that describes the error.
    pub fn description(&self) -> (r: &'static str)
        ensures
            r@ == validation_error_text(*self)@,
    {
        match self {
            ValidationError::DuplicateVariant => "The same variant subtag is only allowed once in a tag",
            ValidationError::DuplicateExtension => "The same extension subtag is only allowed once in a tag",
            ValidationError::MultipleExtendedLanguageSubtags => "only one extended language subtag is allowed",
        }
    }
}

} // verus!
