//! The kinds of tagged symbols and their one-character codes.
//!
//! A tags file names the kind of a symbol by a single character, and the same
//! character means different things in different languages: `f` is a function
//! in Rust, a method in Ruby and a field in Java. The table below is therefore
//! keyed by language. A character that the table does not hold for the
//! language at hand is kept as [`TokenKind::Unknown`], so that it can be
//! written back unchanged.

use crate::language::Language;
use vstd::prelude::*;

verus! {

/// The syntactic category of a tagged symbol.
#[derive(Clone, Copy, Debug, PartialEq, Eq, Hash, Structural)]
pub enum TokenKind {
    /// An attribute accessor.
    Accessor,
    /// Another name for an existing symbol.
    Alias,
    /// An annotation type.
    Annotation,
    /// A class.
    Class,
    /// A constant.
    Constant,
    /// An enumeration type.
    Enum,
    /// One value of an enumeration.
    Enumerator,
    /// A field of a structure or class.
    Field,
    /// A free function.
    Function,
    /// A generator function.
    Generator,
    /// A property getter.
    Getter,
    /// An implementation block.
    Implementation,
    /// An interface or trait.
    Interface,
    /// A required library.
    Library,
    /// A macro.
    Macro,
    /// A method.
    Method,
    /// A module.
    Module,
    /// A namespace.
    Namespace,
    /// A package.
    Package,
    /// A property.
    Property,
    /// A function declared without a body.
    Prototype,
    /// A property setter.
    Setter,
    /// A method defined on a single object.
    SingletonMethod,
    /// A structure.
    Struct,
    /// A named type.
    TypeAlias,
    /// A union.
    Union,
    /// A variable.
    Variable,
    /// The line named no kind at all.
    Undefined,
    /// The line named a kind by a character that the table does not hold for
    /// the file's language; the character is kept.
    Unknown(char),
}

/// The character written for a kind that has no code in the language at hand.
pub const PLACEHOLDER_CODE: char = '?';

/// The table, read from code to kind: the kind that `c` names in `language`.
pub open spec fn table_kind(language: Language, c: char) -> Option<TokenKind> {
    match language {
        Language::C => match c {
            'd' => Some(TokenKind::Macro),
            'e' => Some(TokenKind::Enumerator),
            'f' => Some(TokenKind::Function),
            'g' => Some(TokenKind::Enum),
            'm' => Some(TokenKind::Field),
            'p' => Some(TokenKind::Prototype),
            's' => Some(TokenKind::Struct),
            't' => Some(TokenKind::TypeAlias),
            'u' => Some(TokenKind::Union),
            'v' => Some(TokenKind::Variable),
            _ => None,
        },
        Language::Go => match c {
            'a' => Some(TokenKind::Alias),
            'c' => Some(TokenKind::Constant),
            'f' => Some(TokenKind::Function),
            'i' => Some(TokenKind::Interface),
            'm' => Some(TokenKind::Field),
            'p' => Some(TokenKind::Package),
            's' => Some(TokenKind::Struct),
            't' => Some(TokenKind::TypeAlias),
            'v' => Some(TokenKind::Variable),
            _ => None,
        },
        Language::Java => match c {
            'a' => Some(TokenKind::Annotation),
            'c' => Some(TokenKind::Class),
            'e' => Some(TokenKind::Enumerator),
            'f' => Some(TokenKind::Field),
            'g' => Some(TokenKind::Enum),
            'i' => Some(TokenKind::Interface),
            'm' => Some(TokenKind::Method),
            'p' => Some(TokenKind::Package),
            _ => None,
        },
        Language::JavaScript => match c {
            'C' => Some(TokenKind::Constant),
            'G' => Some(TokenKind::Getter),
            'M' => Some(TokenKind::Field),
            'S' => Some(TokenKind::Setter),
            'c' => Some(TokenKind::Class),
            'f' => Some(TokenKind::Function),
            'g' => Some(TokenKind::Generator),
            'm' => Some(TokenKind::Method),
            'p' => Some(TokenKind::Property),
            'v' => Some(TokenKind::Variable),
            _ => None,
        },
        Language::Python => match c {
            'I' => Some(TokenKind::Namespace),
            'c' => Some(TokenKind::Class),
            'f' => Some(TokenKind::Function),
            'i' => Some(TokenKind::Module),
            'm' => Some(TokenKind::Method),
            'v' => Some(TokenKind::Variable),
            _ => None,
        },
        Language::Ruby => match c {
            'A' => Some(TokenKind::Accessor),
            'C' => Some(TokenKind::Constant),
            'L' => Some(TokenKind::Library),
            'S' => Some(TokenKind::SingletonMethod),
            'a' => Some(TokenKind::Alias),
            'c' => Some(TokenKind::Class),
            'f' => Some(TokenKind::Method),
            'm' => Some(TokenKind::Module),
            _ => None,
        },
        Language::Rust => match c {
            'C' => Some(TokenKind::Constant),
            'M' => Some(TokenKind::Macro),
            'P' => Some(TokenKind::Method),
            'c' => Some(TokenKind::Implementation),
            'e' => Some(TokenKind::Enumerator),
            'f' => Some(TokenKind::Function),
            'g' => Some(TokenKind::Enum),
            'i' => Some(TokenKind::Interface),
            'm' => Some(TokenKind::Field),
            'n' => Some(TokenKind::Module),
            's' => Some(TokenKind::Struct),
            't' => Some(TokenKind::TypeAlias),
            'v' => Some(TokenKind::Variable),
            _ => None,
        },
        Language::TypeScript => match c {
            'C' => Some(TokenKind::Constant),
            'G' => Some(TokenKind::Generator),
            'a' => Some(TokenKind::Alias),
            'c' => Some(TokenKind::Class),
            'e' => Some(TokenKind::Enumerator),
            'f' => Some(TokenKind::Function),
            'g' => Some(TokenKind::Enum),
            'i' => Some(TokenKind::Interface),
            'm' => Some(TokenKind::Method),
            'n' => Some(TokenKind::Namespace),
            'p' => Some(TokenKind::Property),
            'v' => Some(TokenKind::Variable),
            _ => None,
        },
    }
}

/// The table, read from kind to code: the character that names `kind` in
/// `language`.
pub open spec fn table_code(language: Language, kind: TokenKind) -> Option<char> {
    match language {
        Language::C => match kind {
            TokenKind::Enum => Some('g'),
            TokenKind::Enumerator => Some('e'),
            TokenKind::Field => Some('m'),
            TokenKind::Function => Some('f'),
            TokenKind::Macro => Some('d'),
            TokenKind::Prototype => Some('p'),
            TokenKind::Struct => Some('s'),
            TokenKind::TypeAlias => Some('t'),
            TokenKind::Union => Some('u'),
            TokenKind::Variable => Some('v'),
            _ => None,
        },
        Language::Go => match kind {
            TokenKind::Alias => Some('a'),
            TokenKind::Constant => Some('c'),
            TokenKind::Field => Some('m'),
            TokenKind::Function => Some('f'),
            TokenKind::Interface => Some('i'),
            TokenKind::Package => Some('p'),
            TokenKind::Struct => Some('s'),
            TokenKind::TypeAlias => Some('t'),
            TokenKind::Variable => Some('v'),
            _ => None,
        },
        Language::Java => match kind {
            TokenKind::Annotation => Some('a'),
            TokenKind::Class => Some('c'),
            TokenKind::Enum => Some('g'),
            TokenKind::Enumerator => Some('e'),
            TokenKind::Field => Some('f'),
            TokenKind::Interface => Some('i'),
            TokenKind::Method => Some('m'),
            TokenKind::Package => Some('p'),
            _ => None,
        },
        Language::JavaScript => match kind {
            TokenKind::Class => Some('c'),
            TokenKind::Constant => Some('C'),
            TokenKind::Field => Some('M'),
            TokenKind::Function => Some('f'),
            TokenKind::Generator => Some('g'),
            TokenKind::Getter => Some('G'),
            TokenKind::Method => Some('m'),
            TokenKind::Property => Some('p'),
            TokenKind::Setter => Some('S'),
            TokenKind::Variable => Some('v'),
            _ => None,
        },
        Language::Python => match kind {
            TokenKind::Class => Some('c'),
            TokenKind::Function => Some('f'),
            TokenKind::Method => Some('m'),
            TokenKind::Module => Some('i'),
            TokenKind::Namespace => Some('I'),
            TokenKind::Variable => Some('v'),
            _ => None,
        },
        Language::Ruby => match kind {
            TokenKind::Accessor => Some('A'),
            TokenKind::Alias => Some('a'),
            TokenKind::Class => Some('c'),
            TokenKind::Constant => Some('C'),
            TokenKind::Library => Some('L'),
            TokenKind::Method => Some('f'),
            TokenKind::Module => Some('m'),
            TokenKind::SingletonMethod => Some('S'),
            _ => None,
        },
        Language::Rust => match kind {
            TokenKind::Constant => Some('C'),
            TokenKind::Enum => Some('g'),
            TokenKind::Enumerator => Some('e'),
            TokenKind::Field => Some('m'),
            TokenKind::Function => Some('f'),
            TokenKind::Implementation => Some('c'),
            TokenKind::Interface => Some('i'),
            TokenKind::Macro => Some('M'),
            TokenKind::Method => Some('P'),
            TokenKind::Module => Some('n'),
            TokenKind::Struct => Some('s'),
            TokenKind::TypeAlias => Some('t'),
            TokenKind::Variable => Some('v'),
            _ => None,
        },
        Language::TypeScript => match kind {
            TokenKind::Alias => Some('a'),
            TokenKind::Class => Some('c'),
            TokenKind::Constant => Some('C'),
            TokenKind::Enum => Some('g'),
            TokenKind::Enumerator => Some('e'),
            TokenKind::Function => Some('f'),
            TokenKind::Generator => Some('G'),
            TokenKind::Interface => Some('i'),
            TokenKind::Method => Some('m'),
            TokenKind::Namespace => Some('n'),
            TokenKind::Property => Some('p'),
            TokenKind::Variable => Some('v'),
            _ => None,
        },
    }
}

/// The kind that the character `c` names in a file of `language`: the table's
/// entry where it has one, and `Unknown(c)` otherwise, which is also the
/// answer for every character where the language is not known.
pub open spec fn kind_of_char(c: char, language: Option<Language>) -> TokenKind {
    match language {
        Some(l) => match table_kind(l, c) {
            Some(kind) => kind,
            None => TokenKind::Unknown(c),
        },
        None => TokenKind::Unknown(c),
    }
}

/// The character written for `kind` in a file of `language`: the kept
/// character of an unknown kind, the table's code where the language has one
/// for the kind, and the placeholder otherwise.
pub open spec fn char_of_kind(kind: TokenKind, language: Option<Language>) -> char {
    match kind {
        TokenKind::Unknown(c) => c,
        _ => match language {
            Some(l) => match table_code(l, kind) {
                Some(c) => c,
                None => PLACEHOLDER_CODE,
            },
            None => PLACEHOLDER_CODE,
        },
    }
}

/// Whether `kind` is what some character names in `language`, that is, what
/// reading a kind field can give.
pub open spec fn kind_fits(kind: TokenKind, language: Option<Language>) -> bool {
    kind_of_char(char_of_kind(kind, language), language) == kind
}

/// The two readings of the table agree: `c` names `kind` exactly where `kind`
/// is written as `c`.
pub proof fn lemma_table_is_a_bijection(language: Language, c: char, kind: TokenKind)
    ensures
        table_kind(language, c) == Some(kind) <==> table_code(language, kind) == Some(c),
        table_kind(language, c) != Some(TokenKind::Undefined),
        !(table_kind(language, c) matches Some(TokenKind::Unknown(_))),
{
}

/// Writing the kind that a character was read as gives the character back,
/// whatever the character and the language.
pub proof fn lemma_char_round_trip(c: char, language: Option<Language>)
    ensures
        char_of_kind(kind_of_char(c, language), language) == c,
        kind_of_char(c, language) != TokenKind::Undefined,
        kind_fits(kind_of_char(c, language), language),
{
    if let Some(l) = language {
        if let Some(kind) = table_kind(l, c) {
            lemma_table_is_a_bijection(l, c, kind);
        }
    }
}

/// A character that the table does not hold for the language is kept as it
/// is, and written back as it is.
pub proof fn lemma_unrecognized_char_is_kept(c: char, language: Option<Language>)
    requires
        language matches Some(l) ==> table_kind(l, c) is None,
    ensures
        kind_of_char(c, language) == TokenKind::Unknown(c),
        char_of_kind(TokenKind::Unknown(c), language) == c,
{
}

/// Reading the character that a kind is written as gives the kind back, for
/// every kind that the language's table holds.
pub proof fn lemma_kind_round_trip(kind: TokenKind, language: Language)
    requires
        table_code(language, kind) is Some,
    ensures
        kind_of_char(char_of_kind(kind, Some(language)), Some(language)) == kind,
{
    lemma_table_is_a_bijection(language, table_code(language, kind).unwrap(), kind);
}

impl TokenKind {
    /// The kind that the one-character code `c` names in a file of
    /// `language`. A code that the language's table does not hold, and every
    /// code where the language is not known, gives `Unknown(c)`; the result is
    /// never `Undefined`.
    pub fn from_char(c: char, language: Option<Language>) -> (kind: TokenKind)
        ensures
            kind == kind_of_char(c, language),
            kind != TokenKind::Undefined,
            char_of_kind(kind, language) == c,
    {
        proof {
            lemma_char_round_trip(c, language);
        }
        match language {
            Some(Language::C) => match c {
                'd' => TokenKind::Macro,
                'e' => TokenKind::Enumerator,
                'f' => TokenKind::Function,
                'g' => TokenKind::Enum,
                'm' => TokenKind::Field,
                'p' => TokenKind::Prototype,
                's' => TokenKind::Struct,
                't' => TokenKind::TypeAlias,
                'u' => TokenKind::Union,
                'v' => TokenKind::Variable,
                _ => TokenKind::Unknown(c),
            },
            Some(Language::Go) => match c {
                'a' => TokenKind::Alias,
                'c' => TokenKind::Constant,
                'f' => TokenKind::Function,
                'i' => TokenKind::Interface,
                'm' => TokenKind::Field,
                'p' => TokenKind::Package,
                's' => TokenKind::Struct,
                't' => TokenKind::TypeAlias,
                'v' => TokenKind::Variable,
                _ => TokenKind::Unknown(c),
            },
            Some(Language::Java) => match c {
                'a' => TokenKind::Annotation,
                'c' => TokenKind::Class,
                'e' => TokenKind::Enumerator,
                'f' => TokenKind::Field,
                'g' => TokenKind::Enum,
                'i' => TokenKind::Interface,
                'm' => TokenKind::Method,
                'p' => TokenKind::Package,
                _ => TokenKind::Unknown(c),
            },
            Some(Language::JavaScript) => match c {
                'C' => TokenKind::Constant,
                'G' => TokenKind::Getter,
                'M' => TokenKind::Field,
                'S' => TokenKind::Setter,
                'c' => TokenKind::Class,
                'f' => TokenKind::Function,
                'g' => TokenKind::Generator,
                'm' => TokenKind::Method,
                'p' => TokenKind::Property,
                'v' => TokenKind::Variable,
                _ => TokenKind::Unknown(c),
            },
            Some(Language::Python) => match c {
                'I' => TokenKind::Namespace,
                'c' => TokenKind::Class,
                'f' => TokenKind::Function,
                'i' => TokenKind::Module,
                'm' => TokenKind::Method,
                'v' => TokenKind::Variable,
                _ => TokenKind::Unknown(c),
            },
            Some(Language::Ruby) => match c {
                'A' => TokenKind::Accessor,
                'C' => TokenKind::Constant,
                'L' => TokenKind::Library,
                'S' => TokenKind::SingletonMethod,
                'a' => TokenKind::Alias,
                'c' => TokenKind::Class,
                'f' => TokenKind::Method,
                'm' => TokenKind::Module,
                _ => TokenKind::Unknown(c),
            },
            Some(Language::Rust) => match c {
                'C' => TokenKind::Constant,
                'M' => TokenKind::Macro,
                'P' => TokenKind::Method,
                'c' => TokenKind::Implementation,
                'e' => TokenKind::Enumerator,
                'f' => TokenKind::Function,
                'g' => TokenKind::Enum,
                'i' => TokenKind::Interface,
                'm' => TokenKind::Field,
                'n' => TokenKind::Module,
                's' => TokenKind::Struct,
                't' => TokenKind::TypeAlias,
                'v' => TokenKind::Variable,
                _ => TokenKind::Unknown(c),
            },
            Some(Language::TypeScript) => match c {
                'C' => TokenKind::Constant,
                'G' => TokenKind::Generator,
                'a' => TokenKind::Alias,
                'c' => TokenKind::Class,
                'e' => TokenKind::Enumerator,
                'f' => TokenKind::Function,
                'g' => TokenKind::Enum,
                'i' => TokenKind::Interface,
                'm' => TokenKind::Method,
                'n' => TokenKind::Namespace,
                'p' => TokenKind::Property,
                'v' => TokenKind::Variable,
                _ => TokenKind::Unknown(c),
            },
            None => TokenKind::Unknown(c),
        }
    }

    /// The one-character code written for this kind in a file of `language`:
    /// the inverse of [`TokenKind::from_char`]. An unknown kind gives the
    /// character it has kept. A kind without a code in the language, which no
    /// reading produces, gives [`PLACEHOLDER_CODE`].
    pub fn to_token_char(&self, language: Option<Language>) -> (c: char)
        ensures
            c == char_of_kind(*self, language),
            kind_fits(*self, language) ==> kind_of_char(c, language) == *self,
    {
        match self {
            TokenKind::Unknown(c) => *c,
            _ => match language {
                Some(Language::C) => match self {
                    TokenKind::Enum => 'g',
                    TokenKind::Enumerator => 'e',
                    TokenKind::Field => 'm',
                    TokenKind::Function => 'f',
                    TokenKind::Macro => 'd',
                    TokenKind::Prototype => 'p',
                    TokenKind::Struct => 's',
                    TokenKind::TypeAlias => 't',
                    TokenKind::Union => 'u',
                    TokenKind::Variable => 'v',
                    _ => PLACEHOLDER_CODE,
                },
                Some(Language::Go) => match self {
                    TokenKind::Alias => 'a',
                    TokenKind::Constant => 'c',
                    TokenKind::Field => 'm',
                    TokenKind::Function => 'f',
                    TokenKind::Interface => 'i',
                    TokenKind::Package => 'p',
                    TokenKind::Struct => 's',
                    TokenKind::TypeAlias => 't',
                    TokenKind::Variable => 'v',
                    _ => PLACEHOLDER_CODE,
                },
                Some(Language::Java) => match self {
                    TokenKind::Annotation => 'a',
                    TokenKind::Class => 'c',
                    TokenKind::Enum => 'g',
                    TokenKind::Enumerator => 'e',
                    TokenKind::Field => 'f',
                    TokenKind::Interface => 'i',
                    TokenKind::Method => 'm',
                    TokenKind::Package => 'p',
                    _ => PLACEHOLDER_CODE,
                },
                Some(Language::JavaScript) => match self {
                    TokenKind::Class => 'c',
                    TokenKind::Constant => 'C',
                    TokenKind::Field => 'M',
                    TokenKind::Function => 'f',
                    TokenKind::Generator => 'g',
                    TokenKind::Getter => 'G',
                    TokenKind::Method => 'm',
                    TokenKind::Property => 'p',
                    TokenKind::Setter => 'S',
                    TokenKind::Variable => 'v',
                    _ => PLACEHOLDER_CODE,
                },
                Some(Language::Python) => match self {
                    TokenKind::Class => 'c',
                    TokenKind::Function => 'f',
                    TokenKind::Method => 'm',
                    TokenKind::Module => 'i',
                    TokenKind::Namespace => 'I',
                    TokenKind::Variable => 'v',
                    _ => PLACEHOLDER_CODE,
                },
                Some(Language::Ruby) => match self {
                    TokenKind::Accessor => 'A',
                    TokenKind::Alias => 'a',
                    TokenKind::Class => 'c',
                    TokenKind::Constant => 'C',
                    TokenKind::Library => 'L',
                    TokenKind::Method => 'f',
                    TokenKind::Module => 'm',
                    TokenKind::SingletonMethod => 'S',
                    _ => PLACEHOLDER_CODE,
                },
                Some(Language::Rust) => match self {
                    TokenKind::Constant => 'C',
                    TokenKind::Enum => 'g',
                    TokenKind::Enumerator => 'e',
                    TokenKind::Field => 'm',
                    TokenKind::Function => 'f',
                    TokenKind::Implementation => 'c',
                    TokenKind::Interface => 'i',
                    TokenKind::Macro => 'M',
                    TokenKind::Method => 'P',
                    TokenKind::Module => 'n',
                    TokenKind::Struct => 's',
                    TokenKind::TypeAlias => 't',
                    TokenKind::Variable => 'v',
                    _ => PLACEHOLDER_CODE,
                },
                Some(Language::TypeScript) => match self {
                    TokenKind::Alias => 'a',
                    TokenKind::Class => 'c',
                    TokenKind::Constant => 'C',
                    TokenKind::Enum => 'g',
                    TokenKind::Enumerator => 'e',
                    TokenKind::Function => 'f',
                    TokenKind::Generator => 'G',
                    TokenKind::Interface => 'i',
                    TokenKind::Method => 'm',
                    TokenKind::Namespace => 'n',
                    TokenKind::Property => 'p',
                    TokenKind::Variable => 'v',
                    _ => PLACEHOLDER_CODE,
                },
                None => PLACEHOLDER_CODE,
            },
        }
    }
}

} // verus!
