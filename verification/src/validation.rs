//! Validation of locale codes, translation keys, paths and configuration.

use vstd::prelude::*;

use crate::locales::{get_supported_locale_codes, is_roblox_locale, roblox_codes};
use crate::text::{chars_of, is_whitespace, is_ws, string_of};

verus! {

/// Why a value was refused.
#[derive(Debug, Clone, PartialEq)]
pub enum ValidationError {
    /// The locale is not one that Roblox supports.
    UnsupportedLocale(String),
    /// The translation key is empty.
    EmptyKey,
    /// The translation key starts with a dot.
    LeadingDot(String),
    /// The translation key ends with a dot.
    TrailingDot(String),
    /// The translation key holds two dots in a row.
    ConsecutiveDots(String),
    /// The translation key holds a character reserved by file systems.
    ReservedCharacter(String, char),
    /// The translation key holds white space.
    Whitespace(String),
    /// A required file does not exist.
    FileNotFound { what: String, path: String },
    /// A required directory does not exist.
    DirectoryNotFound { what: String, path: String },
    /// A path that should name a file names something else.
    NotAFile { what: String, path: String },
    /// A path that should name a directory names something else.
    NotADirectory { what: String, path: String },
    /// A path climbs out with `..`.
    PathTraversal(String),
    /// An absolute path lies outside the project directory.
    OutsideProject(String),
    /// The configured base locale is not supported.
    BaseLocale(String),
    /// A configured supported locale is not supported.
    SupportedLocale(String),
    /// The configured namespace is empty.
    EmptyNamespace,
    /// The configured namespace holds a character other than an ASCII
    /// letter, an ASCII digit or `_`.
    NamespaceCharacters(String),
    /// The configured namespace starts with a digit.
    NamespaceDigit(String),
}

fn cat(mut s: String, t: &str) -> (r: String)
    ensures
        r@ == s@ + t@,
{
    s.append(t);
    s
}

/// Texts joined with `, ` between them.
pub open spec fn comma_joined(cs: Seq<Seq<char>>) -> Seq<char>
    decreases cs.len(),
{
    if cs.len() == 0 {
        Seq::empty()
    } else if cs.len() == 1 {
        cs[0]
    } else {
        comma_joined(cs.drop_last()) + ", "@ + cs.last()
    }
}

/// The message for a locale that Roblox does not support, with the list of
/// those it does.
pub open spec fn unsupported_text(locale: Seq<char>) -> Seq<char> {
    "Unsupported locale '"@ + locale + "'\n\nRoblox supports these locales:\n"@ + comma_joined(
        roblox_codes(),
    )
}

/// The message for each error.
pub open spec fn validation_message(e: ValidationError) -> Seq<char> {
    match e {
        ValidationError::UnsupportedLocale(l) => unsupported_text(l@),
        ValidationError::EmptyKey => "Translation key cannot be empty"@,
        ValidationError::LeadingDot(k) => "Invalid translation key '"@ + k@
            + "': Cannot start with a dot\n\nFix: Remove the leading dot\nExample: '.ui.button' → 'ui.button'"@,
        ValidationError::TrailingDot(k) => "Invalid translation key '"@ + k@
            + "': Cannot end with a dot\n\nFix: Remove the trailing dot\nExample: 'ui.button.' → 'ui.button'"@,
        ValidationError::ConsecutiveDots(k) => "Invalid translation key '"@ + k@
            + "': Cannot contain consecutive dots\n\nFix: Remove extra dots\nExample: 'ui..button' → 'ui.button'"@,
        ValidationError::ReservedCharacter(k, c) => "Invalid translation key '"@ + k@
            + "': Contains reserved character '"@ + seq![c]
            + "'\n\nReserved characters that cannot be used in keys:\n/ \\ : * ? \" < > | (null)\n\nThese characters are reserved for file system compatibility."@,
        ValidationError::Whitespace(k) => "Invalid translation key '"@ + k@
            + "': Cannot contain whitespace\n\nFix: Replace spaces with dots or underscores\nExample: 'ui button' → 'ui.button' or 'ui_button'"@,
        ValidationError::FileNotFound { what, path } => what@ + " not found: "@ + path@
            + "\n\nCheck that the file exists at the specified path.\n\nIf you're starting a new project, run:\nroblox-slang init"@,
        ValidationError::DirectoryNotFound { what, path } => what@ + " not found: "@ + path@
            + "\n\nCheck that the directory exists at the specified path.\n\nIf you're starting a new project, run:\nroblox-slang init"@,
        ValidationError::NotAFile { what, path } => what@ + " is not a file: "@ + path@
            + "\n\nExpected a file, but found a directory."@,
        ValidationError::NotADirectory { what, path } => what@ + " is not a directory: "@ + path@
            + "\n\nExpected a directory, but found a file."@,
        ValidationError::PathTraversal(p) => "Invalid path '"@ + p@
            + "': Path traversal not allowed\n\nPaths cannot contain '..' for security reasons.\nPlease use absolute paths or paths relative to the project root."@,
        ValidationError::OutsideProject(p) => "Invalid path '"@ + p@
            + "': Absolute paths outside project directory not allowed\n\nPlease use paths relative to the project root."@,
        ValidationError::BaseLocale(l) => "Configuration error in base_locale:\n"@ + unsupported_text(
            l@,
        ),
        ValidationError::SupportedLocale(l) => "Configuration error in supported_locales:\n"@
            + unsupported_text(l@),
        ValidationError::EmptyNamespace =>
            "Configuration error: namespace cannot be empty\n\nEither remove the namespace field or provide a valid value.\nExample: namespace: MyGame"@,
        ValidationError::NamespaceCharacters(n) => "Configuration error: namespace '"@ + n@
            + "' contains invalid characters\n\nNamespace can only contain:\n- Letters (a-z, A-Z)\n- Digits (0-9)\n- Underscores (_)\n\nExample: namespace: MyGame_Translations"@,
        ValidationError::NamespaceDigit(n) => "Configuration error: namespace '"@ + n@
            + "' cannot start with a digit\n\nLuau identifiers cannot start with digits.\nExample: '"@
            + n@ + "' → 'Game"@ + n@ + "'"@,
    }
}

fn supported_list() -> (r: String)
    ensures
        r@ == comma_joined(roblox_codes()),
{
    let codes = get_supported_locale_codes();
    let ghost cv = codes@.map_values(|s: &'static str| s@);
    let mut s = String::new();
    let mut i: usize = 0;
    assert(cv.take(0) =~= Seq::<Seq<char>>::empty());
    while i < codes.len()
        invariant
            i <= codes.len(),
            cv == codes@.map_values(|s: &'static str| s@),
            cv == roblox_codes(),
            s@ == comma_joined(cv.take(i as int)),
        decreases codes.len() - i,
    {
        assert(cv.take(i + 1).drop_last() =~= cv.take(i as int));
        assert(cv.take(i + 1).last() == codes@[i as int]@);
        if i > 0 {
            s = cat(s, ", ");
        } else {
            assert(s@ + codes@[0]@ =~= codes@[0]@);
        }
        s = cat(s, codes[i]);
        i = i + 1;
    }
    assert(cv.take(codes.len() as int) =~= cv);
    s
}

fn unsupported_locale_text(locale: &str) -> (r: String)
    ensures
        r@ == unsupported_text(locale@),
{
    let s = cat(String::from_str("Unsupported locale '"), locale);
    let s = cat(s, "'\n\nRoblox supports these locales:\n");
    let list = supported_list();
    cat(s, list.as_str())
}

impl ValidationError {
    /// A message for the user.
    pub fn message(&self) -> (r: String)
        ensures
            r@ == validation_message(*self),
    {
        match self {
            ValidationError::UnsupportedLocale(l) => unsupported_locale_text(l.as_str()),
            ValidationError::EmptyKey => String::from_str("Translation key cannot be empty"),
            ValidationError::LeadingDot(k) => {
                let s = cat(String::from_str("Invalid translation key '"), k.as_str());
                cat(
                    s,
                    "': Cannot start with a dot\n\nFix: Remove the leading dot\nExample: '.ui.button' → 'ui.button'",
                )
            },
            ValidationError::TrailingDot(k) => {
                let s = cat(String::from_str("Invalid translation key '"), k.as_str());
                cat(
                    s,
                    "': Cannot end with a dot\n\nFix: Remove the trailing dot\nExample: 'ui.button.' → 'ui.button'",
                )
            },
            ValidationError::ConsecutiveDots(k) => {
                let s = cat(String::from_str("Invalid translation key '"), k.as_str());
                cat(
                    s,
                    "': Cannot contain consecutive dots\n\nFix: Remove extra dots\nExample: 'ui..button' → 'ui.button'",
                )
            },
            ValidationError::ReservedCharacter(k, c) => {
                let s = cat(String::from_str("Invalid translation key '"), k.as_str());
                let s = cat(s, "': Contains reserved character '");
                let mut one: Vec<char> = Vec::new();
                one.push(*c);
                let s = cat(s, string_of(&one).as_str());
                cat(
                    s,
                    "'\n\nReserved characters that cannot be used in keys:\n/ \\ : * ? \" < > | (null)\n\nThese characters are reserved for file system compatibility.",
                )
            },
            ValidationError::Whitespace(k) => {
                let s = cat(String::from_str("Invalid translation key '"), k.as_str());
                cat(
                    s,
                    "': Cannot contain whitespace\n\nFix: Replace spaces with dots or underscores\nExample: 'ui button' → 'ui.button' or 'ui_button'",
                )
            },
            ValidationError::FileNotFound { what, path } => {
                let s = cat(what.clone(), " not found: ");
                let s = cat(s, path.as_str());
                cat(
                    s,
                    "\n\nCheck that the file exists at the specified path.\n\nIf you're starting a new project, run:\nroblox-slang init",
                )
            },
            ValidationError::DirectoryNotFound { what, path } => {
                let s = cat(what.clone(), " not found: ");
                let s = cat(s, path.as_str());
                cat(
                    s,
                    "\n\nCheck that the directory exists at the specified path.\n\nIf you're starting a new project, run:\nroblox-slang init",
                )
            },
            ValidationError::NotAFile { what, path } => {
                let s = cat(what.clone(), " is not a file: ");
                let s = cat(s, path.as_str());
                cat(s, "\n\nExpected a file, but found a directory.")
            },
            ValidationError::NotADirectory { what, path } => {
                let s = cat(what.clone(), " is not a directory: ");
                let s = cat(s, path.as_str());
                cat(s, "\n\nExpected a directory, but found a file.")
            },
            ValidationError::PathTraversal(p) => {
                let s = cat(String::from_str("Invalid path '"), p.as_str());
                cat(
                    s,
                    "': Path traversal not allowed\n\nPaths cannot contain '..' for security reasons.\nPlease use absolute paths or paths relative to the project root.",
                )
            },
            ValidationError::OutsideProject(p) => {
                let s = cat(String::from_str("Invalid path '"), p.as_str());
                cat(
                    s,
                    "': Absolute paths outside project directory not allowed\n\nPlease use paths relative to the project root.",
                )
            },
            ValidationError::BaseLocale(l) => {
                let s = String::from_str("Configuration error in base_locale:\n");
                cat(s, unsupported_locale_text(l.as_str()).as_str())
            },
            ValidationError::SupportedLocale(l) => {
                let s = String::from_str("Configuration error in supported_locales:\n");
                cat(s, unsupported_locale_text(l.as_str()).as_str())
            },
            ValidationError::EmptyNamespace => String::from_str(
                "Configuration error: namespace cannot be empty\n\nEither remove the namespace field or provide a valid value.\nExample: namespace: MyGame",
            ),
            ValidationError::NamespaceCharacters(n) => {
                let s = cat(String::from_str("Configuration error: namespace '"), n.as_str());
                cat(
                    s,
                    "' contains invalid characters\n\nNamespace can only contain:\n- Letters (a-z, A-Z)\n- Digits (0-9)\n- Underscores (_)\n\nExample: namespace: MyGame_Translations",
                )
            },
            ValidationError::NamespaceDigit(n) => {
                let s = cat(String::from_str("Configuration error: namespace '"), n.as_str());
                let s = cat(s, "' cannot start with a digit\n\nLuau identifiers cannot start with digits.\nExample: '");
                let s = cat(s, n.as_str());
                let s = cat(s, "' → 'Game");
                let s = cat(s, n.as_str());
                cat(s, "'")
            },
        }
    }
}

/// Accepts the locale codes that Roblox supports and refuses every other.
pub fn validate_locale_code(locale: &str) -> (r: Result<(), ValidationError>)
    ensures
        r is Ok <==> roblox_codes().contains(locale@),
        r matches Err(e) ==> e matches ValidationError::UnsupportedLocale(l) && l@ == locale@,
{
    if is_roblox_locale(locale) {
        return Ok(());
    }
    Err(ValidationError::UnsupportedLocale(String::from_str(locale)))
}


/// Characters that keys may not hold, for file system compatibility.
pub open spec fn is_reserved(c: char) -> bool {
    c == '/' || c == '\\' || c == ':' || c == '*' || c == '?' || c == '"' || c == '<' || c == '>'
        || c == '|' || c == '\0'
}

/// The first reserved character of `k`.
pub open spec fn first_reserved(k: Seq<char>) -> Option<char>
    decreases k.len(),
{
    if k.len() == 0 {
        None
    } else if is_reserved(k[0]) {
        Some(k[0])
    } else {
        first_reserved(k.drop_first())
    }
}

/// `k` holds two dots in a row.
pub open spec fn has_double_dot(k: Seq<char>) -> bool {
    exists|i: int| 0 <= i && i + 1 < k.len() && k[i] == '.' && #[trigger] k[i + 1] == '.'
}

/// `k` holds white space.
pub open spec fn has_whitespace(k: Seq<char>) -> bool {
    exists|i: int| 0 <= i < k.len() && is_ws(#[trigger] k[i])
}

/// What is wrong with a translation key, checked in this order.
pub enum KeyFault {
    Empty,
    LeadingDot,
    TrailingDot,
    ConsecutiveDots,
    Reserved(char),
    Whitespace,
}

/// The first fault of a translation key, if any.
pub open spec fn key_fault(k: Seq<char>) -> Option<KeyFault> {
    if k.len() == 0 {
        Some(KeyFault::Empty)
    } else if k[0] == '.' {
        Some(KeyFault::LeadingDot)
    } else if k.last() == '.' {
        Some(KeyFault::TrailingDot)
    } else if has_double_dot(k) {
        Some(KeyFault::ConsecutiveDots)
    } else if first_reserved(k) is Some {
        Some(KeyFault::Reserved(first_reserved(k)->0))
    } else if has_whitespace(k) {
        Some(KeyFault::Whitespace)
    } else {
        None
    }
}

/// The error that a key fault is reported as.
pub open spec fn reports_key_fault(e: ValidationError, k: Seq<char>, f: KeyFault) -> bool {
    match f {
        KeyFault::Empty => e is EmptyKey,
        KeyFault::LeadingDot => e matches ValidationError::LeadingDot(s) && s@ == k,
        KeyFault::TrailingDot => e matches ValidationError::TrailingDot(s) && s@ == k,
        KeyFault::ConsecutiveDots => e matches ValidationError::ConsecutiveDots(s) && s@ == k,
        KeyFault::Reserved(c) => e matches ValidationError::ReservedCharacter(s, d) && s@ == k && d
            == c,
        KeyFault::Whitespace => e matches ValidationError::Whitespace(s) && s@ == k,
    }
}

fn is_reserved_char(c: char) -> (r: bool)
    ensures
        r == is_reserved(c),
{
    c == '/' || c == '\\' || c == ':' || c == '*' || c == '?' || c == '"' || c == '<' || c == '>'
        || c == '|' || c == '\0'
}

proof fn lemma_first_reserved_skip(k: Seq<char>, i: int)
    requires
        0 <= i <= k.len(),
        forall|j: int| 0 <= j < i ==> !is_reserved(#[trigger] k[j]),
    ensures
        first_reserved(k) == first_reserved(k.skip(i)),
    decreases i,
{
    if i > 0 {
        lemma_first_reserved_skip(k.drop_first(), i - 1);
        assert(k.drop_first().skip(i - 1) =~= k.skip(i));
    } else {
        assert(k.skip(0) =~= k);
    }
}

proof fn lemma_reserved_listed(c: char)
    ensures
        is_reserved(c) <==> seq!['/', '\\', ':', '*', '?', '"', '<', '>', '|', '\0'].contains(c),
{
    let l = seq!['/', '\\', ':', '*', '?', '"', '<', '>', '|', '\0'];
    if is_reserved(c) {
        if c == '/' { assert(l[0] == c); }
        else if c == '\\' { assert(l[1] == c); }
        else if c == ':' { assert(l[2] == c); }
        else if c == '*' { assert(l[3] == c); }
        else if c == '?' { assert(l[4] == c); }
        else if c == '"' { assert(l[5] == c); }
        else if c == '<' { assert(l[6] == c); }
        else if c == '>' { assert(l[7] == c); }
        else if c == '|' { assert(l[8] == c); }
        else { assert(l[9] == c); }
    }
}

proof fn lemma_first_reserved_at(k: Seq<char>, i: int)
    requires
        0 <= i < k.len(),
        is_reserved(k[i]),
        forall|j: int| 0 <= j < i ==> !is_reserved(#[trigger] k[j]),
    ensures
        first_reserved(k) == Some(k[i]),
    decreases i,
{
    if i > 0 {
        assert(!is_reserved(k[0]));
        lemma_first_reserved_at(k.drop_first(), i - 1);
    }
}

proof fn lemma_first_reserved_none(k: Seq<char>)
    requires
        forall|j: int| 0 <= j < k.len() ==> !is_reserved(#[trigger] k[j]),
    ensures
        first_reserved(k) is None,
    decreases k.len(),
{
    if k.len() > 0 {
        assert(!is_reserved(k[0]));
        lemma_first_reserved_none(k.drop_first());
    }
}

/// The reserved characters of keys are exactly `/ \ : * ? " < > |` and
/// NUL. A key holding any of them is never accepted. A key that passes the
/// dot rules is refused for the first of them that it holds, named in the
/// error. A key that passes the dot rules, holds none of them and no white
/// space is accepted.
pub proof fn law_key_reserved_characters(k: Seq<char>)
    ensures
        (exists|i: int| 0 <= i < k.len() && seq!['/', '\\', ':', '*', '?', '"', '<', '>', '|', '\0'].contains(#[trigger] k[i]))
            ==> key_fault(k) is Some,
        forall|i: int|
            0 <= i < k.len() && k[0] != '.' && k.last() != '.' && !has_double_dot(k)
                && seq!['/', '\\', ':', '*', '?', '"', '<', '>', '|', '\0'].contains(#[trigger] k[i])
                && (forall|j: int| 0 <= j < i ==> !seq!['/', '\\', ':', '*', '?', '"', '<', '>', '|', '\0'].contains(#[trigger] k[j]))
                ==> key_fault(k) == Some(KeyFault::Reserved(k[i])),
        k.len() > 0 && k[0] != '.' && k.last() != '.' && !has_double_dot(k) && !has_whitespace(k)
            && (forall|i: int| 0 <= i < k.len() ==> !seq!['/', '\\', ':', '*', '?', '"', '<', '>', '|', '\0'].contains(#[trigger] k[i]))
            ==> key_fault(k) is None,
{
    assert forall|i: int| 0 <= i < k.len() implies (is_reserved(#[trigger] k[i]) <==> seq![
        '/',
        '\\',
        ':',
        '*',
        '?',
        '"',
        '<',
        '>',
        '|',
        '\0',
    ].contains(k[i])) by {
        lemma_reserved_listed(k[i]);
    }
    if exists|i: int| 0 <= i < k.len() && is_reserved(#[trigger] k[i]) {
        let i = choose|i: int| 0 <= i < k.len() && is_reserved(#[trigger] k[i]);
        lemma_first_reserved_some(k, i);
    }
    assert forall|i: int|
        0 <= i < k.len() && is_reserved(#[trigger] k[i]) && (forall|j: int| 0 <= j < i ==> !is_reserved(
            #[trigger] k[j],
        )) implies first_reserved(k) == Some(k[i]) by {
        lemma_first_reserved_at(k, i);
    }
    if forall|i: int| 0 <= i < k.len() ==> !is_reserved(#[trigger] k[i]) {
        lemma_first_reserved_none(k);
    }
}

proof fn lemma_first_reserved_some(k: Seq<char>, i: int)
    requires
        0 <= i < k.len(),
        is_reserved(k[i]),
    ensures
        first_reserved(k) is Some,
    decreases i,
{
    if i > 0 && !is_reserved(k[0]) {
        lemma_first_reserved_some(k.drop_first(), i - 1);
    }
}

/// Accepts a translation key unless it is empty, starts or ends with a dot,
/// holds two dots in a row, a reserved character (`/ \ : * ? " < > |` or
/// NUL) or white space; the first of these faults is reported.
#[verifier::loop_isolation(false)]
pub fn validate_translation_key(key: &str) -> (r: Result<(), ValidationError>)
    ensures
        match key_fault(key@) {
            None => r is Ok,
            Some(f) => r matches Err(e) && reports_key_fault(e, key@, f),
        },
{
    let k = chars_of(key);
    if k.len() == 0 {
        return Err(ValidationError::EmptyKey);
    }
    if k[0] == '.' {
        return Err(ValidationError::LeadingDot(String::from_str(key)));
    }
    if k[k.len() - 1] == '.' {
        return Err(ValidationError::TrailingDot(String::from_str(key)));
    }
    let mut i: usize = 0;
    while i < k.len() && i + 1 < k.len()
        invariant
            k@ == key@,
            forall|j: int| 0 <= j < i && j + 1 < k@.len() ==> !(k@[j] == '.' && #[trigger] k@[j + 1] == '.'),
        decreases k.len() - i,
    {
        if k[i] == '.' && k[i + 1] == '.' {
            assert(k@[i + 1] == '.');
            return Err(ValidationError::ConsecutiveDots(String::from_str(key)));
        }
        i = i + 1;
    }
    assert(!has_double_dot(k@)) by {
        if has_double_dot(k@) {
            let w = choose|w: int| 0 <= w && w + 1 < k@.len() && k@[w] == '.' && #[trigger] k@[w + 1] == '.';
            assert(w < i);
        }
    }
    let mut j: usize = 0;
    while j < k.len()
        invariant
            j <= k.len(),
            forall|q: int| 0 <= q < j ==> !is_reserved(#[trigger] k@[q]),
        decreases k.len() - j,
    {
        if is_reserved_char(k[j]) {
            proof {
                lemma_first_reserved_skip(k@, j as int);
                assert(k@.skip(j as int)[0] == k@[j as int]);
            }
            return Err(ValidationError::ReservedCharacter(String::from_str(key), k[j]));
        }
        j = j + 1;
    }
    proof {
        lemma_first_reserved_skip(k@, k@.len() as int);
    }
    let mut w: usize = 0;
    while w < k.len()
        invariant
            w <= k.len(),
            forall|q: int| 0 <= q < w ==> !is_ws(#[trigger] k@[q]),
        decreases k.len() - w,
    {
        if is_whitespace(k[w]) {
            return Err(ValidationError::Whitespace(String::from_str(key)));
        }
        w = w + 1;
    }
    Ok(())
}

/// A description with its first character in upper case (for an ASCII
/// first character, which is what the messages start with).
pub open spec fn capitalized(d: Seq<char>) -> Seq<char> {
    seq![ascii_upper(d[0])] + d.drop_first()
}

/// The ASCII upper-case form of `c`, which is what `char::to_uppercase`
/// gives for an ASCII character.
pub open spec fn ascii_upper(c: char) -> char {
    if 'a' <= c && c <= 'z' {
        ((c as u32) - 32) as char
    } else {
        c
    }
}

fn capitalize(d: &str) -> (r: String)
    requires
        d@.len() > 0,
        (d@[0] as u32) < 128,
    ensures
        r@ == capitalized(d@),
{
    let cs = chars_of(d);
    let c = cs[0];
    let u: char = if 'a' <= c && c <= 'z' {
        ((c as u8) - 32) as char
    } else {
        c
    };
    assert(u == ascii_upper(c)) by {
        if 'a' <= c && c <= 'z' {
            assert((c as u8) as u32 == c as u32);
        }
    }
    let mut v: Vec<char> = Vec::new();
    v.push(u);
    let mut i: usize = 1;
    while i < cs.len()
        invariant
            1 <= i <= cs.len(),
            v@ == seq![u] + cs@.subrange(1, i as int),
        decreases cs.len() - i,
    {
        v.push(cs[i]);
        i = i + 1;
        assert(v@ =~= seq![u] + cs@.subrange(1, i as int));
    }
    assert(cs@.subrange(1, cs@.len() as int) =~= cs@.drop_first());
    string_of(&v)
}

/// The description may be capitalized: it starts with an ASCII character.
pub open spec fn describable(description: Seq<char>) -> bool {
    description.len() > 0 && (description[0] as u32) < 128
}

/// Accepts a path that exists and is a file. `exists` and `is_file` are
/// what the file system says of the path `path`; `description` names it in
/// the message, with its first character in upper case.
pub fn validate_file_exists(path: &str, exists: bool, is_file: bool, description: &str) -> (r:
    Result<(), ValidationError>)
    requires
        exists && is_file || describable(description@),
    ensures
        r is Ok <==> exists && is_file,
        !exists ==> (r matches Err(ValidationError::FileNotFound { what, path: p }) && what@
            == capitalized(description@) && p@ == path@),
        exists && !is_file ==> (r matches Err(ValidationError::NotAFile { what, path: p }) && what@
            == capitalized(description@) && p@ == path@),
{
    if !exists {
        return Err(
            ValidationError::FileNotFound {
                what: capitalize(description),
                path: String::from_str(path),
            },
        );
    }
    if !is_file {
        return Err(
            ValidationError::NotAFile { what: capitalize(description), path: String::from_str(path) },
        );
    }
    Ok(())
}

/// Accepts a path that exists and is a directory; see
/// [`validate_file_exists`].
pub fn validate_directory_exists(path: &str, exists: bool, is_dir: bool, description: &str) -> (r:
    Result<(), ValidationError>)
    requires
        exists && is_dir || describable(description@),
    ensures
        r is Ok <==> exists && is_dir,
        !exists ==> (r matches Err(ValidationError::DirectoryNotFound { what, path: p }) && what@
            == capitalized(description@) && p@ == path@),
        exists && !is_dir ==> (r matches Err(ValidationError::NotADirectory { what, path: p })
            && what@ == capitalized(description@) && p@ == path@),
{
    if !exists {
        return Err(
            ValidationError::DirectoryNotFound {
                what: capitalize(description),
                path: String::from_str(path),
            },
        );
    }
    if !is_dir {
        return Err(
            ValidationError::NotADirectory {
                what: capitalize(description),
                path: String::from_str(path),
            },
        );
    }
    Ok(())
}

/// `p` holds `..`.
pub open spec fn has_dot_dot(p: Seq<char>) -> bool {
    has_double_dot(p)
}

/// Refuses a path that holds `..`, and an absolute path outside `/tmp`
/// whose canonical form lies outside the project directory.
/// `is_absolute` says whether the path is absolute (on Unix; elsewhere the
/// second check is not made, so it is `false`); `inside_project` is whether
/// the canonical path starts with the current directory, or `None` where
/// either could not be determined.
pub fn validate_safe_path(path: &str, is_absolute: bool, inside_project: Option<bool>) -> (r:
    Result<(), ValidationError>)
    ensures
        has_dot_dot(path@) ==> (r matches Err(ValidationError::PathTraversal(p)) && p@ == path@),
        !has_dot_dot(path@) && is_absolute && !"/tmp"@.is_prefix_of(path@) && inside_project
            == Some(false) ==> (r matches Err(ValidationError::OutsideProject(p)) && p@ == path@),
        r is Ok <==> !has_dot_dot(path@) && !(is_absolute && !"/tmp"@.is_prefix_of(path@)
            && inside_project == Some(false)),
{
    let k = chars_of(path);
    let mut i: usize = 0;
    while i < k.len() && i + 1 < k.len()
        invariant
            k@ == path@,
            forall|j: int| 0 <= j < i && j + 1 < k@.len() ==> !(k@[j] == '.' && #[trigger] k@[j + 1] == '.'),
        decreases k.len() - i,
    {
        if k[i] == '.' && k[i + 1] == '.' {
            assert(k@[i + 1] == '.');
            return Err(ValidationError::PathTraversal(String::from_str(path)));
        }
        i = i + 1;
    }
    assert(!has_double_dot(k@)) by {
        if has_double_dot(k@) {
            let w = choose|w: int| 0 <= w && w + 1 < k@.len() && k@[w] == '.' && #[trigger] k@[w + 1] == '.';
            assert(w < i);
        }
    }
    if is_absolute {
        let tmp = chars_of("/tmp");
        let under_tmp = crate::gettext::has_prefix(&k, &tmp);
        if !under_tmp {
            if let Some(false) = inside_project {
                return Err(ValidationError::OutsideProject(String::from_str(path)));
            }
        }
    }
    Ok(())
}


/// Overrides for A/B tests and seasonal events.
#[derive(Debug, Clone, PartialEq)]
pub struct OverridesConfig {
    pub enabled: bool,
    pub file: String,
}

/// Analytics tracking in the generated code.
#[derive(Debug, Clone, PartialEq)]
pub struct AnalyticsConfig {
    pub enabled: bool,
    pub track_missing: bool,
    pub track_usage: bool,
}

/// Roblox Cloud settings.
#[derive(Debug, Clone, PartialEq)]
pub struct CloudConfig {
    pub table_id: Option<String>,
    pub game_id: Option<String>,
    pub api_key: Option<String>,
    pub strategy: Option<String>,
}

/// How the generated code loads translations at run time (`embedded`,
/// `cloud` or `hybrid`).
#[derive(Debug, Clone, PartialEq)]
pub struct LocalizationConfig {
    pub mode: String,
}

/// The project configuration (`slang-roblox.yaml`).
#[derive(Debug, Clone, PartialEq)]
pub struct Config {
    pub base_locale: String,
    pub supported_locales: Vec<String>,
    pub input_directory: String,
    pub output_directory: String,
    pub namespace: Option<String>,
    pub overrides: Option<OverridesConfig>,
    pub analytics: Option<AnalyticsConfig>,
    pub cloud: Option<CloudConfig>,
    pub localization: Option<LocalizationConfig>,
}

/// What is wrong with a namespace, checked in this order.
pub enum NamespaceFault {
    Empty,
    Characters,
    LeadingDigit,
}

/// An ASCII letter or digit: `a`..=`z`, `A`..=`Z` or `0`..=`9`.
pub open spec fn ascii_alphanumeric(c: char) -> bool {
    ('a' <= c && c <= 'z') || ('A' <= c && c <= 'Z') || ('0' <= c && c <= '9')
}

/// What is wrong with a namespace. A namespace names a Luau table, so it
/// must be a Luau identifier: non-empty, made of ASCII letters, digits and
/// `_`, and not starting with a digit.
pub open spec fn namespace_fault(n: Seq<char>) -> Option<NamespaceFault> {
    if n.len() == 0 {
        Some(NamespaceFault::Empty)
    } else if exists|i: int| 0 <= i < n.len() && !(ascii_alphanumeric(#[trigger] n[i]) || n[i] == '_') {
        Some(NamespaceFault::Characters)
    } else if '0' <= n[0] && n[0] <= '9' {
        Some(NamespaceFault::LeadingDigit)
    } else {
        None
    }
}

/// The error that a namespace fault is reported as.
pub open spec fn reports_namespace_fault(e: ValidationError, n: Seq<char>, f: NamespaceFault) -> bool {
    match f {
        NamespaceFault::Empty => e is EmptyNamespace,
        NamespaceFault::Characters => e matches ValidationError::NamespaceCharacters(m) && m@ == n,
        NamespaceFault::LeadingDigit => e matches ValidationError::NamespaceDigit(m) && m@ == n,
    }
}

/// Whether `c` is an ASCII letter or digit.
fn is_ascii_alphanumeric(c: char) -> (r: bool)
    ensures
        r == ascii_alphanumeric(c),
{
    ('a' <= c && c <= 'z') || ('A' <= c && c <= 'Z') || ('0' <= c && c <= '9')
}

/// Checks a namespace: it must be non-empty, hold only ASCII letters,
/// digits and `_`, and not start with a digit.
pub fn check_namespace(namespace: &str) -> (r: Result<(), ValidationError>)
    ensures
        match namespace_fault(namespace@) {
            None => r is Ok,
            Some(f) => r matches Err(e) && reports_namespace_fault(e, namespace@, f),
        },
{
    let cs = chars_of(namespace);
    if cs.len() == 0 {
        return Err(ValidationError::EmptyNamespace);
    }
    let mut i: usize = 0;
    while i < cs.len()
        invariant
            i <= cs.len(),
            cs@ == namespace@,
            forall|j: int| 0 <= j < i ==> ascii_alphanumeric(#[trigger] cs@[j]) || cs@[j] == '_',
        decreases cs.len() - i,
    {
        if !(is_ascii_alphanumeric(cs[i]) || cs[i] == '_') {
            return Err(ValidationError::NamespaceCharacters(String::from_str(namespace)));
        }
        i = i + 1;
    }
    if '0' <= cs[0] && cs[0] <= '9' {
        return Err(ValidationError::NamespaceDigit(String::from_str(namespace)));
    }
    Ok(())
}

/// The first of the configured supported locales that Roblox does not
/// support.
pub open spec fn first_unsupported(ls: Seq<Seq<char>>) -> Option<Seq<char>>
    decreases ls.len(),
{
    if ls.len() == 0 {
        None
    } else if !roblox_codes().contains(ls[0]) {
        Some(ls[0])
    } else {
        first_unsupported(ls.drop_first())
    }
}

/// Checks a configuration: the base locale, then each supported locale in
/// order, must be a Roblox locale; a namespace, where one is set, must pass
/// [`check_namespace`].
///
/// These are all the checks made here; the other fields (directories,
/// overrides, analytics, cloud settings and localization mode) are not
/// checked.
pub fn validate_config(config: &Config) -> (r: Result<(), ValidationError>)
    ensures
        !roblox_codes().contains(config.base_locale@) ==> (r matches Err(
            ValidationError::BaseLocale(l),
        ) && l@ == config.base_locale@),
        roblox_codes().contains(config.base_locale@) && first_unsupported(
            crate::text::views(config.supported_locales@),
        ) is Some ==> (r matches Err(ValidationError::SupportedLocale(l)) && l@ == first_unsupported(
            crate::text::views(config.supported_locales@),
        )->0),
        roblox_codes().contains(config.base_locale@) && first_unsupported(
            crate::text::views(config.supported_locales@),
        ) is None ==> match config.namespace {
            None => r is Ok,
            Some(n) => match namespace_fault(n@) {
                None => r is Ok,
                Some(f) => r matches Err(e) && reports_namespace_fault(e, n@, f),
            },
        },
{
    if !is_roblox_locale(config.base_locale.as_str()) {
        return Err(ValidationError::BaseLocale(config.base_locale.clone()));
    }
    let ghost lv = crate::text::views(config.supported_locales@);
    let mut i: usize = 0;
    assert(lv.skip(0) =~= lv);
    while i < config.supported_locales.len()
        invariant
            i <= config.supported_locales.len(),
            lv == crate::text::views(config.supported_locales@),
            roblox_codes().contains(config.base_locale@),
            first_unsupported(lv) == first_unsupported(lv.skip(i as int)),
        decreases config.supported_locales.len() - i,
    {
        let l = &config.supported_locales[i];
        assert(lv.skip(i as int)[0] == l@);
        assert(lv.skip(i as int).drop_first() =~= lv.skip(i + 1));
        if !is_roblox_locale(l.as_str()) {
            return Err(ValidationError::SupportedLocale(l.clone()));
        }
        i = i + 1;
    }
    assert(lv.skip(i as int).len() == 0);
    match &config.namespace {
        None => Ok(()),
        Some(n) => check_namespace(n.as_str()),
    }
}

} // verus!
