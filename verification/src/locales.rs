//! The locales that Roblox supports.

use vstd::prelude::*;

use crate::text::str_eq;

verus! {

/// A Roblox locale: its code, English name and native name.
#[derive(Debug, Clone, PartialEq)]
pub struct LocaleInfo {
    pub code: &'static str,
    pub name: &'static str,
    pub native_name: &'static str,
}

/// The codes of the Roblox locales, in Roblox's order.
pub open spec fn roblox_codes() -> Seq<Seq<char>> {
    seq![
        "en"@, "es"@, "fr"@, "de"@, "pt"@, "id"@, "it"@, "ja"@, "ko"@, "ru"@, "th"@, "tr"@,
        "vi"@, "pl"@, "zh-cn"@, "zh-tw"@, "uk"@,
    ]
}

/// The English names of the Roblox locales, in the same order.
pub open spec fn roblox_names() -> Seq<Seq<char>> {
    seq![
        "English"@, "Spanish"@, "French"@, "German"@, "Portuguese"@, "Indonesian"@,
        "Italian"@, "Japanese"@, "Korean"@, "Russian"@, "Thai"@, "Turkish"@, "Vietnamese"@,
        "Polish"@, "Chinese (Simplified)"@, "Chinese (Traditional)"@, "Ukrainian"@,
    ]
}

/// The native names of the Roblox locales, in the same order.
pub open spec fn roblox_native_names() -> Seq<Seq<char>> {
    seq![
        "English"@, "Español"@, "Français"@, "Deutsch"@, "Português"@, "Bahasa Indonesia"@,
        "Italiano"@, "日本語"@, "한국어"@, "Русский"@, "ไทย"@, "Türkçe"@, "Tiếng Việt"@,
        "Polski"@, "简体中文"@, "繁體中文"@, "Українська"@,
    ]
}

fn info(code: &'static str, name: &'static str, native_name: &'static str) -> (r: LocaleInfo)
    ensures
        r.code@ == code@,
        r.name@ == name@,
        r.native_name@ == native_name@,
{
    LocaleInfo { code, name, native_name }
}

/// All Roblox locales.
pub fn get_roblox_locales() -> (r: Vec<LocaleInfo>)
    ensures
        r@.len() == roblox_codes().len(),
        forall|i: int|
            0 <= i < r@.len() ==> {
                &&& (#[trigger] r@[i]).code@ == roblox_codes()[i]
                &&& r@[i].name@ == roblox_names()[i]
                &&& r@[i].native_name@ == roblox_native_names()[i]
            },
{
    let mut v: Vec<LocaleInfo> = Vec::new();
    v.push(info("en", "English", "English"));
    v.push(info("es", "Spanish", "Español"));
    v.push(info("fr", "French", "Français"));
    v.push(info("de", "German", "Deutsch"));
    v.push(info("pt", "Portuguese", "Português"));
    v.push(info("id", "Indonesian", "Bahasa Indonesia"));
    v.push(info("it", "Italian", "Italiano"));
    v.push(info("ja", "Japanese", "日本語"));
    v.push(info("ko", "Korean", "한국어"));
    v.push(info("ru", "Russian", "Русский"));
    v.push(info("th", "Thai", "ไทย"));
    v.push(info("tr", "Turkish", "Türkçe"));
    v.push(info("vi", "Vietnamese", "Tiếng Việt"));
    v.push(info("pl", "Polish", "Polski"));
    v.push(info("zh-cn", "Chinese (Simplified)", "简体中文"));
    v.push(info("zh-tw", "Chinese (Traditional)", "繁體中文"));
    v.push(info("uk", "Ukrainian", "Українська"));
    v
}

/// Whether Roblox supports the locale `code`.
pub fn is_roblox_locale(code: &str) -> (r: bool)
    ensures
        r == roblox_codes().contains(code@),
{
    let locales = get_roblox_locales();
    let mut i: usize = 0;
    while i < locales.len()
        invariant
            i <= locales.len(),
            locales@.len() == roblox_codes().len(),
            forall|j: int| 0 <= j < locales@.len() ==> (#[trigger] locales@[j]).code@ == roblox_codes()[j],
            forall|j: int| 0 <= j < i ==> roblox_codes()[j] != code@,
        decreases locales.len() - i,
    {
        if str_eq(locales[i].code, code) {
            assert(roblox_codes()[i as int] == code@);
            return true;
        }
        i = i + 1;
    }
    false
}

/// The codes of all Roblox locales.
pub fn get_supported_locale_codes() -> (r: Vec<&'static str>)
    ensures
        r@.map_values(|s: &'static str| s@) == roblox_codes(),
{
    let locales = get_roblox_locales();
    let mut codes: Vec<&'static str> = Vec::new();
    let mut i: usize = 0;
    while i < locales.len()
        invariant
            i <= locales.len(),
            locales@.len() == roblox_codes().len(),
            forall|j: int| 0 <= j < locales@.len() ==> (#[trigger] locales@[j]).code@ == roblox_codes()[j],
            codes@.map_values(|s: &'static str| s@) == roblox_codes().take(i as int),
        decreases locales.len() - i,
    {
        let ghost before = codes@;
        codes.push(locales[i].code);
        assert(codes@.map_values(|s: &'static str| s@) =~= before.map_values(|s: &'static str| s@).push(
            locales@[i as int].code@,
        ));
        assert(roblox_codes().take(i + 1) =~= roblox_codes().take(i as int).push(roblox_codes()[i as int]));
        i = i + 1;
        assert(codes@.map_values(|s: &'static str| s@) =~= roblox_codes().take(i as int));
    }
    assert(roblox_codes().take(locales.len() as int) =~= roblox_codes());
    codes
}

} // verus!
