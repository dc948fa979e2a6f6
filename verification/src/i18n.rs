//! Translation lookup.
//!
//! A [`Translations`] value is an immutable catalog of message templates with
//! a plural rule, threaded explicitly through every rendering call.  Catalog
//! loading and locale activation are outside this core: callers build a
//! `Translations` from plain data and pass it in.

use vstd::prelude::*;

use crate::text::str_eq;

verus! {

/// An immutable translation catalog: simple message pairs, plural form
/// families, the number of plural forms of the locale, and the locale's
/// thousands separator for grouped numerals.
#[derive(Clone, Debug)]
pub struct Translations {
    pub messages: Vec<(String, String)>,
    pub plurals: Vec<(String, Vec<String>)>,
    pub nplurals: u32,
    pub thousands_sep: String,
}

/// First association for `key` in a sequence of pairs.
pub open spec fn spec_assoc(m: Seq<(Seq<char>, Seq<char>)>, key: Seq<char>) -> Option<Seq<char>>
    decreases m.len(),
{
    if m.len() == 0 {
        None
    } else if m[0].0 == key {
        Some(m[0].1)
    } else {
        spec_assoc(m.drop_first(), key)
    }
}

/// First association for `key` in a sequence of plural-form families.
pub open spec fn spec_assoc_pl(m: Seq<(Seq<char>, Seq<Seq<char>>)>, key: Seq<char>) -> Option<
    Seq<Seq<char>>,
>
    decreases m.len(),
{
    if m.len() == 0 {
        None
    } else if m[0].0 == key {
        Some(m[0].1)
    } else {
        spec_assoc_pl(m.drop_first(), key)
    }
}

/// Index of the plural form to use for count `n` under `npl` plural forms:
/// one form for all counts, the English two-form rule, or the three-form
/// rule of the Slavic languages.
pub open spec fn spec_plural_index(npl: int, n: int) -> int {
    let m = if n >= 0 {
        n
    } else {
        -n
    };
    if npl == 1 {
        0
    } else if npl == 2 {
        if n == 1 {
            0
        } else {
            1
        }
    } else if npl == 3 {
        if m % 10 == 1 && m % 100 != 11 {
            0
        } else if 2 <= m % 10 && m % 10 <= 4 && (m % 100 < 10 || m % 100 >= 20) {
            1
        } else {
            2
        }
    } else {
        if n == 1 {
            0
        } else {
            1
        }
    }
}

/// What `gettext` returns: the catalog's translation, or the message itself.
pub open spec fn spec_gettext(t: Translations, msg: Seq<char>) -> Seq<char> {
    match spec_assoc(t.msgs(), msg) {
        Some(v) => v,
        None => msg,
    }
}

/// What `pgettext` returns: lookup under the context-qualified key, falling
/// back to the message itself.
pub open spec fn spec_pgettext(t: Translations, ctx: Seq<char>, msg: Seq<char>) -> Seq<char> {
    match spec_assoc(t.msgs(), ctx + seq!['\u{4}'] + msg) {
        Some(v) => v,
        None => msg,
    }
}

/// What `ngettext` returns: the catalog's plural family indexed by the plural
/// rule when one exists, else the singular or plural message translation,
/// else the untranslated singular or plural template.
pub open spec fn spec_ngettext(t: Translations, sing: Seq<char>, plur: Seq<char>, n: int) -> Seq<
    char,
> {
    let fallback = match spec_assoc(t.msgs(), sing) {
        Some(m) => if n == 1 {
            m
        } else {
            match spec_assoc(t.msgs(), plur) {
                Some(pm) => pm,
                None => m,
            }
        },
        None => if n == 1 {
            sing
        } else {
            plur
        },
    };
    match spec_assoc_pl(t.plur(), sing) {
        Some(forms) => {
            let idx = spec_plural_index(t.nplurals as int, n);
            if 0 <= idx < forms.len() {
                forms[idx]
            } else {
                fallback
            }
        },
        None => fallback,
    }
}

/// Index of the first pair whose key equals `key`, with the association it
/// witnesses.
fn assoc_idx(m: &Vec<(String, String)>, key: &str) -> (r: Option<usize>)
    ensures
        match r {
            Some(j) => j < m.len() && spec_assoc(m.deep_view(), key@) == Some(
                m.deep_view()[j as int].1,
            ),
            None => spec_assoc(m.deep_view(), key@) is None,
        },
{
    let ghost dv = m.deep_view();
    proof {
        assert(dv.skip(0) =~= dv);
    }
    let mut i: usize = 0;
    while i < m.len()
        invariant
            i <= m.len(),
            dv == m.deep_view(),
            dv.len() == m.len(),
            spec_assoc(dv, key@) == spec_assoc(dv.skip(i as int), key@),
        decreases m.len() - i,
    {
        proof {
            assert(dv.skip(i as int)[0] == dv[i as int]);
            assert(dv[i as int] == (m@[i as int].0@, m@[i as int].1@));
        }
        if str_eq(m[i].0.as_str(), key) {
            return Some(i);
        }
        proof {
            assert(dv.skip(i as int).drop_first() =~= dv.skip(i as int + 1));
        }
        i += 1;
    }
    proof {
        assert(dv.skip(i as int) =~= Seq::<(Seq<char>, Seq<char>)>::empty());
    }
    None
}

/// Index of the first plural family whose key equals `key`.
fn assoc_pl_idx(m: &Vec<(String, Vec<String>)>, key: &str) -> (r: Option<usize>)
    ensures
        match r {
            Some(j) => j < m.len() && spec_assoc_pl(m.deep_view(), key@) == Some(
                m.deep_view()[j as int].1,
            ),
            None => spec_assoc_pl(m.deep_view(), key@) is None,
        },
{
    let ghost dv = m.deep_view();
    proof {
        assert(dv.skip(0) =~= dv);
    }
    let mut i: usize = 0;
    while i < m.len()
        invariant
            i <= m.len(),
            dv == m.deep_view(),
            dv.len() == m.len(),
            spec_assoc_pl(dv, key@) == spec_assoc_pl(dv.skip(i as int), key@),
        decreases m.len() - i,
    {
        proof {
            assert(dv.skip(i as int)[0] == dv[i as int]);
            assert(dv[i as int] == (m@[i as int].0@, m@[i as int].1.deep_view()));
        }
        if str_eq(m[i].0.as_str(), key) {
            return Some(i);
        }
        proof {
            assert(dv.skip(i as int).drop_first() =~= dv.skip(i as int + 1));
        }
        i += 1;
    }
    proof {
        assert(dv.skip(i as int) =~= Seq::<(Seq<char>, Seq<Seq<char>>)>::empty());
    }
    None
}

impl Translations {
    /// The catalog's simple messages, as character sequences.
    pub open spec fn msgs(self) -> Seq<(Seq<char>, Seq<char>)> {
        self.messages.deep_view()
    }

    /// The catalog's plural families, as character sequences.
    pub open spec fn plur(self) -> Seq<(Seq<char>, Seq<Seq<char>>)> {
        self.plurals.deep_view()
    }

    /// The catalog's thousands separator, as a character sequence.
    pub open spec fn sep(self) -> Seq<char> {
        self.thousands_sep@
    }

    /// The empty catalog: every lookup falls through to the message itself,
    /// with the English plural rule and separators.
    pub fn null() -> (r: Translations)
        ensures
            r.msgs().len() == 0,
            r.plur().len() == 0,
            r.nplurals == 2,
            r.sep() == ","@,
    {
        Translations {
            messages: Vec::new(),
            plurals: Vec::new(),
            nplurals: 2,
            thousands_sep: String::from_str(","),
        }
    }

    /// Translate a simple message.
    pub fn gettext(&self, message: &str) -> (r: String)
        ensures
            r@ == spec_gettext(*self, message@),
    {
        match assoc_idx(&self.messages, message) {
            Some(j) => self.messages[j].1.clone(),
            None => message.to_owned(),
        }
    }

    /// Translate a message under a disambiguating context.
    pub fn pgettext(&self, context: &str, message: &str) -> (r: String)
        ensures
            r@ == spec_pgettext(*self, context@, message@),
    {
        proof {
            reveal_strlit("\u{4}");
        }
        let mut key = String::from_str(context);
        key.append("\u{4}");
        key.append(message);
        proof {
            assert(key@ =~= context@ + seq!['\u{4}'] + message@);
        }
        match assoc_idx(&self.messages, key.as_str()) {
            Some(j) => self.messages[j].1.clone(),
            None => message.to_owned(),
        }
    }

    /// Index of the plural form for count `n` under this catalog's rule.
    pub fn plural_index(&self, n: i64) -> (r: usize)
        ensures
            r as int == spec_plural_index(self.nplurals as int, n as int),
    {
        let m: u64 = if n >= 0 {
            n as u64
        } else {
            proof {
                assert(-(n as i128) <= 0x8000_0000_0000_0000i128);
            }
            (-(n as i128)) as u64
        };
        if self.nplurals == 1 {
            0
        } else if self.nplurals == 2 {
            if n == 1 {
                0
            } else {
                1
            }
        } else if self.nplurals == 3 {
            if m % 10 == 1 && m % 100 != 11 {
                0
            } else if m % 10 >= 2 && m % 10 <= 4 && (m % 100 < 10 || m % 100 >= 20) {
                1
            } else {
                2
            }
        } else {
            if n == 1 {
                0
            } else {
                1
            }
        }
    }

    /// Choose between singular and plural templates for count `n`.
    pub fn ngettext(&self, singular: &str, plural: &str, n: i64) -> (r: String)
        ensures
            r@ == spec_ngettext(*self, singular@, plural@, n as int),
    {
        match assoc_pl_idx(&self.plurals, singular) {
            Some(j) => {
                let idx = self.plural_index(n);
                let forms = &self.plurals[j].1;
                if idx < forms.len() {
                    proof {
                        assert(self.plur()[j as int].1[idx as int] == forms@[idx as int]@);
                    }
                    return forms[idx].clone();
                }
            },
            None => {},
        }
        match assoc_idx(&self.messages, singular) {
            Some(k) => {
                if n == 1 {
                    self.messages[k].1.clone()
                } else {
                    match assoc_idx(&self.messages, plural) {
                        Some(p) => self.messages[p].1.clone(),
                        None => self.messages[k].1.clone(),
                    }
                }
            },
            None => {
                if n == 1 {
                    singular.to_owned()
                } else {
                    plural.to_owned()
                }
            },
        }
    }
}

/// Translate a simple message against the given catalog.
pub fn gettext(t: &Translations, message: &str) -> (r: String)
    ensures
        r@ == spec_gettext(*t, message@),
{
    t.gettext(message)
}

/// Translate a message under a context against the given catalog.
pub fn pgettext(t: &Translations, context: &str, message: &str) -> (r: String)
    ensures
        r@ == spec_pgettext(*t, context@, message@),
{
    t.pgettext(context, message)
}

/// Choose between singular and plural templates against the given catalog.
pub fn ngettext(t: &Translations, singular: &str, plural: &str, n: i64) -> (r: String)
    ensures
        r@ == spec_ngettext(*t, singular@, plural@, n as int),
{
    t.ngettext(singular, plural, n)
}

/// The thousands separator of a locale (`None` is the untranslated default).
pub open spec fn spec_thousands_sep_for(loc: Option<Seq<char>>) -> Seq<char> {
    match loc {
        Option::None => ","@,
        Option::Some(l) => if l == "de_DE"@ || l == "it_IT"@ || l == "pt_BR"@ {
            "."@
        } else if l == "fr_FR"@ || l == "hu_HU"@ {
            "\u{a0}"@
        } else {
            ","@
        },
    }
}

/// The decimal separator of a locale (`None` is the untranslated default).
pub open spec fn spec_decimal_sep_for(loc: Option<Seq<char>>) -> Seq<char> {
    match loc {
        Option::None => "."@,
        Option::Some(l) => if l == "de_DE"@ || l == "it_IT"@ || l == "pt_BR"@ || l == "hu_HU"@ {
            ","@
        } else if l == "fr_FR"@ {
            "."@
        } else {
            "."@
        },
    }
}

/// Thousands separator used when grouping numerals for the given locale.
pub fn thousands_separator(locale: Option<&str>) -> (r: String)
    ensures
        r@ == spec_thousands_sep_for(
            match locale {
                Some(s) => Some(s@),
                None => None,
            },
        ),
{
    match locale {
        None => String::from_str(","),
        Some(l) => {
            if str_eq(l, "de_DE") || str_eq(l, "it_IT") || str_eq(l, "pt_BR") {
                String::from_str(".")
            } else if str_eq(l, "fr_FR") || str_eq(l, "hu_HU") {
                String::from_str("\u{a0}")
            } else {
                String::from_str(",")
            }
        },
    }
}

/// Decimal separator used when rendering fractions for the given locale.
pub fn decimal_separator(locale: Option<&str>) -> (r: String)
    ensures
        r@ == spec_decimal_sep_for(
            match locale {
                Some(s) => Some(s@),
                None => None,
            },
        ),
{
    match locale {
        None => String::from_str("."),
        Some(l) => {
            if str_eq(l, "de_DE") || str_eq(l, "it_IT") || str_eq(l, "pt_BR") || str_eq(l, "hu_HU")
                {
                String::from_str(",")
            } else if str_eq(l, "fr_FR") {
                String::from_str(".")
            } else {
                String::from_str(".")
            }
        },
    }
}

/// A little-endian 32-bit integer read from four bytes of a catalog file.
pub fn read_u32_le(data: &[u8], offset: usize) -> (r: u32)
    requires
        offset + 3 < data@.len(),
    ensures
        r as int == data@[offset as int] + data@[offset as int + 1] * 0x100 + data@[offset as int
            + 2] * 0x1_0000 + data@[offset as int + 3] * 0x100_0000,
{
    data[offset] as u32 + data[offset + 1] as u32 * 0x100 + data[offset + 2] as u32 * 0x1_0000
        + data[offset + 3] as u32 * 0x100_0000
}

/// A big-endian 32-bit integer read from four bytes of a catalog file.
pub fn read_u32_be(data: &[u8], offset: usize) -> (r: u32)
    requires
        offset + 3 < data@.len(),
    ensures
        r as int == data@[offset as int] * 0x100_0000 + data@[offset as int + 1] * 0x1_0000
            + data@[offset as int + 2] * 0x100 + data@[offset as int + 3],
{
    data[offset] as u32 * 0x100_0000 + data[offset + 1] as u32 * 0x1_0000 + data[offset
        + 2] as u32 * 0x100 + data[offset + 3] as u32
}

} // verus!
