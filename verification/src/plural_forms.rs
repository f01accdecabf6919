//! Plural-Forms headers for each locale, as Django's own shipped catalogs
//! (`django/conf/locale/<locale>/LC_MESSAGES/django.po`) declare them.
use vstd::prelude::*;
use crate::text::{chars_eq, chars_of, find_char, index_of, lemma_index_of};

verus! {

/// Default used when a locale is not in Django's catalog set; this is
/// also what gettext falls back to.
pub const DEFAULT_PLURAL_FORMS: &'static str = "nplurals=2; plural=(n != 1);";

/// (locale, Plural-Forms value) sorted by locale.
pub const PLURAL_FORMS: [(&'static str, &'static str); 98] = [
    ("af", "nplurals=2; plural=(n != 1);"),
    ("ar", "nplurals=6; plural=n==0 ? 0 : n==1 ? 1 : n==2 ? 2 : n%100>=3 && n%100<=10 ? 3 : n%100>=11 && n%100<=99 ? 4 : 5;"),
    ("ar_DZ", "nplurals=6; plural=n==0 ? 0 : n==1 ? 1 : n==2 ? 2 : n%100>=3 && n%100<=10 ? 3 : n%100>=11 && n%100<=99 ? 4 : 5;"),
    ("ast", "nplurals=2; plural=(n != 1);"),
    ("az", "nplurals=2; plural=(n != 1);"),
    ("be", "nplurals=4; plural=(n%10==1 && n%100!=11 ? 0 : n%10>=2 && n%10<=4 && (n%100<12 || n%100>14) ? 1 : n%10==0 || (n%10>=5 && n%10<=9) || (n%100>=11 && n%100<=14)? 2 : 3);"),
    ("bg", "nplurals=2; plural=(n != 1);"),
    ("bn", "nplurals=2; plural=(n != 1);"),
    ("br", "nplurals=5; plural=((n%10 == 1) && (n%100 != 11) && (n%100 !=71) && (n%100 !=91) ? 0 :(n%10 == 2) && (n%100 != 12) && (n%100 !=72) && (n%100 !=92) ? 1 :(n%10 ==3 || n%10==4 || n%10==9) && (n%100 < 10 || n% 100 > 19) && (n%100 < 70 || n%100 > 79) && (n%100 < 90 || n%100 > 99) ? 2 :(n != 0 && n % 1000000 == 0) ? 3 : 4);"),
    ("bs", "nplurals=3; plural=(n%10==1 && n%100!=11 ? 0 : n%10>=2 && n%10<=4 && (n%100<10 || n%100>=20) ? 1 : 2);"),
    ("ca", "nplurals=2; plural=(n != 1);"),
    ("ckb", "nplurals=2; plural=(n != 1);"),
    ("cs", "nplurals=4; plural=(n == 1 && n % 1 == 0) ? 0 : (n >= 2 && n <= 4 && n % 1 == 0) ? 1: (n % 1 != 0 ) ? 2 : 3;"),
    ("cy", "nplurals=4; plural=(n==1) ? 0 : (n==2) ? 1 : (n != 8 && n != 11) ? 2 : 3;"),
    ("da", "nplurals=2; plural=(n != 1);"),
    ("de", "nplurals=2; plural=(n != 1);"),
    ("dsb", "nplurals=4; plural=(n%100==1 ? 0 : n%100==2 ? 1 : n%100==3 || n%100==4 ? 2 : 3);"),
    ("el", "nplurals=2; plural=(n != 1);"),
    ("en", "nplurals=2; plural=(n != 1);"),
    ("en_AU", "nplurals=2; plural=(n != 1);"),
    ("en_GB", "nplurals=2; plural=(n != 1);"),
    ("eo", "nplurals=2; plural=(n != 1);"),
    ("es", "nplurals=2; plural=(n != 1);"),
    ("es_AR", "nplurals=2; plural=(n != 1);"),
    ("es_CO", "nplurals=2; plural=(n != 1);"),
    ("es_MX", "nplurals=2; plural=(n != 1);"),
    ("es_VE", "nplurals=2; plural=(n != 1);"),
    ("et", "nplurals=2; plural=(n != 1);"),
    ("eu", "nplurals=2; plural=(n != 1);"),
    ("fa", "nplurals=2; plural=(n > 1);"),
    ("fi", "nplurals=2; plural=(n != 1);"),
    ("fr", "nplurals=2; plural=(n > 1);"),
    ("fy", "nplurals=2; plural=(n != 1);"),
    ("ga", "nplurals=5; plural=(n==1 ? 0 : n==2 ? 1 : n<7 ? 2 : n<11 ? 3 : 4);"),
    ("gd", "nplurals=4; plural=(n==1 || n==11) ? 0 : (n==2 || n==12) ? 1 : (n > 2 && n < 20) ? 2 : 3;"),
    ("gl", "nplurals=2; plural=(n != 1);"),
    ("he", "nplurals=3; plural=(n == 1 && n % 1 == 0) ? 0 : (n == 2 && n % 1 == 0) ? 1: 2;"),
    ("hi", "nplurals=2; plural=(n != 1);"),
    ("hr", "nplurals=3; plural=n%10==1 && n%100!=11 ? 0 : n%10>=2 && n%10<=4 && (n%100<10 || n%100>=20) ? 1 : 2;"),
    ("hsb", "nplurals=4; plural=(n%100==1 ? 0 : n%100==2 ? 1 : n%100==3 || n%100==4 ? 2 : 3);"),
    ("hu", "nplurals=2; plural=(n != 1);"),
    ("hy", "nplurals=2; plural=(n != 1);"),
    ("ia", "nplurals=2; plural=(n != 1);"),
    ("id", "nplurals=1; plural=0;"),
    ("ig", "nplurals=1; plural=0;"),
    ("io", "nplurals=2; plural=(n != 1);"),
    ("is", "nplurals=2; plural=(n % 10 != 1 || n % 100 == 11);"),
    ("it", "nplurals=2; plural=(n != 1);"),
    ("ja", "nplurals=1; plural=0;"),
    ("ka", "nplurals=2; plural=(n!=1);"),
    ("kab", "nplurals=2; plural=(n != 1);"),
    ("kk", "nplurals=2; plural=(n!=1);"),
    ("km", "nplurals=1; plural=0;"),
    ("kn", "nplurals=2; plural=(n > 1);"),
    ("ko", "nplurals=1; plural=0;"),
    ("ky", "nplurals=1; plural=0;"),
    ("lb", "nplurals=2; plural=(n != 1);"),
    ("lt", "nplurals=4; plural=(n % 10 == 1 && (n % 100 > 19 || n % 100 < 11) ? 0 : (n % 10 >= 2 && n % 10 <=9) && (n % 100 > 19 || n % 100 < 11) ? 1 : n % 1 != 0 ? 2: 3);"),
    ("lv", "nplurals=3; plural=(n%10==1 && n%100!=11 ? 0 : n != 0 ? 1 : 2);"),
    ("mk", "nplurals=2; plural=(n % 10 == 1 && n % 100 != 11) ? 0 : 1;"),
    ("ml", "nplurals=2; plural=(n != 1);"),
    ("mn", "nplurals=2; plural=(n != 1);"),
    ("mr", "nplurals=2; plural=(n != 1);"),
    ("ms", "nplurals=1; plural=0;"),
    ("my", "nplurals=1; plural=0;"),
    ("nb", "nplurals=2; plural=(n != 1);"),
    ("ne", "nplurals=2; plural=(n != 1);"),
    ("nl", "nplurals=2; plural=(n != 1);"),
    ("nn", "nplurals=2; plural=(n != 1);"),
    ("os", "nplurals=2; plural=(n != 1);"),
    ("pa", "nplurals=2; plural=(n != 1);"),
    ("pl", "nplurals=4; plural=(n==1 ? 0 : (n%10>=2 && n%10<=4) && (n%100<12 || n%100>14) ? 1 : n!=1 && (n%10>=0 && n%10<=1) || (n%10>=5 && n%10<=9) || (n%100>=12 && n%100<=14) ? 2 : 3);"),
    ("pt", "nplurals=2; plural=(n != 1);"),
    ("pt_BR", "nplurals=2; plural=(n > 1);"),
    ("ro", "nplurals=3; plural=(n==1?0:(((n%100>19)||((n%100==0)&&(n!=0)))?2:1));"),
    ("ru", "nplurals=4; plural=(n%10==1 && n%100!=11 ? 0 : n%10>=2 && n%10<=4 && (n%100<12 || n%100>14) ? 1 : n%10==0 || (n%10>=5 && n%10<=9) || (n%100>=11 && n%100<=14)? 2 : 3);"),
    ("sk", "nplurals=4; plural=(n % 1 == 0 && n == 1 ? 0 : n % 1 == 0 && n >= 2 && n <= 4 ? 1 : n % 1 != 0 ? 2: 3);"),
    ("sl", "nplurals=4; plural=(n%100==1 ? 0 : n%100==2 ? 1 : n%100==3 || n%100==4 ? 2 : 3);"),
    ("sq", "nplurals=2; plural=(n != 1);"),
    ("sr", "nplurals=3; plural=(n%10==1 && n%100!=11 ? 0 : n%10>=2 && n%10<=4 && (n%100<10 || n%100>=20) ? 1 : 2);"),
    ("sr_Latn", "nplurals=3; plural=(n%10==1 && n%100!=11 ? 0 : n%10>=2 && n%10<=4 && (n%100<10 || n%100>=20) ? 1 : 2);"),
    ("sv", "nplurals=2; plural=(n != 1);"),
    ("sw", "nplurals=2; plural=(n != 1);"),
    ("ta", "nplurals=2; plural=(n != 1);"),
    ("te", "nplurals=2; plural=(n != 1);"),
    ("tg", "nplurals=2; plural=(n != 1);"),
    ("th", "nplurals=1; plural=0;"),
    ("tk", "nplurals=2; plural=(n != 1);"),
    ("tr", "nplurals=2; plural=(n > 1);"),
    ("tt", "nplurals=1; plural=0;"),
    ("udm", "nplurals=1; plural=0;"),
    ("ug", "nplurals=2; plural=(n != 1);"),
    ("uk", "nplurals=4; plural=(n % 1 == 0 && n % 10 == 1 && n % 100 != 11 ? 0 : n % 1 == 0 && n % 10 >= 2 && n % 10 <= 4 && (n % 100 < 12 || n % 100 > 14) ? 1 : n % 1 == 0 && (n % 10 ==0 || (n % 10 >=5 && n % 10 <=9) || (n % 100 >=11 && n % 100 <=14 )) ? 2: 3);"),
    ("ur", "nplurals=2; plural=(n != 1);"),
    ("uz", "nplurals=1; plural=0;"),
    ("vi", "nplurals=1; plural=0;"),
    ("zh_Hans", "nplurals=1; plural=0;"),
    ("zh_Hant", "nplurals=1; plural=0;"),
];

/// The value of the first table entry whose locale is `key`.
pub open spec fn table_lookup(table: Seq<(&'static str, &'static str)>, key: Seq<char>) -> Option<
    &'static str,
>
    decreases table.len(),
{
    if table.len() == 0 {
        None
    } else if table[0].0@ == key {
        Some(table[0].1)
    } else {
        table_lookup(table.drop_first(), key)
    }
}

/// A locale's Plural-Forms: its own table entry, else that of its base
/// language (the part before the first `_`), else the default.
pub open spec fn plural_forms_spec(locale: Seq<char>) -> Seq<char> {
    match table_lookup(PLURAL_FORMS@, locale) {
        Some(v) => v@,
        None => {
            let i = index_of(locale, '_');
            if i >= 0 {
                match table_lookup(PLURAL_FORMS@, locale.take(i)) {
                    Some(v) => v@,
                    None => DEFAULT_PLURAL_FORMS@,
                }
            } else {
                DEFAULT_PLURAL_FORMS@
            }
        }
    }
}

fn lookup(key: &[char]) -> (r: Option<&'static str>)
    ensures
        r == table_lookup(PLURAL_FORMS@, key@),
{
    let table = PLURAL_FORMS;
    let mut i: usize = 0;
    assert(table@.skip(0) == table@);
    while i < 98
        invariant
            i <= 98,
            table@ == PLURAL_FORMS@,
            table_lookup(PLURAL_FORMS@, key@) == table_lookup(table@.skip(i as int), key@),
        decreases 98 - i,
    {
        let k = chars_of(table[i].0);
        assert(table@.skip(i as int)[0] == table@[i as int]);
        if chars_eq(&k, key) {
            return Some(table[i].1);
        }
        assert(table@.skip(i as int).drop_first() == table@.skip(i + 1));
        i += 1;
    }
    None
}

/// Look up a locale's Plural-Forms, falling back to the base language
/// (`pt_XX` -> `pt`) the way gettext catalogs are conventionally organized.
pub fn plural_forms_for(locale: &str) -> (r: &'static str)
    ensures
        r@ == plural_forms_spec(locale@),
{
    let chars = chars_of(locale);
    if let Some(v) = lookup(&chars) {
        return v;
    }
    if let Some(i) = find_char(&chars, '_') {
        proof {
            lemma_index_of(chars@, '_');
        }
        let base = &chars[0..i];
        assert(base@ == chars@.take(i as int));
        if let Some(v) = lookup(base) {
            return v;
        }
    }
    DEFAULT_PLURAL_FORMS
}

/// A locale with its own table entry gets that entry, even when its base
/// language has one too; the base language's entry (the part before the
/// first `_`) serves only a locale without one of its own; a locale with
/// neither gets the default.
pub proof fn law_own_entry_before_base(locale: Seq<char>)
    ensures
        table_lookup(PLURAL_FORMS@, locale) matches Some(v) ==> plural_forms_spec(locale) == v@,
        table_lookup(PLURAL_FORMS@, locale) is None ==> (index_of(locale, '_') >= 0 ==> (
        table_lookup(PLURAL_FORMS@, locale.take(index_of(locale, '_'))) matches Some(v)
            ==> plural_forms_spec(locale) == v@)),
        table_lookup(PLURAL_FORMS@, locale) is None && (index_of(locale, '_') < 0 || table_lookup(
            PLURAL_FORMS@,
            locale.take(index_of(locale, '_')),
        ) is None) ==> plural_forms_spec(locale) == DEFAULT_PLURAL_FORMS@,
{
}

} // verus!
