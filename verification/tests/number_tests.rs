use speakhuman::i18n::Translations;
use speakhuman::number::{apnumber, classify_number, ordinal, ordinal_gendered, NumClass};

fn en() -> Translations {
    Translations::null()
}

#[test]
fn test_ordinal() {
    let t = en();
    assert_eq!(ordinal("1", &t), "1st");
    assert_eq!(ordinal("2", &t), "2nd");
    assert_eq!(ordinal("3", &t), "3rd");
    assert_eq!(ordinal("4", &t), "4th");
    assert_eq!(ordinal("11", &t), "11th");
    assert_eq!(ordinal("12", &t), "12th");
    assert_eq!(ordinal("13", &t), "13th");
    assert_eq!(ordinal("101", &t), "101st");
    assert_eq!(ordinal("102", &t), "102nd");
    assert_eq!(ordinal("103", &t), "103rd");
    assert_eq!(ordinal("111", &t), "111th");
    assert_eq!(ordinal("something else", &t), "something else");
    assert_eq!(ordinal("nan", &t), "NaN");
    assert_eq!(ordinal("-inf", &t), "-Inf");
}

#[test]
fn test_ordinal_gendered_female() {
    let t = Translations {
        messages: vec![("1 (female)\u{4}st".to_string(), "ra".to_string())],
        plurals: vec![],
        nplurals: 2,
        thousands_sep: ",".to_string(),
    };
    assert_eq!(ordinal_gendered("1", "female", &t), "1ra");
    assert_eq!(ordinal_gendered("1", "male", &t), "1st");
}

#[test]
fn test_apnumber() {
    let t = en();
    assert_eq!(apnumber("0", &t), "zero");
    assert_eq!(apnumber("1", &t), "one");
    assert_eq!(apnumber("5", &t), "five");
    assert_eq!(apnumber("9", &t), "nine");
    assert_eq!(apnumber("10", &t), "10");
    assert_eq!(apnumber("foo", &t), "foo");
    assert_eq!(apnumber("nan", &t), "NaN");
}

#[test]
fn test_classify_number() {
    assert_eq!(classify_number("42"), NumClass::Int(42));
    assert_eq!(classify_number("-42"), NumClass::Int(-42));
    assert_eq!(classify_number("+42"), NumClass::Int(42));
    assert_eq!(classify_number("1.9"), NumClass::Int(1));
    assert_eq!(classify_number("-1.9"), NumClass::Int(-1));
    assert_eq!(classify_number("2.5e3"), NumClass::Int(2500));
    assert_eq!(classify_number("25e-1"), NumClass::Int(2));
    assert_eq!(classify_number(".5"), NumClass::Int(0));
    assert_eq!(classify_number("3."), NumClass::Int(3));
    assert_eq!(classify_number("1e-99"), NumClass::Int(0));
    assert_eq!(classify_number("1e99"), NumClass::Int(i64::MAX));
    assert_eq!(classify_number("-1e99"), NumClass::Int(i64::MIN));
    assert_eq!(classify_number("inf"), NumClass::PosInf);
    assert_eq!(classify_number("-Infinity"), NumClass::NegInf);
    assert_eq!(classify_number("NAN"), NumClass::NaN);
    assert_eq!(classify_number(""), NumClass::NotNum);
    assert_eq!(classify_number("."), NumClass::NotNum);
    assert_eq!(classify_number("1e"), NumClass::NotNum);
    assert_eq!(classify_number("1x"), NumClass::NotNum);
    assert_eq!(classify_number("--1"), NumClass::NotNum);
}
