use dns::text::{decimal_u16, str_chars, to_decimal};
use dns::{OpCode, QClass, QType, RCode};
use std::convert::TryFrom;

#[test]
fn code_names_and_numbers() {
    assert_eq!(OpCode::QUERY().to_string(), "Query");
    assert_eq!(OpCode(1).to_string(), "IQUERY");
    assert_eq!(OpCode(2).to_string(), "STATUS");
    assert_eq!(OpCode(7).to_string(), "7");
    assert_eq!(RCode::NOERROR().to_string(), "NoError");
    assert_eq!(RCode::FORMERR().to_string(), "FormErr");
    assert_eq!(RCode::SERVFAIL().to_string(), "ServFail");
    assert_eq!(RCode::NXDOMAIN().to_string(), "NxDomain");
    assert_eq!(RCode::NOTIMP().to_string(), "NotImp");
    assert_eq!(RCode::REFUSED().to_string(), "Refused");
    assert_eq!(RCode(15).to_string(), "15");
    assert_eq!(QClass::IN().to_string(), "IN");
    assert_eq!(QClass::CH().to_string(), "CH");
    assert_eq!(QClass(255).to_string(), "any");
    assert_eq!(QClass(4).to_string(), "4");
    assert_eq!(QType::A().to_string(), "A");
    assert_eq!(QType::CNAME().to_string(), "CNAME");
    assert_eq!(QType::PTR().to_string(), "PTR");
    assert_eq!(QType::TXT().to_string(), "TXT");
    assert_eq!(QType::AAAA().to_string(), "AAAA");
    assert_eq!(QType::SVCB().to_string(), "SVCB");
    assert_eq!(QType::HTTPS().to_string(), "HTTPS");
    assert_eq!(QType(2).to_string(), "NS");
    assert_eq!(QType(65535).to_string(), "65535");
}

#[test]
fn qtype_reads_names_in_any_case() {
    assert!(QType::try_from("a") == Ok(QType::A()));
    assert!(QType::try_from("Aaaa") == Ok(QType::AAAA()));
    assert!(QType::try_from("cNaMe") == Ok(QType::CNAME()));
    assert!(QType::try_from("PTR") == Ok(QType::PTR()));
    assert!(QType::try_from("txt") == Ok(QType::TXT()));
    assert!(QType::try_from("svcb") == Ok(QType::SVCB()));
    assert!(QType::try_from("HTTPS") == Ok(QType::HTTPS()));
}

#[test]
fn qtype_reads_numbers_like_from_str() {
    assert!(QType::try_from("28") == Ok(QType(28)));
    assert!(QType::try_from("+5") == Ok(QType(5)));
    assert!(QType::try_from("007") == Ok(QType(7)));
    assert!(QType::try_from("65535") == Ok(QType(65535)));
    assert!(QType::try_from("65536") == Err(()));
    assert!(QType::try_from("-5") == Err(()));
    assert!(QType::try_from("+") == Err(()));
    assert!(QType::try_from("") == Err(()));
    assert!(QType::try_from(" 1") == Err(()));
    assert!(QType::try_from("ns") == Err(()));
    assert!(QType::try_from("\u{e1}") == Err(()));
}

#[test]
fn qtype_text_reads_back() {
    for t in [1u16, 5, 12, 16, 28, 64, 65, 0, 3, 99, 1000, 65535] {
        let s = QType(t).to_string();
        assert!(QType::try_from(s.as_str()) == Ok(QType(t)));
    }
    assert!(QType::try_from(QType(2).to_string().as_str()) == Err(()));
}

#[test]
fn decimal_digits_round_trip() {
    assert_eq!(to_decimal(0), "0");
    assert_eq!(to_decimal(2501), "2501");
    assert_eq!(to_decimal(4294967295), "4294967295");
    assert_eq!(decimal_u16(&str_chars("2501")), Some(2501));
    assert_eq!(decimal_u16(&str_chars("99999")), None);
    assert_eq!(str_chars("h\u{e9}"), vec!['h', '\u{e9}']);
}
