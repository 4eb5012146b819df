use dns::msg::{get_bit, get_bits, set_bit, set_bits, u16be};
use dns::{
    flags, mk_query, reply, Answer, CVec, CVec63, Msg, MsgError, OpCode, QClass, QType, Query, RCode,
    RData, MSG_LEN_MAX,
};

fn query(name: &str, qtype: QType, qclass: QClass) -> Query {
    Query {
        name: name.as_bytes().into(),
        qtype,
        qclass,
    }
}

#[test]
fn test_query() {
    let mut buf = [0u8; MSG_LEN_MAX];
    let l = mk_query(&mut buf, 2501, query("g.co", QType::A(), QClass::IN())).unwrap();
    let mut msg = Msg::try_from((&mut buf[..], l)).unwrap();
    println!("{}", msg.to_string());
    let q = msg.get_query().unwrap();
    assert_eq!(l, msg.len());
    println!("{}", q.to_string());
}

#[test]
fn query_written_reads_back() {
    let mut buf = [0u8; MSG_LEN_MAX];
    let l = mk_query(&mut buf, 0x1234, query("www.example.org", QType::AAAA(), QClass::CH()))
        .unwrap();
    assert_eq!(l, 18 + 15);
    let mut want = vec![0x12u8, 0x34, 0x01, 0, 0, 1, 0, 0, 0, 0, 0, 0];
    want.push(3);
    want.extend_from_slice(b"www");
    want.push(7);
    want.extend_from_slice(b"example");
    want.push(3);
    want.extend_from_slice(b"org");
    want.extend_from_slice(&[0, 0, 28, 0, 3]);
    assert_eq!(&buf[..l], &want[..]);
    let mut msg = Msg::try_from((&mut buf[..], l)).unwrap();
    assert_eq!(msg.id(), 0x1234);
    assert!(msg.rd());
    assert_eq!(msg.qd_count(), 1);
    let q = msg.get_query().unwrap();
    assert_eq!(q.name.as_slice(), b"www.example.org");
    assert!(q.qtype == QType::AAAA());
    assert!(q.qclass == QClass::CH());
    assert_eq!(msg.q_end(), l);
}

#[test]
fn mk_query_refuses_long_name_untouched() {
    let mut buf = [7u8; MSG_LEN_MAX];
    let name = "a".repeat(254);
    let r = mk_query(&mut buf, 1, query(&name, QType::A(), QClass::IN()));
    assert!(matches!(r, Err(MsgError::FormErr)));
    assert!(buf.iter().all(|&b| b == 7));
}

#[test]
fn mk_query_refuses_long_label_after_writing_earlier_ones() {
    let mut buf = [0u8; MSG_LEN_MAX];
    let name = format!("ab.{}", "c".repeat(64));
    let r = mk_query(&mut buf, 9, query(&name, QType::A(), QClass::IN()));
    assert!(matches!(r, Err(MsgError::FormErr)));
    assert_eq!(&buf[..16], &[0, 9, 1, 0, 0, 1, 0, 0, 0, 0, 0, 0, 2, b'a', b'b', 0]);
}

#[test]
fn mk_query_empty_name_gives_empty_label() {
    let mut buf = [0u8; 32];
    let l = mk_query(&mut buf, 0, query("", QType::A(), QClass::IN())).unwrap();
    assert_eq!(l, 18);
    assert_eq!(&buf[12..18], &[0, 0, 0, 1, 0, 1]);
}

#[test]
fn try_from_refuses_short_message() {
    let mut buf = [0u8; 64];
    let r = Msg::try_from((&mut buf[..], 16));
    assert!(matches!(r, Err(MsgError::FormErr)));
}

#[test]
fn try_from_refuses_truncated_message() {
    let mut buf = [0u8; 64];
    buf[2] = 0b0000_0010;
    let r = Msg::try_from((&mut buf[..], 17));
    assert!(matches!(r, Err(MsgError::Truncated)));
}

#[test]
fn get_query_refuses_other_opcode() {
    let mut buf = [0u8; MSG_LEN_MAX];
    let l = mk_query(&mut buf, 1, query("g.co", QType::A(), QClass::IN())).unwrap();
    buf[2] |= 2 << 3;
    let mut msg = Msg::try_from((&mut buf[..], l)).unwrap();
    assert!(msg.opcode() == OpCode(2));
    match msg.get_query() {
        Err(MsgError::UnkOpCode(c)) => assert!(c == OpCode(2)),
        _ => panic!("expected UnkOpCode"),
    }
}

#[test]
fn get_query_refuses_two_questions() {
    let mut buf = [0u8; MSG_LEN_MAX];
    let l = mk_query(&mut buf, 1, query("g.co", QType::A(), QClass::IN())).unwrap();
    buf[5] = 2;
    let mut msg = Msg::try_from((&mut buf[..], l)).unwrap();
    assert!(matches!(msg.get_query(), Err(MsgError::FormErr)));
}

#[test]
fn get_query_refuses_label_past_end() {
    let mut buf = [0u8; MSG_LEN_MAX];
    let l = mk_query(&mut buf, 1, query("g.co", QType::A(), QClass::IN())).unwrap();
    buf[12] = 40;
    let mut msg = Msg::try_from((&mut buf[..], l)).unwrap();
    assert!(matches!(msg.get_query(), Err(MsgError::FormErr)));
}

#[test]
fn get_query_refuses_non_ascii_name() {
    let mut buf = [0u8; MSG_LEN_MAX];
    let l = mk_query(&mut buf, 1, query("g.co", QType::A(), QClass::IN())).unwrap();
    buf[13] = 0xc3;
    let mut msg = Msg::try_from((&mut buf[..], l)).unwrap();
    assert!(matches!(msg.get_query(), Err(MsgError::FormErr)));
}

#[test]
fn get_query_refuses_missing_type_and_class() {
    let mut buf = [0u8; MSG_LEN_MAX];
    let l = mk_query(&mut buf, 1, query("g.co", QType::A(), QClass::IN())).unwrap();
    let mut msg = Msg::try_from((&mut buf[..], l - 1)).unwrap();
    assert!(matches!(msg.get_query(), Err(MsgError::FormErr)));
}

#[test]
fn get_query_reads_root_name() {
    let mut buf = [0u8; 64];
    buf[5] = 1;
    buf[12] = 0;
    buf[13..17].copy_from_slice(&[0, 2, 0, 1]);
    let mut msg = Msg::try_from((&mut buf[..], 17)).unwrap();
    let q = msg.get_query().unwrap();
    assert!(q.name.is_empty());
    assert!(q.qtype == QType(2));
    assert!(q.qclass == QClass::IN());
    assert_eq!(msg.q_end(), 17);
}

#[test]
fn deny_reads_back_rcode() {
    let mut buf = [0u8; MSG_LEN_MAX];
    let l = mk_query(&mut buf, 77, query("g.co", QType::A(), QClass::IN())).unwrap();
    buf[3] = 0b1011_0000;
    let mut msg = Msg::try_from((&mut buf[..], l)).unwrap();
    msg.deny(RCode::NOTIMP());
    assert!(msg.rcode() == RCode::NOTIMP());
    assert!(msg.get_flag(2, 7));
    assert!(msg.opcode() == OpCode::QUERY());
    assert_eq!(msg.len(), l);
    drop(msg);
    assert_eq!(buf[2], 0b1000_0001);
    assert_eq!(buf[3], 0b1011_0100);
}

#[test]
fn answer_writes_record_after_question() {
    let mut buf = [0u8; MSG_LEN_MAX];
    let l = mk_query(&mut buf, 5, query("g.co", QType::A(), QClass::IN())).unwrap();
    let mut msg = Msg::try_from((&mut buf[..], l)).unwrap();
    msg.get_query().unwrap();
    msg.answer(&[Answer {
        qtype: QType::A(),
        qclass: QClass::IN(),
        ttl: 2501,
        rdata: RData::A([127, 25, 0, 1]),
    }]);
    assert_eq!(msg.len(), l + 16);
    assert!(msg.get_flag(2, 7));
    assert!(msg.get_flag(3, 7));
    assert!(msg.rcode() == RCode::NOERROR());
    assert_eq!(msg.qd_count(), 1);
    assert_eq!(msg.an_count(), 1);
    assert_eq!(msg.ns_count(), 0);
    assert_eq!(msg.ar_count(), 0);
    drop(msg);
    assert_eq!(
        &buf[l..l + 16],
        &[0xc0, 0x0c, 0, 1, 0, 1, 0, 0, 0x09, 0xc5, 0, 4, 127, 25, 0, 1]
    );
}

#[test]
fn answer_writes_each_record_at_question_end() {
    let mut buf = [0u8; MSG_LEN_MAX];
    let l = mk_query(&mut buf, 5, query("g.co", QType::TXT(), QClass::IN())).unwrap();
    let mut msg = Msg::try_from((&mut buf[..], l)).unwrap();
    msg.get_query().unwrap();
    let txt: CVec63 = CVec::from(&[1u8, b'x'][..]);
    msg.answer(&[
        Answer {
            qtype: QType::AAAA(),
            qclass: QClass::IN(),
            ttl: 1,
            rdata: RData::AAAA([0; 16]),
        },
        Answer {
            qtype: QType::TXT(),
            qclass: QClass::IN(),
            ttl: 2,
            rdata: RData::Bytes(txt),
        },
    ]);
    assert_eq!(msg.len(), l + 28 + 14);
    assert_eq!(msg.an_count(), 2);
    drop(msg);
    assert_eq!(
        &buf[l..l + 14],
        &[0xc0, 0x0c, 0, 16, 0, 1, 0, 0, 0, 2, 0, 2, 1, b'x']
    );
}

#[test]
fn header_text_names_set_flags() {
    let mut buf = [0u8; MSG_LEN_MAX];
    let l = mk_query(&mut buf, 2501, query("g.co", QType::A(), QClass::IN())).unwrap();
    let msg = Msg::try_from((&mut buf[..], l)).unwrap();
    assert_eq!(
        msg.to_string(),
        ";; ->>HEADER<<- opcode: Query, rcode: NoError, id: 2501\n;; flags: rd; QUERY: 1, ANSWER: 0, AUTHORITY: 0, ADDITIONAL: 0\n"
    );
}

#[test]
fn header_text_after_deny() {
    let mut buf = [0u8; 64];
    buf[2] = 0b0001_0000;
    buf[5] = 1;
    let mut msg = Msg::try_from((&mut buf[..], 17)).unwrap();
    msg.deny(RCode(9));
    assert_eq!(
        msg.to_string(),
        ";; ->>HEADER<<- opcode: STATUS, rcode: 9, id: 0\n;; flags: qr; QUERY: 1, ANSWER: 0, AUTHORITY: 0, ADDITIONAL: 0\n"
    );
}

#[test]
fn query_text_joins_name_type_class() {
    let q = query("g.co", QType::A(), QClass::IN());
    assert_eq!(q.to_string(), "g.co. A IN");
    let q = query("x", QType(99), QClass(255));
    assert_eq!(q.to_string(), "x. 99 any");
}

#[test]
fn flag_table_lists_header_bits() {
    let f = flags();
    assert_eq!(f.len(), 8);
    assert_eq!(f[0], (2, 7, "qr"));
    assert_eq!(f[7], (3, 4, "cd"));
}

#[test]
fn bit_fields_read_back() {
    let mut b = 0b1010_0101u8;
    set_bits(&mut b, 3, 4, 0b0110);
    assert_eq!(get_bits(b, 3, 4), 0b0110);
    assert_eq!(b, 0b1011_0101);
    assert!(get_bit(b, 0));
    assert!(!get_bit(b, 1));
    let mut c = 0u8;
    set_bit(&mut c, 6);
    assert_eq!(c, 0b0100_0000);
    assert!(get_bit(c, 6));
}

#[test]
fn u16be_reads_big_endian() {
    assert_eq!(u16be(&[0x09, 0xc5]), 2501);
    assert_eq!(u16be(&[0xff, 0xff]), 65535);
}

#[test]
fn header_setters_write_fields() {
    let mut buf = [0u8; 32];
    let mut msg = Msg::try_from((&mut buf[..], 17)).unwrap();
    msg.set_id(0xbeef);
    msg.set_rd();
    msg.set_opcode(OpCode(5));
    msg.set_qd(3);
    assert_eq!(msg.id(), 0xbeef);
    assert!(msg.rd());
    assert!(msg.opcode() == OpCode(5));
    assert_eq!(msg.qd_count(), 3);
    assert!(!msg.tc());
    assert!(!msg.z());
    drop(msg);
    assert_eq!(&buf[..6], &[0xbe, 0xef, 0b0010_1001, 0, 0, 3]);
}

#[test]
fn try_from_refusal_leaves_buffer() {
    let mut buf = [5u8; 64];
    buf[2] = 0b0000_0010;
    let before = buf;
    assert!(matches!(Msg::try_from((&mut buf[..], 16)), Err(MsgError::FormErr)));
    assert!(matches!(Msg::try_from((&mut buf[..], 40)), Err(MsgError::Truncated)));
    assert_eq!(buf, before);
}

#[test]
fn set_rcode_reads_back_and_keeps_high_bits() {
    let mut buf = [0u8; 32];
    buf[3] = 0b1101_1111;
    let mut msg = Msg::try_from((&mut buf[..], 17)).unwrap();
    msg.set_rcode(RCode::REFUSED());
    assert!(msg.rcode() == RCode::REFUSED());
    drop(msg);
    assert_eq!(buf[3], 0b1101_0101);
}

#[test]
fn reply_picks_record_by_type_and_class() {
    let a = reply(&query("x", QType::A(), QClass::IN())).unwrap();
    assert!(a.qtype == QType::A());
    assert!(a.qclass == QClass::IN());
    assert_eq!(a.ttl, 2501);
    assert!(matches!(a.rdata, RData::A([127, 25, 0, 1])));
    let a = reply(&query("x", QType::AAAA(), QClass::IN())).unwrap();
    match a.rdata {
        RData::AAAA(b) => assert_eq!(b[14..], [0x25, 0x01]),
        _ => panic!("expected AAAA"),
    }
    let t = reply(&query("x", QType::TXT(), QClass::IN())).unwrap();
    match t.rdata {
        RData::Bytes(b) => {
            assert_eq!(b.len(), 35);
            assert!(matches!(b, CVec::Int(_)));
        }
        _ => panic!("expected bytes"),
    }
    assert!(reply(&query("x", QType::CNAME(), QClass::IN())).is_none());
    assert!(reply(&query("x", QType::A(), QClass::CH())).is_none());
}

#[test]
fn handle_answers_or_refuses() {
    let mut buf = [0u8; MSG_LEN_MAX];
    let l = mk_query(&mut buf, 5, query("g.co", QType::A(), QClass::IN())).unwrap();
    let mut msg = Msg::try_from((&mut buf[..], l)).unwrap();
    let q = msg.get_query().unwrap();
    dns::handle(&mut msg, &q);
    assert_eq!(msg.len(), l + 16);
    assert_eq!(msg.an_count(), 1);

    let mut buf = [0u8; MSG_LEN_MAX];
    let l = mk_query(&mut buf, 5, query("g.co", QType::PTR(), QClass::IN())).unwrap();
    let mut msg = Msg::try_from((&mut buf[..], l)).unwrap();
    let q = msg.get_query().unwrap();
    dns::handle(&mut msg, &q);
    assert_eq!(msg.len(), l);
    assert!(msg.rcode() == RCode::NOTIMP());
    assert!(msg.get_flag(2, 7));
}

#[test]
fn get_query_opcode_read_on_short_buffer() {
    let mut buf = [0u8, 0, 2 << 3, 0];
    let mut msg = Msg::try_from((&mut buf[..], 17)).unwrap();
    match msg.get_query() {
        Err(MsgError::UnkOpCode(c)) => assert!(c == OpCode(2)),
        _ => panic!("expected UnkOpCode"),
    }
    assert_eq!(msg.len(), 17);
    assert_eq!(msg.q_end(), 0);
}

#[test]
fn get_query_question_count_read_on_short_buffer() {
    let mut buf = [0u8, 0, 0, 0, 0, 2];
    let mut msg = Msg::try_from((&mut buf[..], 17)).unwrap();
    assert!(matches!(msg.get_query(), Err(MsgError::FormErr)));
}

#[test]
fn get_query_reads_question_inside_buffer_when_length_overshoots() {
    let mut buf = [0u8; 24];
    buf[5] = 1;
    buf[12..24].copy_from_slice(&[1, b'a', 1, b'b', 0, 0, 16, 0, 1, 9, 9, 9]);
    let mut msg = Msg::try_from((&mut buf[..], 100)).unwrap();
    let q = msg.get_query().unwrap();
    assert_eq!(q.name.as_slice(), b"a.b");
    assert!(q.qtype == QType::TXT());
    assert!(q.qclass == QClass::IN());
    assert_eq!(msg.q_end(), 21);
}
