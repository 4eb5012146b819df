//! The numeric codes of a DNS message: opcode, response code, class and type.
use vstd::prelude::*;
use crate::text::{decimal, to_decimal, str_chars, ascii_lowercase, lowered_eq, parse_u16, decimal_u16, lemma_parse_decimal, lemma_decimal_digits, is_digit};

verus! {

/// The kind of query in a message header (4 bits).
#[derive(PartialEq, Eq, Structural, Copy, Clone, Debug)]
pub struct OpCode(pub u8);

impl OpCode {
    /// A standard query.
    #[allow(non_snake_case)]
    pub fn QUERY() -> (r: Self)
        ensures
            r == Self(0),
    {
        Self(0)
    }
}

/// The name of an opcode, or its number where it has none.
pub open spec fn opcode_text(c: u8) -> Seq<char> {
    if c == 0 {
        "Query"@
    } else if c == 1 {
        "IQUERY"@
    } else if c == 2 {
        "STATUS"@
    } else {
        decimal(c as nat)
    }
}

impl OpCode {
    /// The opcode as text: its name, or its number.
    pub fn to_string(&self) -> (r: String)
        ensures
            r@ == opcode_text(self.0),
    {
        match self.0 {
            0 => "Query".to_owned(),
            1 => "IQUERY".to_owned(),
            2 => "STATUS".to_owned(),
            c => to_decimal(c as u32),
        }
    }
}

/// The response code of a message header (4 bits).
#[derive(PartialEq, Eq, Structural, Copy, Clone, Debug)]
pub struct RCode(pub u8);

impl RCode {
    /// No error.
    #[allow(non_snake_case)]
    pub fn NOERROR() -> (r: Self)
        ensures
            r == Self(0),
    {
        Self(0)
    }

    /// The query was malformed.
    #[allow(non_snake_case)]
    pub fn FORMERR() -> (r: Self)
        ensures
            r == Self(1),
    {
        Self(1)
    }

    /// The server failed.
    #[allow(non_snake_case)]
    pub fn SERVFAIL() -> (r: Self)
        ensures
            r == Self(2),
    {
        Self(2)
    }

    /// The name does not exist.
    #[allow(non_snake_case)]
    pub fn NXDOMAIN() -> (r: Self)
        ensures
            r == Self(3),
    {
        Self(3)
    }

    /// The kind of query is not implemented.
    #[allow(non_snake_case)]
    pub fn NOTIMP() -> (r: Self)
        ensures
            r == Self(4),
    {
        Self(4)
    }

    /// The query was refused.
    #[allow(non_snake_case)]
    pub fn REFUSED() -> (r: Self)
        ensures
            r == Self(5),
    {
        Self(5)
    }
}

/// The name of a response code, or its number where it has none.
pub open spec fn rcode_text(c: u8) -> Seq<char> {
    if c == 0 {
        "NoError"@
    } else if c == 1 {
        "FormErr"@
    } else if c == 2 {
        "ServFail"@
    } else if c == 3 {
        "NxDomain"@
    } else if c == 4 {
        "NotImp"@
    } else if c == 5 {
        "Refused"@
    } else {
        decimal(c as nat)
    }
}

impl RCode {
    /// The response code as text: its name, or its number.
    pub fn to_string(&self) -> (r: String)
        ensures
            r@ == rcode_text(self.0),
    {
        match self.0 {
            0 => "NoError".to_owned(),
            1 => "FormErr".to_owned(),
            2 => "ServFail".to_owned(),
            3 => "NxDomain".to_owned(),
            4 => "NotImp".to_owned(),
            5 => "Refused".to_owned(),
            c => to_decimal(c as u32),
        }
    }
}

/// The class of a question.
#[derive(PartialEq, Eq, Structural, Copy, Clone, Debug)]
pub struct QClass(pub u16);

impl QClass {
    /// The Internet class.
    #[allow(non_snake_case)]
    pub fn IN() -> (r: Self)
        ensures
            r == Self(1),
    {
        Self(1)
    }

    /// The Chaos class.
    #[allow(non_snake_case)]
    pub fn CH() -> (r: Self)
        ensures
            r == Self(3),
    {
        Self(3)
    }
}

/// The name of a class, or its number where it has none.
pub open spec fn qclass_text(c: u16) -> Seq<char> {
    if c == 1 {
        "IN"@
    } else if c == 3 {
        "CH"@
    } else if c == 255 {
        "any"@
    } else {
        decimal(c as nat)
    }
}

impl QClass {
    /// The class as text: its name, or its number.
    pub fn to_string(&self) -> (r: String)
        ensures
            r@ == qclass_text(self.0),
    {
        match self.0 {
            1 => "IN".to_owned(),
            3 => "CH".to_owned(),
            255 => "any".to_owned(),
            c => to_decimal(c as u32),
        }
    }
}

/// The type of a question or a record.
#[derive(PartialEq, Eq, Structural, Copy, Clone, Debug, Hash)]
pub struct QType(pub u16);

impl QType {
    /// An IPv4 address.
    #[allow(non_snake_case)]
    pub fn A() -> (r: Self)
        ensures
            r == Self(1),
    {
        Self(1)
    }

    /// A canonical name.
    #[allow(non_snake_case)]
    pub fn CNAME() -> (r: Self)
        ensures
            r == Self(5),
    {
        Self(5)
    }

    /// A pointer to a name.
    #[allow(non_snake_case)]
    pub fn PTR() -> (r: Self)
        ensures
            r == Self(12),
    {
        Self(12)
    }

    /// Text strings.
    #[allow(non_snake_case)]
    pub fn TXT() -> (r: Self)
        ensures
            r == Self(16),
    {
        Self(16)
    }

    /// An IPv6 address.
    #[allow(non_snake_case)]
    pub fn AAAA() -> (r: Self)
        ensures
            r == Self(28),
    {
        Self(28)
    }

    /// A service binding.
    #[allow(non_snake_case)]
    pub fn SVCB() -> (r: Self)
        ensures
            r == Self(64),
    {
        Self(64)
    }

    /// An HTTPS service binding.
    #[allow(non_snake_case)]
    pub fn HTTPS() -> (r: Self)
        ensures
            r == Self(65),
    {
        Self(65)
    }
}

/// The name of a type, or its number where it has none.
pub open spec fn qtype_text(t: u16) -> Seq<char> {
    if t == 1 {
        "A"@
    } else if t == 5 {
        "CNAME"@
    } else if t == 12 {
        "PTR"@
    } else if t == 16 {
        "TXT"@
    } else if t == 28 {
        "AAAA"@
    } else if t == 64 {
        "SVCB"@
    } else if t == 65 {
        "HTTPS"@
    } else if t == 2 {
        "NS"@
    } else {
        decimal(t as nat)
    }
}

impl QType {
    /// The type as text: its name, or its number.
    pub fn to_string(&self) -> (r: String)
        ensures
            r@ == qtype_text(self.0),
    {
        match self.0 {
            1 => "A".to_owned(),
            5 => "CNAME".to_owned(),
            12 => "PTR".to_owned(),
            16 => "TXT".to_owned(),
            28 => "AAAA".to_owned(),
            64 => "SVCB".to_owned(),
            65 => "HTTPS".to_owned(),
            2 => "NS".to_owned(),
            t => to_decimal(t as u32),
        }
    }
}

/// What a type's text reads as: one of the names `A`, `CNAME`, `PTR`, `TXT`,
/// `AAAA`, `SVCB`, `HTTPS` in any ASCII case, else a decimal number that fits
/// 16 bits; anything else is refused.
pub open spec fn qtype_from_text(s: Seq<char>) -> Result<QType, ()> {
    let l = ascii_lowercase(s);
    if l == "a"@ {
        Ok(QType(1))
    } else if l == "cname"@ {
        Ok(QType(5))
    } else if l == "ptr"@ {
        Ok(QType(12))
    } else if l == "txt"@ {
        Ok(QType(16))
    } else if l == "aaaa"@ {
        Ok(QType(28))
    } else if l == "svcb"@ {
        Ok(QType(64))
    } else if l == "https"@ {
        Ok(QType(65))
    } else {
        match parse_u16(s) {
            Some(c) => Ok(QType(c)),
            None => Err(()),
        }
    }
}

/// Law: a type's text reads back as the type, for every type but NS (2),
/// whose name is printed but not read.
pub proof fn lemma_qtype_text_roundtrip(t: u16)
    requires
        t != 2,
    ensures
        qtype_from_text(qtype_text(t)) == Ok::<QType, ()>(QType(t)),
{
    reveal_strlit("A");
    reveal_strlit("CNAME");
    reveal_strlit("PTR");
    reveal_strlit("TXT");
    reveal_strlit("AAAA");
    reveal_strlit("SVCB");
    reveal_strlit("HTTPS");
    reveal_strlit("a");
    reveal_strlit("cname");
    reveal_strlit("ptr");
    reveal_strlit("txt");
    reveal_strlit("aaaa");
    reveal_strlit("svcb");
    reveal_strlit("https");
    let s = qtype_text(t);
    let l = ascii_lowercase(s);
    if t == 1 {
        assert(l =~= "a"@);
        assert(qtype_from_text(s) == Ok::<QType, ()>(QType(t)));
    } else if t == 5 {
        assert(l =~= "cname"@);
        assert(qtype_from_text(s) == Ok::<QType, ()>(QType(t)));
    } else if t == 12 {
        assert(l =~= "ptr"@);
        assert(qtype_from_text(s) == Ok::<QType, ()>(QType(t)));
    } else if t == 16 {
        assert(l =~= "txt"@);
        assert(l[0] != "ptr"@[0]);
        if l == "ptr"@ {
            assert(l[0] == "ptr"@[0]);
        }
        assert(qtype_from_text(s) == Ok::<QType, ()>(QType(t)));
    } else if t == 28 {
        assert(l =~= "aaaa"@);
        assert(qtype_from_text(s) == Ok::<QType, ()>(QType(t)));
    } else if t == 64 {
        assert(l =~= "svcb"@);
        assert(l[0] != "aaaa"@[0]);
        if l == "aaaa"@ {
            assert(l[0] == "aaaa"@[0]);
        }
        assert(qtype_from_text(s) == Ok::<QType, ()>(QType(t)));
    } else if t == 65 {
        assert(l =~= "https"@);
        assert(l[0] != "cname"@[0]);
        if l == "cname"@ {
            assert(l[0] == "cname"@[0]);
        }
        assert(qtype_from_text(s) == Ok::<QType, ()>(QType(t)));
    } else {
        lemma_parse_decimal(t);
        lemma_decimal_digits(t as nat);
        assert(is_digit(l[0]));
        assert(l != "a"@);
        assert(l != "cname"@);
        assert(l != "ptr"@);
        assert(l != "txt"@);
        assert(l != "aaaa"@);
        assert(l != "svcb"@);
        assert(l != "https"@);
        assert(qtype_from_text(s) == Ok::<QType, ()>(QType(t)));
    }
}

impl<'a> TryFrom<&'a str> for QType {
    type Error = ();

    /// Reads a type from its name (any ASCII case) or its decimal number.
    fn try_from(s: &'a str) -> (r: Result<Self, Self::Error>) {
        let cs = str_chars(s);
        if lowered_eq(&cs, &str_chars("a")) {
            Ok(QType(1))
        } else if lowered_eq(&cs, &str_chars("cname")) {
            Ok(QType(5))
        } else if lowered_eq(&cs, &str_chars("ptr")) {
            Ok(QType(12))
        } else if lowered_eq(&cs, &str_chars("txt")) {
            Ok(QType(16))
        } else if lowered_eq(&cs, &str_chars("aaaa")) {
            Ok(QType(28))
        } else if lowered_eq(&cs, &str_chars("svcb")) {
            Ok(QType(64))
        } else if lowered_eq(&cs, &str_chars("https")) {
            Ok(QType(65))
        } else {
            match decimal_u16(&cs) {
                Some(c) => Ok(QType(c)),
                None => Err(()),
            }
        }
    }
}

impl<'a> vstd::std_specs::convert::TryFromSpecImpl<&'a str> for QType {
    open spec fn obeys_try_from_spec() -> bool {
        true
    }

    open spec fn try_from_spec(v: &'a str) -> Result<Self, Self::Error> {
        qtype_from_text(v@)
    }
}

} // verus!
