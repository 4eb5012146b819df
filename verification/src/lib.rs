//! A small DNS message library: reading the question of a query and writing
//! the answer into the same buffer, with a compact vector for names.
pub mod codes;
pub mod cvec;
pub mod msg;
pub mod order;
pub mod text;

pub use codes::{OpCode, QClass, QType, RCode};
pub use cvec::CVec;
pub use msg::{flags, handle, mk_query, reply, Answer, Msg, MsgError, Query, RData, MSG_HEADER_LEN, MSG_LEN_MIN, MSG_LEN_MAX, FQDN_LEN_MAX, LABEL_LEN_MAX};

use vstd::prelude::*;
use vstd::string::StringSliceAdditionalSpecFns;

verus! {

/// A compact vector of bytes that keeps up to 63 of them inline, the size of
/// most names.
pub type CVec63 = CVec<u8, 63>;

/// The character-strings of a TXT record: each line's bytes, cut to 255,
/// preceded by their count.
pub open spec fn txt_record(lines: Seq<&str>) -> Seq<u8>
    decreases lines.len(),
{
    if lines.len() == 0 {
        Seq::<u8>::empty()
    } else {
        let b = lines.last().spec_bytes();
        let n = if b.len() > 255 {
            255
        } else {
            b.len() as int
        };
        txt_record(lines.drop_last()) + seq![n as u8] + b.take(n)
    }
}

/// A prefix of the lines makes no longer a record than all of them.
pub proof fn lemma_txt_record_prefix(lines: Seq<&str>, k: int)
    requires
        0 <= k <= lines.len(),
    ensures
        txt_record(lines.take(k)).len() <= txt_record(lines).len(),
    decreases lines.len(),
{
    if k < lines.len() {
        assert(lines.drop_last().take(k) =~= lines.take(k));
        lemma_txt_record_prefix(lines.drop_last(), k);
    } else {
        assert(lines.take(k) =~= lines);
    }
}

impl<const C: usize> CVec<u8, C> {
    /// The data of a TXT record holding `txt`, one character-string per line;
    /// a line longer than 255 bytes is cut to its first 255.
    pub fn txt(txt: &[&str]) -> (r: Self)
        requires
            C <= 255,
            txt_record(txt@).len() <= usize::MAX,
        ensures
            r.wf(),
            r@ == txt_record(txt@),
            r.is_inline() <==> r@.len() <= C,
    {
        let mut d: Self = CVec::new();
        let mut i: usize = 0;
        assert(txt@.take(0) =~= Seq::<&str>::empty());
        while i < txt.len()
            invariant
                C <= 255,
                i <= txt@.len(),
                txt_record(txt@).len() <= usize::MAX,
                d.wf(),
                d@ == txt_record(txt@.take(i as int)),
                d.is_inline() <==> d@.len() <= C,
            decreases txt@.len() - i,
        {
            let line: &str = txt[i];
            let bytes = line.as_bytes();
            let mut len = bytes.len();
            if len > 255 {
                len = 255;
            }
            proof {
                lemma_txt_record_prefix(txt@, i + 1);
                assert(txt@.take(i + 1).drop_last() =~= txt@.take(i as int));
                assert(txt@.take(i + 1).last() == line);
            }
            d.push(len as u8);
            d.extend_from_slice(&bytes[0..len]);
            assert(bytes@.subrange(0, len as int) =~= bytes@.take(len as int));
            assert(len as int == if line.spec_bytes().len() > 255 {
                255
            } else {
                line.spec_bytes().len() as int
            });
            assert(txt_record(txt@.take(i + 1)) == txt_record(txt@.take(i as int)) + seq![len as u8]
                + line.spec_bytes().take(len as int));
            i = i + 1;
        }
        assert(txt@.take(txt@.len() as int) =~= txt@);
        d
    }
}

} // verus!
