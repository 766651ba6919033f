//! Turning a file's bytes into its text lines.
//!
//! A byte stream is split at newline bytes; a carriage return immediately
//! before a newline is dropped, and a final fragment without a trailing
//! newline is a line of its own. Each raw line is then decoded as UTF-8; a
//! line that is not valid UTF-8 is reported as unreadable rather than
//! aborting the stream.

use vstd::prelude::*;
use vstd::utf8::{decode_utf8, encode_utf8, valid_utf8};
use crate::writer::{encode_lines, gunzip_bytes};

verus! {

/// The index of the first newline byte, or the length when there is none.
pub open spec fn first_nl(data: Seq<u8>) -> nat
    decreases data.len(),
{
    if data.len() == 0 {
        0
    } else if data[0] == 10 {
        0
    } else {
        1 + first_nl(data.drop_first())
    }
}

proof fn lemma_first_nl(data: Seq<u8>)
    ensures
        first_nl(data) <= data.len(),
        first_nl(data) < data.len() ==> data[first_nl(data) as int] == 10,
        forall|j: int| 0 <= j < first_nl(data) ==> data[j] != 10,
    decreases data.len(),
{
    if data.len() == 0 {
    } else if data[0] == 10 {
    } else {
        lemma_first_nl(data.drop_first());
        assert(forall|j: int| 0 <= j < data.len() - 1 ==> data.drop_first()[j] == data[j + 1]);
        assert forall|j: int| 0 <= j < first_nl(data) implies data[j] != 10 by {
            if j > 0 {
                assert(data.drop_first()[j - 1] != 10);
            }
        }
    }
}

/// A single carriage return at the end of a line, dropped.
pub open spec fn strip_cr(l: Seq<u8>) -> Seq<u8> {
    if l.len() > 0 && l.last() == 13 {
        l.drop_last()
    } else {
        l
    }
}

/// The raw lines of a byte stream: split at newline bytes, each line
/// stripped of a carriage return that preceded its newline; bytes after the
/// last newline form a final line of their own, kept as they are.
pub open spec fn split_lines(data: Seq<u8>) -> Seq<Seq<u8>>
    decreases data.len(),
{
    if data.len() == 0 {
        Seq::empty()
    } else {
        let i = first_nl(data) as int;
        if i >= data.len() {
            seq![data]
        } else {
            seq![strip_cr(data.take(i))] + split_lines(data.skip(i + 1))
        }
    }
}

/// One line as read from an input file: its text, or a marker for a line
/// whose bytes were not valid UTF-8.
pub enum LineRead {
    Text(String),
    Unreadable,
}

/// Relies on `String::from_utf8`: it succeeds exactly on valid UTF-8 and
/// wraps the given bytes unchanged.
#[verifier::external_body]
fn bytes_to_string(b: Vec<u8>) -> (r: Option<String>)
    ensures
        match r {
            Some(s) => valid_utf8(b@) && encode_utf8(s@) == b@,
            None => !valid_utf8(b@),
        },
{
    match String::from_utf8(b) {
        Ok(s) => Some(s),
        Err(_) => None,
    }
}

/// Whether a read line matches a raw line: its text encodes to exactly those
/// bytes, or the line is marked unreadable because they are not UTF-8.
pub open spec fn line_read_matches(r: LineRead, raw: Seq<u8>) -> bool {
    match r {
        LineRead::Text(s) => valid_utf8(raw) && encode_utf8(s@) == raw,
        LineRead::Unreadable => !valid_utf8(raw),
    }
}

/// Splits a file's bytes into lines and decodes each as UTF-8.
pub fn decode_lines(data: &Vec<u8>) -> (r: Vec<LineRead>)
    ensures
        r@.len() == split_lines(data@).len(),
        forall|k: int|
            0 <= k < r@.len() ==> line_read_matches(#[trigger] r@[k], split_lines(data@)[k]),
{
    let mut out: Vec<LineRead> = Vec::new();
    let mut pos: usize = 0;
    proof {
        assert(data@.skip(0) =~= data@);
    }
    while pos < data.len()
        invariant
            pos <= data@.len(),
            out@.len() + split_lines(data@.skip(pos as int)).len() == split_lines(data@).len(),
            forall|k: int|
                0 <= k < out@.len() ==> line_read_matches(
                    #[trigger] out@[k],
                    split_lines(data@)[k],
                ),
            forall|k: int|
                0 <= k < split_lines(data@.skip(pos as int)).len() ==> split_lines(
                    data@.skip(pos as int),
                )[k] == split_lines(data@)[out@.len() + k],
        decreases data@.len() - pos,
    {
        let ghost rest = data@.skip(pos as int);
        let ghost pos0 = pos as int;
        let ghost outlen0 = out@.len() as int;
        proof {
            lemma_first_nl(rest);
        }
        let mut j: usize = pos;
        while j < data.len() && data[j] != 10
            invariant
                pos <= j <= data@.len(),
                forall|k: int| pos <= k < j ==> data@[k] != 10,
            decreases data@.len() - j,
        {
            j += 1;
        }
        proof {
            assert(forall|k: int| 0 <= k < rest.len() ==> rest[k] == data@[pos + k]);
            assert(first_nl(rest) == j - pos) by {
                if j < data@.len() {
                    lemma_first_nl_at(rest, (j - pos) as nat);
                } else {
                    lemma_first_nl_at_end(rest);
                }
            }
        }
        let mut lb: Vec<u8> = Vec::new();
        let mut p: usize = pos;
        while p < j
            invariant
                pos <= p <= j <= data@.len(),
                lb@ =~= data@.subrange(pos as int, p as int),
            decreases j - p,
        {
            lb.push(data[p]);
            p += 1;
        }
        proof {
            assert(lb@ =~= rest.take((j - pos) as int));
        }
        if j < data.len() {
            // a newline ends this line: drop a carriage return before it
            if lb.len() > 0 && lb[lb.len() - 1] == 13 {
                let _ = lb.pop();
            }
            let ghost n = j - pos0;
            proof {
                assert(lb@ =~= strip_cr(rest.take(n)));
                assert(split_lines(rest) =~= seq![strip_cr(rest.take(n))] + split_lines(
                    rest.skip(n + 1),
                ));
                assert(data@.skip(j + 1) =~= rest.skip(n + 1));
            }
            let ghost lbv = lb@;
            match bytes_to_string(lb) {
                Some(s) => out.push(LineRead::Text(s)),
                None => out.push(LineRead::Unreadable),
            }
            pos = j + 1;
            proof {
                assert(line_read_matches(out@[outlen0], lbv));
                assert(split_lines(rest)[0] == lbv);
                assert(split_lines(data@)[outlen0] == lbv);
                assert(forall|k: int|
                    0 <= k < split_lines(rest.skip(n + 1)).len() ==> #[trigger] split_lines(
                        rest.skip(n + 1),
                    )[k] == split_lines(rest)[k + 1]);
                assert(forall|k: int| 0 <= k < outlen0 ==> out@[k] == out@.subrange(0, outlen0)[k]);
            }
        } else {
            let ghost n = j - pos0;
            proof {
                assert(rest.take(n) =~= rest);
                assert(lb@ =~= rest);
                assert(split_lines(rest) =~= seq![rest]);
            }
            let ghost lbv = lb@;
            match bytes_to_string(lb) {
                Some(s) => out.push(LineRead::Text(s)),
                None => out.push(LineRead::Unreadable),
            }
            pos = data.len();
            proof {
                assert(line_read_matches(out@[outlen0], lbv));
                assert(split_lines(rest)[0] == lbv);
                assert(split_lines(data@)[outlen0] == lbv);
                assert(data@.skip(data@.len() as int) =~= Seq::<u8>::empty());
            }
        }
    }
    proof {
        assert(data@.skip(data@.len() as int) =~= Seq::<u8>::empty());
    }
    out
}

proof fn lemma_first_nl_at(data: Seq<u8>, m: nat)
    requires
        m < data.len(),
        data[m as int] == 10,
        forall|j: int| 0 <= j < m ==> data[j] != 10,
    ensures
        first_nl(data) == m,
    decreases data.len(),
{
    if m == 0 {
    } else {
        assert(data[0] != 10);
        assert(forall|j: int| 0 <= j < data.len() - 1 ==> data.drop_first()[j] == data[j + 1]);
        lemma_first_nl_at(data.drop_first(), (m - 1) as nat);
    }
}

proof fn lemma_first_nl_at_end(data: Seq<u8>)
    requires
        forall|j: int| 0 <= j < data.len() ==> data[j] != 10,
    ensures
        first_nl(data) == data.len(),
    decreases data.len(),
{
    if data.len() == 0 {
    } else {
        assert(forall|j: int| 0 <= j < data.len() - 1 ==> data.drop_first()[j] == data[j + 1]);
        lemma_first_nl_at_end(data.drop_first());
    }
}

/// Reads a whole input: decompresses the bytes when the file name selected
/// gzip, then splits and decodes the lines. `None` only when a compressed
/// input is not a well-formed gzip stream.
pub fn read_input(data: &Vec<u8>, gzipped: bool) -> (r: Option<Vec<LineRead>>)
    ensures
        !gzipped ==> (r matches Some(ls) && ls@.len() == split_lines(data@).len() && forall|k: int|
            0 <= k < ls@.len() ==> line_read_matches(#[trigger] ls@[k], split_lines(data@)[k])),
        gzipped ==> match r {
            Some(ls) => (crate::writer::gunzip_of(data@) matches Some(plain) && ls@.len()
                == split_lines(plain).len() && forall|k: int|
                0 <= k < ls@.len() ==> line_read_matches(
                    #[trigger] ls@[k],
                    split_lines(plain)[k],
                )),
            None => crate::writer::gunzip_of(data@) is None,
        },
{
    if gzipped {
        match gunzip_bytes(data) {
            Some(plain) => Some(decode_lines(&plain)),
            None => None,
        }
    } else {
        Some(decode_lines(data))
    }
}

/// No byte of `bytes` is a newline or a carriage return.
pub open spec fn no_line_breaks(bytes: Seq<u8>) -> bool {
    forall|i: int| 0 <= i < bytes.len() ==> bytes[i] != 10 && bytes[i] != 13
}

proof fn lemma_encode_lines_first(ls: Seq<Seq<char>>)
    requires
        ls.len() > 0,
    ensures
        encode_lines(ls) =~= encode_utf8(ls.first()) + seq![10u8] + encode_lines(ls.drop_first()),
    decreases ls.len(),
{
    if ls.len() == 1 {
        assert(ls.drop_last() =~= Seq::<Seq<char>>::empty());
        assert(ls.drop_first() =~= Seq::<Seq<char>>::empty());
        assert(ls.last() == ls.first());
    } else {
        lemma_encode_lines_first(ls.drop_last());
        assert(ls.drop_last().first() == ls.first());
        assert(ls.drop_last().drop_first() =~= ls.drop_first().drop_last());
        assert(ls.drop_first().last() == ls.last());
        assert(encode_lines(ls.drop_first()) == encode_lines(ls.drop_first().drop_last())
            + encode_utf8(ls.drop_first().last()) + seq![10u8]);
    }
}

proof fn lemma_split_at_first_line(head: Seq<u8>, restb: Seq<u8>)
    requires
        no_line_breaks(head),
    ensures
        split_lines(head + seq![10u8] + restb) =~= seq![head] + split_lines(restb),
{
    let d = head + seq![10u8] + restb;
    assert(d[head.len() as int] == 10);
    assert(forall|j: int| 0 <= j < head.len() ==> d[j] == head[j]);
    lemma_first_nl_at(d, head.len());
    assert(d.take(head.len() as int) =~= head);
    assert(strip_cr(head) == head);
    assert(d.skip(head.len() as int + 1) =~= restb);
}

/// Round trip through the line codecs: the byte stream that a writer builds
/// from a sequence of lines splits back into exactly those lines, each one
/// valid UTF-8 decoding to the original text — provided no line holds a
/// newline or carriage-return byte, which no one-line JSON document does.
pub proof fn lemma_lines_round_trip(ls: Seq<Seq<char>>)
    requires
        forall|k: int| 0 <= k < ls.len() ==> no_line_breaks(encode_utf8(#[trigger] ls[k])),
    ensures
        split_lines(encode_lines(ls)).len() == ls.len(),
        forall|k: int|
            0 <= k < ls.len() ==> #[trigger] split_lines(encode_lines(ls))[k] == encode_utf8(ls[k])
                && valid_utf8(encode_utf8(ls[k])) && decode_utf8(encode_utf8(ls[k])) == ls[k],
    decreases ls.len(),
{
    broadcast use vstd::utf8::encode_utf8_valid_utf8;
    broadcast use vstd::utf8::encode_utf8_decode_utf8;

    if ls.len() == 0 {
        assert(encode_lines(ls) =~= Seq::<u8>::empty());
    } else {
        lemma_encode_lines_first(ls);
        lemma_split_at_first_line(encode_utf8(ls.first()), encode_lines(ls.drop_first()));
        assert(forall|k: int| 0 <= k < ls.len() - 1 ==> ls.drop_first()[k] == ls[k + 1]);
        lemma_lines_round_trip(ls.drop_first());
        let whole = split_lines(encode_lines(ls));
        let rest = split_lines(encode_lines(ls.drop_first()));
        assert(whole =~= seq![encode_utf8(ls.first())] + rest);
        assert forall|k: int| 0 <= k < ls.len() implies #[trigger] whole[k] == encode_utf8(ls[k])
            && valid_utf8(encode_utf8(ls[k])) && decode_utf8(encode_utf8(ls[k])) == ls[k] by {
            if k == 0 {
                assert(whole[0] == encode_utf8(ls.first()));
            } else {
                assert(whole[k] == rest[k - 1]);
                assert(rest[k - 1] == encode_utf8(ls.drop_first()[k - 1]));
                assert(ls.drop_first()[k - 1] == ls[k]);
            }
        }
    }
}

} // verus!
