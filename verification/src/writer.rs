//! A line sink with optional transparent gzip compression.
//!
//! Lines are appended one at a time; `into_output` yields the bytes the
//! backing file should hold: each line followed by a newline byte,
//! gzip-compressed at the default level when the sink was opened compressed.

use vstd::prelude::*;
use vstd::utf8::encode_utf8;

verus! {

/// The decompression of a gzip byte stream, `None` when the bytes are not a
/// well-formed stream. Decompression is a function of the bytes alone.
pub uninterp spec fn gunzip_of(data: Seq<u8>) -> Option<Seq<u8>>;

/// Relies on flate2's `write::GzEncoder` at the default compression level:
/// decompressing its output yields exactly the bytes that were written into
/// it. Compression cannot fail here: the encoder's errors are those of the
/// writer underneath it, and writing into a `Vec` never fails.
#[verifier::external_body]
fn gzip_bytes(data: &Vec<u8>) -> (r: Vec<u8>)
    ensures
        gunzip_of(r@) == Some(data@),
{
    let mut enc = flate2::write::GzEncoder::new(Vec::new(), flate2::Compression::default());
    std::io::Write::write_all(&mut enc, data.as_slice())
        .expect("writing into a byte buffer cannot fail");
    enc.finish().expect("writing into a byte buffer cannot fail")
}

/// Relies on flate2's `read::GzDecoder`: reading it to the end yields the
/// decompression of the bytes, and fails exactly on bytes that are not a
/// well-formed gzip stream.
#[verifier::external_body]
pub(crate) fn gunzip_bytes(data: &Vec<u8>) -> (r: Option<Vec<u8>>)
    ensures
        match r {
            Some(out) => gunzip_of(data@) == Some(out@),
            None => gunzip_of(data@) is None,
        },
{
    let mut out = Vec::new();
    let mut dec = flate2::read::GzDecoder::new(data.as_slice());
    match std::io::Read::read_to_end(&mut dec, &mut out) {
        Ok(_) => Some(out),
        Err(_) => None,
    }
}

/// The byte stream holding `ls` as lines: each line's UTF-8 bytes followed
/// by a newline byte.
pub open spec fn encode_lines(ls: Seq<Seq<char>>) -> Seq<u8>
    decreases ls.len(),
{
    if ls.len() == 0 {
        Seq::empty()
    } else {
        encode_lines(ls.drop_last()) + encode_utf8(ls.last()) + seq![10u8]
    }
}

/// Buffered line writer supporting optional gzip compression. Its view is
/// the sequence of lines written so far.
pub struct Writer {
    gzip: bool,
    lines: Vec<String>,
}

impl View for Writer {
    type V = Seq<Seq<char>>;

    closed spec fn view(&self) -> Seq<Seq<char>> {
        self.lines.deep_view()
    }
}

impl Writer {
    /// Whether the output is gzip-compressed.
    pub closed spec fn is_gzip(self) -> bool {
        self.gzip
    }

    /// Creates a new line writer; `gzip` selects compressed output.
    pub fn new(gzip: bool) -> (w: Writer)
        ensures
            w@ == Seq::<Seq<char>>::empty(),
            w.is_gzip() == gzip,
    {
        let w = Writer { gzip, lines: Vec::new() };
        proof {
            assert(w@ =~= Seq::<Seq<char>>::empty());
        }
        w
    }

    /// Appends `line`; a newline follows it in the output bytes.
    pub fn write_line(&mut self, line: &str)
        ensures
            final(self)@ == old(self)@.push(line@),
            final(self).is_gzip() == old(self).is_gzip(),
    {
        let owned: String = line.to_owned();
        self.lines.push(owned);
        proof {
            assert(self.lines.deep_view() =~= old(self).lines.deep_view().push(line@));
        }
    }

    /// The lines written so far, in order.
    pub fn lines(&self) -> (r: &Vec<String>)
        ensures
            r.deep_view() == self@,
    {
        &self.lines
    }

    /// How many lines have been written.
    pub fn line_count(&self) -> (n: usize)
        ensures
            n == self@.len(),
    {
        self.lines.len()
    }

    fn lines_bytes(&self) -> (out: Vec<u8>)
        ensures
            out@ == encode_lines(self@),
    {
        let mut out: Vec<u8> = Vec::new();
        let mut i: usize = 0;
        proof {
            assert(out@ =~= encode_lines(self@.take(0)));
        }
        while i < self.lines.len()
            invariant
                i <= self.lines@.len(),
                self@ == self.lines.deep_view(),
                out@ == encode_lines(self@.take(i as int)),
            decreases self.lines@.len() - i,
        {
            let bs: &[u8] = self.lines[i].as_str().as_bytes();
            out.extend_from_slice(bs);
            out.push(10u8);
            proof {
                assert(self@.take(i + 1).drop_last() =~= self@.take(i as int));
                assert(self@.take(i + 1).last() == self@[i as int]);
                assert(out@ =~= encode_lines(self@.take(i + 1)));
            }
            i += 1;
        }
        proof {
            assert(self@.take(self.lines@.len() as int) =~= self@);
        }
        out
    }

    /// The bytes the backing file should hold: every written line followed
    /// by a newline, compressed when the writer is a compressing one.
    pub fn into_output(self) -> (r: Vec<u8>)
        ensures
            !self.is_gzip() ==> r@ == encode_lines(self@),
            self.is_gzip() ==> gunzip_of(r@) == Some(encode_lines(self@)),
    {
        let data = self.lines_bytes();
        if self.gzip {
            gzip_bytes(&data)
        } else {
            data
        }
    }
}

} // verus!
