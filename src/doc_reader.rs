use vstd::prelude::*;
use vstd::utf8::{decode_utf8, valid_utf8};

verus! {

/// How the input is cut into records.
pub enum RecordSeperator {
    /// Records end at a null byte.
    Null,
    /// Records end at a newline.
    Line,
    /// Records are runs of non-blank lines, parted by blank lines.
    Paragraph,
}

/// The text that `String::from_utf8_lossy` decodes from `b`, where `b` is
/// not valid UTF-8.
pub uninterp spec fn lossy_utf8(b: Seq<u8>) -> Seq<char>;

/// The text of `b`: decoded as it stands where it is valid UTF-8.
pub open spec fn decoded(b: Seq<u8>) -> Seq<char> {
    if valid_utf8(b) {
        decode_utf8(b)
    } else {
        lossy_utf8(b)
    }
}

/// Relies on `String::from_utf8_lossy`: bytes that are valid UTF-8 are
/// decoded as they stand; otherwise the text depends on the bytes alone.
#[verifier::external_body]
fn decode_lossy(b: &[u8]) -> (r: String)
    ensures
        r@ == if valid_utf8(b@) {
            decode_utf8(b@)
        } else {
            lossy_utf8(b@)
        },
{
    String::from_utf8_lossy(b).into_owned()
}

/// The offset of the first `sep` in `b`, or the length of `b` if there is none.
pub open spec fn first_sep(b: Seq<u8>, sep: u8) -> int
    decreases b.len(),
{
    if b.len() == 0 || b[0] == sep {
        0
    } else {
        1 + first_sep(b.drop_first(), sep)
    }
}

/// `b` cut at each `sep`; the separators are dropped, and a final `sep` ends
/// the last piece rather than opening an empty one.
pub open spec fn frames(b: Seq<u8>, sep: u8) -> Seq<Seq<u8>>
    decreases b.len(),
{
    if b.len() == 0 {
        Seq::empty()
    } else {
        let i = first_sep(b, sep);
        let end = if 0 <= i < b.len() { i } else { b.len() as int };
        let next = if 0 <= i < b.len() { i + 1 } else { b.len() as int };
        seq![b.subrange(0, end)] + frames(b.subrange(next, b.len() as int), sep)
    }
}

/// Groups lines into paragraphs: `cur` holds the lines of the paragraph under
/// way; blank lines close it, and blank lines before a paragraph are skipped.
pub open spec fn paragraphs(lines: Seq<Seq<u8>>, cur: Seq<Seq<u8>>) -> Seq<Seq<Seq<u8>>>
    decreases lines.len(),
{
    if lines.len() == 0 {
        if cur.len() > 0 {
            seq![cur]
        } else {
            Seq::empty()
        }
    } else if lines[0].len() == 0 {
        if cur.len() > 0 {
            seq![cur] + paragraphs(lines.drop_first(), Seq::empty())
        } else {
            paragraphs(lines.drop_first(), Seq::empty())
        }
    } else {
        paragraphs(lines.drop_first(), cur.push(lines[0]))
    }
}

/// The decoded lines of a paragraph, joined by single newlines.
pub open spec fn join_lines(ls: Seq<Seq<u8>>) -> Seq<char>
    decreases ls.len(),
{
    if ls.len() == 0 {
        Seq::empty()
    } else if ls.len() == 1 {
        decoded(ls[0])
    } else {
        join_lines(ls.drop_last()) + seq!['\n'] + decoded(ls.last())
    }
}

/// The records that `b` holds under the separator mode `irs`.
pub open spec fn records_of(b: Seq<u8>, irs: RecordSeperator) -> Seq<Seq<char>> {
    match irs {
        RecordSeperator::Null => frames(b, 0).map_values(|f: Seq<u8>| decoded(f)),
        RecordSeperator::Line => frames(b, 10).map_values(|f: Seq<u8>| decoded(f)),
        RecordSeperator::Paragraph => paragraphs(frames(b, 10), Seq::empty()).map_values(
            |p: Seq<Seq<u8>>| join_lines(p),
        ),
    }
}

pub(crate) proof fn lemma_first_sep(b: Seq<u8>, sep: u8, i: int)
    requires
        0 <= i <= b.len(),
        forall|j: int| 0 <= j < i ==> b[j] != sep,
        i == b.len() || b[i] == sep,
    ensures
        first_sep(b, sep) == i,
    decreases i,
{
    if i > 0 {
        assert(b[0] != sep);
        lemma_first_sep(b.drop_first(), sep, i - 1);
    }
}

/// A single-pass reader of records from an input held in memory.
pub struct DocReader<'a> {
    read: &'a [u8],
    pos: usize,
    irs: RecordSeperator,
}

impl<'a> DocReader<'a> {
    pub closed spec fn wf(&self) -> bool {
        self.pos <= self.read@.len()
    }

    /// The input that is still to be read.
    pub closed spec fn rest(&self) -> Seq<u8> {
        self.read@.subrange(self.pos as int, self.read@.len() as int)
    }

    pub closed spec fn mode(&self) -> RecordSeperator {
        self.irs
    }

    /// The records that the reader has yet to produce.
    pub open spec fn remaining(&self) -> Seq<Seq<char>> {
        records_of(self.rest(), self.mode())
    }

    pub fn new(read: &'a [u8], irs: RecordSeperator) -> (r: DocReader<'a>)
        ensures
            r.wf(),
            r.rest() == read@,
            r.mode() == irs,
    {
        let r = DocReader { read, pos: 0, irs };
        proof {
            assert(r.rest() =~= read@);
        }
        r
    }

    /// Reads up to the next `byte` or the end of the input, and gives the
    /// span read, the `byte` left out.
    fn next_frame(&mut self, byte: u8) -> (r: Option<(usize, usize)>)
        requires
            old(self).wf(),
        ensures
            final(self).wf(),
            final(self).mode() == old(self).mode(),
            final(self).read == old(self).read,
            frames(old(self).rest(), byte).len() == 0 ==> r is None && final(self).rest()
                == old(self).rest(),
            frames(old(self).rest(), byte).len() > 0 ==> {
                &&& r is Some
                &&& r.unwrap().0 <= r.unwrap().1 <= old(self).read@.len()
                &&& final(self).rest().len() < old(self).rest().len()
                &&& old(self).read@.subrange(r.unwrap().0 as int, r.unwrap().1 as int) == frames(
                    old(self).rest(),
                    byte,
                )[0]
                &&& frames(final(self).rest(), byte) == frames(old(self).rest(), byte).drop_first()
            },
    {
        let n = self.read.len();
        let start = self.pos;
        let ghost b = self.rest();
        if start >= n {
            proof {
                assert(b.len() == 0);
            }
            return None;
        }
        let mut i = start;
        while i < n && self.read[i] != byte
            invariant
                start <= i <= n,
                n == self.read@.len(),
                forall|j: int| start <= j < i ==> self.read@[j] != byte,
            decreases n - i,
        {
            i = i + 1;
        }
        self.pos = if i < n {
            i + 1
        } else {
            n
        };
        proof {
            lemma_first_sep(b, byte, i - start);
            assert(b.subrange(0, i - start) =~= self.read@.subrange(start as int, i as int));
            assert(b.subrange(self.pos - start, b.len() as int) =~= self.rest());
        }
        Some((start, i))
    }

    /// Reads up to the next `byte` or the end of the input, and decodes what
    /// was read, the `byte` left out.
    fn consume_to(&mut self, byte: u8) -> (r: Option<String>)
        requires
            old(self).wf(),
        ensures
            final(self).wf(),
            final(self).mode() == old(self).mode(),
            final(self).read == old(self).read,
            frames(old(self).rest(), byte).len() == 0 ==> r is None && final(self).rest()
                == old(self).rest(),
            frames(old(self).rest(), byte).len() > 0 ==> {
                &&& r is Some
                &&& r.unwrap()@ == decoded(frames(old(self).rest(), byte)[0])
                &&& frames(final(self).rest(), byte) == frames(old(self).rest(), byte).drop_first()
            },
    {
        match self.next_frame(byte) {
            None => None,
            Some((start, end)) => Some(decode_lossy(&self.read[start..end])),
        }
    }

    /// Reads the next paragraph: skips blank lines, then joins the lines up
    /// to the next blank line or the end of the input.
    fn next_paragraph(&mut self) -> (r: Option<String>)
        requires
            old(self).wf(),
        ensures
            final(self).wf(),
            final(self).mode() == old(self).mode(),
            paragraphs(frames(old(self).rest(), 10), Seq::empty()).len() == 0 ==> r is None
                && paragraphs(frames(final(self).rest(), 10), Seq::empty()).len() == 0,
            paragraphs(frames(old(self).rest(), 10), Seq::empty()).len() > 0 ==> {
                &&& r is Some
                &&& r.unwrap()@ == join_lines(
                    paragraphs(frames(old(self).rest(), 10), Seq::empty())[0],
                )
                &&& paragraphs(frames(final(self).rest(), 10), Seq::empty()) == paragraphs(
                    frames(old(self).rest(), 10),
                    Seq::empty(),
                ).drop_first()
            },
    {
        let ghost all = paragraphs(frames(self.rest(), 10), Seq::empty());
        let mut acc = String::new();
        let ghost mut cur: Seq<Seq<u8>> = Seq::empty();
        let mut processed = false;
        proof {
            reveal_strlit("\n");
        }
        loop
            invariant
                self.wf(),
                self.mode() == old(self).mode(),
                self.read == old(self).read,
                all == paragraphs(frames(old(self).rest(), 10), Seq::empty()),
                all == paragraphs(frames(self.rest(), 10), cur),
                processed == (cur.len() > 0),
                acc@ == join_lines(cur),
                "\n"@ == seq!['\n'],
            decreases self.rest().len(),
        {
            let ghost lines = frames(self.rest(), 10);
            match self.next_frame(10u8) {
                None => {
                    if processed {
                        proof {
                            assert(all == seq![cur]);
                        }
                        return Some(acc);
                    } else {
                        return None;
                    }
                },
                Some((start, end)) => {
                    proof {
                        assert(lines.drop_first() == frames(self.rest(), 10));
                    }
                    if start == end {
                        if processed {
                            proof {
                                assert(all == seq![cur] + paragraphs(
                                    frames(self.rest(), 10),
                                    Seq::empty(),
                                ));
                                assert((seq![cur] + paragraphs(
                                    frames(self.rest(), 10),
                                    Seq::empty(),
                                )).drop_first() =~= paragraphs(frames(self.rest(), 10), Seq::empty()));
                            }
                            return Some(acc);
                        }
                        proof {
                            cur = Seq::empty();
                        }
                    } else {
                        let line = decode_lossy(&self.read[start..end]);
                        if processed {
                            acc.append("\n");
                        }
                        acc.append(line.as_str());
                        processed = true;
                        proof {
                            let line_bytes = lines[0];
                            let next = cur.push(line_bytes);
                            assert(next.drop_last() =~= cur);
                            cur = next;
                        }
                    }
                },
            }
        }
    }

    /// Produces the next record.
    pub fn next(&mut self) -> (r: Option<String>)
        requires
            old(self).wf(),
        ensures
            final(self).wf(),
            final(self).mode() == old(self).mode(),
            old(self).remaining().len() == 0 ==> r is None && final(self).remaining().len() == 0,
            old(self).remaining().len() > 0 ==> {
                &&& r is Some
                &&& r.unwrap()@ == old(self).remaining()[0]
                &&& final(self).remaining() == old(self).remaining().drop_first()
            },
    {
        match self.irs {
            RecordSeperator::Null => {
                let r = self.consume_to(0u8);
                proof {
                    assert(self.remaining() =~= old(self).remaining().drop_first()
                        || old(self).remaining().len() == 0);
                }
                r
            },
            RecordSeperator::Line => {
                let r = self.consume_to(10u8);
                proof {
                    assert(self.remaining() =~= old(self).remaining().drop_first()
                        || old(self).remaining().len() == 0);
                }
                r
            },
            RecordSeperator::Paragraph => {
                let r = self.next_paragraph();
                proof {
                    assert(self.remaining() =~= old(self).remaining().drop_first()
                        || old(self).remaining().len() == 0);
                }
                r
            },
        }
    }

    /// Reads every record that is left.
    pub fn collect(self) -> (r: Vec<String>)
        requires
            self.wf(),
        ensures
            r@.len() == self.remaining().len(),
            forall|k: int| 0 <= k < r@.len() ==> #[trigger] r@[k]@ == self.remaining()[k],
    {
        let mut it = self;
        let mut out: Vec<String> = Vec::new();
        let ghost rem = self.remaining();
        loop
            invariant
                it.wf(),
                rem == self.remaining(),
                out@.len() + it.remaining().len() == rem.len(),
                it.remaining() == rem.subrange(out@.len() as int, rem.len() as int),
                forall|k: int| 0 <= k < out@.len() ==> #[trigger] out@[k]@ == rem[k],
            decreases it.remaining().len(),
        {
            let ghost before = it.remaining();
            match it.next() {
                None => {
                    return out;
                },
                Some(s) => {
                    proof {
                        assert(before[0] == rem[out@.len() as int]);
                    }
                    out.push(s);
                    proof {
                        assert(it.remaining() =~= rem.subrange(out@.len() as int, rem.len() as int));
                    }
                },
            }
        }
    }
}

} // verus!
