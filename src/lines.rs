use vstd::prelude::*;

verus! {

/// Length of the first chunk of `s`: the bytes up to and including the first
/// `d`, or all of `s` where no `d` occurs.
pub open spec fn chunk_len(s: Seq<u8>, d: u8) -> nat
    decreases s.len(),
{
    if s.len() == 0 {
        0
    } else if s[0] == d {
        1
    } else {
        1 + chunk_len(s.drop_first(), d)
    }
}

pub proof fn lemma_chunk_len_bounds(s: Seq<u8>, d: u8)
    ensures
        s.len() == 0 ==> chunk_len(s, d) == 0,
        s.len() > 0 ==> 1 <= chunk_len(s, d) <= s.len(),
    decreases s.len(),
{
    if s.len() > 0 && s[0] != d {
        lemma_chunk_len_bounds(s.drop_first(), d);
    }
}

/// `s` cut into delimiter-terminated chunks; only the last may lack the
/// delimiter.
pub open spec fn chunks(s: Seq<u8>, d: u8) -> Seq<Seq<u8>>
    decreases s.len(),
    via chunks_decreases
{
    if s.len() == 0 {
        Seq::empty()
    } else {
        let k = chunk_len(s, d) as int;
        seq![s.take(k)] + chunks(s.skip(k), d)
    }
}

#[via_fn]
proof fn chunks_decreases(s: Seq<u8>, d: u8) {
    lemma_chunk_len_bounds(s, d);
}

/// A lazy reader of delimiter-terminated chunks over a byte buffer.
pub struct LineIterator {
    delimiter: u8,
    data: Vec<u8>,
    pos: usize,
}

impl LineIterator {
    pub closed spec fn wf(&self) -> bool {
        self.pos <= self.data.len()
    }

    /// The delimiter that ends each chunk.
    pub closed spec fn delimiter_spec(&self) -> u8 {
        self.delimiter
    }

    /// The bytes not yet handed out.
    pub closed spec fn remaining(&self) -> Seq<u8> {
        self.data@.skip(self.pos as int)
    }

    /// The chunks still to come, in order.
    pub open spec fn lines(&self) -> Seq<Seq<u8>> {
        chunks(self.remaining(), self.delimiter_spec())
    }

    pub fn new(delimiter: u8, reader: Vec<u8>) -> (r: Self)
        ensures
            r.wf(),
            r.delimiter_spec() == delimiter,
            r.remaining() == reader@,
    {
        LineIterator { delimiter, data: reader, pos: 0 }
    }

    /// Hands out the next chunk: the bytes up to and including the next
    /// delimiter, or up to the end of the buffer. `None` once all is read.
    pub fn next(&mut self) -> (r: Option<Vec<u8>>)
        requires
            old(self).wf(),
        ensures
            final(self).wf(),
            final(self).delimiter_spec() == old(self).delimiter_spec(),
            old(self).lines().len() == 0 ==> r is None && final(self).remaining() == old(self).remaining(),
            old(self).lines().len() > 0 ==> r is Some
                && r->Some_0@ == old(self).lines()[0]
                && final(self).lines() == old(self).lines().drop_first(),
            old(self).remaining() == match r {
                Some(c) => c@ + final(self).remaining(),
                None => Seq::empty(),
            },
    {
        let ghost rem = self.remaining();
        let ghost d = self.delimiter;
        if self.pos == self.data.len() {
            assert(rem.len() == 0);
            return None;
        }
        let mut buf: Vec<u8> = Vec::new();
        let mut i: usize = self.pos;
        let mut done = false;
        while !done && i < self.data.len()
            invariant
                self.pos < i || (self.pos == i && !done),
                i <= self.data.len(),
                self.pos < self.data.len(),
                rem == self.data@.skip(self.pos as int),
                d == self.delimiter,
                buf@ == self.data@.subrange(self.pos as int, i as int),
                done ==> buf@.last() == d,
                forall|j: int| self.pos <= j < i && (j < i - 1 || !done) ==> self.data@[j] != d,
            decreases self.data.len() - i,
        {
            let b = self.data[i];
            buf.push(b);
            i = i + 1;
            if b == self.delimiter {
                done = true;
            }
        }
        proof {
            let k = (i - self.pos) as int;
            lemma_chunk_len_prefix(rem, d, k, done);
            assert(buf@ == rem.take(k));
            lemma_chunk_len_bounds(rem, d);
            assert(chunks(rem, d) == seq![rem.take(k)] + chunks(rem.skip(k), d));
            assert(rem.skip(k) == self.data@.skip(i as int));
            assert(rem == rem.take(k) + rem.skip(k));
        }
        self.pos = i;
        Some(buf)
    }
}


/// A line as `chunks` cuts it: not empty, no delimiter but possibly at its
/// end, and ended by the delimiter unless it is the last line.
pub open spec fn line_ok(l: Seq<u8>, d: u8, is_last: bool) -> bool {
    &&& l.len() > 0
    &&& forall|j: int| 0 <= j < l.len() - 1 ==> l[j] != d
    &&& !is_last ==> l.last() == d
}

/// Every element of `ls` is a line as `chunks` cuts it.
pub open spec fn well_split(ls: Seq<Seq<u8>>, d: u8) -> bool {
    forall|i: int| 0 <= i < ls.len() ==> line_ok(#[trigger] ls[i], d, i == ls.len() - 1)
}

/// The first chunk holds no delimiter but possibly at its end, and ends with
/// one unless it is all of `s`.
pub proof fn lemma_chunk_len_shape(s: Seq<u8>, d: u8)
    requires
        s.len() > 0,
    ensures
        forall|j: int| 0 <= j < chunk_len(s, d) - 1 ==> s[j] != d,
        chunk_len(s, d) < s.len() ==> s[chunk_len(s, d) - 1] == d,
    decreases s.len(),
{
    if s[0] != d && s.len() > 1 {
        let t = s.drop_first();
        lemma_chunk_len_shape(t, d);
        lemma_chunk_len_bounds(t, d);
        assert forall|j: int| 0 <= j < chunk_len(s, d) - 1 implies s[j] != d by {
            if j > 0 {
                assert(s[j] == t[j - 1]);
            }
        }
        if chunk_len(s, d) < s.len() {
            assert(s[chunk_len(s, d) - 1] == t[chunk_len(t, d) - 1]);
        }
    } else {
        lemma_chunk_len_bounds(s, d);
        assert(chunk_len(s, d) == 1) by {
            if s[0] != d {
                assert(chunk_len(s.drop_first(), d) == 0);
            }
        }
    }
}

/// Joining the chunks of `s` gives `s` back.
pub proof fn lemma_chunks_flatten(s: Seq<u8>, d: u8)
    ensures
        chunks(s, d).flatten() == s,
    decreases s.len(),
{
    if s.len() > 0 {
        lemma_chunk_len_bounds(s, d);
        let k = chunk_len(s, d) as int;
        lemma_chunks_flatten(s.skip(k), d);
        let cs = chunks(s, d);
        assert(cs.drop_first() == chunks(s.skip(k), d));
        assert(s == s.take(k) + s.skip(k));
    }
}

/// The chunks of `s` are well split.
pub proof fn lemma_chunks_well_split(s: Seq<u8>, d: u8)
    ensures
        well_split(chunks(s, d), d),
    decreases s.len(),
{
    if s.len() > 0 {
        lemma_chunk_len_bounds(s, d);
        lemma_chunk_len_shape(s, d);
        let k = chunk_len(s, d) as int;
        let rest = chunks(s.skip(k), d);
        lemma_chunks_well_split(s.skip(k), d);
        let cs = chunks(s, d);
        assert forall|i: int| 0 <= i < cs.len() implies line_ok(#[trigger] cs[i], d, i == cs.len() - 1) by {
            if i > 0 {
                assert(cs[i] == rest[i - 1]);
            } else {
                if k == s.len() {
                    assert(s.skip(k).len() == 0);
                    assert(rest.len() == 0);
                }
            }
        }
    }
}

/// Cutting the join of well-split lines gives those lines back.
pub proof fn lemma_flatten_chunks(ls: Seq<Seq<u8>>, d: u8)
    requires
        well_split(ls, d),
    ensures
        chunks(ls.flatten(), d) == ls,
    decreases ls.len(),
{
    if ls.len() > 0 {
        let l = ls[0];
        let rest = ls.drop_first();
        let s = ls.flatten();
        assert(s == l + rest.flatten());
        assert(line_ok(ls[0], d, 0 == ls.len() - 1));
        assert forall|i: int| 0 <= i < rest.len() implies line_ok(#[trigger] rest[i], d, i == rest.len() - 1) by {
            assert(rest[i] == ls[i + 1]);
        }
        lemma_flatten_chunks(rest, d);
        let ends = l.last() == d;
        if !ends {
            assert(rest.len() == 0);
            assert(rest.flatten().len() == 0);
        }
        assert forall|j: int| 0 <= j < l.len() && (j < l.len() - 1 || !ends) implies s[j] != d by {
            assert(s[j] == l[j]);
        }
        lemma_chunk_len_prefix(s, d, l.len() as int, ends);
        assert(s.take(l.len() as int) == l);
        assert(s.skip(l.len() as int) == rest.flatten());
        assert(ls == seq![l] + rest);
    }
}

/// Where no delimiter occurs among the first `k - 1` bytes and byte `k - 1` is
/// one (or `k` is the whole length), the first chunk has length `k`.
proof fn lemma_chunk_len_prefix(s: Seq<u8>, d: u8, k: int, ends_with_delim: bool)
    requires
        0 < k <= s.len(),
        forall|j: int| 0 <= j < k && (j < k - 1 || !ends_with_delim) ==> s[j] != d,
        ends_with_delim ==> s[k - 1] == d,
        !ends_with_delim ==> k == s.len(),
    ensures
        chunk_len(s, d) == k,
    decreases k,
{
    if s[0] != d {
        let t = s.drop_first();
        if k > 1 {
            assert forall|j: int| 0 <= j < k - 1 && (j < k - 2 || !ends_with_delim) implies t[j] != d by {
                assert(t[j] == s[j + 1]);
            }
            assert(ends_with_delim ==> t[k - 2] == s[k - 1]);
            lemma_chunk_len_prefix(t, d, k - 1, ends_with_delim);
            assert(chunk_len(s, d) == 1 + chunk_len(t, d));
        } else {
            assert(!ends_with_delim);
            assert(t.len() == 0);
            assert(chunk_len(t, d) == 0);
            assert(chunk_len(s, d) == 1 + chunk_len(t, d));
        }
    } else {
        assert(!(0 < k - 1 || !ends_with_delim)) by {
            if 0 < k - 1 || !ends_with_delim {
                assert(s[0] != d);
            }
        }
    }
}

} // verus!
