use vstd::prelude::*;
use vstd::utf8::{
    char_u32_cast, encode_scalar, encode_utf8, encode_utf8_valid_utf8, has_width_1_encoding,
    is_ascii_chars, is_ascii_chars_encode_utf8, is_char_boundary_iff_is_leading_byte,
    last_continuation_byte, pop_first_scalar, valid_utf8, valid_utf8_concat, valid_utf8_split,
};
use crate::lines::{
    chunk_len, chunks, lemma_chunk_len_bounds, lemma_chunk_len_shape, lemma_chunks_flatten,
    lemma_chunks_well_split, lemma_flatten_chunks, line_ok, well_split, LineIterator,
};

verus! {

/// The byte that ends each line of `.envrc`.
pub const NEWLINE: u8 = 10u8;

/// The text that marks the line selecting the environment: `export ENV`.
pub open spec fn marker() -> Seq<u8> {
    seq![101u8, 120u8, 112u8, 111u8, 114u8, 116u8, 32u8, 69u8, 78u8, 86u8]
}

/// The line written in place of each marked line: `export ENV=<e>` and a newline.
pub open spec fn env_line(e: Seq<u8>) -> Seq<u8> {
    marker() + seq![61u8] + e + seq![NEWLINE]
}

/// `needle` occurs somewhere in `hay` as a contiguous run.
pub open spec fn contains(hay: Seq<u8>, needle: Seq<u8>) -> bool {
    exists|i: int| 0 <= i <= hay.len() - needle.len() && #[trigger] hay.subrange(i, i + needle.len()) == needle
}

/// One line after the rewrite: marked lines become `env_line(e)`, others stay.
pub open spec fn rewrite_line(line: Seq<u8>, e: Seq<u8>) -> Seq<u8> {
    if contains(line, marker()) {
        env_line(e)
    } else {
        line
    }
}

/// The lines of `doc`, in order, each cut after its newline.
pub open spec fn envrc_lines(doc: Seq<u8>) -> Seq<Seq<u8>> {
    chunks(doc, NEWLINE)
}

/// The document with every marked line replaced by `env_line(e)`.
pub open spec fn rewritten(doc: Seq<u8>, e: Seq<u8>) -> Seq<u8> {
    envrc_lines(doc).map_values(|l: Seq<u8>| rewrite_line(l, e)).flatten()
}

/// Every line of `doc` is valid UTF-8.
pub open spec fn lines_utf8(doc: Seq<u8>) -> bool {
    forall|k: int| 0 <= k < envrc_lines(doc).len() ==> valid_utf8(#[trigger] envrc_lines(doc)[k])
}

/// Why `.envrc` could not be rewritten.
#[derive(Debug, Clone, Copy, PartialEq, Eq, Structural)]
pub enum EnvrcError {
    /// The file is not valid UTF-8.
    NotUtf8,
}

impl EnvrcError {
    /// A message that names what went wrong with the file.
    pub fn message(&self) -> (r: String)
        ensures
            r@ == "envrc appears to not be valid UTF-8"@,
    {
        match self {
            EnvrcError::NotUtf8 => String::from_str("envrc appears to not be valid UTF-8"),
        }
    }
}

/// Relies on std::str::from_utf8: it succeeds exactly on valid UTF-8.
#[verifier::external_body]
fn is_utf8(b: &[u8]) -> (r: bool)
    ensures
        r == valid_utf8(b@),
{
    std::str::from_utf8(b).is_ok()
}

/// The bytes of `export ENV`.
fn marker_bytes() -> (r: Vec<u8>)
    ensures
        r@ == marker(),
{
    let r: Vec<u8> = vec![101u8, 120u8, 112u8, 111u8, 114u8, 116u8, 32u8, 69u8, 78u8, 86u8];
    assert(r@ == marker());
    r
}

fn append_bytes(out: &mut Vec<u8>, src: &[u8])
    ensures
        final(out)@ == old(out)@ + src@,
{
    let mut i: usize = 0;
    while i < src.len()
        invariant
            i <= src@.len(),
            out@ == old(out)@ + src@.take(i as int),
        decreases src@.len() - i,
    {
        out.push(src[i]);
        i = i + 1;
        assert(src@.take(i as int) == src@.take(i - 1) + seq![src@[i - 1]]);
    }
    assert(src@.take(i as int) == src@);
}

fn env_line_bytes(e: &[u8]) -> (r: Vec<u8>)
    ensures
        r@ == env_line(e@),
{
    let mut r = marker_bytes();
    r.push(61u8);
    append_bytes(&mut r, e);
    r.push(NEWLINE);
    r
}

/// Whether `needle` occurs in `hay`.
pub fn contains_bytes(hay: &[u8], needle: &[u8]) -> (r: bool)
    ensures
        r == contains(hay@, needle@),
{
    if needle.len() > hay.len() {
        return false;
    }
    let n: usize = hay.len();
    let last: usize = n - needle.len();
    let mut i: usize = 0;
    loop
        invariant
            n == hay@.len(),
            last == hay@.len() - needle@.len(),
            i <= last,
            forall|p: int| 0 <= p < i ==> #[trigger] hay@.subrange(p, p + needle@.len()) != needle@,
        decreases last - i,
    {
        let mut j: usize = 0;
        let mut same = true;
        while j < needle.len()
            invariant
                i <= last,
                n == hay@.len(),
                last == hay@.len() - needle@.len(),
                j <= needle@.len(),
                same == (hay@.subrange(i as int, i + j) =~= needle@.take(j as int)),
            decreases needle@.len() - j,
        {
            assert(hay@.subrange(i as int, i + j + 1) =~= hay@.subrange(i as int, i + j) + seq![hay@[i + j]]);
            assert(needle@.take(j + 1) =~= needle@.take(j as int) + seq![needle@[j as int]]);
            assert(i + j < hay@.len());
            if same {
                same = hay[i + j] == needle[j];
                if !same {
                    assert(hay@.subrange(i as int, i + j + 1)[j as int] != needle@.take(j + 1)[j as int]);
                }
            } else {
                assert(hay@.subrange(i as int, i + j + 1).take(j as int) =~= hay@.subrange(i as int, i + j));
                assert(needle@.take(j + 1).take(j as int) =~= needle@.take(j as int));
            }
            j = j + 1;
        }
        assert(needle@.take(j as int) =~= needle@);
        if same {
            return true;
        }
        if i == last {
            return false;
        }
        i = i + 1;
    }
}


proof fn lemma_env_line_marked(e: Seq<u8>)
    ensures
        contains(env_line(e), marker()),
        rewrite_line(env_line(e), e) == env_line(e),
{
    let i: int = 0;
    assert(env_line(e).subrange(i, i + marker().len()) =~= marker());
}

proof fn lemma_env_line_ok(e: Seq<u8>, is_last: bool)
    requires
        !e.contains(NEWLINE),
    ensures
        line_ok(env_line(e), NEWLINE, is_last),
{
    let l = env_line(e);
    assert forall|j: int| 0 <= j < l.len() - 1 implies l[j] != NEWLINE by {
        if j >= 11 {
            assert(l[j] == e[j - 11]);
        }
    }
}

/// Rewriting keeps a split well split, where `e` holds no newline.
proof fn lemma_rewrite_well_split(ls: Seq<Seq<u8>>, e: Seq<u8>)
    requires
        well_split(ls, NEWLINE),
        !e.contains(NEWLINE),
    ensures
        well_split(ls.map_values(|l: Seq<u8>| rewrite_line(l, e)), NEWLINE),
{
    let ms = ls.map_values(|l: Seq<u8>| rewrite_line(l, e));
    assert forall|i: int| 0 <= i < ms.len() implies line_ok(#[trigger] ms[i], NEWLINE, i == ms.len() - 1) by {
        assert(line_ok(ls[i], NEWLINE, i == ls.len() - 1));
        lemma_env_line_ok(e, i == ms.len() - 1);
    }
}

/// A document without a line holding `export ENV` comes out unchanged.
pub proof fn lemma_unmarked_unchanged(doc: Seq<u8>, e: Seq<u8>)
    requires
        forall|k: int| 0 <= k < envrc_lines(doc).len() ==> !contains(#[trigger] envrc_lines(doc)[k], marker()),
    ensures
        rewritten(doc, e) == doc,
{
    let ls = envrc_lines(doc);
    assert(ls.map_values(|l: Seq<u8>| rewrite_line(l, e)) == ls);
    lemma_chunks_flatten(doc, NEWLINE);
}

/// Where exactly one line, the `k`-th, holds `export ENV`, the result is the
/// same lines in the same order with that one replaced by `env_line(e)`.
pub proof fn lemma_single_marked_line(doc: Seq<u8>, e: Seq<u8>, k: int)
    requires
        0 <= k < envrc_lines(doc).len(),
        contains(envrc_lines(doc)[k], marker()),
        forall|j: int| 0 <= j < envrc_lines(doc).len() && j != k ==> !contains(#[trigger] envrc_lines(doc)[j], marker()),
    ensures
        rewritten(doc, e) == envrc_lines(doc).update(k, env_line(e)).flatten(),
{
    let ls = envrc_lines(doc);
    assert(ls.map_values(|l: Seq<u8>| rewrite_line(l, e)) == ls.update(k, env_line(e)));
}

/// Each line of the result is the rewrite of the line of `doc` at the same
/// place, marked lines each replaced on their own, where the new environment
/// holds no newline.
pub proof fn lemma_lines_of_rewritten(doc: Seq<u8>, new_env: Seq<char>)
    requires
        !new_env.contains('\n'),
    ensures
        envrc_lines(rewritten(doc, encode_utf8(new_env))) == envrc_lines(doc).map_values(
            |l: Seq<u8>| rewrite_line(l, encode_utf8(new_env)),
        ),
{
    let e = encode_utf8(new_env);
    lemma_encode_no_newline(new_env);
    lemma_chunks_well_split(doc, NEWLINE);
    lemma_rewrite_well_split(envrc_lines(doc), e);
    lemma_flatten_chunks(envrc_lines(doc).map_values(|l: Seq<u8>| rewrite_line(l, e)), NEWLINE);
}

/// Switching to the same environment twice gives what switching once gives,
/// and the second run succeeds whenever the first did, where the new
/// environment holds no newline.
pub proof fn lemma_set_env_idempotent(doc: Seq<u8>, new_env: Seq<char>)
    requires
        !new_env.contains('\n'),
    ensures
        rewritten(rewritten(doc, encode_utf8(new_env)), encode_utf8(new_env)) == rewritten(doc, encode_utf8(new_env)),
        valid_utf8(doc) ==> valid_utf8(rewritten(doc, encode_utf8(new_env))),
{
    let e = encode_utf8(new_env);
    let ls = envrc_lines(doc);
    let ms = ls.map_values(|l: Seq<u8>| rewrite_line(l, e));
    lemma_lines_of_rewritten(doc, new_env);
    assert forall|i: int| 0 <= i < ms.len() implies rewrite_line(#[trigger] ms[i], e) == ms[i] by {
        lemma_env_line_marked(e);
    }
    assert(ms.map_values(|l: Seq<u8>| rewrite_line(l, e)) == ms);
    lemma_lines_utf8_iff(doc);
    lemma_lines_utf8_iff(rewritten(doc, e));
    if lines_utf8(doc) {
        assert forall|i: int| 0 <= i < ms.len() implies valid_utf8(#[trigger] ms[i]) by {
            assert(valid_utf8(ls[i]));
            if contains(ls[i], marker()) {
                lemma_env_line_utf8(new_env);
            }
        }
    }
}

/// A document is valid UTF-8 exactly when each of its lines is.
pub proof fn lemma_lines_utf8_iff(doc: Seq<u8>)
    ensures
        lines_utf8(doc) <==> valid_utf8(doc),
    decreases doc.len(),
{
    if doc.len() > 0 {
        lemma_chunk_len_bounds(doc, NEWLINE);
        lemma_chunk_len_shape(doc, NEWLINE);
        let k = chunk_len(doc, NEWLINE) as int;
        let head = doc.take(k);
        let tail = doc.skip(k);
        let ls = envrc_lines(doc);
        lemma_lines_utf8_iff(tail);
        assert(ls == seq![head] + envrc_lines(tail));
        assert(lines_utf8(doc) <==> valid_utf8(head) && lines_utf8(tail)) by {
            if valid_utf8(head) && lines_utf8(tail) {
                assert forall|i: int| 0 <= i < ls.len() implies valid_utf8(#[trigger] ls[i]) by {
                    if i > 0 {
                        assert(ls[i] == envrc_lines(tail)[i - 1]);
                    }
                }
            }
            if lines_utf8(doc) {
                assert(valid_utf8(ls[0]));
                assert forall|i: int| 0 <= i < envrc_lines(tail).len() implies valid_utf8(#[trigger] envrc_lines(tail)[i]) by {
                    assert(envrc_lines(tail)[i] == ls[i + 1]);
                }
            }
        }
        assert(doc == head + tail);
        if valid_utf8(head) && valid_utf8(tail) {
            valid_utf8_concat(head, tail);
        }
        if valid_utf8(doc) {
            if k == doc.len() {
                assert(head == doc);
                assert(tail.len() == 0);
            } else {
                let j = k - 1;
                assert(doc[j] == NEWLINE);
                is_char_boundary_iff_is_leading_byte(doc, j);
                valid_utf8_split(doc, j);
                let before = doc.subrange(0, j);
                let rest = doc.subrange(j, doc.len() as int);
                assert(valid_utf8(rest));
                assert(rest[0] == NEWLINE);
                assert(pop_first_scalar(rest) == tail);
                lemma_ascii_utf8(seq![NEWLINE]);
                valid_utf8_concat(before, seq![NEWLINE]);
                assert(head == before + seq![NEWLINE]);
            }
        }
    }
}

proof fn lemma_scalar_no_newline(v: u32)
    requires
        v != 10,
    ensures
        !encode_scalar(v).contains(NEWLINE),
{
    let b = encode_scalar(v);
    assert(v <= 0x7f ==> (v & 0x7f) == v) by (bit_vector);
    assert(forall|y: u8| #[trigger] (0x80u8 | y) != 10u8) by (bit_vector);
    assert(forall|y: u8| #[trigger] (0xC0u8 | y) != 10u8) by (bit_vector);
    assert(forall|y: u8| #[trigger] (0xE0u8 | y) != 10u8) by (bit_vector);
    assert(forall|y: u8| #[trigger] (0xF0u8 | y) != 10u8) by (bit_vector);
    assert forall|i: int| 0 <= i < b.len() implies b[i] != NEWLINE by {
        if !has_width_1_encoding(v) {
            assert(last_continuation_byte(v) != NEWLINE);
        }
    }
}

/// The UTF-8 bytes of text without a newline hold no newline byte.
proof fn lemma_encode_no_newline(chars: Seq<char>)
    requires
        !chars.contains('\n'),
    ensures
        !encode_utf8(chars).contains(NEWLINE),
    decreases chars.len(),
{
    if chars.len() > 0 {
        assert(chars[0] != '\n');
        assert(chars[0] as u32 != 10) by {
            if chars[0] as u32 == 10 {
                char_u32_cast(chars[0], 10);
                char_u32_cast('\n', 10);
            }
        }
        lemma_scalar_no_newline(chars[0] as u32);
        let rest = chars.drop_first();
        assert(!rest.contains('\n')) by {
            if rest.contains('\n') {
                let i = choose|i: int| 0 <= i < rest.len() && rest[i] == '\n';
                assert(chars[i + 1] == '\n');
            }
        }
        lemma_encode_no_newline(rest);
        let head = encode_scalar(chars[0] as u32);
        let tail = encode_utf8(rest);
        assert(encode_utf8(chars) == head + tail);
        assert forall|i: int| 0 <= i < head.len() + tail.len() implies (head + tail)[i] != NEWLINE by {
            if i < head.len() {
                assert((head + tail)[i] == head[i]);
            } else {
                assert((head + tail)[i] == tail[i - head.len()]);
            }
        }
    }
}

proof fn lemma_ascii_utf8(b: Seq<u8>)
    requires
        forall|i: int| 0 <= i < b.len() ==> b[i] < 128,
    ensures
        valid_utf8(b),
{
    let cs = Seq::new(b.len(), |i: int| b[i] as char);
    assert(is_ascii_chars(cs));
    is_ascii_chars_encode_utf8(cs);
    assert(encode_utf8(cs) == b);
    encode_utf8_valid_utf8(cs);
}

proof fn lemma_env_line_utf8(new_env: Seq<char>)
    ensures
        valid_utf8(env_line(encode_utf8(new_env))),
{
    let head = marker() + seq![61u8];
    let tail = seq![NEWLINE];
    lemma_ascii_utf8(head);
    lemma_ascii_utf8(tail);
    encode_utf8_valid_utf8(new_env);
    valid_utf8_concat(head, encode_utf8(new_env));
    valid_utf8_concat(head + encode_utf8(new_env), tail);
    assert(env_line(encode_utf8(new_env)) == head + encode_utf8(new_env) + tail);
}

/// The `set-env` command: the environment to switch `.envrc` to.
pub struct SetEnv {
    pub new_env: String,
}

/// Rewrites the contents of `.envrc` for `set-env`: every line that contains
/// `export ENV` becomes `export ENV=<new_env>` with a newline; all other lines
/// are kept byte for byte and in order. Fails when the file is not valid
/// UTF-8.
pub fn set_env(opts: &SetEnv, envrc: Vec<u8>) -> (r: Result<Vec<u8>, EnvrcError>)
    ensures
        (r is Ok) <==> valid_utf8(envrc@),
        r matches Ok(v) ==> v@ == rewritten(envrc@, encode_utf8(opts.new_env@)),
        r matches Err(e) ==> e == EnvrcError::NotUtf8,
{
    let ghost e = encode_utf8(opts.new_env@);
    let ghost doc = envrc@;
    proof {
        lemma_lines_utf8_iff(doc);
    }
    let ghost f = |l: Seq<u8>| rewrite_line(l, e);
    let needle = marker_bytes();
    let replacement = env_line_bytes(opts.new_env.as_str().as_bytes());
    let mut out: Vec<u8> = Vec::new();
    let mut it = LineIterator::new(NEWLINE, envrc);
    let ghost all = it.lines();
    let ghost mut k: int = 0;
    loop
        invariant
            it.wf(),
            it.delimiter_spec() == NEWLINE,
            doc == envrc@,
            lines_utf8(doc) <==> valid_utf8(doc),
            e == encode_utf8(opts.new_env@),
            f == (|l: Seq<u8>| rewrite_line(l, e)),
            all == envrc_lines(doc),
            0 <= k <= all.len(),
            it.lines() == all.skip(k),
            needle@ == marker(),
            replacement@ == env_line(e),
            out@ == all.take(k).map_values(f).flatten(),
            forall|j: int| 0 <= j < k ==> valid_utf8(#[trigger] all[j]),
        decreases it.lines().len(),
    {
        let ghost before = it.lines();
        match it.next() {
            None => {
                proof {
                    assert(all.skip(k).len() == 0);
                    assert(all.take(k) == all);
                    assert(lines_utf8(doc));
                }
                return Ok(out);
            },
            Some(line) => {
                assert(line@ == all[k]) by {
                    assert(before[0] == all.skip(k)[0]);
                }
                if !is_utf8(line.as_slice()) {
                    assert(!valid_utf8(envrc_lines(doc)[k]));
                    return Err(EnvrcError::NotUtf8);
                }
                if contains_bytes(line.as_slice(), needle.as_slice()) {
                    append_bytes(&mut out, replacement.as_slice());
                } else {
                    append_bytes(&mut out, line.as_slice());
                }
                proof {
                    assert(all.take(k + 1).map_values(f) == all.take(k).map_values(f).push(f(all[k])));
                    all.take(k).map_values(f).lemma_flatten_push(f(all[k]));
                    k = k + 1;
                }
            },
        }
    }
}

} // verus!
