//! Plain-text primitives shared by the search, bracket and highlighting
//! code: character views, UTF-8 byte offsets, and single edits.

use vstd::prelude::*;
use vstd::utf8::*;

verus! {

broadcast use vstd::string::group_string_axioms;

/// The characters of `s`, in order.
pub fn chars_of(s: &str) -> (r: Vec<char>)
    ensures
        r@ == s@,
{
    let mut r: Vec<char> = Vec::new();
    for c in it: s.chars()
        invariant
            it.seq() == s@,
            r@ == it.seq().take(it.index() as int),
    {
        r.push(c);
        assert(r@ =~= it.seq().take(it.index() as int + 1));
    }
    assert(r@ =~= s@);
    r
}


/// Builds a string holding exactly the given characters.
/// Relies on `String::from_iter` over chars: it appends each in order.
#[verifier::external_body]
pub(crate) fn string_of(chars: &[char]) -> (r: String)
    ensures
        r@ == chars@,
{
    String::from_iter(chars.iter())
}

/// Number of bytes in the UTF-8 encoding of `s`.
pub open spec fn byte_len(s: Seq<char>) -> nat {
    encode_utf8(s).len()
}

/// Whether byte offset `b` falls between two characters of `s` (or at
/// either end) in its UTF-8 encoding.
pub open spec fn char_boundary(s: Seq<char>, b: int) -> bool {
    exists|i: int| 0 <= i <= s.len() && #[trigger] byte_len(s.take(i)) == b
}

/// Encoding distributes over concatenation.
pub proof fn lemma_encode_concat(a: Seq<char>, b: Seq<char>)
    ensures
        encode_utf8(a + b) == encode_utf8(a) + encode_utf8(b),
    decreases a.len(),
{
    if a.len() == 0 {
        assert(a + b =~= b);
        assert(encode_utf8(a) =~= Seq::<u8>::empty());
        assert(encode_utf8(a) + encode_utf8(b) =~= encode_utf8(b));
    } else {
        assert((a + b).drop_first() =~= a.drop_first() + b);
        assert((a + b)[0] == a[0]);
        lemma_encode_concat(a.drop_first(), b);
        assert(encode_scalar(a[0] as u32) + (encode_utf8(a.drop_first()) + encode_utf8(b))
            =~= (encode_scalar(a[0] as u32) + encode_utf8(a.drop_first())) + encode_utf8(b));
    }
}

/// The encoding of one more character grows by that character's width.
pub proof fn lemma_byte_len_step(s: Seq<char>, i: int)
    requires
        0 <= i < s.len(),
    ensures
        byte_len(s.take(i + 1)) == byte_len(s.take(i)) + encode_scalar(s[i] as u32).len(),
        1 <= encode_scalar(s[i] as u32).len() <= 4,
{
    assert(s.take(i + 1) =~= s.take(i) + seq![s[i]]);
    lemma_encode_concat(s.take(i), seq![s[i]]);
    assert(seq![s[i]].drop_first() =~= Seq::<char>::empty());
    assert(encode_utf8(Seq::<char>::empty()) =~= Seq::<u8>::empty());
    assert(encode_utf8(seq![s[i]]) =~= encode_scalar(s[i] as u32));
}

/// Prefix encodings never exceed the whole encoding.
pub proof fn lemma_byte_len_prefix(s: Seq<char>, i: int)
    requires
        0 <= i <= s.len(),
    ensures
        byte_len(s.take(i)) <= byte_len(s),
{
    assert(s =~= s.take(i) + s.skip(i));
    lemma_encode_concat(s.take(i), s.skip(i));
}

/// A text has at least as many bytes as characters.
pub proof fn lemma_chars_within_bytes(s: Seq<char>, i: int)
    requires
        0 <= i <= s.len(),
    ensures
        i <= byte_len(s.take(i)),
    decreases i,
{
    if i > 0 {
        lemma_chars_within_bytes(s, i - 1);
        lemma_byte_len_step(s, i - 1);
    } else {
        assert(s.take(0) =~= Seq::<char>::empty());
    }
}

/// Byte width of `c` in UTF-8.
pub fn utf8_width(c: char) -> (w: usize)
    ensures
        w == encode_scalar(c as u32).len(),
        1 <= w <= 4,
{
    proof {
        char_is_scalar(c);
    }
    let v = c as u32;
    if v <= 0x7F {
        1
    } else if v <= 0x7FF {
        2
    } else if v <= 0xFFFF {
        3
    } else {
        4
    }
}

/// The byte offset of each character position of `t`: entry `i` is the
/// length in bytes of the first `i` characters, for `i` in `0 ..= t.len()`.
pub(crate) fn byte_offsets(t: &Vec<char>, total: usize) -> (r: Vec<usize>)
    requires
        total == byte_len(t@),
    ensures
        r@.len() == t@.len() + 1,
        forall|i: int| 0 <= i <= t@.len() ==> #[trigger] r@[i] == byte_len(t@.take(i)),
        forall|i: int, j: int| 0 <= i < j <= t@.len() ==> r@[i] < r@[j],
{
    let mut r: Vec<usize> = Vec::new();
    let mut acc: usize = 0;
    r.push(0);
    assert(t@.take(0) =~= Seq::<char>::empty());
    let mut i: usize = 0;
    while i < t.len()
        invariant
            i <= t@.len(),
            total == byte_len(t@),
            r@.len() == i + 1,
            acc == r@[i as int],
            forall|k: int| 0 <= k <= i ==> #[trigger] r@[k] == byte_len(t@.take(k)),
            forall|k: int, l: int| 0 <= k < l <= i ==> r@[k] < r@[l],
        decreases t@.len() - i,
    {
        proof {
            lemma_byte_len_step(t@, i as int);
            lemma_byte_len_prefix(t@, i as int + 1);
        }
        let w = utf8_width(t[i]);
        acc = acc + w;
        r.push(acc);
        i = i + 1;
    }
    r
}

/// One replacement of the characters `start .. end` by `text`.
#[derive(Clone, Debug, PartialEq, Eq)]
pub struct TextEdit {
    pub start: usize,
    pub end: usize,
    pub text: String,
}

/// `t` with the characters `start .. end` replaced by `ins`.
pub open spec fn edited(t: Seq<char>, start: int, end: int, ins: Seq<char>) -> Seq<char> {
    t.take(start) + ins + t.skip(end)
}

/// `t` after applying `es` one after the other, each to the result of the
/// ones before it.
pub open spec fn apply_edits(t: Seq<char>, es: Seq<TextEdit>) -> Seq<char>
    decreases es.len(),
{
    if es.len() == 0 {
        t
    } else {
        apply_edits(edited(t, es[0].start as int, es[0].end as int, es[0].text@), es.drop_first())
    }
}

/// The characters `start .. end` of `t`.
pub fn slice_chars(t: &Vec<char>, start: usize, end: usize) -> (r: Vec<char>)
    requires
        start <= end <= t@.len(),
    ensures
        r@ == t@.subrange(start as int, end as int),
{
    let mut r: Vec<char> = Vec::new();
    let mut i: usize = start;
    while i < end
        invariant
            start <= i <= end <= t@.len(),
            r@ == t@.subrange(start as int, i as int),
        decreases end - i,
    {
        r.push(t[i]);
        i = i + 1;
        assert(r@ =~= t@.subrange(start as int, i as int));
    }
    r
}

/// `t` with the characters `start .. end` replaced by `ins`.
pub fn splice_chars(t: &Vec<char>, start: usize, end: usize, ins: &Vec<char>) -> (r: Vec<char>)
    requires
        start <= end <= t@.len(),
    ensures
        r@ == edited(t@, start as int, end as int, ins@),
{
    let mut r = slice_chars(t, 0, start);
    let mut i: usize = 0;
    while i < ins.len()
        invariant
            i <= ins@.len(),
            r@ == t@.take(start as int) + ins@.take(i as int),
        decreases ins@.len() - i,
    {
        r.push(ins[i]);
        i = i + 1;
        assert(r@ =~= t@.take(start as int) + ins@.take(i as int));
    }
    let mut j: usize = end;
    let n = t.len();
    while j < n
        invariant
            end <= j <= n,
            n == t@.len(),
            r@ == t@.take(start as int) + ins@ + t@.subrange(end as int, j as int),
        decreases n - j,
    {
        r.push(t[j]);
        j = j + 1;
        assert(r@ =~= t@.take(start as int) + ins@ + t@.subrange(end as int, j as int));
    }
    assert(ins@.take(ins@.len() as int) =~= ins@);
    assert(t@.subrange(end as int, n as int) =~= t@.skip(end as int));
    r
}

/// The lines, put back together.
pub open spec fn concat_lines(ls: Seq<Seq<char>>) -> Seq<char>
    decreases ls.len(),
{
    if ls.len() == 0 {
        Seq::empty()
    } else {
        concat_lines(ls.drop_last()) + ls.last()
    }
}

/// `ls` are the lines of `t`: each but the last ends with its single line
/// feed, and the last holds none. A text always has at least one line.
pub open spec fn is_line_split(t: Seq<char>, ls: Seq<Seq<char>>) -> bool {
    &&& ls.len() >= 1
    &&& concat_lines(ls) == t
    &&& forall|k: int|
        0 <= k < ls.len() - 1 ==> (#[trigger] ls[k]).len() > 0 && ls[k].last() == '\n' && forall|i: int|
            0 <= i < ls[k].len() - 1 ==> ls[k][i] != '\n'
    &&& forall|i: int| 0 <= i < ls.last().len() ==> ls.last()[i] != '\n'
}

/// The views of a list of strings.
pub open spec fn views(v: Seq<String>) -> Seq<Seq<char>> {
    v.map_values(|s: String| s@)
}

/// Splits `text` into its lines, each keeping its line feed.
pub fn split_lines(text: &str) -> (r: Vec<String>)
    ensures
        is_line_split(text@, views(r@)),
{
    let t = chars_of(text);
    let mut lines: Vec<String> = Vec::new();
    let mut cur: Vec<char> = Vec::new();
    let mut i: usize = 0;
    while i < t.len()
        invariant
            i <= t@.len(),
            concat_lines(views(lines@)) + cur@ == t@.take(i as int),
            forall|k: int|
                0 <= k < lines@.len() ==> (#[trigger] lines@[k])@.len() > 0 && lines@[k]@.last() == '\n'
                    && forall|j: int| 0 <= j < lines@[k]@.len() - 1 ==> lines@[k]@[j] != '\n',
            forall|j: int| 0 <= j < cur@.len() ==> cur@[j] != '\n',
        decreases t@.len() - i,
    {
        let c = t[i];
        let ghost prefix = concat_lines(views(lines@));
        assert(t@.take(i as int + 1) =~= t@.take(i as int).push(c));
        cur.push(c);
        assert(prefix + cur@ =~= t@.take(i as int + 1));
        if c == '\n' {
            let line = string_of(cur.as_slice());
            let ghost before = views(lines@);
            lines.push(line);
            assert(views(lines@).drop_last() =~= before);
            assert(views(lines@).last() == line@);
            assert(concat_lines(views(lines@)) == prefix + line@);
            cur = Vec::new();
            assert(concat_lines(views(lines@)) + cur@ =~= t@.take(i as int + 1));
        } else {
            assert(concat_lines(views(lines@)) + cur@ =~= t@.take(i as int + 1));
        }
        i = i + 1;
    }
    let last = string_of(cur.as_slice());
    let ghost before = views(lines@);
    lines.push(last);
    assert(views(lines@).drop_last() =~= before);
    assert(views(lines@).last() == last@);
    assert(t@.take(t@.len() as int) =~= t@);
    assert forall|k: int| 0 <= k < views(lines@).len() - 1 implies (#[trigger] views(lines@)[k]).len() > 0 && views(lines@)[k].last() == '\n' && forall|j: int|
            0 <= j < views(lines@)[k].len() - 1 ==> views(lines@)[k][j] != '\n' by {
        assert(views(lines@)[k] == lines@[k]@);
    }
    lines
}

} // verus!
