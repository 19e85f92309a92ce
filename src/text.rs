//! Splitting raw file content into lines and keeping the ones worth typing.
use std::collections::VecDeque;

use vstd::prelude::*;
use vstd::utf8::encode_utf8;

verus! {

/// Unicode `White_Space`, the set of characters that `str::trim` removes.
pub open spec fn is_white_space(c: char) -> bool {
    let u = c as u32;
    (0x9 <= u <= 0xd) || u == 0x20 || u == 0x85 || u == 0xa0 || u == 0x1680 || (0x2000 <= u
        <= 0x200a) || u == 0x2028 || u == 0x2029 || u == 0x202f || u == 0x205f || u == 0x3000
}

/// `s` without its leading and trailing white space.
pub open spec fn trimmed(s: Seq<char>) -> Seq<char>
    decreases s.len(),
{
    if s.len() > 0 && is_white_space(s[0]) {
        trimmed(s.drop_first())
    } else if s.len() > 0 && is_white_space(s.last()) {
        trimmed(s.drop_last())
    } else {
        s
    }
}

/// Length of `s` in bytes once encoded as UTF-8.
pub open spec fn byte_len(s: Seq<char>) -> nat {
    encode_utf8(s).len()
}

pub open spec fn has_prefix(s: Seq<char>, p: Seq<char>) -> bool {
    p.len() <= s.len() && s.subrange(0, p.len() as int) == p
}

pub open spec fn has_suffix(s: Seq<char>, p: Seq<char>) -> bool {
    p.len() <= s.len() && s.subrange(s.len() - p.len(), s.len() as int) == p
}

pub open spec fn has_infix(s: Seq<char>, p: Seq<char>) -> bool {
    exists|i: int| 0 <= i && i + p.len() <= s.len() && #[trigger] s.subrange(i, i + p.len()) == p
}

/// The pieces of `s` between newlines, as `split('\n')` gives them.
pub open spec fn split_on_newline(s: Seq<char>) -> Seq<Seq<char>>
    decreases s.len(),
{
    if s.len() == 0 {
        seq![Seq::empty()]
    } else {
        let p = split_on_newline(s.drop_last());
        if s.last() == '\n' {
            p.push(Seq::empty())
        } else {
            p.update(p.len() - 1, p.last().push(s.last()))
        }
    }
}

/// The lines of `s`, as `split_terminator('\n')` gives them: a final empty piece is left out.
pub open spec fn split_lines(s: Seq<char>) -> Seq<Seq<char>> {
    let p = split_on_newline(s);
    if p.last().len() == 0 {
        p.drop_last()
    } else {
        p
    }
}

/// The comment marker that disqualifies a line.
pub open spec fn comment_marker() -> Seq<char> {
    seq!['/', '/']
}

/// A trimmed line is kept when it is 10 to 80 bytes long and is not a `//` comment.
pub open spec fn passes_filter(t: Seq<char>) -> bool {
    10 <= byte_len(t) <= 80 && !has_prefix(t, comment_marker())
}

/// What every line handed to a consumer satisfies.
pub open spec fn qualifies(t: Seq<char>) -> bool {
    &&& passes_filter(t)
    &&& t.len() > 0
    &&& !is_white_space(t[0])
    &&& !is_white_space(t.last())
}

/// The trimmed pieces that pass the filter, in order.
pub open spec fn kept_lines(pieces: Seq<Seq<char>>) -> Seq<Seq<char>>
    decreases pieces.len(),
{
    if pieces.len() == 0 {
        Seq::empty()
    } else {
        let r = kept_lines(pieces.drop_last());
        let t = trimmed(pieces.last());
        if passes_filter(t) {
            r.push(t)
        } else {
            r
        }
    }
}

/// The qualifying lines of a file's content, in the order they appear.
pub open spec fn qualifying_lines_of(content: Seq<char>) -> Seq<Seq<char>> {
    kept_lines(split_lines(content))
}

pub open spec fn string_views(v: Seq<String>) -> Seq<Seq<char>> {
    v.map_values(|s: String| s@)
}

/// Relies on `str::trim`: removes leading and trailing Unicode `White_Space`.
#[verifier::external_body]
pub(crate) fn trim(s: &str) -> (r: &str)
    ensures
        r@ == trimmed(s@),
{
    s.trim()
}

/// Relies on `str::split_terminator` with a `"\n"` pattern: the pieces between newlines,
/// without a final empty one.
#[verifier::external_body]
pub(crate) fn split_terminator_newline(s: &str) -> (r: Vec<String>)
    ensures
        string_views(r@) == split_lines(s@),
{
    s.split_terminator("\n").map(String::from).collect()
}

/// Relies on `str::starts_with` with a `&str` pattern.
#[verifier::external_body]
pub(crate) fn starts_with(s: &str, p: &str) -> (r: bool)
    ensures
        r == has_prefix(s@, p@),
{
    s.starts_with(p)
}

/// Relies on `str::ends_with` with a `&str` pattern.
#[verifier::external_body]
pub(crate) fn ends_with(s: &str, p: &str) -> (r: bool)
    ensures
        r == has_suffix(s@, p@),
{
    s.ends_with(p)
}

/// Relies on `str::contains` with a `&str` pattern.
#[verifier::external_body]
pub(crate) fn contains(s: &str, p: &str) -> (r: bool)
    ensures
        r == has_infix(s@, p@),
{
    s.contains(p)
}

/// Trimming leaves no white space at either end.
pub proof fn lemma_trimmed_ends(s: Seq<char>)
    ensures
        trimmed(s).len() > 0 ==> !is_white_space(trimmed(s)[0]) && !is_white_space(
            trimmed(s).last(),
        ),
    decreases s.len(),
{
    if s.len() > 0 && is_white_space(s[0]) {
        lemma_trimmed_ends(s.drop_first());
    } else if s.len() > 0 && is_white_space(s.last()) {
        lemma_trimmed_ends(s.drop_last());
    }
}

/// Every kept line qualifies.
pub proof fn lemma_kept_lines_qualify(pieces: Seq<Seq<char>>)
    ensures
        forall|i: int| 0 <= i < kept_lines(pieces).len() ==> qualifies(#[trigger] kept_lines(pieces)[i]),
    decreases pieces.len(),
{
    if pieces.len() > 0 {
        lemma_kept_lines_qualify(pieces.drop_last());
        lemma_trimmed_ends(pieces.last());
        let t = trimmed(pieces.last());
        let r = kept_lines(pieces);
        let prev = kept_lines(pieces.drop_last());
        if passes_filter(t) {
            if t.len() == 0 {
                assert(encode_utf8(t) =~= Seq::<u8>::empty());
            }
            assert(r == prev.push(t));
            assert forall|i: int| 0 <= i < r.len() implies qualifies(#[trigger] r[i]) by {
                if i < prev.len() {
                    assert(r[i] == prev[i]);
                }
            }
        }
    }
}

/// Whether a trimmed line is one to keep.
pub fn passes(t: &str) -> (r: bool)
    ensures
        r == passes_filter(t@),
{
    proof {
        reveal_strlit("//");
        assert("//"@ =~= comment_marker());
    }
    let n = t.as_bytes().len();
    n >= 10 && n <= 80 && !starts_with(t, "//")
}

/// The qualifying lines of `content`: split on newlines, trimmed, 10 to 80 bytes long and
/// not starting with `//`, in the order they appear.
pub fn qualifying_lines(content: &str) -> (r: VecDeque<String>)
    ensures
        string_views(r@) == qualifying_lines_of(content@),
        forall|i: int| 0 <= i < r@.len() ==> qualifies(#[trigger] r@[i]@),
{
    let pieces = split_terminator_newline(content);
    let mut out: VecDeque<String> = VecDeque::new();
    let mut i: usize = 0;
    while i < pieces.len()
        invariant
            i <= pieces@.len(),
            string_views(pieces@) == split_lines(content@),
            string_views(out@) == kept_lines(string_views(pieces@).subrange(0, i as int)),
        decreases pieces@.len() - i,
    {
        let t = trim(pieces[i].as_str());
        let keep = passes(t);
        let ghost before = string_views(pieces@).subrange(0, i as int);
        let ghost after = string_views(pieces@).subrange(0, i + 1);
        proof {
            assert(after.drop_last() =~= before);
            assert(after.last() == pieces@[i as int]@);
        }
        if keep {
            out.push_back(t.to_owned());
            proof {
                assert(string_views(out@) =~= kept_lines(before).push(t@));
            }
        }
        i = i + 1;
    }
    proof {
        assert(string_views(pieces@).subrange(0, pieces@.len() as int) =~= string_views(pieces@));
        lemma_kept_lines_qualify(split_lines(content@));
        assert forall|i: int| 0 <= i < out@.len() implies qualifies(#[trigger] out@[i]@) by {
            assert(string_views(out@)[i] == out@[i]@);
        }
    }
    out
}

} // verus!
