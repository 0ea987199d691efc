//! The longest common prefix of a list of completion candidates.
use vstd::prelude::*;
use vstd::utf8::*;
use crate::text::chars_of;

verus! {

/// How many leading characters `a` and `b` share.
pub open spec fn common_len(a: Seq<char>, b: Seq<char>) -> nat
    decreases a.len(),
{
    if a.len() == 0 || b.len() == 0 || a[0] != b[0] {
        0
    } else {
        1 + common_len(a.drop_first(), b.drop_first())
    }
}

/// How many leading characters `strs[0]` shares with each of `strs[1..k]`.
pub open spec fn min_common(strs: Seq<Seq<char>>, k: int) -> nat
    decreases k,
{
    if k <= 1 {
        strs[0].len()
    } else {
        let m = min_common(strs, k - 1);
        let c = common_len(strs[0], strs[k - 1]);
        if c < m { c } else { m }
    }
}

/// The longest common prefix, in characters, of a non-empty list of strings.
pub open spec fn lcp_chars(strs: Seq<Seq<char>>) -> Seq<char> {
    strs[0].take(min_common(strs, strs.len() as int) as int)
}

/// Where the first string is cut: its whole UTF-8 length for a single string, and
/// otherwise the number of characters common to all the strings, taken as a count of
/// bytes of the first string's UTF-8 encoding.
pub open spec fn lcp_cut(strs: Seq<Seq<char>>) -> nat {
    if strs.len() == 1 {
        encode_utf8(strs[0]).len()
    } else {
        min_common(strs, strs.len() as int)
    }
}

/// What the cut leaves of the first string: the characters whose UTF-8 encoding is
/// the first [`lcp_cut`] bytes.
pub open spec fn lcp_text(strs: Seq<Seq<char>>) -> Seq<char> {
    decode_utf8(encode_utf8(strs[0]).subrange(0, lcp_cut(strs) as int))
}

proof fn lemma_encode_len_ge(s: Seq<char>)
    ensures
        encode_utf8(s).len() >= s.len(),
    decreases s.len(),
{
    if s.len() > 0 {
        lemma_encode_len_ge(s.drop_first());
    }
}

proof fn lemma_encode_concat(a: Seq<char>, b: Seq<char>)
    ensures
        encode_utf8(a + b) == encode_utf8(a) + encode_utf8(b),
    decreases a.len(),
{
    if a.len() == 0 {
        assert(a + b == b);
        assert(encode_utf8(a) + encode_utf8(b) == encode_utf8(b));
    } else {
        assert((a + b)[0] == a[0]);
        assert((a + b).drop_first() == a.drop_first() + b);
        lemma_encode_concat(a.drop_first(), b);
        let e0 = encode_scalar(a[0] as u32);
        assert(e0 + (encode_utf8(a.drop_first()) + encode_utf8(b))
            == (e0 + encode_utf8(a.drop_first())) + encode_utf8(b));
    }
}

proof fn lemma_common_len(a: Seq<char>, b: Seq<char>, k: int)
    requires
        0 <= k <= a.len(),
        k <= b.len(),
        forall|j: int| 0 <= j < k ==> a[j] == b[j],
    ensures
        common_len(a, b) >= k,
        (k == a.len() || k == b.len() || a[k] != b[k]) ==> common_len(a, b) == k,
    decreases k,
{
    if k > 0 {
        assert(a[0] == b[0]);
        assert forall|j: int| 0 <= j < k - 1 implies a.drop_first()[j] == b.drop_first()[j] by {
            assert(a[j + 1] == b[j + 1]);
        }
        lemma_common_len(a.drop_first(), b.drop_first(), k - 1);
    }
}

/// `common_len(a, b)` leading characters agree, and the next ones (if both exist) differ.
pub proof fn lemma_common_len_meaning(a: Seq<char>, b: Seq<char>)
    ensures
        common_len(a, b) <= a.len(),
        common_len(a, b) <= b.len(),
        a.take(common_len(a, b) as int) == b.take(common_len(a, b) as int),
        common_len(a, b) < a.len() && common_len(a, b) < b.len() ==> a[common_len(a, b) as int]
            != b[common_len(a, b) as int],
    decreases a.len(),
{
    if a.len() == 0 || b.len() == 0 || a[0] != b[0] {
        assert(a.take(0) == b.take(0));
    } else {
        lemma_common_len_meaning(a.drop_first(), b.drop_first());
        let c = common_len(a.drop_first(), b.drop_first()) as int;
        assert(a.take(c + 1) == seq![a[0]] + a.drop_first().take(c));
        assert(b.take(c + 1) == seq![b[0]] + b.drop_first().take(c));
    }
}

proof fn lemma_min_common_bounds(strs: Seq<Seq<char>>, k: int)
    requires
        strs.len() > 0,
        1 <= k <= strs.len(),
    ensures
        min_common(strs, k) <= strs[0].len(),
        forall|i: int| 1 <= i < k ==> min_common(strs, k) <= common_len(strs[0], #[trigger] strs[i]),
        k >= 2 ==> exists|i: int| 1 <= i < k && min_common(strs, k) == common_len(strs[0], #[trigger] strs[i]),
    decreases k,
{
    if k > 1 {
        lemma_min_common_bounds(strs, k - 1);
        lemma_common_len_meaning(strs[0], strs[k - 1]);
        let c = common_len(strs[0], strs[k - 1]);
        if k == 2 {
            assert(1 <= 1 < k && min_common(strs, k) == common_len(strs[0], strs[1]));
        } else if c < min_common(strs, k - 1) {
            assert(1 <= k - 1 < k && min_common(strs, k) == common_len(strs[0], strs[k - 1]));
        } else {
            let i = choose|i: int| 1 <= i < k - 1 && min_common(strs, k - 1) == common_len(strs[0], #[trigger] strs[i]);
            assert(1 <= i < k && min_common(strs, k) == common_len(strs[0], strs[i]));
        }
    }
}

/// The longest common prefix is a prefix of every string, and no longer prefix of the
/// first string is a prefix of all the others.
pub proof fn law_lcp_is_longest(strs: Seq<Seq<char>>)
    requires
        strs.len() > 0,
    ensures
        forall|i: int| 0 <= i < strs.len() ==> lcp_chars(strs).is_prefix_of(#[trigger] strs[i]),
        forall|p: Seq<char>|
            p.len() > lcp_chars(strs).len() && #[trigger] p.is_prefix_of(strs[0]) ==> exists|i: int|
                0 < i < strs.len() && !p.is_prefix_of(#[trigger] strs[i]),
{
    let n = strs.len() as int;
    let m = min_common(strs, n);
    lemma_min_common_bounds(strs, n);
    let l = lcp_chars(strs);
    assert(l.len() == m);
    assert forall|i: int| 0 <= i < strs.len() implies l.is_prefix_of(#[trigger] strs[i]) by {
        if i == 0 {
            assert(l == strs[0].take(m as int));
        } else {
            lemma_common_len_meaning(strs[0], strs[i]);
            let c = common_len(strs[0], strs[i]);
            assert(m <= c);
            assert forall|j: int| 0 <= j < l.len() implies l[j] == strs[i][j] by {
                assert(strs[0].take(c as int)[j] == strs[i].take(c as int)[j]);
            }
        }
    }
    assert forall|p: Seq<char>| p.len() > lcp_chars(strs).len() && #[trigger] p.is_prefix_of(strs[0]) implies exists|i: int|
        0 < i < strs.len() && !p.is_prefix_of(#[trigger] strs[i]) by {
        {
            if n == 1 {
                assert(false);
            } else {
                let i = choose|i: int| 1 <= i < n && m == common_len(strs[0], #[trigger] strs[i]);
                lemma_common_len_meaning(strs[0], strs[i]);
                if p.is_prefix_of(strs[i]) {
                    assert(p[m as int] == strs[0][m as int]);
                    assert(p[m as int] == strs[i][m as int]);
                    assert(false);
                }
                assert(!p.is_prefix_of(strs[i]));
            }
        }
    }
}

/// How many leading characters the first string shares with every other one.
fn common_char_count(strings: &[String]) -> (m: usize)
    requires
        strings@.len() > 0,
    ensures
        m == min_common(strings.deep_view(), strings@.len() as int),
        m <= strings@[0]@.len(),
{
    let ghost strs = strings.deep_view();
    let first = &strings[0];
    assert(strs[0] == first@);
    let first_chars = chars_of(first.as_str());
    let mut lcp_len: usize = first_chars.len();
    let mut k: usize = 1;
    while k < strings.len()
        invariant
            strs == strings.deep_view(),
            strs[0] == first@,
            first_chars@ == first@,
            1 <= k <= strings@.len(),
            lcp_len == min_common(strs, k as int),
            lcp_len <= first@.len(),
        decreases strings@.len() - k,
    {
        let s = &strings[k];
        assert(strs[k as int] == s@);
        let s_chars = chars_of(s.as_str());
        let mut count: usize = 0;
        while count < lcp_len && count < s_chars.len() && first_chars[count] == s_chars[count]
            invariant
                count <= lcp_len,
                lcp_len <= first_chars@.len(),
                count <= s_chars@.len(),
                forall|j: int| 0 <= j < count ==> first_chars@[j] == s_chars@[j],
            decreases lcp_len - count,
        {
            count = count + 1;
        }
        proof {
            lemma_common_len(first@, s@, count as int);
            lemma_common_len_meaning(first@, s@);
        }
        lcp_len = count;
        k = k + 1;
    }
    lcp_len
}

/// Whether [`longest_common_prefix`] can cut the first string where it does: the cut
/// must not fall inside the UTF-8 encoding of a character.
pub fn lcp_cut_on_char_boundary(strings: &[String]) -> (ok: bool)
    ensures
        ok == (strings@.len() > 0 ==> is_char_boundary(
            encode_utf8(strings.deep_view()[0]),
            lcp_cut(strings.deep_view()) as int,
        )),
{
    if strings.len() == 0 {
        return true;
    }
    let ghost strs = strings.deep_view();
    assert(strs[0] == strings@[0]@);
    if strings.len() == 1 {
        proof {
            broadcast use encode_utf8_valid_utf8;
            is_char_boundary_start_end_of_seq(encode_utf8(strs[0]));
        }
        return true;
    }
    let m = common_char_count(strings);
    strings[0].as_str().is_char_boundary(m)
}

/// The longest common prefix of the candidates, cut out of the first one.
/// The cut is made at a byte offset equal to the number of common characters (at the
/// whole string for a single one); for an ASCII common prefix that is exactly the
/// longest common prefix, for a longer UTF-8 encoding it is a shorter prefix, and the
/// offset must fall on a character boundary (see [`lcp_cut_on_char_boundary`]).
pub fn longest_common_prefix(strings: &[String]) -> (res: String)
    requires
        strings@.len() > 0 ==> is_char_boundary(
            encode_utf8(strings.deep_view()[0]),
            lcp_cut(strings.deep_view()) as int,
        ),
    ensures
        strings@.len() == 0 ==> res@ == Seq::<char>::empty(),
        strings@.len() > 0 ==> encode_utf8(res@) == encode_utf8(strings@[0]@).subrange(
            0,
            lcp_cut(strings.deep_view()) as int,
        ),
        forall|i: int| 0 <= i < strings@.len() ==> res@.is_prefix_of(#[trigger] strings@[i]@),
        strings@.len() == 1 ==> res@ == strings@[0]@,
        strings@.len() > 0 ==> res@ == lcp_text(strings.deep_view()),
        strings@.len() >= 2 && is_ascii_chars(lcp_chars(strings.deep_view())) ==> res@
            == lcp_chars(strings.deep_view()),
{
    if strings.len() == 0 {
        return String::new();
    }
    let ghost strs = strings.deep_view();
    let first = &strings[0];
    assert(strs[0] == first@);
    if strings.len() == 1 {
        let res = first.clone();
        proof {
            let bytes = encode_utf8(first@);
            assert(bytes.subrange(0, bytes.len() as int) == bytes);
            broadcast use encode_utf8_decode_utf8;
            assert(res@.is_prefix_of(strings@[0]@)) by {
                assert(first@.take(first@.len() as int) == first@);
            }
        }
        return res;
    }
    let lcp_len = common_char_count(strings);
    let ghost cut = lcp_cut(strs);
    assert(lcp_len == cut);
    let (head, _tail) = first.as_str().split_at(lcp_len);
    let res = head.to_owned();
    proof {
        let bytes = encode_utf8(first@);
        broadcast use encode_utf8_valid_utf8, encode_utf8_decode_utf8;
        decode_utf8_split(bytes, cut as int);
        assert(encode_utf8(res@) == bytes.subrange(0, cut as int));
        assert(decode_utf8(bytes.subrange(0, cut as int)) == res@);
        assert(first@ == res@ + decode_utf8(bytes.subrange(cut as int, bytes.len() as int)));
        lemma_encode_len_ge(res@);
        let n = strs.len() as int;
        let m = min_common(strs, n);
        law_lcp_is_longest(strs);
        lemma_min_common_bounds(strs, n);
        assert forall|i: int| 0 <= i < strings@.len() implies res@.is_prefix_of(#[trigger] strings@[i]@) by {
            assert(strs[i] == strings@[i]@);
            assert(lcp_chars(strs).is_prefix_of(strs[i]));
            assert(res@.len() <= m);
            assert forall|j: int| 0 <= j < res@.len() implies res@[j] == strings@[i]@[j] by {
                assert(res@[j] == first@[j]);
                assert(lcp_chars(strs)[j] == first@[j]);
            }
        }
        if is_ascii_chars(lcp_chars(strs)) {
            let l = lcp_chars(strs);
            assert(first@ == l + first@.skip(m as int));
            lemma_encode_concat(l, first@.skip(m as int));
            is_ascii_chars_encode_utf8(l);
            assert(encode_utf8(l).len() == m);
            assert(bytes.subrange(0, cut as int) == encode_utf8(l));
            assert(decode_utf8(encode_utf8(l)) == l);
        }
    }
    res
}

} // verus!
