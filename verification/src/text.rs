use vstd::prelude::*;
use vstd::string::StrSliceExecFns;

verus! {

/// The characters that carry the Unicode `White_Space` property.
pub open spec fn is_white_space(c: char) -> bool {
    ||| ('\u{9}' <= c && c <= '\u{d}')
    ||| c == ' '
    ||| c == '\u{85}'
    ||| c == '\u{a0}'
    ||| c == '\u{1680}'
    ||| ('\u{2000}' <= c && c <= '\u{200a}')
    ||| c == '\u{2028}'
    ||| c == '\u{2029}'
    ||| c == '\u{202f}'
    ||| c == '\u{205f}'
    ||| c == '\u{3000}'
}

fn char_is_white_space(c: char) -> (res: bool)
    ensures
        res == is_white_space(c),
{
    ('\u{9}' <= c && c <= '\u{d}') || c == ' ' || c == '\u{85}' || c == '\u{a0}' || c == '\u{1680}'
        || ('\u{2000}' <= c && c <= '\u{200a}') || c == '\u{2028}' || c == '\u{2029}' || c
        == '\u{202f}' || c == '\u{205f}' || c == '\u{3000}'
}

/// `s` with all leading white space removed.
pub open spec fn trim_start_spec(s: Seq<char>) -> Seq<char>
    decreases s.len(),
{
    if s.len() > 0 && is_white_space(s[0]) {
        trim_start_spec(s.drop_first())
    } else {
        s
    }
}

/// `s` with all trailing white space removed.
pub open spec fn trim_end_spec(s: Seq<char>) -> Seq<char>
    decreases s.len(),
{
    if s.len() > 0 && is_white_space(s.last()) {
        trim_end_spec(s.drop_last())
    } else {
        s
    }
}

/// `s` with leading and trailing white space removed.
pub open spec fn trim_spec(s: Seq<char>) -> Seq<char> {
    trim_end_spec(trim_start_spec(s))
}

proof fn lemma_trim_start_suffix(s: Seq<char>)
    ensures
        exists|i: int|
            0 <= i <= s.len() && trim_start_spec(s) == s.subrange(i, s.len() as int) && (forall|
                j: int,
            | 0 <= j < i ==> is_white_space(#[trigger] s[j])),
        trim_start_spec(s).len() > 0 ==> !is_white_space(trim_start_spec(s)[0]),
    decreases s.len(),
{
    if s.len() > 0 && is_white_space(s[0]) {
        let t = s.drop_first();
        lemma_trim_start_suffix(t);
        let i = choose|i: int|
            0 <= i <= t.len() && trim_start_spec(t) == t.subrange(i, t.len() as int) && (forall|
                j: int,
            | 0 <= j < i ==> is_white_space(#[trigger] t[j]));
        assert(t.subrange(i, t.len() as int) =~= s.subrange(i + 1, s.len() as int));
        assert forall|j: int| 0 <= j < i + 1 implies is_white_space(#[trigger] s[j]) by {
            if j > 0 {
                assert(s[j] == t[j - 1]);
            }
        }
    } else {
        assert(s.subrange(0, s.len() as int) =~= s);
    }
}

proof fn lemma_trim_end_prefix(s: Seq<char>)
    ensures
        exists|k: int|
            0 <= k <= s.len() && trim_end_spec(s) == s.subrange(0, k) && (forall|j: int|
                k <= j < s.len() ==> is_white_space(#[trigger] s[j])),
        trim_end_spec(s).len() > 0 ==> !is_white_space(trim_end_spec(s).last()),
    decreases s.len(),
{
    if s.len() > 0 && is_white_space(s.last()) {
        let t = s.drop_last();
        lemma_trim_end_prefix(t);
        let k = choose|k: int|
            0 <= k <= t.len() && trim_end_spec(t) == t.subrange(0, k) && (forall|j: int|
                k <= j < t.len() ==> is_white_space(#[trigger] t[j]));
        assert(t.subrange(0, k) =~= s.subrange(0, k));
        assert forall|j: int| k <= j < s.len() implies is_white_space(#[trigger] s[j]) by {
            if j < t.len() {
                assert(s[j] == t[j]);
            }
        }
    } else {
        assert(s.subrange(0, s.len() as int) =~= s);
    }
}

proof fn lemma_trim_end_keeps_start(s: Seq<char>)
    requires
        s.len() > 0 ==> !is_white_space(s[0]),
    ensures
        trim_end_spec(s).len() > 0 ==> !is_white_space(trim_end_spec(s)[0]),
    decreases s.len(),
{
    if s.len() > 0 && is_white_space(s.last()) {
        let t = s.drop_last();
        if t.len() > 0 {
            assert(t[0] == s[0]);
        }
        lemma_trim_end_keeps_start(t);
    }
}

/// Trimming keeps a contiguous part of the text, drops only white space
/// around it, and leaves no white space at either end; so trimming twice
/// changes nothing.
pub proof fn lemma_trim_properties(s: Seq<char>)
    ensures
        exists|i: int, k: int|
            0 <= i <= k <= s.len() && trim_spec(s) == s.subrange(i, k) && (forall|j: int|
                0 <= j < i ==> is_white_space(#[trigger] s[j])) && (forall|j: int|
                k <= j < s.len() ==> is_white_space(#[trigger] s[j])),
        trim_spec(s).len() > 0 ==> !is_white_space(trim_spec(s)[0]) && !is_white_space(
            trim_spec(s).last(),
        ),
        trim_spec(trim_spec(s)) == trim_spec(s),
{
    let t = trim_start_spec(s);
    lemma_trim_start_suffix(s);
    lemma_trim_end_prefix(t);
    lemma_trim_end_keeps_start(t);
    let i = choose|i: int|
        0 <= i <= s.len() && trim_start_spec(s) == s.subrange(i, s.len() as int) && (forall|j: int|
            0 <= j < i ==> is_white_space(#[trigger] s[j]));
    let k = choose|k: int|
        0 <= k <= t.len() && trim_end_spec(t) == t.subrange(0, k) && (forall|j: int|
            k <= j < t.len() ==> is_white_space(#[trigger] t[j]));
    assert(trim_spec(s) =~= s.subrange(i, i + k));
    assert forall|j: int| i + k <= j < s.len() implies is_white_space(#[trigger] s[j]) by {
        assert(s[j] == t[j - i]);
    }
    let r = trim_spec(s);
    if r.len() > 0 {
        assert(trim_start_spec(r) == r);
    } else {
        assert(trim_start_spec(r) == r);
    }
    assert(trim_end_spec(r) == r);
}

/// The characters that trimming removes are exactly the 25 code points of
/// the Unicode `White_Space` property; among ASCII characters only tab, line
/// feed, vertical tab, form feed, carriage return and space, so no digit,
/// letter or punctuation mark.
pub proof fn lemma_white_space_code_points(c: char)
    ensures
        is_white_space(c) <==> seq![
            0x9u32, 0xau32, 0xbu32, 0xcu32, 0xdu32, 0x20u32, 0x85u32, 0xa0u32, 0x1680u32,
            0x2000u32, 0x2001u32, 0x2002u32, 0x2003u32, 0x2004u32, 0x2005u32, 0x2006u32,
            0x2007u32, 0x2008u32, 0x2009u32, 0x200au32, 0x2028u32, 0x2029u32, 0x202fu32,
            0x205fu32, 0x3000u32,
        ].contains(c as u32),
        (c as u32) < 0x80 ==> (is_white_space(c) <==> (c == '\t' || c == '\n' || c == '\u{b}'
            || c == '\u{c}' || c == '\r' || c == ' ')),
        ('0' <= c <= '9' || 'a' <= c <= 'z' || 'A' <= c <= 'Z') ==> !is_white_space(c),
{
    let ws = seq![
        0x9u32, 0xau32, 0xbu32, 0xcu32, 0xdu32, 0x20u32, 0x85u32, 0xa0u32, 0x1680u32,
        0x2000u32, 0x2001u32, 0x2002u32, 0x2003u32, 0x2004u32, 0x2005u32, 0x2006u32,
        0x2007u32, 0x2008u32, 0x2009u32, 0x200au32, 0x2028u32, 0x2029u32, 0x202fu32,
        0x205fu32, 0x3000u32,
    ];
    let u = c as u32;
    if is_white_space(c) {
        if 0x9 <= u <= 0xd {
            assert(ws[(u - 0x9) as int] == u);
        } else if 0x2000 <= u <= 0x200a {
            assert(ws[(u - 0x2000 + 9) as int] == u);
        } else if u == 0x20 {
            assert(ws[5] == u);
        } else if u == 0x85 {
            assert(ws[6] == u);
        } else if u == 0xa0 {
            assert(ws[7] == u);
        } else if u == 0x1680 {
            assert(ws[8] == u);
        } else if u == 0x2028 {
            assert(ws[20] == u);
        } else if u == 0x2029 {
            assert(ws[21] == u);
        } else if u == 0x202f {
            assert(ws[22] == u);
        } else if u == 0x205f {
            assert(ws[23] == u);
        } else {
            assert(ws[24] == u);
        }
    }
    if ws.contains(u) {
        let k = choose|k: int| 0 <= k < ws.len() && ws[k] == u;
        assert(is_white_space(c));
    }
}

/// Text that starts and ends with a character that is not white space is
/// left as it is by trimming; so are the ends of any text whose first and
/// last characters are digits or letters.
pub proof fn lemma_trim_keeps_text_without_outer_white_space(s: Seq<char>)
    requires
        s.len() > 0,
        !is_white_space(s[0]),
        !is_white_space(s.last()),
    ensures
        trim_spec(s) == s,
{
}

pub(crate) fn collect_chars(s: &str) -> (res: Vec<char>)
    ensures
        res@ == s@,
{
    let mut res: Vec<char> = Vec::new();
    for c in it: s.chars()
        invariant
            res@ == it.seq().take(it.index() as int),
    {
        res.push(c);
    }
    res
}

/// Returns `s` without its leading and trailing white space, as `str::trim`
/// does; "white space" is the Unicode `White_Space` property.
pub fn trim_white_space(s: &str) -> (res: String)
    ensures
        res@ == trim_spec(s@),
{
    let chars = collect_chars(s);
    let n = chars.len();
    let mut start: usize = 0;
    assert(s@.subrange(0, n as int) =~= s@);
    while start < n && char_is_white_space(chars[start])
        invariant
            start <= n,
            n == chars@.len(),
            chars@ == s@,
            trim_start_spec(s@) == trim_start_spec(s@.subrange(start as int, n as int)),
        decreases n - start,
    {
        assert(s@.subrange(start + 1, n as int) =~= s@.subrange(start as int, n as int).drop_first());
        start = start + 1;
    }
    assert(trim_start_spec(s@) == s@.subrange(start as int, n as int));
    let mut end: usize = n;
    while end > start && char_is_white_space(chars[end - 1])
        invariant
            start <= end <= n,
            n == chars@.len(),
            chars@ == s@,
            trim_end_spec(s@.subrange(start as int, n as int)) == trim_end_spec(
                s@.subrange(start as int, end as int),
            ),
        decreases end,
    {
        assert(s@.subrange(start as int, end - 1) =~= s@.subrange(
            start as int,
            end as int,
        ).drop_last());
        end = end - 1;
    }
    assert(trim_spec(s@) == s@.subrange(start as int, end as int));
    s.substring_char(start, end).to_owned()
}

} // verus!
