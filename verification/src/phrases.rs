//! The cycling phrase list: the live list from the phrase editor, cleaned,
//! with the phrases baked into the build as the fallback.

use vstd::prelude::*;

verus! {

/// A character with the Unicode `White_Space` property: tab through
/// carriage return, space, next line, no-break space, ogham space mark, en
/// quad through hair space, line and paragraph separators, narrow no-break
/// space, medium mathematical space and ideographic space.
pub open spec fn white_space(c: char) -> bool {
    let u = c as u32;
    ||| 0x09 <= u <= 0x0d
    ||| u == 0x20
    ||| u == 0x85
    ||| u == 0xa0
    ||| u == 0x1680
    ||| 0x2000 <= u <= 0x200a
    ||| u == 0x2028
    ||| u == 0x2029
    ||| u == 0x202f
    ||| u == 0x205f
    ||| u == 0x3000
}

/// How many white-space characters `s` starts with.
pub open spec fn leading_white(s: Seq<char>) -> nat
    decreases s.len(),
{
    if s.len() > 0 && white_space(s[0]) {
        1 + leading_white(s.drop_first())
    } else {
        0
    }
}

/// How many white-space characters `s` ends with.
pub open spec fn trailing_white(s: Seq<char>) -> nat
    decreases s.len(),
{
    if s.len() > 0 && white_space(s.last()) {
        1 + trailing_white(s.drop_last())
    } else {
        0
    }
}

/// `s` without its leading and trailing white space.
pub open spec fn trimmed(s: Seq<char>) -> Seq<char> {
    if leading_white(s) == s.len() {
        Seq::empty()
    } else {
        s.subrange(leading_white(s) as int, s.len() - trailing_white(s))
    }
}

/// Whether `c` is a `White_Space` character.
fn is_white_space(c: char) -> (r: bool)
    ensures
        r == white_space(c),
{
    let u = c as u32;
    (0x09 <= u && u <= 0x0d) || u == 0x20 || u == 0x85 || u == 0xa0 || u == 0x1680 || (0x2000 <= u
        && u <= 0x200a) || u == 0x2028 || u == 0x2029 || u == 0x202f || u == 0x205f || u == 0x3000
}

/// Counting white space from the front stops at the first other character.
proof fn lemma_leading_white(s: Seq<char>, a: int)
    requires
        0 <= a <= s.len(),
        forall|i: int| 0 <= i < a ==> white_space(#[trigger] s[i]),
        a < s.len() ==> !white_space(s[a]),
    ensures
        leading_white(s) == a,
    decreases a,
{
    if a > 0 {
        let t = s.drop_first();
        assert forall|i: int| 0 <= i < a - 1 implies white_space(#[trigger] t[i]) by {
            assert(t[i] == s[i + 1]);
        }
        if a - 1 < t.len() {
            assert(t[a - 1] == s[a]);
        }
        lemma_leading_white(t, a - 1);
        assert(white_space(s[0]));
    }
}

/// Counting white space from the back stops at the last other character.
proof fn lemma_trailing_white(s: Seq<char>, b: int)
    requires
        0 <= b <= s.len(),
        forall|i: int| b <= i < s.len() ==> white_space(#[trigger] s[i]),
        b > 0 ==> !white_space(s[b - 1]),
    ensures
        trailing_white(s) == s.len() - b,
    decreases s.len() - b,
{
    if b < s.len() {
        let t = s.drop_last();
        assert forall|i: int| b <= i < t.len() implies white_space(#[trigger] t[i]) by {
            assert(t[i] == s[i]);
        }
        if b > 0 {
            assert(t[b - 1] == s[b - 1]);
        }
        lemma_trailing_white(t, b);
        assert(white_space(s.last()));
    }
}

/// The text without its leading and trailing white space, as an owned
/// `String` (what `str::trim` gives).
fn trim_text(s: &str) -> (r: String)
    ensures
        r@ == trimmed(s@),
{
    let n = s.unicode_len();
    let mut a: usize = 0;
    loop
        invariant
            n == s@.len(),
            a <= n,
            forall|i: int| 0 <= i < a ==> white_space(#[trigger] s@[i]),
        ensures
            a <= n,
            forall|i: int| 0 <= i < a ==> white_space(#[trigger] s@[i]),
            a < n ==> !white_space(s@[a as int]),
        decreases n - a,
    {
        if a == n {
            break;
        }
        if !is_white_space(s.get_char(a)) {
            break;
        }
        a = a + 1;
    }
    proof {
        lemma_leading_white(s@, a as int);
    }
    if a == n {
        return String::new();
    }
    let mut b: usize = n;
    loop
        invariant
            n == s@.len(),
            a < b <= n,
            !white_space(s@[a as int]),
            forall|i: int| b <= i < n ==> white_space(#[trigger] s@[i]),
        ensures
            a < b <= n,
            forall|i: int| b <= i < n ==> white_space(#[trigger] s@[i]),
            !white_space(s@[b - 1]),
        decreases b,
    {
        if !is_white_space(s.get_char(b - 1)) {
            break;
        }
        b = b - 1;
    }
    proof {
        lemma_trailing_white(s@, b as int);
    }
    String::from_str(s.substring_char(a, b))
}

/// The texts of a list of strings.
pub open spec fn texts(v: Seq<String>) -> Seq<Seq<char>> {
    v.map_values(|s: String| s@)
}

/// The texts that are not empty, in order.
pub open spec fn nonempty_only(ts: Seq<Seq<char>>) -> Seq<Seq<char>>
    decreases ts.len(),
{
    if ts.len() == 0 {
        Seq::empty()
    } else {
        let rest = nonempty_only(ts.drop_last());
        if ts.last().len() > 0 {
            rest.push(ts.last())
        } else {
            rest
        }
    }
}

/// The trimmed texts of the entries that are strings, in order.
pub open spec fn trimmed_entries(raw: Seq<Option<String>>) -> Seq<Seq<char>>
    decreases raw.len(),
{
    if raw.len() == 0 {
        Seq::empty()
    } else {
        let rest = trimmed_entries(raw.drop_last());
        match raw.last() {
            Some(t) => rest.push(trimmed(t@)),
            None => rest,
        }
    }
}

/// The phrases to cycle through: the non-empty candidates, or the fallback
/// list when none is left.
pub open spec fn chosen(candidates: Seq<Seq<char>>, fallback: Seq<Seq<char>>) -> Seq<Seq<char>> {
    if nonempty_only(candidates).len() > 0 {
        nonempty_only(candidates)
    } else {
        fallback
    }
}

fn copy_strings(v: &Vec<String>) -> (out: Vec<String>)
    ensures
        texts(out@) == texts(v@),
        out@.len() == v@.len(),
{
    let mut out: Vec<String> = Vec::new();
    let mut i: usize = 0;
    while i < v.len()
        invariant
            i <= v@.len(),
            out@.len() == i,
            texts(out@) == texts(v@).subrange(0, i as int),
        decreases v@.len() - i,
    {
        out.push(v[i].clone());
        proof {
            assert(texts(v@).subrange(0, i + 1) =~= texts(v@).subrange(0, i as int).push(v@[i as int]@));
            assert(texts(out@) =~= texts(v@).subrange(0, i + 1));
        }
        i = i + 1;
    }
    proof {
        assert(texts(v@).subrange(0, v@.len() as int) =~= texts(v@));
    }
    out
}

/// Keep the non-empty phrases of an already trimmed list; fall back to
/// `fallback` when none is left.
pub fn choose_phrases(trimmed_list: Vec<String>, fallback: &Vec<String>) -> (out: Vec<String>)
    ensures
        texts(out@) == chosen(texts(trimmed_list@), texts(fallback@)),
        fallback@.len() > 0 ==> out@.len() > 0,
{
    let ghost cands = texts(trimmed_list@);
    let mut out: Vec<String> = Vec::new();
    let mut i: usize = 0;
    while i < trimmed_list.len()
        invariant
            cands == texts(trimmed_list@),
            i <= trimmed_list@.len(),
            texts(out@) == nonempty_only(cands.subrange(0, i as int)),
        decreases trimmed_list@.len() - i,
    {
        let t = &trimmed_list[i];
        proof {
            assert(cands.subrange(0, i + 1).drop_last() =~= cands.subrange(0, i as int));
            assert(cands.subrange(0, i + 1).last() == t@);
        }
        if !t.as_str().is_empty() {
            out.push(t.clone());
            proof {
                assert(texts(out@) =~= nonempty_only(cands.subrange(0, i as int)).push(t@));
            }
        }
        i = i + 1;
    }
    proof {
        assert(cands.subrange(0, trimmed_list@.len() as int) =~= cands);
    }
    if out.len() > 0 {
        out
    } else {
        copy_strings(fallback)
    }
}

/// The live phrase list: each entry that is a string, trimmed; the empty
/// ones dropped; the fallback list when nothing is left.
pub fn current_phrases(raw: &Vec<Option<String>>, fallback: &Vec<String>) -> (out: Vec<String>)
    ensures
        texts(out@) == chosen(trimmed_entries(raw@), texts(fallback@)),
        fallback@.len() > 0 ==> out@.len() > 0,
{
    let mut cleaned: Vec<String> = Vec::new();
    let mut i: usize = 0;
    while i < raw.len()
        invariant
            i <= raw@.len(),
            texts(cleaned@) == trimmed_entries(raw@.subrange(0, i as int)),
        decreases raw@.len() - i,
    {
        proof {
            assert(raw@.subrange(0, i + 1).drop_last() =~= raw@.subrange(0, i as int));
        }
        match &raw[i] {
            Some(t) => {
                let s = trim_text(t.as_str());
                cleaned.push(s);
                proof {
                    assert(texts(cleaned@) =~= trimmed_entries(raw@.subrange(0, i as int)).push(
                        trimmed(t@),
                    ));
                }
            },
            None => {},
        }
        i = i + 1;
    }
    proof {
        assert(raw@.subrange(0, raw@.len() as int) =~= raw@);
    }
    choose_phrases(cleaned, fallback)
}

/// The phrases baked into the build, or the single default phrase when the
/// baked list holds none.
pub fn baked_phrases(parsed: Vec<String>) -> (out: Vec<String>)
    ensures
        parsed@.len() > 0 ==> texts(out@) == texts(parsed@),
        parsed@.len() == 0 ==> out@.len() == 1 && out@[0]@ == "BUILDS TECHNOLOGY"@,
        out@.len() > 0,
{
    if parsed.len() > 0 {
        parsed
    } else {
        let mut out: Vec<String> = Vec::new();
        out.push(String::from_str("BUILDS TECHNOLOGY"));
        out
    }
}

/// The 25 code points that the Unicode Character Database (PropList.txt)
/// gives the `White_Space` property, one by one: U+0009 to U+000D, U+0020,
/// U+0085, U+00A0 (no-break space), U+1680, U+2000 to U+200A, U+2028,
/// U+2029, U+202F, U+205F and U+3000.
pub open spec fn unicode_white_space() -> Set<u32> {
    set![
        0x0009u32, 0x000a, 0x000b, 0x000c, 0x000d, 0x0020, 0x0085, 0x00a0, 0x1680,
        0x2000, 0x2001, 0x2002, 0x2003, 0x2004, 0x2005, 0x2006, 0x2007, 0x2008, 0x2009, 0x200a,
        0x2028, 0x2029, 0x202f, 0x205f, 0x3000,
    ]
}

proof fn lemma_white_space_listed(c: char)
    ensures
        white_space(c) == unicode_white_space().contains(c as u32),
{
}

/// Every character counted as leading white space is white space, and the
/// one after them, if any, is not.
proof fn lemma_leading_white_props(s: Seq<char>)
    ensures
        leading_white(s) <= s.len(),
        forall|i: int| 0 <= i < leading_white(s) ==> white_space(#[trigger] s[i]),
        leading_white(s) < s.len() ==> !white_space(s[leading_white(s) as int]),
    decreases s.len(),
{
    if s.len() > 0 && white_space(s[0]) {
        let t = s.drop_first();
        lemma_leading_white_props(t);
        assert forall|i: int| 0 <= i < leading_white(s) implies white_space(#[trigger] s[i]) by {
            if i > 0 {
                assert(s[i] == t[i - 1]);
            }
        }
        if leading_white(s) < s.len() {
            assert(s[leading_white(s) as int] == t[leading_white(t) as int]);
        }
    }
}

/// Every character counted as trailing white space is white space, and the
/// one before them, if any, is not.
proof fn lemma_trailing_white_props(s: Seq<char>)
    ensures
        trailing_white(s) <= s.len(),
        forall|i: int| s.len() - trailing_white(s) <= i < s.len() ==> white_space(#[trigger] s[i]),
        trailing_white(s) < s.len() ==> !white_space(s[s.len() - trailing_white(s) - 1]),
    decreases s.len(),
{
    if s.len() > 0 && white_space(s.last()) {
        let t = s.drop_last();
        lemma_trailing_white_props(t);
        assert forall|i: int| s.len() - trailing_white(s) <= i < s.len() implies white_space(#[trigger] s[i]) by {
            if i < s.len() - 1 {
                assert(s[i] == t[i]);
            }
        }
        if trailing_white(s) < s.len() {
            assert(s[s.len() - trailing_white(s) - 1] == t[t.len() - trailing_white(t) - 1]);
        }
    }
}

/// Law: trimming keeps one contiguous run of the text. Everything cut off
/// before and after it is Unicode white space (U+00A0 among it), and the run,
/// when not empty, neither starts nor ends with Unicode white space.
pub proof fn law_trim_cuts_only_white_space(s: Seq<char>)
    ensures
        exists|a: int, b: int|
            {
                &&& 0 <= a <= b <= s.len()
                &&& trimmed(s) == #[trigger] s.subrange(a, b)
                &&& forall|i: int| 0 <= i < a ==> unicode_white_space().contains(#[trigger] s[i] as u32)
                &&& forall|i: int| b <= i < s.len() ==> unicode_white_space().contains(#[trigger] s[i] as u32)
                &&& a < b ==> !unicode_white_space().contains(s[a] as u32) && !unicode_white_space().contains(
                    s[b - 1] as u32,
                )
            },
{
    lemma_leading_white_props(s);
    lemma_trailing_white_props(s);
    let lead = leading_white(s) as int;
    let len = s.len() as int;
    assert forall|i: int| 0 <= i < len implies white_space(#[trigger] s[i]) == unicode_white_space().contains(
        s[i] as u32,
    ) by {
        lemma_white_space_listed(s[i]);
    }
    if lead == len {
        assert(trimmed(s) =~= s.subrange(len, len));
        assert forall|i: int| 0 <= i < len implies unicode_white_space().contains(#[trigger] s[i] as u32) by {
            assert(white_space(s[i]));
        }
    } else {
        let b = len - trailing_white(s);
        if b <= lead {
            assert(white_space(s[lead]));
        }
        assert(trimmed(s) == s.subrange(lead, b));
        assert(!white_space(s[lead]));
        assert(!white_space(s[b - 1]));
    }
}

/// Every text that `trimmed_entries` produces is the trimmed text of an entry.
proof fn lemma_entries_trimmed(raw: Seq<Option<String>>)
    ensures
        forall|k: int|
            #![trigger trimmed_entries(raw)[k]]
            0 <= k < trimmed_entries(raw).len() ==> exists|c: Seq<char>| #[trigger] trimmed(c) == trimmed_entries(raw)[k],
    decreases raw.len(),
{
    if raw.len() > 0 {
        lemma_entries_trimmed(raw.drop_last());
        let rest = trimmed_entries(raw.drop_last());
        assert forall|k: int|
            #![trigger trimmed_entries(raw)[k]]
            0 <= k < trimmed_entries(raw).len() implies exists|c: Seq<char>| #[trigger] trimmed(c) == trimmed_entries(raw)[k] by {
            if k < rest.len() {
                assert(trimmed_entries(raw)[k] == rest[k]);
            } else {
                let t = raw.last()->0;
                assert(trimmed(t@) == trimmed_entries(raw)[k]);
            }
        }
    }
}

/// Every text that `nonempty_only` keeps is a non-empty text of the list.
proof fn lemma_nonempty_kept(ts: Seq<Seq<char>>)
    ensures
        forall|k: int|
            0 <= k < nonempty_only(ts).len() ==> (#[trigger] nonempty_only(ts)[k]).len() > 0 && ts.contains(
                nonempty_only(ts)[k],
            ),
    decreases ts.len(),
{
    if ts.len() > 0 {
        lemma_nonempty_kept(ts.drop_last());
        let rest = nonempty_only(ts.drop_last());
        assert forall|k: int| 0 <= k < nonempty_only(ts).len() implies (#[trigger] nonempty_only(ts)[k]).len() > 0
            && ts.contains(nonempty_only(ts)[k]) by {
            if k < rest.len() {
                assert(nonempty_only(ts)[k] == rest[k]);
                let u = choose|u: int| 0 <= u < ts.drop_last().len() && ts.drop_last()[u] == rest[k];
                assert(ts[u] == rest[k]);
            } else {
                assert(nonempty_only(ts)[k] == ts.last());
                assert(ts[ts.len() - 1] == ts.last());
            }
        }
    }
}

/// Law: whenever the live list leaves a phrase after trimming, every phrase
/// `current_phrases` returns is non-empty and neither starts nor ends with a
/// Unicode white-space character (U+00A0 among them).
pub proof fn law_live_phrases_have_no_outer_white_space(raw: Seq<Option<String>>, fallback: Seq<Seq<char>>)
    requires
        nonempty_only(trimmed_entries(raw)).len() > 0,
    ensures
        forall|k: int|
            0 <= k < chosen(trimmed_entries(raw), fallback).len() ==> {
                let p = #[trigger] chosen(trimmed_entries(raw), fallback)[k];
                &&& p.len() > 0
                &&& !unicode_white_space().contains(p[0] as u32)
                &&& !unicode_white_space().contains(p[p.len() - 1] as u32)
            },
{
    let ts = trimmed_entries(raw);
    lemma_entries_trimmed(raw);
    lemma_nonempty_kept(ts);
    assert forall|k: int| 0 <= k < chosen(ts, fallback).len() implies {
        let p = #[trigger] chosen(ts, fallback)[k];
        &&& p.len() > 0
        &&& !unicode_white_space().contains(p[0] as u32)
        &&& !unicode_white_space().contains(p[p.len() - 1] as u32)
    } by {
        let p = chosen(ts, fallback)[k];
        assert(p == nonempty_only(ts)[k]);
        let u = choose|u: int| 0 <= u < ts.len() && ts[u] == p;
        let c = choose|c: Seq<char>| #[trigger] trimmed(c) == ts[u];
        law_trim_cuts_only_white_space(c);
        let (a, b) = choose|a: int, b: int|
            {
                &&& 0 <= a <= b <= c.len()
                &&& trimmed(c) == #[trigger] c.subrange(a, b)
                &&& forall|i: int| 0 <= i < a ==> unicode_white_space().contains(#[trigger] c[i] as u32)
                &&& forall|i: int| b <= i < c.len() ==> unicode_white_space().contains(#[trigger] c[i] as u32)
                &&& a < b ==> !unicode_white_space().contains(c[a] as u32) && !unicode_white_space().contains(
                    c[b - 1] as u32,
                )
            };
        assert(p[0] == c[a]);
        assert(p[p.len() - 1] == c[b - 1]);
    }
}

} // verus!
