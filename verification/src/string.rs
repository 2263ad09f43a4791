use vstd::prelude::*;

use crate::error::Error;

verus! {

// --- percent-decoding, through the outside decoder ---

/// What percent-decoding yields on a given string.
pub uninterp spec fn url_decoded(s: Seq<char>) -> Seq<char>;

/// Whether percent-decoding a given string succeeds: it fails exactly when
/// the decoded bytes are not valid text, which depends on the input
/// characters alone.
pub uninterp spec fn url_decodable(s: Seq<char>) -> bool;

/// Relies on urlencoding::decode: the result depends on the input characters
/// alone; an input without a percent sign always decodes, to itself; and
/// decoding fails only when the decoded bytes are not valid text.
#[verifier::external_body]
pub(crate) fn url_decode(s: &str) -> (r: Option<String>)
    ensures
        r is Some <==> url_decodable(s@),
        r matches Some(d) ==> d@ == url_decoded(s@),
        r is None ==> exists|i: int| 0 <= i < s@.len() && s@[i] == '%',
        r matches Some(d) ==> ((forall|i: int| 0 <= i < s@.len() ==> s@[i] != '%') ==> d@ == s@),
{
    match urlencoding::decode(s) {
        Ok(d) => Some(d.into_owned()),
        Err(_) => None,
    }
}

/// Relies on String::push: appends exactly the one character.
#[verifier::external_body]
pub(crate) fn push_char(s: &mut String, c: char)
    ensures
        final(s)@ == old(s)@.push(c),
{
    s.push(c);
}

// --- filename normalization ---

/// The per-character step of normalization: plus and minus signs become
/// underscores, every other character stays.
pub open spec fn special_to_underscore(c: char) -> char {
    if c == '+' || c == '-' {
        '_'
    } else {
        c
    }
}

/// Normalization's first pass over a whole name.
pub open spec fn replace_special(s: Seq<char>) -> Seq<char> {
    s.map_values(|c: char| special_to_underscore(c))
}

/// Normalization's second pass: every run of consecutive underscores shrinks
/// to a single underscore.
pub open spec fn collapse_underscores(s: Seq<char>) -> Seq<char>
    decreases s.len(),
{
    if s.len() <= 1 {
        s
    } else if s[0] == '_' && s[1] == '_' {
        collapse_underscores(s.drop_first())
    } else {
        seq![s[0]] + collapse_underscores(s.drop_first())
    }
}

/// What a normalized filename looks like.
pub open spec fn normalized(s: Seq<char>) -> Seq<char> {
    collapse_underscores(replace_special(s))
}

proof fn lemma_collapse_ends(s: Seq<char>)
    requires
        s.len() > 0,
    ensures
        collapse_underscores(s).len() > 0,
        collapse_underscores(s).last() == s.last(),
        collapse_underscores(s).first() == s.first(),
    decreases s.len(),
{
    if s.len() <= 1 {
    } else {
        lemma_collapse_ends(s.drop_first());
        if s[0] == '_' && s[1] == '_' {
            assert(s.drop_first().first() == s[1]);
        } else {
            assert((seq![s[0]] + collapse_underscores(s.drop_first())).last()
                == collapse_underscores(s.drop_first()).last());
        }
    }
}

proof fn lemma_collapse_push(s: Seq<char>, c: char)
    ensures
        collapse_underscores(s.push(c)) == if s.len() > 0 && s.last() == '_' && c == '_' {
            collapse_underscores(s)
        } else {
            collapse_underscores(s).push(c)
        },
    decreases s.len(),
{
    if s.len() == 0 {
        assert(s.push(c) =~= seq![c]);
        assert(collapse_underscores(s).push(c) =~= seq![c]);
    } else if s.len() == 1 {
        if s[0] == '_' && c == '_' {
            assert(s.push(c).drop_first() =~= seq![c]);
            assert(collapse_underscores(s.push(c)) == collapse_underscores(seq![c]));
            assert(collapse_underscores(s) =~= seq![c]);
        } else {
            assert(s.push(c).drop_first() =~= seq![c]);
            assert(collapse_underscores(s.push(c)) == seq![s[0]] + collapse_underscores(seq![c]));
            assert(seq![s[0]] + seq![c] =~= s.push(c));
            assert(collapse_underscores(s).push(c) =~= s.push(c));
        }
    } else {
        assert(s.push(c).drop_first() =~= s.drop_first().push(c));
        lemma_collapse_push(s.drop_first(), c);
        assert(s.drop_first().last() == s.last());
        if s[0] == '_' && s[1] == '_' {
        } else {
            if s.last() == '_' && c == '_' {
            } else {
                assert(seq![s[0]] + collapse_underscores(s.drop_first()).push(c) =~= (seq![s[0]]
                    + collapse_underscores(s.drop_first())).push(c));
            }
        }
    }
}

/// No two adjacent underscores survive the collapse.
pub open spec fn no_adjacent_underscores(s: Seq<char>) -> bool {
    forall|i: int| 0 <= i < s.len() - 1 ==> !((#[trigger] s[i]) == '_' && s[i + 1] == '_')
}

proof fn lemma_collapse_no_adjacent(s: Seq<char>)
    ensures
        no_adjacent_underscores(collapse_underscores(s)),
    decreases s.len(),
{
    if s.len() <= 1 {
    } else if s[0] == '_' && s[1] == '_' {
        lemma_collapse_no_adjacent(s.drop_first());
    } else {
        lemma_collapse_no_adjacent(s.drop_first());
        let rest = collapse_underscores(s.drop_first());
        let whole = seq![s[0]] + rest;
        lemma_collapse_ends(s.drop_first());
        assert forall|i: int| 0 <= i < whole.len() - 1 implies !((#[trigger] whole[i]) == '_'
            && whole[i + 1] == '_') by {
            if i == 0 {
                assert(whole[0] == s[0] && whole[1] == rest[0] && rest[0] == s[1]);
            } else {
                assert(whole[i] == rest[i - 1] && whole[i + 1] == rest[i]);
            }
        }
    }
}

proof fn lemma_collapse_fixed(s: Seq<char>)
    requires
        no_adjacent_underscores(s),
    ensures
        collapse_underscores(s) == s,
    decreases s.len(),
{
    if s.len() <= 1 {
    } else {
        assert(!(s[0] == '_' && s[1] == '_'));
        assert(forall|i: int|
            0 <= i < s.drop_first().len() - 1 ==> !((#[trigger] s.drop_first()[i]) == '_'
                && s.drop_first()[i + 1] == '_'));
        lemma_collapse_fixed(s.drop_first());
        assert(seq![s[0]] + s.drop_first() =~= s);
    }
}

proof fn lemma_collapse_preserves(s: Seq<char>, p: spec_fn(char) -> bool)
    requires
        forall|i: int| 0 <= i < s.len() ==> p(#[trigger] s[i]),
    ensures
        forall|i: int|
            0 <= i < collapse_underscores(s).len() ==> p(#[trigger] collapse_underscores(s)[i]),
    decreases s.len(),
{
    if s.len() <= 1 {
    } else {
        assert(forall|i: int| 0 <= i < s.drop_first().len() ==> p(#[trigger] s.drop_first()[i]));
        lemma_collapse_preserves(s.drop_first(), p);
        if s[0] == '_' && s[1] == '_' {
        } else {
            let rest = collapse_underscores(s.drop_first());
            assert(forall|i: int|
                0 <= i < (seq![s[0]] + rest).len() ==> p(#[trigger] (seq![s[0]] + rest)[i]));
        }
    }
}

/// Normalization is idempotent: a name that has already been normalized comes
/// out of a second normalization unchanged.
pub proof fn lemma_normalize_idempotent(s: Seq<char>)
    ensures
        normalized(normalized(s)) == normalized(s),
{
    let r = replace_special(s);
    let c = collapse_underscores(r);
    assert(forall|i: int| 0 <= i < r.len() ==> (#[trigger] r[i]) != '+' && r[i] != '-');
    lemma_collapse_preserves(r, |ch: char| ch != '+' && ch != '-');
    assert(replace_special(c) =~= c);
    lemma_collapse_no_adjacent(r);
    lemma_collapse_fixed(c);
}

/// Normalize a raw filename: plus and minus signs become underscores, then
/// every run of underscores shrinks to a single one.
pub fn normalize_filename(v: &str) -> (r: String)
    ensures
        r@ == normalized(v@),
{
    let n = v.unicode_len();
    let mut out = String::new();
    let mut prev_underscore = false;
    let mut i: usize = 0;
    proof {
        assert(v@.take(0) =~= Seq::<char>::empty());
        assert(replace_special(v@.take(0)) =~= Seq::<char>::empty());
    }
    while i < n
        invariant
            n == v@.len(),
            i <= n,
            out@ == collapse_underscores(replace_special(v@.take(i as int))),
            prev_underscore == (out@.len() > 0 && out@.last() == '_'),
        decreases n - i,
    {
        let c0 = v.get_char(i);
        let c = if c0 == '+' || c0 == '-' {
            '_'
        } else {
            c0
        };
        let ghost before = replace_special(v@.take(i as int));
        proof {
            assert(v@.take(i + 1) =~= v@.take(i as int).push(c0));
            assert(replace_special(v@.take(i + 1)) =~= before.push(c));
            lemma_collapse_push(before, c);
            if before.len() > 0 {
                lemma_collapse_ends(before);
            }
        }
        if prev_underscore && c == '_' {
        } else {
            push_char(&mut out, c);
        }
        prev_underscore = c == '_';
        i += 1;
    }
    proof {
        assert(v@.take(n as int) =~= v@);
    }
    out
}

// --- tracked-url parsing ---

/// The index of the first occurrence of a character, if any.
pub open spec fn char_index(s: Seq<char>, c: char) -> Option<int>
    decreases s.len(),
{
    if s.len() == 0 {
        None
    } else if s[0] == c {
        Some(0int)
    } else {
        match char_index(s.drop_first(), c) {
            None => None,
            Some(i) => Some(i + 1),
        }
    }
}

proof fn lemma_char_index(s: Seq<char>, c: char)
    ensures
        match char_index(s, c) {
            Some(i) => 0 <= i < s.len() && s[i] == c && forall|k: int| 0 <= k < i ==> s[k] != c,
            None => forall|k: int| 0 <= k < s.len() ==> s[k] != c,
        },
    decreases s.len(),
{
    if s.len() == 0 {
    } else if s[0] == c {
    } else {
        lemma_char_index(s.drop_first(), c);
        match char_index(s.drop_first(), c) {
            Some(i) => {
                assert(s[i + 1] == s.drop_first()[i]);
                assert forall|k: int| 0 <= k < i + 1 implies s[k] != c by {
                    if k > 0 {
                        assert(s.drop_first()[k - 1] != c);
                    }
                }
            },
            None => {
                assert forall|k: int| 0 <= k < s.len() implies s[k] != c by {
                    if k > 0 {
                        assert(s.drop_first()[k - 1] != c);
                    }
                }
            },
        }
    }
}

proof fn lemma_char_index_at(s: Seq<char>, c: char, i: int)
    requires
        0 <= i < s.len(),
        s[i] == c,
        forall|k: int| 0 <= k < i ==> s[k] != c,
    ensures
        char_index(s, c) == Some(i),
    decreases s.len(),
{
    if i == 0 {
    } else {
        lemma_char_index_at(s.drop_first(), c, i - 1);
    }
}

proof fn lemma_char_index_none(s: Seq<char>, c: char)
    requires
        forall|k: int| 0 <= k < s.len() ==> s[k] != c,
    ensures
        char_index(s, c) is None,
    decreases s.len(),
{
    if s.len() == 0 {
    } else {
        lemma_char_index_none(s.drop_first(), c);
    }
}

/// Strip a prefix when it is there, keep the string as it is when not.
pub open spec fn strip_if_prefix(s: Seq<char>, p: Seq<char>) -> Seq<char> {
    if p.is_prefix_of(s) {
        s.skip(p.len() as int)
    } else {
        s
    }
}

/// Whether every character is a decimal digit.
pub open spec fn all_digits(s: Seq<char>) -> bool {
    forall|i: int| 0 <= i < s.len() ==> '0' <= #[trigger] s[i] <= '9'
}

/// The number that a digit string denotes.
pub open spec fn digits_value(s: Seq<char>) -> int
    decreases s.len(),
{
    if s.len() == 0 {
        0
    } else {
        digits_value(s.drop_last()) * 10 + (s.last() as int - '0' as int)
    }
}

/// Whether a string is a plain decimal number that fits a u32.
pub open spec fn parses_to_u32(s: Seq<char>) -> bool {
    s.len() > 0 && all_digits(s) && digits_value(s) <= u32::MAX
}

proof fn lemma_digits_value_nonneg(s: Seq<char>)
    requires
        all_digits(s),
    ensures
        digits_value(s) >= 0,
    decreases s.len(),
{
    if s.len() == 0 {
    } else {
        assert(all_digits(s.drop_last()));
        lemma_digits_value_nonneg(s.drop_last());
    }
}

proof fn lemma_digits_prefix_le(s: Seq<char>, i: int)
    requires
        all_digits(s),
        0 <= i <= s.len(),
    ensures
        digits_value(s.take(i)) <= digits_value(s),
    decreases s.len() - i,
{
    if i == s.len() {
        assert(s.take(i) =~= s);
    } else {
        assert(s.take(i + 1).drop_last() =~= s.take(i));
        assert(s.take(i + 1).last() == s[i]);
        assert(all_digits(s.take(i)));
        lemma_digits_value_nonneg(s.take(i));
        assert(digits_value(s.take(i + 1)) == digits_value(s.take(i)) * 10 + (s[i] as int
            - '0' as int));
        lemma_digits_prefix_le(s, i + 1);
    }
}

/// Parse a plain decimal number.
#[verifier::loop_isolation(false)]
fn parse_u32(s: &str) -> (r: Option<u32>)
    ensures
        r matches Some(v) ==> parses_to_u32(s@) && v == digits_value(s@),
        r is None ==> !parses_to_u32(s@),
{
    let n = s.unicode_len();
    if n == 0 {
        return None;
    }
    let mut acc: u32 = 0;
    let mut i: usize = 0;
    proof {
        assert(s@.take(0) =~= Seq::<char>::empty());
    }
    while i < n
        invariant
            0 < n == s@.len(),
            i <= n,
            all_digits(s@.take(i as int)),
            acc == digits_value(s@.take(i as int)),
        decreases n - i,
    {
        let c = s.get_char(i);
        if c < '0' || c > '9' {
            proof {
                assert(s@[i as int] == c);
                assert(!all_digits(s@));
            }
            return None;
        }
        let d: u32 = (c as u32) - ('0' as u32);
        let wide: u64 = (acc as u64) * 10 + (d as u64);
        proof {
            assert(s@.take(i + 1).drop_last() =~= s@.take(i as int));
            assert(s@.take(i + 1).last() == s@[i as int]);
            assert(all_digits(s@.take(i + 1)));
        }
        if wide > u32::MAX as u64 {
            proof {
                assert(digits_value(s@.take(i + 1)) > u32::MAX);
                if all_digits(s@) {
                    lemma_digits_prefix_le(s@, i + 1);
                    assert(digits_value(s@) > u32::MAX);
                }
            }
            return None;
        }
        acc = wide as u32;
        i += 1;
    }
    proof {
        assert(s@.take(n as int) =~= s@);
    }
    Some(acc)
}

/// Whether one string starts with another.
pub(crate) fn starts_with_str(s: &str, p: &str) -> (r: bool)
    ensures
        r == p@.is_prefix_of(s@),
{
    let pn = p.unicode_len();
    let sn = s.unicode_len();
    if pn > sn {
        return false;
    }
    let mut i: usize = 0;
    #[verifier::loop_isolation(false)]
    while i < pn
        invariant
            i <= pn,
            forall|k: int| 0 <= k < i ==> s@[k] == p@[k],
        decreases pn - i,
    {
        if s.get_char(i) != p.get_char(i) {
            return false;
        }
        i += 1;
    }
    proof {
        assert(p@ =~= s@.subrange(0, p@.len() as int));
    }
    true
}

/// Whether two strings hold the same characters.
pub fn str_eq(a: &str, b: &str) -> (r: bool)
    ensures
        r == (a@ == b@),
{
    let an = a.unicode_len();
    let bn = b.unicode_len();
    if an != bn {
        return false;
    }
    let r = starts_with_str(a, b);
    proof {
        if b@.is_prefix_of(a@) {
            assert(a@ =~= b@);
        }
    }
    r
}

/// The index of the first occurrence of a character.
fn find_char(s: &str, c: char) -> (r: Option<usize>)
    ensures
        r matches Some(i) ==> char_index(s@, c) == Some(i as int),
        r is None ==> char_index(s@, c) is None,
{
    let n = s.unicode_len();
    let mut i: usize = 0;
    #[verifier::loop_isolation(false)]
    while i < n
        invariant
            i <= n == s@.len(),
            forall|k: int| 0 <= k < i ==> s@[k] != c,
        decreases n - i,
    {
        if s.get_char(i) == c {
            proof {
                lemma_char_index_at(s@, c, i as int);
            }
            return Some(i);
        }
        i += 1;
    }
    proof {
        lemma_char_index_none(s@, c);
    }
    None
}

/// Strip a prefix when it is there.
fn strip_prefix_str<'a>(s: &'a str, p: &str) -> (r: &'a str)
    ensures
        r@ == strip_if_prefix(s@, p@),
{
    if starts_with_str(s, p) {
        let r = s.substring_char(p.unicode_len(), s.unicode_len());
        proof {
            assert(s@.subrange(p@.len() as int, s@.len() as int) =~= s@.skip(p@.len() as int));
        }
        r
    } else {
        s
    }
}

/// The course number and folder path that a tracked url names, before
/// percent-decoding of the folder path.
pub open spec fn parsed_url(s: Seq<char>) -> Option<(u32, Seq<char>)> {
    let t = strip_if_prefix(strip_if_prefix(s, "https://"@), "canvas.nus.edu.sg/courses/"@);
    match char_index(t, '/') {
        None => None,
        Some(k) => {
            let id = t.take(k);
            let folder = t.skip(k + 1);
            if parses_to_u32(id) {
                Some(
                    (
                        digits_value(id) as u32,
                        strip_if_prefix(
                            strip_if_prefix(strip_if_prefix(folder, "files"@), "/folder"@),
                            "/"@,
                        ),
                    ),
                )
            } else {
                None
            }
        },
    }
}

/// Parse a tracked url into the course number and the folder path it names.
///
/// The url may carry the scheme and host, which are stripped; the slash after
/// the course number is required; the folder path loses its route prefix and
/// is percent-decoded (kept raw when decoding fails).
pub fn parse_url(url: &str) -> (r: Result<(u32, String), Error>)
    ensures
        r is Ok <==> parsed_url(url@) is Some,
        r matches Ok(p) ==> {
            let q = parsed_url(url@)->Some_0;
            &&& p.0 == q.0
            &&& (url_decodable(q.1) ==> p.1@ == url_decoded(q.1))
            &&& (!url_decodable(q.1) ==> p.1@ == q.1)
            &&& ((forall|i: int| 0 <= i < q.1.len() ==> q.1[i] != '%') ==> p.1@ == q.1)
        },
        r matches Err(e) ==> (e matches Error::InvalidTrackingUrl(u) && u@ == url@),
{
    let trimmed = strip_prefix_str(strip_prefix_str(url, "https://"), "canvas.nus.edu.sg/courses/");
    let slash = match find_char(trimmed, '/') {
        Some(k) => k,
        None => {
            return Err(Error::InvalidTrackingUrl(url.to_owned()));
        },
    };
    proof {
        lemma_char_index(trimmed@, '/');
    }
    let tn = trimmed.unicode_len();
    assert(slash < tn);
    let id_str = trimmed.substring_char(0, slash);
    let folder_all = trimmed.substring_char(slash + 1, tn);
    proof {
        assert(trimmed@.subrange(0, slash as int) =~= trimmed@.take(slash as int));
        assert(trimmed@.subrange(slash + 1, trimmed@.len() as int) =~= trimmed@.skip(slash + 1));
    }
    let id = match parse_u32(id_str) {
        Some(v) => v,
        None => {
            return Err(Error::InvalidTrackingUrl(url.to_owned()));
        },
    };
    let folder = strip_prefix_str(
        strip_prefix_str(strip_prefix_str(folder_all, "files"), "/folder"),
        "/",
    );
    match url_decode(folder) {
        Some(decoded) => Ok((id, decoded)),
        None => Ok((id, folder.to_owned())),
    }
}

} // verus!
