//! Character and string helpers shared by the dictionary store and the
//! search pipeline: whitespace trimming, tokenization, prefix tests, and the
//! capped positional edit distance used for near-miss matching.

use vstd::prelude::*;
use vstd::string::StrSliceExecFns;

verus! {

/// Whether a character has the Unicode `White_Space` property. This is the
/// set that `str::trim` and `str::split_whitespace` strip and split on.
pub open spec fn is_space(c: char) -> bool {
    ||| c == ' '
    ||| (0x09 <= c as u32 && c as u32 <= 0x0D)
    ||| c as u32 == 0x85
    ||| c as u32 == 0xA0
    ||| c as u32 == 0x1680
    ||| (0x2000 <= c as u32 && c as u32 <= 0x200A)
    ||| c as u32 == 0x2028
    ||| c as u32 == 0x2029
    ||| c as u32 == 0x202F
    ||| c as u32 == 0x205F
    ||| c as u32 == 0x3000
}

/// Runtime test for [`is_space`].
pub fn check_space(c: char) -> (r: bool)
    ensures
        r == is_space(c),
{
    let u = c as u32;
    u == 0x20 || (0x09 <= u && u <= 0x0D) || u == 0x85 || u == 0xA0 || u == 0x1680 || (0x2000 <= u
        && u <= 0x200A) || u == 0x2028 || u == 0x2029 || u == 0x202F || u == 0x205F || u == 0x3000
}

/// The longest run of whitespace at the front of `s` ends at this index.
pub open spec fn trim_start_idx(s: Seq<char>) -> int
    decreases s.len(),
{
    if s.len() == 0 || !is_space(s[0]) {
        0
    } else {
        1 + trim_start_idx(s.drop_first())
    }
}

/// The longest run of whitespace at the back of `s` starts at this index.
pub open spec fn trim_end_idx(s: Seq<char>) -> int
    decreases s.len(),
{
    if s.len() == 0 || !is_space(s.last()) {
        s.len() as int
    } else {
        trim_end_idx(s.drop_last())
    }
}

/// `s` with leading and trailing whitespace removed, as `str::trim` does.
pub open spec fn spec_trim(s: Seq<char>) -> Seq<char> {
    if trim_start_idx(s) == s.len() {
        Seq::empty()
    } else {
        s.subrange(trim_start_idx(s), trim_end_idx(s))
    }
}

pub proof fn lemma_trim_start(s: Seq<char>)
    ensures
        0 <= trim_start_idx(s) <= s.len(),
        forall|i: int| 0 <= i < trim_start_idx(s) ==> is_space(s[i]),
        trim_start_idx(s) < s.len() ==> !is_space(s[trim_start_idx(s)]),
    decreases s.len(),
{
    if s.len() != 0 && is_space(s[0]) {
        lemma_trim_start(s.drop_first());
        assert forall|i: int| 0 <= i < trim_start_idx(s) implies is_space(s[i]) by {
            if i > 0 {
                assert(s.drop_first()[i - 1] == s[i]);
            }
        }
        if trim_start_idx(s) < s.len() {
            assert(s.drop_first()[trim_start_idx(s) - 1] == s[trim_start_idx(s)]);
        }
    }
}

pub proof fn lemma_trim_end(s: Seq<char>)
    ensures
        0 <= trim_end_idx(s) <= s.len(),
        forall|i: int| trim_end_idx(s) <= i < s.len() ==> is_space(s[i]),
        trim_end_idx(s) > 0 ==> !is_space(s[trim_end_idx(s) - 1]),
    decreases s.len(),
{
    if s.len() != 0 && is_space(s.last()) {
        lemma_trim_end(s.drop_last());
        assert forall|i: int| trim_end_idx(s) <= i < s.len() implies is_space(s[i]) by {
            if i < s.len() - 1 {
                assert(s.drop_last()[i] == s[i]);
            }
        }
        if trim_end_idx(s) > 0 {
            assert(s.drop_last()[trim_end_idx(s) - 1] == s[trim_end_idx(s) - 1]);
        }
    }
}

/// `str::trim`, verified against [`spec_trim`].
pub fn trim_str(s: &str) -> (r: &str)
    ensures
        r@ == spec_trim(s@),
{
    proof {
        lemma_trim_start(s@);
        lemma_trim_end(s@);
    }
    let n = s.unicode_len();
    let mut start: usize = 0;
    while start < n && check_space(s.get_char(start))
        invariant
            n == s@.len(),
            0 <= start <= trim_start_idx(s@) <= n,
            forall|i: int| 0 <= i < trim_start_idx(s@) ==> is_space(s@[i]),
            trim_start_idx(s@) < s@.len() ==> !is_space(s@[trim_start_idx(s@)]),
        decreases n - start,
    {
        start += 1;
    }
    assert(start == trim_start_idx(s@));
    if start == n {
        let empty = "";
        proof {
            reveal_strlit("");
            assert(empty@ =~= spec_trim(s@));
        }
        return empty;
    }
    // The first non-space character sits at `start`, so the trailing
    // whitespace run begins strictly after it.
    assert(start < trim_end_idx(s@)) by {
        if trim_end_idx(s@) <= start {
            assert(is_space(s@[start as int]));
        }
    }
    let mut end: usize = n;
    while end > start && check_space(s.get_char(end - 1))
        invariant
            n == s@.len(),
            start == trim_start_idx(s@),
            start < trim_end_idx(s@) <= end <= n,
            forall|i: int| trim_end_idx(s@) <= i < s@.len() ==> is_space(s@[i]),
            trim_end_idx(s@) > 0 ==> !is_space(s@[trim_end_idx(s@) - 1]),
        decreases end,
    {
        assert(end > trim_end_idx(s@)) by {
            if end == trim_end_idx(s@) {
                assert(!is_space(s@[end - 1]));
            }
        }
        end -= 1;
    }
    assert(end == trim_end_idx(s@)) by {
        if end > trim_end_idx(s@) {
            assert(is_space(s@[end - 1]));
        }
    }
    s.substring_char(start, end)
}

/// The characters of `s`, in order.
pub fn chars_vec(s: &str) -> (r: Vec<char>)
    ensures
        r@ == s@,
{
    let n = s.unicode_len();
    let mut r: Vec<char> = Vec::new();
    let mut i: usize = 0;
    while i < n
        invariant
            n == s@.len(),
            0 <= i <= n,
            r@ =~= s@.subrange(0, i as int),
        decreases n - i,
    {
        r.push(s.get_char(i));
        i += 1;
    }
    assert(s@.subrange(0, n as int) =~= s@);
    r
}

/// Character-for-character equality of two character vectors.
pub fn eq_chars(a: &Vec<char>, b: &Vec<char>) -> (r: bool)
    ensures
        r == (a@ == b@),
{
    if a.len() != b.len() {
        return false;
    }
    let mut i: usize = 0;
    while i < a.len()
        invariant
            a@.len() == b@.len(),
            0 <= i <= a@.len(),
            forall|j: int| 0 <= j < i ==> a@[j] == b@[j],
        decreases a@.len() - i,
    {
        if a[i] != b[i] {
            return false;
        }
        i += 1;
    }
    assert(a@ =~= b@);
    true
}

/// Character-for-character equality of two string slices.
pub fn str_eq(a: &str, b: &str) -> (r: bool)
    ensures
        r == (a@ == b@),
{
    let ac = chars_vec(a);
    let bc = chars_vec(b);
    eq_chars(&ac, &bc)
}

/// Whether `p` is a prefix of `s`, character by character.
pub fn prefix_chars(p: &Vec<char>, s: &Vec<char>) -> (r: bool)
    ensures
        r == p@.is_prefix_of(s@),
{
    if p.len() > s.len() {
        return false;
    }
    let mut i: usize = 0;
    while i < p.len()
        invariant
            p@.len() <= s@.len(),
            0 <= i <= p@.len(),
            forall|j: int| 0 <= j < i ==> p@[j] == s@[j],
        decreases p@.len() - i,
    {
        if p[i] != s[i] {
            assert(!p@.is_prefix_of(s@)) by {
                assert(s@.subrange(0, p@.len() as int)[i as int] == s@[i as int]);
            }
            return false;
        }
        i += 1;
    }
    assert(p@ =~= s@.subrange(0, p@.len() as int));
    true
}

/// The first whitespace character of `s` sits at this index (or the index is
/// `s.len()` when there is none): the end of the token starting at `s[0]`.
pub open spec fn token_end(s: Seq<char>) -> int
    decreases s.len(),
{
    if s.len() == 0 || is_space(s[0]) {
        0
    } else {
        1 + token_end(s.drop_first())
    }
}

pub proof fn lemma_token_end(s: Seq<char>)
    ensures
        0 <= token_end(s) <= s.len(),
        forall|i: int| 0 <= i < token_end(s) ==> !is_space(s[i]),
        token_end(s) < s.len() ==> is_space(s[token_end(s)]),
    decreases s.len(),
{
    if s.len() != 0 && !is_space(s[0]) {
        lemma_token_end(s.drop_first());
        assert forall|i: int| 0 <= i < token_end(s) implies !is_space(s[i]) by {
            if i > 0 {
                assert(s.drop_first()[i - 1] == s[i]);
            }
        }
        if token_end(s) < s.len() {
            assert(s.drop_first()[token_end(s) - 1] == s[token_end(s)]);
        }
    }
}

/// The whitespace-delimited tokens of `s`, in order, as
/// `str::split_whitespace` yields them: maximal runs of non-whitespace.
pub open spec fn ws_tokens(s: Seq<char>) -> Seq<Seq<char>>
    decreases s.len(),
    via ws_tokens_decreases
{
    if s.len() == 0 {
        Seq::empty()
    } else if is_space(s[0]) {
        ws_tokens(s.drop_first())
    } else {
        seq![s.take(token_end(s))] + ws_tokens(s.skip(token_end(s)))
    }
}

#[via_fn]
proof fn ws_tokens_decreases(s: Seq<char>) {
    if s.len() != 0 && !is_space(s[0]) {
        lemma_token_end(s);
        lemma_token_end(s.drop_first());
    }
}

/// `str::split_whitespace`, verified against [`ws_tokens`].
pub fn split_ws<'a>(s: &'a str) -> (r: Vec<&'a str>)
    ensures
        r.deep_view() =~~= ws_tokens(s@),
{
    let n = s.unicode_len();
    let mut r: Vec<&'a str> = Vec::new();
    let mut p: usize = 0;
    proof {
        assert(s@.skip(0) =~= s@);
        assert(r.deep_view() =~~= Seq::<Seq<char>>::empty());
    }
    while p < n
        invariant
            n == s@.len(),
            0 <= p <= n,
            ws_tokens(s@) =~~= r.deep_view() + ws_tokens(s@.skip(p as int)),
        decreases n - p,
    {
        let ghost prev = r.deep_view();
        if check_space(s.get_char(p)) {
            proof {
                assert(s@.skip(p as int).drop_first() =~= s@.skip(p + 1));
            }
            p += 1;
        } else {
            let start = p;
            proof {
                lemma_token_end(s@.skip(p as int));
            }
            while p < n && !check_space(s.get_char(p))
                invariant
                    n == s@.len(),
                    0 <= start <= p <= n,
                    p - start <= token_end(s@.skip(start as int)),
                    forall|i: int|
                        0 <= i < token_end(s@.skip(start as int)) ==> !is_space(
                            s@.skip(start as int)[i],
                        ),
                    token_end(s@.skip(start as int)) < s@.len() - start ==> is_space(
                        s@.skip(start as int)[token_end(s@.skip(start as int))],
                    ),
                decreases n - p,
            {
                assert(p - start < token_end(s@.skip(start as int))) by {
                    if p - start == token_end(s@.skip(start as int)) {
                        assert(s@.skip(start as int)[p - start] == s@[p as int]);
                    }
                }
                p += 1;
            }
            assert(p - start == token_end(s@.skip(start as int))) by {
                let t = s@.skip(start as int);
                if p - start < token_end(t) {
                    assert(t[p - start] == s@[p as int]);
                }
            }
            let tok = s.substring_char(start, p);
            r.push(tok);
            proof {
                let t = s@.skip(start as int);
                assert(t.take(token_end(t)) =~= s@.subrange(start as int, p as int));
                assert(t.skip(token_end(t)) =~= s@.skip(p as int));
                assert(ws_tokens(t) =~~= seq![tok@] + ws_tokens(s@.skip(p as int)));
                assert(r.deep_view() =~~= prev + seq![tok@]);
            }
        }
    }
    proof {
        assert(s@.skip(n as int) =~= Seq::<char>::empty());
    }
    r
}

/// The first semicolon of `s` sits at this index (or the index is `s.len()`
/// when there is none).
pub open spec fn semi_idx(s: Seq<char>) -> int
    decreases s.len(),
{
    if s.len() == 0 || s[0] == ';' {
        0
    } else {
        1 + semi_idx(s.drop_first())
    }
}

pub proof fn lemma_semi_idx(s: Seq<char>)
    ensures
        0 <= semi_idx(s) <= s.len(),
        forall|i: int| 0 <= i < semi_idx(s) ==> s[i] != ';',
        semi_idx(s) < s.len() ==> s[semi_idx(s)] == ';',
    decreases s.len(),
{
    if s.len() != 0 && s[0] != ';' {
        lemma_semi_idx(s.drop_first());
        assert forall|i: int| 0 <= i < semi_idx(s) implies s[i] != ';' by {
            if i > 0 {
                assert(s.drop_first()[i - 1] == s[i]);
            }
        }
        if semi_idx(s) < s.len() {
            assert(s.drop_first()[semi_idx(s) - 1] == s[semi_idx(s)]);
        }
    }
}

/// The semicolon-separated pieces of `s`, in order, as `str::split(';')`
/// yields them: empty pieces included, one piece even for an empty `s`.
pub open spec fn clauses(s: Seq<char>) -> Seq<Seq<char>>
    decreases s.len(),
    via clauses_decreases
{
    if semi_idx(s) == s.len() {
        seq![s]
    } else {
        seq![s.take(semi_idx(s))] + clauses(s.skip(semi_idx(s) + 1))
    }
}

#[via_fn]
proof fn clauses_decreases(s: Seq<char>) {
    lemma_semi_idx(s);
}

/// `str::split(';')`, verified against [`clauses`].
pub fn split_semi<'a>(s: &'a str) -> (r: Vec<&'a str>)
    ensures
        r.deep_view() =~~= clauses(s@),
        r.len() >= 1,
{
    let n = s.unicode_len();
    let mut r: Vec<&'a str> = Vec::new();
    let mut p: usize = 0;
    proof {
        assert(s@.skip(0) =~= s@);
        assert(r.deep_view() =~~= Seq::<Seq<char>>::empty());
    }
    loop
        invariant_except_break
            clauses(s@) =~~= r.deep_view() + clauses(s@.skip(p as int)),
        invariant
            n == s@.len(),
            0 <= p <= n,
        ensures
            r.deep_view() =~~= clauses(s@),
            r.len() >= 1,
        decreases n - p,
    {
        let ghost prev = r.deep_view();
        let start = p;
        proof {
            lemma_semi_idx(s@.skip(p as int));
        }
        while p < n && s.get_char(p) != ';'
            invariant
                n == s@.len(),
                0 <= start <= p <= n,
                p - start <= semi_idx(s@.skip(start as int)),
                forall|i: int|
                    0 <= i < semi_idx(s@.skip(start as int)) ==> s@.skip(start as int)[i] != ';',
                semi_idx(s@.skip(start as int)) < s@.len() - start ==> s@.skip(start as int)[
                    semi_idx(s@.skip(start as int))
                ] == ';',
            decreases n - p,
        {
            assert(p - start < semi_idx(s@.skip(start as int))) by {
                if p - start == semi_idx(s@.skip(start as int)) {
                    assert(s@.skip(start as int)[p - start] == s@[p as int]);
                }
            }
            p += 1;
        }
        assert(p - start == semi_idx(s@.skip(start as int))) by {
            let t = s@.skip(start as int);
            if p - start < semi_idx(t) {
                assert(t[p - start] == s@[p as int]);
            }
        }
        let piece = s.substring_char(start, p);
        r.push(piece);
        proof {
            let t = s@.skip(start as int);
            assert(t.take(semi_idx(t)) =~= s@.subrange(start as int, p as int));
            assert(r.deep_view() =~~= prev + seq![piece@]);
        }
        if p == n {
            proof {
                let t = s@.skip(start as int);
                assert(semi_idx(t) == t.len());
                assert(clauses(t) =~~= seq![piece@]);
            }
            break;
        }
        proof {
            let t = s@.skip(start as int);
            assert(semi_idx(t) < t.len());
            assert(clauses(t) =~~= seq![piece@] + clauses(t.skip(semi_idx(t) + 1)));
            assert(t.skip(semi_idx(t) + 1) =~= s@.skip(p + 1));
        }
        p += 1;
    }
    r
}

/// What `str::to_lowercase` returns: a function of the characters alone.
pub uninterp spec fn lower_of(s: Seq<char>) -> Seq<char>;

/// Relies on `str::to_lowercase`: the result depends on the characters alone,
/// and an empty string stays empty.
#[verifier::external_body]
pub(crate) fn lowercase(s: &str) -> (r: String)
    ensures
        r@ == lower_of(s@),
        s@.len() == 0 ==> r@.len() == 0,
{
    s.to_lowercase()
}

/// The leading run of non-alphabetic characters of `s` ends at this index.
pub open spec fn tok_start_idx(s: Seq<char>) -> int
    decreases s.len(),
{
    if s.len() == 0 || alpha_of(s[0]) {
        0
    } else {
        1 + tok_start_idx(s.drop_first())
    }
}

/// The trailing run of non-alphabetic characters of `s` starts at this index.
pub open spec fn tok_end_idx(s: Seq<char>) -> int
    decreases s.len(),
{
    if s.len() == 0 || alpha_of(s.last()) {
        s.len() as int
    } else {
        tok_end_idx(s.drop_last())
    }
}

/// `s` with leading and trailing non-alphabetic characters removed: what
/// `str::trim_matches` leaves when asked to strip non-alphabetic characters.
pub open spec fn clean_token(s: Seq<char>) -> Seq<char> {
    if tok_start_idx(s) == s.len() {
        Seq::empty()
    } else {
        s.subrange(tok_start_idx(s), tok_end_idx(s))
    }
}

pub proof fn lemma_tok_start(s: Seq<char>)
    ensures
        0 <= tok_start_idx(s) <= s.len(),
        forall|i: int| 0 <= i < tok_start_idx(s) ==> !alpha_of(s[i]),
        tok_start_idx(s) < s.len() ==> alpha_of(s[tok_start_idx(s)]),
    decreases s.len(),
{
    if s.len() != 0 && !alpha_of(s[0]) {
        lemma_tok_start(s.drop_first());
        assert forall|i: int| 0 <= i < tok_start_idx(s) implies !alpha_of(s[i]) by {
            if i > 0 {
                assert(s.drop_first()[i - 1] == s[i]);
            }
        }
        if tok_start_idx(s) < s.len() {
            assert(s.drop_first()[tok_start_idx(s) - 1] == s[tok_start_idx(s)]);
        }
    }
}

pub proof fn lemma_tok_end(s: Seq<char>)
    ensures
        0 <= tok_end_idx(s) <= s.len(),
        forall|i: int| tok_end_idx(s) <= i < s.len() ==> !alpha_of(s[i]),
        tok_end_idx(s) > 0 ==> alpha_of(s[tok_end_idx(s) - 1]),
    decreases s.len(),
{
    if s.len() != 0 && !alpha_of(s.last()) {
        lemma_tok_end(s.drop_last());
        assert forall|i: int| tok_end_idx(s) <= i < s.len() implies !alpha_of(s[i]) by {
            if i < s.len() - 1 {
                assert(s.drop_last()[i] == s[i]);
            }
        }
        if tok_end_idx(s) > 0 {
            assert(s.drop_last()[tok_end_idx(s) - 1] == s[tok_end_idx(s) - 1]);
        }
    }
}

/// Strips leading and trailing non-alphabetic characters, verified against
/// [`clean_token`].
pub fn clean_chars(c: &Vec<char>) -> (r: Vec<char>)
    ensures
        r@ == clean_token(c@),
{
    proof {
        lemma_tok_start(c@);
        lemma_tok_end(c@);
    }
    let n = c.len();
    let mut start: usize = 0;
    while start < n && !char_is_alpha(c[start])
        invariant
            n == c@.len(),
            0 <= start <= tok_start_idx(c@) <= n,
            forall|i: int| 0 <= i < tok_start_idx(c@) ==> !alpha_of(c@[i]),
            tok_start_idx(c@) < c@.len() ==> alpha_of(c@[tok_start_idx(c@)]),
        decreases n - start,
    {
        start += 1;
    }
    assert(start == tok_start_idx(c@));
    if start == n {
        let r: Vec<char> = Vec::new();
        assert(r@ =~= clean_token(c@));
        return r;
    }
    assert(start < tok_end_idx(c@)) by {
        if tok_end_idx(c@) <= start {
            assert(!alpha_of(c@[start as int]));
        }
    }
    let mut end: usize = n;
    while end > start && !char_is_alpha(c[end - 1])
        invariant
            n == c@.len(),
            start == tok_start_idx(c@),
            start < tok_end_idx(c@) <= end <= n,
            forall|i: int| tok_end_idx(c@) <= i < c@.len() ==> !alpha_of(c@[i]),
            tok_end_idx(c@) > 0 ==> alpha_of(c@[tok_end_idx(c@) - 1]),
        decreases end,
    {
        assert(end > tok_end_idx(c@)) by {
            if end == tok_end_idx(c@) {
                assert(alpha_of(c@[end - 1]));
            }
        }
        end -= 1;
    }
    assert(end == tok_end_idx(c@)) by {
        if end > tok_end_idx(c@) {
            assert(!alpha_of(c@[end - 1]));
        }
    }
    let mut r: Vec<char> = Vec::new();
    let mut i: usize = start;
    while i < end
        invariant
            start <= i <= end <= c@.len(),
            r@ =~= c@.subrange(start as int, i as int),
        decreases end - i,
    {
        r.push(c[i]);
        i += 1;
    }
    assert(r@ =~= clean_token(c@));
    r
}

/// The length in bytes of the UTF-8 encoding of `s`.
pub open spec fn byte_len(s: Seq<char>) -> int {
    (vstd::utf8::encode_utf8(s).len() as usize) as int
}

/// The number of positions in `[0, i)` where `a` and `b` hold different
/// characters.
pub open spec fn pos_diffs(a: Seq<char>, b: Seq<char>, i: int) -> int
    decreases i,
{
    if i <= 0 {
        0
    } else {
        pos_diffs(a, b, i - 1) + if a[i - 1] != b[i - 1] {
            1int
        } else {
            0int
        }
    }
}

/// The capped positional distance between two strings: zero exactly for equal
/// strings; three (the "no match" cap) when the byte lengths differ by more
/// than two; otherwise the number of differing positions up to the shorter
/// length, plus the difference of the character counts, capped at three.
pub open spec fn spec_edit_distance(a: Seq<char>, b: Seq<char>) -> int {
    if a == b {
        0
    } else if byte_len(a) - byte_len(b) > 2 || byte_len(b) - byte_len(a) > 2 {
        3
    } else {
        let m = if a.len() <= b.len() {
            a.len() as int
        } else {
            b.len() as int
        };
        let extra = if a.len() <= b.len() {
            b.len() - a.len()
        } else {
            a.len() - b.len()
        };
        let d = pos_diffs(a, b, m) + extra;
        if d >= 3 {
            3
        } else {
            d
        }
    }
}

proof fn lemma_pos_diffs_bounds(a: Seq<char>, b: Seq<char>, i: int)
    ensures
        0 <= pos_diffs(a, b, i),
        pos_diffs(a, b, i) <= if i >= 0 {
            i
        } else {
            0int
        },
    decreases i,
{
    if i > 0 {
        lemma_pos_diffs_bounds(a, b, i - 1);
    }
}

proof fn lemma_pos_diffs_zero(a: Seq<char>, b: Seq<char>, i: int)
    requires
        pos_diffs(a, b, i) == 0,
    ensures
        forall|t: int| 0 <= t < i ==> a[t] == b[t],
    decreases i,
{
    if i > 0 {
        lemma_pos_diffs_bounds(a, b, i - 1);
        lemma_pos_diffs_zero(a, b, i - 1);
    }
}

/// The capped positional distance is zero exactly for equal strings.
pub proof fn lemma_edit_distance_zero(a: Seq<char>, b: Seq<char>)
    ensures
        (spec_edit_distance(a, b) == 0) <==> (a == b),
{
    if a != b && !(byte_len(a) - byte_len(b) > 2 || byte_len(b) - byte_len(a) > 2) {
        let m = if a.len() <= b.len() {
            a.len() as int
        } else {
            b.len() as int
        };
        lemma_pos_diffs_bounds(a, b, m);
        if spec_edit_distance(a, b) == 0 {
            assert(pos_diffs(a, b, m) == 0);
            assert(a.len() == b.len());
            lemma_pos_diffs_zero(a, b, m);
            assert(a =~= b);
        }
    }
}

pub proof fn lemma_edit_distance_nonneg(a: Seq<char>, b: Seq<char>)
    ensures
        0 <= spec_edit_distance(a, b) <= 3,
{
    if a != b && !(byte_len(a) - byte_len(b) > 2 || byte_len(b) - byte_len(a) > 2) {
        let m = if a.len() <= b.len() {
            a.len() as int
        } else {
            b.len() as int
        };
        lemma_pos_diffs_bounds(a, b, m);
    }
}

/// The cheap near-miss detector used for fuzzy kana matching, verified
/// against [`spec_edit_distance`]. This is intentionally not a true
/// edit distance: it only counts positional differences.
pub fn simple_edit_distance(a: &str, b: &str) -> (r: u8)
    ensures
        r as int == spec_edit_distance(a@, b@),
{
    let ac = chars_vec(a);
    let bc = chars_vec(b);
    if eq_chars(&ac, &bc) {
        return 0;
    }
    let la = a.len();
    let lb = b.len();
    if la > lb && la - lb > 2 {
        return 3;
    }
    if lb > la && lb - la > 2 {
        return 3;
    }
    let m = if ac.len() <= bc.len() {
        ac.len()
    } else {
        bc.len()
    };
    let mut diff: usize = 0;
    let mut i: usize = 0;
    while i < m
        invariant
            m <= ac@.len(),
            m <= bc@.len(),
            0 <= i <= m,
            diff == pos_diffs(ac@, bc@, i as int),
            diff <= i,
        decreases m - i,
    {
        if ac[i] != bc[i] {
            diff += 1;
        }
        i += 1;
    }
    if diff >= 3 {
        proof {
            lemma_pos_diffs_bounds(ac@, bc@, m as int);
        }
        return 3;
    }
    let extra = if ac.len() >= bc.len() {
        ac.len() - bc.len()
    } else {
        bc.len() - ac.len()
    };
    if extra >= 3 {
        return 3;
    }
    let total = diff + extra;
    if total >= 3 {
        3
    } else {
        #[allow(clippy::cast_possible_truncation)]
        (total as u8)
    }
}

/// What `char::is_alphabetic` returns: a function of the character alone.
pub uninterp spec fn alpha_of(c: char) -> bool;

/// Relies on `char::is_alphabetic`: the result depends on the character alone.
#[verifier::external_body]
fn char_is_alpha(c: char) -> (r: bool)
    ensures
        r == alpha_of(c),
{
    c.is_alphabetic()
}

} // verus!
