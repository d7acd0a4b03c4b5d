use vstd::prelude::*;

verus! {

/// An ASCII character.
pub open spec fn char_is_ascii(c: char) -> bool {
    (c as u32) < 128
}

/// Every character is ASCII.
pub open spec fn seq_is_ascii(s: Seq<char>) -> bool {
    forall|i: int| 0 <= i < s.len() ==> char_is_ascii(#[trigger] s[i])
}

/// Every byte is ASCII.
pub open spec fn bytes_are_ascii(b: Seq<u8>) -> bool {
    forall|i: int| 0 <= i < b.len() ==> #[trigger] b[i] < 128
}

/// An ASCII capital folded to its small form; anything else unchanged.
pub open spec fn ascii_lower_char(c: char) -> char {
    if 65 <= (c as u32) && (c as u32) <= 90 {
        ((c as u32 + 32) as u8) as char
    } else {
        c
    }
}

/// ASCII lowercasing, character by character.
pub open spec fn ascii_lower(s: Seq<char>) -> Seq<char> {
    s.map_values(|c: char| ascii_lower_char(c))
}

/// What `str::to_lowercase` returns: a function of the characters alone.
pub uninterp spec fn lower_of(s: Seq<char>) -> Seq<char>;

/// Relies on str::to_lowercase: Unicode lowercasing, a function of the
/// characters alone; on ASCII input it maps `A..Z` to `a..z` and leaves the
/// rest, as its documentation states.
#[verifier::external_body]
pub fn to_lowercase(s: &str) -> (r: String)
    ensures
        r@ == lower_of(s@),
        seq_is_ascii(s@) ==> r@ == ascii_lower(s@),
{
    s.to_lowercase()
}

/// What `String::from_utf8_lossy` returns: a function of the bytes alone.
pub uninterp spec fn lossy_of(b: Seq<u8>) -> Seq<char>;

/// Relies on String::from_utf8_lossy: a function of the bytes alone; valid
/// UTF-8, so in particular ASCII, comes through unchanged, as its
/// documentation states.
#[verifier::external_body]
pub fn utf8_lossy(data: &[u8]) -> (r: String)
    ensures
        r@ == lossy_of(data@),
        bytes_are_ascii(data@) ==> r@ == data@.map_values(|b: u8| b as char),
{
    String::from_utf8_lossy(data).into_owned()
}

/// Relies on String::push: appends the one character.
#[verifier::external_body]
pub fn push_char(s: &mut String, c: char)
    ensures
        final(s)@ == old(s)@.push(c),
{
    s.push(c);
}

/// The Unicode `White_Space` characters, as `str::trim` removes them.
pub open spec fn is_ws_char(c: char) -> bool {
    let u = c as u32;
    u == 0x09 || u == 0x0A || u == 0x0B || u == 0x0C || u == 0x0D || u == 0x20 || u == 0x85 || u
        == 0xA0 || u == 0x1680 || (0x2000 <= u <= 0x200A) || u == 0x2028 || u == 0x2029 || u
        == 0x202F || u == 0x205F || u == 0x3000
}

pub fn is_ws(c: char) -> (r: bool)
    ensures
        r == is_ws_char(c),
{
    let u = c as u32;
    u == 0x09 || u == 0x0A || u == 0x0B || u == 0x0C || u == 0x0D || u == 0x20 || u == 0x85 || u
        == 0xA0 || u == 0x1680 || (0x2000 <= u && u <= 0x200A) || u == 0x2028 || u == 0x2029 || u
        == 0x202F || u == 0x205F || u == 0x3000
}

/// The ASCII punctuation characters, the ranges around the letters and
/// digits.
pub open spec fn is_punct_char(c: char) -> bool {
    let u = c as u32;
    (33 <= u <= 47) || (58 <= u <= 64) || (91 <= u <= 96) || (123 <= u <= 126)
}

pub fn is_punct(c: char) -> (r: bool)
    ensures
        r == is_punct_char(c),
{
    let u = c as u32;
    (33 <= u && u <= 47) || (58 <= u && u <= 64) || (91 <= u && u <= 96) || (123 <= u && u <= 126)
}

/// An ASCII letter.
pub open spec fn is_letter_char(c: char) -> bool {
    let u = c as u32;
    (65 <= u <= 90) || (97 <= u <= 122)
}

pub fn is_letter(c: char) -> (r: bool)
    ensures
        r == is_letter_char(c),
{
    let u = c as u32;
    (65 <= u && u <= 90) || (97 <= u && u <= 122)
}

/// The characters of a string, one by one.
pub fn str_chars(s: &str) -> (r: Vec<char>)
    ensures
        r@ == s@,
{
    let n = s.unicode_len();
    let mut r: Vec<char> = Vec::new();
    let mut i: usize = 0;
    while i < n
        invariant
            n == s@.len(),
            i <= n,
            r@ == s@.take(i as int),
        decreases n - i,
    {
        r.push(s.get_char(i));
        proof {
            assert(r@ =~= s@.take(i + 1));
        }
        i = i + 1;
    }
    proof {
        assert(s@.take(n as int) =~= s@);
    }
    r
}

/// The string holding exactly these characters.
pub fn chars_string(v: &[char]) -> (r: String)
    ensures
        r@ == v@,
{
    let mut s = String::new();
    let mut i: usize = 0;
    while i < v.len()
        invariant
            i <= v@.len(),
            s@ == v@.take(i as int),
        decreases v@.len() - i,
    {
        push_char(&mut s, v[i]);
        proof {
            assert(s@ =~= v@.take(i + 1));
        }
        i = i + 1;
    }
    proof {
        assert(v@.take(v@.len() as int) =~= v@);
    }
    s
}

/// `needle` occurs in `hay` starting at `k`.
pub open spec fn matches_at(hay: Seq<char>, needle: Seq<char>, k: int) -> bool {
    0 <= k && k + needle.len() <= hay.len() && hay.subrange(k, k + needle.len()) == needle
}

/// `needle` occurs somewhere in `hay`.
pub open spec fn contains_sub(hay: Seq<char>, needle: Seq<char>) -> bool {
    exists|k: int| matches_at(hay, needle, k)
}

/// The banned substrings: text carrying one is no subtitle line but a
/// credit, and the sanitiser folds it to the empty string.
pub open spec fn banned_words() -> Seq<Seq<char>> {
    seq![
        "caption"@,
        "subtitle"@,
        "subbed"@,
        "corrections by"@,
        "corrected by"@,
        "correction by"@,
    ]
}

pub open spec fn contains_banned(s: Seq<char>) -> bool {
    exists|i: int| 0 <= i < banned_words().len() && contains_sub(s, #[trigger] banned_words()[i])
}

/// Whether these characters hold `needle` starting at `k`.
fn match_at(hay: &[char], needle: &str, k: usize) -> (r: bool)
    requires
        k + needle@.len() <= hay@.len(),
    ensures
        r == matches_at(hay@, needle@, k as int),
{
    let nlen = needle.unicode_len();
    let hlen = hay.len();
    let mut j: usize = 0;
    while j < nlen
        invariant
            nlen == needle@.len(),
            hlen == hay@.len(),
            k + nlen <= hlen,
            j <= nlen,
            forall|j2: int| 0 <= j2 < j ==> hay@[k + j2] == needle@[j2],
        decreases nlen - j,
    {
        if hay[k + j] != needle.get_char(j) {
            proof {
                assert(hay@.subrange(k as int, k + nlen as int)[j as int] == hay@[k + j]);
            }
            return false;
        }
        j = j + 1;
    }
    proof {
        assert(hay@.subrange(k as int, k + nlen as int) =~= needle@);
    }
    true
}

/// Whether these characters hold `needle` anywhere.
pub fn contains_sub_exec(hay: &[char], needle: &str) -> (r: bool)
    ensures
        r == contains_sub(hay@, needle@),
{
    let nlen = needle.unicode_len();
    let hlen = hay.len();
    if nlen == 0 {
        proof {
            assert(hay@.subrange(0, 0) =~= needle@);
            assert(matches_at(hay@, needle@, 0));
        }
        return true;
    }
    if nlen > hlen {
        proof {
            assert(forall|k: int| !matches_at(hay@, needle@, k));
        }
        return false;
    }
    let mut k: usize = 0;
    while k <= hlen - nlen
        invariant
            nlen == needle@.len(),
            hlen == hay@.len(),
            nlen <= hlen,
            1 <= nlen,
            k <= hlen - nlen + 1,
            forall|k2: int| 0 <= k2 < k ==> !matches_at(hay@, needle@, k2),
        decreases hlen - nlen + 1 - k,
    {
        if match_at(hay, needle, k) {
            return true;
        }
        k = k + 1;
    }
    proof {
        assert(forall|k2: int| k2 > hlen - nlen ==> !matches_at(hay@, needle@, k2));
    }
    false
}

/// Whether the text holds any of the banned substrings.
pub fn contains_any_banned(hay: &[char]) -> (r: bool)
    ensures
        r == contains_banned(hay@),
{
    let r = contains_sub_exec(hay, "caption") || contains_sub_exec(hay, "subtitle")
        || contains_sub_exec(hay, "subbed") || contains_sub_exec(hay, "corrections by")
        || contains_sub_exec(hay, "corrected by") || contains_sub_exec(hay, "correction by");
    proof {
        assert(banned_words()[0] == "caption"@);
        assert(banned_words()[1] == "subtitle"@);
        assert(banned_words()[2] == "subbed"@);
        assert(banned_words()[3] == "corrections by"@);
        assert(banned_words()[4] == "corrected by"@);
        assert(banned_words()[5] == "correction by"@);
    }
    r
}

/// The nearest closing character at or after `i`, stopped by line ends as
/// the removal patterns are: `-1` when none is found.
pub open spec fn find_close(s: Seq<char>, i: int, cl: char) -> int
    decreases s.len() - i,
{
    if i >= s.len() {
        -1
    } else if s[i] == '\n' {
        -1
    } else if s[i] == cl {
        i
    } else {
        find_close(s, i + 1, cl)
    }
}

pub proof fn lemma_find_close_range(s: Seq<char>, i: int, cl: char)
    ensures
        find_close(s, i, cl) == -1 || i <= find_close(s, i, cl) < s.len(),
    decreases s.len() - i,
{
    if i >= s.len() {
    } else if s[i] == '\n' {
    } else if s[i] == cl {
    } else {
        lemma_find_close_range(s, i + 1, cl);
    }
}

/// What remains of `s[i..]` after removing every span that opens with `o`
/// and closes with the nearest `cl` on the same line.
pub open spec fn strip_spans_from(s: Seq<char>, o: char, cl: char, i: int) -> Seq<char>
    decreases s.len() - i,
    via strip_spans_from_dec
{
    if i >= s.len() {
        Seq::empty()
    } else if s[i] == o && find_close(s, i + 1, cl) >= 0 {
        strip_spans_from(s, o, cl, find_close(s, i + 1, cl) + 1)
    } else {
        seq![s[i]] + strip_spans_from(s, o, cl, i + 1)
    }
}

#[via_fn]
proof fn strip_spans_from_dec(s: Seq<char>, o: char, cl: char, i: int) {
    lemma_find_close_range(s, i + 1, cl);
}

pub open spec fn strip_spans(s: Seq<char>, o: char, cl: char) -> Seq<char> {
    strip_spans_from(s, o, cl, 0)
}

/// The nearest closing character, as `find_close` names it.
fn find_close_exec(v: &[char], i: usize, cl: char) -> (r: Option<usize>)
    requires
        i <= v@.len(),
    ensures
        match r {
            Some(j) => find_close(v@, i as int, cl) == j && i <= j < v@.len(),
            None => find_close(v@, i as int, cl) == -1,
        },
{
    let mut j: usize = i;
    while j < v.len()
        invariant
            i <= j <= v@.len(),
            find_close(v@, i as int, cl) == find_close(v@, j as int, cl),
        decreases v@.len() - j,
    {
        if v[j] == '\n' {
            return None;
        }
        if v[j] == cl {
            return Some(j);
        }
        j = j + 1;
    }
    None
}

/// Removes every `o ... cl` span, matching non-greedily within one line.
pub fn strip_spans_exec(v: &[char], o: char, cl: char) -> (r: Vec<char>)
    ensures
        r@ == strip_spans(v@, o, cl),
{
    let mut res: Vec<char> = Vec::new();
    let mut i: usize = 0;
    while i < v.len()
        invariant
            i <= v@.len(),
            strip_spans(v@, o, cl) == res@ + strip_spans_from(v@, o, cl, i as int),
        decreases v@.len() - i,
    {
        if v[i] == o {
            match find_close_exec(v, i + 1, cl) {
                Some(j) => {
                    proof {
                        assert(strip_spans_from(v@, o, cl, i as int) == strip_spans_from(
                            v@,
                            o,
                            cl,
                            j + 1,
                        ));
                    }
                    i = j + 1;
                },
                None => {
                    res.push(v[i]);
                    proof {
                        assert(res@ + strip_spans_from(v@, o, cl, i + 1) =~= res@.drop_last() + (
                        seq![v@[i as int]] + strip_spans_from(v@, o, cl, i + 1)));
                    }
                    i = i + 1;
                },
            }
        } else {
            res.push(v[i]);
            proof {
                assert(res@ + strip_spans_from(v@, o, cl, i + 1) =~= res@.drop_last() + (seq![
                    v@[i as int],
                ] + strip_spans_from(v@, o, cl, i + 1)));
            }
            i = i + 1;
        }
    }
    proof {
        assert(res@ + strip_spans_from(v@, o, cl, v@.len() as int) =~= res@);
    }
    res
}

/// The first position at or after `i` that is not an ASCII letter.
pub open spec fn run_end(s: Seq<char>, i: int) -> int
    decreases s.len() - i,
{
    if i >= s.len() || !is_letter_char(s[i]) {
        i
    } else {
        run_end(s, i + 1)
    }
}

pub proof fn lemma_run_end_range(s: Seq<char>, i: int)
    requires
        i <= s.len(),
    ensures
        i <= run_end(s, i) <= s.len(),
    decreases s.len() - i,
{
    if i >= s.len() || !is_letter_char(s[i]) {
    } else {
        lemma_run_end_range(s, i + 1);
    }
}

/// What remains of `s[i..]` after removing every maximal ASCII-letter run
/// that a colon follows, colon included.
pub open spec fn strip_word_colon_from(s: Seq<char>, i: int) -> Seq<char>
    decreases s.len() - i,
    via strip_word_colon_from_dec
{
    if i >= s.len() {
        Seq::empty()
    } else if is_letter_char(s[i]) {
        let j = run_end(s, i);
        if j < s.len() && s[j] == ':' {
            strip_word_colon_from(s, j + 1)
        } else {
            s.subrange(i, j) + strip_word_colon_from(s, j)
        }
    } else {
        seq![s[i]] + strip_word_colon_from(s, i + 1)
    }
}

#[via_fn]
proof fn strip_word_colon_from_dec(s: Seq<char>, i: int) {
    if i < s.len() && is_letter_char(s[i]) {
        lemma_run_end_range(s, i + 1);
        assert(run_end(s, i) == run_end(s, i + 1));
    }
}

pub open spec fn strip_word_colon(s: Seq<char>) -> Seq<char> {
    strip_word_colon_from(s, 0)
}

/// Removes every maximal letter run that a colon follows.
pub fn strip_word_colon_exec(v: &[char]) -> (r: Vec<char>)
    ensures
        r@ == strip_word_colon(v@),
{
    let mut res: Vec<char> = Vec::new();
    let mut i: usize = 0;
    while i < v.len()
        invariant
            i <= v@.len(),
            strip_word_colon(v@) == res@ + strip_word_colon_from(v@, i as int),
        decreases v@.len() - i,
    {
        if is_letter(v[i]) {
            // find the end of the letter run
            let mut j: usize = i;
            while j < v.len() && is_letter(v[j])
                invariant
                    i <= j <= v@.len(),
                    run_end(v@, i as int) == run_end(v@, j as int),
                decreases v@.len() - j,
            {
                proof {
                    assert(run_end(v@, j as int) == run_end(v@, j + 1));
                }
                j = j + 1;
            }
            proof {
                assert(run_end(v@, j as int) == j);
                assert(run_end(v@, i as int) == j);
                lemma_run_end_range(v@, i + 1);
                assert(run_end(v@, i as int) == run_end(v@, i + 1));
                assert(j > i);
            }
            if j < v.len() && v[j] == ':' {
                proof {
                    assert(strip_word_colon_from(v@, i as int) == strip_word_colon_from(
                        v@,
                        j + 1,
                    ));
                }
                i = j + 1;
            } else {
                let ghost res0 = res@;
                let mut k: usize = i;
                while k < j
                    invariant
                        i <= k <= j <= v@.len(),
                        res@ == res0 + v@.subrange(i as int, k as int),
                    decreases j - k,
                {
                    res.push(v[k]);
                    proof {
                        assert(res@ =~= res0 + v@.subrange(i as int, k + 1));
                    }
                    k = k + 1;
                }
                proof {
                    assert(strip_word_colon_from(v@, i as int) == v@.subrange(
                        i as int,
                        j as int,
                    ) + strip_word_colon_from(v@, j as int));
                    assert(res@ + strip_word_colon_from(v@, j as int) =~= res0 + (v@.subrange(
                        i as int,
                        j as int,
                    ) + strip_word_colon_from(v@, j as int)));
                }
                i = j;
            }
        } else {
            res.push(v[i]);
            proof {
                assert(res@ + strip_word_colon_from(v@, i + 1) =~= res@.drop_last() + (seq![
                    v@[i as int],
                ] + strip_word_colon_from(v@, i + 1)));
            }
            i = i + 1;
        }
    }
    proof {
        assert(res@ + strip_word_colon_from(v@, v@.len() as int) =~= res@);
    }
    res
}

/// The characters with all ASCII punctuation removed.
pub open spec fn strip_punct(s: Seq<char>) -> Seq<char>
    decreases s.len(),
{
    if s.len() == 0 {
        Seq::empty()
    } else if is_punct_char(s.last()) {
        strip_punct(s.drop_last())
    } else {
        strip_punct(s.drop_last()).push(s.last())
    }
}

pub fn strip_punct_exec(v: &[char]) -> (r: Vec<char>)
    ensures
        r@ == strip_punct(v@),
{
    let mut res: Vec<char> = Vec::new();
    let mut i: usize = 0;
    while i < v.len()
        invariant
            i <= v@.len(),
            res@ == strip_punct(v@.take(i as int)),
        decreases v@.len() - i,
    {
        proof {
            assert(v@.take(i + 1).drop_last() =~= v@.take(i as int));
        }
        if !is_punct(v[i]) {
            res.push(v[i]);
        }
        i = i + 1;
    }
    proof {
        assert(v@.take(v@.len() as int) =~= v@);
    }
    res
}

/// The characters with leading whitespace removed.
pub open spec fn trim_front(s: Seq<char>) -> Seq<char>
    decreases s.len(),
{
    if s.len() > 0 && is_ws_char(s[0]) {
        trim_front(s.drop_first())
    } else {
        s
    }
}

/// The characters with trailing whitespace removed.
pub open spec fn trim_back(s: Seq<char>) -> Seq<char>
    decreases s.len(),
{
    if s.len() > 0 && is_ws_char(s.last()) {
        trim_back(s.drop_last())
    } else {
        s
    }
}

/// The characters with surrounding whitespace removed, as `str::trim`.
pub open spec fn trim_spec(s: Seq<char>) -> Seq<char> {
    trim_back(trim_front(s))
}

/// Removes surrounding whitespace.
pub fn trim_exec(v: &[char]) -> (r: Vec<char>)
    ensures
        r@ == trim_spec(v@),
{
    let mut start: usize = 0;
    proof {
        assert(v@.skip(0) =~= v@);
    }
    while start < v.len() && is_ws(v[start])
        invariant
            start <= v@.len(),
            trim_front(v@) == trim_front(v@.skip(start as int)),
        decreases v@.len() - start,
    {
        proof {
            assert(v@.skip(start as int).drop_first() =~= v@.skip(start + 1));
            assert(v@.skip(start as int)[0] == v@[start as int]);
        }
        start = start + 1;
    }
    proof {
        if start < v@.len() {
            assert(v@.skip(start as int)[0] == v@[start as int]);
        }
        assert(trim_front(v@) == v@.skip(start as int));
    }
    let mut end: usize = v.len();
    proof {
        assert(v@.skip(start as int).take(v@.len() - start) =~= v@.skip(start as int));
    }
    while end > start && is_ws(v[end - 1])
        invariant
            start <= end <= v@.len(),
            trim_back(v@.skip(start as int)) == trim_back(
                v@.skip(start as int).take(end - start),
            ),
        decreases end,
    {
        proof {
            let t = v@.skip(start as int).take(end - start);
            assert(t.last() == v@[end - 1]);
            assert(t.drop_last() =~= v@.skip(start as int).take(end - 1 - start));
        }
        end = end - 1;
    }
    proof {
        let t = v@.skip(start as int).take(end - start);
        if end > start {
            assert(t.last() == v@[end - 1]);
        }
        assert(trim_back(t) == t);
    }
    let mut res: Vec<char> = Vec::new();
    let mut k: usize = start;
    while k < end
        invariant
            start <= k <= end <= v@.len(),
            res@ == v@.subrange(start as int, k as int),
        decreases end - k,
    {
        res.push(v[k]);
        proof {
            assert(res@ =~= v@.subrange(start as int, k + 1));
        }
        k = k + 1;
    }
    proof {
        assert(res@ =~= v@.skip(start as int).take(end - start));
    }
    res
}

/// The sanitised form of already-lowercased text: empty when a banned
/// substring occurs; otherwise angle-, square- and round-bracketed spans go,
/// then letter runs before a colon, then all ASCII punctuation, and the
/// result is trimmed.
pub open spec fn sanitize_core(low: Seq<char>) -> Seq<char> {
    if contains_banned(low) {
        Seq::empty()
    } else {
        trim_spec(
            strip_punct(
                strip_word_colon(
                    strip_spans(strip_spans(strip_spans(low, '<', '>'), '[', ']'), '(', ')'),
                ),
            ),
        )
    }
}

/// The sanitised form of any text: its lowercase form run through
/// `sanitize_core`.
pub open spec fn sanitize_spec(s: Seq<char>) -> Seq<char> {
    sanitize_core(lower_of(s))
}

/// Normalises one piece of recognised or reference text to its comparable
/// form.
pub fn sanitize_text(text: &str) -> (r: String)
    ensures
        r@ == sanitize_spec(text@),
{
    let lowered = to_lowercase(text);
    let chars = str_chars(lowered.as_str());
    if contains_any_banned(chars.as_slice()) {
        return String::new();
    }
    let a = strip_spans_exec(chars.as_slice(), '<', '>');
    let b = strip_spans_exec(a.as_slice(), '[', ']');
    let c = strip_spans_exec(b.as_slice(), '(', ')');
    let d = strip_word_colon_exec(c.as_slice());
    let e = strip_punct_exec(d.as_slice());
    let f = trim_exec(e.as_slice());
    chars_string(f.as_slice())
}

/// No character of the punctuation-stripped text is punctuation.
pub proof fn lemma_strip_punct_no_punct(s: Seq<char>)
    ensures
        forall|i: int|
            0 <= i < strip_punct(s).len() ==> !is_punct_char(#[trigger] strip_punct(s)[i]),
    decreases s.len(),
{
    if s.len() > 0 {
        lemma_strip_punct_no_punct(s.drop_last());
        let pre = strip_punct(s.drop_last());
        if !is_punct_char(s.last()) {
            assert(strip_punct(s) == pre.push(s.last()));
            assert(forall|i: int|
                0 <= i < pre.len() ==> #[trigger] pre.push(s.last())[i] == pre[i]);
            assert(pre.push(s.last())[pre.len() as int] == s.last());
        }
    }
}

/// A trimmed text neither starts nor ends with whitespace.
pub proof fn lemma_trim_front_head(s: Seq<char>)
    ensures
        trim_front(s).len() > 0 ==> !is_ws_char(trim_front(s)[0]),
    decreases s.len(),
{
    if s.len() > 0 && is_ws_char(s[0]) {
        lemma_trim_front_head(s.drop_first());
    }
}

pub proof fn lemma_trim_back_last(s: Seq<char>)
    ensures
        trim_back(s).len() > 0 ==> !is_ws_char(trim_back(s).last()),
    decreases s.len(),
{
    if s.len() > 0 && is_ws_char(s.last()) {
        lemma_trim_back_last(s.drop_last());
    }
}

/// Stripping punctuation from punctuation-free text changes nothing.
pub proof fn lemma_strip_punct_id(s: Seq<char>)
    requires
        forall|i: int| 0 <= i < s.len() ==> !is_punct_char(#[trigger] s[i]),
    ensures
        strip_punct(s) == s,
    decreases s.len(),
{
    if s.len() > 0 {
        lemma_strip_punct_id(s.drop_last());
        assert(strip_punct(s) =~= s);
    }
}

/// Without the opening character, span removal changes nothing.
pub proof fn lemma_strip_spans_id(s: Seq<char>, o: char, cl: char, i: int)
    requires
        0 <= i <= s.len(),
        forall|k: int| 0 <= k < s.len() ==> #[trigger] s[k] != o,
    ensures
        strip_spans_from(s, o, cl, i) == s.skip(i),
    decreases s.len() - i,
{
    if i >= s.len() {
        assert(strip_spans_from(s, o, cl, i) =~= s.skip(i));
    } else {
        lemma_strip_spans_id(s, o, cl, i + 1);
        assert(seq![s[i]] + s.skip(i + 1) =~= s.skip(i));
    }
}

/// Without a colon, removing letter-runs-before-colons changes nothing.
pub proof fn lemma_strip_word_colon_id(s: Seq<char>, i: int)
    requires
        0 <= i <= s.len(),
        forall|k: int| 0 <= k < s.len() ==> #[trigger] s[k] != ':',
    ensures
        strip_word_colon_from(s, i) == s.skip(i),
    decreases s.len() - i,
{
    if i >= s.len() {
        assert(strip_word_colon_from(s, i) =~= s.skip(i));
    } else if is_letter_char(s[i]) {
        let j = run_end(s, i);
        lemma_run_end_range(s, i + 1);
        lemma_strip_word_colon_id(s, j);
        assert(s.subrange(i, j) + s.skip(j) =~= s.skip(i));
    } else {
        lemma_strip_word_colon_id(s, i + 1);
        assert(seq![s[i]] + s.skip(i + 1) =~= s.skip(i));
    }
}

/// The front-trimmed text is a suffix: its characters sit at the end of `s`.
pub proof fn lemma_trim_front_keeps(s: Seq<char>)
    ensures
        trim_front(s).len() <= s.len(),
        forall|i: int|
            0 <= i < trim_front(s).len() ==> #[trigger] trim_front(s)[i] == s[i + s.len()
                - trim_front(s).len()],
    decreases s.len(),
{
    if s.len() > 0 && is_ws_char(s[0]) {
        lemma_trim_front_keeps(s.drop_first());
    }
}

/// The back-trimmed text is a prefix of `s`.
pub proof fn lemma_trim_back_keeps(s: Seq<char>)
    ensures
        trim_back(s).len() <= s.len(),
        forall|i: int| 0 <= i < trim_back(s).len() ==> #[trigger] trim_back(s)[i] == s[i],
    decreases s.len(),
{
    if s.len() > 0 && is_ws_char(s.last()) {
        lemma_trim_back_keeps(s.drop_last());
    }
}

/// Trimming twice is trimming once.
pub proof fn lemma_trim_idempotent(s: Seq<char>)
    ensures
        trim_spec(trim_spec(s)) == trim_spec(s),
{
    let f = trim_front(s);
    let out = trim_back(f);
    lemma_trim_back_keeps(f);
    lemma_trim_front_head(s);
    lemma_trim_back_last(f);
    if out.len() > 0 {
        assert(out[0] == f[0]);
        assert(!is_ws_char(f[0]));
        assert(trim_front(out) == out);
        assert(!is_ws_char(out.last()));
        assert(trim_back(out) == out);
    } else {
        assert(trim_front(out) == out);
        assert(trim_back(out) == out);
    }
}

/// The sanitiser's output never holds ASCII punctuation.
pub proof fn lemma_sanitize_core_no_punct(low: Seq<char>)
    ensures
        forall|i: int|
            0 <= i < sanitize_core(low).len() ==> !is_punct_char(
                #[trigger] sanitize_core(low)[i],
            ),
{
    if !contains_banned(low) {
        let p = strip_punct(
            strip_word_colon(
                strip_spans(strip_spans(strip_spans(low, '<', '>'), '[', ']'), '(', ')'),
            ),
        );
        lemma_strip_punct_no_punct(
            strip_word_colon(
                strip_spans(strip_spans(strip_spans(low, '<', '>'), '[', ']'), '(', ')'),
            ),
        );
        lemma_trim_front_keeps(p);
        lemma_trim_back_keeps(trim_front(p));
    }
}

/// Sanitising punctuation-free, banned-free text only trims it.
proof fn lemma_sanitize_core_clean(t: Seq<char>)
    requires
        !contains_banned(t),
        forall|i: int| 0 <= i < t.len() ==> !is_punct_char(#[trigger] t[i]),
    ensures
        sanitize_core(t) == trim_spec(t),
{
    assert(is_punct_char('<') && is_punct_char('[') && is_punct_char('(') && is_punct_char(':'));
    assert(forall|k: int| 0 <= k < t.len() ==> #[trigger] t[k] != '<');
    lemma_strip_spans_id(t, '<', '>', 0);
    assert(strip_spans(t, '<', '>') =~= t);
    assert(forall|k: int| 0 <= k < t.len() ==> #[trigger] t[k] != '[');
    lemma_strip_spans_id(t, '[', ']', 0);
    assert(strip_spans(t, '[', ']') =~= t);
    assert(forall|k: int| 0 <= k < t.len() ==> #[trigger] t[k] != '(');
    lemma_strip_spans_id(t, '(', ')', 0);
    assert(strip_spans(t, '(', ')') =~= t);
    assert(forall|k: int| 0 <= k < t.len() ==> #[trigger] t[k] != ':');
    lemma_strip_word_colon_id(t, 0);
    assert(strip_word_colon(t) =~= t);
    lemma_strip_punct_id(t);
}

/// Sanitising is idempotent wherever the first pass's output lowercases to
/// itself and holds no banned substring; an input whose sanitised form is
/// itself banned falls outside, since the second pass folds it to empty.
pub proof fn lemma_sanitize_idempotent(s: Seq<char>)
    requires
        lower_of(sanitize_spec(s)) == sanitize_spec(s),
        !contains_banned(sanitize_spec(s)),
    ensures
        sanitize_spec(sanitize_spec(s)) == sanitize_spec(s),
{
    let low = lower_of(s);
    let out = sanitize_spec(s);
    if contains_banned(low) {
        assert(out =~= Seq::<char>::empty());
        assert(lower_of(out) == out);
        assert(sanitize_core(out) == trim_spec(out)) by {
            lemma_sanitize_core_clean(out);
        }
        assert(trim_front(out) == out);
        assert(trim_back(out) == out);
    } else {
        lemma_sanitize_core_no_punct(low);
        lemma_sanitize_core_clean(out);
        assert(sanitize_spec(out) == trim_spec(out));
        let p = strip_punct(
            strip_word_colon(
                strip_spans(strip_spans(strip_spans(low, '<', '>'), '[', ']'), '(', ')'),
            ),
        );
        assert(out == trim_spec(p));
        lemma_trim_idempotent(p);
    }
}

/// Whether two strings hold the same characters.
pub fn str_eq(a: &str, b: &str) -> (r: bool)
    ensures
        r == (a@ == b@),
{
    let n = a.unicode_len();
    if n != b.unicode_len() {
        return false;
    }
    let mut j: usize = 0;
    while j < n
        invariant
            n == a@.len(),
            n == b@.len(),
            j <= n,
            forall|k: int| 0 <= k < j ==> a@[k] == b@[k],
        decreases n - j,
    {
        if a.get_char(j) != b.get_char(j) {
            return false;
        }
        j = j + 1;
    }
    proof {
        assert(a@ =~= b@);
    }
    true
}

/// What one piece of recognised text contributes: nothing when it is
/// blank or sanitises to nothing, otherwise its sanitised form.
pub open spec fn ocr_accept(text: Seq<char>) -> Option<Seq<char>> {
    if trim_spec(text).len() == 0 {
        None
    } else {
        let cleaned = sanitize_spec(trim_spec(text));
        if cleaned.len() == 0 {
            None
        } else {
            Some(cleaned)
        }
    }
}

/// Folds one piece of recognised text into the subtitle list: blank text
/// and text that sanitises to nothing are dropped.
pub fn accept_ocr_text(text: &str) -> (r: Option<String>)
    ensures
        match r {
            Some(s) => ocr_accept(text@) == Some(s@),
            None => ocr_accept(text@) is None,
        },
{
    let chars = str_chars(text);
    let trimmed = trim_exec(chars.as_slice());
    if trimmed.len() == 0 {
        return None;
    }
    let ts = chars_string(trimmed.as_slice());
    let cleaned = sanitize_text(ts.as_str());
    if cleaned.as_str().unicode_len() == 0 {
        None
    } else {
        Some(cleaned)
    }
}

} // verus!
