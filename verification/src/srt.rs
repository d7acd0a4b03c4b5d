use vstd::prelude::*;
use vstd::slice::slice_subrange;
use crate::matcher::names_view;
use crate::text::{chars_string, lossy_of, sanitize_spec, sanitize_text, str_chars, utf8_lossy};
use crate::vob::{find_char, find_char_exec};

verus! {

/// Windows line endings folded to plain newlines, leftmost first.
pub open spec fn crlf_from(s: Seq<char>, i: int) -> Seq<char>
    decreases s.len() - i,
{
    if i >= s.len() {
        Seq::empty()
    } else if s[i] == '\r' && i + 1 < s.len() && s[i + 1] == '\n' {
        seq!['\n'] + crlf_from(s, i + 2)
    } else {
        seq![s[i]] + crlf_from(s, i + 1)
    }
}

pub open spec fn crlf_norm(s: Seq<char>) -> Seq<char> {
    crlf_from(s, 0)
}

/// Newlines inside one cue flattened to spaces.
pub open spec fn nl_to_space(s: Seq<char>) -> Seq<char> {
    s.map_values(
        |c: char|
            if c == '\n' {
                ' '
            } else {
                c
            },
    )
}

/// The first blank line (two newlines) at or after `i`, or `-1`.
pub open spec fn find_blank(s: Seq<char>, i: int) -> int
    decreases s.len() - i,
{
    if i + 2 > s.len() {
        -1
    } else if s[i] == '\n' && s[i + 1] == '\n' {
        i
    } else {
        find_blank(s, i + 1)
    }
}

pub proof fn lemma_find_blank_range(s: Seq<char>, i: int)
    ensures
        find_blank(s, i) == -1 || i <= find_blank(s, i) <= s.len() - 2,
    decreases s.len() - i,
{
    if i + 2 <= s.len() && !(s[i] == '\n' && s[i + 1] == '\n') {
        lemma_find_blank_range(s, i + 1);
    }
}

/// The text of one cue: everything after its second line, when the cue
/// has one; index and timecode lines carry no text.
pub open spec fn cue_text(chunk: Seq<char>) -> Option<Seq<char>> {
    let k1 = find_char(chunk, 0, '\n');
    if k1 == -1 {
        None
    } else {
        let k2 = find_char(chunk, k1 + 1, '\n');
        if k2 == -1 {
            None
        } else {
            Some(chunk.skip(k2 + 1))
        }
    }
}

/// Walks the cue blocks from `i`, collecting each cue's sanitised text
/// until `n` have been taken: blocks split on blank lines, empty blocks
/// and cues that sanitise to nothing pass by.
pub open spec fn srt_scan(text: Seq<char>, i: int, acc: Seq<Seq<char>>, n: int) -> Seq<
    Seq<char>,
>
    decreases text.len() - i,
    via srt_scan_dec
{
    if acc.len() >= n || i < 0 || i >= text.len() {
        acc
    } else {
        let k = find_blank(text, i);
        let chunk = if k == -1 {
            text.skip(i)
        } else {
            text.subrange(i, k)
        };
        let next = if k == -1 {
            text.len() as int
        } else {
            k + 2
        };
        let acc2 = if chunk.len() > 0 {
            match cue_text(chunk) {
                None => acc,
                Some(t) => {
                    let cleaned = sanitize_spec(nl_to_space(t));
                    if cleaned.len() > 0 {
                        acc.push(cleaned)
                    } else {
                        acc
                    }
                },
            }
        } else {
            acc
        };
        srt_scan(text, next, acc2, n)
    }
}

#[via_fn]
proof fn srt_scan_dec(text: Seq<char>, i: int, acc: Seq<Seq<char>>, n: int) {
    lemma_find_blank_range(text, i);
}

/// Reads the reference file's cues and yields the first `n` sanitised
/// texts, as `srt_scan` lays them down.
#[verifier::rlimit(100)]
pub fn parse_n_subtitles(data: &[u8], num_subtitles: usize) -> (r: Vec<String>)
    ensures
        names_view(r@) == srt_scan(
            crlf_norm(lossy_of(data@)),
            0,
            Seq::empty(),
            num_subtitles as int,
        ),
{
    let raw = utf8_lossy(data);
    let rawc = str_chars(raw.as_str());
    // fold \r\n line endings to \n
    let mut text: Vec<char> = Vec::new();
    let mut i: usize = 0;
    while i < rawc.len()
        invariant
            i <= rawc@.len(),
            crlf_norm(rawc@) == text@ + crlf_from(rawc@, i as int),
        decreases rawc@.len() - i,
    {
        if rawc[i] == '\r' && i + 1 < rawc.len() && rawc[i + 1] == '\n' {
            text.push('\n');
            proof {
                assert(text@ + crlf_from(rawc@, i + 2) =~= text@.drop_last() + (seq!['\n']
                    + crlf_from(rawc@, i + 2)));
            }
            i = i + 2;
        } else {
            text.push(rawc[i]);
            proof {
                assert(text@ + crlf_from(rawc@, i + 1) =~= text@.drop_last() + (seq![
                    rawc@[i as int],
                ] + crlf_from(rawc@, i + 1)));
            }
            i = i + 1;
        }
    }
    proof {
        assert(text@ + crlf_from(rawc@, rawc@.len() as int) =~= text@);
        assert(rawc@ == lossy_of(data@));
    }
    let ghost tv = text@;
    let v = text.as_slice();
    let n = v.len();
    let mut subtitles: Vec<String> = Vec::new();
    let mut p: usize = 0;
    proof {
        assert(names_view(subtitles@) =~= Seq::<Seq<char>>::empty());
    }
    while p < n && subtitles.len() < num_subtitles
        invariant
            tv == crlf_norm(lossy_of(data@)),
            v@ == tv,
            n == tv.len(),
            p <= n,
            srt_scan(tv, 0, Seq::empty(), num_subtitles as int) == srt_scan(
                tv,
                p as int,
                names_view(subtitles@),
                num_subtitles as int,
            ),
        decreases n - p,
    {
        let k_opt = find_blank_exec(v, p);
        let (chunk_end, next): (usize, usize) = match k_opt {
            Some(k) => (k, k + 2),
            None => (n, n),
        };
        let chunk = slice_subrange(v, p, chunk_end);
        proof {
            match k_opt {
                Some(k) => {
                    assert(chunk@ =~= tv.subrange(p as int, k as int));
                },
                None => {
                    assert(chunk@ =~= tv.skip(p as int));
                },
            }
        }
        if chunk.len() > 0 {
            match find_char_exec(chunk, 0, '\n') {
                None => {},
                Some(k1) => {
                    match find_char_exec(chunk, k1 + 1, '\n') {
                        None => {},
                        Some(k2) => {
                            let third = slice_subrange(chunk, k2 + 1, chunk.len());
                            proof {
                                assert(third@ =~= chunk@.skip(k2 + 1));
                            }
                            // newlines inside the cue become spaces
                            let mut flat: Vec<char> = Vec::new();
                            let mut j: usize = 0;
                            while j < third.len()
                                invariant
                                    j <= third@.len(),
                                    flat@ == nl_to_space(third@).take(j as int),
                                decreases third@.len() - j,
                            {
                                let c = third[j];
                                if c == '\n' {
                                    flat.push(' ');
                                } else {
                                    flat.push(c);
                                }
                                proof {
                                    assert(flat@ =~= nl_to_space(third@).take(j + 1));
                                }
                                j = j + 1;
                            }
                            proof {
                                assert(nl_to_space(third@).take(third@.len() as int)
                                    =~= nl_to_space(third@));
                            }
                            let flat_s = chars_string(flat.as_slice());
                            let cleaned = sanitize_text(flat_s.as_str());
                            if cleaned.as_str().unicode_len() > 0 {
                                proof {
                                    assert(cleaned@.len() > 0);
                                }
                                let ghost s0 = names_view(subtitles@);
                                subtitles.push(cleaned);
                                proof {
                                    assert(names_view(subtitles@) =~= s0.push(
                                        subtitles@.last()@,
                                    ));
                                }
                            } else {
                                proof {
                                    assert(cleaned@.len() == 0);
                                }
                            }
                        },
                    }
                },
            }
        }
        p = next;
    }
    proof {
        if p >= n {
            assert(srt_scan(tv, p as int, names_view(subtitles@), num_subtitles as int)
                == names_view(subtitles@));
        } else {
            assert(subtitles@.len() >= num_subtitles);
            assert(srt_scan(tv, p as int, names_view(subtitles@), num_subtitles as int)
                == names_view(subtitles@));
        }
    }
    subtitles
}

/// The first blank line at or after `i`, as `find_blank` names it.
fn find_blank_exec(v: &[char], i: usize) -> (r: Option<usize>)
    requires
        i <= v@.len(),
    ensures
        match r {
            Some(k) => find_blank(v@, i as int) == k && i <= k && k + 2 <= v@.len(),
            None => find_blank(v@, i as int) == -1,
        },
{
    if v.len() < 2 {
        return None;
    }
    let mut j: usize = i;
    while j <= v.len() - 2
        invariant
            2 <= v@.len(),
            i <= j,
            j <= v@.len(),
            find_blank(v@, i as int) == find_blank(v@, j as int),
        decreases v@.len() - j,
    {
        if v[j] == '\n' && v[j + 1] == '\n' {
            return Some(j);
        }
        j = j + 1;
    }
    None
}

} // verus!
