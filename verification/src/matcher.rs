use vstd::prelude::*;

verus! {

/// The classical Levenshtein distance: unit-cost insertion, deletion and
/// substitution over Unicode scalar values.
pub open spec fn edit_dist(a: Seq<char>, b: Seq<char>) -> int
    decreases a.len() + b.len(),
{
    if a.len() == 0 {
        b.len() as int
    } else if b.len() == 0 {
        a.len() as int
    } else {
        let d_sub = edit_dist(a.drop_last(), b.drop_last()) + if a.last() == b.last() {
            0int
        } else {
            1int
        };
        let d_del = edit_dist(a.drop_last(), b) + 1;
        let d_ins = edit_dist(a, b.drop_last()) + 1;
        if d_sub <= d_del && d_sub <= d_ins {
            d_sub
        } else if d_del <= d_ins {
            d_del
        } else {
            d_ins
        }
    }
}

/// Relies on levenshtein::levenshtein: the classical edit distance with
/// unit costs, computed over the two strings' characters.
#[verifier::external_body]
fn levenshtein_distance(a: &str, b: &str) -> (r: usize)
    ensures
        r == edit_dist(a@, b@),
{
    levenshtein::levenshtein(a, b)
}

/// Dropping the last character of the first string moves the distance by
/// at most one, either way.
pub proof fn lemma_edit_dist_drop_a(a: Seq<char>, b: Seq<char>)
    requires
        a.len() > 0,
    ensures
        edit_dist(a.drop_last(), b) <= edit_dist(a, b) + 1,
        edit_dist(a, b) <= edit_dist(a.drop_last(), b) + 1,
    decreases a.len() + b.len(),
{
    if b.len() == 0 {
    } else {
        let ad = a.drop_last();
        let bd = b.drop_last();
        lemma_edit_dist_drop_b(ad, b);
        lemma_edit_dist_drop_a(a, bd);
    }
}

/// Dropping the last character of the second string moves the distance by
/// at most one, either way.
pub proof fn lemma_edit_dist_drop_b(a: Seq<char>, b: Seq<char>)
    requires
        b.len() > 0,
    ensures
        edit_dist(a, b.drop_last()) <= edit_dist(a, b) + 1,
        edit_dist(a, b) <= edit_dist(a, b.drop_last()) + 1,
    decreases a.len() + b.len(),
{
    if a.len() == 0 {
    } else {
        let ad = a.drop_last();
        let bd = b.drop_last();
        lemma_edit_dist_drop_a(a, bd);
        lemma_edit_dist_drop_b(ad, b);
    }
}

/// Dropping the last character of both strings raises the distance by at
/// most one.
pub proof fn lemma_edit_dist_drop_both(a: Seq<char>, b: Seq<char>)
    requires
        a.len() > 0,
        b.len() > 0,
    ensures
        edit_dist(a.drop_last(), b.drop_last()) <= edit_dist(a, b) + 1,
{
    let ad = a.drop_last();
    let bd = b.drop_last();
    lemma_edit_dist_drop_b(ad, b);
    lemma_edit_dist_drop_a(a, b);
    lemma_edit_dist_drop_a(a, bd);
}

/// Truncating both strings to a shorter common length `l` lowers the
/// distance by at most the characters removed: the matcher's monotonicity
/// law.
pub proof fn lemma_truncation_monotone(a: Seq<char>, b: Seq<char>, l: int, lp: int)
    requires
        0 <= l <= lp,
        lp <= a.len(),
        lp <= b.len(),
    ensures
        edit_dist(a.take(l), b.take(l)) <= edit_dist(a.take(lp), b.take(lp)) + (lp - l),
    decreases lp - l,
{
    if l < lp {
        lemma_truncation_monotone(a, b, l, lp - 1);
        assert(a.take(lp).drop_last() =~= a.take(lp - 1));
        assert(b.take(lp).drop_last() =~= b.take(lp - 1));
        lemma_edit_dist_drop_both(a.take(lp), b.take(lp));
    }
}

/// The length of the shorter string, counted in characters.
pub open spec fn common_len(a: Seq<char>, b: Seq<char>) -> int {
    if a.len() <= b.len() {
        a.len() as int
    } else {
        b.len() as int
    }
}

/// The matcher's distance between two texts: both are truncated to the
/// shorter character count, then measured by edit distance.
pub open spec fn norm_dist(a: Seq<char>, b: Seq<char>) -> int {
    edit_dist(a.take(common_len(a, b)), b.take(common_len(a, b)))
}

/// The prefix holding the first `len` characters.
pub fn substring(string: &str, len: usize) -> (r: &str)
    requires
        len <= string@.len(),
    ensures
        r@ == string@.take(len as int),
{
    string.substring_char(0, len)
}

/// Truncates both strings to the shorter of their character counts.
pub fn normalize_to_shortest_string(string1: &str, string2: &str) -> (r: (String, String))
    ensures
        r.0@ == string1@.take(common_len(string1@, string2@)),
        r.1@ == string2@.take(common_len(string1@, string2@)),
{
    let n1 = string1.unicode_len();
    let n2 = string2.unicode_len();
    let m = if n1 <= n2 {
        n1
    } else {
        n2
    };
    let s1 = substring(string1, m);
    let s2 = substring(string2, m);
    (s1.to_owned(), s2.to_owned())
}

/// One file's text joined from its subtitle strings by single spaces.
pub open spec fn joined(parts: Seq<String>) -> Seq<char>
    decreases parts.len(),
{
    if parts.len() == 0 {
        Seq::empty()
    } else if parts.len() == 1 {
        parts[0]@
    } else {
        joined(parts.drop_last()) + " "@ + parts.last()@
    }
}

/// Flattens each file's subtitle strings into one space-joined text.
pub fn flatten_subtitles(files: &Vec<(String, Vec<String>)>) -> (r: Vec<(String, String)>)
    ensures
        r@.len() == files@.len(),
        forall|i: int|
            0 <= i < files@.len() ==> (#[trigger] r@[i]).0@ == files@[i].0@ && r@[i].1@ == joined(
                files@[i].1@,
            ),
{
    let mut r: Vec<(String, String)> = Vec::new();
    let mut i: usize = 0;
    while i < files.len()
        invariant
            i <= files@.len(),
            r@.len() == i,
            forall|k: int|
                0 <= k < i ==> (#[trigger] r@[k]).0@ == files@[k].0@ && r@[k].1@ == joined(
                    files@[k].1@,
                ),
        decreases files@.len() - i,
    {
        let (name, parts) = &files[i];
        let mut text = String::new();
        let mut j: usize = 0;
        while j < parts.len()
            invariant
                j <= parts@.len(),
                text@ == joined(parts@.take(j as int)),
            decreases parts@.len() - j,
        {
            if j > 0 {
                text.append(" ");
            }
            text.append(parts[j].as_str());
            proof {
                assert(parts@.take(j + 1).drop_last() =~= parts@.take(j as int));
                if j == 0 {
                    assert(text@ =~= joined(parts@.take(1)));
                }
            }
            j = j + 1;
        }
        proof {
            assert(parts@.take(parts@.len() as int) =~= parts@);
        }
        r.push((name.clone(), text));
        i = i + 1;
    }
    r
}

/// The view of a distance row: names and distances.
pub open spec fn pairs_view(v: Seq<(String, usize)>) -> Seq<(Seq<char>, int)> {
    Seq::new(v.len(), |j: int| (v[j].0@, v[j].1 as int))
}

/// One input's distances to every reference, in discovery order.
pub open spec fn row_views(text: Seq<char>, refs: Seq<(String, String)>) -> Seq<
    (Seq<char>, int),
> {
    Seq::new(refs.len(), |j: int| (refs[j].0@, norm_dist(text, refs[j].1@)))
}

/// Stable insertion: the new pair lands after every pair with a distance
/// no larger than its own.
pub open spec fn insert_after_leq(t: Seq<(Seq<char>, int)>, x: (Seq<char>, int)) -> Seq<
    (Seq<char>, int),
>
    decreases t.len(),
{
    if t.len() == 0 {
        seq![x]
    } else if t.last().1 <= x.1 {
        t.push(x)
    } else {
        insert_after_leq(t.drop_last(), x).push(t.last())
    }
}

/// Stable insertion sort by distance, ties kept in discovery order.
pub open spec fn insort(s: Seq<(Seq<char>, int)>) -> Seq<(Seq<char>, int)>
    decreases s.len(),
{
    if s.len() == 0 {
        Seq::empty()
    } else {
        insert_after_leq(insort(s.drop_last()), s.last())
    }
}

/// A positional description of stable insertion: the new pair goes at the
/// first position from the right whose left neighbour is no larger.
proof fn lemma_insert_at(t: Seq<(Seq<char>, int)>, x: (Seq<char>, int), pos: int)
    requires
        0 <= pos <= t.len(),
        forall|j: int| pos <= j < t.len() ==> (#[trigger] t[j]).1 > x.1,
        pos > 0 ==> t[pos - 1].1 <= x.1,
    ensures
        insert_after_leq(t, x) == t.take(pos) + seq![x] + t.skip(pos),
    decreases t.len(),
{
    if t.len() == 0 {
        assert(insert_after_leq(t, x) =~= t.take(pos) + seq![x] + t.skip(pos));
    } else if pos == t.len() {
        assert(t.last().1 <= x.1);
        assert(t.push(x) =~= t.take(pos) + seq![x] + t.skip(pos));
    } else {
        assert(t[t.len() - 1].1 > x.1);
        lemma_insert_at(t.drop_last(), x, pos);
        assert(t.drop_last().take(pos) =~= t.take(pos));
        assert(insert_after_leq(t.drop_last(), x).push(t.last()) =~= t.take(pos) + seq![x]
            + t.skip(pos)) by {
            assert(t.drop_last().skip(pos).push(t.last()) =~= t.skip(pos));
            assert((t.take(pos) + seq![x] + t.drop_last().skip(pos)).push(t.last()) =~= t.take(
                pos,
            ) + seq![x] + t.skip(pos));
        }
    }
}

/// After stable insertion into a sorted row, the row is sorted.
pub proof fn lemma_insert_sorted(t: Seq<(Seq<char>, int)>, x: (Seq<char>, int))
    requires
        forall|i: int, j: int| 0 <= i <= j < t.len() ==> (#[trigger] t[i]).1 <= (#[trigger] t[j]).1,
    ensures
        forall|i: int, j: int|
            0 <= i <= j < insert_after_leq(t, x).len() ==> (#[trigger] insert_after_leq(t, x)[i]).1
                <= (#[trigger] insert_after_leq(t, x)[j]).1,
    decreases t.len(),
{
    if t.len() == 0 {
    } else if t.last().1 <= x.1 {
        assert forall|i: int, j: int|
            0 <= i <= j < t.push(x).len() implies (#[trigger] t.push(x)[i]).1 <= (#[trigger] t.push(
            x,
        )[j]).1 by {
            if j < t.len() {
            } else {
                if i < t.len() {
                    assert(t[i].1 <= t[t.len() - 1].1);
                }
            }
        }
    } else {
        lemma_insert_sorted(t.drop_last(), x);
        let u = insert_after_leq(t.drop_last(), x);
        assert forall|k: int|
            0 <= k < t.drop_last().len() implies (#[trigger] t.drop_last()[k]).1 <= t.last().1 by {
            assert(t[k].1 <= t[t.len() - 1].1);
        }
        lemma_insert_bound(t.drop_last(), x, t.last().1);
        assert forall|i: int, j: int|
            0 <= i <= j < u.push(t.last()).len() implies (#[trigger] u.push(t.last())[i]).1
                <= (#[trigger] u.push(t.last())[j]).1 by {
            if j < u.len() {
            } else if i < u.len() {
                assert(u[i].1 <= t.last().1);
            }
        }
    }
}

/// Everything in the inserted row stays under any bound that holds of the
/// old row and the new pair.
proof fn lemma_insert_bound(t: Seq<(Seq<char>, int)>, x: (Seq<char>, int), bound: int)
    requires
        forall|k: int| 0 <= k < t.len() ==> (#[trigger] t[k]).1 <= bound,
        x.1 <= bound,
    ensures
        forall|i: int|
            0 <= i < insert_after_leq(t, x).len() ==> (#[trigger] insert_after_leq(t, x)[i]).1
                <= bound,
    decreases t.len(),
{
    let u = insert_after_leq(t, x);
    if t.len() == 0 {
        assert forall|i: int| 0 <= i < u.len() implies (#[trigger] u[i]).1 <= bound by {
            assert(u == seq![x]);
            assert(u[0] == x);
        }
    } else if t.last().1 <= x.1 {
        assert forall|i: int| 0 <= i < u.len() implies (#[trigger] u[i]).1 <= bound by {
            assert(u == t.push(x));
            if i < t.len() {
                assert(u[i] == t[i]);
            } else {
                assert(u[i] == x);
            }
        }
    } else {
        assert(forall|k: int|
            0 <= k < t.drop_last().len() ==> (#[trigger] t.drop_last()[k]).1 <= bound);
        lemma_insert_bound(t.drop_last(), x, bound);
        let v = insert_after_leq(t.drop_last(), x);
        assert forall|i: int| 0 <= i < u.len() implies (#[trigger] u[i]).1 <= bound by {
            assert(u == v.push(t.last()));
            if i < v.len() {
                assert(u[i] == v[i]);
            } else {
                assert(u[i] == t.last());
            }
        }
    }
}

/// Computes, for each input text, its distance to every reference text:
/// both texts truncated to the shorter character count, then the
/// Levenshtein distance; each row sorted ascending, ties stable in
/// reference discovery order.
pub fn compute_distances(
    subtitles: &Vec<(String, String)>,
    ref_subtitles: &Vec<(String, String)>,
) -> (r: Vec<(String, Vec<(String, usize)>)>)
    ensures
        r@.len() == subtitles@.len(),
        forall|i: int|
            0 <= i < subtitles@.len() ==> (#[trigger] r@[i]).0@ == subtitles@[i].0@ && pairs_view(
                r@[i].1@,
            ) == insort(row_views(subtitles@[i].1@, ref_subtitles@)),
{
    let mut r: Vec<(String, Vec<(String, usize)>)> = Vec::new();
    let mut i: usize = 0;
    while i < subtitles.len()
        invariant
            i <= subtitles@.len(),
            r@.len() == i,
            forall|k: int|
                0 <= k < i ==> (#[trigger] r@[k]).0@ == subtitles@[k].0@ && pairs_view(r@[k].1@)
                    == insort(row_views(subtitles@[k].1@, ref_subtitles@)),
        decreases subtitles@.len() - i,
    {
        let text = &subtitles[i].1;
        let mut sorted: Vec<(String, usize)> = Vec::new();
        let mut j: usize = 0;
        while j < ref_subtitles.len()
            invariant
                j <= ref_subtitles@.len(),
                text@ == subtitles@[i as int].1@,
                i < subtitles@.len(),
                pairs_view(sorted@) == insort(
                    row_views(text@, ref_subtitles@.take(j as int)),
                ),
                forall|a: int, b: int|
                    0 <= a <= b < sorted@.len() ==> (#[trigger] sorted@[a]).1 <= (
                    #[trigger] sorted@[b]).1,
            decreases ref_subtitles@.len() - j,
        {
            let (rname, rtext) = &ref_subtitles[j];
            let (na, nb) = normalize_to_shortest_string(text.as_str(), rtext.as_str());
            let d = levenshtein_distance(na.as_str(), nb.as_str());
            let ghost x = (rname@, d as int);
            let mut pos: usize = sorted.len();
            while pos > 0 && sorted[pos - 1].1 > d
                invariant
                    pos <= sorted@.len(),
                    forall|k: int|
                        pos <= k < sorted@.len() ==> (#[trigger] sorted@[k]).1 > d,
                decreases pos,
            {
                pos = pos - 1;
            }
            let ghost sorted0 = sorted@;
            sorted.insert(pos, (rname.clone(), d));
            proof {
                assert forall|k: int|
                    pos <= k < sorted0.len() implies (#[trigger] pairs_view(sorted0)[k]).1
                    > x.1 by {
                    assert(sorted0[k].1 > d);
                }
                lemma_insert_at(pairs_view(sorted0), x, pos as int);
                lemma_insert_sorted(pairs_view(sorted0), x);
                assert(pairs_view(sorted@) =~= pairs_view(sorted0).take(pos as int) + seq![x]
                    + pairs_view(sorted0).skip(pos as int));
                assert(row_views(text@, ref_subtitles@.take(j + 1)).drop_last() =~= row_views(
                    text@,
                    ref_subtitles@.take(j as int),
                ));
                assert(row_views(text@, ref_subtitles@.take(j + 1)).last() == x);
            }
            j = j + 1;
        }
        proof {
            assert(ref_subtitles@.take(ref_subtitles@.len() as int) =~= ref_subtitles@);
        }
        let name = subtitles[i].0.clone();
        r.push((name, sorted));
        i = i + 1;
    }
    r
}

/// The views of name pairs.
pub open spec fn map_pairs_view(v: Seq<(String, String)>) -> Seq<(Seq<char>, Seq<char>)> {
    Seq::new(v.len(), |j: int| (v[j].0@, v[j].1@))
}

/// The views of a name list.
pub open spec fn names_view(v: Seq<String>) -> Seq<Seq<char>> {
    Seq::new(v.len(), |j: int| v[j]@)
}

/// The views of name-and-count pairs.
pub open spec fn counts_view(v: Seq<(String, usize)>) -> Seq<(Seq<char>, int)> {
    Seq::new(v.len(), |j: int| (v[j].0@, v[j].1 as int))
}

/// Whether a distance row elects its nearest reference: the row is
/// nonempty, and its best distance beats the optional cut-off.
pub open spec fn row_elects(row: Seq<(String, usize)>, maxd: Option<usize>) -> bool {
    row.len() > 0 && (match maxd {
        None => true,
        Some(m) => (row[0].1 as int) < m,
    })
}

/// The mapping each input with a close-enough nearest reference enters,
/// in input order.
pub open spec fn mappings_of(
    rows: Seq<(String, Vec<(String, usize)>)>,
    maxd: Option<usize>,
    i: int,
) -> Seq<(Seq<char>, Seq<char>)>
    decreases rows.len() - i,
{
    if i < 0 || i >= rows.len() {
        Seq::empty()
    } else {
        let rest = mappings_of(rows, maxd, i + 1);
        if row_elects(rows[i].1@, maxd) {
            seq![(rows[i].0@, rows[i].1@[0].0@)] + rest
        } else {
            rest
        }
    }
}

/// How many inputs picked this reference.
pub open spec fn count_mapped(maps: Seq<(Seq<char>, Seq<char>)>, name: Seq<char>) -> int
    decreases maps.len(),
{
    if maps.len() == 0 {
        0int
    } else {
        count_mapped(maps.drop_last(), name) + if maps.last().1 == name {
            1int
        } else {
            0int
        }
    }
}

/// The references no input picked, in discovery order.
pub open spec fn unmapped_of(
    refs: Seq<(String, String)>,
    maps: Seq<(Seq<char>, Seq<char>)>,
    i: int,
) -> Seq<Seq<char>>
    decreases refs.len() - i,
{
    if i < 0 || i >= refs.len() {
        Seq::empty()
    } else {
        let rest = unmapped_of(refs, maps, i + 1);
        if count_mapped(maps, refs[i].0@) == 0 {
            seq![refs[i].0@] + rest
        } else {
            rest
        }
    }
}

/// The references more than one input picked, with their counts.
pub open spec fn dups_of(
    refs: Seq<(String, String)>,
    maps: Seq<(Seq<char>, Seq<char>)>,
    i: int,
) -> Seq<(Seq<char>, int)>
    decreases refs.len() - i,
{
    if i < 0 || i >= refs.len() {
        Seq::empty()
    } else {
        let rest = dups_of(refs, maps, i + 1);
        if count_mapped(maps, refs[i].0@) > 1 {
            seq![(refs[i].0@, count_mapped(maps, refs[i].0@))] + rest
        } else {
            rest
        }
    }
}

/// What a matching run reports: the chosen mapping, the references nothing
/// picked, the references picked more than once, and whether the outcome
/// is high-confidence, which holds exactly when no reference was picked
/// twice.
pub struct MatchReport {
    pub mappings: Vec<(String, String)>,
    pub unmapped: Vec<String>,
    pub duplicates: Vec<(String, usize)>,
    pub high_confidence: bool,
}

/// How many of the chosen mappings picked this reference.
fn count_mapped_exec(maps: &Vec<(String, String)>, name: &String) -> (r: usize)
    ensures
        r == count_mapped(map_pairs_view(maps@), name@),
{
    let mut cnt: usize = 0;
    let mut j: usize = 0;
    while j < maps.len()
        invariant
            j <= maps@.len(),
            cnt <= j,
            cnt == count_mapped(map_pairs_view(maps@).take(j as int), name@),
        decreases maps@.len() - j,
    {
        proof {
            assert(map_pairs_view(maps@).take(j + 1).drop_last() =~= map_pairs_view(
                maps@,
            ).take(j as int));
            assert(map_pairs_view(maps@).take(j + 1).last() == (maps@[j as int].0@, maps@[
                j as int].1@));
        }
        if maps[j].1 == *name {
            cnt = cnt + 1;
        }
        j = j + 1;
    }
    proof {
        assert(map_pairs_view(maps@).take(maps@.len() as int) =~= map_pairs_view(maps@));
    }
    cnt
}

/// Builds the run's report from the sorted distance rows and the reference
/// list: each input picks its nearest reference if that beats the cut-off;
/// a reference picked by nobody is unmapped, one picked twice a duplicate;
/// confidence is high exactly when there are no duplicates.
pub fn build_match_report(
    distances: &Vec<(String, Vec<(String, usize)>)>,
    ref_subtitles: &Vec<(String, String)>,
    max_distance: Option<usize>,
) -> (r: MatchReport)
    ensures
        map_pairs_view(r.mappings@) == mappings_of(distances@, max_distance, 0),
        names_view(r.unmapped@) == unmapped_of(
            ref_subtitles@,
            mappings_of(distances@, max_distance, 0),
            0,
        ),
        counts_view(r.duplicates@) == dups_of(
            ref_subtitles@,
            mappings_of(distances@, max_distance, 0),
            0,
        ),
        r.high_confidence == (dups_of(
            ref_subtitles@,
            mappings_of(distances@, max_distance, 0),
            0,
        ).len() == 0),
{
    let mut mappings: Vec<(String, String)> = Vec::new();
    let mut i: usize = 0;
    proof {
        assert(map_pairs_view(mappings@) =~= Seq::<(Seq<char>, Seq<char>)>::empty());
    }
    while i < distances.len()
        invariant
            i <= distances@.len(),
            mappings_of(distances@, max_distance, 0) == map_pairs_view(mappings@)
                + mappings_of(distances@, max_distance, i as int),
        decreases distances@.len() - i,
    {
        let row = &distances[i].1;
        let add = if row.len() > 0 {
            match max_distance {
                Some(m) => row[0].1 < m,
                None => true,
            }
        } else {
            false
        };
        if add {
            let ghost m0 = mappings@;
            mappings.push((distances[i].0.clone(), row[0].0.clone()));
            proof {
                assert(map_pairs_view(mappings@) =~= map_pairs_view(m0) + seq![
                    (distances@[i as int].0@, distances@[i as int].1@[0].0@),
                ]);
                assert(map_pairs_view(m0) + (seq![
                    (distances@[i as int].0@, distances@[i as int].1@[0].0@),
                ] + mappings_of(distances@, max_distance, i + 1)) =~= map_pairs_view(mappings@)
                    + mappings_of(distances@, max_distance, i + 1));
            }
        }
        i = i + 1;
    }
    proof {
        assert(map_pairs_view(mappings@) + Seq::<(Seq<char>, Seq<char>)>::empty()
            =~= map_pairs_view(mappings@));
    }
    let ghost maps = mappings_of(distances@, max_distance, 0);
    let mut unmapped: Vec<String> = Vec::new();
    let mut duplicates: Vec<(String, usize)> = Vec::new();
    let mut k: usize = 0;
    proof {
        assert(names_view(unmapped@) =~= Seq::<Seq<char>>::empty());
        assert(counts_view(duplicates@) =~= Seq::<(Seq<char>, int)>::empty());
    }
    while k < ref_subtitles.len()
        invariant
            k <= ref_subtitles@.len(),
            maps == mappings_of(distances@, max_distance, 0),
            maps == map_pairs_view(mappings@),
            unmapped_of(ref_subtitles@, maps, 0) == names_view(unmapped@) + unmapped_of(
                ref_subtitles@,
                maps,
                k as int,
            ),
            dups_of(ref_subtitles@, maps, 0) == counts_view(duplicates@) + dups_of(
                ref_subtitles@,
                maps,
                k as int,
            ),
        decreases ref_subtitles@.len() - k,
    {
        let cnt = count_mapped_exec(&mappings, &ref_subtitles[k].0);
        if cnt == 0 {
            let ghost u0 = unmapped@;
            unmapped.push(ref_subtitles[k].0.clone());
            proof {
                assert(names_view(unmapped@) =~= names_view(u0) + seq![
                    ref_subtitles@[k as int].0@,
                ]);
                assert(names_view(u0) + (seq![ref_subtitles@[k as int].0@] + unmapped_of(
                    ref_subtitles@,
                    maps,
                    k + 1,
                )) =~= names_view(unmapped@) + unmapped_of(ref_subtitles@, maps, k + 1));
            }
        } else if cnt > 1 {
            let ghost d0 = duplicates@;
            duplicates.push((ref_subtitles[k].0.clone(), cnt));
            proof {
                assert(counts_view(duplicates@) =~= counts_view(d0) + seq![
                    (ref_subtitles@[k as int].0@, cnt as int),
                ]);
                assert(counts_view(d0) + (seq![(ref_subtitles@[k as int].0@, cnt as int)]
                    + dups_of(ref_subtitles@, maps, k + 1)) =~= counts_view(duplicates@)
                    + dups_of(ref_subtitles@, maps, k + 1));
            }
        }
        k = k + 1;
    }
    proof {
        assert(names_view(unmapped@) + Seq::<Seq<char>>::empty() =~= names_view(unmapped@));
        assert(counts_view(duplicates@) + Seq::<(Seq<char>, int)>::empty() =~= counts_view(
            duplicates@,
        ));
        assert(counts_view(duplicates@).len() == duplicates@.len());
    }
    let high_confidence = duplicates.len() == 0;
    MatchReport { mappings, unmapped, duplicates, high_confidence }
}

} // verus!
