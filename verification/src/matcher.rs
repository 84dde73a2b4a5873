use vstd::prelude::*;
use vstd::math::min;
use vstd::utf8::encode_utf8;

verus! {

/// `pat` occurs in `hay` starting at byte offset `i`.
pub open spec fn match_at(hay: Seq<u8>, pat: Seq<u8>, i: int) -> bool {
    0 <= i && i + pat.len() <= hay.len() && hay.subrange(i, i + pat.len()) == pat
}

/// Byte offset of the first occurrence of `pat` in `hay` at or after `i`.
pub open spec fn find_from(hay: Seq<u8>, pat: Seq<u8>, i: int) -> Option<int>
    recommends
        0 <= i,
    decreases hay.len() + 1 - i,
{
    if i < 0 || i + pat.len() > hay.len() {
        None
    } else if match_at(hay, pat, i) {
        Some(i)
    } else {
        find_from(hay, pat, i + 1)
    }
}

/// Mathematical value of a search hit: the matched line, its rank
/// (lower is better) and the highlight spans, as byte offsets.
pub struct MatchModel {
    pub line: Seq<char>,
    pub score: int,
    pub spans: Seq<(int, int)>,
}

/// What `Matcher::score` returns for one line: with no query every line
/// matches at rank 0 with no spans; with a query the line matches iff it
/// contains the query, ranked by the byte offset of the first occurrence,
/// with one span from that offset to the end of the line.
pub open spec fn score_spec(line: Seq<char>, query: Option<Seq<char>>) -> Option<MatchModel> {
    match query {
        None => Some(MatchModel { line, score: 0, spans: Seq::empty() }),
        Some(q) => match find_from(encode_utf8(line), encode_utf8(q), 0) {
            Some(i) => Some(
                MatchModel { line, score: i, spans: seq![(i, encode_utf8(line).len() as int)] },
            ),
            None => None,
        },
    }
}

/// The matching lines of a corpus, scored, in corpus order.
pub open spec fn scored_matches(lines: Seq<Seq<char>>, query: Option<Seq<char>>) -> Seq<
    MatchModel,
> {
    lines.filter_map(|l: Seq<char>| score_spec(l, query))
}

/// Insert `m` after every element whose score is at most `m.score`:
/// the insertion step of a stable sort.
pub open spec fn insert_by_score(m: MatchModel, s: Seq<MatchModel>) -> Seq<MatchModel>
    decreases s.len(),
{
    if s.len() == 0 {
        seq![m]
    } else if s[0].score <= m.score {
        seq![s[0]] + insert_by_score(m, s.drop_first())
    } else {
        seq![m] + s
    }
}

/// Stable sort by ascending score: elements arriving later are placed
/// after earlier elements of equal score.
pub open spec fn sort_by_score(s: Seq<MatchModel>) -> Seq<MatchModel>
    decreases s.len(),
{
    if s.len() == 0 {
        Seq::empty()
    } else {
        insert_by_score(s.last(), sort_by_score(s.drop_last()))
    }
}

pub open spec fn sorted_by_score(s: Seq<MatchModel>) -> bool {
    forall|i: int, j: int| 0 <= i <= j < s.len() ==> s[i].score <= s[j].score
}

/// The whole matcher run: score every line, keep the matches in corpus
/// order, sort stably by ascending score, truncate to the cap.
pub open spec fn run_spec(lines: Seq<Seq<char>>, query: Option<Seq<char>>, cap: int) -> Seq<
    MatchModel,
> {
    let sorted = sort_by_score(scored_matches(lines, query));
    sorted.take(min(cap, sorted.len() as int))
}

/// One line of the corpus together with its rank and highlight spans.
#[derive(Clone, Debug)]
pub struct MatchResult {
    pub line: String,
    pub score: usize,
    pub matches: Vec<(usize, usize)>,
}

impl DeepView for MatchResult {
    type V = MatchModel;

    open spec fn deep_view(&self) -> MatchModel {
        MatchModel {
            line: self.line@,
            score: self.score as int,
            spans: self.matches@.map_values(|p: (usize, usize)| (p.0 as int, p.1 as int)),
        }
    }
}

/// The scoring function: stateless but for the result cap.
pub struct Matcher {
    count: usize,
}

impl Matcher {
    /// The result cap this matcher truncates to.
    pub closed spec fn cap(&self) -> int {
        self.count as int
    }

    pub fn new(count: usize) -> (m: Matcher)
        ensures
            m.cap() == count,
    {
        Matcher { count }
    }

    /// Score one line against the query, as `score_spec` states.
    pub fn score(&self, line: &String, query: &Option<String>) -> (r: Option<MatchResult>)
        ensures
            r.deep_view() == score_spec(line@, query.deep_view()),
    {
        match query {
            Some(q) => match find_sub(line.as_str().as_bytes(), q.as_str().as_bytes()) {
                Some(m) => {
                    let end = line.as_str().as_bytes().len();
                    let mut spans: Vec<(usize, usize)> = Vec::new();
                    spans.push((m, end));
                    let r = MatchResult { line: line.clone(), score: m, matches: spans };
                    proof {
                        assert(spans@ =~= seq![(m, end)]);
                        assert(end == encode_utf8(line@).len());
                        assert(r.deep_view().spans =~= seq![
                            (m as int, encode_utf8(line@).len() as int),
                        ]);
                    }
                    Some(r)
                },
                None => None,
            },
            None => {
                let r = MatchResult { line: line.clone(), score: 0, matches: Vec::new() };
                proof {
                    assert(r.deep_view().spans =~= Seq::<(int, int)>::empty());
                }
                Some(r)
            },
        }
    }

    /// Run the matcher over a corpus snapshot: every matching line, scored,
    /// stably sorted by ascending rank, truncated to the cap.
    pub fn run(&self, lines: &Vec<String>, query: &Option<String>) -> (res: Vec<MatchResult>)
        ensures
            res.deep_view() == run_spec(lines.deep_view(), query.deep_view(), self.cap()),
            res.len() <= self.cap(),
    {
        let ghost q = query.deep_view();
        let ghost f = |l: Seq<char>| score_spec(l, q);
        let mut matches: Vec<MatchResult> = Vec::new();
        let mut k: usize = 0;
        while k < lines.len()
            invariant
                0 <= k <= lines.len(),
                q == query.deep_view(),
                f == (|l: Seq<char>| score_spec(l, q)),
                matches.deep_view() == lines.deep_view().take(k as int).filter_map(f),
            decreases lines.len() - k,
        {
            let ghost pre = matches.deep_view();
            match self.score(&lines[k], query) {
                Some(r) => {
                    matches.push(r);
                    proof {
                        assert(matches.deep_view() =~= pre + seq![r.deep_view()]);
                    }
                },
                None => {},
            }
            proof {
                lines.deep_view().lemma_filter_map_take_succ(f, k as int);
            }
            k = k + 1;
        }
        proof {
            assert(lines.deep_view().take(lines.len() as int) =~= lines.deep_view());
        }
        sort_matches(&mut matches);
        if matches.len() > self.count {
            matches.truncate(self.count);
            proof {
                assert(matches.deep_view() =~= run_spec(lines.deep_view(), q, self.cap()));
            }
        } else {
            proof {
                assert(matches.deep_view() =~= run_spec(lines.deep_view(), q, self.cap()));
            }
        }
        matches
    }
}

/// Where a stable insertion lands: `insert_by_score(m, s)` splits sorted `s`
/// at any boundary `j` with everything before it at most `m.score` and
/// everything from it strictly greater.
proof fn lemma_insert_by_score_split(m: MatchModel, s: Seq<MatchModel>, j: int)
    requires
        sorted_by_score(s),
        0 <= j <= s.len(),
        forall|k: int| 0 <= k < j ==> s[k].score <= m.score,
        j == s.len() || s[j].score > m.score,
    ensures
        insert_by_score(m, s) =~= s.take(j) + seq![m] + s.skip(j),
    decreases s.len(),
{
    if j == 0 {
        if s.len() == 0 {
        } else {
            assert(s[0].score > m.score);
        }
    } else {
        assert(s[0].score <= m.score);
        let s1 = s.drop_first();
        assert(sorted_by_score(s1)) by {
            assert(forall|i: int, k: int|
                0 <= i <= k < s1.len() ==> s1[i] == s[i + 1] && s1[k] == s[k + 1]);
        }
        assert(forall|k: int| 0 <= k < j - 1 ==> s1[k] == s[k + 1] && s1[k].score <= m.score);
        assert(j - 1 == s1.len() || s1[j - 1].score > m.score);
        lemma_insert_by_score_split(m, s1, j - 1);
        assert(insert_by_score(m, s) =~= seq![s[0]] + (s1.take(j - 1) + seq![m] + s1.skip(j - 1)));
        assert(seq![s[0]] + (s1.take(j - 1) + seq![m] + s1.skip(j - 1)) =~= s.take(j) + seq![m]
            + s.skip(j));
    }
}

/// Stable insertion keeps the sequence sorted and adds one element.
proof fn lemma_insert_by_score_sorted(m: MatchModel, s: Seq<MatchModel>)
    requires
        sorted_by_score(s),
    ensures
        sorted_by_score(insert_by_score(m, s)),
        insert_by_score(m, s).len() == s.len() + 1,
    decreases s.len(),
{
    if s.len() == 0 {
    } else if s[0].score <= m.score {
        let s1 = s.drop_first();
        assert(sorted_by_score(s1)) by {
            assert(forall|i: int, k: int|
                0 <= i <= k < s1.len() ==> s1[i] == s[i + 1] && s1[k] == s[k + 1]);
        }
        lemma_insert_by_score_sorted(m, s1);
        let ins = insert_by_score(m, s1);
        assert(forall|k: int| 0 <= k < ins.len() ==> s[0].score <= ins[k].score) by {
            lemma_insert_by_score_membership(m, s1);
            assert(forall|k: int| 0 <= k < s1.len() ==> s[0].score <= s1[k].score);
        }
        assert(insert_by_score(m, s) == seq![s[0]] + ins);
        assert(sorted_by_score(seq![s[0]] + ins)) by {
            assert(forall|i: int, k: int|
                0 <= i <= k < (seq![s[0]] + ins).len() && i >= 1 ==> (seq![s[0]] + ins)[i]
                    == ins[i - 1] && (seq![s[0]] + ins)[k] == ins[k - 1]);
        }
    } else {
    }
}

/// Every element of a stable insertion is the inserted element or one of
/// the originals, score-wise.
proof fn lemma_insert_by_score_membership(m: MatchModel, s: Seq<MatchModel>)
    ensures
        insert_by_score(m, s).len() == s.len() + 1,
        forall|k: int|
            0 <= k < insert_by_score(m, s).len() ==> (insert_by_score(m, s)[k] == m || s.contains(
                insert_by_score(m, s)[k],
            )),
    decreases s.len(),
{
    if s.len() == 0 {
    } else if s[0].score <= m.score {
        let s1 = s.drop_first();
        lemma_insert_by_score_membership(m, s1);
        assert(forall|k: int|
            0 <= k < insert_by_score(m, s).len() && k >= 1 ==> insert_by_score(m, s)[k]
                == insert_by_score(m, s1)[k - 1]);
        assert(forall|x: MatchModel| s1.contains(x) ==> s.contains(x)) by {
            assert(forall|i: int| 0 <= i < s1.len() ==> s1[i] == s[i + 1]);
        }
        assert(s.contains(s[0]));
    } else {
    }
}

/// The stable sort keeps the length and sorts by ascending score.
pub proof fn lemma_sort_by_score_sorted(s: Seq<MatchModel>)
    ensures
        sort_by_score(s).len() == s.len(),
        sorted_by_score(sort_by_score(s)),
    decreases s.len(),
{
    if s.len() == 0 {
    } else {
        lemma_sort_by_score_sorted(s.drop_last());
        lemma_insert_by_score_sorted(s.last(), sort_by_score(s.drop_last()));
    }
}

/// Stable insertion sort in place, ascending by score, equal scores kept
/// in their original order.
fn sort_matches(v: &mut Vec<MatchResult>)
    ensures
        final(v).deep_view() == sort_by_score(old(v).deep_view()),
{
    let ghost orig = old(v).deep_view();
    let n = v.len();
    if n == 0 {
        proof {
            assert(v.deep_view() =~= sort_by_score(orig));
        }
        return ;
    }
    let mut i: usize = 1;
    proof {
        assert(orig.take(1).len() == 1);
        assert(orig.take(1).drop_last() =~= Seq::<MatchModel>::empty());
        assert(orig.take(1).last() == orig[0]);
        assert(sort_by_score(Seq::<MatchModel>::empty()) == Seq::<MatchModel>::empty());
        assert(sort_by_score(orig.take(1)) == insert_by_score(
            orig[0],
            Seq::<MatchModel>::empty(),
        ));
        assert(insert_by_score(orig[0], Seq::<MatchModel>::empty()) =~= seq![orig[0]]);
        assert(v.deep_view() =~= sort_by_score(orig.take(1)) + orig.skip(1));
    }
    while i < n
        invariant
            1 <= i <= n,
            n == v.len(),
            orig.len() == n,
            v.deep_view() == sort_by_score(orig.take(i as int)) + orig.skip(i as int),
        decreases n - i,
    {
        let ghost sorted_pre = sort_by_score(orig.take(i as int));
        let ghost m = orig[i as int];
        proof {
            lemma_sort_by_score_sorted(orig.take(i as int));
            assert(v.deep_view()[i as int] == m);
        }
        let mut j: usize = i;
        while j > 0 && v[j - 1].score > v[j].score
            invariant
                0 <= j <= i < n,
                n == v.len(),
                orig.len() == n,
                sorted_pre == sort_by_score(orig.take(i as int)),
                sorted_pre.len() == i,
                sorted_by_score(sorted_pre),
                m == orig[i as int],
                v.deep_view() =~= sorted_pre.take(j as int) + seq![m] + sorted_pre.skip(
                    j as int,
                ) + orig.skip(i + 1),
                forall|k: int| j <= k < i ==> sorted_pre[k].score > m.score,
            decreases j,
        {
            let ghost pre = v.deep_view();
            let ghost pv = v@;
            let x = v.remove(j - 1);
            v.insert(j, x);
            proof {
                assert(v@ =~= pv.remove(j - 1).insert(j as int, pv[j - 1]));
                let swapped = pre.update(j - 1, pre[j as int]).update(j as int, pre[j - 1]);
                assert(v.deep_view() =~= swapped) by {
                    assert forall|k: int| 0 <= k < pv.len() implies v@[k].deep_view() == swapped[k]
                    by {
                        if k < j - 1 {
                            assert(v@[k] == pv[k]);
                        } else if k == j - 1 {
                            assert(v@[k] == pv[j as int]);
                        } else if k == j {
                            assert(v@[k] == pv[j - 1]);
                        } else {
                            assert(v@[k] == pv[k]);
                        }
                    }
                }
                assert(pre[j - 1] == sorted_pre[j - 1]);
                assert(pre[j as int] == m);
                assert(swapped =~= sorted_pre.take(j - 1) + seq![m] + sorted_pre.skip(j - 1)
                    + orig.skip(i + 1));
                assert(pre[j - 1].score > pre[j as int].score);
                assert(sorted_pre[j - 1].score > m.score);
            }
            j = j - 1;
        }
        proof {
            assert(j == 0 || v.deep_view()[j - 1].score <= v.deep_view()[j as int].score);
            assert(v.deep_view()[j as int] == m);
            assert(forall|k: int| 0 <= k < j ==> sorted_pre[k] == v.deep_view()[k]);
            assert(forall|k: int| 0 <= k < j ==> sorted_pre[k].score <= m.score) by {
                assert(j == 0 || sorted_pre[j - 1].score <= m.score);
            }
            lemma_insert_by_score_split(m, sorted_pre, j as int);
            assert(orig.take(i + 1).drop_last() =~= orig.take(i as int));
            assert(orig.take(i + 1).last() == m);
            assert(sort_by_score(orig.take(i + 1)) == insert_by_score(m, sorted_pre));
            assert(v.deep_view() =~= sort_by_score(orig.take(i + 1)) + orig.skip(i + 1));
        }
        i = i + 1;
    }
    proof {
        assert(orig.take(n as int) =~= orig);
        assert(orig.skip(n as int) =~= Seq::<MatchModel>::empty());
        assert(v.deep_view() =~= sort_by_score(orig));
    }
}

/// What `find_from` returns is the first match: a hit is a real occurrence
/// with none before it; a miss means no occurrence at all.
pub proof fn lemma_find_from_first(hay: Seq<u8>, pat: Seq<u8>, i: int)
    requires
        0 <= i,
    ensures
        match find_from(hay, pat, i) {
            Some(r) => i <= r && match_at(hay, pat, r) && forall|j: int|
                i <= j < r ==> !match_at(hay, pat, j),
            None => forall|j: int| i <= j ==> !match_at(hay, pat, j),
        },
    decreases hay.len() + 1 - i,
{
    if i + pat.len() > hay.len() {
        assert forall|j: int| i <= j implies !match_at(hay, pat, j) by {
            assert(j + pat.len() > hay.len());
        }
    } else if match_at(hay, pat, i) {
    } else {
        lemma_find_from_first(hay, pat, i + 1);
    }
}

/// The predicate "this result has the given score".
pub open spec fn has_score(sc: int) -> spec_fn(MatchModel) -> bool {
    |m: MatchModel| m.score == sc
}

/// Filtering a one-element sequence keeps or drops that element.
proof fn lemma_filter_one(m: MatchModel, p: spec_fn(MatchModel) -> bool)
    ensures
        seq![m].filter(p) == if p(m) {
            seq![m]
        } else {
            Seq::<MatchModel>::empty()
        },
{
    reveal(Seq::filter);
    assert(seq![m].drop_last() =~= Seq::<MatchModel>::empty());
    assert(Seq::<MatchModel>::empty().filter(p) == Seq::<MatchModel>::empty());
    assert(seq![m].last() == m);
    if p(m) {
        assert(seq![m].filter(p) =~= Seq::<MatchModel>::empty().push(m));
        assert(Seq::<MatchModel>::empty().push(m) =~= seq![m]);
    }
}

/// Inserting into a sorted sequence appends the new element to its score
/// class and leaves every other score class unchanged.
proof fn lemma_insert_by_score_filter(m: MatchModel, t: Seq<MatchModel>, sc: int)
    requires
        sorted_by_score(t),
    ensures
        insert_by_score(m, t).filter(has_score(sc)) == if m.score == sc {
            t.filter(has_score(sc)) + seq![m]
        } else {
            t.filter(has_score(sc))
        },
    decreases t.len(),
{
    reveal(Seq::filter);
    broadcast use Seq::filter_distributes_over_add;

    let p = has_score(sc);
    if t.len() == 0 {
        assert(insert_by_score(m, t) =~= seq![m]);
        lemma_filter_one(m, p);
        assert(t.filter(p) =~= Seq::<MatchModel>::empty());
        if m.score == sc {
            assert(seq![m] =~= t.filter(p) + seq![m]);
        }
    } else if t[0].score <= m.score {
        let t1 = t.drop_first();
        assert(sorted_by_score(t1)) by {
            assert(forall|a: int, b: int|
                0 <= a <= b < t1.len() ==> t1[a] == t[a + 1] && t1[b] == t[b + 1]);
        }
        lemma_insert_by_score_filter(m, t1, sc);
        assert(insert_by_score(m, t) == seq![t[0]] + insert_by_score(m, t1));
        assert(t =~= seq![t[0]] + t1);
        if m.score == sc {
            assert((seq![t[0]] + insert_by_score(m, t1)).filter(p) =~= seq![t[0]].filter(p) + (
            t1.filter(p) + seq![m]));
            assert(t.filter(p) =~= seq![t[0]].filter(p) + t1.filter(p));
        } else {
            assert((seq![t[0]] + insert_by_score(m, t1)).filter(p) =~= seq![t[0]].filter(p)
                + t1.filter(p));
            assert(t.filter(p) =~= seq![t[0]].filter(p) + t1.filter(p));
        }
    } else {
        assert(insert_by_score(m, t) == seq![m] + t);
        assert((seq![m] + t).filter(p) =~= seq![m].filter(p) + t.filter(p));
        lemma_filter_one(m, p);
        if m.score == sc {
            assert forall|k: int| 0 <= k < t.len() implies !p(t[k]) by {
                assert(t[0].score <= t[k].score);
            }
            t.lemma_all_neg_filter_empty(p);
            assert(seq![m].filter(p) =~= seq![m]);
            assert((seq![m] + t).filter(p) =~= t.filter(p) + seq![m]);
        } else {
            assert(seq![m].filter(p) =~= Seq::<MatchModel>::empty());
            assert((seq![m] + t).filter(p) =~= t.filter(p));
        }
    }
}

/// Stability of the sort: within each score class, the sorted sequence
/// keeps the elements exactly as they stood, in their original order.
pub proof fn lemma_sort_by_score_stable(s: Seq<MatchModel>, sc: int)
    ensures
        sort_by_score(s).filter(has_score(sc)) == s.filter(has_score(sc)),
    decreases s.len(),
{
    reveal(Seq::filter);
    broadcast use Seq::filter_distributes_over_add;

    let p = has_score(sc);
    if s.len() == 0 {
    } else {
        let rest = s.drop_last();
        let m = s.last();
        lemma_sort_by_score_stable(rest, sc);
        lemma_sort_by_score_sorted(rest);
        lemma_insert_by_score_filter(m, sort_by_score(rest), sc);
        assert(s =~= rest + seq![m]);
        lemma_filter_one(m, p);
        if m.score == sc {
            assert(seq![m].filter(p) =~= seq![m]);
            assert(s.filter(p) =~= rest.filter(p) + seq![m]);
        } else {
            assert(seq![m].filter(p) =~= Seq::<MatchModel>::empty());
            assert(s.filter(p) =~= rest.filter(p));
        }
    }
}

/// Everything the sort hands back stood in its input.
proof fn lemma_sort_by_score_membership(s: Seq<MatchModel>)
    ensures
        forall|k: int|
            0 <= k < sort_by_score(s).len() ==> s.contains(#[trigger] sort_by_score(s)[k]),
    decreases s.len(),
{
    if s.len() == 0 {
    } else {
        let rest = s.drop_last();
        let m = s.last();
        lemma_sort_by_score_membership(rest);
        lemma_insert_by_score_membership(m, sort_by_score(rest));
        assert(forall|x: MatchModel| rest.contains(x) ==> s.contains(x)) by {
            assert(forall|a: int| 0 <= a < rest.len() ==> rest[a] == s[a]);
        }
        assert(s.contains(m)) by {
            assert(s[s.len() - 1] == m);
        }
    }
}

/// Everything the scoring pass keeps came from a corpus line that the
/// query matches, scored at the first occurrence.
proof fn lemma_scored_matches_from_lines(lines: Seq<Seq<char>>, query: Option<Seq<char>>)
    ensures
        forall|k: int|
            0 <= k < scored_matches(lines, query).len() ==> exists|l: Seq<char>|
                lines.contains(l) && score_spec(l, query) == Some(
                    #[trigger] scored_matches(lines, query)[k],
                ),
    decreases lines.len(),
{
    let f = |l: Seq<char>| score_spec(l, query);
    if lines.len() == 0 {
    } else {
        let rest = lines.drop_last();
        lemma_scored_matches_from_lines(rest, query);
        assert(rest.filter_map(f) == scored_matches(rest, query));
        assert(forall|l: Seq<char>| rest.contains(l) ==> lines.contains(l)) by {
            assert(forall|a: int| 0 <= a < rest.len() ==> rest[a] == lines[a]);
        }
        assert(lines.contains(lines.last())) by {
            assert(lines[lines.len() - 1] == lines.last());
        }
        assert(forall|k: int|
            0 <= k < scored_matches(rest, query).len() ==> scored_matches(lines, query)[k]
                == scored_matches(rest, query)[k]);
    }
}

/// The results of a query run: every returned record contains the query as
/// a contiguous substring, its rank is the byte offset of the first
/// occurrence, and ranks come out ascending. Stability is
/// `lemma_sort_by_score_stable`; the cap is `run`'s own `ensures`.
pub proof fn lemma_run_spec_query(lines: Seq<Seq<char>>, q: Seq<char>, cap: int)
    requires
        cap >= 0,
    ensures
        sorted_by_score(run_spec(lines, Some(q), cap)),
        forall|k: int|
            0 <= k < run_spec(lines, Some(q), cap).len() ==> {
                let m = #[trigger] run_spec(lines, Some(q), cap)[k];
                &&& lines.contains(m.line)
                &&& match_at(encode_utf8(m.line), encode_utf8(q), m.score)
                &&& find_from(encode_utf8(m.line), encode_utf8(q), 0) == Some(m.score)
                &&& forall|j: int| 0 <= j < m.score ==> !match_at(encode_utf8(m.line), encode_utf8(q), j)
            },
{
    let scored = scored_matches(lines, Some(q));
    let sorted = sort_by_score(scored);
    let out = run_spec(lines, Some(q), cap);
    lemma_sort_by_score_sorted(scored);
    lemma_sort_by_score_membership(scored);
    lemma_scored_matches_from_lines(lines, Some(q));
    assert forall|k: int| 0 <= k < out.len() implies out[k] == sorted[k] by {
        assert(out.len() == min(cap, sorted.len() as int));
    }
    assert forall|k: int| 0 <= k < out.len() implies {
        let m = #[trigger] out[k];
        &&& lines.contains(m.line)
        &&& match_at(encode_utf8(m.line), encode_utf8(q), m.score)
        &&& find_from(encode_utf8(m.line), encode_utf8(q), 0) == Some(m.score)
        &&& forall|j: int| 0 <= j < m.score ==> !match_at(encode_utf8(m.line), encode_utf8(q), j)
    } by {
        let m = out[k];
        assert(out[k] == sorted[k]);
        assert(scored.contains(sort_by_score(scored)[k]));
        assert(scored.contains(m));
        let ki = choose|ki: int| 0 <= ki < scored.len() && scored[ki] == m;
        let l = choose|l: Seq<char>|
            lines.contains(l) && score_spec(l, Some(q)) == Some(scored[ki]);
        assert(m.line == l);
        lemma_find_from_first(encode_utf8(m.line), encode_utf8(q), 0);
    }
}

/// With no query every line matches at rank 0 with no spans, so a run is
/// the corpus itself in insertion order, truncated to the cap.
pub proof fn lemma_run_spec_no_query(lines: Seq<Seq<char>>, cap: int)
    requires
        cap >= 0,
    ensures
        run_spec(lines, None, cap) == lines.take(min(cap, lines.len() as int)).map_values(
            |l: Seq<char>| MatchModel { line: l, score: 0, spans: Seq::empty() },
        ),
{
    let g = |l: Seq<char>| MatchModel { line: l, score: 0, spans: Seq::empty() };
    let scored = scored_matches(lines, None);
    lemma_scored_none_is_map(lines);
    assert(sorted_by_score(scored));
    lemma_sort_of_sorted(scored);
    let n = min(cap, lines.len() as int);
    assert(run_spec(lines, None, cap) =~= lines.take(n).map_values(g));
}

/// Scoring without a query keeps every line, in order, at rank 0.
proof fn lemma_scored_none_is_map(lines: Seq<Seq<char>>)
    ensures
        scored_matches(lines, None) == lines.map_values(
            |l: Seq<char>| MatchModel { line: l, score: 0, spans: Seq::empty() },
        ),
    decreases lines.len(),
{
    let g = |l: Seq<char>| MatchModel { line: l, score: 0, spans: Seq::empty() };
    if lines.len() == 0 {
        assert(scored_matches(lines, None) =~= lines.map_values(g));
    } else {
        lemma_scored_none_is_map(lines.drop_last());
        assert(scored_matches(lines, None) =~= lines.map_values(g));
    }
}

/// A sequence already sorted by score is its own stable sort.
proof fn lemma_sort_of_sorted(s: Seq<MatchModel>)
    requires
        sorted_by_score(s),
    ensures
        sort_by_score(s) == s,
    decreases s.len(),
{
    if s.len() == 0 {
        assert(sort_by_score(s) =~= s);
    } else {
        let rest = s.drop_last();
        assert(sorted_by_score(rest)) by {
            assert(forall|a: int, b: int|
                0 <= a <= b < rest.len() ==> rest[a] == s[a] && rest[b] == s[b]);
        }
        lemma_sort_of_sorted(rest);
        lemma_insert_all_le(s.last(), rest);
        assert(rest + seq![s.last()] =~= s);
    }
}

/// Inserting an element at least as large as everything present appends it.
proof fn lemma_insert_all_le(m: MatchModel, s: Seq<MatchModel>)
    requires
        forall|k: int| 0 <= k < s.len() ==> s[k].score <= m.score,
    ensures
        insert_by_score(m, s) == s + seq![m],
    decreases s.len(),
{
    if s.len() == 0 {
        assert(insert_by_score(m, s) =~= s + seq![m]);
    } else {
        let s1 = s.drop_first();
        assert(forall|k: int| 0 <= k < s1.len() ==> s1[k] == s[k + 1] && s1[k].score <= m.score);
        lemma_insert_all_le(m, s1);
        assert(seq![s[0]] + (s1 + seq![m]) =~= s + seq![m]);
    }
}

/// First occurrence of `pat` as a contiguous subrange of `hay`, by byte offset.
fn find_sub(hay: &[u8], pat: &[u8]) -> (r: Option<usize>)
    ensures
        match r {
            Some(i) => find_from(hay@, pat@, 0) == Some(i as int),
            None => find_from(hay@, pat@, 0) is None,
        },
{
    let n = hay.len();
    let m = pat.len();
    if m > n {
        return None;
    }
    let mut i: usize = 0;
    while i <= n - m
        invariant
            m <= n,
            n == hay@.len(),
            m == pat@.len(),
            0 <= i <= n - m + 1,
            find_from(hay@, pat@, 0) == find_from(hay@, pat@, i as int),
        decreases n - m + 1 - i,
    {
        let mut j: usize = 0;
        while j < m && hay[i + j] == pat[j]
            invariant
                m <= n,
                n == hay@.len(),
                m == pat@.len(),
                0 <= i <= n - m,
                0 <= j <= m,
                hay@.subrange(i as int, i + j) == pat@.subrange(0, j as int),
            decreases m - j,
        {
            proof {
                assert(hay@.subrange(i as int, i + j + 1) =~= hay@.subrange(i as int, i + j).push(
                    hay@[i + j],
                ));
                assert(pat@.subrange(0, j + 1) =~= pat@.subrange(0, j as int).push(pat@[j as int]));
            }
            j = j + 1;
        }
        if j == m {
            proof {
                assert(hay@.subrange(i as int, i + pat@.len()) =~= pat@.subrange(0, m as int));
                assert(pat@.subrange(0, m as int) =~= pat@);
                assert(match_at(hay@, pat@, i as int));
            }
            return Some(i);
        }
        proof {
            assert(hay@.subrange(i as int, i + pat@.len())[j as int] == hay@[i + j]);
            assert(!match_at(hay@, pat@, i as int));
        }
        i = i + 1;
    }
    None
}

} // verus!
