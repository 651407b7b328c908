//! High-score tables: entries kept in descending order of score, stable for
//! equal scores, and cut to a fixed number of places.

use vstd::prelude::*;

verus! {

/// An entry of a high-score table, ranked by its score.
pub trait Ranked: Sized {
    spec fn rank_score(&self) -> u32;

    fn score_of(&self) -> (r: u32)
        ensures
            r == self.rank_score(),
    ;
}

/// `e` placed after every entry of `s` whose score is at least its own, and
/// before the first entry with a lower score.
pub open spec fn insert_by_score<T: Ranked>(s: Seq<T>, e: T) -> Seq<T>
    decreases s.len(),
{
    if s.len() == 0 {
        seq![e]
    } else if s[0].rank_score() < e.rank_score() {
        seq![e] + s
    } else {
        seq![s[0]] + insert_by_score(s.drop_first(), e)
    }
}

/// `s` sorted by descending score, keeping the order of entries with equal
/// scores (a stable sort).
pub open spec fn sort_by_score<T: Ranked>(s: Seq<T>) -> Seq<T>
    decreases s.len(),
{
    if s.len() == 0 {
        s
    } else {
        insert_by_score(sort_by_score(s.drop_last()), s.last())
    }
}

/// The scores of `s` do not increase from one entry to the next.
pub open spec fn is_sorted_by_score<T: Ranked>(s: Seq<T>) -> bool {
    forall|i: int, j: int| 0 <= i < j < s.len() ==> #[trigger] s[i].rank_score() >= #[trigger] s[j].rank_score()
}

/// The table that results from adding `e` to `s`: all entries sorted by
/// descending score (stable), cut to the first `cap`.
pub open spec fn ranked_with<T: Ranked>(s: Seq<T>, e: T, cap: nat) -> Seq<T> {
    let all = sort_by_score(s.push(e));
    if all.len() <= cap {
        all
    } else {
        all.take(cap as int)
    }
}

proof fn lemma_insert_at_first_lower<T: Ranked>(s: Seq<T>, e: T, j: int)
    requires
        0 <= j <= s.len(),
        forall|i: int| 0 <= i < j ==> #[trigger] s[i].rank_score() >= e.rank_score(),
        j < s.len() ==> s[j].rank_score() < e.rank_score(),
    ensures
        insert_by_score(s, e) == s.insert(j, e),
    decreases j,
{
    if s.len() == 0 {
        assert(s.insert(j, e) =~= seq![e]);
    } else if j == 0 {
        assert(s.insert(0, e) =~= seq![e] + s);
    } else {
        assert(s[0].rank_score() >= e.rank_score());
        let t = s.drop_first();
        assert forall|i: int| 0 <= i < j - 1 implies #[trigger] t[i].rank_score() >= e.rank_score() by {
            assert(t[i] == s[i + 1]);
        }
        lemma_insert_at_first_lower(t, e, j - 1);
        assert(s.insert(j, e) =~= seq![s[0]] + t.insert(j - 1, e));
    }
}

/// Places `e` into `v` after every entry whose score is at least its own.
pub fn insert_ranked<T: Ranked>(v: &mut Vec<T>, e: T)
    ensures
        final(v)@ == insert_by_score(old(v)@, e),
{
    let score = e.score_of();
    let mut j: usize = 0;
    while j < v.len() && v[j].score_of() >= score
        invariant
            0 <= j <= v.len(),
            v@ == old(v)@,
            score == e.rank_score(),
            forall|i: int| 0 <= i < j ==> #[trigger] v@[i].rank_score() >= e.rank_score(),
        decreases v.len() - j,
    {
        j += 1;
    }
    proof {
        lemma_insert_at_first_lower(v@, e, j as int);
    }
    v.insert(j, e);
}

/// Sorts `v` by descending score, keeping entries with equal scores in
/// the order they had in `v`.
pub fn sort_ranked<T: Ranked>(v: Vec<T>) -> (r: Vec<T>)
    ensures
        r@ == sort_by_score(v@),
{
    let ghost orig = v@;
    let mut rest = v;
    let mut r: Vec<T> = Vec::new();
    let ghost mut done: int = 0;
    assert(orig.take(0) =~= Seq::<T>::empty());
    while rest.len() > 0
        invariant
            0 <= done <= orig.len(),
            rest@ == orig.skip(done),
            r@ == sort_by_score(orig.take(done)),
        decreases rest.len(),
    {
        let e = rest.remove(0);
        proof {
            assert(orig.take(done + 1).drop_last() =~= orig.take(done));
            assert(orig.take(done + 1).last() == e);
        }
        insert_ranked(&mut r, e);
        proof {
            done = done + 1;
            assert(rest@ =~= orig.skip(done));
        }
    }
    assert(orig.take(done) =~= orig);
    r
}

/// Adds `e` to the table `v`, sorts by descending score (stable) and keeps
/// the first `cap` entries.
pub fn add_ranked<T: Ranked>(v: Vec<T>, e: T, cap: usize) -> (r: Vec<T>)
    ensures
        r@ == ranked_with(v@, e, cap as nat),
{
    let mut all = v;
    all.push(e);
    let mut r = sort_ranked(all);
    r.truncate(cap);
    proof {
        if r@.len() > cap {
        }
    }
    assert(r@ =~= ranked_with(v@, e, cap as nat));
    r
}

/// Whether `score` earns a place in a table of `cap` places: it beats some
/// entry, or the table is not yet full.
pub open spec fn qualifies_spec<T: Ranked>(s: Seq<T>, score: u32, cap: nat) -> bool {
    (exists|i: int| 0 <= i < s.len() && score > #[trigger] s[i].rank_score()) || s.len() < cap
}

/// Whether `score` earns a place in the table `v` of `cap` places.
pub fn qualifies<T: Ranked>(v: &Vec<T>, score: u32, cap: usize) -> (r: bool)
    ensures
        r == qualifies_spec(v@, score, cap as nat),
{
    let mut i: usize = 0;
    while i < v.len()
        invariant
            0 <= i <= v.len(),
            forall|k: int| 0 <= k < i ==> score <= #[trigger] v@[k].rank_score(),
        decreases v.len() - i,
    {
        if score > v[i].score_of() {
            return true;
        }
        i += 1;
    }
    v.len() < cap
}

// ---------------------------------------------------------------------------
// Laws of the tables.

proof fn lemma_insert_sorted<T: Ranked>(s: Seq<T>, e: T)
    requires
        is_sorted_by_score(s),
    ensures
        is_sorted_by_score(insert_by_score(s, e)),
        insert_by_score(s, e).to_multiset() == s.to_multiset().insert(e),
        insert_by_score(s, e).len() == s.len() + 1,
    decreases s.len(),
{
    broadcast use vstd::seq_lib::group_to_multiset_ensures;
    if s.len() == 0 {
        assert(seq![e] =~= s.push(e));
    } else if s[0].rank_score() < e.rank_score() {
        let r = seq![e] + s;
        assert forall|i: int, j: int| 0 <= i < j < r.len() implies #[trigger] r[i].rank_score() >= #[trigger] r[j].rank_score() by {
            if i == 0 {
                assert(s[0].rank_score() >= s[j - 1].rank_score() || j - 1 == 0);
            } else {
                assert(r[i] == s[i - 1] && r[j] == s[j - 1]);
            }
        }
        vstd::seq_lib::lemma_multiset_commutative(seq![e], s);
        assert(seq![e].to_multiset() =~= vstd::multiset::Multiset::empty().insert(e)) by {
            assert(seq![e] =~= Seq::<T>::empty().push(e));
        }
    } else {
        let t = s.drop_first();
        assert(is_sorted_by_score(t)) by {
            assert forall|i: int, j: int| 0 <= i < j < t.len() implies #[trigger] t[i].rank_score() >= #[trigger] t[j].rank_score() by {
                assert(t[i] == s[i + 1] && t[j] == s[j + 1]);
            }
        }
        lemma_insert_sorted(t, e);
        let it = insert_by_score(t, e);
        let r = seq![s[0]] + it;
        assert forall|i: int, j: int| 0 <= i < j < r.len() implies #[trigger] r[i].rank_score() >= #[trigger] r[j].rank_score() by {
            if i == 0 {
                // r[j] is e or an entry of t, all scored at most s[0].
                let m = it.to_multiset();
                assert(m.count(it[j - 1]) > 0);
                assert(m == t.to_multiset().insert(e));
                if it[j - 1] != e {
                    assert(t.to_multiset().count(it[j - 1]) > 0);
                    let k = choose|k: int| 0 <= k < t.len() && t[k] == it[j - 1];
                    assert(s[0].rank_score() >= s[k + 1].rank_score());
                }
            } else {
                assert(r[i] == it[i - 1] && r[j] == it[j - 1]);
            }
        }
        vstd::seq_lib::lemma_multiset_commutative(seq![s[0]], it);
        vstd::seq_lib::lemma_multiset_commutative(seq![s[0]], t);
        assert(s =~= seq![s[0]] + t);
    }
}

/// A sorted table is sorted by descending score and holds exactly the
/// entries it was given.
pub proof fn lemma_sort_by_score<T: Ranked>(s: Seq<T>)
    ensures
        is_sorted_by_score(sort_by_score(s)),
        sort_by_score(s).to_multiset() == s.to_multiset(),
        sort_by_score(s).len() == s.len(),
    decreases s.len(),
{
    broadcast use vstd::seq_lib::group_to_multiset_ensures;
    if s.len() > 0 {
        lemma_sort_by_score(s.drop_last());
        lemma_insert_sorted(sort_by_score(s.drop_last()), s.last());
        assert(s =~= s.drop_last().push(s.last()));
    }
}

/// The entries whose score is `v`.
pub open spec fn scored<T: Ranked>(v: u32) -> spec_fn(T) -> bool {
    |e: T| e.rank_score() == v
}

proof fn lemma_filter_single<T>(e: T, p: spec_fn(T) -> bool)
    ensures
        seq![e].filter(p) == if p(e) {
            seq![e]
        } else {
            Seq::<T>::empty()
        },
{
    reveal(Seq::filter);
    assert(seq![e].drop_last() =~= Seq::<T>::empty());
    assert(Seq::<T>::empty().filter(p) =~= Seq::<T>::empty());
    assert(Seq::<T>::empty().push(e) =~= seq![e]);
}

/// Inserting `e` into a sorted table adds it after every entry of its
/// score.
proof fn lemma_insert_keeps_order<T: Ranked>(t: Seq<T>, e: T, v: u32)
    requires
        is_sorted_by_score(t),
    ensures
        insert_by_score(t, e).filter(scored(v)) == if e.rank_score() == v {
            t.filter(scored(v)).push(e)
        } else {
            t.filter(scored(v))
        },
    decreases t.len(),
{
    let p = scored::<T>(v);
    lemma_filter_single(e, p);
    if t.len() == 0 {
        reveal(Seq::filter);
        assert(t.filter(p) =~= Seq::<T>::empty());
        assert(Seq::<T>::empty().push(e) =~= seq![e]);
    } else if t[0].rank_score() < e.rank_score() {
        Seq::filter_distributes_over_add(seq![e], t, p);
        if e.rank_score() == v {
            assert(t.all(|x: T| !p(x))) by {
                assert forall|i: int| 0 <= i < t.len() implies !p(#[trigger] t[i]) by {
                    assert(t[0].rank_score() >= t[i].rank_score() || i == 0);
                }
            }
            t.lemma_all_neg_filter_empty(p);
            assert(t.filter(p) =~= Seq::<T>::empty());
            assert(seq![e] + Seq::<T>::empty() =~= Seq::<T>::empty().push(e));
        } else {
            assert(Seq::<T>::empty() + t.filter(p) =~= t.filter(p));
        }
    } else {
        let u = t.drop_first();
        assert(is_sorted_by_score(u)) by {
            assert forall|i: int, j: int| 0 <= i < j < u.len() implies #[trigger] u[i].rank_score() >= #[trigger] u[j].rank_score() by {
                assert(u[i] == t[i + 1] && u[j] == t[j + 1]);
            }
        }
        lemma_insert_keeps_order(u, e, v);
        Seq::filter_distributes_over_add(seq![t[0]], insert_by_score(u, e), p);
        assert(t =~= seq![t[0]] + u);
        Seq::filter_distributes_over_add(seq![t[0]], u, p);
        assert((seq![t[0]].filter(p) + u.filter(p)).push(e) =~= seq![t[0]].filter(p) + u.filter(p).push(e));
    }
}

/// Sorting is stable: the entries of each score keep the order they had.
pub proof fn lemma_sort_stable<T: Ranked>(s: Seq<T>, v: u32)
    ensures
        sort_by_score(s).filter(scored(v)) == s.filter(scored(v)),
    decreases s.len(),
{
    if s.len() > 0 {
        lemma_sort_stable(s.drop_last(), v);
        lemma_sort_by_score(s.drop_last());
        lemma_insert_keeps_order(sort_by_score(s.drop_last()), s.last(), v);
        reveal(Seq::filter);
    }
}

/// Adding an entry to a table of `cap` places keeps it sorted by descending
/// score, keeps at most `cap` entries, and every entry that is left out
/// scores no more than every entry that stays.
pub proof fn lemma_add_ranked<T: Ranked>(s: Seq<T>, e: T, cap: nat)
    ensures
        is_sorted_by_score(ranked_with(s, e, cap)),
        ranked_with(s, e, cap).len() == if s.len() + 1 <= cap { s.len() + 1 } else { cap },
        ranked_with(s, e, cap) == sort_by_score(s.push(e)).take(ranked_with(s, e, cap).len() as int),
        forall|i: int, j: int|
            0 <= i < ranked_with(s, e, cap).len() <= j < s.len() + 1 ==> #[trigger] sort_by_score(s.push(e))[i].rank_score()
                >= #[trigger] sort_by_score(s.push(e))[j].rank_score(),
{
    lemma_sort_by_score(s.push(e));
    let all = sort_by_score(s.push(e));
    if all.len() <= cap {
        assert(all.take(all.len() as int) =~= all);
    }
}


/// A bare score ranks by itself.
impl Ranked for u32 {
    open spec fn rank_score(&self) -> u32 {
        *self
    }

    fn score_of(&self) -> (r: u32) {
        *self
    }
}

/// A name with its score ranks by the score.
impl Ranked for (String, u32) {
    open spec fn rank_score(&self) -> u32 {
        self.1
    }

    fn score_of(&self) -> (r: u32) {
        self.1
    }
}

// ---------------------------------------------------------------------------
// Shared table types.

/// A name and a score.
#[derive(Clone, Debug)]
pub struct ScoreEntry {
    pub name: String,
    pub score: u32,
}

impl Ranked for ScoreEntry {
    open spec fn rank_score(&self) -> u32 {
        self.score
    }

    fn score_of(&self) -> (r: u32) {
        self.score
    }
}

/// Places kept in the bubble game's table.
pub const BUBBLES_TABLE_SIZE: usize = 10;

/// The bubble game's table after loading: the stored entries, or, when none
/// were stored, five default entries.
pub fn load_scores(loaded: Vec<ScoreEntry>) -> (scores: Vec<ScoreEntry>)
    ensures
        loaded@.len() > 0 ==> scores@ == loaded@,
        loaded@.len() == 0 ==> {
            &&& scores@.len() == 5
            &&& scores@[0].name@ == "BAR"@ && scores@[0].score == 5000
            &&& scores@[1].name@ == "BUB"@ && scores@[1].score == 4000
            &&& scores@[2].name@ == "BOB"@ && scores@[2].score == 3000
            &&& scores@[3].name@ == "ZEN"@ && scores@[3].score == 2000
            &&& scores@[4].name@ == "DOT"@ && scores@[4].score == 1000
        },
{
    if loaded.len() == 0 {
        vec![
            ScoreEntry { name: "BAR".to_string(), score: 5000 },
            ScoreEntry { name: "BUB".to_string(), score: 4000 },
            ScoreEntry { name: "BOB".to_string(), score: 3000 },
            ScoreEntry { name: "ZEN".to_string(), score: 2000 },
            ScoreEntry { name: "DOT".to_string(), score: 1000 },
        ]
    } else {
        loaded
    }
}

/// Adds a score to the bubble game's table and keeps the best
/// `BUBBLES_TABLE_SIZE` entries, highest first.
pub fn add_score(scores: Vec<ScoreEntry>, name: String, score: u32) -> (r: Vec<ScoreEntry>)
    ensures
        r@ == ranked_with(scores@, ScoreEntry { name, score }, BUBBLES_TABLE_SIZE as nat),
{
    add_ranked(scores, ScoreEntry { name, score }, BUBBLES_TABLE_SIZE)
}

/// The stored table as bytes: the first `len` bytes of the buffer a loader
/// filled, or nothing when it reported no data or more than fits.
pub fn loaded_bytes(buffer: &Vec<u8>, len: u32) -> (r: Option<Vec<u8>>)
    ensures
        (len == 0 || len > buffer@.len()) ==> r is None,
        (len > 0 && len <= buffer@.len()) ==> (r matches Some(b) && b@ == buffer@.take(len as int)),
{
    if len == 0 || len as usize > buffer.len() {
        return None;
    }
    let n = len as usize;
    let mut out: Vec<u8> = Vec::new();
    let mut i: usize = 0;
    while i < n
        invariant
            n <= buffer@.len(),
            n == len,
            0 <= i <= n,
            out@ == buffer@.take(i as int),
        decreases n - i,
    {
        out.push(buffer[i]);
        i += 1;
        assert(out@ =~= buffer@.take(i as int));
    }
    Some(out)
}

/// How a score was played, shown beside it in a table.
#[derive(Clone, Copy, PartialEq, Eq, Structural, Debug)]
pub enum GameMode {
    Normal,
    Easy,
    Hard,
    /// The match-3 game's slow ("snail") mode.
    Slow,
}

impl GameMode {
    /// The label shown for the mode.
    pub fn label(&self) -> (r: &'static str)
        ensures
            *self == GameMode::Normal ==> r@ == "NORMAL"@,
            *self == GameMode::Easy ==> r@ == "EASY"@,
            *self == GameMode::Hard ==> r@ == "HARD"@,
            *self == GameMode::Slow ==> r@ == "SNAIL"@,
    {
        match self {
            GameMode::Normal => "NORMAL",
            GameMode::Easy => "EASY",
            GameMode::Hard => "HARD",
            GameMode::Slow => "SNAIL",
        }
    }
}

impl Default for GameMode {
    fn default() -> (m: GameMode)
        ensures
            m == GameMode::Normal,
    {
        GameMode::Normal
    }
}

} // verus!
