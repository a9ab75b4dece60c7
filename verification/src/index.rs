//! The authoritative collection of all known articles, keyed by unique id
//! and iterated in ascending id order.

use vstd::prelude::*;
use crate::article::{Article, ArticleView};
use crate::changes::Changes;
use crate::order::{lex_lt, str_eq, str_cmp, StrOrd};
use crate::order::{lemma_lex_lt_irrefl, lemma_lex_lt_trans};
use crate::settings::ArticleList;

verus! {

/// Ascending, strictly sorted ids: the iteration order of an index.
pub open spec fn sorted_ids(s: Seq<ArticleView>) -> bool {
    forall|i: int, j: int| 0 <= i < j < s.len() ==> lex_lt(#[trigger] s[i].id, #[trigger] s[j].id)
}

/// The mapping from id to article that a sequence of articles holds; a later
/// entry wins over an earlier one with the same id.
pub open spec fn as_amap(s: Seq<ArticleView>) -> Map<Seq<char>, ArticleView>
    decreases s.len(),
{
    if s.len() == 0 {
        Map::empty()
    } else {
        as_amap(s.drop_last()).insert(s.last().id, s.last())
    }
}

/// In a strictly sorted sequence no two articles share an id.
pub proof fn lemma_sorted_distinct(s: Seq<ArticleView>)
    requires
        sorted_ids(s),
    ensures
        forall|i: int, j: int|
            0 <= i < s.len() && 0 <= j < s.len() && i != j ==> #[trigger] s[i].id
                != #[trigger] s[j].id,
{
    assert forall|i: int, j: int|
        0 <= i < s.len() && 0 <= j < s.len() && i != j implies #[trigger] s[i].id
        != #[trigger] s[j].id by {
        if i < j {
            lemma_lex_lt_irrefl(s[i].id);
        } else {
            lemma_lex_lt_irrefl(s[j].id);
        }
    }
}

/// The keys of [`as_amap`] are exactly the ids of the sequence.
pub proof fn lemma_as_amap_keys(s: Seq<ArticleView>)
    ensures
        forall|i: int| 0 <= i < s.len() ==> as_amap(s).contains_key(#[trigger] s[i].id),
        forall|k: Seq<char>|
            #[trigger] as_amap(s).contains_key(k) ==> exists|i: int|
                0 <= i < s.len() && s[i].id == k,
    decreases s.len(),
{
    if s.len() > 0 {
        lemma_as_amap_keys(s.drop_last());
        assert forall|i: int| 0 <= i < s.len() implies as_amap(s).contains_key(
            #[trigger] s[i].id,
        ) by {
            if i < s.len() - 1 {
                assert(s.drop_last()[i] == s[i]);
            }
        }
        assert forall|k: Seq<char>| #[trigger] as_amap(s).contains_key(k) implies exists|i: int|
            0 <= i < s.len() && s[i].id == k by {
            if k != s.last().id {
                assert(as_amap(s.drop_last()).contains_key(k));
                let i = choose|i: int| 0 <= i < s.drop_last().len() && s.drop_last()[i].id == k;
                assert(s.drop_last()[i] == s[i]);
                assert(s[i].id == k);
            } else {
                assert(s[s.len() - 1].id == k);
            }
        }
    }
}

/// With distinct ids, [`as_amap`] maps each article's id to that article.
pub proof fn lemma_as_amap_index(s: Seq<ArticleView>)
    requires
        forall|i: int, j: int|
            0 <= i < s.len() && 0 <= j < s.len() && i != j ==> #[trigger] s[i].id
                != #[trigger] s[j].id,
    ensures
        forall|i: int|
            0 <= i < s.len() ==> as_amap(s).contains_key(#[trigger] s[i].id) && as_amap(s)[s[i].id]
                == s[i],
    decreases s.len(),
{
    if s.len() > 0 {
        lemma_as_amap_index(s.drop_last());
        assert forall|i: int| 0 <= i < s.len() implies as_amap(s).contains_key(#[trigger] s[i].id)
            && as_amap(s)[s[i].id] == s[i] by {
            if i < s.len() - 1 {
                assert(s.drop_last()[i] == s[i]);
                assert(s[i].id != s[s.len() - 1].id);
            }
        }
    }
}

/// Inserting an article with a fresh id at any position inserts its entry
/// into the mapping.
pub proof fn lemma_as_amap_insert_at(s: Seq<ArticleView>, a: ArticleView, p: int)
    requires
        0 <= p <= s.len(),
        forall|i: int| 0 <= i < s.len() ==> #[trigger] s[i].id != a.id,
    ensures
        as_amap(s.insert(p, a)) == as_amap(s).insert(a.id, a),
    decreases s.len(),
{
    let t = s.insert(p, a);
    if p == s.len() {
        assert(t.drop_last() =~= s);
        assert(t.last() == a);
    } else {
        assert(t.last() == s.last());
        assert(t.drop_last() =~= s.drop_last().insert(p, a));
        assert forall|i: int| 0 <= i < s.drop_last().len() implies #[trigger] s.drop_last()[i].id
            != a.id by {
            assert(s.drop_last()[i] == s[i]);
        }
        lemma_as_amap_insert_at(s.drop_last(), a, p);
        assert(s[s.len() - 1].id != a.id);
        assert(as_amap(t) =~= as_amap(s).insert(a.id, a));
    }
}

/// Removing the article at a position removes exactly its entry from the
/// mapping, when ids are distinct.
pub proof fn lemma_as_amap_remove_at(s: Seq<ArticleView>, p: int)
    requires
        0 <= p < s.len(),
        forall|i: int, j: int|
            0 <= i < s.len() && 0 <= j < s.len() && i != j ==> #[trigger] s[i].id
                != #[trigger] s[j].id,
    ensures
        as_amap(s.remove(p)) == as_amap(s).remove(s[p].id),
    decreases s.len(),
{
    let t = s.remove(p);
    if p == s.len() - 1 {
        assert(t =~= s.drop_last());
        lemma_as_amap_keys(s.drop_last());
        assert forall|k: Seq<char>| true implies as_amap(s.drop_last()).remove(s[p].id).contains_key(
            k,
        ) == as_amap(s.drop_last()).contains_key(k) by {
            if as_amap(s.drop_last()).contains_key(s[p].id) {
                let i = choose|i: int|
                    0 <= i < s.drop_last().len() && s.drop_last()[i].id == s[p].id;
                assert(s[i].id == s[p].id);
            }
        }
        assert(as_amap(t) =~= as_amap(s).remove(s[p].id));
    } else {
        assert(t.last() == s.last());
        assert(t.drop_last() =~= s.drop_last().remove(p));
        assert forall|i: int, j: int|
            0 <= i < s.drop_last().len() && 0 <= j < s.drop_last().len() && i != j implies #[trigger] s.drop_last()[i].id != #[trigger] s.drop_last()[j].id by {
            assert(s.drop_last()[i] == s[i]);
            assert(s.drop_last()[j] == s[j]);
        }
        lemma_as_amap_remove_at(s.drop_last(), p);
        assert(s[p].id != s[s.len() - 1].id);
        assert(as_amap(t) =~= as_amap(s).remove(s[p].id));
    }
}

/// Whether an article satisfies a query criterion.
pub open spec fn list_matches(list: ArticleList, a: ArticleView) -> bool {
    match list {
        ArticleList::All => true,
        ArticleList::Unread => !a.archived,
        ArticleList::Starred => a.starred,
        ArticleList::Archived => a.archived,
        ArticleList::Deleted => a.changed.deleted,
    }
}

/// The subsequence of articles matching a criterion, in the order given.
pub open spec fn filtered(s: Seq<ArticleView>, list: ArticleList) -> Seq<ArticleView>
    decreases s.len(),
{
    if s.len() == 0 {
        Seq::empty()
    } else {
        let rest = filtered(s.drop_last(), list);
        if list_matches(list, s.last()) {
            rest.push(s.last())
        } else {
            rest
        }
    }
}

/// Every filtered article comes from the sequence and matches the criterion.
pub proof fn lemma_filtered_from(s: Seq<ArticleView>, list: ArticleList)
    ensures
        forall|k: int|
            0 <= k < filtered(s, list).len() ==> list_matches(list, #[trigger] filtered(s, list)[k])
                && exists|i: int| 0 <= i < s.len() && s[i] == filtered(s, list)[k],
    decreases s.len(),
{
    if s.len() > 0 {
        lemma_filtered_from(s.drop_last(), list);
        let f = filtered(s, list);
        let rest = filtered(s.drop_last(), list);
        assert forall|k: int| 0 <= k < f.len() implies list_matches(list, #[trigger] f[k])
            && exists|i: int| 0 <= i < s.len() && s[i] == f[k] by {
            if k < rest.len() {
                assert(f[k] == rest[k]);
                let i = choose|i: int| 0 <= i < s.drop_last().len() && s.drop_last()[i] == rest[k];
                assert(s[i] == f[k]);
            } else {
                assert(f[k] == s.last());
                assert(s[s.len() - 1] == f[k]);
            }
        }
    }
}

/// Filtering a sorted sequence yields a sorted sequence: query results come
/// in ascending id order.
pub proof fn lemma_filtered_sorted(s: Seq<ArticleView>, list: ArticleList)
    requires
        sorted_ids(s),
    ensures
        sorted_ids(filtered(s, list)),
    decreases s.len(),
{
    if s.len() > 0 {
        assert forall|i: int, j: int|
            0 <= i < j < s.drop_last().len() implies lex_lt(
            #[trigger] s.drop_last()[i].id,
            #[trigger] s.drop_last()[j].id,
        ) by {
            assert(s.drop_last()[i] == s[i]);
            assert(s.drop_last()[j] == s[j]);
        }
        lemma_filtered_sorted(s.drop_last(), list);
        lemma_filtered_from(s.drop_last(), list);
        let f = filtered(s, list);
        let rest = filtered(s.drop_last(), list);
        assert forall|i: int, j: int| 0 <= i < j < f.len() implies lex_lt(
            #[trigger] f[i].id,
            #[trigger] f[j].id,
        ) by {
            if j < rest.len() {
            } else if list_matches(list, s.last()) && j == rest.len() {
                assert(f[i] == rest[i]);
                let n = choose|n: int| 0 <= n < s.drop_last().len() && s.drop_last()[n] == rest[i];
                assert(s[n] == rest[i]);
                assert(lex_lt(s[n].id, s[s.len() - 1].id));
            }
        }
    }
}

/// The authoritative, id-sorted collection of all known articles. Ids are
/// unique; iteration is in ascending id order.
pub struct ArticleIndex {
    pub articles: Vec<Article>,
}

impl View for ArticleIndex {
    type V = Seq<ArticleView>;

    open spec fn view(&self) -> Seq<ArticleView> {
        self.articles.deep_view()
    }
}

impl ArticleIndex {
    /// Ids strictly ascending, hence unique, and every timestamp within its
    /// field ranges.
    pub open spec fn wf(&self) -> bool {
        &&& sorted_ids(self@)
        &&& forall|i: int| 0 <= i < self@.len() ==> (#[trigger] self@[i]).added.wf()
    }

    /// The index as a mapping from id to article.
    pub open spec fn map_view(&self) -> Map<Seq<char>, ArticleView> {
        as_amap(self@)
    }

    /// An empty index.
    pub fn new() -> (r: ArticleIndex)
        ensures
            r.wf(),
            r@ == Seq::<ArticleView>::empty(),
            r.map_view() == Map::<Seq<char>, ArticleView>::empty(),
    {
        let r = ArticleIndex { articles: Vec::new() };
        proof {
            assert(r@ =~= Seq::<ArticleView>::empty());
        }
        r
    }

    pub fn len(&self) -> (r: usize)
        ensures
            r == self@.len(),
    {
        self.articles.len()
    }

    pub fn is_empty(&self) -> (r: bool)
        ensures
            r == (self@.len() == 0),
    {
        self.articles.len() == 0
    }

    /// The position of the article with the given id, scanning in order.
    fn position(&self, id: &str) -> (r: Option<usize>)
        requires
            self.wf(),
        ensures
            match r {
                Some(p) => p < self@.len() && self@[p as int].id == id@,
                None => forall|i: int| 0 <= i < self@.len() ==> #[trigger] self@[i].id != id@,
            },
    {
        let mut i: usize = 0;
        while i < self.articles.len()
            invariant
                0 <= i <= self.articles.len(),
                self@.len() == self.articles.len(),
                forall|j: int| 0 <= j < i ==> #[trigger] self@[j].id != id@,
            decreases self.articles.len() - i,
        {
            if str_eq(self.articles[i].id.as_str(), id) {
                return Some(i);
            }
            i = i + 1;
        }
        None
    }

    /// Looks an article up by id.
    pub fn get(&self, id: &str) -> (r: Option<&Article>)
        requires
            self.wf(),
        ensures
            match r {
                Some(a) => self.map_view().contains_key(id@) && a@ == self.map_view()[id@],
                None => !self.map_view().contains_key(id@),
            },
    {
        proof {
            lemma_sorted_distinct(self@);
            lemma_as_amap_index(self@);
            lemma_as_amap_keys(self@);
        }
        match self.position(id) {
            Some(p) => Some(&self.articles[p]),
            None => {
                proof {
                    if self.map_view().contains_key(id@) {
                        let i = choose|i: int| 0 <= i < self@.len() && self@[i].id == id@;
                        assert(self@[i].id == id@);
                    }
                }
                None
            },
        }
    }

    /// Whether an article with the given id is known.
    pub fn contains(&self, id: &str) -> (r: bool)
        requires
            self.wf(),
        ensures
            r == self.map_view().contains_key(id@),
    {
        match self.get(id) {
            Some(_) => true,
            None => false,
        }
    }

    /// Inserts a new article or replaces the one sharing its id: afterwards
    /// the mapping holds exactly the old entries plus `a` under its id, and
    /// the index is still sorted.
    pub fn upsert(&mut self, a: Article)
        requires
            old(self).wf(),
            a@.added.wf(),
        ensures
            final(self).wf(),
            final(self).map_view() == old(self).map_view().insert(a@.id, a@),
    {
        proof {
            lemma_sorted_distinct(self@);
        }
        let ghost s0 = self@;
        let mut p: usize = 0;
        let mut replace: bool = false;
        loop
            invariant_except_break
                0 <= p <= self.articles.len(),
                self@ == s0,
                self.wf(),
                self@.len() == self.articles.len(),
                forall|i: int| 0 <= i < p ==> lex_lt(#[trigger] s0[i].id, a@.id),
                !replace,
            ensures
                0 <= p <= self.articles.len(),
                self@ == s0,
                self@.len() == self.articles.len(),
                forall|i: int| 0 <= i < p ==> lex_lt(#[trigger] s0[i].id, a@.id),
                replace ==> p < s0.len() && s0[p as int].id == a@.id,
                !replace && p < s0.len() ==> lex_lt(a@.id, s0[p as int].id),
            decreases self.articles.len() - p,
        {
            if p == self.articles.len() {
                break;
            }
            match str_cmp(self.articles[p].id.as_str(), a.id.as_str()) {
                StrOrd::Less => {
                    p = p + 1;
                },
                StrOrd::Equal => {
                    replace = true;
                    break;
                },
                StrOrd::Greater => {
                    break;
                },
            }
        }
        if replace {
            proof {
                lemma_sorted_distinct(s0);
                lemma_as_amap_remove_at(s0, p as int);
            }
            let ghost s1 = s0.remove(p as int);
            self.articles.remove(p);
            proof {
                assert(self@ =~= s1);
                assert forall|i: int, j: int| 0 <= i < j < s1.len() implies lex_lt(
                    #[trigger] s1[i].id,
                    #[trigger] s1[j].id,
                ) by {
                    assert(s1[i] == if i < p { s0[i] } else { s0[i + 1] });
                    assert(s1[j] == if j < p { s0[j] } else { s0[j + 1] });
                }
                assert forall|i: int| 0 <= i < s1.len() implies #[trigger] s1[i].id != a@.id by {
                    assert(s1[i] == if i < p { s0[i] } else { s0[i + 1] });
                    if i >= p {
                        lemma_lex_lt_irrefl(s0[p as int].id);
                    } else {
                        lemma_lex_lt_irrefl(s0[p as int].id);
                    }
                }
                lemma_as_amap_insert_at(s1, a@, p as int);
            }
            let ghost av = a@;
            self.articles.insert(p, a);
            proof {
                assert(self@ =~= s1.insert(p as int, av));
                assert forall|i: int, j: int| 0 <= i < j < self@.len() implies lex_lt(
                    #[trigger] self@[i].id,
                    #[trigger] self@[j].id,
                ) by {
                    let t = s1.insert(p as int, av);
                    if i < p && j == p {
                        assert(t[i] == s0[i]);
                        assert(lex_lt(s0[i].id, av.id));
                    } else if i == p && j > p {
                        assert(t[j] == s0[j]);
                        assert(lex_lt(s0[p as int].id, s0[j].id));
                        assert(av.id == s0[p as int].id);
                    } else if i < p && j > p {
                        assert(t[i] == s0[i]);
                        assert(t[j] == s0[j]);
                    } else if i != p && j != p {
                        assert(t[i] == s0[i]);
                        assert(t[j] == s0[j]);
                    }
                }
                assert forall|i: int| 0 <= i < self@.len() implies (#[trigger] self@[i]).added.wf() by {
                    let t = s1.insert(p as int, av);
                    if i < p {
                        assert(t[i] == s0[i]);
                    } else if i > p {
                        assert(t[i] == s0[i]);
                    }
                }
                assert(self.map_view() =~= old(self).map_view().insert(av.id, av));
            }
        } else {
            proof {
                let ghost pp = p as int;
                assert forall|i: int| 0 <= i < s0.len() implies #[trigger] s0[i].id != a@.id by {
                    if i < pp {
                        lemma_lex_lt_irrefl(a@.id);
                        if s0[i].id == a@.id {
                            assert(lex_lt(a@.id, a@.id));
                        }
                    } else if i == pp {
                        lemma_lex_lt_irrefl(a@.id);
                        if s0[i].id == a@.id {
                            assert(lex_lt(a@.id, a@.id));
                        }
                    } else {
                        assert(lex_lt(s0[pp].id, s0[i].id));
                        if s0[i].id == a@.id {
                            lemma_lex_lt_trans(a@.id, s0[pp].id, s0[i].id);
                            lemma_lex_lt_irrefl(a@.id);
                        }
                    }
                }
                lemma_as_amap_insert_at(s0, a@, p as int);
            }
            let ghost gap = a@;
            self.articles.insert(p, a);
            proof {
                assert(self@ =~= s0.insert(p as int, gap));
                assert forall|i: int, j: int| 0 <= i < j < self@.len() implies lex_lt(
                    #[trigger] self@[i].id,
                    #[trigger] self@[j].id,
                ) by {
                    let t = s0.insert(p as int, gap);
                    if j < p {
                    } else if i < p && j == p {
                        assert(t[i] == s0[i]);
                    } else if i < p && j > p {
                        assert(t[i] == s0[i]);
                        assert(t[j] == s0[j - 1]);
                        if p < s0.len() {
                            if j - 1 > p {
                                lemma_lex_lt_trans(gap.id, s0[p as int].id, s0[j - 1].id);
                                lemma_lex_lt_trans(s0[i].id, gap.id, s0[j - 1].id);
                            } else {
                                lemma_lex_lt_trans(s0[i].id, gap.id, s0[j - 1].id);
                            }
                        } else {
                        }
                    } else if i == p {
                        assert(t[j] == s0[j - 1]);
                        if j - 1 > p {
                            lemma_lex_lt_trans(gap.id, s0[p as int].id, s0[j - 1].id);
                        }
                    } else {
                        assert(t[i] == s0[i - 1]);
                        assert(t[j] == s0[j - 1]);
                    }
                }
                assert forall|i: int| 0 <= i < self@.len() implies (#[trigger] self@[i]).added.wf() by {
                    let t = s0.insert(p as int, gap);
                    if i < p {
                        assert(t[i] == s0[i]);
                    } else if i > p {
                        assert(t[i] == s0[i - 1]);
                    }
                }
                assert(self.map_view() =~= old(self).map_view().insert(gap.id, gap));
            }
        }
    }

    /// Removes the article with the given id, handing it back when present:
    /// exactly that entry leaves the mapping.
    pub fn remove(&mut self, id: &str) -> (r: Option<Article>)
        requires
            old(self).wf(),
        ensures
            final(self).wf(),
            final(self).map_view() == old(self).map_view().remove(id@),
            match r {
                Some(a) => old(self).map_view().contains_key(id@) && a@ == old(self).map_view()[id@],
                None => !old(self).map_view().contains_key(id@),
            },
    {
        proof {
            lemma_sorted_distinct(self@);
            lemma_as_amap_index(self@);
            lemma_as_amap_keys(self@);
        }
        let ghost s0 = self@;
        match self.position(id) {
            Some(p) => {
                proof {
                    lemma_as_amap_remove_at(s0, p as int);
                }
                let a = self.articles.remove(p);
                proof {
                    assert(self@ =~= s0.remove(p as int));
                    let s1 = s0.remove(p as int);
                    assert forall|i: int, j: int| 0 <= i < j < s1.len() implies lex_lt(
                        #[trigger] s1[i].id,
                        #[trigger] s1[j].id,
                    ) by {
                        assert(s1[i] == if i < p { s0[i] } else { s0[i + 1] });
                        assert(s1[j] == if j < p { s0[j] } else { s0[j + 1] });
                    }
                    assert forall|i: int| 0 <= i < s1.len() implies (#[trigger] s1[i]).added.wf() by {
                        assert(s1[i] == if i < p { s0[i] } else { s0[i + 1] });
                    }
                }
                Some(a)
            },
            None => {
                proof {
                    if self.map_view().contains_key(id@) {
                        let i = choose|i: int| 0 <= i < s0.len() && s0[i].id == id@;
                        assert(s0[i].id == id@);
                    }
                    assert(self.map_view() =~= old(self).map_view().remove(id@)) by {
                        lemma_as_amap_keys(s0);
                        if as_amap(s0).contains_key(id@) {
                            let i = choose|i: int| 0 <= i < s0.len() && s0[i].id == id@;
                            assert(s0[i].id == id@);
                        }
                    }
                }
                None
            },
        }
    }

    /// A read-only snapshot of the articles matching the criterion, in
    /// ascending id order.
    pub fn filter(&self, list: ArticleList) -> (r: Vec<Article>)
        requires
            self.wf(),
        ensures
            r.deep_view() == filtered(self@, list),
    {
        let mut r: Vec<Article> = Vec::new();
        let mut i: usize = 0;
        while i < self.articles.len()
            invariant
                0 <= i <= self.articles.len(),
                self@.len() == self.articles.len(),
                r.deep_view() == filtered(self@.take(i as int), list),
            decreases self.articles.len() - i,
        {
            let a = &self.articles[i];
            let matches_it = match list {
                ArticleList::All => true,
                ArticleList::Unread => !a.archived,
                ArticleList::Starred => a.starred,
                ArticleList::Archived => a.archived,
                ArticleList::Deleted => a.changed.deleted,
            };
            proof {
                assert(self@.take(i as int + 1).drop_last() =~= self@.take(i as int));
                assert(self@.take(i as int + 1).last() == self@[i as int]);
                assert(list_matches(list, self@[i as int]) == matches_it);
            }
            if matches_it {
                r.push(a.clone());
                proof {
                    assert(r.deep_view() =~= filtered(self@.take(i as int + 1), list));
                }
            } else {
                proof {
                    assert(r.deep_view() =~= filtered(self@.take(i as int + 1), list));
                }
            }
            i = i + 1;
        }
        proof {
            assert(self@.take(self@.len() as int) =~= self@);
        }
        r
    }

    /// Stars or unstars the article with the given id from a user action,
    /// recording `Starred` as pending; reports whether the id was known.
    pub fn set_starred(&mut self, id: &str, value: bool) -> (r: bool)
        requires
            old(self).wf(),
        ensures
            final(self).wf(),
            r == old(self).map_view().contains_key(id@),
            r ==> final(self).map_view() == old(self).map_view().insert(
                id@,
                (ArticleView {
                    starred: value,
                    changed: old(self).map_view()[id@].changed,
                    ..old(self).map_view()[id@]
                }).with_recorded(Changes::Starred),
            ),
            !r ==> *final(self) == *old(self),
    {
        proof {
            lemma_sorted_distinct(self@);
            lemma_as_amap_index(self@);
        }
        let ghost spre = self@;
        let p = match self.position(id) {
            Some(p) => p,
            None => {
                proof {
                    self.lemma_absent(id@);
                }
                return false;
            },
        };
        let mut a = self.take_at(p);
        a.set_starred(value);
        proof {
            assert(a@.added.wf());
            assert forall|i: int| 0 <= i < p implies lex_lt(#[trigger] self@[i].id, a@.id) by {
                assert(self@[i] == spre[i]);
            }
            assert forall|i: int| p <= i < self@.len() implies lex_lt(
                a@.id,
                #[trigger] self@[i].id,
            ) by {
                assert(self@[i] == spre[i + 1]);
            }
        }
        let ghost av = a@;
        self.put_back(p, a);
        proof {
            lemma_as_amap_remove_at(spre, p as int);
            assert(self.map_view() =~= old(self).map_view().insert(id@, av));
        }
        true
    }

    /// Archives or unarchives the article with the given id, recording
    /// `Archived` as pending; reports whether the id was known.
    pub fn set_archived(&mut self, id: &str, value: bool) -> (r: bool)
        requires
            old(self).wf(),
        ensures
            final(self).wf(),
            r == old(self).map_view().contains_key(id@),
            r ==> final(self).map_view() == old(self).map_view().insert(
                id@,
                (ArticleView {
                    archived: value,
                    changed: old(self).map_view()[id@].changed,
                    ..old(self).map_view()[id@]
                }).with_recorded(Changes::Archived),
            ),
            !r ==> *final(self) == *old(self),
    {
        proof {
            lemma_sorted_distinct(self@);
            lemma_as_amap_index(self@);
        }
        let ghost spre = self@;
        let p = match self.position(id) {
            Some(p) => p,
            None => {
                proof {
                    self.lemma_absent(id@);
                }
                return false;
            },
        };
        let mut a = self.take_at(p);
        a.set_archived(value);
        proof {
            assert(a@.added.wf());
            assert forall|i: int| 0 <= i < p implies lex_lt(#[trigger] self@[i].id, a@.id) by {
                assert(self@[i] == spre[i]);
            }
            assert forall|i: int| p <= i < self@.len() implies lex_lt(
                a@.id,
                #[trigger] self@[i].id,
            ) by {
                assert(self@[i] == spre[i + 1]);
            }
        }
        let ghost av = a@;
        self.put_back(p, a);
        proof {
            lemma_as_amap_remove_at(spre, p as int);
            assert(self.map_view() =~= old(self).map_view().insert(id@, av));
        }
        true
    }

    /// Records a pending local deletion for the article with the given id;
    /// reports whether the id was known.
    pub fn mark_deleted(&mut self, id: &str) -> (r: bool)
        requires
            old(self).wf(),
        ensures
            final(self).wf(),
            r == old(self).map_view().contains_key(id@),
            r ==> final(self).map_view() == old(self).map_view().insert(
                id@,
                old(self).map_view()[id@].with_recorded(Changes::Deleted),
            ),
            !r ==> *final(self) == *old(self),
    {
        proof {
            lemma_sorted_distinct(self@);
            lemma_as_amap_index(self@);
        }
        let ghost spre = self@;
        let p = match self.position(id) {
            Some(p) => p,
            None => {
                proof {
                    self.lemma_absent(id@);
                }
                return false;
            },
        };
        let mut a = self.take_at(p);
        a.mark_deleted();
        proof {
            assert(a@.added.wf());
            assert forall|i: int| 0 <= i < p implies lex_lt(#[trigger] self@[i].id, a@.id) by {
                assert(self@[i] == spre[i]);
            }
            assert forall|i: int| p <= i < self@.len() implies lex_lt(
                a@.id,
                #[trigger] self@[i].id,
            ) by {
                assert(self@[i] == spre[i + 1]);
            }
        }
        let ghost av = a@;
        self.put_back(p, a);
        proof {
            lemma_as_amap_remove_at(spre, p as int);
            assert(self.map_view() =~= old(self).map_view().insert(id@, av));
        }
        true
    }

    /// Clears one pending flag of the article with the given id after a
    /// backend confirmed the push; reports whether the id was known.
    pub fn confirm_change(&mut self, id: &str, c: Changes) -> (r: bool)
        requires
            old(self).wf(),
        ensures
            final(self).wf(),
            r == old(self).map_view().contains_key(id@),
            r ==> final(self).map_view() == old(self).map_view().insert(
                id@,
                old(self).map_view()[id@].with_confirmed(c),
            ),
            !r ==> *final(self) == *old(self),
    {
        proof {
            lemma_sorted_distinct(self@);
            lemma_as_amap_index(self@);
        }
        let ghost spre = self@;
        let p = match self.position(id) {
            Some(p) => p,
            None => {
                proof {
                    self.lemma_absent(id@);
                }
                return false;
            },
        };
        let mut a = self.take_at(p);
        a.confirm_change(c);
        proof {
            assert(a@.added.wf());
            assert forall|i: int| 0 <= i < p implies lex_lt(#[trigger] self@[i].id, a@.id) by {
                assert(self@[i] == spre[i]);
            }
            assert forall|i: int| p <= i < self@.len() implies lex_lt(
                a@.id,
                #[trigger] self@[i].id,
            ) by {
                assert(self@[i] == spre[i + 1]);
            }
        }
        let ghost av = a@;
        self.put_back(p, a);
        proof {
            lemma_as_amap_remove_at(spre, p as int);
            assert(self.map_view() =~= old(self).map_view().insert(id@, av));
        }
        true
    }

    /// Not finding an id during a scan means the mapping lacks it.
    proof fn lemma_absent(&self, id: Seq<char>)
        requires
            self.wf(),
            forall|i: int| 0 <= i < self@.len() ==> #[trigger] self@[i].id != id,
        ensures
            !self.map_view().contains_key(id),
    {
        lemma_as_amap_keys(self@);
        if self.map_view().contains_key(id) {
            let i = choose|i: int| 0 <= i < self@.len() && self@[i].id == id;
            assert(self@[i].id == id);
        }
    }

    /// Removes the article at a known position for in-place editing.
    fn take_at(&mut self, p: usize) -> (a: Article)
        requires
            old(self).wf(),
            p < old(self)@.len(),
        ensures
            a@ == old(self)@[p as int],
            final(self)@ == old(self)@.remove(p as int),
            final(self).wf(),
            final(self)@.len() == old(self)@.len() - 1,
    {
        let ghost s0 = self@;
        let a = self.articles.remove(p);
        proof {
            assert(self@ =~= s0.remove(p as int));
            let s1 = s0.remove(p as int);
            assert forall|i: int, j: int| 0 <= i < j < s1.len() implies lex_lt(
                #[trigger] s1[i].id,
                #[trigger] s1[j].id,
            ) by {
                assert(s1[i] == if i < p { s0[i] } else { s0[i + 1] });
                assert(s1[j] == if j < p { s0[j] } else { s0[j + 1] });
            }
            assert forall|i: int| 0 <= i < s1.len() implies (#[trigger] s1[i]).added.wf() by {
                assert(s1[i] == if i < p { s0[i] } else { s0[i + 1] });
            }
        }
        a
    }

    /// Puts an edited article back at the position it was taken from; its id
    /// must still order strictly between its neighbours, so sortedness and
    /// uniqueness are preserved.
    fn put_back(&mut self, p: usize, a: Article)
        requires
            old(self).wf(),
            a@.added.wf(),
            p <= old(self)@.len(),
            forall|i: int| 0 <= i < p ==> lex_lt(#[trigger] old(self)@[i].id, a@.id),
            forall|i: int|
                p <= i < old(self)@.len() ==> lex_lt(a@.id, #[trigger] old(self)@[i].id),
        ensures
            final(self).wf(),
            final(self)@ == old(self)@.insert(p as int, a@),
            final(self).map_view() == old(self).map_view().insert(a@.id, a@),
    {
        let ghost s1 = self@;
        proof {
            assert forall|i: int| 0 <= i < s1.len() implies #[trigger] s1[i].id != a@.id by {
                lemma_lex_lt_irrefl(a@.id);
                if s1[i].id == a@.id {
                    assert(lex_lt(a@.id, a@.id));
                }
            }
            lemma_as_amap_insert_at(s1, a@, p as int);
        }
        let ghost av = a@;
        self.articles.insert(p, a);
        proof {
            assert(self@ =~= s1.insert(p as int, av));
            assert forall|i: int, j: int| 0 <= i < j < self@.len() implies lex_lt(
                #[trigger] self@[i].id,
                #[trigger] self@[j].id,
            ) by {
                let t = s1.insert(p as int, av);
                if j < p {
                    assert(t[i] == s1[i] && t[j] == s1[j]);
                } else if j == p {
                    assert(t[i] == s1[i]);
                } else if i == p {
                    assert(t[j] == s1[j - 1]);
                } else if i < p {
                    assert(t[i] == s1[i] && t[j] == s1[j - 1]);
                    lemma_lex_lt_trans(s1[i].id, av.id, s1[j - 1].id);
                } else {
                    assert(t[i] == s1[i - 1] && t[j] == s1[j - 1]);
                }
            }
            assert forall|i: int| 0 <= i < self@.len() implies (#[trigger] self@[i]).added.wf() by {
                let t = s1.insert(p as int, av);
                if i < p {
                    assert(t[i] == s1[i]);
                } else if i > p {
                    assert(t[i] == s1[i - 1]);
                }
            }
        }
    }
}

impl Default for ArticleIndex {
    /// The default index is empty.
    fn default() -> (r: ArticleIndex)
        ensures
            r.wf(),
            r@ == Seq::<ArticleView>::empty(),
    {
        ArticleIndex::new()
    }
}

} // verus!
