//! The polymorphic backend contract: every backend owns an article index,
//! answers queries over it, serializes it for persistence, and starts at
//! most one refresh at a time.

use vstd::prelude::*;
use crate::article::{Article, ArticleView};
use crate::changes::Changes;
use crate::codec::{enc_index, encode_index};
use crate::index::{as_amap, filtered, ArticleIndex};
use crate::settings::{ArticleAuth, ArticleList};
use crate::order::str_eq;

verus! {

/// The capability set every backend implements. `update` must never block:
/// it only reports whether a new refresh was started, and a second call
/// while one is in flight returns `false` and changes nothing.
pub trait Service: Sized {
    /// The backend's internal invariant.
    spec fn inv(&self) -> bool;

    /// Whether a refresh is in flight.
    spec fn running(&self) -> bool;

    /// The shared index's contents.
    spec fn contents(&self) -> Seq<ArticleView>;

    /// What `filter` answers for each criterion.
    spec fn filtered_view(&self, list: ArticleList) -> Seq<ArticleView>;

    /// What `save_index` hands over for persistence, if anything.
    spec fn persisted(&self) -> Option<Seq<char>>;

    /// The backend-specific effect of a refresh that did start.
    spec fn update_started(&self, pre: &Self) -> bool;

    /// A read-only snapshot of the articles matching the criterion.
    fn filter(&self, list: ArticleList) -> (out: Vec<Article>)
        requires
            self.inv(),
        ensures
            out.deep_view() == self.filtered_view(list),
    ;

    /// Shared read access to the index.
    fn index(&self) -> (r: &ArticleIndex)
        requires
            self.inv(),
        ensures
            r.wf(),
            r@ == self.contents(),
    ;

    /// The serialized index for the caller to persist, or nothing for a
    /// backend without durable state.
    fn save_index(&self) -> (r: Option<String>)
        requires
            self.inv(),
        ensures
            match (r, self.persisted()) {
                (Some(text), Some(t)) => text@ == t,
                (None, None) => true,
                _ => false,
            },
    ;

    /// Begins a refresh: `true` when one was started, `false`, with nothing
    /// changed, when one is already in flight. Never blocks and never
    /// touches the index contents itself.
    fn update(&mut self) -> (r: bool)
        requires
            old(self).inv(),
        ensures
            final(self).inv(),
            r == !old(self).running(),
            final(self).contents() == old(self).contents(),
            !r ==> *final(self) == *old(self),
            r ==> final(self).update_started(old(self)),
    ;
}

/// The no-op backend used when no remote service is configured: it holds an
/// index but answers every query with an empty list, refreshes immediately
/// and persists nothing.
pub struct Dummy {
    pub index: ArticleIndex,
}

impl Dummy {
    /// A fresh no-op backend with an empty index.
    pub fn new() -> (r: Dummy)
        ensures
            r.inv(),
            r.index@ == Seq::<ArticleView>::empty(),
            !r.running(),
    {
        Dummy { index: ArticleIndex::new() }
    }

    /// Exclusive access to the index, e.g. for a UI action setting a change
    /// flag.
    pub fn index_mut(&mut self) -> (r: &mut ArticleIndex)
        requires
            old(self).inv(),
        ensures
            *r == old(self).index,
            final(self).index == *final(r),
    {
        &mut self.index
    }
}

impl Service for Dummy {
    open spec fn inv(&self) -> bool {
        self.index.wf()
    }

    open spec fn running(&self) -> bool {
        false
    }

    open spec fn contents(&self) -> Seq<ArticleView> {
        self.index@
    }

    open spec fn filtered_view(&self, list: ArticleList) -> Seq<ArticleView> {
        Seq::empty()
    }

    open spec fn persisted(&self) -> Option<Seq<char>> {
        None
    }

    open spec fn update_started(&self, pre: &Self) -> bool {
        self == pre
    }

    /// Always an empty sequence, whatever the index holds.
    fn filter(&self, list: ArticleList) -> (out: Vec<Article>) {
        let out: Vec<Article> = Vec::new();
        proof {
            assert(out.deep_view() =~= Seq::<ArticleView>::empty());
        }
        out
    }

    fn index(&self) -> (r: &ArticleIndex) {
        &self.index
    }

    /// Nothing to persist.
    fn save_index(&self) -> (r: Option<String>) {
        None
    }

    /// Nothing to refresh: reports a started refresh that is already
    /// complete, leaving everything as it was.
    fn update(&mut self) -> (r: bool) {
        true
    }
}

/// The networked backend: reconciles the local index against the remote
/// article list while honouring pending local changes, under an atomically
/// guarded "running" flag.
pub struct Remote {
    pub index: ArticleIndex,
    pub running: bool,
}

/// A remote article merged over the local state of the same id: remote
/// fields win except where a pending local change covers them, and pending
/// flags survive until confirmed.
pub open spec fn merged_article(local: Option<ArticleView>, r: ArticleView) -> ArticleView {
    match local {
        None => r,
        Some(l) => ArticleView {
            changed: l.changed,
            starred: if l.changed.starred {
                l.starred
            } else {
                r.starred
            },
            archived: if l.changed.archived {
                l.archived
            } else {
                r.archived
            },
            ..r
        },
    }
}

/// The locally pending deletions: the entries a merge keeps even when the
/// remote list no longer carries them.
pub open spec fn retained(local: Seq<ArticleView>) -> Map<Seq<char>, ArticleView>
    decreases local.len(),
{
    if local.len() == 0 {
        Map::empty()
    } else {
        let m = retained(local.drop_last());
        if local.last().changed.deleted {
            m.insert(local.last().id, local.last())
        } else {
            m
        }
    }
}

/// The merge of a fetched remote list into the local index, as a mapping:
/// every remote id is present, merged over local state; of the rest only
/// pending deletions survive. A later remote duplicate wins.
pub open spec fn merge_spec(local: Seq<ArticleView>, remote: Seq<ArticleView>) -> Map<
    Seq<char>,
    ArticleView,
>
    decreases remote.len(),
{
    if remote.len() == 0 {
        retained(local)
    } else {
        let r = remote.last();
        merge_spec(local, remote.drop_last()).insert(
            r.id,
            merged_article(
                if as_amap(local).contains_key(r.id) {
                    Some(as_amap(local)[r.id])
                } else {
                    None
                },
                r,
            ),
        )
    }
}

/// The exec merge of one remote article over the local one of its id.
fn merge_one(l: &Article, r: &Article) -> (m: Article)
    ensures
        m@ == merged_article(Some(l@), r@),
{
    let mut m = r.clone();
    m.changed = l.changed;
    if l.changed.starred {
        m.starred = l.starred;
    }
    if l.changed.archived {
        m.archived = l.archived;
    }
    proof {
        assert(m@ =~= merged_article(Some(l@), r@));
    }
    m
}

impl Remote {
    /// A fresh, idle networked backend with an empty index.
    pub fn new() -> (r: Remote)
        ensures
            r.inv(),
            r.index@ == Seq::<ArticleView>::empty(),
            !r.running(),
    {
        Remote { index: ArticleIndex::new(), running: false }
    }

    /// An idle backend over an index loaded from persisted state.
    pub fn with_index(index: ArticleIndex) -> (r: Remote)
        requires
            index.wf(),
        ensures
            r.inv(),
            r.index == index,
            !r.running(),
    {
        Remote { index, running: false }
    }

    /// Exclusive access to the index, e.g. for a UI action setting a change
    /// flag.
    pub fn index_mut(&mut self) -> (r: &mut ArticleIndex)
        requires
            old(self).inv(),
        ensures
            *r == old(self).index,
            final(self).index == *final(r),
            final(self).running == old(self).running,
    {
        &mut self.index
    }

    /// Installs the merge of a successfully fetched remote list, §4.4 style:
    /// remote entries are inserted or refreshed over pending local changes,
    /// and entries gone from the remote survive only when locally pending
    /// for deletion. Runs inside an in-flight refresh.
    pub fn apply_fetch(&mut self, remote: &Vec<Article>)
        requires
            old(self).inv(),
            old(self).running,
            forall|k: int|
                0 <= k < remote.deep_view().len() ==> (#[trigger] remote.deep_view()[k]).added.wf(),
        ensures
            final(self).inv(),
            final(self).running,
            as_amap(final(self).index@) == merge_spec(old(self).index@, remote.deep_view()),
    {
        let mut out = ArticleIndex::new();
        let mut i: usize = 0;
        while i < self.index.articles.len()
            invariant
                0 <= i <= self.index.articles.len(),
                self == old(self),
                self.inv(),
                self.index@.len() == self.index.articles.len(),
                out.wf(),
                out.map_view() == retained(self.index@.take(i as int)),
            decreases self.index.articles.len() - i,
        {
            let a = &self.index.articles[i];
            proof {
                assert(a@ == self.index@[i as int]);
                assert(self.index@[i as int].added.wf());
                assert(self.index@.take(i as int + 1).drop_last() =~= self.index@.take(i as int));
                assert(self.index@.take(i as int + 1).last() == self.index@[i as int]);
            }
            if a.changed.contains(Changes::Deleted) {
                out.upsert(a.clone());
            }
            i = i + 1;
        }
        proof {
            assert(self.index@.take(self.index@.len() as int) =~= self.index@);
        }
        let mut j: usize = 0;
        while j < remote.len()
            invariant
                0 <= j <= remote.len(),
                self == old(self),
                self.inv(),
                remote.deep_view().len() == remote.len(),
                forall|k: int|
                    0 <= k < remote.deep_view().len() ==> (
                #[trigger] remote.deep_view()[k]).added.wf(),
                out.wf(),
                out.map_view() == merge_spec(self.index@, remote.deep_view().take(j as int)),
            decreases remote.len() - j,
        {
            let r = &remote[j];
            proof {
                assert(r@ == remote.deep_view()[j as int]);
                assert(remote.deep_view()[j as int].added.wf());
                assert(remote.deep_view().take(j as int + 1).drop_last() =~= remote.deep_view().take(
                    j as int,
                ));
                assert(remote.deep_view().take(j as int + 1).last() == remote.deep_view()[j as int]);
            }
            let merged = match self.index.get(r.id.as_str()) {
                Some(l) => merge_one(l, r),
                None => r.clone(),
            };
            out.upsert(merged);
            j = j + 1;
        }
        proof {
            assert(remote.deep_view().take(remote.deep_view().len() as int) =~= remote.deep_view());
        }
        self.index = out;
    }

    /// Clears one pending flag after the remote service confirmed the push;
    /// reports whether the id was known. Other flags and articles stay.
    pub fn confirm_push(&mut self, id: &str, c: Changes) -> (r: bool)
        requires
            old(self).inv(),
        ensures
            final(self).inv(),
            final(self).running == old(self).running,
            r == as_amap(old(self).index@).contains_key(id@),
            r ==> as_amap(final(self).index@) == as_amap(old(self).index@).insert(
                id@,
                as_amap(old(self).index@)[id@].with_confirmed(c),
            ),
            !r ==> *final(self) == *old(self),
    {
        self.index.confirm_change(id, c)
    }

    /// Ends the in-flight refresh, successful or not: the running flag is
    /// always cleared and the index is left as it stands.
    pub fn finish_update(&mut self)
        requires
            old(self).inv(),
        ensures
            final(self).inv(),
            !final(self).running,
            final(self).index == old(self).index,
    {
        self.running = false;
    }
}

impl Service for Remote {
    open spec fn inv(&self) -> bool {
        self.index.wf()
    }

    open spec fn running(&self) -> bool {
        self.running
    }

    open spec fn contents(&self) -> Seq<ArticleView> {
        self.index@
    }

    open spec fn filtered_view(&self, list: ArticleList) -> Seq<ArticleView> {
        filtered(self.index@, list)
    }

    open spec fn persisted(&self) -> Option<Seq<char>> {
        Some(enc_index(self.index@))
    }

    open spec fn update_started(&self, pre: &Self) -> bool {
        self.running && self.index == pre.index
    }

    fn filter(&self, list: ArticleList) -> (out: Vec<Article>) {
        self.index.filter(list)
    }

    fn index(&self) -> (r: &ArticleIndex) {
        &self.index
    }

    fn save_index(&self) -> (r: Option<String>) {
        Some(encode_index(&self.index))
    }

    /// The non-overlapping-update guarantee: an atomic check-and-set of the
    /// running flag, so a refresh starts only when none is in flight.
    fn update(&mut self) -> (r: bool) {
        if self.running {
            false
        } else {
            self.running = true;
            true
        }
    }
}

/// One constructed backend per configuration.
pub enum Backend {
    Remote(Remote),
    Dummy(Dummy),
}

impl Backend {
    /// Exclusive access to the selected backend's index.
    pub fn index_mut(&mut self) -> (r: &mut ArticleIndex)
        requires
            old(self).inv(),
        ensures
            (*r)@ == old(self).contents(),
            final(self).contents() == (*final(r))@,
            final(self).running() == old(self).running(),
    {
        match self {
            Backend::Remote(rm) => rm.index_mut(),
            Backend::Dummy(d) => d.index_mut(),
        }
    }
}

impl Service for Backend {
    open spec fn inv(&self) -> bool {
        match self {
            Backend::Remote(rm) => rm.inv(),
            Backend::Dummy(d) => d.inv(),
        }
    }

    open spec fn running(&self) -> bool {
        match self {
            Backend::Remote(rm) => rm.running(),
            Backend::Dummy(d) => d.running(),
        }
    }

    open spec fn contents(&self) -> Seq<ArticleView> {
        match self {
            Backend::Remote(rm) => rm.contents(),
            Backend::Dummy(d) => d.contents(),
        }
    }

    open spec fn filtered_view(&self, list: ArticleList) -> Seq<ArticleView> {
        match self {
            Backend::Remote(rm) => rm.filtered_view(list),
            Backend::Dummy(d) => d.filtered_view(list),
        }
    }

    open spec fn persisted(&self) -> Option<Seq<char>> {
        match self {
            Backend::Remote(rm) => rm.persisted(),
            Backend::Dummy(d) => d.persisted(),
        }
    }

    open spec fn update_started(&self, pre: &Self) -> bool {
        match (self, pre) {
            (Backend::Remote(rm), Backend::Remote(rp)) => rm.update_started(rp),
            (Backend::Dummy(d), Backend::Dummy(dp)) => d.update_started(dp),
            _ => false,
        }
    }

    fn filter(&self, list: ArticleList) -> (out: Vec<Article>) {
        match self {
            Backend::Remote(rm) => rm.filter(list),
            Backend::Dummy(d) => d.filter(list),
        }
    }

    fn index(&self) -> (r: &ArticleIndex) {
        match self {
            Backend::Remote(rm) => rm.index(),
            Backend::Dummy(d) => d.index(),
        }
    }

    fn save_index(&self) -> (r: Option<String>) {
        match self {
            Backend::Remote(rm) => rm.save_index(),
            Backend::Dummy(d) => d.save_index(),
        }
    }

    fn update(&mut self) -> (r: bool) {
        match self {
            Backend::Remote(rm) => rm.update(),
            Backend::Dummy(d) => d.update(),
        }
    }
}

/// Builds the service variant the configuration selects: the networked
/// backend for its known identifier, the no-op backend for anything else.
/// Exactly one variant is produced per configuration.
pub fn load(auth: &ArticleAuth) -> (r: Backend)
    ensures
        r.inv(),
        !r.running(),
        r.contents() == Seq::<ArticleView>::empty(),
        match r {
            Backend::Remote(rm) => auth.api@ == "wallabag"@,
            Backend::Dummy(d) => auth.api@ != "wallabag"@,
        },
{
    if str_eq(auth.api.as_str(), "wallabag") {
        Backend::Remote(Remote::new())
    } else {
        Backend::Dummy(Dummy::new())
    }
}

} // verus!
