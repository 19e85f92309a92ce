//! The producer side of the line stream, as a state machine.
//!
//! The producer walks the registry page by page, and each repository it lists in turn. It is
//! driven from outside: `next_action` says what to do next (fetch a page, deliver a line, or
//! stop) and `fetched` takes back the text of the page that was asked for. Whoever drives it
//! owns the network and the bounded buffer that lines are delivered into; this type decides
//! everything else.
use std::collections::VecDeque;

use vstd::prelude::*;

use crate::fetch::{
    lemma_repo_steps_wf, repo_after, repo_fetched, repo_model_wf, repo_skipped, repo_step,
    request_step, FileModel, FolderModel, Repo, RepoModel, RepoStep, Request, Step,
};
use crate::parse::{opt_view, page_repos, read_registry_page, src_views};
use crate::text::qualifies;
use crate::SrcString;

verus! {

/// How many times in a row one page may fail to come back before it is given up on.
pub const MAX_ATTEMPTS: u32 = 3;

/// The producer's state.
#[derive(Debug)]
pub struct LineQueue {
    repos: VecDeque<Repo>,
    page_no: u32,
    empty_pages: u32,
    empty_page_cap: u32,
    attempts: u32,
    exhausted: bool,
    cancelled: bool,
}

/// What the driver does next.
#[derive(Debug)]
pub enum Action {
    Fetch(Request),
    Deliver(SrcString),
    /// The registry ran dry: the stream has ended.
    Exhausted,
    /// The consumer cancelled: the producer is done.
    Stop,
}

pub struct QueueModel {
    /// Repositories being walked, the current one first.
    pub repos: Seq<RepoModel>,
    /// The registry page to fetch next.
    pub page_no: nat,
    /// How many registry pages in a row listed no usable repository.
    pub empty_pages: nat,
    /// How many such pages end the stream.
    pub cap: nat,
    /// How many times in a row the page asked for has failed.
    pub attempts: nat,
    /// The registry has run dry.
    pub exhausted: bool,
    /// The consumer has cancelled.
    pub cancelled: bool,
}

pub open spec fn action_view(a: Action) -> Step {
    match a {
        Action::Fetch(q) => request_step(q),
        Action::Deliver(l) => Step::Deliver(l.string@, l.source@),
        Action::Exhausted => Step::Exhausted,
        Action::Stop => Step::Stop,
    }
}

pub open spec fn repo_models(v: Seq<Repo>) -> Seq<RepoModel> {
    v.map_values(|r: Repo| r@)
}

/// The step of the first repository that still has one.
pub open spec fn first_step(repos: Seq<RepoModel>) -> Option<Step>
    decreases repos.len(),
{
    if repos.len() == 0 {
        None
    } else if repo_step(repos[0]) is Done {
        first_step(repos.drop_first())
    } else {
        Some(repo_step(repos[0]))
    }
}

/// The repositories once drained ones at the front are dropped and the first other one has
/// taken its step.
pub open spec fn repos_after(repos: Seq<RepoModel>) -> Seq<RepoModel>
    decreases repos.len(),
{
    if repos.len() == 0 {
        repos
    } else if repo_step(repos[0]) is Done {
        repos_after(repos.drop_first())
    } else {
        repos.update(0, repo_after(repos[0]))
    }
}

/// What the producer does next: stop once cancelled; else the next step of the current
/// repository; else, with no repository left, fetch the next registry page, unless the
/// registry has run dry.
pub open spec fn action_of(q: QueueModel) -> Step {
    if q.cancelled {
        Step::Stop
    } else {
        match first_step(q.repos) {
            Some(st) => st,
            None => if q.exhausted {
                Step::Exhausted
            } else {
                Step::Registry(q.page_no)
            },
        }
    }
}

/// The producer's state once it has taken the step `action_of` gives.
pub open spec fn after_action(q: QueueModel) -> QueueModel {
    if q.cancelled {
        q
    } else {
        QueueModel { repos: repos_after(q.repos), ..q }
    }
}

/// A repository whose root listing is at `url`.
pub open spec fn new_repo_model(source: Seq<char>, url: Seq<char>) -> RepoModel {
    RepoModel {
        source,
        stack: seq![FolderModel { files: Seq::empty(), folders: seq![url] }],
    }
}

/// The repositories of a registry page's `(repository, id)` pairs.
pub open spec fn found_repos(found: Seq<(Seq<char>, Seq<char>)>) -> Seq<RepoModel> {
    found.map_values(|p: (Seq<char>, Seq<char>)| new_repo_model(p.1, p.0))
}

/// The state once a registry page listing `found` has been read. A page with none counts
/// toward the cap; one with some resets the count. The registry runs dry at the cap, or
/// when page numbers run out.
pub open spec fn page_received(q: QueueModel, found: Seq<(Seq<char>, Seq<char>)>) -> QueueModel {
    let empty = if found.len() == 0 {
        q.empty_pages + 1
    } else {
        0
    };
    QueueModel {
        repos: found_repos(found),
        page_no: if q.page_no < u32::MAX {
            q.page_no + 1
        } else {
            q.page_no
        },
        empty_pages: empty,
        exhausted: (found.len() == 0 && empty >= q.cap) || q.page_no >= u32::MAX,
        attempts: 0,
        ..q
    }
}

/// The state once the page that `action_of` asked for has come back (`Some` text) or failed
/// (`None`). A failure is retried; after `MAX_ATTEMPTS` failures in a row the reference is
/// given up on (a registry page then counts as an empty one).
pub open spec fn fetched_model(q: QueueModel, body: Option<Seq<char>>) -> QueueModel {
    if q.cancelled || (q.repos.len() == 0 && q.exhausted) {
        q
    } else {
        match body {
            Some(b) => {
                let q0 = QueueModel { attempts: 0, ..q };
                if q.repos.len() == 0 {
                    page_received(q0, page_repos(b))
                } else {
                    QueueModel { repos: q.repos.update(0, repo_fetched(q.repos[0], b)), ..q0 }
                }
            },
            None => if q.attempts + 1 >= MAX_ATTEMPTS {
                let q0 = QueueModel { attempts: 0, ..q };
                if q.repos.len() == 0 {
                    page_received(q0, Seq::empty())
                } else {
                    QueueModel { repos: q.repos.update(0, repo_skipped(q.repos[0])), ..q0 }
                }
            } else {
                QueueModel { attempts: q.attempts + 1, ..q }
            },
        }
    }
}

/// Every line held by every repository qualifies.
pub open spec fn queue_wf(q: QueueModel) -> bool {
    forall|i: int| 0 <= i < q.repos.len() ==> repo_model_wf(#[trigger] q.repos[i])
}

impl View for LineQueue {
    type V = QueueModel;

    closed spec fn view(&self) -> QueueModel {
        QueueModel {
            repos: repo_models(self.repos@),
            page_no: self.page_no as nat,
            empty_pages: self.empty_pages as nat,
            cap: self.empty_page_cap as nat,
            attempts: self.attempts as nat,
            exhausted: self.exhausted,
            cancelled: self.cancelled,
        }
    }
}

impl LineQueue {
    pub closed spec fn inv(&self) -> bool {
        &&& forall|i: int| 0 <= i < self.repos@.len() ==> (#[trigger] self.repos@[i]).inv()
        &&& queue_wf(self@)
        &&& self.attempts < MAX_ATTEMPTS
        &&& (self.exhausted || self.empty_pages == 0 || self.empty_pages < self.empty_page_cap)
    }

    /// The state of a new producer.
    pub open spec fn initial(cap: nat) -> QueueModel {
        QueueModel {
            repos: Seq::empty(),
            page_no: 1,
            empty_pages: 0,
            cap,
            attempts: 0,
            exhausted: false,
            cancelled: false,
        }
    }

    /// A producer that starts at registry page 1 and ends the stream after
    /// `empty_page_cap` registry pages in a row list no usable repository.
    pub fn new(empty_page_cap: u32) -> (r: LineQueue)
        ensures
            r.inv(),
            r@ == Self::initial(empty_page_cap as nat),
    {
        let r = LineQueue {
            repos: VecDeque::new(),
            page_no: 1,
            empty_pages: 0,
            empty_page_cap,
            attempts: 0,
            exhausted: false,
            cancelled: false,
        };
        proof {
            assert(r@.repos =~= Seq::<RepoModel>::empty());
        }
        r
    }

    /// The consumer is done: from now on the producer only stops.
    pub fn cancel(&mut self)
        requires
            old(self).inv(),
        ensures
            final(self).inv(),
            final(self)@ == (QueueModel { cancelled: true, ..old(self)@ }),
    {
        self.cancelled = true;
    }

    /// Whether the consumer has cancelled.
    pub fn is_cancelled(&self) -> (r: bool)
        ensures
            r == self@.cancelled,
    {
        self.cancelled
    }

    /// What to do next; see `action_of`. A delivered line is taken from the current
    /// repository, and qualifies.
    pub fn next_action(&mut self) -> (r: Action)
        requires
            old(self).inv(),
        ensures
            final(self).inv(),
            action_view(r) == action_of(old(self)@),
            final(self)@ == after_action(old(self)@),
            r is Deliver ==> qualifies(r->Deliver_0.string@),
    {
        if self.cancelled {
            return Action::Stop;
        }
        loop
            invariant
                self.inv(),
                !self.cancelled,
                first_step(self@.repos) == first_step(old(self)@.repos),
                repos_after(self@.repos) == repos_after(old(self)@.repos),
                self@ == (QueueModel { repos: self@.repos, ..old(self)@ }),
            decreases self.repos@.len(),
        {
            let ghost vs = self.repos@;
            let mut repo = match self.repos.pop_front() {
                Some(r) => r,
                None => {
                    if self.exhausted {
                        return Action::Exhausted;
                    }
                    return Action::Fetch(Request::RegistryPage(self.page_no));
                },
            };
            proof {
                assert(repo == vs[0]);
                assert(repo_models(self.repos@) =~= repo_models(vs).drop_first());
                assert(repo_model_wf(repo@));
                lemma_repo_steps_wf(repo@, Seq::empty());
            }
            let ghost m = repo@;
            let step = repo.get_line();
            match step {
                RepoStep::Done => {
                    proof {
                        assert forall|i: int| 0 <= i < self.repos@.len() implies (
                        #[trigger] self.repos@[i]).inv() by {
                            assert(self.repos@[i] == vs[i + 1]);
                        }
                        assert(queue_wf(self@)) by {
                            assert forall|i: int| 0 <= i < self@.repos.len() implies repo_model_wf(
                                #[trigger] self@.repos[i],
                            ) by {
                                assert(self@.repos[i] == repo_models(vs)[i + 1]);
                            }
                        }
                    }
                },
                RepoStep::Line(l) => {
                    self.repos.push_front(repo);
                    proof {
                        self.lemma_front_replaced(vs, m);
                    }
                    return Action::Deliver(l);
                },
                RepoStep::Fetch(q) => {
                    self.repos.push_front(repo);
                    proof {
                        self.lemma_front_replaced(vs, m);
                    }
                    return Action::Fetch(q);
                },
            }
        }
    }

    /// After the front repository `vs[0]`, whose view was `m`, was taken out, stepped and put
    /// back: the state is the old one with the front repository's view updated.
    proof fn lemma_front_replaced(&self, vs: Seq<Repo>, m: RepoModel)
        requires
            vs.len() > 0,
            vs[0]@ == m,
            self.repos@.len() == vs.len(),
            forall|i: int| 0 < i < vs.len() ==> self.repos@[i] == vs[i],
            forall|i: int| 0 <= i < vs.len() ==> (#[trigger] vs[i]).inv(),
            self.repos@[0].inv(),
            forall|i: int| 0 <= i < vs.len() ==> repo_model_wf(#[trigger] repo_models(vs)[i]),
            repo_model_wf(self.repos@[0]@),
            self.attempts < MAX_ATTEMPTS,
            self.exhausted || self.empty_pages == 0 || self.empty_pages < self.empty_page_cap,
        ensures
            repo_models(self.repos@) == repo_models(vs).update(0, self.repos@[0]@),
            self.inv(),
    {
        assert(repo_models(self.repos@) =~= repo_models(vs).update(0, self.repos@[0]@));
        assert forall|i: int| 0 <= i < self.repos@.len() implies (#[trigger] self.repos@[i]).inv() by {
            if i > 0 {
                assert(self.repos@[i] == vs[i]);
            }
        }
        assert forall|i: int| 0 <= i < self@.repos.len() implies repo_model_wf(#[trigger] self@.repos[i]) by {
            if i > 0 {
                assert(self@.repos[i] == repo_models(vs)[i]);
            }
        }
    }

    /// Reads a registry page's `(repository, id)` pairs into the (empty) list of
    /// repositories; see `page_received`.
    fn page_received(&mut self, found: Vec<SrcString>)
        requires
            old(self).inv(),
            old(self).repos@.len() == 0,
            !old(self)@.exhausted,
        ensures
            final(self).inv(),
            final(self)@ == page_received(old(self)@, src_views(found@)),
    {
        let ghost target = found_repos(src_views(found@));
        let mut i: usize = 0;
        while i < found.len()
            invariant
                i <= found@.len(),
                target == found_repos(src_views(found@)),
                target.len() == found@.len(),
                repo_models(self.repos@) =~= target.subrange(0, i as int),
                forall|j: int| 0 <= j < self.repos@.len() ==> (#[trigger] self.repos@[j]).inv(),
                self@ == (QueueModel { repos: self@.repos, ..old(self)@ }),
            decreases found@.len() - i,
        {
            let p = &found[i];
            let repo = Repo::new(p.source.clone(), p.string.clone());
            let ghost prev = self.repos@;
            self.repos.push_back(repo);
            proof {
                assert(src_views(found@)[i as int] == (p.string@, p.source@));
                assert(repo_models(self.repos@) =~= repo_models(prev).push(repo@));
                assert(target.subrange(0, i + 1) =~= target.subrange(0, i as int).push(target[i as int]));
                assert forall|j: int| 0 <= j < self.repos@.len() implies (#[trigger] self.repos@[j]).inv() by {
                    if j < prev.len() {
                        assert(self.repos@[j] == prev[j]);
                    }
                }
            }
            i = i + 1;
        }
        if found.len() == 0 {
            self.empty_pages = self.empty_pages + 1;
            if self.empty_pages >= self.empty_page_cap {
                self.exhausted = true;
            }
        } else {
            self.empty_pages = 0;
        }
        if self.page_no < u32::MAX {
            self.page_no = self.page_no + 1;
        } else {
            self.exhausted = true;
        }
        self.attempts = 0;
        proof {
            assert(self@.repos =~= target);
            assert forall|j: int| 0 <= j < self@.repos.len() implies repo_model_wf(#[trigger] self@.repos[j]) by {
                let st = self@.repos[j].stack;
                assert forall|k: int| 0 <= k < st.len() implies crate::fetch::folder_model_wf(#[trigger] st[k]) by {
                    assert(st[k].files.len() == 0);
                }
            }
        }
    }

    /// Takes back the page that `next_action` asked for: its text, or `None` where the fetch
    /// failed. See `fetched_model`.
    pub fn fetched(&mut self, body: Option<String>)
        requires
            old(self).inv(),
        ensures
            final(self).inv(),
            final(self)@ == fetched_model(old(self)@, opt_view(body)),
    {
        if self.cancelled || (self.repos.len() == 0 && self.exhausted) {
            return ;
        }
        match body {
            Some(b) => {
                if self.repos.len() == 0 {
                    let found = read_registry_page(b.as_str());
                    self.page_received(found);
                } else {
                    self.front_repo_step(Some(b));
                }
            },
            None => {
                if self.attempts + 1 >= MAX_ATTEMPTS {
                    if self.repos.len() == 0 {
                        self.page_received(Vec::new());
                        proof {
                            assert(src_views(Seq::<SrcString>::empty()) =~= Seq::empty());
                        }
                    } else {
                        self.front_repo_step(None);
                    }
                } else {
                    self.attempts = self.attempts + 1;
                    proof {
                        assert(self@.repos == old(self)@.repos);
                        assert(queue_wf(old(self)@));
                    }
                }
            },
        }
    }

    /// Hands the page that came back (or, with `None`, giving up) to the front repository.
    fn front_repo_step(&mut self, body: Option<String>)
        requires
            old(self).inv(),
            old(self).repos@.len() > 0,
        ensures
            final(self).inv(),
            final(self)@ == (QueueModel {
                repos: old(self)@.repos.update(
                    0,
                    match body {
                        Some(b) => repo_fetched(old(self)@.repos[0], b@),
                        None => repo_skipped(old(self)@.repos[0]),
                    },
                ),
                attempts: 0,
                ..old(self)@
            }),
    {
        let ghost vs = self.repos@;
        let mut repo = match self.repos.pop_front() {
            Some(r) => r,
            None => {
                return ;
            },
        };
        let ghost m = repo@;
        proof {
            assert(repo == vs[0]);
            assert(old(self)@.repos == repo_models(vs));
            assert(repo_models(vs)[0] == m);
            assert(queue_wf(old(self)@));
            assert(repo_model_wf(old(self)@.repos[0]));
            assert(repo_model_wf(m));
            match &body {
                Some(b) => lemma_repo_steps_wf(m, b@),
                None => lemma_repo_steps_wf(m, Seq::empty()),
            }
        }
        match &body {
            Some(b) => repo.fetched(b.as_str()),
            None => repo.skip(),
        }
        self.repos.push_front(repo);
        self.attempts = 0;
        proof {
            assert forall|i: int| 0 <= i < vs.len() implies repo_model_wf(#[trigger] repo_models(vs)[i]) by {
                assert(old(self)@.repos[i] == repo_models(vs)[i]);
            }
            self.lemma_front_replaced(vs, m);
            assert(repo_models(self.repos@) =~= repo_models(vs).update(0, repo@));
            match body {
                Some(b) => assert(repo@ == repo_fetched(m, b@)),
                None => assert(repo@ == repo_skipped(m)),
            }
            assert(self@.repos == old(self)@.repos.update(0, repo@));
        }
    }
}

/// The first repository that still has a step.
pub open spec fn first_live(repos: Seq<RepoModel>) -> RepoModel
    decreases repos.len(),
{
    if repos.len() == 0 {
        arbitrary()
    } else if repo_step(repos[0]) is Done {
        first_live(repos.drop_first())
    } else {
        repos[0]
    }
}

/// The steps the producer takes in `k` calls of `next_action`, with no page taken back in
/// between.
pub open spec fn run(q: QueueModel, k: nat) -> Seq<Step>
    decreases k,
{
    if k == 0 {
        Seq::empty()
    } else {
        seq![action_of(q)] + run(after_action(q), (k - 1) as nat)
    }
}

/// The state after each registry page of `bodies` was asked for and came back, in turn.
pub open spec fn after_pages(q: QueueModel, bodies: Seq<Seq<char>>) -> QueueModel
    decreases bodies.len(),
{
    if bodies.len() == 0 {
        q
    } else {
        after_pages(fetched_model(after_action(q), Some(bodies[0])), bodies.drop_first())
    }
}

proof fn lemma_first_live(repos: Seq<RepoModel>)
    ensures
        first_step(repos) is Some ==> first_step(repos) == Some(repo_step(first_live(repos)))
            && !(repo_step(first_live(repos)) is Done) && repos_after(repos).len() > 0
            && repos_after(repos)[0] == repo_after(first_live(repos)),
        (forall|i: int| 0 <= i < repos.len() ==> repo_model_wf(#[trigger] repos[i])) ==> (
        forall|i: int| 0 <= i < repos_after(repos).len() ==> repo_model_wf(
            #[trigger] repos_after(repos)[i],
        )) && (first_step(repos) is Some ==> repo_model_wf(first_live(repos))),
    decreases repos.len(),
{
    if repos.len() > 0 {
        let rest = repos.drop_first();
        lemma_first_live(rest);
        if (forall|i: int| 0 <= i < repos.len() ==> repo_model_wf(#[trigger] repos[i])) {
            assert forall|i: int| 0 <= i < rest.len() implies repo_model_wf(#[trigger] rest[i]) by {
                assert(rest[i] == repos[i + 1]);
            }
            if repo_step(repos[0]) is Done {
                assert(repos_after(repos) == repos_after(rest));
                assert(first_live(repos) == first_live(rest));
                assert(first_step(repos) == first_step(rest));
            } else {
                assert(repo_model_wf(repos[0]));
                lemma_repo_steps_wf(repos[0], Seq::empty());
                let ra = repos_after(repos);
                assert forall|i: int| 0 <= i < ra.len() implies repo_model_wf(#[trigger] ra[i]) by {
                    if i > 0 {
                        assert(ra[i] == repos[i]);
                    }
                }
            }
        }
    }
}

/// Every line the producer delivers is trimmed, 10 to 80 bytes long and not a `//`
/// comment. A new producer holds no line; every transition (a step, a page taken back,
/// cancelling) keeps every held line qualifying; and a line delivered from such a state
/// qualifies.
pub proof fn lemma_delivered_lines_qualify(q: QueueModel, body: Option<Seq<char>>)
    requires
        queue_wf(q),
    ensures
        action_of(q) is Deliver ==> qualifies(action_of(q)->Deliver_0),
        queue_wf(after_action(q)),
        queue_wf(fetched_model(q, body)),
        queue_wf(QueueModel { cancelled: true, ..q }),
        queue_wf(LineQueue::initial(q.cap)),
{
    lemma_first_live(q.repos);
    if first_step(q.repos) is Some {
        lemma_repo_steps_wf(first_live(q.repos), Seq::empty());
    }
    if q.repos.len() > 0 {
        assert(repo_model_wf(q.repos[0]));
        let b = match body {
            Some(b) => b,
            None => Seq::empty(),
        };
        lemma_repo_steps_wf(q.repos[0], b);
        let f = fetched_model(q, body);
        assert forall|i: int| 0 <= i < f.repos.len() implies repo_model_wf(#[trigger] f.repos[i]) by {
            if i > 0 {
                assert(f.repos[i] == q.repos[i]);
            }
        }
    } else {
        let f = fetched_model(q, body);
        assert forall|i: int| 0 <= i < f.repos.len() implies repo_model_wf(#[trigger] f.repos[i]) by {
            let st = f.repos[i].stack;
            assert forall|k: int| 0 <= k < st.len() implies crate::fetch::folder_model_wf(#[trigger] st[k]) by {
                assert(st[k].files.len() == 0);
            }
        }
    }
}

/// While the current file still has lines `ls`, the next `k <= |ls|` steps deliver
/// `ls[0]`, ..., `ls[k - 1]` in order, each tagged with the repository's id: a file's lines
/// come out together, and no other file's line comes between them.
pub proof fn lemma_file_lines_contiguous(q: QueueModel, ls: Seq<Seq<char>>, k: nat)
    requires
        !q.cancelled,
        q.repos.len() > 0,
        q.repos[0].stack.len() > 0,
        q.repos[0].stack.last().files.len() > 0,
        q.repos[0].stack.last().files[0] == FileModel::Lines(ls),
        k <= ls.len(),
    ensures
        run(q, k) == Seq::new(k, |i: int| Step::Deliver(ls[i], q.repos[0].source)),
    decreases k,
{
    if k > 0 {
        let r = q.repos[0];
        let s = r.stack;
        let top = s.last();
        assert(crate::fetch::settle(s) == s);
        assert(repo_step(r) == Step::Deliver(ls[0], r.source));
        assert(action_of(q) == Step::Deliver(ls[0], r.source));
        let q2 = after_action(q);
        let t2 = FolderModel { files: top.files.update(0, FileModel::Lines(ls.drop_first())), folders: top.folders };
        assert(q2.repos[0] == RepoModel { source: r.source, stack: crate::fetch::with_top(s, t2) });
        assert(q2.repos[0].stack.last() == t2);
        lemma_file_lines_contiguous(q2, ls.drop_first(), (k - 1) as nat);
        assert(run(q, k) =~= Seq::new(k, |i: int| Step::Deliver(ls[i], r.source)));
    }
}

/// Once the consumer has cancelled, the producer only stops: every later step is a stop,
/// so no page is asked for and no line delivered, and taking a page back changes nothing.
pub proof fn lemma_cancel_is_final(q: QueueModel, k: nat, body: Option<Seq<char>>)
    requires
        q.cancelled,
    ensures
        run(q, k) == Seq::new(k, |i: int| Step::Stop),
        after_action(q) == q,
        fetched_model(q, body) == q,
    decreases k,
{
    if k > 0 {
        lemma_cancel_is_final(q, (k - 1) as nat, body);
        assert(run(q, k) =~= Seq::new(k, |i: int| Step::Stop));
    }
}

/// With no repository in hand, a run of registry pages that list no usable repository, as
/// many as the cap allows, ends the stream: the producer then reports the registry
/// exhausted instead of asking for another page.
pub proof fn lemma_empty_pages_exhaust(q: QueueModel, bodies: Seq<Seq<char>>)
    requires
        !q.cancelled,
        !q.exhausted,
        q.repos.len() == 0,
        q.empty_pages < q.cap,
        bodies.len() == q.cap - q.empty_pages,
        q.page_no + bodies.len() < u32::MAX,
        forall|i: int| 0 <= i < bodies.len() ==> (#[trigger] page_repos(bodies[i])).len() == 0,
    ensures
        action_of(after_pages(q, bodies)) == Step::Exhausted,
    decreases bodies.len(),
{
    assert(first_step(q.repos) is None);
    assert(repos_after(q.repos) == q.repos);
    assert(after_action(q) == q);
    assert(page_repos(bodies[0]).len() == 0);
    let q2 = fetched_model(q, Some(bodies[0]));
    assert(q2.repos =~= Seq::<RepoModel>::empty());
    if bodies.len() > 1 {
        let rest = bodies.drop_first();
        assert forall|i: int| 0 <= i < rest.len() implies (#[trigger] page_repos(rest[i])).len() == 0 by {
            assert(rest[i] == bodies[i + 1]);
        }
        lemma_empty_pages_exhaust(q2, rest);
    } else {
        assert(after_pages(q2, bodies.drop_first()) == q2);
        assert(first_step(q2.repos) is None);
    }
}

/// A file's raw content is fetched once: when it comes back holding qualifying lines, the
/// very next step delivers the first of them, with no other fetch in between.
pub proof fn lemma_raw_content_fetched_once(q: QueueModel, content: Seq<char>)
    requires
        !q.cancelled,
        action_of(q) is Raw,
        crate::text::qualifying_lines_of(content).len() > 0,
    ensures
        action_of(fetched_model(after_action(q), Some(content))) == Step::Deliver(
            crate::text::qualifying_lines_of(content)[0],
            first_live(q.repos).source,
        ),
{
    lemma_first_live(q.repos);
    let r = first_live(q.repos);
    let s = crate::fetch::settle(r.stack);
    crate::fetch::lemma_settle_idempotent(r.stack);
    let q2 = after_action(q);
    assert(q2.repos[0] == RepoModel { source: r.source, stack: s });
    assert(repo_step(q2.repos[0]) == repo_step(r));
    let ls = crate::text::qualifying_lines_of(content);
    let q3 = fetched_model(q2, Some(content));
    let top = s.last();
    let t3 = FolderModel { files: top.files.update(0, FileModel::Lines(ls)), folders: top.folders };
    assert(q3.repos[0].stack == crate::fetch::with_top(s, t3));
    let s3 = q3.repos[0].stack;
    assert(s3.last() == t3);
    assert(crate::fetch::settle(s3) == s3);
    assert(repo_step(q3.repos[0]) == Step::Deliver(ls[0], r.source));
}

} // verus!
