//! Lazy traversal of one repository's file tree.
//!
//! A repository is walked depth first with an explicit stack of folder levels. Within a level
//! every file is drained, head first, before the level's subfolders are entered; a drained file
//! or level is dropped and never read again. Nothing here touches the network: a traversal
//! says which page it needs next, and is handed that page's text back.
use std::collections::VecDeque;

use vstd::prelude::*;

use crate::parse::{file_links, folder_links, raw_content_url, raw_link, raw_url_href, read_listing, row_header_anchors};
use crate::text::{qualifies, qualifying_lines, qualifying_lines_of, string_views};
use crate::SrcString;

verus! {

/// A reference that is either still an address or already the thing it points to.
#[derive(Debug)]
pub enum UrlResource<T> {
    Resource(T),
    Url(String),
}

/// The remaining qualifying lines of one source file.
#[derive(Debug)]
pub struct File {
    lines: VecDeque<String>,
}

/// One directory level: its files, then the addresses of its subfolders, both in page order.
#[derive(Debug)]
pub struct Folder {
    files: VecDeque<UrlResource<File>>,
    folders: VecDeque<String>,
    /// The raw-content address of the head file, once its page has been read.
    head_raw: Option<String>,
}

/// A package's repository: its id and the folder levels being walked, outermost first.
#[derive(Debug)]
pub struct Repo {
    source: String,
    stack: Vec<Folder>,
}

/// What a file reference stands for: a page to read, raw content to fetch, or lines.
pub enum FileModel {
    Page(Seq<char>),
    Raw(Seq<char>),
    Lines(Seq<Seq<char>>),
}

pub struct FolderModel {
    pub files: Seq<FileModel>,
    pub folders: Seq<Seq<char>>,
}

pub struct RepoModel {
    pub source: Seq<char>,
    pub stack: Seq<FolderModel>,
}

/// What a traversal, or the whole stream, does next.
pub enum Step {
    /// Hand a line `(text, origin)` to the consumer.
    Deliver(Seq<char>, Seq<char>),
    /// Fetch the registry page with this number.
    Registry(nat),
    /// Fetch a directory listing.
    Listing(Seq<char>),
    /// Fetch a file's page, to find its raw-content address.
    FilePage(Seq<char>),
    /// Fetch a file's raw content.
    Raw(Seq<char>),
    /// The registry has run dry: the stream ends.
    Exhausted,
    /// The consumer is gone: nothing more is done.
    Stop,
    /// This repository has nothing left.
    Done,
}

/// A page that the library needs fetched.
#[derive(Debug)]
pub enum Request {
    RegistryPage(u32),
    Listing(String),
    FilePage(String),
    RawContent(String),
}

/// What one repository gives next.
#[derive(Debug)]
pub enum RepoStep {
    Line(SrcString),
    Fetch(Request),
    Done,
}

pub open spec fn request_step(r: Request) -> Step {
    match r {
        Request::RegistryPage(n) => Step::Registry(n as nat),
        Request::Listing(u) => Step::Listing(u@),
        Request::FilePage(u) => Step::FilePage(u@),
        Request::RawContent(u) => Step::Raw(u@),
    }
}

pub open spec fn repo_step_view(r: RepoStep) -> Step {
    match r {
        RepoStep::Line(l) => Step::Deliver(l.string@, l.source@),
        RepoStep::Fetch(q) => request_step(q),
        RepoStep::Done => Step::Done,
    }
}

pub open spec fn lines_qualify(ls: Seq<Seq<char>>) -> bool {
    forall|i: int| 0 <= i < ls.len() ==> qualifies(#[trigger] ls[i])
}

pub open spec fn file_model_wf(f: FileModel) -> bool {
    f is Lines ==> lines_qualify(f->Lines_0)
}

pub open spec fn folder_model_wf(f: FolderModel) -> bool {
    forall|i: int| 0 <= i < f.files.len() ==> file_model_wf(#[trigger] f.files[i])
}

pub open spec fn stack_wf(s: Seq<FolderModel>) -> bool {
    forall|i: int| 0 <= i < s.len() ==> folder_model_wf(#[trigger] s[i])
}

/// Every line a repository still holds qualifies.
pub open spec fn repo_model_wf(m: RepoModel) -> bool {
    stack_wf(m.stack)
}

pub open spec fn top_files_len(s: Seq<FolderModel>) -> nat {
    if s.len() > 0 {
        s.last().files.len()
    } else {
        0
    }
}

pub open spec fn drained(f: FileModel) -> bool {
    f is Lines && f->Lines_0.len() == 0
}

/// `s` with its innermost level replaced by `f`.
pub open spec fn with_top(s: Seq<FolderModel>, f: FolderModel) -> Seq<FolderModel> {
    s.drop_last().push(f)
}

/// Drops drained head files and empty levels until the innermost level has something to
/// give, or nothing is left.
pub open spec fn settle(s: Seq<FolderModel>) -> Seq<FolderModel>
    decreases s.len(), top_files_len(s),
{
    if s.len() == 0 {
        s
    } else {
        let top = s.last();
        if top.files.len() > 0 {
            if drained(top.files[0]) {
                settle(with_top(s, FolderModel { files: top.files.drop_first(), folders: top.folders }))
            } else {
                s
            }
        } else if top.folders.len() > 0 {
            s
        } else {
            settle(s.drop_last())
        }
    }
}

/// What a settled stack gives next.
pub open spec fn frame_step(s: Seq<FolderModel>, source: Seq<char>) -> Step {
    if s.len() == 0 {
        Step::Done
    } else {
        let top = s.last();
        if top.files.len() > 0 {
            match top.files[0] {
                FileModel::Page(u) => Step::FilePage(u),
                FileModel::Raw(u) => Step::Raw(u),
                FileModel::Lines(ls) => Step::Deliver(ls[0], source),
            }
        } else if top.folders.len() > 0 {
            Step::Listing(top.folders[0])
        } else {
            Step::Done
        }
    }
}

/// What a repository gives next.
pub open spec fn repo_step(m: RepoModel) -> Step {
    frame_step(settle(m.stack), m.source)
}

/// A repository after it has given its next step.
pub open spec fn repo_after(m: RepoModel) -> RepoModel {
    let s = settle(m.stack);
    match repo_step(m) {
        Step::Deliver(_, _) => {
            let top = s.last();
            let ls = top.files[0]->Lines_0;
            RepoModel {
                source: m.source,
                stack: with_top(
                    s,
                    FolderModel {
                        files: top.files.update(0, FileModel::Lines(ls.drop_first())),
                        folders: top.folders,
                    },
                ),
            }
        },
        _ => RepoModel { source: m.source, stack: s },
    }
}

/// The level that a directory listing page describes: all its files still to be read.
pub open spec fn listing_model(html: Seq<char>) -> FolderModel {
    FolderModel {
        files: file_links(row_header_anchors(html)).map_values(|u: Seq<char>| FileModel::Page(u)),
        folders: folder_links(row_header_anchors(html)),
    }
}

/// What a file's page turns the file into: raw content to fetch, or no lines at all.
pub open spec fn file_page_model(html: Seq<char>) -> FileModel {
    match raw_link(raw_url_href(html)) {
        Some(u) => FileModel::Raw(u),
        None => FileModel::Lines(Seq::empty()),
    }
}

/// A repository after the page that its next step asks for has come back as `body`.
pub open spec fn repo_fetched(m: RepoModel, body: Seq<char>) -> RepoModel {
    let s = settle(m.stack);
    let top = s.last();
    match repo_step(m) {
        Step::FilePage(_) => RepoModel {
            source: m.source,
            stack: with_top(
                s,
                FolderModel { files: top.files.update(0, file_page_model(body)), folders: top.folders },
            ),
        },
        Step::Raw(_) => RepoModel {
            source: m.source,
            stack: with_top(
                s,
                FolderModel {
                    files: top.files.update(0, FileModel::Lines(qualifying_lines_of(body))),
                    folders: top.folders,
                },
            ),
        },
        Step::Listing(_) => RepoModel {
            source: m.source,
            stack: with_top(
                s,
                FolderModel { files: top.files, folders: top.folders.drop_first() },
            ).push(listing_model(body)),
        },
        _ => RepoModel { source: m.source, stack: s },
    }
}

/// A repository after giving up on the reference that its next step asks for.
pub open spec fn repo_skipped(m: RepoModel) -> RepoModel {
    let s = settle(m.stack);
    let top = s.last();
    match repo_step(m) {
        Step::FilePage(_) | Step::Raw(_) => RepoModel {
            source: m.source,
            stack: with_top(s, FolderModel { files: top.files.drop_first(), folders: top.folders }),
        },
        Step::Listing(_) => RepoModel {
            source: m.source,
            stack: with_top(s, FolderModel { files: top.files, folders: top.folders.drop_first() }),
        },
        _ => RepoModel { source: m.source, stack: s },
    }
}

pub open spec fn file_model(r: UrlResource<File>) -> FileModel {
    match r {
        UrlResource::Resource(f) => FileModel::Lines(f@),
        UrlResource::Url(u) => FileModel::Page(u@),
    }
}

pub open spec fn file_models(v: Seq<UrlResource<File>>) -> Seq<FileModel> {
    v.map_values(|r: UrlResource<File>| file_model(r))
}

pub open spec fn folder_models(v: Seq<Folder>) -> Seq<FolderModel> {
    v.map_values(|f: Folder| f@)
}

impl View for File {
    type V = Seq<Seq<char>>;

    closed spec fn view(&self) -> Seq<Seq<char>> {
        string_views(self.lines@)
    }
}

impl View for Folder {
    type V = FolderModel;

    closed spec fn view(&self) -> FolderModel {
        let fs = file_models(self.files@);
        FolderModel {
            files: match self.head_raw {
                Some(raw) => fs.update(0, FileModel::Raw(raw@)),
                None => fs,
            },
            folders: string_views(self.folders@),
        }
    }
}

impl View for Repo {
    type V = RepoModel;

    closed spec fn view(&self) -> RepoModel {
        RepoModel { source: self.source@, stack: folder_models(self.stack@) }
    }
}

impl File {
    /// The qualifying lines of a file's raw content.
    pub fn new(content: &str) -> (r: File)
        ensures
            r@ == qualifying_lines_of(content@),
            lines_qualify(r@),
    {
        File { lines: qualifying_lines(content) }
    }

    /// Takes the next line of the file, if any is left.
    pub fn get_line(&mut self) -> (r: Option<String>)
        ensures
            old(self)@.len() == 0 ==> r is None && final(self)@ == old(self)@,
            old(self)@.len() > 0 ==> r is Some && r->Some_0@ == old(self)@[0] && final(self)@
                == old(self)@.drop_first(),
    {
        let r = self.lines.pop_front();
        proof {
            if old(self).lines@.len() > 0 {
                assert(string_views(self.lines@) =~= string_views(old(self).lines@).drop_first());
            }
        }
        r
    }
}

impl Folder {
    pub closed spec fn inv(&self) -> bool {
        self.head_raw is Some ==> self.files@.len() > 0 && self.files@[0] is Url
    }

    /// The level that a directory listing page describes.
    pub fn new(html: &str) -> (r: Folder)
        ensures
            r.inv(),
            r@ == listing_model(html@),
    {
        let (file_urls, folder_urls) = read_listing(html);
        let mut files: VecDeque<UrlResource<File>> = VecDeque::new();
        let mut folders: VecDeque<String> = VecDeque::new();
        let ghost fm = listing_model(html@);
        proof {
            assert(fm.files.len() == string_views(file_urls@).len());
            assert(fm.folders.len() == string_views(folder_urls@).len());
        }
        let mut i: usize = 0;
        while i < file_urls.len()
            invariant
                i <= file_urls@.len(),
                string_views(file_urls@) == file_links(row_header_anchors(html@)),
                fm == listing_model(html@),
                fm.files.len() == file_urls@.len(),
                file_models(files@) =~= fm.files.subrange(0, i as int),
            decreases file_urls@.len() - i,
        {
            let ghost prev = files@;
            files.push_back(UrlResource::Url(file_urls[i].clone()));
            proof {
                assert(string_views(file_urls@)[i as int] == file_urls@[i as int]@);
                assert(fm.files[i as int] == FileModel::Page(file_urls@[i as int]@));
                assert(file_models(files@) =~= file_models(prev).push(FileModel::Page(file_urls@[i as int]@)));
                assert(fm.files.subrange(0, i + 1) =~= fm.files.subrange(0, i as int).push(fm.files[i as int]));
            }
            i = i + 1;
        }
        let mut j: usize = 0;
        while j < folder_urls.len()
            invariant
                j <= folder_urls@.len(),
                string_views(folder_urls@) == folder_links(row_header_anchors(html@)),
                fm == listing_model(html@),
                fm.folders.len() == folder_urls@.len(),
                string_views(folders@) =~= fm.folders.subrange(0, j as int),
            decreases folder_urls@.len() - j,
        {
            let ghost prev = folders@;
            folders.push_back(folder_urls[j].clone());
            proof {
                assert(string_views(folder_urls@)[j as int] == folder_urls@[j as int]@);
                assert(string_views(folders@) =~= string_views(prev).push(folder_urls@[j as int]@));
                assert(fm.folders.subrange(0, j + 1) =~= fm.folders.subrange(0, j as int).push(fm.folders[j as int]));
            }
            j = j + 1;
        }
        let r = Folder { files, folders, head_raw: None };
        proof {
            assert(r@.files =~= fm.files);
            assert(r@.folders =~= fm.folders);
        }
        r
    }
}

/// A settled stack is empty, or its innermost level has a head file that is not drained, or
/// no files and a subfolder.
pub proof fn lemma_settle_shape(s: Seq<FolderModel>)
    ensures
        settle(s).len() <= s.len(),
        settle(s).len() > 0 ==> {
            let top = settle(s).last();
            (top.files.len() > 0 && !drained(top.files[0])) || (top.files.len() == 0
                && top.folders.len() > 0)
        },
    decreases s.len(), top_files_len(s),
{
    if s.len() > 0 {
        let top = s.last();
        if top.files.len() > 0 {
            if drained(top.files[0]) {
                lemma_settle_shape(
                    with_top(s, FolderModel { files: top.files.drop_first(), folders: top.folders }),
                );
            }
        } else if top.folders.len() == 0 {
            lemma_settle_shape(s.drop_last());
        }
    }
}

/// Settling twice is settling once.
pub proof fn lemma_settle_idempotent(s: Seq<FolderModel>)
    ensures
        settle(settle(s)) == settle(s),
    decreases s.len(), top_files_len(s),
{
    if s.len() > 0 {
        let top = s.last();
        if top.files.len() > 0 {
            if drained(top.files[0]) {
                lemma_settle_idempotent(
                    with_top(s, FolderModel { files: top.files.drop_first(), folders: top.folders }),
                );
            }
        } else if top.folders.len() == 0 {
            lemma_settle_idempotent(s.drop_last());
        }
    }
}

/// Settling keeps every held line qualifying.
pub proof fn lemma_settle_wf(s: Seq<FolderModel>)
    requires
        stack_wf(s),
    ensures
        stack_wf(settle(s)),
    decreases s.len(), top_files_len(s),
{
    if s.len() > 0 {
        let top = s.last();
        if top.files.len() > 0 {
            if drained(top.files[0]) {
                let t = FolderModel { files: top.files.drop_first(), folders: top.folders };
                let s2 = with_top(s, t);
                assert(folder_model_wf(s[s.len() - 1]));
                assert(folder_model_wf(t)) by {
                    assert forall|i: int| 0 <= i < t.files.len() implies file_model_wf(#[trigger] t.files[i]) by {
                        assert(t.files[i] == top.files[i + 1]);
                    }
                }
                assert forall|i: int| 0 <= i < s2.len() implies folder_model_wf(#[trigger] s2[i]) by {
                    if i < s.len() - 1 {
                        assert(s2[i] == s[i]);
                    }
                }
                lemma_settle_wf(s2);
            }
        } else if top.folders.len() == 0 {
            let s2 = s.drop_last();
            assert forall|i: int| 0 <= i < s2.len() implies folder_model_wf(#[trigger] s2[i]) by {
                assert(s2[i] == s[i]);
            }
            lemma_settle_wf(s2);
        }
    }
}

/// Replacing the innermost level of a well-formed stack by a well-formed level keeps it
/// well-formed.
pub proof fn lemma_with_top_wf(s: Seq<FolderModel>, f: FolderModel)
    requires
        s.len() > 0,
        stack_wf(s),
        folder_model_wf(f),
    ensures
        stack_wf(with_top(s, f)),
{
    let s2 = with_top(s, f);
    assert forall|i: int| 0 <= i < s2.len() implies folder_model_wf(#[trigger] s2[i]) by {
        if i < s.len() - 1 {
            assert(s2[i] == s[i]);
        }
    }
}

/// Updating one file of a well-formed level with a well-formed file keeps it well-formed.
pub proof fn lemma_update_file_wf(f: FolderModel, k: int, x: FileModel)
    requires
        0 <= k < f.files.len(),
        folder_model_wf(f),
        file_model_wf(x),
    ensures
        folder_model_wf(FolderModel { files: f.files.update(k, x), folders: f.folders }),
{
    let g = FolderModel { files: f.files.update(k, x), folders: f.folders };
    assert forall|i: int| 0 <= i < g.files.len() implies file_model_wf(#[trigger] g.files[i]) by {
        if i != k {
            assert(g.files[i] == f.files[i]);
        }
    }
}

/// Dropping the head file of a well-formed level keeps it well-formed.
pub proof fn lemma_drop_file_wf(f: FolderModel)
    requires
        f.files.len() > 0,
        folder_model_wf(f),
    ensures
        folder_model_wf(FolderModel { files: f.files.drop_first(), folders: f.folders }),
{
    let g = FolderModel { files: f.files.drop_first(), folders: f.folders };
    assert forall|i: int| 0 <= i < g.files.len() implies file_model_wf(#[trigger] g.files[i]) by {
        assert(g.files[i] == f.files[i + 1]);
    }
}

/// Every step of a repository keeps every held line qualifying, and a delivered line
/// qualifies.
pub proof fn lemma_repo_steps_wf(m: RepoModel, body: Seq<char>)
    requires
        repo_model_wf(m),
    ensures
        repo_model_wf(repo_after(m)),
        repo_model_wf(repo_fetched(m, body)),
        repo_model_wf(repo_skipped(m)),
        repo_step(m) is Deliver ==> qualifies(repo_step(m)->Deliver_0),
{
    let s = settle(m.stack);
    lemma_settle_wf(m.stack);
    lemma_settle_shape(m.stack);
    if s.len() > 0 {
        let top = s.last();
        assert(folder_model_wf(s[s.len() - 1]));
        if top.files.len() > 0 {
            assert(file_model_wf(top.files[0]));
            match top.files[0] {
                FileModel::Lines(ls) => {
                    assert(qualifies(ls[0]));
                    assert(lines_qualify(ls.drop_first())) by {
                        assert forall|i: int| 0 <= i < ls.drop_first().len() implies qualifies(
                            #[trigger] ls.drop_first()[i],
                        ) by {
                            assert(ls.drop_first()[i] == ls[i + 1]);
                        }
                    }
                    lemma_update_file_wf(top, 0, FileModel::Lines(ls.drop_first()));
                    lemma_with_top_wf(
                        s,
                        FolderModel {
                            files: top.files.update(0, FileModel::Lines(ls.drop_first())),
                            folders: top.folders,
                        },
                    );
                },
                FileModel::Page(_) => {
                    assert(file_model_wf(file_page_model(body)));
                    lemma_update_file_wf(top, 0, file_page_model(body));
                    lemma_with_top_wf(
                        s,
                        FolderModel { files: top.files.update(0, file_page_model(body)), folders: top.folders },
                    );
                    lemma_drop_file_wf(top);
                    lemma_with_top_wf(
                        s,
                        FolderModel { files: top.files.drop_first(), folders: top.folders },
                    );
                },
                FileModel::Raw(_) => {
                    crate::text::lemma_kept_lines_qualify(crate::text::split_lines(body));
                    let x = FileModel::Lines(qualifying_lines_of(body));
                    assert(file_model_wf(x));
                    lemma_update_file_wf(top, 0, x);
                    lemma_with_top_wf(
                        s,
                        FolderModel { files: top.files.update(0, x), folders: top.folders },
                    );
                    lemma_drop_file_wf(top);
                    lemma_with_top_wf(
                        s,
                        FolderModel { files: top.files.drop_first(), folders: top.folders },
                    );
                },
            }
        } else {
            let t = FolderModel { files: top.files, folders: top.folders.drop_first() };
            lemma_with_top_wf(s, t);
            let s2 = with_top(s, t).push(listing_model(body));
            assert(folder_model_wf(listing_model(body))) by {
                let fs = listing_model(body).files;
                assert forall|i: int| 0 <= i < fs.len() implies file_model_wf(#[trigger] fs[i]) by {
                    assert(fs[i] is Page);
                }
            }
            assert forall|i: int| 0 <= i < s2.len() implies folder_model_wf(#[trigger] s2[i]) by {
                if i < s2.len() - 1 {
                    assert(s2[i] == with_top(s, t)[i]);
                }
            }
        }
    }
}

impl Repo {
    pub closed spec fn inv(&self) -> bool {
        forall|i: int| 0 <= i < self.stack@.len() ==> (#[trigger] self.stack@[i]).inv()
    }

    /// A repository whose root listing is at `url`, its lines tagged with `source`.
    pub fn new(source: String, url: String) -> (r: Repo)
        ensures
            r.inv(),
            r@ == (RepoModel {
                source: source@,
                stack: seq![FolderModel { files: Seq::empty(), folders: seq![url@] }],
            }),
    {
        let mut folders: VecDeque<String> = VecDeque::new();
        folders.push_back(url);
        let root = Folder { files: VecDeque::new(), folders, head_raw: None };
        let mut stack: Vec<Folder> = Vec::new();
        stack.push(root);
        let r = Repo { source, stack };
        proof {
            assert(r@.stack[0].files =~= Seq::<FileModel>::empty());
            assert(r@.stack[0].folders =~= seq![url@]);
            assert(r@.stack =~= seq![FolderModel { files: Seq::empty(), folders: seq![url@] }]);
        }
        r
    }

    /// Drops drained head files and empty levels.
    fn settle(&mut self)
        requires
            old(self).inv(),
        ensures
            final(self).inv(),
            final(self)@ == (RepoModel { source: old(self)@.source, stack: settle(old(self)@.stack) }),
    {
        loop
            invariant
                self.inv(),
                self@.source == old(self)@.source,
                settle(self@.stack) == settle(old(self)@.stack),
            decreases self@.stack.len(), top_files_len(self@.stack),
        {
            let ghost before = self@.stack;
            let ghost vs = self.stack@;
            let mut top = match self.stack.pop() {
                Some(t) => t,
                None => {
                    return ;
                },
            };
            proof {
                assert(self@.stack =~= before.drop_last());
                assert(top@ == before.last());
                assert(top.inv());
            }
            if top.files.len() > 0 {
                let drop = match &top.files[0] {
                    UrlResource::Resource(f) => f.lines.len() == 0,
                    UrlResource::Url(_) => false,
                };
                if drop {
                    let ghost old_files = top.files@;
                    top.files.pop_front();
                    proof {
                        assert(file_models(top.files@) =~= file_models(old_files).drop_first());
                        assert(top@ == FolderModel { files: before.last().files.drop_first(), folders: before.last().folders });
                    }
                    self.stack.push(top);
                    proof {
                        assert(self@.stack =~= with_top(before, top@));
                        assert forall|i: int| 0 <= i < self.stack@.len() implies (#[trigger] self.stack@[i]).inv() by {
                            if i < self.stack@.len() - 1 {
                                assert(self.stack@[i] == vs[i]);
                            }
                        }
                    }
                } else {
                    self.stack.push(top);
                    proof {
                        assert(self.stack@ =~= vs);
                        assert(self@.stack =~= before);
                    }
                    return ;
                }
            } else if top.folders.len() > 0 {
                self.stack.push(top);
                proof {
                    assert(self.stack@ =~= vs);
                    assert(self@.stack =~= before);
                }
                return ;
            } else {
                proof {
                    assert forall|i: int| 0 <= i < self.stack@.len() implies (#[trigger] self.stack@[i]).inv() by {
                        assert(self.stack@[i] == vs[i]);
                    }
                }
            }
        }
    }

    /// Pushing back a popped level: the stack's view is its rest with that level's view on
    /// top.
    proof fn lemma_restack(vs: Seq<Folder>, top: Folder, after: Seq<Folder>)
        requires
            vs.len() > 0,
            after == vs.drop_last().push(top),
            forall|i: int| 0 <= i < vs.len() ==> (#[trigger] vs[i]).inv(),
            top.inv(),
        ensures
            folder_models(after) == with_top(folder_models(vs), top@),
            forall|i: int| 0 <= i < after.len() ==> (#[trigger] after[i]).inv(),
    {
        assert(folder_models(after) =~= with_top(folder_models(vs), top@));
        assert forall|i: int| 0 <= i < after.len() implies (#[trigger] after[i]).inv() by {
            if i < after.len() - 1 {
                assert(after[i] == vs[i]);
            }
        }
    }

    /// The next step of this repository: a line to deliver, a page to fetch, or nothing left.
    /// A delivered line is taken from the head file of the innermost level.
    pub fn get_line(&mut self) -> (r: RepoStep)
        requires
            old(self).inv(),
        ensures
            final(self).inv(),
            repo_step_view(r) == repo_step(old(self)@),
            final(self)@ == repo_after(old(self)@),
    {
        self.settle();
        proof {
            lemma_settle_shape(old(self)@.stack);
        }
        let ghost vs = self.stack@;
        let ghost s = self@.stack;
        let mut top = match self.stack.pop() {
            Some(t) => t,
            None => {
                return RepoStep::Done;
            },
        };
        proof {
            assert(top@ == s.last());
            assert(top.inv());
            assert(folder_models(self.stack@) =~= s.drop_last());
        }
        if top.files.len() > 0 {
            let ghost old_files = top.files@;
            let head = top.files.pop_front();
            match head {
                Some(UrlResource::Resource(mut f)) => {
                    let line = f.get_line();
                    top.files.push_front(UrlResource::Resource(f));
                    proof {
                        assert(top.files@ =~= old_files.update(0, UrlResource::Resource(f)));
                        assert(file_models(top.files@) =~= file_models(old_files).update(0, FileModel::Lines(f@)));
                        assert(top.inv());
                    }
                    self.stack.push(top);
                    proof {
                        assert(self@.stack =~= with_top(s, top@));
                        assert forall|i: int| 0 <= i < self.stack@.len() implies (#[trigger] self.stack@[i]).inv() by {
                            if i < self.stack@.len() - 1 {
                                assert(self.stack@[i] == vs[i]);
                            }
                        }
                    }
                    match line {
                        Some(l) => RepoStep::Line(SrcString { string: l, source: self.source.clone() }),
                        None => {
                            proof {
                                assert(false);
                            }
                            RepoStep::Done
                        },
                    }
                },
                Some(UrlResource::Url(u)) => {
                    let req = match &top.head_raw {
                        Some(raw) => Request::RawContent(raw.clone()),
                        None => Request::FilePage(u.clone()),
                    };
                    top.files.push_front(UrlResource::Url(u));
                    proof {
                        assert(top.files@ =~= old_files);
                        assert(top@ == s.last());
                    }
                    self.stack.push(top);
                    proof {
                        Self::lemma_restack(vs, top, self.stack@);
                        assert(self@.stack =~= s);
                    }
                    RepoStep::Fetch(req)
                },
                None => {
                    proof {
                        assert(false);
                    }
                    RepoStep::Done
                },
            }
        } else {
            let req = Request::Listing(top.folders[0].clone());
            proof {
                assert(string_views(top.folders@)[0] == top.folders@[0]@);
            }
            self.stack.push(top);
            proof {
                Self::lemma_restack(vs, top, self.stack@);
                    assert(self@.stack =~= s);
            }
            RepoStep::Fetch(req)
        }
    }

    /// Takes in the page that the next step asks for: a file page gives the file's
    /// raw-content address (or no lines, where the page links none), raw content gives the
    /// file's lines, and a listing becomes the new innermost level.
    pub fn fetched(&mut self, body: &str)
        requires
            old(self).inv(),
        ensures
            final(self).inv(),
            final(self)@ == repo_fetched(old(self)@, body@),
    {
        self.settle();
        proof {
            lemma_settle_shape(old(self)@.stack);
        }
        let ghost vs = self.stack@;
        let ghost s = self@.stack;
        let mut top = match self.stack.pop() {
            Some(t) => t,
            None => {
                return ;
            },
        };
        let ghost t0 = top@;
        proof {
            assert(top@ == s.last());
            assert(top.inv());
            assert(folder_models(self.stack@) =~= s.drop_last());
        }
        if top.files.len() > 0 {
            let is_url = match &top.files[0] {
                UrlResource::Url(_) => true,
                UrlResource::Resource(_) => false,
            };
            if is_url {
                let ghost old_files = top.files@;
                let ghost old_raw = top.head_raw;
                if top.head_raw.is_none() {
                    match raw_content_url(body) {
                        Some(raw) => {
                            top.head_raw = Some(raw);
                        },
                        None => {
                            top.files.pop_front();
                            let empty = File { lines: VecDeque::new() };
                            proof {
                                assert(empty@ =~= Seq::<Seq<char>>::empty());
                            }
                            top.files.push_front(UrlResource::Resource(empty));
                            proof {
                                assert(file_models(top.files@) =~= file_models(old_files).update(0, FileModel::Lines(Seq::empty())));
                            }
                        },
                    }
                } else {
                    top.files.pop_front();
                    let file = File::new(body);
                    top.files.push_front(UrlResource::Resource(file));
                    top.head_raw = None;
                    proof {
                        assert(file_models(top.files@) =~= file_models(old_files).update(0, FileModel::Lines(qualifying_lines_of(body@))));
                    }
                }
                proof {
                    assert(top.inv());
                    if old_raw is None {
                        assert(t0.files[0] is Page);
                        assert(top@.files =~= t0.files.update(0, file_page_model(body@)));
                    } else {
                        assert(t0.files[0] is Raw);
                        assert(top@.files =~= t0.files.update(0, FileModel::Lines(qualifying_lines_of(body@))));
                    }
                }
                self.stack.push(top);
                proof {
                    assert(self@.stack =~= with_top(s, top@));
                    assert forall|i: int| 0 <= i < self.stack@.len() implies (#[trigger] self.stack@[i]).inv() by {
                        if i < self.stack@.len() - 1 {
                            assert(self.stack@[i] == vs[i]);
                        }
                    }
                }
            } else {
                self.stack.push(top);
                proof {
                    Self::lemma_restack(vs, top, self.stack@);
                    assert(self@.stack =~= s);
                    assert(t0.files[0] is Lines);
                }
            }
        } else {
            let ghost old_folders = top.folders@;
            top.folders.pop_front();
            proof {
                assert(string_views(top.folders@) =~= string_views(old_folders).drop_first());
                assert(top.inv());
            }
            self.stack.push(top);
            let ghost mid = self.stack@;
            proof {
                assert(self@.stack =~= with_top(s, top@));
                assert(top@.files =~= t0.files);
                assert(top@.folders =~= t0.folders.drop_first());
            }
            self.stack.push(Folder::new(body));
            proof {
                assert(folder_models(self.stack@) =~= folder_models(mid).push(listing_model(body@)));
                assert forall|i: int| 0 <= i < self.stack@.len() implies (#[trigger] self.stack@[i]).inv() by {
                    if i < self.stack@.len() - 2 {
                        assert(self.stack@[i] == vs[i]);
                    }
                }
            }
        }
    }

    /// Gives up on the reference that the next step asks for: a file page or raw content
    /// drops the head file, a listing drops the head subfolder.
    pub fn skip(&mut self)
        requires
            old(self).inv(),
        ensures
            final(self).inv(),
            final(self)@ == repo_skipped(old(self)@),
    {
        self.settle();
        proof {
            lemma_settle_shape(old(self)@.stack);
        }
        let ghost vs = self.stack@;
        let ghost s = self@.stack;
        let mut top = match self.stack.pop() {
            Some(t) => t,
            None => {
                return ;
            },
        };
        let ghost t0 = top@;
        proof {
            assert(top@ == s.last());
            assert(top.inv());
            assert(folder_models(self.stack@) =~= s.drop_last());
        }
        if top.files.len() > 0 {
            let is_url = match &top.files[0] {
                UrlResource::Url(_) => true,
                UrlResource::Resource(_) => false,
            };
            if is_url {
                let ghost old_files = top.files@;
                top.files.pop_front();
                top.head_raw = None;
                proof {
                    assert(file_models(top.files@) =~= file_models(old_files).drop_first());
                    assert(top@.files =~= t0.files.drop_first());
                }
            } else {
                proof {
                    assert(t0.files[0] is Lines);
                    assert(top@ == t0);
                    assert(with_top(s, top@) =~= s);
                }
            }
        } else {
            let ghost old_folders = top.folders@;
            top.folders.pop_front();
            proof {
                assert(string_views(top.folders@) =~= string_views(old_folders).drop_first());
                assert(top@.folders =~= t0.folders.drop_first());
                assert(top@.files =~= t0.files);
            }
        }
        proof {
            assert(top.inv());
        }
        self.stack.push(top);
        proof {
            assert(self@.stack =~= with_top(s, top@));
            assert forall|i: int| 0 <= i < self.stack@.len() implies (#[trigger] self.stack@[i]).inv() by {
                if i < self.stack@.len() - 1 {
                    assert(self.stack@[i] == vs[i]);
                }
            }
        }
    }
}

} // verus!
