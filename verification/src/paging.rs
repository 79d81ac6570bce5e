//! Sending large objects to peers page by page, and fetching them.

use crate::catalog::{
    announced_page_valid, checked_catalog_page_count, first_page_valid, hash_matches, joined,
    lemma_joined_upto, lemma_no_pages, next_page_valid, page, page_count, page_views, pages_of, split_pages,
    CatalogLimits, PageError,
};
use crate::commit::push_copies;
use crate::hashing::{content_hash, hash_of};
use crate::ids::Id32;
use vstd::prelude::*;

verus! {

/// A page that a peer handed out.
#[derive(Debug)]
pub struct ServedPage {
    /// How many pages the object has, as the peer says.
    pub total: u32,
    pub hash: Id32,
    pub bytes: Vec<u8>,
}

/// A page that a peer handed out, for contracts.
pub struct PageModel {
    pub total: u32,
    pub hash: Seq<u8>,
    pub bytes: Seq<u8>,
}

impl ServedPage {
    pub open spec fn view(&self) -> PageModel {
        PageModel { total: self.total, hash: self.hash@, bytes: self.bytes@ }
    }
}

/// How far the fetching of a prepared revision has come.
#[derive(Clone, Copy, Debug)]
pub enum RevisionStage {
    /// The node itself has prepared the revision.
    Local,
    /// This page comes next.
    Page(u32),
    Done,
    Failed(PageError),
}

/// What the fetching of a prepared revision needs next.
#[derive(Clone, Copy, Debug, PartialEq, Eq, Structural)]
pub enum RevisionAction {
    LoadLocal,
    AskPage(u32),
    /// The object is complete.
    Done,
    Failed(PageError),
}

/// What came of an action.
#[derive(Debug)]
pub enum RevisionEvent {
    Object(Vec<u8>),
    Page(ServedPage),
    Failed,
}

/// What came of an action, as a plain value.
pub enum RevisionEventModel {
    Object(Seq<u8>),
    Page(PageModel),
    Failed,
}

impl RevisionEvent {
    pub open spec fn view(&self) -> RevisionEventModel {
        match *self {
            RevisionEvent::Object(bytes) => RevisionEventModel::Object(bytes@),
            RevisionEvent::Page(page) => RevisionEventModel::Page(page@),
            RevisionEvent::Failed => RevisionEventModel::Failed,
        }
    }
}

/// A prepared revision that is being fetched. It was announced with the number
/// of its pages and its hash.
#[derive(Debug)]
pub struct RevisionFetch {
    limits: CatalogLimits,
    total: u32,
    hash: Id32,
    bytes: Vec<u8>,
    stage: RevisionStage,
}

/// A prepared revision that is being fetched, for contracts.
#[verifier::ext_equal]
pub struct RevisionModel {
    pub limits: CatalogLimits,
    pub total: u32,
    pub hash: Seq<u8>,
    pub bytes: Seq<u8>,
    pub stage: RevisionStage,
}

impl RevisionModel {
    pub open spec fn wf(self) -> bool {
        self.stage matches RevisionStage::Page(at) ==> at < self.total
    }

    /// What is needed next.
    pub open spec fn next(self) -> RevisionAction {
        match self.stage {
            RevisionStage::Local => RevisionAction::LoadLocal,
            RevisionStage::Page(at) => RevisionAction::AskPage(at),
            RevisionStage::Done => RevisionAction::Done,
            RevisionStage::Failed(error) => RevisionAction::Failed(error),
        }
    }

    pub open spec fn failed(self, error: PageError) -> RevisionModel {
        RevisionModel { stage: RevisionStage::Failed(error), ..self }
    }

    /// The fetching at a page, or behind the last: the object must be the one
    /// that was announced.
    pub open spec fn reached(self, at: int) -> RevisionModel {
        if at < self.total {
            RevisionModel { stage: RevisionStage::Page(at as u32), ..self }
        } else if hash_of(self.bytes) == self.hash {
            RevisionModel { stage: RevisionStage::Done, ..self }
        } else {
            self.failed(PageError::Object)
        }
    }

    /// The fetching after an event.
    pub open spec fn after(self, event: RevisionEventModel) -> RevisionModel {
        match (self.stage, event) {
            (RevisionStage::Done, _) => self,
            (RevisionStage::Failed(_), _) => self,
            (_, RevisionEventModel::Failed) => self.failed(PageError::Outside),
            (RevisionStage::Local, RevisionEventModel::Object(bytes)) => if hash_of(bytes)
                == self.hash {
                RevisionModel { bytes, stage: RevisionStage::Done, ..self }
            } else {
                self.failed(PageError::Object)
            },
            (RevisionStage::Page(at), RevisionEventModel::Page(page)) => if announced_page_valid(
                self.limits,
                self.total,
                self.bytes.len(),
                page.total,
                page.hash,
                page.bytes,
            ) {
                RevisionModel { bytes: self.bytes + page.bytes, ..self }.reached(at + 1)
            } else {
                self.failed(PageError::Page)
            },
            _ => self.failed(PageError::OutOfOrder),
        }
    }
}

/// The fetching of a prepared revision at its beginning.
pub open spec fn revision_wanted(
    limits: CatalogLimits,
    local: bool,
    total: u32,
    hash: Seq<u8>,
) -> RevisionModel {
    let start = RevisionModel {
        limits,
        total,
        hash,
        bytes: Seq::empty(),
        stage: RevisionStage::Local,
    };
    if local {
        start
    } else {
        start.reached(0)
    }
}

/// Begins to fetch the revision that its owner prepared for a job: from the node
/// itself where it is the owner, else page by page.
pub fn fetch_p2p_revision(
    limits: CatalogLimits,
    owner: &Id32,
    local: &Id32,
    total: u32,
    hash: Id32,
) -> (fetch: RevisionFetch)
    ensures
        fetch@ == revision_wanted(limits, *owner == *local, total, hash@),
        fetch@.wf(),
{
    let mut fetch = RevisionFetch {
        limits,
        total,
        hash,
        bytes: Vec::new(),
        stage: RevisionStage::Local,
    };
    assert(fetch@.bytes =~= Seq::empty());
    if !owner.equals(local) {
        fetch.go_to(0);
    }
    fetch
}

impl RevisionFetch {
    pub closed spec fn view(&self) -> RevisionModel {
        RevisionModel {
            limits: self.limits,
            total: self.total,
            hash: self.hash@,
            bytes: self.bytes@,
            stage: self.stage,
        }
    }

    /// What is needed next.
    pub fn next(&self) -> (action: RevisionAction)
        ensures
            action == self@.next(),
    {
        match self.stage {
            RevisionStage::Local => RevisionAction::LoadLocal,
            RevisionStage::Page(at) => RevisionAction::AskPage(at),
            RevisionStage::Done => RevisionAction::Done,
            RevisionStage::Failed(error) => RevisionAction::Failed(error),
        }
    }

    /// What came so far.
    pub fn bytes(&self) -> (bytes: &Vec<u8>)
        ensures
            bytes@ == self@.bytes,
    {
        &self.bytes
    }

    fn go_to(&mut self, at: u32)
        requires
            at <= old(self)@.total,
        ensures
            final(self)@ == old(self)@.reached(at as int),
            final(self)@.wf(),
    {
        if at < self.total {
            self.stage = RevisionStage::Page(at);
        } else if hash_matches(&self.hash, &self.bytes) {
            self.stage = RevisionStage::Done;
        } else {
            self.stage = RevisionStage::Failed(PageError::Object);
        }
    }

    fn take_page(&mut self, at: u32, served: ServedPage)
        requires
            old(self)@.wf(),
            old(self)@.stage == RevisionStage::Page(at),
        ensures
            final(self)@ == old(self)@.after(RevisionEventModel::Page(served@)),
            final(self)@.wf(),
    {
        if served.total != self.total || !hash_matches(&served.hash, &served.bytes)
            || served.bytes.len() > self.limits.page_bytes || self.bytes.len()
            > self.limits.max_bytes || served.bytes.len() > self.limits.max_bytes
            - self.bytes.len() {
            self.stage = RevisionStage::Failed(PageError::Page);
            return ;
        }
        push_copies(&mut self.bytes, &served.bytes);
        self.go_to(at + 1);
    }

    /// Takes what came of the last action.
    pub fn take(&mut self, event: RevisionEvent)
        requires
            old(self)@.wf(),
        ensures
            final(self)@ == old(self)@.after(event@),
            final(self)@.wf(),
    {
        match (self.stage, event) {
            (RevisionStage::Done, _) => {},
            (RevisionStage::Failed(_), _) => {},
            (_, RevisionEvent::Failed) => {
                self.stage = RevisionStage::Failed(PageError::Outside);
            },
            (RevisionStage::Local, RevisionEvent::Object(bytes)) => {
                if hash_matches(&self.hash, &bytes) {
                    self.bytes = bytes;
                    self.stage = RevisionStage::Done;
                } else {
                    self.stage = RevisionStage::Failed(PageError::Object);
                }
            },
            (RevisionStage::Page(at), RevisionEvent::Page(served)) => {
                self.take_page(at, served);
            },
            _ => {
                self.stage = RevisionStage::Failed(PageError::OutOfOrder);
            },
        }
    }
}

/// How far the fetching of a checkpoint has come.
#[derive(Clone, Copy, Debug)]
pub enum CheckpointStage {
    First,
    /// This page comes next.
    Page(u32),
    /// All pages are there.
    Decode,
    Done,
    Failed(PageError),
}

/// What the fetching of a checkpoint needs next.
#[derive(Clone, Copy, Debug, PartialEq, Eq, Structural)]
pub enum CheckpointAction {
    AskPage(u32),
    /// Decode the object.
    Decode,
    Done,
    Failed(PageError),
}

/// What came of an action.
#[derive(Debug)]
pub enum CheckpointEvent {
    Page(ServedPage),
    /// The object was decoded: whether it is certified, and its hash.
    Decoded { certified: bool, hash: Id32 },
    Failed,
}

/// What came of an action, as a plain value.
pub enum CheckpointEventModel {
    Page(PageModel),
    Decoded { certified: bool, hash: Id32 },
    Failed,
}

impl CheckpointEvent {
    pub open spec fn view(&self) -> CheckpointEventModel {
        match *self {
            CheckpointEvent::Page(page) => CheckpointEventModel::Page(page@),
            CheckpointEvent::Decoded { certified, hash } => CheckpointEventModel::Decoded {
                certified,
                hash,
            },
            CheckpointEvent::Failed => CheckpointEventModel::Failed,
        }
    }
}

/// A certified checkpoint that is being fetched. Its first page tells how many
/// there are.
#[derive(Debug)]
pub struct CheckpointFetch {
    limits: CatalogLimits,
    wanted: Id32,
    total: u32,
    bytes: Vec<u8>,
    stage: CheckpointStage,
}

/// A certified checkpoint that is being fetched, for contracts.
#[verifier::ext_equal]
pub struct CheckpointModel {
    pub limits: CatalogLimits,
    pub wanted: Id32,
    pub total: u32,
    pub bytes: Seq<u8>,
    pub stage: CheckpointStage,
}

impl CheckpointModel {
    pub open spec fn wf(self) -> bool {
        self.stage matches CheckpointStage::Page(at) ==> at < self.total
    }

    /// What is needed next.
    pub open spec fn next(self) -> CheckpointAction {
        match self.stage {
            CheckpointStage::First => CheckpointAction::AskPage(0),
            CheckpointStage::Page(at) => CheckpointAction::AskPage(at),
            CheckpointStage::Decode => CheckpointAction::Decode,
            CheckpointStage::Done => CheckpointAction::Done,
            CheckpointStage::Failed(error) => CheckpointAction::Failed(error),
        }
    }

    pub open spec fn failed(self, error: PageError) -> CheckpointModel {
        CheckpointModel { stage: CheckpointStage::Failed(error), ..self }
    }

    /// The fetching at a page, or behind the last.
    pub open spec fn reached(self, at: int) -> CheckpointModel {
        if at < self.total {
            CheckpointModel { stage: CheckpointStage::Page(at as u32), ..self }
        } else {
            CheckpointModel { stage: CheckpointStage::Decode, ..self }
        }
    }

    /// The fetching after an event.
    pub open spec fn after(self, event: CheckpointEventModel) -> CheckpointModel {
        match (self.stage, event) {
            (CheckpointStage::Done, _) => self,
            (CheckpointStage::Failed(_), _) => self,
            (_, CheckpointEventModel::Failed) => self.failed(PageError::Outside),
            (CheckpointStage::First, CheckpointEventModel::Page(page)) => if first_page_valid(
                self.limits,
                page.total,
                page.hash,
                page.bytes,
            ) {
                CheckpointModel { total: page.total, bytes: page.bytes, ..self }.reached(1)
            } else {
                self.failed(PageError::FirstPage)
            },
            (CheckpointStage::Page(at), CheckpointEventModel::Page(page)) => if next_page_valid(
                self.limits,
                self.total,
                self.bytes.len(),
                page.total,
                page.hash,
                page.bytes,
            ) {
                CheckpointModel { bytes: self.bytes + page.bytes, ..self }.reached(at + 1)
            } else {
                self.failed(PageError::Page)
            },
            (CheckpointStage::Decode, CheckpointEventModel::Decoded { certified, hash }) =>
                if !certified {
                self.failed(PageError::NotCertified)
            } else if hash != self.wanted {
                self.failed(PageError::Object)
            } else {
                CheckpointModel { stage: CheckpointStage::Done, ..self }
            },
            _ => self.failed(PageError::OutOfOrder),
        }
    }
}

/// The fetching of a checkpoint at its beginning.
pub open spec fn checkpoint_wanted(limits: CatalogLimits, wanted: Id32) -> CheckpointModel {
    CheckpointModel {
        limits,
        wanted,
        total: 0,
        bytes: Seq::empty(),
        stage: CheckpointStage::First,
    }
}

/// Begins to fetch the certified checkpoint with a hash.
pub fn fetch_p2p_checkpoint(limits: CatalogLimits, wanted: Id32) -> (fetch: CheckpointFetch)
    ensures
        fetch@ == checkpoint_wanted(limits, wanted),
        fetch@.wf(),
{
    let fetch = CheckpointFetch {
        limits,
        wanted,
        total: 0,
        bytes: Vec::new(),
        stage: CheckpointStage::First,
    };
    assert(fetch@ =~= checkpoint_wanted(limits, wanted));
    fetch
}

impl CheckpointFetch {
    pub closed spec fn view(&self) -> CheckpointModel {
        CheckpointModel {
            limits: self.limits,
            wanted: self.wanted,
            total: self.total,
            bytes: self.bytes@,
            stage: self.stage,
        }
    }

    /// What is needed next.
    pub fn next(&self) -> (action: CheckpointAction)
        ensures
            action == self@.next(),
    {
        match self.stage {
            CheckpointStage::First => CheckpointAction::AskPage(0),
            CheckpointStage::Page(at) => CheckpointAction::AskPage(at),
            CheckpointStage::Decode => CheckpointAction::Decode,
            CheckpointStage::Done => CheckpointAction::Done,
            CheckpointStage::Failed(error) => CheckpointAction::Failed(error),
        }
    }

    /// What came so far.
    pub fn bytes(&self) -> (bytes: &Vec<u8>)
        ensures
            bytes@ == self@.bytes,
    {
        &self.bytes
    }

    fn go_to(&mut self, at: u32)
        requires
            at <= old(self)@.total,
        ensures
            final(self)@ == old(self)@.reached(at as int),
            final(self)@.wf(),
    {
        if at < self.total {
            self.stage = CheckpointStage::Page(at);
        } else {
            self.stage = CheckpointStage::Decode;
        }
    }

    fn take_first(&mut self, served: ServedPage)
        requires
            old(self)@.stage is First,
        ensures
            final(self)@ == old(self)@.after(CheckpointEventModel::Page(served@)),
            final(self)@.wf(),
    {
        if served.total == 0 || served.total > self.limits.max_pages || served.bytes.len() == 0
            || served.bytes.len() > self.limits.page_bytes || !hash_matches(
            &served.hash,
            &served.bytes,
        ) {
            self.stage = CheckpointStage::Failed(PageError::FirstPage);
            return ;
        }
        self.total = served.total;
        self.bytes = served.bytes;
        self.go_to(1);
    }

    fn take_page(&mut self, at: u32, served: ServedPage)
        requires
            old(self)@.wf(),
            old(self)@.stage == CheckpointStage::Page(at),
        ensures
            final(self)@ == old(self)@.after(CheckpointEventModel::Page(served@)),
            final(self)@.wf(),
    {
        if served.total != self.total || served.bytes.len() == 0 || served.bytes.len()
            > self.limits.page_bytes || !hash_matches(&served.hash, &served.bytes)
            || self.bytes.len() > self.limits.max_bytes || served.bytes.len()
            > self.limits.max_bytes - self.bytes.len() {
            self.stage = CheckpointStage::Failed(PageError::Page);
            return ;
        }
        push_copies(&mut self.bytes, &served.bytes);
        self.go_to(at + 1);
    }

    /// Takes what came of the last action.
    pub fn take(&mut self, event: CheckpointEvent)
        requires
            old(self)@.wf(),
        ensures
            final(self)@ == old(self)@.after(event@),
            final(self)@.wf(),
    {
        match (self.stage, event) {
            (CheckpointStage::Done, _) => {},
            (CheckpointStage::Failed(_), _) => {},
            (_, CheckpointEvent::Failed) => {
                self.stage = CheckpointStage::Failed(PageError::Outside);
            },
            (CheckpointStage::First, CheckpointEvent::Page(served)) => {
                self.take_first(served);
            },
            (CheckpointStage::Page(at), CheckpointEvent::Page(served)) => {
                self.take_page(at, served);
            },
            (CheckpointStage::Decode, CheckpointEvent::Decoded { certified, hash }) => {
                self.stage = if !certified {
                    CheckpointStage::Failed(PageError::NotCertified)
                } else if !hash.equals(&self.wanted) {
                    CheckpointStage::Failed(PageError::Object)
                } else {
                    CheckpointStage::Done
                };
            },
            _ => {
                self.stage = CheckpointStage::Failed(PageError::OutOfOrder);
            },
        }
    }
}

/// How far the sending of an object has come.
#[derive(Clone, Copy, Debug)]
pub enum UploadStage {
    /// This page goes to this peer.
    Page(usize, usize),
    Done,
    Failed(PageError),
}

/// What the sending of an object needs next.
#[derive(Clone, Copy, Debug)]
pub enum UploadAction {
    /// Give a page to a peer, or keep it where the peer is the node itself.
    Put { peer: Id32, local: bool, index: u32, total: u32, hash: Id32 },
    Done,
    Failed(PageError),
}

/// What the sending of an object needs next, as a plain value.
pub enum UploadActionModel {
    Put { peer: Id32, local: bool, index: u32, total: u32, hash: Seq<u8> },
    Done,
    Failed(PageError),
}

impl UploadAction {
    pub open spec fn view(&self) -> UploadActionModel {
        match *self {
            UploadAction::Put { peer, local, index, total, hash } => UploadActionModel::Put {
                peer,
                local,
                index,
                total,
                hash: hash@,
            },
            UploadAction::Done => UploadActionModel::Done,
            UploadAction::Failed(error) => UploadActionModel::Failed(error),
        }
    }
}

/// An object that is being sent to peers, every page to all of them before the
/// next.
#[derive(Debug)]
pub struct ObjectUpload {
    pages: Vec<Vec<u8>>,
    peers: Vec<Id32>,
    local: Id32,
    stage: UploadStage,
}

/// An object that is being sent to peers, for contracts.
#[verifier::ext_equal]
pub struct UploadModel {
    pub pages: Seq<Seq<u8>>,
    pub peers: Seq<Id32>,
    pub local: Id32,
    pub stage: UploadStage,
}

impl UploadModel {
    pub open spec fn wf(self) -> bool {
        &&& self.pages.len() <= u32::MAX
        &&& self.peers.len() <= usize::MAX
        &&& (self.stage matches UploadStage::Page(at, peer) ==> at < self.pages.len() && peer
            < self.peers.len())
    }

    /// What is needed next.
    pub open spec fn next(self) -> UploadActionModel {
        match self.stage {
            UploadStage::Page(at, peer) => UploadActionModel::Put {
                peer: self.peers[peer as int],
                local: self.peers[peer as int] == self.local,
                index: at as u32,
                total: self.pages.len() as u32,
                hash: hash_of(self.pages[at as int]),
            },
            UploadStage::Done => UploadActionModel::Done,
            UploadStage::Failed(error) => UploadActionModel::Failed(error),
        }
    }

    /// The sending at a page and a peer, or at what comes behind them.
    pub open spec fn reached(self, at: int, peer: int) -> UploadModel {
        let stage = if at < self.pages.len() && peer < self.peers.len() {
            UploadStage::Page(at as usize, peer as usize)
        } else if at + 1 < self.pages.len() && self.peers.len() > 0 {
            UploadStage::Page((at + 1) as usize, 0)
        } else {
            UploadStage::Done
        };
        UploadModel { stage, ..self }
    }

    /// The sending after a peer has taken a page, or has not.
    pub open spec fn after(self, stored: bool) -> UploadModel {
        match self.stage {
            UploadStage::Page(at, peer) => if stored {
                self.reached(at as int, peer + 1)
            } else {
                UploadModel { stage: UploadStage::Failed(PageError::Outside), ..self }
            },
            _ => self,
        }
    }
}

/// The sending of an object at its beginning.
pub open spec fn upload_begun(
    limits: CatalogLimits,
    bytes: Seq<u8>,
    peers: Seq<Id32>,
    local: Id32,
) -> UploadModel {
    UploadModel {
        pages: pages_of(bytes, limits.page_bytes as nat),
        peers,
        local,
        stage: UploadStage::Done,
    }.reached(0, 0)
}

/// An object may be sent in pages.
pub open spec fn sendable(limits: CatalogLimits, length: nat) -> bool {
    0 < length <= limits.max_bytes && page_count(length, limits.page_bytes as nat)
        <= limits.max_pages
}

/// Begins to send an object of a checkpoint to the peers of a guild.
pub fn publish_p2p_checkpoint_object(
    limits: CatalogLimits,
    bytes: &Vec<u8>,
    peers: Vec<Id32>,
    local: Id32,
) -> (upload: Result<ObjectUpload, PageError>)
    requires
        limits.page_bytes > 0,
    ensures
        match upload {
            Ok(upload) => sendable(limits, bytes@.len()) && upload@ == upload_begun(
                limits,
                bytes@,
                peers@,
                local,
            ) && upload@.wf(),
            Err(error) => !sendable(limits, bytes@.len()) && error == PageError::Size,
        },
{
    if checked_catalog_page_count(&limits, bytes.len()).is_none() {
        return Err(PageError::Size);
    }
    let pages = split_pages(bytes, limits.page_bytes);
    proof {
        lemma_no_pages(bytes@.len() as int, limits.page_bytes as int);
        assert(page_views(pages@).len() == pages@.len());
    }
    let mut upload = ObjectUpload { pages, peers, local, stage: UploadStage::Done };
    upload.go_to(0, 0);
    Ok(upload)
}

impl ObjectUpload {
    pub closed spec fn view(&self) -> UploadModel {
        UploadModel {
            pages: page_views(self.pages@),
            peers: self.peers@,
            local: self.local,
            stage: self.stage,
        }
    }

    /// What is needed next.
    pub fn next(&self) -> (action: UploadAction)
        requires
            self@.wf(),
        ensures
            action@ == self@.next(),
    {
        match self.stage {
            UploadStage::Page(at, peer) => {
                assert(self@.pages[at as int] == self.pages@[at as int]@);
                UploadAction::Put {
                    peer: self.peers[peer],
                    local: self.peers[peer].equals(&self.local),
                    index: at as u32,
                    total: self.pages.len() as u32,
                    hash: content_hash(self.pages[at].as_slice()),
                }
            },
            UploadStage::Done => UploadAction::Done,
            UploadStage::Failed(error) => UploadAction::Failed(error),
        }
    }

    /// The pages of the object.
    pub fn pages(&self) -> (pages: &Vec<Vec<u8>>)
        ensures
            page_views(pages@) == self@.pages,
    {
        &self.pages
    }

    fn go_to(&mut self, at: usize, peer: usize)
        requires
            at < old(self)@.pages.len() <= u32::MAX,
        ensures
            final(self)@ == old(self)@.reached(at as int, peer as int),
            final(self)@.wf(),
    {
        assert(self@.pages.len() == self.pages@.len());
        assert(self@.peers.len() == self.peers.len());
        if peer < self.peers.len() {
            self.stage = UploadStage::Page(at, peer);
        } else if at + 1 < self.pages.len() && self.peers.len() > 0 {
            self.stage = UploadStage::Page(at + 1, 0);
        } else {
            self.stage = UploadStage::Done;
        }
    }

    /// Takes whether the peer has taken the page.
    pub fn take(&mut self, stored: bool)
        requires
            old(self)@.wf(),
        ensures
            final(self)@ == old(self)@.after(stored),
            final(self)@.wf(),
    {
        match self.stage {
            UploadStage::Page(at, peer) => {
                if stored {
                    assert(peer < self.peers.len());
                    self.go_to(at, peer + 1);
                } else {
                    self.stage = UploadStage::Failed(PageError::Outside);
                }
            },
            _ => {},
        }
    }
}

/// The pages of an object as a peer hands them out.
pub open spec fn served(pages: Seq<Seq<u8>>, at: int) -> PageModel {
    PageModel { total: pages.len() as u32, hash: hash_of(pages[at]), bytes: pages[at] }
}

/// The fetching of a checkpoint after the first so many pages of an object.
pub open spec fn fetched(fetch: CheckpointModel, pages: Seq<Seq<u8>>, n: nat) -> CheckpointModel
    decreases n,
{
    if n == 0 {
        fetch
    } else {
        fetched(fetch, pages, (n - 1) as nat).after(
            CheckpointEventModel::Page(served(pages, n - 1)),
        )
    }
}

/// The fetching of a revision after the first so many pages of an object.
pub open spec fn gathered(fetch: RevisionModel, pages: Seq<Seq<u8>>, n: nat) -> RevisionModel
    decreases n,
{
    if n == 0 {
        fetch
    } else {
        gathered(fetch, pages, (n - 1) as nat).after(
            RevisionEventModel::Page(served(pages, n - 1)),
        )
    }
}

proof fn lemma_page_size(bytes: Seq<u8>, size: nat, n: int)
    requires
        size > 0,
        0 <= n < page_count(bytes.len(), size),
    ensures
        0 < pages_of(bytes, size)[n].len() <= size,
        joined(pages_of(bytes, size).take(n + 1)) == joined(pages_of(bytes, size).take(n))
            + pages_of(bytes, size)[n],
        joined(pages_of(bytes, size).take(n + 1)).len() <= bytes.len(),
{
    let pages = pages_of(bytes, size);
    lemma_joined_upto(bytes, size, n);
    lemma_joined_upto(bytes, size, n + 1);
    assert(pages.take(n + 1).drop_last() =~= pages.take(n));
    assert(pages.take(n + 1).last() == page(bytes, size, n as nat));
}

proof fn lemma_fetched(limits: CatalogLimits, wanted: Id32, bytes: Seq<u8>, n: nat)
    requires
        limits.page_bytes > 0,
        sendable(limits, bytes.len()),
        1 <= n <= page_count(bytes.len(), limits.page_bytes as nat),
    ensures
        ({
            let pages = pages_of(bytes, limits.page_bytes as nat);
            let fetch = fetched(checkpoint_wanted(limits, wanted), pages, n);
            &&& fetch.limits == limits
            &&& fetch.wanted == wanted
            &&& fetch.total == pages.len()
            &&& fetch.bytes == joined(pages.take(n as int))
            &&& fetch.stage == (if n < pages.len() {
                CheckpointStage::Page(n as u32)
            } else {
                CheckpointStage::Decode
            })
        }),
    decreases n,
{
    let size = limits.page_bytes as nat;
    let pages = pages_of(bytes, size);
    let before = fetched(checkpoint_wanted(limits, wanted), pages, (n - 1) as nat);
    lemma_page_size(bytes, size, n - 1);
    if n == 1 {
        assert(before == checkpoint_wanted(limits, wanted));
        assert(pages.take(0) =~= Seq::empty());
        assert(joined(pages.take(1)) =~= pages[0]);
    } else {
        lemma_fetched(limits, wanted, bytes, (n - 1) as nat);
    }
}

/// A checkpoint that was sent page by page is put together again by whoever
/// fetches its pages in order.
pub proof fn what_was_sent_is_fetched(limits: CatalogLimits, wanted: Id32, bytes: Seq<u8>)
    requires
        limits.page_bytes > 0,
        sendable(limits, bytes.len()),
    ensures
        ({
            let pages = pages_of(bytes, limits.page_bytes as nat);
            let fetch = fetched(checkpoint_wanted(limits, wanted), pages, pages.len());
            fetch.next() == CheckpointAction::Decode && fetch.bytes == bytes
        }),
{
    let size = limits.page_bytes as nat;
    let pages = pages_of(bytes, size);
    crate::catalog::pages_round_trip(bytes, size);
    if pages.len() == 0 {
        assert(joined(pages) =~= Seq::empty());
    }
    lemma_fetched(limits, wanted, bytes, pages.len());
    assert(pages.take(pages.len() as int) =~= pages);
}

proof fn lemma_gathered(limits: CatalogLimits, bytes: Seq<u8>, n: nat)
    requires
        limits.page_bytes > 0,
        sendable(limits, bytes.len()),
        n < page_count(bytes.len(), limits.page_bytes as nat),
    ensures
        ({
            let pages = pages_of(bytes, limits.page_bytes as nat);
            let start = revision_wanted(limits, false, pages.len() as u32, hash_of(bytes));
            let fetch = gathered(start, pages, n);
            &&& fetch.limits == limits
            &&& fetch.total == pages.len()
            &&& fetch.hash == hash_of(bytes)
            &&& fetch.bytes == joined(pages.take(n as int))
            &&& fetch.stage == RevisionStage::Page(n as u32)
        }),
    decreases n,
{
    let size = limits.page_bytes as nat;
    let pages = pages_of(bytes, size);
    if n == 0 {
        assert(pages.take(0) =~= Seq::empty());
    } else {
        lemma_page_size(bytes, size, n - 1);
        lemma_gathered(limits, bytes, (n - 1) as nat);
    }
}

/// A revision that its owner announced with its pages and its hash is put
/// together again by whoever fetches its pages in order.
pub proof fn what_was_prepared_is_fetched(limits: CatalogLimits, bytes: Seq<u8>)
    requires
        limits.page_bytes > 0,
        sendable(limits, bytes.len()),
    ensures
        ({
            let pages = pages_of(bytes, limits.page_bytes as nat);
            let start = revision_wanted(limits, false, pages.len() as u32, hash_of(bytes));
            let fetch = gathered(start, pages, pages.len());
            fetch.next() == RevisionAction::Done && fetch.bytes == bytes
        }),
{
    let size = limits.page_bytes as nat;
    let pages = pages_of(bytes, size);
    crate::catalog::pages_round_trip(bytes, size);
    if pages.len() == 0 {
        assert(joined(pages) =~= Seq::empty());
    }
    let n = (pages.len() - 1) as nat;
    lemma_gathered(limits, bytes, n);
    lemma_page_size(bytes, size, n as int);
    assert(pages.take(pages.len() as int) =~= pages);
}

/// A revision that was fetched has the hash that it was announced with.
pub proof fn a_fetched_revision_is_the_announced(fetch: RevisionModel, event: RevisionEventModel)
    requires
        fetch.wf(),
        fetch.stage is Done ==> hash_of(fetch.bytes) == fetch.hash,
    ensures
        fetch.after(event).stage is Done ==> hash_of(fetch.after(event).bytes) == fetch.hash,
        fetch.after(event).hash == fetch.hash,
{
}

/// The sending of an object ends only once the last peer has taken the last
/// page; and where the page changes, every peer has taken the one before.
pub proof fn every_peer_takes_every_page(upload: UploadModel, stored: bool)
    requires
        upload.wf(),
    ensures
        ({
            let after = upload.after(stored);
            &&& (upload.stage matches UploadStage::Page(at, peer) ==> {
                &&& (after.stage is Done ==> stored && at == upload.pages.len() - 1 && peer
                    == upload.peers.len() - 1)
                &&& (after.stage matches UploadStage::Page(next, to) ==> {
                    ||| next == at && to == peer + 1
                    ||| next == at + 1 && to == 0 && peer == upload.peers.len() - 1
                })
            })
            &&& upload.stage is Done || upload.stage is Failed ==> after == upload
        }),
{
}

/// A revision of the node's own is loaded whole, and taken if it has the hash
/// that was announced; any other is fetched page by page, in order, each page of
/// the announced number, with its own hash and within the limits, and taken if
/// all together have the announced hash.
pub proof fn a_revision_is_fetched_page_by_page(
    fetch: RevisionModel,
    limits: CatalogLimits,
    total: u32,
    hash: Seq<u8>,
    object: Seq<u8>,
    page: PageModel,
)
    requires
        fetch.wf(),
    ensures
        revision_wanted(limits, true, total, hash).next() == RevisionAction::LoadLocal,
        total > 0 ==> revision_wanted(limits, false, total, hash).next() == RevisionAction::AskPage(
            0,
        ),
        revision_wanted(limits, false, total, hash).bytes.len() == 0,
        fetch.stage is Local ==> {
            let after = fetch.after(RevisionEventModel::Object(object));
            if hash_of(object) == fetch.hash {
                after.next() == RevisionAction::Done && after.bytes == object
            } else {
                after.next() == RevisionAction::Failed(PageError::Object)
            }
        },
        fetch.stage matches RevisionStage::Page(at) ==> {
            let after = fetch.after(RevisionEventModel::Page(page));
            let fits = page.total == fetch.total && page.hash == hash_of(page.bytes)
                && page.bytes.len() <= fetch.limits.page_bytes && fetch.bytes.len()
                + page.bytes.len() <= fetch.limits.max_bytes;
            &&& fetch.next() == RevisionAction::AskPage(at)
            &&& !fits ==> after.next() == RevisionAction::Failed(PageError::Page)
            &&& fits ==> after.bytes == fetch.bytes + page.bytes
            &&& fits && at + 1 < fetch.total ==> after.next() == RevisionAction::AskPage(
                (at + 1) as u32,
            )
            &&& fits && at + 1 == fetch.total ==> after.next() == (if hash_of(
                fetch.bytes + page.bytes,
            ) == fetch.hash {
                RevisionAction::Done
            } else {
                RevisionAction::Failed(PageError::Object)
            })
        },
{
}

/// A checkpoint is fetched page by page, in order. The first page says how many
/// there are, some and no more than allowed; none of them may be empty, too long,
/// or other than its hash. What all together spell must be certified, and be the
/// checkpoint that was asked for.
pub proof fn a_checkpoint_is_fetched_page_by_page(
    fetch: CheckpointModel,
    limits: CatalogLimits,
    wanted: Id32,
    page: PageModel,
    certified: bool,
    hash: Id32,
)
    requires
        fetch.wf(),
    ensures
        checkpoint_wanted(limits, wanted).next() == CheckpointAction::AskPage(0),
        checkpoint_wanted(limits, wanted).stage is First,
        fetch.stage is First ==> {
            let after = fetch.after(CheckpointEventModel::Page(page));
            let fits = 0 < page.total <= fetch.limits.max_pages && 0 < page.bytes.len()
                <= fetch.limits.page_bytes && page.hash == hash_of(page.bytes);
            &&& !fits ==> after.next() == CheckpointAction::Failed(PageError::FirstPage)
            &&& fits ==> after.bytes == page.bytes && after.total == page.total
            &&& fits && page.total > 1 ==> after.next() == CheckpointAction::AskPage(1)
            &&& fits && page.total == 1 ==> after.next() == CheckpointAction::Decode
        },
        fetch.stage matches CheckpointStage::Page(at) ==> {
            let after = fetch.after(CheckpointEventModel::Page(page));
            let fits = page.total == fetch.total && 0 < page.bytes.len() <= fetch.limits.page_bytes
                && page.hash == hash_of(page.bytes) && fetch.bytes.len() + page.bytes.len()
                <= fetch.limits.max_bytes;
            &&& fetch.next() == CheckpointAction::AskPage(at)
            &&& !fits ==> after.next() == CheckpointAction::Failed(PageError::Page)
            &&& fits ==> after.bytes == fetch.bytes + page.bytes
            &&& fits && at + 1 < fetch.total ==> after.next() == CheckpointAction::AskPage(
                (at + 1) as u32,
            )
            &&& fits && at + 1 == fetch.total ==> after.next() == CheckpointAction::Decode
        },
        fetch.stage is Decode ==> fetch.after(
            CheckpointEventModel::Decoded { certified, hash },
        ).next() == (if !certified {
            CheckpointAction::Failed(PageError::NotCertified)
        } else if hash != fetch.wanted {
            CheckpointAction::Failed(PageError::Object)
        } else {
            CheckpointAction::Done
        }),
{
}

/// An object is sent page by page, every page to all peers in order before the
/// next, each with its number, how many there are, and its hash; the node itself
/// keeps its own. A peer that does not take a page ends the sending.
pub proof fn every_page_is_sent_to_every_peer(
    upload: UploadModel,
    limits: CatalogLimits,
    bytes: Seq<u8>,
    peers: Seq<Id32>,
    local: Id32,
)
    requires
        upload.wf(),
    ensures
        ({
            let begun = upload_begun(limits, bytes, peers, local);
            let pages = pages_of(bytes, limits.page_bytes as nat);
            &&& begun.pages == pages && begun.peers == peers && begun.local == local
            &&& pages.len() > 0 && peers.len() > 0 ==> begun.stage == UploadStage::Page(0, 0)
        }),
        upload.stage matches UploadStage::Page(at, peer) ==> {
            let stored = upload.after(true);
            &&& upload.next() == (UploadActionModel::Put {
                peer: upload.peers[peer as int],
                local: upload.peers[peer as int] == upload.local,
                index: at as u32,
                total: upload.pages.len() as u32,
                hash: hash_of(upload.pages[at as int]),
            })
            &&& upload.after(false).next() == UploadActionModel::Failed(PageError::Outside)
            &&& if peer + 1 < upload.peers.len() {
                stored.stage == UploadStage::Page(at, (peer + 1) as usize)
            } else if at + 1 < upload.pages.len() {
                stored.stage == UploadStage::Page((at + 1) as usize, 0)
            } else {
                stored.next() == UploadActionModel::Done
            }
        },
{
}

/// What fails, and what was not asked for, ends a fetch for good.
pub proof fn a_fetch_takes_only_what_it_asked_for(
    revision: RevisionModel,
    revision_event: RevisionEventModel,
    checkpoint: CheckpointModel,
    checkpoint_event: CheckpointEventModel,
)
    ensures
        revision.next() is Done || revision.next() is Failed ==> revision.after(revision_event)
            == revision,
        !(revision.next() is Done || revision.next() is Failed) && revision_event is Failed
            ==> revision.after(revision_event).next() == RevisionAction::Failed(PageError::Outside),
        revision.next() is LoadLocal && revision_event is Page || revision.next() is AskPage
            && revision_event is Object ==> revision.after(revision_event).next()
            == RevisionAction::Failed(PageError::OutOfOrder),
        checkpoint.next() is Done || checkpoint.next() is Failed ==> checkpoint.after(
            checkpoint_event,
        ) == checkpoint,
        !(checkpoint.next() is Done || checkpoint.next() is Failed) && checkpoint_event is Failed
            ==> checkpoint.after(checkpoint_event).next() == CheckpointAction::Failed(
            PageError::Outside,
        ),
        checkpoint.next() is AskPage && checkpoint_event is Decoded || checkpoint.next() is Decode
            && checkpoint_event is Page ==> checkpoint.after(checkpoint_event).next()
            == CheckpointAction::Failed(PageError::OutOfOrder),
{
}

} // verus!
