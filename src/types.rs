//! Records kept by the store, and the errors of the public operations.
use vstd::prelude::*;

verus! {

/// The raw bytes of a caller identity (a principal).
pub struct Identity {
    pub bytes: Vec<u8>,
}

impl View for Identity {
    type V = Seq<u8>;

    open spec fn view(&self) -> Seq<u8> {
        self.bytes@
    }
}

/// The single byte of the reserved anonymous identity.
pub const ANONYMOUS_TAG: u8 = 4;

pub open spec fn anonymous_bytes() -> Seq<u8> {
    seq![ANONYMOUS_TAG]
}

/// A fresh copy of a byte vector.
pub fn copy_bytes(v: &Vec<u8>) -> (r: Vec<u8>)
    ensures
        r@ == v@,
{
    let mut r: Vec<u8> = Vec::new();
    let mut i: usize = 0;
    while i < v.len()
        invariant
            i <= v.len(),
            r@ == v@.subrange(0, i as int),
        decreases v.len() - i,
    {
        r.push(v[i]);
        i = i + 1;
    }
    assert(r@ =~= v@);
    r
}

/// A fresh copy of a list of ids.
pub fn copy_ids(v: &Vec<u64>) -> (r: Vec<u64>)
    ensures
        r@ == v@,
{
    let mut r: Vec<u64> = Vec::new();
    let mut i: usize = 0;
    while i < v.len()
        invariant
            i <= v.len(),
            r@ == v@.subrange(0, i as int),
        decreases v.len() - i,
    {
        r.push(v[i]);
        i = i + 1;
    }
    assert(r@ =~= v@);
    r
}

impl Identity {
    pub fn new(bytes: Vec<u8>) -> (r: Identity)
        ensures
            r@ == bytes@,
    {
        Identity { bytes }
    }

    /// The reserved identity of unauthenticated callers.
    pub fn anonymous() -> (r: Identity)
        ensures
            r@ == anonymous_bytes(),
    {
        let mut bytes: Vec<u8> = Vec::new();
        bytes.push(ANONYMOUS_TAG);
        assert(bytes@ =~= anonymous_bytes());
        Identity { bytes }
    }

    pub fn is_anonymous(&self) -> (r: bool)
        ensures
            r == (self@ == anonymous_bytes()),
    {
        let r = self.bytes.len() == 1 && self.bytes[0] == ANONYMOUS_TAG;
        proof {
            if r {
                assert(self@ =~= anonymous_bytes());
            }
        }
        r
    }

    pub fn same(&self, other: &Identity) -> (r: bool)
        ensures
            r == (self@ == other@),
    {
        if self.bytes.len() != other.bytes.len() {
            return false;
        }
        let mut i: usize = 0;
        while i < self.bytes.len()
            invariant
                i <= self.bytes.len(),
                self.bytes.len() == other.bytes.len(),
                forall|k: int| 0 <= k < i ==> self@[k] == other@[k],
            decreases self.bytes.len() - i,
        {
            if self.bytes[i] != other.bytes[i] {
                return false;
            }
            i = i + 1;
        }
        assert(self@ =~= other@);
        true
    }

    pub fn duplicate(&self) -> (r: Identity)
        ensures
            r@ == self@,
    {
        Identity { bytes: copy_bytes(&self.bytes) }
    }
}

impl View for ReportStatus {
    type V = ReportStatus;

    open spec fn view(&self) -> ReportStatus {
        *self
    }
}

/// Where a report stands in its lifecycle.
#[derive(Clone, Copy, Debug, PartialEq, Eq, Structural)]
pub enum ReportStatus {
    Pending,
    UnderReview,
    Approved,
    Rejected,
}

impl ReportStatus {
    /// Approved and Rejected are final: no operation leaves them.
    pub open spec fn is_terminal(self) -> bool {
        self == ReportStatus::Approved || self == ReportStatus::Rejected
    }
}

/// Where an incident took place; coordinates in millionths of a degree.
pub struct Location {
    pub address: String,
    pub latitude_micro: i64,
    pub longitude_micro: i64,
}

impl Location {
    pub fn duplicate(&self) -> (r: Location)
        ensures
            r == *self,
    {
        Location {
            address: self.address.clone(),
            latitude_micro: self.latitude_micro,
            longitude_micro: self.longitude_micro,
        }
    }
}

pub fn copy_text(s: &Option<String>) -> (r: Option<String>)
    ensures
        r == *s,
{
    match s {
        Some(t) => Some(t.clone()),
        None => None,
    }
}

pub fn copy_identity(s: &Option<Identity>) -> (r: Option<Identity>)
    ensures
        r.is_some() == s.is_some(),
        r.is_some() ==> r.unwrap()@ == s.unwrap()@,
{
    match s {
        Some(t) => Some(t.duplicate()),
        None => None,
    }
}

pub open spec fn same_identity_opt(a: Option<Identity>, b: Option<Identity>) -> bool {
    a.is_some() == b.is_some() && (a.is_some() ==> a.unwrap()@ == b.unwrap()@)
}

/// An incident report and its settlement.
pub struct Report {
    pub id: u64,
    pub title: String,
    pub description: String,
    pub category: String,
    pub date_submitted: u64,
    pub incident_date: Option<String>,
    pub location: Option<Location>,
    pub submitter_id: Identity,
    pub evidence_count: u32,
    pub evidence_files: Vec<u64>,
    pub stake_amount: u64,
    pub reward_amount: u64,
    pub status: ReportStatus,
    pub reviewer: Option<Identity>,
    pub review_date: Option<u64>,
    pub review_notes: Option<String>,
    pub ipfs_cid: Option<String>,
    pub ipfs_pinned_at: Option<u64>,
}

impl Report {
    /// Only an Approved report carries a reward, and the deciding authority and
    /// the date of the decision are both set or both unset.
    pub open spec fn consistent(self) -> bool {
        &&& self.reward_amount > 0 ==> self.status == ReportStatus::Approved
        &&& self.reviewer.is_some() == self.review_date.is_some()
    }

    /// Two reports hold the same values.
    pub open spec fn same(self, o: Report) -> bool {
        &&& self.id == o.id
        &&& self.title == o.title
        &&& self.description == o.description
        &&& self.category == o.category
        &&& self.date_submitted == o.date_submitted
        &&& self.incident_date == o.incident_date
        &&& self.location == o.location
        &&& self.submitter_id@ == o.submitter_id@
        &&& self.evidence_count == o.evidence_count
        &&& self.evidence_files@ == o.evidence_files@
        &&& self.stake_amount == o.stake_amount
        &&& self.reward_amount == o.reward_amount
        &&& self.status == o.status
        &&& same_identity_opt(self.reviewer, o.reviewer)
        &&& self.review_date == o.review_date
        &&& self.review_notes == o.review_notes
        &&& self.ipfs_cid == o.ipfs_cid
        &&& self.ipfs_pinned_at == o.ipfs_pinned_at
    }

    pub fn duplicate(&self) -> (r: Report)
        ensures
            r.same(*self),
    {
        Report {
            id: self.id,
            title: self.title.clone(),
            description: self.description.clone(),
            category: self.category.clone(),
            date_submitted: self.date_submitted,
            incident_date: copy_text(&self.incident_date),
            location: match &self.location {
                Some(l) => Some(l.duplicate()),
                None => None,
            },
            submitter_id: self.submitter_id.duplicate(),
            evidence_count: self.evidence_count,
            evidence_files: copy_ids(&self.evidence_files),
            stake_amount: self.stake_amount,
            reward_amount: self.reward_amount,
            status: self.status,
            reviewer: copy_identity(&self.reviewer),
            review_date: self.review_date,
            review_notes: copy_text(&self.review_notes),
            ipfs_cid: copy_text(&self.ipfs_cid),
            ipfs_pinned_at: self.ipfs_pinned_at,
        }
    }
}

/// A token holder.
pub struct User {
    pub id: Identity,
    pub token_balance: u64,
    pub reports_submitted: Vec<u64>,
    pub rewards_earned: u64,
    pub stakes_active: u64,
    pub stakes_lost: u64,
}

impl User {
    pub open spec fn same(self, o: User) -> bool {
        &&& self.id@ == o.id@
        &&& self.token_balance == o.token_balance
        &&& self.reports_submitted@ == o.reports_submitted@
        &&& self.rewards_earned == o.rewards_earned
        &&& self.stakes_active == o.stakes_active
        &&& self.stakes_lost == o.stakes_lost
    }

    /// What the user holds, counted in tokens: free, at stake, and forfeited.
    pub open spec fn value(self) -> int {
        self.token_balance + self.stakes_active + self.stakes_lost
    }

    /// A user with nothing yet.
    pub fn empty(id: Identity, token_balance: u64) -> (r: User)
        ensures
            r.id@ == id@,
            r.token_balance == token_balance,
            r.reports_submitted@.len() == 0,
            r.rewards_earned == 0,
            r.stakes_active == 0,
            r.stakes_lost == 0,
    {
        User {
            id,
            token_balance,
            reports_submitted: Vec::new(),
            rewards_earned: 0,
            stakes_active: 0,
            stakes_lost: 0,
        }
    }

    pub fn duplicate(&self) -> (r: User)
        ensures
            r.same(*self),
    {
        User {
            id: self.id.duplicate(),
            token_balance: self.token_balance,
            reports_submitted: copy_ids(&self.reports_submitted),
            rewards_earned: self.rewards_earned,
            stakes_active: self.stakes_active,
            stakes_lost: self.stakes_lost,
        }
    }
}

/// An identity allowed to settle reports, with the ids of the reports it settled.
/// Its approval rate is `approved_count / reports_reviewed.len() * 100`, or 0
/// while the list is empty.
pub struct Authority {
    pub id: Identity,
    pub reports_reviewed: Vec<u64>,
    pub approved_count: u64,
}

impl Authority {
    pub open spec fn same(self, o: Authority) -> bool {
        &&& self.id@ == o.id@
        &&& self.reports_reviewed@ == o.reports_reviewed@
        &&& self.approved_count == o.approved_count
    }

    /// An authority that has reviewed nothing yet.
    pub fn fresh(id: Identity) -> (r: Authority)
        ensures
            r.id@ == id@,
            r.reports_reviewed@.len() == 0,
            r.approved_count == 0,
    {
        Authority { id, reports_reviewed: Vec::new(), approved_count: 0 }
    }

    pub fn duplicate(&self) -> (r: Authority)
        ensures
            r.same(*self),
    {
        Authority {
            id: self.id.duplicate(),
            reports_reviewed: copy_ids(&self.reports_reviewed),
            approved_count: self.approved_count,
        }
    }
}

/// Who wrote a message.
pub enum MessageSender {
    System,
    Authority(Identity),
    Reporter(Identity),
}

impl MessageSender {
    pub open spec fn same(self, o: MessageSender) -> bool {
        match (self, o) {
            (MessageSender::System, MessageSender::System) => true,
            (MessageSender::Authority(a), MessageSender::Authority(b)) => a@ == b@,
            (MessageSender::Reporter(a), MessageSender::Reporter(b)) => a@ == b@,
            _ => false,
        }
    }

    pub fn duplicate(&self) -> (r: MessageSender)
        ensures
            r.same(*self),
    {
        match self {
            MessageSender::System => MessageSender::System,
            MessageSender::Authority(a) => MessageSender::Authority(a.duplicate()),
            MessageSender::Reporter(a) => MessageSender::Reporter(a.duplicate()),
        }
    }
}

/// A message attached to a report; never changed once written.
pub struct Message {
    pub id: u64,
    pub report_id: u64,
    pub sender: MessageSender,
    pub content: String,
    pub timestamp: u64,
    pub attachment: Option<String>,
}

impl Message {
    pub open spec fn same(self, o: Message) -> bool {
        &&& self.id == o.id
        &&& self.report_id == o.report_id
        &&& self.sender.same(o.sender)
        &&& self.content == o.content
        &&& self.timestamp == o.timestamp
        &&& self.attachment == o.attachment
    }

    pub fn duplicate(&self) -> (r: Message)
        ensures
            r.same(*self),
    {
        Message {
            id: self.id,
            report_id: self.report_id,
            sender: self.sender.duplicate(),
            content: self.content.clone(),
            timestamp: self.timestamp,
            attachment: copy_text(&self.attachment),
        }
    }
}

/// An uploaded evidence file.
pub struct EvidenceFile {
    pub id: u64,
    pub name: String,
    pub file_type: String,
    pub data: Vec<u8>,
    pub upload_date: u64,
    pub ipfs_cid: Option<String>,
}

impl EvidenceFile {
    pub open spec fn same(self, o: EvidenceFile) -> bool {
        &&& self.id == o.id
        &&& self.name == o.name
        &&& self.file_type == o.file_type
        &&& self.data@ == o.data@
        &&& self.upload_date == o.upload_date
        &&& self.ipfs_cid == o.ipfs_cid
    }

    pub fn duplicate(&self) -> (r: EvidenceFile)
        ensures
            r.same(*self),
    {
        EvidenceFile {
            id: self.id,
            name: self.name.clone(),
            file_type: self.file_type.clone(),
            data: copy_bytes(&self.data),
            upload_date: self.upload_date,
            ipfs_cid: copy_text(&self.ipfs_cid),
        }
    }
}

/// Credentials of the archival service.
pub struct IpfsConfig {
    pub api_key: String,
    pub api_secret: String,
    pub jwt: String,
}

impl IpfsConfig {
    pub fn duplicate(&self) -> (r: IpfsConfig)
        ensures
            r == *self,
    {
        IpfsConfig {
            api_key: self.api_key.clone(),
            api_secret: self.api_secret.clone(),
            jwt: self.jwt.clone(),
        }
    }
}

/// Counts of reports by status, and the rewards paid so far.
#[derive(Clone, Copy, Debug, PartialEq, Eq, Structural)]
pub struct AuthorityStats {
    pub reports_pending: u64,
    pub reports_verified: u64,
    pub reports_rejected: u64,
    pub total_rewards_distributed: u64,
}

/// Why an operation was refused.
#[derive(Clone, Copy, Debug, PartialEq, Eq, Structural)]
pub enum Denial {
    Anonymous,
    NotAuthority,
    NotOwner,
}

/// Which input failed validation.
#[derive(Clone, Copy, Debug, PartialEq, Eq, Structural)]
pub enum Invalid {
    EmptyTitle,
    TitleTooLong,
    EmptyDescription,
    DescriptionTooLong,
    Category,
    StakeTooLow,
    StakeTooHigh,
    TooManyEvidence,
    TooManyPending,
    MissingReason,
    EmptyMessage,
    MessageTooLong,
    EmptyEvidence,
    EvidenceTooLarge,
    AlreadyAuthority,
    NotAnAuthority,
    SelfRemoval,
    EmptyCredentials,
    TooManyIds,
    /// A built-in principal text does not parse.
    Principal,
    /// The system already has authorities.
    AlreadyInitialized,
}

/// Which record was looked for.
#[derive(Clone, Copy, Debug, PartialEq, Eq, Structural)]
pub enum Missing {
    Report,
    User,
    Evidence,
}

/// The errors of the public operations.
#[derive(Clone, Copy, Debug, PartialEq, Eq, Structural)]
pub enum EngineError {
    Authorization(Denial),
    Validation(Invalid),
    NotFound(Missing),
    /// The operation needs a Pending report; the report's status is given.
    StateConflict(ReportStatus),
    InsufficientBalance,
    /// A counter or an amount would leave the range of `u64`.
    Overflow,
}

} // verus!
