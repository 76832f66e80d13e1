//! What the archival service is sent: snapshots of reports and evidence, named
//! pins, and the test of its responses. The transport lives outside the library.
use crate::text::{decimal, decimal_of};
use crate::types::{EvidenceFile, Identity, Location, Report, ReportStatus, copy_text};
use vstd::prelude::*;

verus! {

/// The SHA-256 digest of some bytes.
pub uninterp spec fn sha256_of(data: Seq<u8>) -> Seq<u8>;

/// Relies on `sha2::Sha256` (`Digest::digest`): the 32-byte SHA-256 digest.
#[verifier::external_body]
fn sha256_digest(data: &[u8]) -> (r: Vec<u8>)
    ensures
        r@ == sha256_of(data@),
        r@.len() == 32,
{
    <sha2::Sha256 as sha2::Digest>::digest(data).to_vec()
}

pub open spec fn hex_digit(d: u8) -> char {
    if d < 10 {
        ((d + 48) as u8) as char
    } else {
        ((d + 87) as u8) as char
    }
}

/// Lower-case hex: two digits per byte, high nibble first.
pub open spec fn hex_of(data: Seq<u8>) -> Seq<char>
    decreases data.len(),
{
    if data.len() == 0 {
        Seq::empty()
    } else {
        hex_of(data.drop_last()).push(hex_digit(data.last() / 16)).push(
            hex_digit(data.last() % 16),
        )
    }
}

/// Relies on `hex::encode`: lower-case hex, two digits per byte.
#[verifier::external_body]
fn hex_encode(data: &[u8]) -> (r: String)
    ensures
        r@ == hex_of(data@),
{
    hex::encode(data)
}

/// Standard base64, with padding, of some bytes.
pub uninterp spec fn base64_of(data: Seq<u8>) -> Seq<char>;

/// Relies on `base64`'s STANDARD engine (`Engine::encode`), which encodes with
/// the standard alphabet and padding; it panics only where the encoded length
/// overflows `usize`, which the bound excludes.
#[verifier::external_body]
fn base64_encode(data: &[u8]) -> (r: String)
    requires
        data@.len() <= 0x3fff_ffff,
    ensures
        r@ == base64_of(data@),
{
    base64::Engine::encode(&base64::engine::general_purpose::STANDARD, data)
}

/// A one-way hash of an identity: hex of the SHA-256 of its bytes.
pub fn hash_principal(id: &Identity) -> (r: String)
    ensures
        r@ == hex_of(sha256_of(id@)),
{
    hex_encode(sha256_digest(id.bytes.as_slice()).as_slice())
}

/// What is archived of a report; the submitter appears only as a hash.
pub struct ReportSnapshot {
    pub report_id: u64,
    pub title: String,
    pub description: String,
    pub category: String,
    pub stake_amount: u64,
    pub reward_amount: u64,
    pub evidence_count: u32,
    pub location: Option<Location>,
    pub incident_date: Option<String>,
    pub status: ReportStatus,
    pub submitted_at: u64,
    pub submitter_hash: String,
}

impl ReportSnapshot {
    pub fn from_report(report: &Report) -> (r: ReportSnapshot)
        ensures
            r.report_id == report.id,
            r.title == report.title,
            r.description == report.description,
            r.category == report.category,
            r.stake_amount == report.stake_amount,
            r.reward_amount == report.reward_amount,
            r.evidence_count == report.evidence_count,
            r.location == report.location,
            r.incident_date == report.incident_date,
            r.status == report.status,
            r.submitted_at == report.date_submitted,
            r.submitter_hash@ == hex_of(sha256_of(report.submitter_id@)),
    {
        ReportSnapshot {
            report_id: report.id,
            title: report.title.clone(),
            description: report.description.clone(),
            category: report.category.clone(),
            stake_amount: report.stake_amount,
            reward_amount: report.reward_amount,
            evidence_count: report.evidence_count,
            location: match &report.location {
                Some(l) => Some(l.duplicate()),
                None => None,
            },
            incident_date: copy_text(&report.incident_date),
            status: report.status,
            submitted_at: report.date_submitted,
            submitter_hash: hash_principal(&report.submitter_id),
        }
    }
}

/// What is archived of an evidence file: its metadata and its bytes in base64.
pub struct EvidenceSnapshot {
    pub report_id: u64,
    pub file_name: String,
    pub file_type: String,
    pub uploaded_at: u64,
    pub base64_data: String,
}

impl EvidenceSnapshot {
    pub fn new(report_id: u64, evidence: &EvidenceFile) -> (r: EvidenceSnapshot)
        requires
            evidence.data@.len() <= 0x3fff_ffff,
        ensures
            r.report_id == report_id,
            r.file_name == evidence.name,
            r.file_type == evidence.file_type,
            r.uploaded_at == evidence.upload_date,
            r.base64_data@ == base64_of(evidence.data@),
    {
        EvidenceSnapshot {
            report_id,
            file_name: evidence.name.clone(),
            file_type: evidence.file_type.clone(),
            uploaded_at: evidence.upload_date,
            base64_data: base64_encode(evidence.data.as_slice()),
        }
    }
}

/// The pin name of a report snapshot.
pub fn report_pin_name(report_id: u64) -> (r: String)
    ensures
        r@ == "report-"@ + decimal_of(report_id as nat),
{
    String::from_str("report-").concat(decimal(report_id).as_str())
}

/// The pin name of an evidence snapshot.
pub fn evidence_pin_name(report_id: u64, file_name: &String) -> (r: String)
    ensures
        r@ == "report-"@ + decimal_of(report_id as nat) + "-evidence-"@ + file_name@,
{
    report_pin_name(report_id).concat("-evidence-").concat(file_name.as_str())
}

/// HTTP status codes 200 to 299 mean success.
pub fn is_success_status(status: u64) -> (r: bool)
    ensures
        r == (200 <= status < 300),
{
    200 <= status && status < 300
}

} // verus!
