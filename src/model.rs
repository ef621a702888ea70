//! The records exchanged with the tracker, in the form the core logic reads.

use crate::calendar::{Date, build_jira_timestamp, iso_date_of, iso_text, timestamp_of};
use crate::document::Node;
use crate::markdown::{doc_of, markdown_to_adf};
use crate::render::{blocks_to_markdown, text_of};
use crate::week::TimeEntry;
use vstd::prelude::*;

verus! {

#[derive(Debug)]
pub struct User {
    pub account_id: String,
    pub display_name: Option<String>,
    pub email_address: Option<String>,
}

#[derive(Debug)]
pub struct Project {
    pub id: String,
    pub key: String,
    pub name: String,
}

#[derive(Debug)]
pub struct IssueType {
    pub id: String,
    pub name: String,
}

#[derive(Debug)]
pub struct IssueFields {
    pub summary: String,
    pub project: Option<Project>,
    pub issue_type: Option<IssueType>,
    pub timespent: Option<i64>,
    pub time_original_estimate: Option<i64>,
}

#[derive(Debug)]
pub struct Issue {
    pub id: String,
    pub key: String,
    pub self_url: String,
    pub fields: IssueFields,
}

#[derive(Debug)]
pub struct SearchResponse {
    pub issues: Vec<Issue>,
    pub total: Option<i32>,
    pub max_results: Option<i32>,
    pub next_page_token: Option<String>,
}

/// The comment of a worklog: a document's type and its top-level blocks.
#[derive(Debug)]
pub struct WorklogComment {
    pub doc_type: String,
    pub content: Option<Vec<Node>>,
}

#[derive(Debug)]
pub struct Worklog {
    pub id: String,
    pub self_url: String,
    pub author: User,
    pub time_spent: String,
    pub time_spent_seconds: i64,
    /// The wire timestamp, "2025-12-02T09:00:00.000+0000".
    pub started: String,
    pub comment: Option<WorklogComment>,
    pub issue_id: Option<String>,
}

#[derive(Debug)]
pub struct WorklogResponse {
    pub worklogs: Vec<Worklog>,
    pub total: i32,
    pub max_results: i32,
}

/// The editable text of a worklog's comment: its blocks rendered as
/// `text_of` renders a document's, or empty where there is no comment.
pub open spec fn comment_text_of(w: Worklog) -> Seq<char> {
    match w.comment {
        Some(c) => match c.content {
            Some(blocks) => text_of(Node::Document(blocks)@),
            None => seq![],
        },
        None => seq![],
    }
}

impl Worklog {
    /// The comment as markdown-like text for editing (see `comment_text_of`).
    pub fn comment_text(&self) -> (r: String)
        ensures
            r@ == comment_text_of(*self),
    {
        match &self.comment {
            Some(c) => match &c.content {
                Some(blocks) => blocks_to_markdown(blocks),
                None => String::new(),
            },
            None => String::new(),
        }
    }
}

/// The body of a request that logs or updates time.
#[derive(Debug)]
pub struct CreateWorklogRequest {
    pub time_spent_seconds: i64,
    pub started: String,
    pub comment: Node,
}

impl CreateWorklogRequest {
    /// A request for `seconds` on `date` from an optional typed start time,
    /// with the description read into a document; `utc_offset` is the
    /// local offset from UTC in seconds.
    pub fn from_seconds_with_time(
        seconds: i64,
        date: Date,
        description: &str,
        start_time: Option<&str>,
        utc_offset: i32,
    ) -> (r: CreateWorklogRequest)
        requires
            date.wf(),
        ensures
            r.time_spent_seconds == seconds,
            r.started@ == timestamp_of(
                date,
                match start_time {
                    Some(s) => Some(s@),
                    None => None,
                },
                utc_offset as int,
            ),
            r.comment@ == doc_of(description@),
    {
        let started = build_jira_timestamp(date, start_time, utc_offset);
        let comment = markdown_to_adf(description);
        CreateWorklogRequest { time_spent_seconds: seconds, started, comment }
    }
}

/// One entry of an exported week.
#[derive(Debug)]
pub struct ExportEntry {
    pub worklog_id: String,
    pub issue_key: String,
    pub issue_summary: String,
    pub issue_type: String,
    pub seconds: i64,
    pub description: String,
    /// "2025-12-02"
    pub date: String,
    pub start_time: String,
}

impl ExportEntry {
    /// The export form of a time entry: the same fields, the date as ISO text.
    pub fn from_entry(entry: &TimeEntry) -> (r: ExportEntry)
        requires
            entry.date.wf(),
        ensures
            r.worklog_id@ == entry.worklog_id@,
            r.issue_key@ == entry.issue_key@,
            r.issue_summary@ == entry.issue_summary@,
            r.issue_type@ == entry.issue_type@,
            r.seconds == entry.seconds,
            r.description@ == entry.description@,
            r.date@ == iso_date_of(entry.date.day as int),
            r.start_time@ == entry.start_time@,
    {
        ExportEntry {
            worklog_id: entry.worklog_id.clone(),
            issue_key: entry.issue_key.clone(),
            issue_summary: entry.issue_summary.clone(),
            issue_type: entry.issue_type.clone(),
            seconds: entry.seconds,
            description: entry.description.clone(),
            date: iso_text(entry.date),
            start_time: entry.start_time.clone(),
        }
    }
}

/// An exported week.
#[derive(Debug)]
pub struct WeeklyLog {
    pub week_start: String,
    pub week_end: String,
    pub exported_at: String,
    pub user_name: Option<String>,
    pub total_seconds: i64,
    pub entries: Vec<ExportEntry>,
}

/// A release newer than the running one.
#[derive(Debug)]
pub struct UpdateInfo {
    pub latest_version: String,
}

} // verus!
