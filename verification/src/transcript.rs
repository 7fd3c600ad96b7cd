//! Token counts and prompts read off the lines of one transcript.

use crate::clock::{earlier, is_near, Timestamp};
use crate::ranking::{is_ranking, rank, ranking, Weight};
use crate::table::Table;
use crate::text::{collapse, collapsed, joined, same, truncate_chars, truncated};
use vstd::prelude::*;

verus! {

/// Token counts by category.
#[derive(Clone, Copy, Debug, PartialEq, Eq, Structural)]
pub struct Totals {
    pub input: u64,
    pub output: u64,
    pub cache_creation: u64,
    pub cache_read: u64,
}

/// Token counts by category, without bound.
pub struct Count {
    pub input: nat,
    pub output: nat,
    pub cache_creation: nat,
    pub cache_read: nat,
}

impl Count {
    pub open spec fn sum(self) -> nat {
        self.input + self.output + self.cache_creation + self.cache_read
    }

    pub open spec fn plus(self, other: Count) -> Count {
        Count {
            input: self.input + other.input,
            output: self.output + other.output,
            cache_creation: self.cache_creation + other.cache_creation,
            cache_read: self.cache_read + other.cache_read,
        }
    }

    /// Whether each count fits in 64 bits.
    pub open spec fn fits(self) -> bool {
        &&& self.input <= u64::MAX
        &&& self.output <= u64::MAX
        &&& self.cache_creation <= u64::MAX
        &&& self.cache_read <= u64::MAX
    }
}

pub open spec fn no_tokens() -> Count {
    Count { input: 0, output: 0, cache_creation: 0, cache_read: 0 }
}

impl View for Totals {
    type V = Count;

    open spec fn view(&self) -> Count {
        Count {
            input: self.input as nat,
            output: self.output as nat,
            cache_creation: self.cache_creation as nat,
            cache_read: self.cache_read as nat,
        }
    }
}

impl Default for Totals {
    fn default() -> (r: Totals)
        ensures
            r@ == no_tokens(),
    {
        Totals { input: 0, output: 0, cache_creation: 0, cache_read: 0 }
    }
}

impl Totals {
    /// All tokens together.
    pub fn sum(&self) -> (r: u64)
        requires
            self@.sum() <= u64::MAX,
        ensures
            r == self@.sum(),
    {
        self.input + self.output + self.cache_creation + self.cache_read
    }

    /// All tokens together, where they fit in 64 bits.
    pub fn checked_sum(&self) -> (r: Option<u64>)
        ensures
            match r {
                Some(sum) => sum == self@.sum(),
                None => self@.sum() > u64::MAX,
            },
    {
        let a: u64 = match self.input.checked_add(self.output) {
            Some(n) => n,
            None => {
                return None;
            },
        };
        let b: u64 = match a.checked_add(self.cache_creation) {
            Some(n) => n,
            None => {
                return None;
            },
        };
        b.checked_add(self.cache_read)
    }

    /// Whether `other` can be added.
    pub fn can_add(&self, other: &Totals) -> (r: bool)
        ensures
            r == self@.plus(other@).fits(),
    {
        other.input <= u64::MAX - self.input && other.output <= u64::MAX - self.output
            && other.cache_creation <= u64::MAX - self.cache_creation && other.cache_read
            <= u64::MAX - self.cache_read
    }

    /// Adds `other` category by category.
    pub fn add(&mut self, other: &Totals)
        requires
            old(self)@.plus(other@).fits(),
        ensures
            final(self)@ == old(self)@.plus(other@),
    {
        self.input = self.input + other.input;
        self.output = self.output + other.output;
        self.cache_creation = self.cache_creation + other.cache_creation;
        self.cache_read = self.cache_read + other.cache_read;
    }
}

/// The tokens spent on a project and when it was last worked on.
#[derive(Clone, Copy, Debug)]
pub struct ProjectTotals {
    pub total: u64,
    pub last_used: Option<Timestamp>,
}

/// The tokens spent on a project, without bound.
pub struct ProjectCount {
    pub total: nat,
    pub last_used: Option<Timestamp>,
}

impl View for ProjectTotals {
    type V = ProjectCount;

    open spec fn view(&self) -> ProjectCount {
        ProjectCount { total: self.total as nat, last_used: self.last_used }
    }
}

/// A user prompt and the tokens of the answers to it. `text` is a preview of
/// the prompt.
#[derive(Debug)]
pub struct PromptStat {
    pub text: String,
    pub tokens: u64,
    pub project: String,
    pub timestamp: Timestamp,
}

/// What a `PromptStat` says.
pub struct Prompt {
    pub text: Seq<char>,
    pub tokens: nat,
    pub project: Seq<char>,
    pub timestamp: Timestamp,
}

impl View for PromptStat {
    type V = Prompt;

    open spec fn view(&self) -> Prompt {
        Prompt {
            text: self.text@,
            tokens: self.tokens as nat,
            project: self.project@,
            timestamp: self.timestamp,
        }
    }
}

impl Clone for PromptStat {
    fn clone(&self) -> (r: PromptStat)
        ensures
            r@ == self@,
    {
        PromptStat {
            text: self.text.clone(),
            tokens: self.tokens,
            project: self.project.clone(),
            timestamp: self.timestamp,
        }
    }
}

/// The token counts of one answer, as far as they are given.
#[derive(Clone, Copy, Debug)]
pub struct UsageBlock {
    pub input_tokens: Option<u64>,
    pub output_tokens: Option<u64>,
    pub cache_creation_input_tokens: Option<u64>,
    pub cache_read_input_tokens: Option<u64>,
}

/// A block of a message, with its type and its text where they are strings.
#[derive(Debug)]
pub struct Block {
    pub kind: Option<String>,
    pub text: Option<String>,
}

/// What a message holds.
#[derive(Debug)]
pub enum Content {
    Text(String),
    Blocks(Vec<Block>),
    Other,
}

#[derive(Debug)]
pub struct Message {
    pub usage: Option<UsageBlock>,
    pub content: Option<Content>,
}

/// A line of a transcript. `read_at` is when it was read.
#[derive(Debug)]
pub struct Line {
    pub kind: Option<String>,
    pub timestamp: Option<Timestamp>,
    pub read_at: Timestamp,
    pub cwd: Option<String>,
    pub is_sidechain: bool,
    pub message: Option<Message>,
}

pub open spec fn is_kind(kind: Option<String>, name: Seq<char>) -> bool {
    kind matches Some(k) && k@ == name
}

/// The texts of the text blocks.
pub open spec fn texts(blocks: Seq<Block>) -> Seq<Seq<char>>
    decreases blocks.len(),
{
    if blocks.len() == 0 {
        seq![]
    } else {
        let rest = texts(blocks.drop_last());
        match blocks.last().text {
            Some(t) => if is_kind(blocks.last().kind, "text"@) {
                rest.push(t@)
            } else {
                rest
            },
            None => rest,
        }
    }
}

/// The text of a prompt as it was typed; `None` for what is not a prompt, such
/// as the result of a tool.
pub open spec fn raw_prompt(content: Option<Content>) -> Option<Seq<char>> {
    match content {
        Some(Content::Text(s)) => Some(s@),
        Some(Content::Blocks(blocks)) => if exists|i: int|
            0 <= i < blocks@.len() && is_kind((#[trigger] blocks@[i]).kind, "tool_result"@) {
            None
        } else {
            Some(joined(texts(blocks@), " "@))
        },
        _ => None,
    }
}

/// The preview of a prompt.
pub open spec fn preview(content: Option<Content>) -> Option<Seq<char>> {
    match raw_prompt(content) {
        Some(raw) => if collapsed(raw).len() == 0 {
            None
        } else {
            Some(truncated(collapsed(raw), 120))
        },
        None => None,
    }
}

/// The most characters of a prompt that are kept.
const PROMPT_TEXT_MAX: usize = 120;

fn kind_is(kind: &Option<String>, name: &str) -> (r: bool)
    ensures
        r == is_kind(*kind, name@),
{
    match kind {
        Some(k) => same(k.as_str(), name),
        None => false,
    }
}

fn has_tool_result(blocks: &Vec<Block>) -> (r: bool)
    ensures
        r == exists|i: int|
            0 <= i < blocks@.len() && is_kind((#[trigger] blocks@[i]).kind, "tool_result"@),
{
    let mut i: usize = 0;
    while i < blocks.len()
        invariant
            i <= blocks.len(),
            forall|j: int| 0 <= j < i ==> !is_kind((#[trigger] blocks@[j]).kind, "tool_result"@),
        decreases blocks.len() - i,
    {
        if kind_is(&blocks[i].kind, "tool_result") {
            return true;
        }
        i = i + 1;
    }
    false
}

fn join_texts(blocks: &Vec<Block>) -> (r: String)
    ensures
        r@ == joined(texts(blocks@), " "@),
{
    let mut out = String::new();
    let mut first = true;
    let mut i: usize = 0;
    while i < blocks.len()
        invariant
            i <= blocks.len(),
            out@ == joined(texts(blocks@.take(i as int)), " "@),
            first == (texts(blocks@.take(i as int)).len() == 0),
        decreases blocks.len() - i,
    {
        let ghost t = texts(blocks@.take(i as int));
        proof {
            assert(blocks@.take(i + 1).drop_last() =~= blocks@.take(i as int));
        }
        if kind_is(&blocks[i].kind, "text") {
            if let Some(text) = &blocks[i].text {
                proof {
                    assert(t.push(text@).drop_last() =~= t);
                }
                if !first {
                    out.append(" ");
                }
                out.append(text.as_str());
                first = false;
                assert(out@ =~= joined(t.push(text@), " "@));
            }
        }
        i = i + 1;
    }
    assert(blocks@.take(i as int) =~= blocks@);
    out
}

/// The preview of a prompt, or `None` for what is not a prompt.
pub fn extract_prompt_text(content: &Option<Content>) -> (r: Option<String>)
    ensures
        match r {
            Some(s) => preview(*content) == Some(s@),
            None => preview(*content) is None,
        },
{
    let raw: String = match content {
        Some(Content::Text(s)) => s.clone(),
        Some(Content::Blocks(blocks)) => {
            if has_tool_result(blocks) {
                return None;
            }
            join_texts(blocks)
        },
        _ => {
            return None;
        },
    };
    let cleaned = collapse(raw.as_str());
    if cleaned.as_str().unicode_len() == 0 {
        return None;
    }
    Some(truncate_chars(cleaned.as_str(), PROMPT_TEXT_MAX))
}

/// When a line was written; when it was read, if it does not say.
pub open spec fn instant_of(line: Line) -> Timestamp {
    match line.timestamp {
        Some(t) => t,
        None => line.read_at,
    }
}

pub open spec fn or_zero(n: Option<u64>) -> u64 {
    match n {
        Some(v) => v,
        None => 0,
    }
}

/// The token counts that a line gives, all zero where it says nothing of one.
pub open spec fn reported(line: Line) -> Option<Count> {
    match line.message {
        Some(Message { usage: Some(u), .. }) => if is_kind(line.kind, "assistant"@) {
            Some(
                Count {
                    input: or_zero(u.input_tokens) as nat,
                    output: or_zero(u.output_tokens) as nat,
                    cache_creation: or_zero(u.cache_creation_input_tokens) as nat,
                    cache_read: or_zero(u.cache_read_input_tokens) as nat,
                },
            )
        } else {
            None
        },
        _ => None,
    }
}

/// The token counts that a line adds: those of an answer that used any.
pub open spec fn counted(line: Line) -> Option<Count> {
    match reported(line) {
        Some(c) => if c.sum() > 0 {
            Some(c)
        } else {
            None
        },
        None => None,
    }
}

/// The prompt that a line starts: one that a user typed at the top level.
pub open spec fn started(line: Line) -> Option<Prompt> {
    match line.message {
        Some(m) => if is_kind(line.kind, "user"@) && !line.is_sidechain {
            match preview(m.content) {
                Some(text) => Some(
                    Prompt {
                        text,
                        tokens: 0,
                        project: match line.cwd {
                            Some(p) => p@,
                            None => seq![],
                        },
                        timestamp: instant_of(line),
                    },
                ),
                None => None,
            }
        } else {
            None
        },
        None => None,
    }
}

pub open spec fn count_at<A>(m: Map<A, Count>, k: A) -> Count {
    if m.dom().contains(k) {
        m[k]
    } else {
        no_tokens()
    }
}

pub open spec fn project_at(m: Map<Seq<char>, ProjectCount>, k: Seq<char>) -> ProjectCount {
    if m.dom().contains(k) {
        m[k]
    } else {
        ProjectCount { total: 0, last_used: None }
    }
}

/// The tokens of each day, the line `lines[i]` falling on `days[i]`.
pub open spec fn day_counts(lines: Seq<Line>, days: Seq<i32>) -> Map<i32, Count>
    decreases lines.len(),
{
    if lines.len() == 0 {
        Map::empty()
    } else {
        let m = day_counts(lines.drop_last(), days);
        let d = days[lines.len() - 1];
        match counted(lines.last()) {
            Some(c) => m.insert(d, count_at(m, d).plus(c)),
            None => m,
        }
    }
}

/// The later of the last use so far and `t`.
pub open spec fn last_use(prev: Option<Timestamp>, t: Timestamp) -> Option<Timestamp> {
    match prev {
        Some(p) => if earlier(t, p) {
            Some(p)
        } else {
            Some(t)
        },
        None => Some(t),
    }
}

/// The tokens of each project.
pub open spec fn project_counts(lines: Seq<Line>) -> Map<Seq<char>, ProjectCount>
    decreases lines.len(),
{
    if lines.len() == 0 {
        Map::empty()
    } else {
        let m = project_counts(lines.drop_last());
        let line = lines.last();
        match (counted(line), line.cwd) {
            (Some(c), Some(p)) => {
                let was = project_at(m, p@);
                m.insert(
                    p@,
                    ProjectCount {
                        total: was.total + c.sum(),
                        last_used: last_use(was.last_used, instant_of(line)),
                    },
                )
            },
            _ => m,
        }
    }
}

/// The prompts in order, each with the tokens of the top-level answers up to
/// the next one.
pub open spec fn turns(lines: Seq<Line>) -> Seq<Prompt>
    decreases lines.len(),
{
    if lines.len() == 0 {
        seq![]
    } else {
        let t = turns(lines.drop_last());
        let line = lines.last();
        match (started(line), counted(line)) {
            (Some(p), _) => t.push(p),
            (None, Some(c)) => if line.is_sidechain || t.len() == 0 {
                t
            } else {
                t.drop_last().push(Prompt { tokens: t.last().tokens + c.sum(), ..t.last() })
            },
            _ => t,
        }
    }
}

/// Whether no count of the lines goes beyond 64 bits.
pub open spec fn lines_fit(lines: Seq<Line>, days: Seq<i32>) -> bool
    decreases lines.len(),
{
    lines.len() == 0 || {
        let rest = lines.drop_last();
        let line = lines.last();
        &&& lines_fit(rest, days)
        &&& reported(line) matches Some(c) ==> {
            &&& c.sum() <= u64::MAX
            &&& count_at(day_counts(rest, days), days[lines.len() - 1]).plus(c).fits()
            &&& line.cwd matches Some(p) ==> project_at(project_counts(rest), p@).total + c.sum()
                <= u64::MAX
            &&& !line.is_sidechain && turns(rest).len() > 0 ==> turns(rest).last().tokens + c.sum()
                <= u64::MAX
        }
    }
}

pub open spec fn counts_of(m: Map<i32, Totals>) -> Map<i32, Count> {
    m.map_values(|t: Totals| t@)
}

pub open spec fn project_counts_of(m: Map<Seq<char>, ProjectTotals>) -> Map<
    Seq<char>,
    ProjectCount,
> {
    m.map_values(|t: ProjectTotals| t@)
}

pub open spec fn prompts_of(s: Seq<PromptStat>) -> Seq<Prompt> {
    s.map_values(|p: PromptStat| p@)
}

pub open spec fn weights_of(s: Seq<Prompt>) -> Seq<u64> {
    s.map_values(|p: Prompt| p.tokens as u64)
}

/// The `n` prompts with the most tokens, most first.
pub open spec fn heaviest(s: Seq<Prompt>, n: int) -> Seq<Prompt> {
    let order = ranking::<Weight>(weights_of(s));
    Seq::new((if n < s.len() { n } else { s.len() as int }) as nat, |i: int| s[order[i] as int])
}

pub open spec fn paid(s: Seq<Prompt>) -> Seq<Prompt> {
    s.filter(|p: Prompt| p.tokens > 0)
}

/// What is kept of one transcript.
#[derive(Clone, Debug)]
pub struct FileEntry {
    pub mtime_unix_ns: i128,
    pub by_day: Table<i32, Totals>,
    pub by_project: Table<String, ProjectTotals>,
    /// The transcript's own heaviest prompts.
    pub top_prompts: Vec<PromptStat>,
    /// Whether the transcript is gone; its counts are kept.
    pub tombstoned: bool,
}

/// What a `FileEntry` says.
pub struct Filed {
    pub mtime: int,
    pub by_day: Map<i32, Count>,
    pub by_project: Map<Seq<char>, ProjectCount>,
    pub prompts: Seq<Prompt>,
    pub tombstoned: bool,
}

impl View for FileEntry {
    type V = Filed;

    open spec fn view(&self) -> Filed {
        Filed {
            mtime: self.mtime_unix_ns as int,
            by_day: counts_of(self.by_day@),
            by_project: project_counts_of(self.by_project@),
            prompts: prompts_of(self.top_prompts@),
            tombstoned: self.tombstoned,
        }
    }
}

/// The most prompts kept of one transcript.
pub const PER_FILE_PROMPTS: usize = 10;

/// `fe` is what is kept of a transcript with these lines.
pub open spec fn tallied(fe: FileEntry, lines: Seq<Line>, days: Seq<i32>, mtime: i128) -> bool {
    &&& fe@.mtime == mtime
    &&& fe@.by_day == day_counts(lines, days)
    &&& fe@.by_project == project_counts(lines)
    &&& fe@.prompts == heaviest(paid(turns(lines)), 10)
    &&& !fe@.tombstoned
}

fn zero_if_none(n: Option<u64>) -> (r: u64)
    ensures
        r == or_zero(n),
{
    match n {
        Some(v) => v,
        None => 0,
    }
}

fn reported_totals(line: &Line) -> (r: Option<Totals>)
    ensures
        match r {
            Some(t) => reported(*line) == Some(t@),
            None => reported(*line) is None,
        },
{
    if !kind_is(&line.kind, "assistant") {
        return None;
    }
    match &line.message {
        Some(m) => match &m.usage {
            Some(u) => Some(
                Totals {
                    input: zero_if_none(u.input_tokens),
                    output: zero_if_none(u.output_tokens),
                    cache_creation: zero_if_none(u.cache_creation_input_tokens),
                    cache_read: zero_if_none(u.cache_read_input_tokens),
                },
            ),
            None => None,
        },
        None => None,
    }
}

fn line_instant(line: &Line) -> (r: Timestamp)
    ensures
        r == instant_of(*line),
{
    match line.timestamp {
        Some(t) => t,
        None => line.read_at,
    }
}

fn started_prompt(line: &Line) -> (r: Option<PromptStat>)
    ensures
        match r {
            Some(p) => started(*line) == Some(p@),
            None => started(*line) is None,
        },
{
    if !kind_is(&line.kind, "user") || line.is_sidechain {
        return None;
    }
    match &line.message {
        Some(m) => match extract_prompt_text(&m.content) {
            Some(text) => {
                let project = match &line.cwd {
                    Some(p) => p.clone(),
                    None => String::new(),
                };
                let p = PromptStat { text, tokens: 0, project, timestamp: line_instant(line) };
                assert(started(*line)->0.project =~= p@.project);
                Some(p)
            },
            None => None,
        },
        None => None,
    }
}

/// The `n` heaviest of `prompts`, heaviest first.
pub fn pick_heaviest(prompts: &Vec<PromptStat>, n: usize) -> (r: Vec<PromptStat>)
    ensures
        prompts_of(r@) == heaviest(prompts_of(prompts@), n as int),
        r.len() <= n,
        forall|i: int, j: int|
            0 <= i < j < r.len() ==> (#[trigger] r@[i]).tokens >= (#[trigger] r@[j]).tokens,
{
    let mut keys: Vec<Weight> = Vec::new();
    let mut i: usize = 0;
    while i < prompts.len()
        invariant
            i <= prompts.len(),
            keys.len() == i,
            forall|j: int| 0 <= j < i ==> (#[trigger] keys@[j]).tokens == prompts@[j].tokens,
        decreases prompts.len() - i,
    {
        keys.push(Weight { tokens: prompts[i].tokens });
        i = i + 1;
    }
    let ghost weights = keys@.map_values(|k: Weight| k@);
    assert(weights =~= weights_of(prompts_of(prompts@)));
    let order = rank(&keys);
    let mut out: Vec<PromptStat> = Vec::new();
    let mut k: usize = 0;
    while k < n && k < order.len()
        invariant
            k <= order.len(),
            k <= n,
            is_ranking::<Weight>(order@, weights),
            weights.len() == prompts.len(),
            out.len() == k,
            forall|j: int| 0 <= j < weights.len() ==> #[trigger] weights[j] == prompts@[j].tokens,
            forall|j: int| 0 <= j < k ==> (#[trigger] out@[j])@ == prompts@[order@[j] as int]@,
        decreases order.len() - k,
    {
        assert(order@[k as int] < weights.len());
        out.push(prompts[order[k]].clone());
        k = k + 1;
    }
    assert(prompts_of(out@) =~= heaviest(prompts_of(prompts@), n as int));
    assert forall|i: int, j: int| 0 <= i < j < out.len() implies (#[trigger] out@[i]).tokens >= (
    #[trigger] out@[j]).tokens by {
        assert(out@[i]@.tokens == weights[order@[i] as int]);
        assert(out@[j]@.tokens == weights[order@[j] as int]);
    }
    out
}

proof fn lemma_counts_insert(m: Map<i32, Totals>, d: i32, t: Totals)
    ensures
        counts_of(m.insert(d, t)) == counts_of(m).insert(d, t@),
{
    assert(counts_of(m.insert(d, t)) =~= counts_of(m).insert(d, t@));
}

proof fn lemma_project_insert(m: Map<Seq<char>, ProjectTotals>, k: Seq<char>, t: ProjectTotals)
    ensures
        project_counts_of(m.insert(k, t)) == project_counts_of(m).insert(k, t@),
{
    assert(project_counts_of(m.insert(k, t)) =~= project_counts_of(m).insert(k, t@));
}

proof fn lemma_paid_push(s: Seq<Prompt>, p: Prompt)
    ensures
        paid(s.push(p)) == if p.tokens > 0 {
            paid(s).push(p)
        } else {
            paid(s)
        },
{
    reveal(Seq::filter);
    assert(s.push(p).drop_last() =~= s);
}

proof fn lemma_lines_fit(lines: Seq<Line>, days: Seq<i32>, i: int)
    requires
        lines_fit(lines, days),
        0 <= i <= lines.len(),
    ensures
        lines_fit(lines.take(i), days),
    decreases lines.len() - i,
{
    if i == lines.len() {
        assert(lines.take(i) =~= lines);
    } else {
        lemma_lines_fit(lines, days, i + 1);
        assert(lines.take(i + 1).drop_last() =~= lines.take(i));
    }
}

/// What is kept of a transcript, the line `lines[i]` falling on `days[i]`.
pub fn tally(lines: &Vec<Line>, days: &Vec<i32>, mtime: i128) -> (r: FileEntry)
    requires
        days.len() == lines.len(),
        lines_fit(lines@, days@),
    ensures
        tallied(r, lines@, days@, mtime),
{
    match tally_if_fits(lines, days, mtime) {
        Some(fe) => fe,
        None => FileEntry {
            mtime_unix_ns: mtime,
            by_day: Table::new(),
            by_project: Table::new(),
            top_prompts: Vec::new(),
            tombstoned: false,
        },
    }
}

proof fn lemma_not_fit(lines: Seq<Line>, days: Seq<i32>, i: int)
    requires
        0 <= i <= lines.len(),
        !lines_fit(lines.take(i), days),
    ensures
        !lines_fit(lines, days),
{
    if lines_fit(lines, days) {
        lemma_lines_fit(lines, days, i);
    }
}

/// What is kept of a transcript, the line `lines[i]` falling on `days[i]`, where
/// no count goes beyond 64 bits.
pub fn tally_if_fits(lines: &Vec<Line>, days: &Vec<i32>, mtime: i128) -> (r: Option<FileEntry>)
    requires
        days.len() == lines.len(),
    ensures
        match r {
            Some(fe) => lines_fit(lines@, days@) && tallied(fe, lines@, days@, mtime),
            None => !lines_fit(lines@, days@),
        },
{
    let mut by_day: Table<i32, Totals> = Table::new();
    let mut by_project: Table<String, ProjectTotals> = Table::new();
    let mut prompts: Vec<PromptStat> = Vec::new();
    let mut current: Option<PromptStat> = None;
    let mut i: usize = 0;
    proof {
        assert(counts_of(by_day@) =~= Map::empty());
        assert(project_counts_of(by_project@) =~= Map::empty());
        reveal(Seq::filter);
        assert(prompts_of(prompts@) =~= paid(Seq::empty()));
    }
    while i < lines.len()
        invariant
            i <= lines.len(),
            days.len() == lines.len(),
            lines_fit(lines@.take(i as int), days@),
            counts_of(by_day@) == day_counts(lines@.take(i as int), days@),
            project_counts_of(by_project@) == project_counts(lines@.take(i as int)),
            ({
                let t = turns(lines@.take(i as int));
                match current {
                    Some(c) => t.len() > 0 && c@ == t.last() && prompts_of(prompts@) == paid(
                        t.drop_last(),
                    ),
                    None => t.len() == 0 && prompts_of(prompts@) == paid(t),
                }
            }),
        decreases lines.len() - i,
    {
        let ghost before = lines@.take(i as int);
        let ghost t = turns(before);
        proof {
            assert(lines@.take(i + 1).drop_last() =~= before);
            assert(lines@.take(i + 1).last() == lines@[i as int]);
            if !lines_fit(lines@.take(i + 1), days@) {
                lemma_not_fit(lines@, days@, i + 1);
            }
        }
        let line = &lines[i];
        if let Some(totals) = reported_totals(line) {
            let sum: u64 = match totals.checked_sum() {
                Some(sum) => sum,
                None => {
                    return None;
                },
            };
            if sum > 0 {
                let day = days[i];
                let mut of_day: Totals = match by_day.get(&day) {
                    Some(t) => *t,
                    None => Totals::default(),
                };
                assert(of_day@ == count_at(day_counts(before, days@), day));
                if !of_day.can_add(&totals) {
                    return None;
                }
                of_day.add(&totals);
                proof {
                    lemma_counts_insert(by_day@, day, of_day);
                }
                by_day.insert(day, of_day);
                if let Some(cwd) = &line.cwd {
                    let was: ProjectTotals = match by_project.get(cwd) {
                        Some(p) => *p,
                        None => ProjectTotals { total: 0, last_used: None },
                    };
                    assert(was@ == project_at(project_counts(before), cwd@));
                    if sum > u64::MAX - was.total {
                        return None;
                    }
                    let at = line_instant(line);
                    let last = match was.last_used {
                        Some(prev) => if at.is_before(&prev) {
                            prev
                        } else {
                            at
                        },
                        None => at,
                    };
                    let now = ProjectTotals { total: was.total + sum, last_used: Some(last) };
                    proof {
                        lemma_project_insert(by_project@, cwd@, now);
                    }
                    by_project.insert(cwd.clone(), now);
                }
                if !line.is_sidechain {
                    if let Some(cur) = current {
                        if sum > u64::MAX - cur.tokens {
                            return None;
                        }
                        let next = PromptStat { tokens: cur.tokens + sum, ..cur };
                        proof {
                            let u = t.drop_last().push(next@);
                            assert(u.drop_last() =~= t.drop_last());
                        }
                        current = Some(next);
                    }
                }
            }
            assert(started(*line) is None) by {
                reveal_strlit("assistant");
                reveal_strlit("user");
                assert("assistant"@.len() != "user"@.len());
            }
        } else if let Some(p) = started_prompt(line) {
            if let Some(prev) = current {
                proof {
                    lemma_paid_push(t.drop_last(), prev@);
                    assert(t.drop_last().push(t.last()) =~= t);
                }
                if prev.tokens > 0 {
                    let ghost before_push = prompts@;
                    prompts.push(prev);
                    assert(prompts_of(prompts@) =~= prompts_of(before_push).push(prompts@.last()@));
                }
            }
            assert(t.push(p@).drop_last() =~= t);
            current = Some(p);
        }
        i = i + 1;
    }
    let ghost t = turns(lines@);
    assert(lines@.take(i as int) =~= lines@);
    if let Some(prev) = current {
        proof {
            lemma_paid_push(t.drop_last(), prev@);
            assert(t.drop_last().push(t.last()) =~= t);
        }
        if prev.tokens > 0 {
            let ghost before_push = prompts@;
            prompts.push(prev);
            assert(prompts_of(prompts@) =~= prompts_of(before_push).push(prompts@.last()@));
        }
    }
    let top_prompts = pick_heaviest(&prompts, PER_FILE_PROMPTS);
    Some(FileEntry { mtime_unix_ns: mtime, by_day, by_project, top_prompts, tombstoned: false })
}

/// `days[i]` may be the local day of `lines[i]`, for each line that counts.
pub open spec fn may_fall_on(lines: Seq<Line>, days: Seq<i32>) -> bool {
    &&& days.len() == lines.len()
    &&& forall|i: int|
        #![trigger lines[i]]
        0 <= i < lines.len() && counted(lines[i]) is Some ==> is_near(
            days[i],
            instant_of(lines[i]),
        )
}

/// Whether no count of the lines goes beyond 64 bits, whatever days they fall on.
pub open spec fn always_fit(lines: Seq<Line>) -> bool {
    forall|days: Seq<i32>| #[trigger] may_fall_on(lines, days) ==> lines_fit(lines, days)
}

/// All tokens that the lines report.
pub open spec fn reported_sum(lines: Seq<Line>) -> nat
    decreases lines.len(),
{
    if lines.len() == 0 {
        0
    } else {
        reported_sum(lines.drop_last()) + match reported(lines.last()) {
            Some(c) => c.sum(),
            None => 0,
        }
    }
}

proof fn lemma_counts_bounded(lines: Seq<Line>, days: Seq<i32>)
    ensures
        forall|d: i32| (#[trigger] count_at(day_counts(lines, days), d)).sum() <= reported_sum(lines),
        forall|p: Seq<char>|
            (#[trigger] project_at(project_counts(lines), p)).total <= reported_sum(lines),
        turns(lines).len() > 0 ==> turns(lines).last().tokens <= reported_sum(lines),
    decreases lines.len(),
{
    if lines.len() > 0 {
        let rest = lines.drop_last();
        lemma_counts_bounded(rest, days);
        assert forall|d: i32|
            (#[trigger] count_at(day_counts(lines, days), d)).sum() <= reported_sum(lines) by {
            assert(count_at(day_counts(rest, days), d).sum() <= reported_sum(rest));
        }
        assert forall|p: Seq<char>|
            (#[trigger] project_at(project_counts(lines), p)).total <= reported_sum(lines) by {
            assert(project_at(project_counts(rest), p).total <= reported_sum(rest));
        }
    }
}

/// Lines whose tokens fit in 64 bits all together can be counted.
pub proof fn small_lines_fit(lines: Seq<Line>, days: Seq<i32>)
    requires
        reported_sum(lines) <= u64::MAX,
    ensures
        lines_fit(lines, days),
    decreases lines.len(),
{
    if lines.len() > 0 {
        let rest = lines.drop_last();
        small_lines_fit(rest, days);
        lemma_counts_bounded(rest, days);
        if let Some(c) = reported(lines.last()) {
            let d = days[lines.len() - 1];
            assert(count_at(day_counts(rest, days), d).sum() <= reported_sum(rest));
        }
    }
}

fn line_counts(line: &Line) -> (r: bool)
    ensures
        r == (counted(*line) is Some),
{
    match reported_totals(line) {
        Some(t) => t.input > 0 || t.output > 0 || t.cache_creation > 0 || t.cache_read > 0,
        None => false,
    }
}

/// The day of each line that counts, in the machine's time zone.
fn local_days(lines: &Vec<Line>) -> (days: Vec<i32>)
    requires
        days_are_known(lines@),
    ensures
        may_fall_on(lines@, days@),
{
    let mut days: Vec<i32> = Vec::new();
    let mut i: usize = 0;
    while i < lines.len()
        invariant
            i <= lines.len(),
            days.len() == i,
            days_are_known(lines@),
            forall|k: int|
                #![trigger lines@[k]]
                0 <= k < i && counted(lines@[k]) is Some ==> is_near(days@[k], instant_of(lines@[k])),
        decreases lines.len() - i,
    {
        let line = &lines[i];
        let day: i32 = if line_counts(line) {
            line_instant(line).local_day()
        } else {
            0
        };
        days.push(day);
        i = i + 1;
    }
    assert(may_fall_on(lines@, days@));
    days
}

/// What is kept of a transcript last changed at `mtime`. Each line falls on its
/// day in the machine's time zone.
pub fn parse_file(lines: &Vec<Line>, mtime: i128) -> (r: FileEntry)
    requires
        always_fit(lines@),
        days_are_known(lines@),
    ensures
        exists|days: Seq<i32>|
            #[trigger] may_fall_on(lines@, days) && tallied(r, lines@, days, mtime),
{
    let days = local_days(lines);
    tally(lines, &days, mtime)
}

/// Whether every line that counts has a local day.
pub open spec fn days_are_known(lines: Seq<Line>) -> bool {
    forall|i: int|
        0 <= i < lines.len() && counted(#[trigger] lines[i]) is Some ==> instant_of(
            lines[i],
        ).localizable()
}

fn has_days(lines: &Vec<Line>) -> (r: bool)
    ensures
        r == days_are_known(lines@),
{
    let mut i: usize = 0;
    while i < lines.len()
        invariant
            i <= lines.len(),
            forall|k: int|
                0 <= k < i && counted(#[trigger] lines@[k]) is Some ==> instant_of(
                    lines@[k],
                ).localizable(),
        decreases lines.len() - i,
    {
        if line_counts(&lines[i]) && !line_instant(&lines[i]).is_localizable() {
            return false;
        }
        i = i + 1;
    }
    true
}

/// What is kept of a transcript last changed at `mtime`, each line falling on
/// its day in the machine's time zone. There is nothing where a line has no day
/// there, or a count goes beyond 64 bits.
pub fn parse_if_fits(lines: &Vec<Line>, mtime: i128) -> (r: Option<FileEntry>)
    ensures
        match r {
            Some(fe) => days_are_known(lines@) && exists|days: Seq<i32>| #[trigger]
                may_fall_on(lines@, days) && lines_fit(lines@, days) && tallied(
                    fe,
                    lines@,
                    days,
                    mtime,
                ),
            None => !days_are_known(lines@) || exists|days: Seq<i32>| #[trigger]
                may_fall_on(lines@, days) && !lines_fit(lines@, days),
        },
{
    if !has_days(lines) {
        return None;
    }
    let days = local_days(lines);
    tally_if_fits(lines, &days, mtime)
}

/// A preview has at least one character and at most 120.
pub proof fn previews_are_short(content: Option<Content>)
    ensures
        preview(content) matches Some(text) ==> 0 < text.len() <= 120,
{
}

/// All tokens of some prompts.
pub open spec fn prompt_sum(s: Seq<Prompt>) -> nat
    decreases s.len(),
{
    if s.len() == 0 {
        0
    } else {
        prompt_sum(s.drop_last()) + s.last().tokens
    }
}

/// The tokens of the top-level answers.
pub open spec fn answered_sum(lines: Seq<Line>) -> nat
    decreases lines.len(),
{
    if lines.len() == 0 {
        0
    } else {
        answered_sum(lines.drop_last()) + match counted(lines.last()) {
            Some(c) => if lines.last().is_sidechain {
                0
            } else {
                c.sum()
            },
            None => 0,
        }
    }
}

/// No token of an answer goes to more than one prompt, and none of a sidechain
/// to any.
pub proof fn prompts_share_the_answers(lines: Seq<Line>)
    ensures
        prompt_sum(turns(lines)) <= answered_sum(lines),
    decreases lines.len(),
{
    if lines.len() > 0 {
        let rest = lines.drop_last();
        prompts_share_the_answers(rest);
        let t = turns(rest);
        let line = lines.last();
        if let Some(p) = started(line) {
            assert(t.push(p).drop_last() =~= t);
        } else if let Some(c) = counted(line) {
            if !line.is_sidechain && t.len() > 0 {
                let last = Prompt { tokens: t.last().tokens + c.sum(), ..t.last() };
                assert(t.drop_last().push(last).drop_last() =~= t.drop_last());
            }
        }
    }
}

/// The tokens of the lines that fall on day `d`.
pub open spec fn lines_on(lines: Seq<Line>, days: Seq<i32>, d: i32) -> Count
    decreases lines.len(),
{
    if lines.len() == 0 {
        no_tokens()
    } else {
        let rest = lines_on(lines.drop_last(), days, d);
        match counted(lines.last()) {
            Some(c) => if days[lines.len() - 1] == d {
                rest.plus(c)
            } else {
                rest
            },
            None => rest,
        }
    }
}

/// What is kept of a day is the sum over its lines.
pub proof fn day_counts_are_sums(lines: Seq<Line>, days: Seq<i32>, d: i32)
    ensures
        count_at(day_counts(lines, days), d) == lines_on(lines, days, d),
    decreases lines.len(),
{
    if lines.len() > 0 {
        day_counts_are_sums(lines.drop_last(), days, d);
    }
}

/// The tokens of the lines of a project.
pub open spec fn lines_in(lines: Seq<Line>, project: Seq<char>) -> nat
    decreases lines.len(),
{
    if lines.len() == 0 {
        0
    } else {
        let rest = lines_in(lines.drop_last(), project);
        match (counted(lines.last()), lines.last().cwd) {
            (Some(c), Some(p)) => if p@ == project {
                rest + c.sum()
            } else {
                rest
            },
            _ => rest,
        }
    }
}

/// What is kept of a project is the sum over its lines, those of sidechains
/// among them.
pub proof fn project_counts_are_sums(lines: Seq<Line>, project: Seq<char>)
    ensures
        project_at(project_counts(lines), project).total == lines_in(lines, project),
    decreases lines.len(),
{
    if lines.len() > 0 {
        project_counts_are_sums(lines.drop_last(), project);
    }
}

/// No line of a project is later than its last use.
pub proof fn last_use_is_latest(lines: Seq<Line>, i: int)
    requires
        0 <= i < lines.len(),
        counted(lines[i]) is Some,
        lines[i].cwd is Some,
    ensures
        ({
            let kept = project_at(project_counts(lines), lines[i].cwd->0@);
            kept.last_used matches Some(t) && !earlier(t, instant_of(lines[i]))
        }),
    decreases lines.len(),
{
    let rest = lines.drop_last();
    if i < rest.len() {
        assert(rest[i] == lines[i]);
        last_use_is_latest(rest, i);
    }
}

/// A line that is neither a prompt nor an answer.
pub open spec fn is_idle(line: Line) -> bool {
    !is_kind(line.kind, "user"@) && !is_kind(line.kind, "assistant"@)
}

/// A line that is neither a prompt nor an answer makes no difference wherever it
/// stands and whatever day it falls on.
pub proof fn idle_lines_make_no_difference(
    lines: Seq<Line>,
    days: Seq<i32>,
    i: int,
    line: Line,
    day: i32,
)
    requires
        is_idle(line),
        0 <= i <= lines.len() <= days.len(),
    ensures
        day_counts(lines.insert(i, line), days.insert(i, day)) == day_counts(lines, days),
        project_counts(lines.insert(i, line)) == project_counts(lines),
        turns(lines.insert(i, line)) == turns(lines),
        forall|fe: FileEntry, mtime: i128| #[trigger]
            tallied(fe, lines.insert(i, line), days.insert(i, day), mtime) == tallied(
                fe,
                lines,
                days,
                mtime,
            ),
    decreases lines.len(),
{
    let more = lines.insert(i, line);
    let more_days = days.insert(i, day);
    if i == lines.len() {
        assert(more.drop_last() =~= lines);
        lemma_day_inserted(lines, days, i, day);
    } else {
        let rest = lines.drop_last();
        assert(more.drop_last() =~= rest.insert(i, line));
        assert(more.last() == lines.last());
        assert(more_days[more.len() - 1] == days[lines.len() - 1]);
        idle_lines_make_no_difference(rest, days, i, line, day);
    }
}

proof fn lemma_day_inserted(lines: Seq<Line>, days: Seq<i32>, i: int, day: i32)
    requires
        lines.len() <= i <= days.len(),
    ensures
        day_counts(lines, days.insert(i, day)) == day_counts(lines, days),
    decreases lines.len(),
{
    if lines.len() > 0 {
        lemma_day_inserted(lines.drop_last(), days, i, day);
    }
}

/// A number of tokens, where it is given.
pub open spec fn given(n: Option<u64>) -> nat {
    match n {
        Some(v) => v as nat,
        None => 0,
    }
}

/// Adding counts adds each category, and so all tokens together.
pub proof fn counts_add_by_category(a: Count, b: Count)
    ensures
        a.plus(b).input == a.input + b.input,
        a.plus(b).output == a.output + b.output,
        a.plus(b).cache_creation == a.cache_creation + b.cache_creation,
        a.plus(b).cache_read == a.cache_read + b.cache_read,
        a.sum() == a.input + a.output + a.cache_creation + a.cache_read,
        a.plus(b).sum() == a.sum() + b.sum(),
        no_tokens().sum() == 0,
        a.plus(no_tokens()) == a,
{
}

/// The tokens that the answer on a line used, over all four categories.
pub open spec fn tokens_of(line: Line) -> nat {
    match (line.message, line.kind) {
        (Some(m), Some(kind)) => match m.usage {
            Some(u) => if kind@ == "assistant"@ {
                given(u.input_tokens) + given(u.output_tokens) + given(
                    u.cache_creation_input_tokens,
                ) + given(u.cache_read_input_tokens)
            } else {
                0
            },
            None => 0,
        },
        _ => 0,
    }
}

/// A line counts exactly when it is an answer that used tokens, and then each
/// category counts what the answer says of it.
pub proof fn an_answer_counts_all_that_it_used(line: Line)
    ensures
        counted(line) is Some <==> tokens_of(line) > 0,
        counted(line) matches Some(c) ==> {
            &&& line.message matches Some(m) && m.usage matches Some(u) && {
                &&& c.input == given(u.input_tokens)
                &&& c.output == given(u.output_tokens)
                &&& c.cache_creation == given(u.cache_creation_input_tokens)
                &&& c.cache_read == given(u.cache_read_input_tokens)
            }
            &&& c.input + c.output + c.cache_creation + c.cache_read == tokens_of(line)
        },
{
}

/// What a line is dated by: when it was written if it says so, else when it was
/// read.
pub proof fn lines_are_dated(line: Line)
    ensures
        line.timestamp matches Some(t) ==> instant_of(line) == t,
        line.timestamp is None ==> instant_of(line) == line.read_at,
{
}

/// A prompt starts exactly on a top-level line of the user with something typed
/// in it. It has no tokens yet, and carries the text, the project and the time of
/// its line.
pub proof fn what_starts_a_prompt(line: Line)
    ensures
        started(line) is Some <==> {
            &&& line.kind matches Some(kind) && kind@ == "user"@
            &&& !line.is_sidechain
            &&& line.message matches Some(m) && preview(m.content) is Some
        },
        started(line) matches Some(p) ==> {
            &&& p.tokens == 0
            &&& line.message matches Some(m) && preview(m.content) == Some(p.text)
            &&& line.cwd matches Some(cwd) ==> p.project == cwd@
            &&& line.cwd is None ==> p.project.len() == 0
            &&& p.timestamp == instant_of(line)
        },
        started(line) is Some ==> tokens_of(line) == 0,
{
    reveal_strlit("assistant");
    reveal_strlit("user");
    assert("assistant"@.len() != "user"@.len());
}

/// The tokens of the top-level answers on the lines from `a` up to before `b`.
pub open spec fn answers_between(lines: Seq<Line>, a: int, b: int) -> nat
    decreases b - a,
{
    if b <= a {
        0
    } else {
        answers_between(lines, a, b - 1) + if lines[b - 1].is_sidechain {
            0
        } else {
            tokens_of(lines[b - 1])
        }
    }
}

/// How many of the first `n` lines start a prompt.
pub open spec fn starts_before(lines: Seq<Line>, n: int) -> nat
    decreases n,
{
    if n <= 0 {
        0
    } else {
        starts_before(lines, n - 1) + if started(lines[n - 1]) is Some {
            1nat
        } else {
            0
        }
    }
}

proof fn lemma_starts_prefix(lines: Seq<Line>, n: int)
    requires
        0 <= n < lines.len(),
    ensures
        starts_before(lines.drop_last(), n) == starts_before(lines, n),
    decreases n,
{
    if n > 0 {
        lemma_starts_prefix(lines, n - 1);
    }
}

proof fn lemma_starts_grow(lines: Seq<Line>, a: int, b: int)
    requires
        0 <= a <= b,
    ensures
        starts_before(lines, a) <= starts_before(lines, b),
        (forall|i: int| a <= i < b ==> started(#[trigger] lines[i]) is None) ==> starts_before(
            lines,
            a,
        ) == starts_before(lines, b),
    decreases b - a,
{
    if a < b {
        lemma_starts_grow(lines, a, b - 1);
    }
}

proof fn lemma_answers_prefix(lines: Seq<Line>, a: int, b: int)
    requires
        0 <= a,
        b < lines.len(),
    ensures
        answers_between(lines.drop_last(), a, b) == answers_between(lines, a, b),
    decreases b - a,
{
    if a < b {
        lemma_answers_prefix(lines, a, b - 1);
    }
}

/// There are as many turns as prompts that start.
pub proof fn one_turn_per_prompt(lines: Seq<Line>)
    ensures
        turns(lines).len() == starts_before(lines, lines.len() as int),
    decreases lines.len(),
{
    if lines.len() > 0 {
        one_turn_per_prompt(lines.drop_last());
        lemma_starts_prefix(lines, lines.len() - 1);
        assert(lines.last() == lines[lines.len() - 1]);
    }
}

/// A prompt that starts on line `j` has the tokens of all top-level answers, in
/// all four categories, between its line and the line of the next prompt, or the
/// end. The prompts stand in the order of their lines.
pub proof fn a_prompt_has_the_answers_up_to_the_next(lines: Seq<Line>, j: int, k: int)
    requires
        0 <= j < k <= lines.len(),
        started(lines[j]) is Some,
        forall|i: int| j < i < k ==> started(#[trigger] lines[i]) is None,
        k == lines.len() || started(lines[k]) is Some,
    ensures
        starts_before(lines, j) < turns(lines).len(),
        turns(lines)[starts_before(lines, j) as int] == (Prompt {
            tokens: answers_between(lines, j, k),
            ..started(lines[j])->0
        }),
    decreases lines.len(),
{
    let n = lines.len() as int;
    let rest = lines.drop_last();
    let last = lines[n - 1];
    let at = starts_before(lines, j) as int;
    one_turn_per_prompt(rest);
    one_turn_per_prompt(lines);
    an_answer_counts_all_that_it_used(last);
    what_starts_a_prompt(last);
    assert(lines.last() == last);
    lemma_starts_prefix(lines, j);
    lemma_starts_prefix(lines, n - 1);
    if j == n - 1 {
        assert(answers_between(lines, j, k) == answers_between(lines, j, j) + 0);
    } else if k == n {
        assert(rest[j] == lines[j]);
        assert forall|i: int| j < i < n - 1 implies started(#[trigger] rest[i]) is None by {
            assert(rest[i] == lines[i]);
        }
        a_prompt_has_the_answers_up_to_the_next(rest, j, n - 1);
        lemma_answers_prefix(lines, j, n - 1);
        lemma_starts_grow(lines, j + 1, n - 1);
        assert(starts_before(lines, j + 1) == at + 1);
        assert(turns(rest).len() == at + 1);
    } else {
        assert(rest[j] == lines[j]);
        assert forall|i: int| j < i < k implies started(#[trigger] rest[i]) is None by {
            assert(rest[i] == lines[i]);
        }
        if k < n - 1 {
            assert(rest[k] == lines[k]);
            lemma_starts_grow(lines, j + 1, k);
            lemma_starts_grow(lines, k + 1, n - 1);
            assert(starts_before(lines, k + 1) == starts_before(lines, k) + 1);
            assert(starts_before(lines, j + 1) == at + 1);
            assert(turns(rest).len() >= at + 2);
        }
        a_prompt_has_the_answers_up_to_the_next(rest, j, k);
        lemma_answers_prefix(lines, j, k);
    }
}

/// Every token of a top-level answer after the first prompt goes to a prompt,
/// and no other: the prompts have them all together.
pub proof fn prompts_have_all_answers_after_the_first(lines: Seq<Line>, first: int)
    requires
        0 <= first < lines.len(),
        started(lines[first]) is Some,
        forall|i: int| 0 <= i < first ==> started(#[trigger] lines[i]) is None,
    ensures
        prompt_sum(turns(lines)) == answers_between(lines, first, lines.len() as int),
    decreases lines.len(),
{
    let n = lines.len() as int;
    let rest = lines.drop_last();
    let last = lines[n - 1];
    let t = turns(rest);
    assert(lines.last() == last);
    an_answer_counts_all_that_it_used(last);
    what_starts_a_prompt(last);
    one_turn_per_prompt(rest);
    lemma_starts_prefix(lines, n - 1);
    if first == n - 1 {
        lemma_starts_grow(lines, 0, n - 1);
        assert(t =~= seq![]);
        assert(turns(lines).drop_last() =~= t);
        assert(prompt_sum(t) == 0);
        assert(answers_between(lines, first, first) == 0);
    } else {
        assert(rest[first] == lines[first]);
        assert forall|i: int| 0 <= i < first implies started(#[trigger] rest[i]) is None by {
            assert(rest[i] == lines[i]);
        }
        prompts_have_all_answers_after_the_first(rest, first);
        lemma_answers_prefix(lines, first, n - 1);
        lemma_starts_grow(lines, 0, first);
        lemma_starts_grow(lines, first + 1, n - 1);
        assert(starts_before(lines, first + 1) == 1);
        assert(t.len() >= 1);
        if let Some(p) = started(last) {
            assert(t.push(p).drop_last() =~= t);
        } else if let Some(c) = counted(last) {
            if !last.is_sidechain {
                let grown = Prompt { tokens: t.last().tokens + c.sum(), ..t.last() };
                assert(t.drop_last().push(grown).drop_last() =~= t.drop_last());
                assert(prompt_sum(t) == prompt_sum(t.drop_last()) + t.last().tokens);
            }
        }
    }
}

/// Prompts without tokens are dropped, and no others.
pub proof fn only_prompts_with_tokens_are_kept(s: Seq<Prompt>)
    ensures
        prompt_sum(paid(s)) == prompt_sum(s),
        forall|i: int| 0 <= i < paid(s).len() ==> (#[trigger] paid(s)[i]).tokens > 0,
        (forall|i: int| 0 <= i < s.len() ==> (#[trigger] s[i]).tokens > 0) ==> paid(s) == s,
    decreases s.len(),
{
    reveal(Seq::filter);
    if s.len() > 0 {
        let rest = s.drop_last();
        only_prompts_with_tokens_are_kept(rest);
        assert(rest.push(s.last()) =~= s);
        lemma_paid_push(rest, s.last());
        if s.last().tokens > 0 {
            assert(paid(s).drop_last() =~= paid(rest));
            assert forall|i: int| 0 <= i < paid(s).len() implies (#[trigger] paid(s)[i]).tokens
                > 0 by {
                if i < paid(rest).len() {
                    assert(paid(s)[i] == paid(rest)[i]);
                }
            }
        }
        if forall|i: int| 0 <= i < s.len() ==> (#[trigger] s[i]).tokens > 0 {
            assert forall|i: int| 0 <= i < rest.len() implies (#[trigger] rest[i]).tokens > 0 by {
                assert(rest[i] == s[i]);
            }
            assert(s[s.len() - 1].tokens > 0);
        }
    }
}

/// `order` picks the heaviest of some prompts: no prompt twice, heavier ones
/// first, those of one weight as they stood, and none left out that is heavier
/// than one picked.
pub open spec fn picks_the_heaviest(s: Seq<Prompt>, order: Seq<usize>, r: Seq<Prompt>) -> bool {
    &&& order.len() == r.len()
    &&& forall|i: int|
        0 <= i < order.len() ==> (#[trigger] order[i]) < s.len() && r[i] == s[order[i] as int]
    &&& forall|i: int, j: int|
        0 <= i < j < order.len() ==> {
            let (a, b) = (s[#[trigger] order[i] as int].tokens, s[#[trigger] order[j] as int].tokens);
            a > b || (a == b && order[i] < order[j])
        }
    &&& forall|i: int, j: usize|
        0 <= i < order.len() && j < s.len() && !order.contains(j) ==> (#[trigger] r[i]).tokens >= (
        #[trigger] s[j as int]).tokens
}

/// The heaviest prompts are picked, as many as are asked for or there are.
pub proof fn the_heaviest_are_picked(s: Seq<Prompt>, n: int)
    requires
        n >= 0,
        s.len() <= usize::MAX,
        forall|i: int| 0 <= i < s.len() ==> (#[trigger] s[i]).tokens <= u64::MAX,
    ensures
        heaviest(s, n).len() == if n < s.len() {
            n
        } else {
            s.len() as int
        },
        exists|order: Seq<usize>| picks_the_heaviest(s, order, heaviest(s, n)),
{
    let w = weights_of(s);
    let all = ranking::<Weight>(w);
    crate::ranking::every_list_has_a_ranking::<Weight>(w);
    let r = heaviest(s, n);
    let order = all.take(r.len() as int);
    assert forall|i: int, j: int| 0 <= i < j < order.len() implies {
        let (a, b) = (s[#[trigger] order[i] as int].tokens, s[#[trigger] order[j] as int].tokens);
        a > b || (a == b && order[i] < order[j])
    } by {
        assert(crate::ranking::ranks_before::<Weight>(w, all[i], all[j]));
    }
    assert forall|i: int, j: usize|
        0 <= i < order.len() && j < s.len() && !order.contains(j) implies (#[trigger] r[i]).tokens
        >= (#[trigger] s[j as int]).tokens by {
        crate::ranking::every_item_is_ranked::<Weight>(all, w, j);
        let k = all.index_of(j);
        if k < order.len() {
            assert(order[k] == j);
        }
        assert(crate::ranking::ranks_before::<Weight>(w, all[i], all[k]));
    }
    assert(picks_the_heaviest(s, order, r));
}

/// What is kept of a transcript: when it was last changed, that it is there, and
/// the ten heaviest of its prompts that used tokens.
pub proof fn what_is_kept_of_a_transcript(
    fe: FileEntry,
    lines: Seq<Line>,
    days: Seq<i32>,
    mtime: i128,
)
    requires
        tallied(fe, lines, days, mtime),
        lines.len() <= usize::MAX,
        forall|i: int| 0 <= i < turns(lines).len() ==> (#[trigger] turns(lines)[i]).tokens <= u64::MAX,
    ensures
        fe@.mtime == mtime,
        !fe@.tombstoned,
        fe@.prompts.len() == if paid(turns(lines)).len() < 10 {
            paid(turns(lines)).len()
        } else {
            10
        },
        exists|order: Seq<usize>| picks_the_heaviest(paid(turns(lines)), order, fe@.prompts),
{
    let t = turns(lines);
    lemma_turns_fewer(lines);
    lemma_paid_small(t);
    the_heaviest_are_picked(paid(t), 10);
}

proof fn lemma_turns_fewer(lines: Seq<Line>)
    ensures
        turns(lines).len() <= lines.len(),
    decreases lines.len(),
{
    if lines.len() > 0 {
        lemma_turns_fewer(lines.drop_last());
    }
}

proof fn lemma_paid_small(s: Seq<Prompt>)
    requires
        forall|i: int| 0 <= i < s.len() ==> (#[trigger] s[i]).tokens <= u64::MAX,
    ensures
        paid(s).len() <= s.len(),
        forall|i: int| 0 <= i < paid(s).len() ==> (#[trigger] paid(s)[i]).tokens <= u64::MAX,
    decreases s.len(),
{
    reveal(Seq::filter);
    if s.len() > 0 {
        let rest = s.drop_last();
        assert forall|i: int| 0 <= i < rest.len() implies (#[trigger] rest[i]).tokens <= u64::MAX by {
            assert(rest[i] == s[i]);
        }
        lemma_paid_small(rest);
        assert(rest.push(s.last()) =~= s);
        lemma_paid_push(rest, s.last());
        assert(s[s.len() - 1].tokens <= u64::MAX);
        if s.last().tokens > 0 {
            assert forall|i: int| 0 <= i < paid(s).len() implies (#[trigger] paid(s)[i]).tokens
                <= u64::MAX by {
                if i < paid(rest).len() {
                    assert(paid(s)[i] == paid(rest)[i]);
                }
            }
        }
    }
}

/// The tokens of the lines of a file that fall on day `d`.
pub open spec fn tokens_on(lines: Seq<Line>, days: Seq<i32>, d: i32) -> nat
    decreases lines.len(),
{
    if lines.len() == 0 {
        0
    } else {
        tokens_on(lines.drop_last(), days, d) + if days[lines.len() - 1] == d {
            tokens_of(lines.last())
        } else {
            0
        }
    }
}

/// The tokens of the lines of a project.
pub open spec fn tokens_in(lines: Seq<Line>, project: Seq<char>) -> nat
    decreases lines.len(),
{
    if lines.len() == 0 {
        0
    } else {
        tokens_in(lines.drop_last(), project) + match lines.last().cwd {
            Some(p) => if p@ == project {
                tokens_of(lines.last())
            } else {
                0
            },
            None => 0,
        }
    }
}

/// A day has the tokens of every answer on it, those of sidechains among them,
/// and is kept exactly when there are any; so has a project. The last use of a
/// project is the date of one of its answers.
pub proof fn days_and_projects_have_every_answer(
    lines: Seq<Line>,
    days: Seq<i32>,
    d: i32,
    p: Seq<char>,
)
    ensures
        count_at(day_counts(lines, days), d).sum() == tokens_on(lines, days, d),
        day_counts(lines, days).dom().contains(d) <==> tokens_on(lines, days, d) > 0,
        project_at(project_counts(lines), p).total == tokens_in(lines, p),
        project_counts(lines).dom().contains(p) <==> tokens_in(lines, p) > 0,
        project_at(project_counts(lines), p).last_used matches Some(t) ==> exists|i: int|
            0 <= i < lines.len() && tokens_of(#[trigger] lines[i]) > 0 && (lines[i].cwd matches Some(
                q,
            ) && q@ == p) && instant_of(lines[i]) == t,
        project_at(project_counts(lines), p).last_used is None <==> tokens_in(lines, p) == 0,
    decreases lines.len(),
{
    if lines.len() > 0 {
        let rest = lines.drop_last();
        let last = lines[lines.len() - 1];
        assert(lines.last() == last);
        days_and_projects_have_every_answer(rest, days, d, p);
        an_answer_counts_all_that_it_used(last);
        if let Some(t) = project_at(project_counts(lines), p).last_used {
            if project_at(project_counts(rest), p).last_used == Some(t) {
                let i = choose|i: int|
                    0 <= i < rest.len() && tokens_of(#[trigger] rest[i]) > 0 && (
                    rest[i].cwd matches Some(q) && q@ == p) && instant_of(rest[i]) == t;
                assert(lines[i] == rest[i]);
            } else {
                assert(instant_of(last) == t);
            }
        }
    }
}

/// Only blocks of text make up a prompt, each with its whole text, in order.
pub proof fn texts_of_a_message(a: Seq<Block>, b: Seq<Block>, block: Block)
    ensures
        texts(a + b) == texts(a) + texts(b),
        texts(seq![block]) == (match (block.kind, block.text) {
            (Some(kind), Some(text)) => if kind@ == "text"@ {
                seq![text@]
            } else {
                seq![]
            },
            _ => seq![],
        }),
    decreases b.len(),
{
    assert(texts(seq![block].drop_last()) =~= seq![]) by {
        assert(seq![block].drop_last() =~= seq![]);
    }
    assert(texts(seq![block]) =~= (match (block.kind, block.text) {
        (Some(kind), Some(text)) => if kind@ == "text"@ {
            seq![text@]
        } else {
            seq![]
        },
        _ => seq![],
    }));
    if b.len() == 0 {
        assert(a + b =~= a);
        assert(texts(a) + texts(b) =~= texts(a));
    } else {
        texts_of_a_message(a, b.drop_last(), block);
        assert((a + b).drop_last() =~= a + b.drop_last());
        assert((a + b).last() == b.last());
        assert(texts(a + b) =~= texts(a) + texts(b));
    }
}

/// What was typed is shown with its white space collapsed, and cut off after 120
/// characters; what a tool answered, and nothing but white space, is no prompt.
pub proof fn what_is_shown_of_a_prompt(content: Option<Content>)
    ensures
        content is None ==> preview(content) is None,
        content matches Some(Content::Other) ==> preview(content) is None,
        content matches Some(Content::Text(s)) ==> (preview(content) is Some <==> collapsed(
            s@,
        ).len() > 0),
        content matches Some(Content::Text(s)) ==> (collapsed(s@).len() <= 120 ==> (
        preview(content) matches Some(text) ==> text == collapsed(s@))),
        content matches Some(Content::Blocks(blocks)) ==> ((exists|i: int|
            0 <= i < blocks@.len() && (#[trigger] blocks@[i]).kind is Some && blocks@[i].kind->0@
                == "tool_result"@) ==> preview(content) is None),
        preview(content) matches Some(text) ==> 0 < text.len() <= 120,
{
    if let Some(Content::Blocks(blocks)) = content {
        if exists|i: int|
            0 <= i < blocks@.len() && (#[trigger] blocks@[i]).kind is Some && blocks@[i].kind->0@
                == "tool_result"@ {
            let i = choose|i: int|
                0 <= i < blocks@.len() && (#[trigger] blocks@[i]).kind is Some
                    && blocks@[i].kind->0@ == "tool_result"@;
            assert(is_kind(blocks@[i].kind, "tool_result"@));
        }
    }
}

/// A message of several blocks is shown as its texts are, one after the other with
/// a space between them, unless a tool answers in one of the blocks.
pub proof fn blocks_are_shown_as_their_texts(blocks: Vec<Block>, whole: String)
    requires
        forall|i: int|
            0 <= i < blocks@.len() ==> !((#[trigger] blocks@[i]).kind matches Some(kind) && kind@
                == "tool_result"@),
        whole@ == joined(texts(blocks@), seq![' ']),
    ensures
        preview(Some(Content::Blocks(blocks))) == preview(Some(Content::Text(whole))),
{
    reveal_strlit(" ");
    assert(" "@ =~= seq![' ']);
    assert forall|i: int| 0 <= i < blocks@.len() implies !is_kind(
        (#[trigger] blocks@[i]).kind,
        "tool_result"@,
    ) by {}
}

/// A long prompt is cut after 119 characters, and an ellipsis stands for the rest.
pub proof fn long_prompts_are_cut(s: String)
    requires
        collapsed(s@).len() > 120,
    ensures
        preview(Some(Content::Text(s))) == Some(collapsed(s@).take(119).push('…')),
{
}

/// The last use so far and a new one leave the later of the two.
pub proof fn uses_go_forward(prev: Option<Timestamp>, t: Timestamp)
    ensures
        last_use(prev, t) matches Some(u) && (u == t || prev == Some(u)) && !earlier(u, t),
        prev matches Some(p) ==> (last_use(prev, t) matches Some(u) && !earlier(u, p)),
        prev is None ==> last_use(prev, t) == Some(t),
{
    if let Some(p) = prev {
        crate::clock::instants_are_ordered(p, t);
    }
}

/// Without a prompt, the tokens of the answers go to none.
pub proof fn without_a_prompt_there_are_no_turns(lines: Seq<Line>)
    requires
        forall|i: int| 0 <= i < lines.len() ==> started(#[trigger] lines[i]) is None,
    ensures
        turns(lines).len() == 0,
        prompt_sum(turns(lines)) == 0,
{
    one_turn_per_prompt(lines);
    lemma_starts_grow(lines, 0, lines.len() as int);
}

} // verus!
