//! The entity types of the coordination core, each with a mathematical
//! model (`...Model`) used by contracts, plus the clock and identifier
//! helpers.

use vstd::prelude::*;
use crate::text;

verus! {

/// Ceiling, in seconds, that a blocked ask waits for an answer.
pub const ASK_TIMEOUT_SECS: i64 = 300;

/// Cadence, in milliseconds, at which an adapter polls for an answer.
pub const ASK_POLL_MILLIS: u64 = 500;

// ---------------------------------------------------------------------------
// Session
// ---------------------------------------------------------------------------

/// Lifecycle state of a session. `Waiting` carries the outstanding
/// question of an ask/answer rendezvous and when it was asked.
pub enum Status {
    Active,
    Waiting { question: String, asked_at: i64 },
    Done,
}

/// Mathematical model of [`Status`].
#[verifier::ext_equal]
pub enum StatusModel {
    Active,
    Waiting { question: Seq<char>, asked_at: int },
    Done,
}

impl DeepView for Status {
    type V = StatusModel;

    open spec fn deep_view(&self) -> StatusModel {
        match self {
            Status::Active => StatusModel::Active,
            Status::Waiting { question, asked_at } => StatusModel::Waiting {
                question: question@,
                asked_at: *asked_at as int,
            },
            Status::Done => StatusModel::Done,
        }
    }
}

impl Status {
    pub fn is_done(&self) -> (r: bool)
        ensures
            r == (self.deep_view() is Done),
    {
        matches!(self, Status::Done)
    }

    pub fn is_active(&self) -> (r: bool)
        ensures
            r == (self.deep_view() is Active),
    {
        matches!(self, Status::Active)
    }

    pub fn is_waiting(&self) -> (r: bool)
        ensures
            r == (self.deep_view() is Waiting),
    {
        matches!(self, Status::Waiting { .. })
    }
}

/// One tracked unit of agent work.
pub struct Session {
    pub id: String,
    pub name: Option<String>,
    pub agent: String,
    pub cwd: String,
    pub status: Status,
    pub created: i64,
    pub last_activity: i64,
}

/// Mathematical model of [`Session`].
#[verifier::ext_equal]
pub struct SessionModel {
    pub id: Seq<char>,
    pub name: Option<Seq<char>>,
    pub agent: Seq<char>,
    pub cwd: Seq<char>,
    pub status: StatusModel,
    pub created: int,
    pub last_activity: int,
}

impl DeepView for Session {
    type V = SessionModel;

    open spec fn deep_view(&self) -> SessionModel {
        SessionModel {
            id: self.id@,
            name: self.name.deep_view(),
            agent: self.agent@,
            cwd: self.cwd@,
            status: self.status.deep_view(),
            created: self.created as int,
            last_activity: self.last_activity as int,
        }
    }
}

// ---------------------------------------------------------------------------
// Hook
// ---------------------------------------------------------------------------

/// An immutable, append-only record of one lifecycle event of a session.
/// `meta` carries an open-ended payload as text.
pub struct Hook {
    pub ts: i64,
    pub kind: String,
    pub task: String,
    pub meta: String,
}

/// Mathematical model of [`Hook`].
#[verifier::ext_equal]
pub struct HookModel {
    pub ts: int,
    pub kind: Seq<char>,
    pub task: Seq<char>,
    pub meta: Seq<char>,
}

impl DeepView for Hook {
    type V = HookModel;

    open spec fn deep_view(&self) -> HookModel {
        HookModel { ts: self.ts as int, kind: self.kind@, task: self.task@, meta: self.meta@ }
    }
}

// ---------------------------------------------------------------------------
// Chain links
// ---------------------------------------------------------------------------

/// One checkpoint in a named, ordered multi-session chain.
pub struct ChainLink {
    pub chain_name: String,
    pub session_id: String,
    pub slug: String,
    pub content: String,
    pub ts: i64,
}

/// Mathematical model of [`ChainLink`].
#[verifier::ext_equal]
pub struct ChainLinkModel {
    pub chain_name: Seq<char>,
    pub session_id: Seq<char>,
    pub slug: Seq<char>,
    pub content: Seq<char>,
    pub ts: int,
}

impl DeepView for ChainLink {
    type V = ChainLinkModel;

    open spec fn deep_view(&self) -> ChainLinkModel {
        ChainLinkModel {
            chain_name: self.chain_name@,
            session_id: self.session_id@,
            slug: self.slug@,
            content: self.content@,
            ts: self.ts as int,
        }
    }
}

// ---------------------------------------------------------------------------
// Memory
// ---------------------------------------------------------------------------

/// A key-addressed free-form note; a second write to the same key
/// overwrites the first.
pub struct Memory {
    pub key: String,
    pub session_id: String,
    pub content: String,
    pub kind: String,
    pub ts: i64,
}

/// Mathematical model of [`Memory`].
#[verifier::ext_equal]
pub struct MemoryModel {
    pub key: Seq<char>,
    pub session_id: Seq<char>,
    pub content: Seq<char>,
    pub kind: Seq<char>,
    pub ts: int,
}

impl DeepView for Memory {
    type V = MemoryModel;

    open spec fn deep_view(&self) -> MemoryModel {
        MemoryModel {
            key: self.key@,
            session_id: self.session_id@,
            content: self.content@,
            kind: self.kind@,
            ts: self.ts as int,
        }
    }
}

// ---------------------------------------------------------------------------
// Artifact
// ---------------------------------------------------------------------------

/// A reference to an external file plus searchable metadata.
pub struct Artifact {
    pub id: String,
    pub file_path: String,
    pub title: String,
    pub description: String,
    pub session_id: String,
    pub file_type: String,
    pub ts: i64,
}

/// Mathematical model of [`Artifact`].
#[verifier::ext_equal]
pub struct ArtifactModel {
    pub id: Seq<char>,
    pub file_path: Seq<char>,
    pub title: Seq<char>,
    pub description: Seq<char>,
    pub session_id: Seq<char>,
    pub file_type: Seq<char>,
    pub ts: int,
}

impl DeepView for Artifact {
    type V = ArtifactModel;

    open spec fn deep_view(&self) -> ArtifactModel {
        ArtifactModel {
            id: self.id@,
            file_path: self.file_path@,
            title: self.title@,
            description: self.description@,
            session_id: self.session_id@,
            file_type: self.file_type@,
            ts: self.ts as int,
        }
    }
}

// ---------------------------------------------------------------------------
// Search results
// ---------------------------------------------------------------------------

/// One hit of the global search. `score` is a relevance in thousandths
/// (0 lowest, 1000 highest); `id` is a composite identifier that
/// `global_get` can dereference.
pub struct SearchResult {
    pub result_type: String,
    pub id: String,
    pub title: String,
    pub score: u32,
    pub preview: String,
}

/// Mathematical model of [`SearchResult`].
#[verifier::ext_equal]
pub struct SearchResultModel {
    pub result_type: Seq<char>,
    pub id: Seq<char>,
    pub title: Seq<char>,
    pub score: u32,
    pub preview: Seq<char>,
}

impl DeepView for SearchResult {
    type V = SearchResultModel;

    open spec fn deep_view(&self) -> SearchResultModel {
        SearchResultModel {
            result_type: self.result_type@,
            id: self.id@,
            title: self.title@,
            score: self.score,
            preview: self.preview@,
        }
    }
}

// ---------------------------------------------------------------------------
// Request payloads, as the adapters hand them in
// ---------------------------------------------------------------------------

/// Request to create a session.
pub struct CreateSessionReq {
    pub agent: String,
    pub name: Option<String>,
    pub cwd: String,
}

/// Request to append a lifecycle hook.
pub struct HookReq {
    pub kind: String,
    pub task: String,
    pub meta: String,
}

/// Request to start or resume a session under an external correlation id.
pub struct StartReq {
    pub claude_session_id: String,
    pub agent: String,
    pub cwd: String,
}

/// Request to save a chain checkpoint.
pub struct ChainSaveReq {
    pub chain_name: String,
    pub slug: String,
    pub content: String,
}

/// Request to search chains by name.
pub struct ChainSearchReq {
    pub query: String,
    pub limit: usize,
}

/// Request to save an artifact record.
pub struct ArtifactSaveReq {
    pub file_path: String,
    pub title: String,
    pub description: String,
}

/// Request for a global search.
pub struct GlobalSearchReq {
    pub query: String,
    pub limit: usize,
}

/// Notifications pushed to an observing user interface.
#[derive(Clone, Copy, Debug)]
pub enum TuiEvent {
    NewSession,
    SessionDone,
    Refresh,
}

// ---------------------------------------------------------------------------
// Clones that keep the model
// ---------------------------------------------------------------------------

/// A copy of `s` with the same characters.
pub fn clone_string(s: &String) -> (r: String)
    ensures
        r@ == s@,
{
    s.clone()
}

/// A copy of an optional string with the same characters.
pub fn clone_opt_string(s: &Option<String>) -> (r: Option<String>)
    ensures
        r.deep_view() == s.deep_view(),
{
    match s {
        Some(v) => Some(clone_string(v)),
        None => None,
    }
}

/// A copy of a status with the same model.
pub fn clone_status(s: &Status) -> (r: Status)
    ensures
        r.deep_view() == s.deep_view(),
{
    match s {
        Status::Active => Status::Active,
        Status::Waiting { question, asked_at } => Status::Waiting {
            question: clone_string(question),
            asked_at: *asked_at,
        },
        Status::Done => Status::Done,
    }
}

/// A copy of a session with the same model.
pub fn clone_session(s: &Session) -> (r: Session)
    ensures
        r.deep_view() == s.deep_view(),
{
    Session {
        id: clone_string(&s.id),
        name: clone_opt_string(&s.name),
        agent: clone_string(&s.agent),
        cwd: clone_string(&s.cwd),
        status: clone_status(&s.status),
        created: s.created,
        last_activity: s.last_activity,
    }
}

/// A copy of a hook with the same model.
pub fn clone_hook(h: &Hook) -> (r: Hook)
    ensures
        r.deep_view() == h.deep_view(),
{
    Hook {
        ts: h.ts,
        kind: clone_string(&h.kind),
        task: clone_string(&h.task),
        meta: clone_string(&h.meta),
    }
}

/// A copy of a chain link with the same model.
pub fn clone_link(l: &ChainLink) -> (r: ChainLink)
    ensures
        r.deep_view() == l.deep_view(),
{
    ChainLink {
        chain_name: clone_string(&l.chain_name),
        session_id: clone_string(&l.session_id),
        slug: clone_string(&l.slug),
        content: clone_string(&l.content),
        ts: l.ts,
    }
}

/// A copy of a memory with the same model.
pub fn clone_memory(m: &Memory) -> (r: Memory)
    ensures
        r.deep_view() == m.deep_view(),
{
    Memory {
        key: clone_string(&m.key),
        session_id: clone_string(&m.session_id),
        content: clone_string(&m.content),
        kind: clone_string(&m.kind),
        ts: m.ts,
    }
}

/// A copy of an artifact with the same model.
pub fn clone_artifact(a: &Artifact) -> (r: Artifact)
    ensures
        r.deep_view() == a.deep_view(),
{
    Artifact {
        id: clone_string(&a.id),
        file_path: clone_string(&a.file_path),
        title: clone_string(&a.title),
        description: clone_string(&a.description),
        session_id: clone_string(&a.session_id),
        file_type: clone_string(&a.file_type),
        ts: a.ts,
    }
}

// ---------------------------------------------------------------------------
// Clock and identifiers
// ---------------------------------------------------------------------------

/// Relies on std::time::SystemTime: seconds elapsed since the Unix epoch,
/// clamped into the non-negative range of `i64`.
#[verifier::external_body]
pub fn now() -> (t: i64)
    ensures
        t >= 0,
{
    match std::time::SystemTime::now().duration_since(std::time::UNIX_EPOCH) {
        Ok(d) => i64::try_from(d.as_secs()).unwrap_or(i64::MAX),
        Err(_) => 0,
    }
}

/// Relies on std::time::SystemTime: nanoseconds elapsed since the Unix
/// epoch, truncated to 64 bits; nothing is promised of the value.
#[verifier::external_body]
fn now_nanos() -> (t: u64) {
    match std::time::SystemTime::now().duration_since(std::time::UNIX_EPOCH) {
        Ok(d) => d.as_nanos() as u64,
        Err(_) => 0,
    }
}

/// The short identifier derived from a 64-bit timestamp: the two 32-bit
/// halves folded together, rendered in hexadecimal, first six characters.
pub open spec fn spec_short_id(t: u64) -> Seq<char> {
    text::spec_take(text::spec_hex_u32(((t as u32) ^ ((t >> 32) as u32)) as int), 6)
}

proof fn lemma_hex_nonempty(n: int)
    requires
        n >= 0,
    ensures
        text::spec_hex_u32(n).len() >= 1,
    decreases n,
{
    if n >= 16 {
        lemma_hex_nonempty(n / 16);
    }
}

/// The deterministic part of [`short_id`]: the identifier derived from a
/// given timestamp.
pub fn short_id_of(t: u64) -> (r: String)
    ensures
        r@ == spec_short_id(t),
        1 <= r@.len() <= 6,
{
    let x: u32 = (t as u32) ^ ((t >> 32) as u32);
    proof {
        lemma_hex_nonempty(x as int);
    }
    text::hex_u32_prefix(x, 6)
}

/// A fresh opaque short identifier drawn from the clock.
pub fn short_id() -> (r: String)
    ensures
        1 <= r@.len() <= 6,
{
    short_id_of(now_nanos())
}

// ---------------------------------------------------------------------------
// Artifact identifiers and file types
// ---------------------------------------------------------------------------

/// Characters that survive when a title is folded into an identifier.
pub open spec fn is_id_char(c: char) -> bool {
    text::is_unicode_alnum(c) || c == '-' || c == '_'
}

/// The surviving characters of a sequence, in order.
pub open spec fn keep_id_chars(s: Seq<char>) -> Seq<char>
    decreases s.len(),
{
    if s.len() == 0 {
        Seq::empty()
    } else {
        let rest = keep_id_chars(s.drop_last());
        if is_id_char(s.last()) {
            rest.push(s.last())
        } else {
            rest
        }
    }
}

/// A title folded into identifier form: only alphanumerics, `-` and `_`
/// survive, capped at 50 characters.
pub open spec fn spec_sanitize(s: Seq<char>) -> Seq<char> {
    text::spec_take(keep_id_chars(s), 50)
}

/// Sanitizes a title for use inside an identifier.
pub fn sanitize_title(title: &str) -> (r: String)
    ensures
        r@ == spec_sanitize(title@),
{
    let v = text::chars_vec(title);
    let mut acc: Vec<char> = Vec::new();
    let mut i: usize = 0;
    proof {
        assert(v@.take(0) =~= Seq::<char>::empty());
    }
    while i < v.len()
        invariant
            i <= v@.len(),
            v@ == title@,
            acc@ == text::spec_take(keep_id_chars(v@.take(i as int)), 50),
            acc@.len() <= 50,
        decreases v@.len() - i,
    {
        let ghost kept = keep_id_chars(v@.take(i as int));
        proof {
            assert(v@.take(i as int + 1).drop_last() =~= v@.take(i as int));
            assert(v@.take(i as int + 1).last() == v@[i as int]);
        }
        let c = v[i];
        if (c.is_alphanumeric() || c == '-' || c == '_') && acc.len() < 50 {
            acc.push(c);
            proof {
                assert(kept.len() < 50);
                assert(acc@ =~= text::spec_take(kept.push(c), 50));
            }
        } else {
            proof {
                if is_id_char(c) {
                    assert(kept.len() >= 50);
                    assert(text::spec_take(kept.push(c), 50) =~= acc@);
                } else {
                    assert(keep_id_chars(v@.take(i as int + 1)) == kept);
                }
            }
        }
        i += 1;
    }
    proof {
        assert(v@.take(v@.len() as int) =~= v@);
    }
    text::from_chars(&acc)
}

/// The identifier an artifact is created under: the decimal creation time
/// and the sanitized title, joined by an underscore.
pub open spec fn spec_artifact_id(ts: int, title: Seq<char>) -> Seq<char> {
    text::spec_dec_i64(ts) + "_"@ + spec_sanitize(title)
}

/// Derives an artifact identifier from a creation time and title.
pub fn artifact_id_of(ts: i64, title: &str) -> (r: String)
    ensures
        r@ == spec_artifact_id(ts as int, title@),
{
    let mut r = text::i64_to_string(ts);
    r.append("_");
    let s = sanitize_title(title);
    r.append(s.as_str());
    r
}

/// The extension of a path: what follows the last dot of the final path
/// segment, unless the dot leads the segment or is missing.
pub open spec fn spec_extension(p: Seq<char>) -> Option<Seq<char>> {
    let name = p.skip(text::spec_last_index_of(p, '/') + 1);
    let d = text::spec_last_index_of(name, '.');
    if d <= 0 {
        None
    } else {
        Some(name.skip(d + 1))
    }
}

/// The extension of a path, if it has one.
pub fn extension_of(path: &str) -> (r: Option<String>)
    ensures
        match r {
            Some(e) => spec_extension(path@) == Some(e@),
            None => spec_extension(path@) is None,
        },
{
    let v = text::chars_vec(path);
    let name = match text::last_index_of(&v, '/') {
        Some(si) => text::slice_range(&v, si + 1, v.len()),
        None => text::slice_range(&v, 0, v.len()),
    };
    proof {
        assert(name@ =~= path@.skip(text::spec_last_index_of(path@, '/') + 1));
    }
    match text::last_index_of(&name, '.') {
        None => None,
        Some(d) => {
            if d == 0 {
                None
            } else {
                let e = text::slice_range(&name, d + 1, name.len());
                proof {
                    assert(e@ =~= name@.skip(d as int + 1));
                }
                Some(text::from_chars(&e))
            }
        },
    }
}

/// The artifact record an adapter saves: the identifier derived from the
/// creation time and sanitized title, every other field as given.
pub fn make_artifact(
    session_id: &str,
    file_path: &str,
    title: &str,
    description: &str,
    file_type: &str,
    now_ts: i64,
) -> (a: Artifact)
    ensures
        a.deep_view() == (ArtifactModel {
            id: spec_artifact_id(now_ts as int, title@),
            file_path: file_path@,
            title: title@,
            description: description@,
            session_id: session_id@,
            file_type: file_type@,
            ts: now_ts as int,
        }),
{
    Artifact {
        id: artifact_id_of(now_ts, title),
        file_path: file_path.to_owned(),
        title: title.to_owned(),
        description: description.to_owned(),
        session_id: session_id.to_owned(),
        file_type: file_type.to_owned(),
        ts: now_ts,
    }
}

} // verus!
