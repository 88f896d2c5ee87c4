//! Data shapes shared across the application: users and sessions, vault and
//! file requests, search matches, change events, preferences, uploads, and
//! link-graph records. Timestamps are carried as text; parsing them is the
//! persistence layer's business.

use vstd::prelude::*;

verus! {

/// Authorization role of a user.
#[derive(Clone, Copy, PartialEq, Eq, Structural, Debug)]
pub enum UserRole {
    /// Full admin access.
    Admin,
    /// Regular approved user.
    User,
    /// Newly registered, awaiting approval.
    Pending,
}

/// The wire form of each role.
pub open spec fn spec_role_str(r: UserRole) -> Seq<char> {
    match r {
        UserRole::Admin => "admin"@,
        UserRole::User => "user"@,
        UserRole::Pending => "pending"@,
    }
}

/// The role a wire string denotes; anything unknown is `Pending`.
pub open spec fn spec_role_of(s: Seq<char>) -> UserRole {
    if s == "admin"@ {
        UserRole::Admin
    } else if s == "user"@ {
        UserRole::User
    } else {
        UserRole::Pending
    }
}

impl UserRole {
    /// The wire form of this role.
    pub fn as_str(&self) -> (r: &'static str)
        ensures
            r@ == spec_role_str(*self),
    {
        match self {
            UserRole::Admin => "admin",
            UserRole::User => "user",
            UserRole::Pending => "pending",
        }
    }

    /// Parse a wire string; unknown strings give `Pending`.
    pub fn from_str(s: &str) -> (r: Self)
        ensures
            r == spec_role_of(s@),
    {
        if crate::strutil::str_eq(s, "admin") {
            UserRole::Admin
        } else if crate::strutil::str_eq(s, "user") {
            UserRole::User
        } else {
            UserRole::Pending
        }
    }
}

/// A user row as stored, with textual timestamps.
pub struct UserRow {
    pub id: String,
    pub email: String,
    pub name: String,
    pub picture: Option<String>,
    pub role: String,
    pub oidc_subject: String,
    pub oidc_issuer: String,
    pub created_at: String,
    pub updated_at: String,
}

/// A session row as stored, with textual timestamps.
pub struct SessionRow {
    pub id: String,
    pub user_id: String,
    pub token_hash: String,
    pub expires_at: String,
    pub created_at: String,
}

/// The current-user payload sent to the frontend.
pub struct AuthUserResponse {
    pub id: String,
    pub email: String,
    pub name: String,
    pub picture: Option<String>,
    pub role: UserRole,
}

impl AuthUserResponse {
    /// Build the response from a stored user row.
    pub fn from_row(row: UserRow) -> (r: Self)
        ensures
            r.id@ == row.id@,
            r.email@ == row.email@,
            r.name@ == row.name@,
            crate::strutil::opt_view(r.picture) == crate::strutil::opt_view(row.picture),
            r.role == spec_role_of(row.role@),
    {
        let role = UserRole::from_str(row.role.as_str());
        AuthUserResponse {
            id: row.id,
            email: row.email,
            name: row.name,
            picture: row.picture,
            role,
        }
    }
}

/// Request body for changing a user's role.
pub struct UpdateUserRoleRequest {
    pub role: UserRole,
}

/// Kind of a node in the link graph.
#[derive(Clone, Copy, PartialEq, Eq, Structural, Debug)]
pub enum NodeType {
    File,
    Image,
    Tag,
    Attachment,
    /// A linked file that does not exist.
    Virtual,
}

/// Kind of an edge in the link graph.
#[derive(Clone, Copy, PartialEq, Eq, Structural, Debug)]
pub enum EdgeType {
    Link,
    Embed,
    Tag,
}

/// One edge of the link graph, weighted by how many links it stands for.
pub struct GraphEdge {
    pub source: String,
    pub target: String,
    pub count: u32,
    pub edge_type: EdgeType,
}

/// Request body for creating a vault.
pub struct CreateVaultRequest {
    pub name: String,
    pub path: String,
}

/// Request body for creating a file.
pub struct CreateFileRequest {
    pub path: String,
    pub content: Option<String>,
}

/// One match within a searched file.
pub struct SearchMatch {
    pub line_number: usize,
    pub line_text: String,
    pub match_start: usize,
    pub match_end: usize,
}

/// How a rename behaves when the target name is taken.
#[derive(Clone, Copy, PartialEq, Eq, Structural, Debug)]
pub enum RenameStrategy {
    Fail,
    Overwrite,
    /// Pick a fresh numbered name.
    AutoRename,
}

/// What happened to a watched file.
pub enum FileChangeType {
    Created,
    Modified,
    Deleted,
    Renamed { from: String, to: String },
}

/// How the editor renders a note.
#[derive(Clone, Copy, PartialEq, Eq, Structural, Debug)]
pub enum EditorMode {
    Raw,
    SideBySide,
    FormattedRaw,
    FullyRendered,
}

/// Per-user interface preferences.
pub struct UserPreferences {
    pub theme: String,
    pub editor_mode: EditorMode,
    pub font_size: u16,
    pub window_layout: Option<String>,
}

impl Default for UserPreferences {
    fn default() -> (r: Self)
        ensures
            r.theme@ == "dark"@,
            r.editor_mode == EditorMode::SideBySide,
            r.font_size == 14,
            r.window_layout is None,
    {
        UserPreferences {
            theme: "dark".to_owned(),
            editor_mode: EditorMode::SideBySide,
            font_size: 14,
            window_layout: None,
        }
    }
}

/// Request body for starting a chunked upload.
pub struct CreateUploadSessionRequest {
    pub filename: String,
    /// Target directory.
    pub path: String,
    pub total_size: Option<u64>,
}

/// Progress of a chunked upload.
pub struct UploadSessionResponse {
    pub session_id: String,
    pub uploaded_bytes: u64,
    pub total_size: Option<u64>,
}

/// Query parameters of the authentication callback.
pub struct CallbackQuery {
    pub code: String,
    pub state: String,
}

/// Request body for resolving one wiki link.
pub struct ResolveWikiLinkRequest {
    pub link: String,
    /// Current file path, for relative resolution.
    pub current_file: Option<String>,
}

/// Result of resolving one wiki link.
pub struct ResolveWikiLinkResponse {
    pub path: String,
    pub exists: bool,
    pub alternatives: Vec<String>,
}

/// Request body for resolving several wiki links at once.
pub struct BatchResolveRequest {
    pub links: Vec<String>,
    pub current_file: Option<String>,
}

/// Results of a batch resolution, keyed by the link text as given.
pub struct BatchResolveResponse {
    pub resolved: Vec<(String, ResolveWikiLinkResponse)>,
}

/// Request body for rendering markdown.
pub struct RenderRequest {
    pub content: String,
}

/// Request body for rendering markdown with link resolution.
pub struct RenderWithResolutionRequest {
    pub content: String,
    /// Current file path, for relative link resolution.
    pub current_file: Option<String>,
}

} // verus!
