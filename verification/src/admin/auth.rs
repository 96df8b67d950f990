//! Administrator sessions: the session table, the login and logout steps, and
//! the guard in front of the `/admin` routes.
use crate::admin::creds::{uuid_text, uuid_v4_text};
use crate::http::response::Response;
use crate::security::Sanitizer;
use crate::lex::starts_with;
use crate::multimap::bytes_equal;
use crate::strmap::StrMap;
use crate::text::{lemma_sbytes_injective, sbytes, str_bytes, str_to_string};
use vstd::prelude::*;

verus! {

/// `admin_user_id`: the session key that marks an administrator.
pub open spec fn admin_key() -> Seq<char> {
    seq!['a', 'd', 'm', 'i', 'n', '_', 'u', 's', 'e', 'r', '_', 'i', 'd']
}

/// `admin_user_1`: the identity a successful login records.
pub open spec fn admin_identity() -> Seq<char> {
    seq!['a', 'd', 'm', 'i', 'n', '_', 'u', 's', 'e', 'r', '_', '1']
}

/// What a session holds.
pub struct SessionView {
    pub id: Seq<char>,
    pub data: Map<Seq<char>, Seq<char>>,
    pub user_id: Option<Seq<char>>,
}

/// The text of an optional string.
pub open spec fn opt_text(o: Option<String>) -> Option<Seq<char>> {
    match o {
        Some(s) => Some(s@),
        None => None,
    }
}

/// A client session: its id, its key/value data and the user it belongs to.
pub struct Session {
    id: String,
    data: StrMap<String>,
    user_id: Option<String>,
}

impl View for Session {
    type V = SessionView;

    open spec fn view(&self) -> SessionView {
        SessionView { id: self.id_text(), data: self.data_map(), user_id: self.user_text() }
    }
}

impl Session {
    pub closed spec fn id_text(&self) -> Seq<char> {
        self.id@
    }

    pub closed spec fn data_map(&self) -> Map<Seq<char>, Seq<char>> {
        self.data@
    }

    pub closed spec fn user_text(&self) -> Option<Seq<char>> {
        opt_text(self.user_id)
    }

    #[verifier::type_invariant]
    spec fn data_ok(&self) -> bool {
        self.data.wf()
    }

    /// A session with no data.
    pub fn new(id: String, user_id: Option<String>) -> (s: Self)
        ensures
            s@ == (SessionView { id: id@, data: Map::empty(), user_id: opt_text(user_id) }),
    {
        Session { id, data: StrMap::new(), user_id }
    }

    /// Stores `value` under `key`, replacing what was there.
    pub fn insert(&mut self, key: String, value: String)
        ensures
            final(self)@ == (SessionView { data: old(self)@.data.insert(key@, value@), ..old(self)@ }),
    {
        proof {
            use_type_invariant(&*self);
        }
        let mut data: StrMap<String> = StrMap::new();
        std::mem::swap(&mut data, &mut self.data);
        data.insert(key, value);
        self.data = data;
    }

    /// The value under `key`.
    pub fn get(&self, key: &str) -> (r: Option<&String>)
        ensures
            r is Some <==> self@.data.contains_key(key@),
            r matches Some(v) ==> v@ == self@.data[key@],
    {
        proof {
            use_type_invariant(self);
        }
        self.data.get(key)
    }

    /// The session id.
    pub fn id(&self) -> (r: &str)
        ensures
            r@ == self@.id,
    {
        self.id.as_str()
    }
}

/// The sessions of the server, by id.
pub struct SessionStore {
    sessions: StrMap<Session>,
}

impl View for SessionStore {
    type V = Map<Seq<char>, SessionView>;

    open spec fn view(&self) -> Map<Seq<char>, SessionView> {
        self.table()
    }
}

impl SessionStore {
    pub closed spec fn table(&self) -> Map<Seq<char>, SessionView> {
        self.sessions@
    }

    #[verifier::type_invariant]
    spec fn table_ok(&self) -> bool {
        self.sessions.wf()
    }

    /// An empty table.
    pub fn new() -> (s: Self)
        ensures
            s@ == Map::<Seq<char>, SessionView>::empty(),
    {
        SessionStore { sessions: StrMap::new() }
    }

    /// Registers `session` under `sid`, replacing any session there.
    pub fn insert(&mut self, sid: String, session: Session)
        ensures
            final(self)@ == old(self)@.insert(sid@, session@),
    {
        proof {
            use_type_invariant(&*self);
        }
        let mut table: StrMap<Session> = StrMap::new();
        std::mem::swap(&mut table, &mut self.sessions);
        table.insert(sid, session);
        self.sessions = table;
    }

    /// The session registered under `sid`.
    pub fn get(&self, sid: &str) -> (r: Option<&Session>)
        ensures
            r is Some <==> self@.contains_key(sid@),
            r matches Some(s) ==> s@ == self@[sid@],
    {
        proof {
            use_type_invariant(self);
        }
        self.sessions.get(sid)
    }

    /// Drops the session registered under `sid`.
    pub fn remove(&mut self, sid: &str) -> (r: Option<Session>)
        ensures
            final(self)@ == old(self)@.remove(sid@),
            r is Some <==> old(self)@.contains_key(sid@),
            r matches Some(s) ==> s@ == old(self)@[sid@],
    {
        proof {
            use_type_invariant(&*self);
        }
        let mut table: StrMap<Session> = StrMap::new();
        std::mem::swap(&mut table, &mut self.sessions);
        let r = table.remove(sid);
        self.sessions = table;
        r
    }
}

/// The administrator a session cookie resolves to: the `admin_user_id` of
/// the session the cookie names, if the cookie is there, the session is
/// registered and it holds that key.
pub open spec fn admin_id_of(store: Map<Seq<char>, SessionView>, cookie: Option<Seq<char>>) -> Option<Seq<char>> {
    match cookie {
        Some(sid) => if store.contains_key(sid) && store[sid].data.contains_key(admin_key()) {
            Some(store[sid].data[admin_key()])
        } else {
            None
        },
        None => None,
    }
}

/// The administrator behind the session cookie (`GASESSION_ID`), if any.
pub fn verify_and_get_admin_id(store: &SessionStore, session_cookie: Option<&str>) -> (r: Option<String>)
    ensures
        opt_text(r) == admin_id_of(
            store@,
            match session_cookie {
                Some(c) => Some(c@),
                None => None,
            },
        ),
{
    match session_cookie {
        Some(sid) => match store.get(sid) {
            Some(session) => {
                let key = "admin_user_id";
                proof {
                    reveal_strlit("admin_user_id");
                    assert(key@ =~= admin_key());
                }
                match session.get(key) {
                    Some(id) => Some(id.clone()),
                    None => None,
                }
            },
            None => None,
        },
        None => None,
    }
}

/// The session a successful login opens under `sid`.
pub open spec fn admin_session(sid: Seq<char>) -> SessionView {
    SessionView {
        id: sid,
        data: Map::empty().insert(admin_key(), admin_identity()),
        user_id: Some(admin_identity()),
    }
}

impl SessionStore {
    /// Opens an administrator session under `sid` (the login step).
    pub fn open_admin_session(&mut self, sid: String)
        ensures
            final(self)@ == old(self)@.insert(sid@, admin_session(sid@)),
    {
        let who = "admin_user_1";
        let key = "admin_user_id";
        proof {
            reveal_strlit("admin_user_1");
            reveal_strlit("admin_user_id");
            assert(who@ =~= admin_identity());
            assert(key@ =~= admin_key());
        }
        let mut session = Session::new(sid.clone(), Some(str_to_string(who)));
        session.insert(str_to_string(key), str_to_string(who));
        assert(session@.data =~= admin_session(sid@).data);
        self.insert(sid, session);
    }

    /// A login attempt: when the name and password equal `admin_user` and
    /// `admin_pass` (the login endpoint passes the settings
    /// `GRITSHIELD_ADMIN_USER` and `GRITSHIELD_ADMIN_PASSWORD` as they are,
    /// empty when unset), opens an administrator session under a fresh
    /// random id (a hyphenated UUID) and gives that id; otherwise leaves the
    /// table as it is.
    pub fn login(&mut self, input_user: &str, input_pass: &str, admin_user: &str, admin_pass: &str) -> (r: Option<String>)
        ensures
            r is Some <==> (input_user@ == admin_user@ && input_pass@ == admin_pass@),
            r matches Some(sid) ==> final(self)@ == old(self)@.insert(sid@, admin_session(sid@))
                && uuid_text(sbytes(sid@)),
            r is None ==> final(self)@ == old(self)@,
    {
        if !credentials_match(input_user, input_pass, admin_user, admin_pass) {
            return None;
        }
        let sid = uuid_v4_text();
        self.open_admin_session(sid.clone());
        Some(sid)
    }

    /// The logout step: closes the session the cookie names, if any, and
    /// answers with a `303` to the login page that clears the session cookie.
    pub fn logout(&mut self, cookie: Option<&str>) -> (r: Response)
        ensures
            final(self)@ == match cookie {
                Some(sid) => old(self)@.remove(sid@),
                None => old(self)@,
            },
            r.status == 303,
            r.body@ == Seq::<char>::empty(),
            r.headers@.len() == 2,
            r.headers@[0].0@ == "Location"@,
            r.headers@[0].1@ == LOGIN_PATH@,
            r.headers@[1].0@ == "Set-Cookie"@,
            r.headers@[1].1@ == CLEAR_SESSION_COOKIE@,
    {
        match cookie {
            Some(sid) => self.close_session(sid),
            None => {},
        }
        let mut res = Response::new(303, Sanitizer::trust(""));
        proof {
            reveal_strlit("");
        }
        res.headers.push((str_to_string("Location"), str_to_string(LOGIN_PATH)));
        res.headers.push((str_to_string("Set-Cookie"), str_to_string(CLEAR_SESSION_COOKIE)));
        res
    }

    /// Ends the session under `sid`, if there is one (the logout step).
    pub fn close_session(&mut self, sid: &str)
        ensures
            final(self)@ == old(self)@.remove(sid@),
    {
        let _ = self.remove(sid);
    }
}

/// The login page.
pub const LOGIN_PATH: &'static str = "/admin/login";

/// The header value that clears the session cookie.
pub const CLEAR_SESSION_COOKIE: &'static str = "GASESSION_ID=; Path=/; Max-Age=0";

/// Are two strings the same text?
pub(crate) fn same_text(a: &str, b: &str) -> (r: bool)
    ensures
        r == (a@ == b@),
{
    proof {
        lemma_sbytes_injective(a@, b@);
    }
    bytes_equal(str_bytes(a), str_bytes(b))
}

/// Does a login attempt give the configured administrator name and password?
pub fn credentials_match(input_user: &str, input_pass: &str, admin_user: &str, admin_pass: &str) -> (r: bool)
    ensures
        r == (input_user@ == admin_user@ && input_pass@ == admin_pass@),
{
    same_text(input_user, admin_user) && same_text(input_pass, admin_pass)
}

/// What the administration guard does with a request.
#[derive(PartialEq, Eq, Structural, Clone, Copy, Debug)]
pub enum AuthOutcome {
    /// Let the request through.
    Next,
    /// Refuse an API call: administrative access required.
    Unauthorized,
    /// Send a page visit to the login page (`303` to `/admin/login`).
    RedirectToLogin,
}

/// `/admin`
pub open spec fn admin_prefix() -> Seq<u8> {
    seq!['/' as u8, 'a' as u8, 'd' as u8, 'm' as u8, 'i' as u8, 'n' as u8]
}

/// `/admin/login`
pub open spec fn login_page_path() -> Seq<u8> {
    admin_prefix() + seq!['/' as u8, 'l' as u8, 'o' as u8, 'g' as u8, 'i' as u8, 'n' as u8]
}

/// `/admin/api/`
pub open spec fn admin_api_prefix() -> Seq<u8> {
    admin_prefix() + seq!['/' as u8, 'a' as u8, 'p' as u8, 'i' as u8, '/' as u8]
}

/// `/admin/api/login`
pub open spec fn login_api_path() -> Seq<u8> {
    admin_api_prefix() + seq!['l' as u8, 'o' as u8, 'g' as u8, 'i' as u8, 'n' as u8]
}

/// The guard's decision for a path, given whether the request carries an
/// administrator session: paths outside `/admin` and the two login
/// endpoints pass; so does an administrator; API calls are refused and page
/// visits are sent to the login page.
pub open spec fn auth_outcome(path: Seq<u8>, is_admin: bool) -> AuthOutcome {
    if !starts_with(path, admin_prefix()) {
        AuthOutcome::Next
    } else if path == login_page_path() || path == login_api_path() {
        AuthOutcome::Next
    } else if is_admin {
        AuthOutcome::Next
    } else if starts_with(path, admin_api_prefix()) {
        AuthOutcome::Unauthorized
    } else {
        AuthOutcome::RedirectToLogin
    }
}

/// Does the session the cookie names hold `admin_user_id`?
pub open spec fn is_admin_session(store: Map<Seq<char>, SessionView>, cookie: Option<Seq<char>>) -> bool {
    match cookie {
        Some(sid) => store.contains_key(sid) && store[sid].data.contains_key(admin_key()),
        None => false,
    }
}

/// The guard in front of the administration routes.
pub struct AdminAuthMiddleware {
    pub store: SessionStore,
}

impl AdminAuthMiddleware {
    /// A guard that checks sessions against `store`.
    pub fn new(store: SessionStore) -> (r: Self)
        ensures
            r.store@ == store@,
    {
        AdminAuthMiddleware { store }
    }

    /// Decides a request for `path` carrying the session cookie `session_cookie`.
    pub fn execute(&self, path: &str, session_cookie: Option<&str>) -> (r: AuthOutcome)
        ensures
            r == auth_outcome(
                sbytes(path@),
                is_admin_session(
                    self.store@,
                    match session_cookie {
                        Some(c) => Some(c@),
                        None => None,
                    },
                ),
            ),
    {
        let p = str_bytes(path);
        let pre: [u8; 6] = ['/' as u8, 'a' as u8, 'd' as u8, 'm' as u8, 'i' as u8, 'n' as u8];
        let login: [u8; 12] = [
            '/' as u8, 'a' as u8, 'd' as u8, 'm' as u8, 'i' as u8, 'n' as u8, '/' as u8, 'l' as u8,
            'o' as u8, 'g' as u8, 'i' as u8, 'n' as u8,
        ];
        let api: [u8; 11] = [
            '/' as u8, 'a' as u8, 'd' as u8, 'm' as u8, 'i' as u8, 'n' as u8, '/' as u8, 'a' as u8,
            'p' as u8, 'i' as u8, '/' as u8,
        ];
        let api_login: [u8; 16] = [
            '/' as u8, 'a' as u8, 'd' as u8, 'm' as u8, 'i' as u8, 'n' as u8, '/' as u8, 'a' as u8,
            'p' as u8, 'i' as u8, '/' as u8, 'l' as u8, 'o' as u8, 'g' as u8, 'i' as u8, 'n' as u8,
        ];
        let (pre_s, login_s, api_s, api_login_s): (&[u8], &[u8], &[u8], &[u8]) = (
            &pre, &login, &api, &api_login,
        );
        assert(pre_s@ == admin_prefix());
        assert(login_s@ =~= login_page_path());
        assert(api_s@ =~= admin_api_prefix());
        assert(api_login_s@ =~= login_api_path());
        assert(p@.subrange(0, p@.len() as int) =~= p@);
        if !crate::lex::range_starts_with(p, 0, p.len(), pre_s) {
            return AuthOutcome::Next;
        }
        if bytes_equal(p, login_s) || bytes_equal(p, api_login_s) {
            return AuthOutcome::Next;
        }
        let authorized = match session_cookie {
            Some(sid) => match self.store.get(sid) {
                Some(session) => {
                    let key = "admin_user_id";
                    proof {
                        reveal_strlit("admin_user_id");
                        assert(key@ =~= admin_key());
                    }
                    session.get(key).is_some()
                },
                None => false,
            },
            None => false,
        };
        if authorized {
            AuthOutcome::Next
        } else if crate::lex::range_starts_with(p, 0, p.len(), api_s) {
            AuthOutcome::Unauthorized
        } else {
            AuthOutcome::RedirectToLogin
        }
    }
}

/// After a login opens a session under `sid`, the cookie `sid` resolves to
/// the administrator identity the login recorded.
pub proof fn lemma_login_then_verify(store: Map<Seq<char>, SessionView>, sid: Seq<char>)
    ensures
        admin_id_of(store.insert(sid, admin_session(sid)), Some(sid)) == Some(admin_identity()),
{
}

/// After a logout closes the session under `sid`, the cookie `sid` resolves
/// to no administrator.
pub proof fn lemma_logout_then_verify(store: Map<Seq<char>, SessionView>, sid: Seq<char>)
    ensures
        admin_id_of(store.remove(sid), Some(sid)) is None,
{
}

/// Opening or closing one session leaves what every other cookie resolves to unchanged.
pub proof fn lemma_other_sessions_unchanged(
    store: Map<Seq<char>, SessionView>,
    sid: Seq<char>,
    session: SessionView,
    other: Seq<char>,
)
    requires
        other != sid,
    ensures
        admin_id_of(store.insert(sid, session), Some(other)) == admin_id_of(store, Some(other)),
        admin_id_of(store.remove(sid), Some(other)) == admin_id_of(store, Some(other)),
{
}

/// The guard lets a cookie through exactly when it resolves to an administrator.
pub proof fn lemma_guard_agrees_with_lookup(store: Map<Seq<char>, SessionView>, cookie: Option<Seq<char>>)
    ensures
        is_admin_session(store, cookie) <==> admin_id_of(store, cookie) is Some,
{
}

/// Paths outside `/admin`, and the two login endpoints, pass the guard whether
/// or not the request carries an administrator session.
pub proof fn lemma_public_paths_pass(path: Seq<u8>, is_admin: bool)
    requires
        !starts_with(path, admin_prefix()) || path == login_page_path() || path == login_api_path(),
    ensures
        auth_outcome(path, is_admin) == AuthOutcome::Next,
{
}

/// A request carrying an administrator session passes the guard on every path.
pub proof fn lemma_admin_passes_everywhere(path: Seq<u8>)
    ensures
        auth_outcome(path, true) == AuthOutcome::Next,
{
}

/// The guard refuses a request (`401`) exactly when it carries no
/// administrator session and calls an `/admin/api/` path other than the
/// login endpoint; it sends a request to the login page exactly when it
/// carries no administrator session and visits another `/admin` path other
/// than the login page; everything else passes.
pub proof fn lemma_guard_refusals(path: Seq<u8>, is_admin: bool)
    ensures
        (auth_outcome(path, is_admin) == AuthOutcome::Unauthorized) == (!is_admin && starts_with(
            path,
            admin_api_prefix(),
        ) && path != login_api_path()),
        (auth_outcome(path, is_admin) == AuthOutcome::RedirectToLogin) == (!is_admin
            && starts_with(path, admin_prefix()) && !starts_with(path, admin_api_prefix()) && path
            != login_page_path()),
        (auth_outcome(path, is_admin) == AuthOutcome::Next) == (is_admin || !starts_with(
            path,
            admin_prefix(),
        ) || path == login_page_path() || path == login_api_path()),
{
    if starts_with(path, admin_api_prefix()) {
        assert(path.subrange(0, 6) =~= admin_api_prefix().subrange(0, 6));
        assert(admin_api_prefix().subrange(0, 6) =~= admin_prefix());
        assert(path != login_page_path()) by {
            if path == login_page_path() {
                assert(path[6] == login_page_path()[6]);
                assert(path[7] == admin_api_prefix()[7]);
            }
        }
    }
    if path == login_api_path() {
        assert(path.subrange(0, 11) =~= admin_api_prefix());
    }
    if path == login_page_path() {
        assert(path.subrange(0, 6) =~= admin_prefix());
    }
}

} // verus!
