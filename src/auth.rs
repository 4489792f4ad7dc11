//! The credential store: the user file, its default content, and the check of
//! a username and password against it.
use vstd::prelude::*;

use crate::codec::{
    all_free_of, delim_bar, has_sub, join_with, lemma_delims_head_unique, lemma_delims_one_line,
    lemma_join_one_line, lemma_safe_free, lemma_split_concat, lemma_split_free, lemma_split_join,
    newline, same_text, split_on, split_spec, views,
};
use crate::digest::{is_hex_digit, sha256_hex, sha256_hex_spec, sha256_of};
use crate::rules::lemma_plain_safe;
use vstd::utf8::encode_utf8;
use crate::logstore::{AuditEventType, AuditRecord};

verus! {

/// One user of the console: name, lowercase hexadecimal SHA-256 digest of the
/// password, and whether the user is an administrator.
pub struct UserRecord {
    pub name: String,
    pub pass_hash: String,
    pub is_admin: bool,
}

/// What a user record holds, as text.
pub struct UserView {
    pub name: Seq<char>,
    pub pass_hash: Seq<char>,
    pub is_admin: bool,
}

impl View for UserRecord {
    type V = UserView;

    open spec fn view(&self) -> UserView {
        UserView { name: self.name@, pass_hash: self.pass_hash@, is_admin: self.is_admin }
    }
}

/// A line of the user file read as a user: exactly three fields.
pub open spec fn user_of(line: Seq<char>) -> Option<UserView> {
    let parts = split_spec(line, delim_bar());
    if parts.len() == 3 {
        Some(UserView { name: parts[0], pass_hash: parts[1], is_admin: parts[2] == "1"@ })
    } else {
        None
    }
}

/// The users of these lines, in order; malformed lines are passed over.
pub open spec fn users_spec(lines: Seq<Seq<char>>) -> Seq<UserView>
    decreases lines.len(),
{
    if lines.len() == 0 {
        Seq::empty()
    } else {
        match user_of(lines.last()) {
            Some(u) => users_spec(lines.drop_last()).push(u),
            None => users_spec(lines.drop_last()),
        }
    }
}

/// The first user of this name: a later record of the same name does not count.
pub open spec fn first_user(users: Seq<UserView>, name: Seq<char>) -> Option<UserView>
    decreases users.len(),
{
    if users.len() == 0 {
        None
    } else {
        match first_user(users.drop_last(), name) {
            Some(u) => Some(u),
            None => if users.last().name == name {
                Some(users.last())
            } else {
                None
            },
        }
    }
}

/// The user of this name in the content of a user file.
pub open spec fn lookup_spec(content: Seq<char>, name: Seq<char>) -> Option<UserView> {
    first_user(users_spec(split_spec(content, newline())), name)
}

/// The views of a list of user records.
pub open spec fn user_views(v: Seq<UserRecord>) -> Seq<UserView> {
    v.map_values(|u: UserRecord| u@)
}

/// The users of the file written on first run: one administrator `admin`
/// whose password is `admin`.
pub open spec fn bootstrap_users() -> Seq<UserView> {
    seq![UserView { name: "admin"@, pass_hash: sha256_hex_spec("admin"@), is_admin: true }]
}

/// The content of the user file written on first run: the one record of
/// `bootstrap_users`, with a line break.
pub fn default_user_file() -> (r: String)
    ensures
        users_spec(split_spec(r@, newline())) == bootstrap_users(),
{
    let hash = sha256_hex("admin");
    let mut parts: Vec<String> = Vec::new();
    parts.push(String::from_str("admin"));
    parts.push(hash);
    parts.push(String::from_str("1"));
    let line = join_with(&parts, "[:|:]");
    let mut r = String::from_str(line.as_str());
    r.append("\n");
    proof {
        let ps = views(parts@);
        let h = sha256_hex_spec("admin"@);
        reveal_strlit("admin");
        reveal_strlit("1");
        reveal_strlit("\n");
        lemma_plain_safe("admin"@);
        lemma_plain_safe("1"@);
        crate::digest::lemma_hex_digits_only(sha256_of(encode_utf8("admin"@)));
        assert forall|i: int| 0 <= i < h.len() implies #[trigger] h[i] != '[' && h[i] != '\n' by {
            assert(is_hex_digit(h[i]));
        }
        lemma_plain_safe(h);
        assert(ps =~= seq!["admin"@, h, "1"@]);
        lemma_safe_free("admin"@);
        lemma_safe_free(h);
        lemma_safe_free("1"@);
        assert(all_free_of(ps, delim_bar()));
        lemma_delims_head_unique();
        lemma_delims_one_line();
        lemma_split_join(ps, delim_bar());
        lemma_join_one_line(ps, delim_bar());
        let l = line@;
        let e = Seq::<char>::empty();
        assert(!has_sub(e, newline()));
        assert(!has_sub(e, delim_bar()));
        lemma_split_free(l, newline());
        lemma_split_free(e, newline());
        lemma_split_free(e, delim_bar());
        lemma_split_concat(l, newline(), e);
        assert(l + newline() + e =~= r@);
        let lines = seq![l, e];
        assert(seq![l] + seq![e] =~= lines);
        assert(user_of(e) is None);
        assert(user_of(l) == Some(bootstrap_users()[0]));
        assert(lines.drop_last() =~= seq![l]);
        assert(seq![l].drop_last() =~= Seq::<Seq<char>>::empty());
        assert(lines.last() == e);
        assert(seq![l].last() == l);
        assert(users_spec(Seq::<Seq<char>>::empty()) == Seq::<UserView>::empty());
        assert(users_spec(seq![l]) == Seq::<UserView>::empty().push(bootstrap_users()[0]));
        assert(users_spec(lines) == users_spec(seq![l]));
        assert(users_spec(lines) =~= bootstrap_users());
    }
    r
}

/// Reads a user file: its well-formed records, in order. A line that does not
/// hold exactly three fields is passed over.
pub fn get_user_map(users_content: &str) -> (r: Vec<UserRecord>)
    ensures
        user_views(r@) == users_spec(split_spec(users_content@, newline())),
{
    proof {
        reveal_strlit("\n");
    }
    let lines = split_on(users_content, "\n");
    let ghost lv = views(lines@);
    let mut out: Vec<UserRecord> = Vec::new();
    let mut i: usize = 0;
    while i < lines.len()
        invariant
            i <= lines@.len(),
            lv == views(lines@),
            user_views(out@) == users_spec(lv.subrange(0, i as int)),
        decreases lines@.len() - i,
    {
        proof {
            reveal_strlit("[:|:]");
        }
        let ghost sub = lv.subrange(0, i + 1);
        assert(sub.drop_last() =~= lv.subrange(0, i as int));
        assert(sub.last() == lines@[i as int]@);
        let mut parts = split_on(lines[i].as_str(), "[:|:]");
        if parts.len() == 3 {
            let ghost pv = views(parts@);
            let flag = parts.pop().unwrap();
            let pass_hash = parts.pop().unwrap();
            let name = parts.pop().unwrap();
            let is_admin = same_text(flag.as_str(), "1");
            let ghost before = user_views(out@);
            out.push(UserRecord { name, pass_hash, is_admin });
            assert(user_views(out@) =~= before.push(
                UserView { name: pv[0], pass_hash: pv[1], is_admin: pv[2] == "1"@ },
            ));
        }
        i = i + 1;
    }
    assert(lv.subrange(0, i as int) =~= lv);
    out
}

/// Position of the first user of this name.
fn find_user(users: &Vec<UserRecord>, name: &str) -> (r: Option<usize>)
    ensures
        match r {
            Some(i) => i < users@.len() && first_user(user_views(users@), name@) == Some(
                users@[i as int]@,
            ),
            None => first_user(user_views(users@), name@) is None,
        },
{
    let ghost uv = user_views(users@);
    let mut i: usize = 0;
    while i < users.len()
        invariant
            i <= users@.len(),
            uv == user_views(users@),
            first_user(uv.subrange(0, i as int), name@) is None,
        decreases users@.len() - i,
    {
        assert(uv.subrange(0, i + 1).drop_last() =~= uv.subrange(0, i as int));
        if same_text(users[i].name.as_str(), name) {
            proof {
                lemma_first_user_extend(uv, name@, i + 1);
            }
            return Some(i);
        }
        i = i + 1;
    }
    assert(uv.subrange(0, i as int) =~= uv);
    None
}

proof fn lemma_first_user_extend(us: Seq<UserView>, name: Seq<char>, j: int)
    requires
        0 <= j <= us.len(),
        first_user(us.subrange(0, j), name) is Some,
    ensures
        first_user(us, name) == first_user(us.subrange(0, j), name),
    decreases us.len() - j,
{
    if j < us.len() {
        assert(us.drop_last().subrange(0, j) =~= us.subrange(0, j));
        lemma_first_user_extend(us.drop_last(), name, j);
    } else {
        assert(us.subrange(0, j) =~= us);
    }
}

/// The outcome of a login: whether it succeeded, the identity and admin flag
/// it gave, and the audit record to write either way.
pub struct LoginResult {
    pub ok: bool,
    pub identity: String,
    pub is_admin: bool,
    pub audit: AuditRecord,
}

/// Checks a username and password against the content of a user file. The
/// login succeeds when the first record of that name holds the lowercase
/// hexadecimal SHA-256 digest of the password; an unknown name or another
/// digest fails it. Either way the result carries the audit record to write.
pub fn authenticate(username: &str, password: &str, users_content: &str, host: &str) -> (r:
    LoginResult)
    ensures
        r.ok == (lookup_spec(users_content@, username@) matches Some(u) && u.pass_hash
            == sha256_hex_spec(password@)),
        r.ok ==> r.identity@ == username@ && r.is_admin == lookup_spec(
            users_content@,
            username@,
        )->0.is_admin,
        !r.ok ==> r.identity@.len() == 0 && !r.is_admin,
        r.audit.host@ == host@,
        r.audit.user@ == username@,
        r.audit.kind == if r.ok {
            AuditEventType::UserLogon
        } else {
            AuditEventType::FailLogon
        },
        r.audit.message@ == if r.ok {
            "User authenticated"@
        } else {
            "Authentication failure"@
        },
{
    let users = get_user_map(users_content);
    let hash = sha256_hex(password);
    match find_user(&users, username) {
        Some(i) => {
            if same_text(users[i].pass_hash.as_str(), hash.as_str()) {
                return LoginResult {
                    ok: true,
                    identity: String::from_str(username),
                    is_admin: users[i].is_admin,
                    audit: AuditRecord {
                        host: String::from_str(host),
                        user: String::from_str(username),
                        kind: AuditEventType::UserLogon,
                        message: String::from_str("User authenticated"),
                    },
                };
            }
        },
        None => {},
    }
    LoginResult {
        ok: false,
        identity: String::new(),
        is_admin: false,
        audit: AuditRecord {
            host: String::from_str(host),
            user: String::from_str(username),
            kind: AuditEventType::FailLogon,
            message: String::from_str("Authentication failure"),
        },
    }
}

/// After the first-run file is written, `admin` logs in with password
/// `admin`, as an administrator.
pub proof fn lemma_bootstrap_admin_login(content: Seq<char>)
    requires
        users_spec(split_spec(content, newline())) == bootstrap_users(),
    ensures
        lookup_spec(content, "admin"@) == Some(bootstrap_users()[0]),
        bootstrap_users()[0].pass_hash == sha256_hex_spec("admin"@),
        bootstrap_users()[0].is_admin,
{
    let us = bootstrap_users();
    assert(us.drop_last() =~= Seq::<UserView>::empty());
    assert(first_user(us.drop_last(), "admin"@) is None);
}

/// The lines of a user file that are not empty and do not read as a user.
pub open spec fn malformed_lines(lines: Seq<Seq<char>>) -> Seq<Seq<char>>
    decreases lines.len(),
{
    if lines.len() == 0 {
        Seq::empty()
    } else if lines.last().len() > 0 && user_of(lines.last()) is None {
        malformed_lines(lines.drop_last()).push(lines.last())
    } else {
        malformed_lines(lines.drop_last())
    }
}

/// The non-empty lines of a user file that `get_user_map` passes over, so
/// that they can be reported.
pub fn malformed_user_lines(users_content: &str) -> (r: Vec<String>)
    ensures
        views(r@) == malformed_lines(split_spec(users_content@, newline())),
{
    proof {
        reveal_strlit("\n");
    }
    let lines = split_on(users_content, "\n");
    let ghost lv = views(lines@);
    let mut out: Vec<String> = Vec::new();
    let mut i: usize = 0;
    while i < lines.len()
        invariant
            i <= lines@.len(),
            lv == views(lines@),
            views(out@) == malformed_lines(lv.subrange(0, i as int)),
        decreases lines@.len() - i,
    {
        proof {
            reveal_strlit("[:|:]");
        }
        let ghost sub = lv.subrange(0, i + 1);
        assert(sub.drop_last() =~= lv.subrange(0, i as int));
        assert(sub.last() == lines@[i as int]@);
        let parts = split_on(lines[i].as_str(), "[:|:]");
        if !lines[i].as_str().is_empty() && parts.len() != 3 {
            let ghost before = views(out@);
            out.push(lines[i].clone());
            assert(views(out@) =~= before.push(lines@[i as int]@));
        }
        i = i + 1;
    }
    assert(lv.subrange(0, i as int) =~= lv);
    out
}

} // verus!
