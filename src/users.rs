//! Local accounts: reading them from the account database's text, choosing
//! which to manage, and their order.
use crate::locator::line_spans;
use crate::text::{
    chars_of, field_spans, fields, parse_u32, parse_u32_span, piece, same_text, span_texts,
    split_lines, split_on, split_spans,
};
use vstd::prelude::*;

verus! {

/// A local account.
#[derive(Debug, Clone)]
pub struct UserInfo {
    pub username: String,
    pub uid: u32,
    pub shell: Option<String>,
    pub home_dir: Option<String>,
    pub disabled: Option<bool>,
}

/// The text of a `UserInfo`.
pub struct UserView {
    pub username: Seq<char>,
    pub uid: u32,
    pub shell: Option<Seq<char>>,
    pub home_dir: Option<Seq<char>>,
    pub disabled: Option<bool>,
}

impl View for UserInfo {
    type V = UserView;

    open spec fn view(&self) -> UserView {
        UserView {
            username: self.username@,
            uid: self.uid,
            shell: match self.shell {
                Some(s) => Some(s@),
                None => None,
            },
            home_dir: match self.home_dir {
                Some(h) => Some(h@),
                None => None,
            },
            disabled: self.disabled,
        }
    }
}

/// Shells that refuse logins.
pub open spec fn is_nologin_shell(shell: Seq<char>) -> bool {
    shell == "/usr/sbin/nologin"@ || shell == "/sbin/nologin"@ || shell == "/bin/false"@ || shell
        == "/usr/bin/false"@
}

/// The account that one line of the account database describes, where it is
/// one to manage. Lines that are blank, comments, or have fewer than seven
/// colon-separated parts describe none; an unreadable uid counts as 0. Only
/// uid 0 and uids from 1000 up are kept, and not with a shell that refuses
/// logins. An empty shell is `/bin/bash`; an empty home is `/root` for uid 0,
/// else `/home/<name>`.
pub open spec fn passwd_entry(line: Seq<char>) -> Option<UserView> {
    let parts = split_on(line, ':');
    let uid = match parse_u32(parts[2]) {
        Some(v) => v,
        None => 0u32,
    };
    if fields(line).len() == 0 || (line.len() > 0 && line[0] == '#') || parts.len() < 7 {
        None
    } else if uid != 0 && uid < 1000 {
        None
    } else if is_nologin_shell(parts[6]) {
        None
    } else {
        Some(
            UserView {
                username: parts[0],
                uid,
                shell: Some(
                    if parts[6].len() == 0 {
                        "/bin/bash"@
                    } else {
                        parts[6]
                    },
                ),
                home_dir: Some(
                    if parts[5].len() > 0 {
                        parts[5]
                    } else if uid == 0 {
                        "/root"@
                    } else {
                        "/home/"@ + parts[0]
                    },
                ),
                disabled: Some(false),
            },
        )
    }
}

/// A line without the carriage return that ends it, if any.
pub open spec fn strip_cr(l: Seq<char>) -> Seq<char> {
    if l.len() > 0 && l.last() == '\r' {
        l.drop_last()
    } else {
        l
    }
}

/// Line `j` of the pieces between line feeds, as `str::lines` gives it: a
/// carriage return before a line feed is not part of the line.
pub open spec fn line_at(pieces: Seq<Seq<char>>, j: int) -> Seq<char> {
    if j + 1 < pieces.len() {
        strip_cr(pieces[j])
    } else {
        pieces[j]
    }
}

/// The accounts of the first `n` lines, in order.
pub open spec fn entries_upto(pieces: Seq<Seq<char>>, n: nat) -> Seq<UserView>
    decreases n,
{
    if n == 0 {
        Seq::<UserView>::empty()
    } else {
        entries_upto(pieces, (n - 1) as nat) + match passwd_entry(line_at(pieces, n - 1)) {
            Some(u) => seq![u],
            None => Seq::<UserView>::empty(),
        }
    }
}

/// The accounts to manage that the account database's text describes.
pub open spec fn passwd_users(content: Seq<char>) -> Seq<UserView> {
    entries_upto(split_lines(content), split_lines(content).len())
}

pub open spec fn users_view(v: Seq<UserInfo>) -> Seq<UserView> {
    v.map_values(|u: UserInfo| u@)
}

pub open spec fn names_contain(names: Seq<String>, name: Seq<char>) -> bool {
    exists|i: int| 0 <= i < names.len() && (#[trigger] names[i])@ == name
}

/// Whether an account is kept: where some names are wanted, only those;
/// else, where some names are excluded, all but those; else all.
pub open spec fn is_selected(u: UserInfo, wanted: Seq<String>, excluded: Seq<String>) -> bool {
    if wanted.len() > 0 {
        names_contain(wanted, u.username@)
    } else if excluded.len() > 0 {
        !names_contain(excluded, u.username@)
    } else {
        true
    }
}

/// The kept accounts, in order.
pub open spec fn selected_users(us: Seq<UserInfo>, wanted: Seq<String>, excluded: Seq<String>) -> Seq<
    UserInfo,
>
    decreases us.len(),
{
    if us.len() == 0 {
        Seq::<UserInfo>::empty()
    } else {
        selected_users(us.drop_last(), wanted, excluded) + if is_selected(
            us.last(),
            wanted,
            excluded,
        ) {
            seq![us.last()]
        } else {
            Seq::<UserInfo>::empty()
        }
    }
}

/// Where an account of uid `uid` goes in accounts sorted by uid: after every
/// account whose uid is not greater.
pub open spec fn insert_pos(s: Seq<UserInfo>, uid: u32) -> nat
    decreases s.len(),
{
    if s.len() == 0 || s[0].uid > uid {
        0
    } else {
        1 + insert_pos(s.drop_first(), uid)
    }
}

/// The accounts sorted by uid, keeping the order of accounts with equal uids.
pub open spec fn sorted_by_uid(s: Seq<UserInfo>) -> Seq<UserInfo>
    decreases s.len(),
{
    if s.len() == 0 {
        Seq::<UserInfo>::empty()
    } else {
        let rest = sorted_by_uid(s.drop_last());
        rest.insert(insert_pos(rest, s.last().uid) as int, s.last())
    }
}

proof fn lemma_insert_pos(s: Seq<UserInfo>, uid: u32, n: nat)
    requires
        n <= s.len(),
        forall|k: int| 0 <= k < n ==> (#[trigger] s[k]).uid <= uid,
        n == s.len() || s[n as int].uid > uid,
    ensures
        insert_pos(s, uid) == n,
    decreases n,
{
    if n > 0 {
        lemma_insert_pos(s.drop_first(), uid, (n - 1) as nat);
    }
}

/// A copy of an account.
pub fn copy_user(u: &UserInfo) -> (r: UserInfo)
    ensures
        r == *u,
{
    UserInfo {
        username: u.username.clone(),
        uid: u.uid,
        shell: match &u.shell {
            Some(s) => Some(s.clone()),
            None => None,
        },
        home_dir: match &u.home_dir {
            Some(h) => Some(h.clone()),
            None => None,
        },
        disabled: u.disabled,
    }
}

fn contains_name(names: &[String], name: &String) -> (r: bool)
    ensures
        r == names_contain(names@, name@),
{
    let mut i: usize = 0;
    while i < names.len()
        invariant
            i <= names@.len(),
            forall|j: int| 0 <= j < i ==> (#[trigger] names@[j])@ != name@,
        decreases names@.len() - i,
    {
        if names[i] == *name {
            return true;
        }
        i = i + 1;
    }
    false
}

fn is_nologin(shell: &String) -> (r: bool)
    ensures
        r == is_nologin_shell(shell@),
{
    same_text(shell, "/usr/sbin/nologin") || same_text(shell, "/sbin/nologin") || same_text(
        shell,
        "/bin/false",
    ) || same_text(shell, "/usr/bin/false")
}

/// Whether an account with this shell is disabled. Accounts whose shell
/// refuses logins are not managed at all, so none that remains is.
pub fn is_user_disabled(shell: &str) -> (r: bool)
    ensures
        !r,
{
    false
}

/// The account on the line `cs[a .. b]` of `content`.
fn passwd_line(content: &str, cs: &Vec<char>, a: usize, b: usize) -> (r: Option<UserInfo>)
    requires
        cs@ == content@,
        a <= b <= cs@.len(),
    ensures
        match r {
            Some(u) => passwd_entry(cs@.subrange(a as int, b as int)) == Some(u@),
            None => passwd_entry(cs@.subrange(a as int, b as int)) is None,
        },
{
    let ghost line = cs@.subrange(a as int, b as int);
    let words = field_spans(cs, a, b);
    let parts = split_spans(cs, a, b, ':');
    let ghost ps = span_texts(cs@, parts@);
    if words.len() == 0 {
        return None;
    }
    if b > a && cs[a] == '#' {
        assert(line[0] == cs@[a as int]);
        return None;
    }
    if parts.len() < 7 {
        return None;
    }
    proof {
        assert(ps[2] == cs@.subrange(parts@[2].0 as int, parts@[2].1 as int));
        assert(ps[0] == cs@.subrange(parts@[0].0 as int, parts@[0].1 as int));
        assert(ps[5] == cs@.subrange(parts@[5].0 as int, parts@[5].1 as int));
        assert(ps[6] == cs@.subrange(parts@[6].0 as int, parts@[6].1 as int));
    }
    let uid = match parse_u32_span(cs, parts[2].0, parts[2].1) {
        Some(v) => v,
        None => 0,
    };
    if uid != 0 && uid < 1000 {
        return None;
    }
    let shell = piece(content, parts[6].0, parts[6].1);
    if is_nologin(&shell) {
        return None;
    }
    let username = piece(content, parts[0].0, parts[0].1);
    let shell = if parts[6].0 == parts[6].1 {
        "/bin/bash".to_owned()
    } else {
        shell
    };
    let home_dir = if parts[5].0 < parts[5].1 {
        piece(content, parts[5].0, parts[5].1)
    } else if uid == 0 {
        "/root".to_owned()
    } else {
        let mut h = "/home/".to_owned();
        h.append(username.as_str());
        h
    };
    let disabled = is_user_disabled(shell.as_str());
    Some(
        UserInfo {
            username,
            uid,
            shell: Some(shell),
            home_dir: Some(home_dir),
            disabled: Some(disabled),
        },
    )
}

/// The accounts to manage that the text of the account database (in
/// `/etc/passwd` form) describes, in order.
pub fn parse_passwd(content: &str) -> (r: Vec<UserInfo>)
    ensures
        users_view(r@) == passwd_users(content@),
{
    let cs = chars_of(content);
    let lines = line_spans(&cs);
    let ghost pieces = span_texts(cs@, lines@);
    let n = lines.len();
    let mut users: Vec<UserInfo> = Vec::new();
    let mut i: usize = 0;
    assert(users_view(users@) =~= entries_upto(pieces, 0));
    while i < n
        invariant
            i <= n == lines@.len(),
            cs@ == content@,
            pieces == span_texts(cs@, lines@),
            pieces == split_lines(cs@),
            forall|j: int|
                0 <= j < lines@.len() ==> (#[trigger] lines@[j]).0 <= lines@[j].1 <= cs@.len(),
            users_view(users@) == entries_upto(pieces, i as nat),
        decreases n - i,
    {
        let a = lines[i].0;
        let mut b = lines[i].1;
        proof {
            assert(pieces[i as int] == cs@.subrange(a as int, b as int));
        }
        if i + 1 < n && b > a && cs[b - 1] == '\r' {
            b = b - 1;
            proof {
                assert(cs@.subrange(a as int, b as int) =~= pieces[i as int].drop_last());
            }
        }
        assert(line_at(pieces, i as int) == cs@.subrange(a as int, b as int));
        match passwd_line(content, &cs, a, b) {
            Some(u) => {
                let ghost prev = users@;
                users.push(u);
                assert(users_view(users@) =~= users_view(prev) + seq![u@]);
            },
            None => {
                assert(users_view(users@) =~= users_view(users@) + Seq::<UserView>::empty());
            },
        }
        i = i + 1;
    }
    users
}

/// The accounts to manage among `candidates`: those that `include_users`
/// names, if it names any; else those that `exclude_users` does not name;
/// sorted by uid, accounts of equal uid in their order.
pub fn collect_users(
    exclude_users: &[String],
    include_users: &[String],
    candidates: &Vec<UserInfo>,
) -> (r: Vec<UserInfo>)
    ensures
        r@ == sorted_by_uid(selected_users(candidates@, include_users@, exclude_users@)),
{
    let ghost sel = selected_users(candidates@, include_users@, exclude_users@);
    let mut out: Vec<UserInfo> = Vec::new();
    let mut i: usize = 0;
    while i < candidates.len()
        invariant
            i <= candidates@.len(),
            sel == selected_users(candidates@, include_users@, exclude_users@),
            out@ == sorted_by_uid(selected_users(candidates@.take(i as int), include_users@, exclude_users@)),
        decreases candidates@.len() - i,
    {
        let u = &candidates[i];
        let keep = if include_users.len() > 0 {
            contains_name(include_users, &u.username)
        } else if exclude_users.len() > 0 {
            !contains_name(exclude_users, &u.username)
        } else {
            true
        };
        let ghost prefix = candidates@.take(i as int);
        proof {
            assert(candidates@.take(i + 1).drop_last() =~= prefix);
            assert(candidates@.take(i + 1).last() == *u);
        }
        if keep {
            let mut pos: usize = 0;
            while pos < out.len() && out[pos].uid <= u.uid
                invariant
                    pos <= out@.len(),
                    forall|k: int| 0 <= k < pos ==> (#[trigger] out@[k]).uid <= u.uid,
                decreases out@.len() - pos,
            {
                pos = pos + 1;
            }
            proof {
                lemma_insert_pos(out@, u.uid, pos as nat);
                let s = selected_users(prefix, include_users@, exclude_users@);
                let s1 = selected_users(candidates@.take(i + 1), include_users@, exclude_users@);
                assert(s1 =~= s.push(*u));
                assert(s.push(*u).drop_last() =~= s);
            }
            out.insert(pos, copy_user(u));
        } else {
            proof {
                let s = selected_users(prefix, include_users@, exclude_users@);
                let s1 = selected_users(candidates@.take(i + 1), include_users@, exclude_users@);
                assert(s1 =~= s);
            }
        }
        i = i + 1;
    }
    assert(candidates@.take(i as int) =~= candidates@);
    out
}

} // verus!
