//! Ownership of a written key file and its directory.
use crate::locator::{line_spans, SshKeyManager};
use crate::text::{
    chars_of, field_spans, fields, parse_u32, parse_u32_span, span_texts, split_lines, split_on,
    split_spans,
};
use crate::users::line_at;
use vstd::prelude::*;

verus! {

/// What to do about the owner of a written file and its directory.
#[derive(Debug, Clone, Copy, PartialEq, Eq, Structural)]
pub enum OwnershipAction {
    /// Give both to the account: user `uid`, group `gid`.
    Chown { uid: u32, gid: u32 },
    /// They stay with the running user, who is not the account's owner and
    /// lacks the privilege to change that: warn.
    WarnNotPrivileged,
    /// They already belong to the running user, who is the account's owner.
    Keep,
}

/// The primary group that one line of the account database gives to `uid`:
/// its fourth colon-separated part, where its third is `uid`.
pub open spec fn line_gid(line: Seq<char>, uid: u32) -> Option<u32> {
    let parts = split_on(line, ':');
    if fields(line).len() == 0 || (line.len() > 0 && line[0] == '#') || parts.len() < 4 {
        None
    } else if parse_u32(parts[2]) == Some(uid) {
        parse_u32(parts[3])
    } else {
        None
    }
}

/// The primary group of `uid` given by the first of the first `n` lines that
/// gives one.
pub open spec fn gid_upto(pieces: Seq<Seq<char>>, uid: u32, n: nat) -> Option<u32>
    decreases n,
{
    if n == 0 {
        None
    } else {
        match gid_upto(pieces, uid, (n - 1) as nat) {
            Some(g) => Some(g),
            None => line_gid(line_at(pieces, n - 1), uid),
        }
    }
}

/// The primary group of `uid` in the text of the account database.
pub open spec fn primary_gid(content: Seq<char>, uid: u32) -> Option<u32> {
    gid_upto(split_lines(content), uid, split_lines(content).len())
}

/// The ownership to set: with privilege, the account's user and primary group
/// (its uid where no group is known); without, a warning where the file is
/// not the running user's.
pub open spec fn ownership_for(
    privileged: bool,
    current_uid: u32,
    file_uid: u32,
    gid: Option<u32>,
) -> OwnershipAction {
    if privileged {
        OwnershipAction::Chown {
            uid: file_uid,
            gid: match gid {
                Some(g) => g,
                None => file_uid,
            },
        }
    } else if file_uid != current_uid {
        OwnershipAction::WarnNotPrivileged
    } else {
        OwnershipAction::Keep
    }
}

proof fn lemma_gid_upto_stable(pieces: Seq<Seq<char>>, uid: u32, m: nat, n: nat)
    requires
        m <= n,
        gid_upto(pieces, uid, m) is Some,
    ensures
        gid_upto(pieces, uid, n) == gid_upto(pieces, uid, m),
    decreases n - m,
{
    if m < n {
        lemma_gid_upto_stable(pieces, uid, m, (n - 1) as nat);
    }
}

fn gid_on_line(cs: &Vec<char>, a: usize, b: usize, uid: u32) -> (r: Option<u32>)
    requires
        a <= b <= cs@.len(),
    ensures
        r == line_gid(cs@.subrange(a as int, b as int), uid),
{
    let ghost line = cs@.subrange(a as int, b as int);
    let words = field_spans(cs, a, b);
    if words.len() == 0 {
        return None;
    }
    if b > a && cs[a] == '#' {
        assert(line[0] == cs@[a as int]);
        return None;
    }
    let parts = split_spans(cs, a, b, ':');
    let ghost ps = span_texts(cs@, parts@);
    if parts.len() < 4 {
        return None;
    }
    proof {
        assert(ps[2] == cs@.subrange(parts@[2].0 as int, parts@[2].1 as int));
        assert(ps[3] == cs@.subrange(parts@[3].0 as int, parts@[3].1 as int));
    }
    match parse_u32_span(cs, parts[2].0, parts[2].1) {
        Some(u) => {
            if u == uid {
                parse_u32_span(cs, parts[3].0, parts[3].1)
            } else {
                None
            }
        },
        None => None,
    }
}

/// What to do about ownership after a write.
pub fn ownership_action(privileged: bool, current_uid: u32, file_uid: u32, gid: Option<u32>) -> (r:
    OwnershipAction)
    ensures
        r == ownership_for(privileged, current_uid, file_uid, gid),
{
    if privileged {
        OwnershipAction::Chown {
            uid: file_uid,
            gid: match gid {
                Some(g) => g,
                None => file_uid,
            },
        }
    } else if file_uid != current_uid {
        OwnershipAction::WarnNotPrivileged
    } else {
        OwnershipAction::Keep
    }
}

impl SshKeyManager {
    /// The primary group of `uid` in the text of the account database (in
    /// `/etc/passwd` form): from the first line for `uid` whose group reads
    /// as a number.
    pub fn get_user_primary_gid(&self, passwd: &str, uid: u32) -> (r: Option<u32>)
        ensures
            r == primary_gid(passwd@, uid),
    {
        let cs = chars_of(passwd);
        let lines = line_spans(&cs);
        let ghost pieces = span_texts(cs@, lines@);
        let n = lines.len();
        let mut i: usize = 0;
        while i < n
            invariant
                i <= n == lines@.len(),
                cs@ == passwd@,
                pieces == span_texts(cs@, lines@),
                pieces == split_lines(cs@),
                forall|j: int|
                    0 <= j < lines@.len() ==> (#[trigger] lines@[j]).0 <= lines@[j].1 <= cs@.len(),
                gid_upto(pieces, uid, i as nat) is None,
            decreases n - i,
        {
            let a = lines[i].0;
            let mut b = lines[i].1;
            proof {
                assert(pieces[i as int] == cs@.subrange(a as int, b as int));
            }
            if i + 1 < n && b > a && cs[b - 1] == '\r' {
                b = b - 1;
                proof {
                    assert(cs@.subrange(a as int, b as int) =~= pieces[i as int].drop_last());
                }
            }
            assert(line_at(pieces, i as int) == cs@.subrange(a as int, b as int));
            let g = gid_on_line(&cs, a, b, uid);
            if g.is_some() {
                proof {
                    lemma_gid_upto_stable(pieces, uid, (i + 1) as nat, n as nat);
                }
                return g;
            }
            i = i + 1;
        }
        None
    }
}

} // verus!
