//! Where the SSH daemon looks for each account's authorized keys: the
//! `AuthorizedKeysFile` patterns of its configuration, and their expansion.
use crate::text::{
    chars_of, field_spans, fields, is_space, is_space_char, lemma_line_len, matches_at, piece,
    span_texts, split_lines,
};
use crate::store::is_comment_line;
use crate::users::UserInfo;
use vstd::prelude::*;

verus! {

/// One place where a user's authorized keys are read from.
#[derive(Debug, Clone)]
pub struct AuthorizedKeysFile {
    pub path: String,
    pub username: String,
    pub uid: u32,
    pub exists: bool,
}

/// The key files of the local accounts, kept in step with the assignments.
pub struct SshKeyManager {
    pub managed_marker: String,
}

pub open spec fn texts_of(v: Seq<String>) -> Seq<Seq<char>> {
    v.map_values(|s: String| s@)
}

/// Number of spaces at the start of `s`.
pub open spec fn leading_spaces(s: Seq<char>) -> nat
    decreases s.len(),
{
    if s.len() == 0 || !is_space(s[0]) {
        0
    } else {
        1 + leading_spaces(s.drop_first())
    }
}

/// The values of an `AuthorizedKeysFile` directive on one configuration line:
/// the fields after the first, where the first field is exactly the
/// directive's name. Any other line, other directives included, gives none.
pub open spec fn directive_values(line: Seq<char>) -> Seq<Seq<char>> {
    let f = fields(line);
    if f.len() > 0 && f[0] == "AuthorizedKeysFile"@ {
        f.skip(1)
    } else {
        Seq::<Seq<char>>::empty()
    }
}

/// The directive values of all the lines, in order.
pub open spec fn config_values(lines: Seq<Seq<char>>) -> Seq<Seq<char>>
    decreases lines.len(),
{
    if lines.len() == 0 {
        Seq::<Seq<char>>::empty()
    } else {
        config_values(lines.drop_last()) + directive_values(lines.last())
    }
}

/// The pattern used when the configuration gives none.
pub open spec fn default_patterns() -> Seq<Seq<char>> {
    seq![".ssh/authorized_keys"@]
}

/// The `AuthorizedKeysFile` patterns of a daemon configuration, or the default
/// where there is no configuration or it declares none.
pub open spec fn patterns_of(config: Option<Seq<char>>) -> Seq<Seq<char>> {
    match config {
        None => default_patterns(),
        Some(c) => {
            let v = config_values(split_lines(c));
            if v.len() == 0 {
                default_patterns()
            } else {
                v
            }
        },
    }
}

/// `s` with its tokens expanded in one left-to-right scan: `%h` becomes the
/// home directory, `%u` the user name and `%%` a single `%`; any other
/// character stays, and inserted text is not scanned again.
pub open spec fn expand_tokens(s: Seq<char>, username: Seq<char>, home: Seq<char>) -> Seq<char>
    decreases s.len(),
{
    if s.len() == 0 {
        Seq::<char>::empty()
    } else if s.len() >= 2 && s[0] == '%' && s[1] == 'h' {
        home + expand_tokens(s.skip(2), username, home)
    } else if s.len() >= 2 && s[0] == '%' && s[1] == 'u' {
        username + expand_tokens(s.skip(2), username, home)
    } else if s.len() >= 2 && s[0] == '%' && s[1] == '%' {
        seq!['%'] + expand_tokens(s.skip(2), username, home)
    } else {
        seq![s[0]] + expand_tokens(s.drop_first(), username, home)
    }
}

/// `rel` resolved against `base`: `rel` itself where it is absolute, else
/// `rel` appended to `base` with one separator.
pub open spec fn join_path(base: Seq<char>, rel: Seq<char>) -> Seq<char> {
    if rel.len() > 0 && rel[0] == '/' {
        rel
    } else if base.len() == 0 {
        rel
    } else if base.last() == '/' {
        base + rel
    } else {
        base + seq!['/'] + rel
    }
}

/// A pattern with its tokens expanded, resolved against the home directory.
pub open spec fn expand_pattern(pattern: Seq<char>, username: Seq<char>, home: Seq<char>) -> Seq<
    char,
> {
    join_path(home, expand_tokens(pattern, username, home))
}

/// The home directory of an account: `/root` for uid 0, else the recorded
/// one, else `/home/<name>`.
pub open spec fn home_of(uid: u32, username: Seq<char>, home_dir: Option<Seq<char>>) -> Seq<char> {
    if uid == 0 {
        "/root"@
    } else {
        match home_dir {
            Some(h) => h,
            None => join_path("/home"@, username),
        }
    }
}

pub open spec fn user_home(u: UserInfo) -> Seq<char> {
    home_of(
        u.uid,
        u.username@,
        match u.home_dir {
            Some(h) => Some(h@),
            None => None,
        },
    )
}

/// The file that a pattern gives for a user, not yet looked up on disk.
pub open spec fn file_for(u: UserInfo, pattern: Seq<char>, f: AuthorizedKeysFile) -> bool {
    &&& f.path@ == expand_pattern(pattern, u.username@, user_home(u))
    &&& f.username@ == u.username@
    &&& f.uid == u.uid
    &&& !f.exists
}

/// The files for every pair of a user and a pattern: users in order, and for
/// each user the patterns in order.
pub open spec fn discovered(
    users: Seq<UserInfo>,
    patterns: Seq<Seq<char>>,
    files: Seq<AuthorizedKeysFile>,
) -> bool {
    &&& files.len() == users.len() * patterns.len()
    &&& forall|i: int, j: int|
        0 <= i < users.len() && 0 <= j < patterns.len() ==> file_for(
            users[i],
            patterns[j],
            #[trigger] files[i * patterns.len() + j],
        )
}

pub proof fn lemma_leading_spaces(s: Seq<char>, n: nat)
    requires
        n <= s.len(),
        forall|k: int| 0 <= k < n ==> is_space(#[trigger] s[k]),
        n == s.len() || !is_space(s[n as int]),
    ensures
        leading_spaces(s) == n,
    decreases n,
{
    if n > 0 {
        lemma_leading_spaces(s.drop_first(), (n - 1) as nat);
    }
}

/// The spans of the lines of `cs`, in order.
pub fn line_spans(cs: &Vec<char>) -> (r: Vec<(usize, usize)>)
    ensures
        span_texts(cs@, r@) == split_lines(cs@),
        forall|j: int| 0 <= j < r@.len() ==> (#[trigger] r@[j]).0 <= r@[j].1 <= cs@.len(),
{
    let n = cs.len();
    let mut spans: Vec<(usize, usize)> = Vec::new();
    let mut a: usize = 0;
    proof {
        assert(cs@.skip(0) =~= cs@);
        assert(span_texts(cs@, spans@) + split_lines(cs@) =~= split_lines(cs@));
    }
    loop
        invariant_except_break
            split_lines(cs@) == span_texts(cs@, spans@) + split_lines(cs@.skip(a as int)),
        invariant
            n == cs@.len(),
            a <= n,
            forall|j: int| 0 <= j < spans@.len() ==> (#[trigger] spans@[j]).0 <= spans@[j].1 <= n,
        ensures
            split_lines(cs@) == span_texts(cs@, spans@),
            forall|j: int| 0 <= j < spans@.len() ==> (#[trigger] spans@[j]).0 <= spans@[j].1 <= n,
        decreases n - a,
    {
        let mut k: usize = a;
        while k < n && cs[k] != '\n'
            invariant
                a <= k <= n == cs@.len(),
                forall|m: int| a <= m < k ==> #[trigger] cs@[m] != '\n',
            decreases n - k,
        {
            k = k + 1;
        }
        let ghost s = cs@.skip(a as int);
        proof {
            let len = (k - a) as nat;
            assert forall|m: int| 0 <= m < len implies #[trigger] s[m] != '\n' by {
                assert(s[m] == cs@[a + m]);
            }
            if k < n {
                assert(s[len as int] == cs@[k as int]);
            }
            lemma_line_len(s, len);
            assert(s.take(len as int) =~= cs@.subrange(a as int, k as int));
            assert(span_texts(cs@, spans@.push((a, k))) =~= span_texts(cs@, spans@).push(
                cs@.subrange(a as int, k as int),
            ));
        }
        spans.push((a, k));
        if k == n {
            proof {
                assert(s =~= cs@.subrange(a as int, k as int));
                assert(span_texts(cs@, spans@) =~= span_texts(cs@, spans@.drop_last()) + seq![s]);
            }
            break ;
        }
        proof {
            assert(s.skip((k - a) + 1) =~= cs@.skip(k + 1));
            assert(span_texts(cs@, spans@.drop_last()) + split_lines(s) =~= span_texts(cs@, spans@)
                + split_lines(cs@.skip(k + 1)));
        }
        a = k + 1;
    }
    spans
}

/// The token that `cs` holds at `i`, if any: `h`, `u` or `%` after a `%`.
fn token_at(cs: &Vec<char>, i: usize) -> (r: Option<char>)
    requires
        i < cs@.len(),
    ensures
        match r {
            Some(c) => i + 1 < cs@.len() && cs@[i as int] == '%' && cs@[i + 1] == c && (c == 'h'
                || c == 'u' || c == '%'),
            None => !(i + 1 < cs@.len() && cs@[i as int] == '%' && (cs@[i + 1] == 'h' || cs@[i
                + 1] == 'u' || cs@[i + 1] == '%')),
        },
{
    if cs[i] == '%' && i < cs.len() - 1 {
        let c = cs[i + 1];
        if c == 'h' || c == 'u' || c == '%' {
            return Some(c);
        }
    }
    None
}

/// `pattern` with its tokens expanded in one scan.
pub fn expand_text(pattern: &str, username: &str, home: &str) -> (r: String)
    ensures
        r@ == expand_tokens(pattern@, username@, home@),
{
    let cs = chars_of(pattern);
    let n = cs.len();
    let mut out = "".to_owned();
    proof {
        reveal_strlit("");
        reveal_strlit("%");
        assert(out@ =~= Seq::<char>::empty());
        assert(cs@.skip(0) =~= cs@);
    }
    let mut seg: usize = 0;
    let mut i: usize = 0;
    while i < n
        invariant
            n == cs@.len(),
            cs@ == pattern@,
            seg <= i <= n,
            "%"@ == seq!['%'],
            expand_tokens(pattern@, username@, home@) == out@ + cs@.subrange(seg as int, i as int)
                + expand_tokens(cs@.skip(i as int), username@, home@),
        decreases n - i,
    {
        let ghost rest = cs@.skip(i as int);
        match token_at(&cs, i) {
            Some(c) => {
                let p = piece(pattern, seg, i);
                out.append(p.as_str());
                if c == 'h' {
                    out.append(home);
                } else if c == 'u' {
                    out.append(username);
                } else {
                    out.append("%");
                }
                proof {
                    assert(rest[0] == cs@[i as int]);
                    assert(rest[1] == cs@[i + 1]);
                    assert(rest.skip(2) =~= cs@.skip(i + 2));
                    assert(cs@.subrange((i + 2) as int, (i + 2) as int) =~= Seq::<char>::empty());
                }
                i = i + 2;
                seg = i;
                proof {
                    assert(expand_tokens(pattern@, username@, home@) =~= out@ + cs@.subrange(
                        seg as int,
                        i as int,
                    ) + expand_tokens(cs@.skip(i as int), username@, home@));
                }
            },
            None => {
                proof {
                    assert(rest.len() > 0);
                    assert(rest[0] == cs@[i as int]);
                    if rest.len() >= 2 {
                        assert(rest[1] == cs@[i + 1]);
                    }
                    assert(rest.drop_first() =~= cs@.skip(i + 1));
                    assert(cs@.subrange(seg as int, i + 1) =~= cs@.subrange(seg as int, i as int)
                        + seq![rest[0]]);
                }
                i = i + 1;
            },
        }
    }
    let p = piece(pattern, seg, n);
    out.append(p.as_str());
    proof {
        assert(cs@.skip(n as int) =~= Seq::<char>::empty());
    }
    out
}

/// `rel` resolved against `base`.
pub fn join_path_text(base: &str, rel: &str) -> (r: String)
    ensures
        r@ == join_path(base@, rel@),
{
    let b = chars_of(base);
    let e = chars_of(rel);
    if e.len() > 0 && e[0] == '/' {
        return rel.to_owned();
    }
    if b.len() == 0 {
        return rel.to_owned();
    }
    let mut out = base.to_owned();
    if b[b.len() - 1] != '/' {
        out.append("/");
        proof {
            reveal_strlit("/");
        }
    }
    out.append(rel);
    proof {
        assert(b@.last() == b@[b@.len() - 1]);
    }
    out
}

/// The home directory of an account.
pub fn home_dir_of(user: &UserInfo) -> (r: String)
    ensures
        r@ == user_home(*user),
{
    if user.uid == 0 {
        return "/root".to_owned();
    }
    match &user.home_dir {
        Some(h) => h.clone(),
        None => join_path_text("/home", user.username.as_str()),
    }
}

/// The values of the directive on the line `cs[a .. b]` of `content`.
fn directive_values_span(content: &str, cs: &Vec<char>, a: usize, b: usize, out: &mut Vec<String>)
    requires
        cs@ == content@,
        a <= b <= cs@.len(),
    ensures
        texts_of(final(out)@) == texts_of(old(out)@) + directive_values(
            cs@.subrange(a as int, b as int),
        ),
{
    let ghost line = cs@.subrange(a as int, b as int);
    let spans = field_spans(cs, a, b);
    let ghost f = span_texts(cs@, spans@);
    assert(f == fields(line));
    let d = chars_of("AuthorizedKeysFile");
    if spans.len() == 0 {
        assert(texts_of(out@) + directive_values(line) =~= texts_of(out@));
        return ;
    }
    proof {
        assert(f[0] == cs@.subrange(spans@[0].0 as int, spans@[0].1 as int));
    }
    if !(spans[0].1 - spans[0].0 == d.len() && matches_at(cs, spans[0].0, &d)) {
        proof {
            if f[0].len() == d@.len() {
                assert(cs@.subrange(spans@[0].0 as int, spans@[0].0 + d@.len()) == f[0]);
            }
        }
        assert(texts_of(out@) + directive_values(line) =~= texts_of(out@));
        return ;
    }
    proof {
        assert(cs@.subrange(spans@[0].0 as int, spans@[0].0 + d@.len()) == f[0]);
    }
    let ghost start = out@;
    let mut j: usize = 1;
    assert(f.subrange(1, 1) =~= Seq::<Seq<char>>::empty());
    assert(texts_of(out@) =~= texts_of(start) + f.subrange(1, 1));
    while j < spans.len()
        invariant
            1 <= j <= spans@.len(),
            cs@ == content@,
            f == span_texts(cs@, spans@),
            forall|k: int|
                0 <= k < spans@.len() ==> (#[trigger] spans@[k]).0 < spans@[k].1 <= cs@.len(),
            texts_of(out@) == texts_of(start) + f.subrange(1, j as int),
        decreases spans@.len() - j,
    {
        let p = piece(content, spans[j].0, spans[j].1);
        let ghost prev = out@;
        out.push(p);
        proof {
            assert(p@ == f[j as int]);
            assert(texts_of(out@) =~= texts_of(prev).push(p@));
            assert(f.subrange(1, j + 1) =~= f.subrange(1, j as int).push(f[j as int]));
            assert(texts_of(out@) =~= texts_of(start) + f.subrange(1, j + 1));
        }
        j = j + 1;
    }
    proof {
        assert(f.subrange(1, j as int) =~= f.skip(1));
    }
}

impl SshKeyManager {
    pub fn new() -> (r: SshKeyManager)
        ensures
            r.managed_marker@ == "# PubliKey managed - do not edit manually"@,
            is_comment_line(r.managed_marker@),
    {
        proof {
            reveal_strlit("# PubliKey managed - do not edit manually");
        }
        SshKeyManager { managed_marker: "# PubliKey managed - do not edit manually".to_owned() }
    }

    /// The `AuthorizedKeysFile` patterns of the daemon configuration `config`
    /// (the text of the first configuration file found, if any).
    pub fn get_authorized_keys_patterns(&self, config: Option<&str>) -> (r: Vec<String>)
        ensures
            texts_of(r@) == patterns_of(
                match config {
                    Some(c) => Some(c@),
                    None => None,
                },
            ),
    {
        let mut patterns: Vec<String> = Vec::new();
        match config {
            None => {},
            Some(content) => {
                let cs = chars_of(content);
                let lines = line_spans(&cs);
                let ghost ls = span_texts(cs@, lines@);
                let mut i: usize = 0;
                assert(texts_of(patterns@) =~= config_values(ls.take(0)));
                while i < lines.len()
                    invariant
                        i <= lines@.len(),
                        cs@ == content@,
                        ls == span_texts(cs@, lines@),
                        forall|j: int|
                            0 <= j < lines@.len() ==> (#[trigger] lines@[j]).0 <= lines@[j].1
                                <= cs@.len(),
                        texts_of(patterns@) == config_values(ls.take(i as int)),
                    decreases lines@.len() - i,
                {
                    directive_values_span(content, &cs, lines[i].0, lines[i].1, &mut patterns);
                    proof {
                        assert(ls.take(i + 1).drop_last() =~= ls.take(i as int));
                    }
                    i = i + 1;
                }
                assert(ls.take(i as int) =~= ls);
            },
        }
        if patterns.len() == 0 {
            let mut d: Vec<String> = Vec::new();
            d.push(".ssh/authorized_keys".to_owned());
            assert(texts_of(d@) =~= default_patterns());
            return d;
        }
        patterns
    }

    /// Expands the tokens of a pattern for one user: `%h` is the home
    /// directory, `%u` the user name, `%%` a literal `%`. A pattern that does
    /// not expand to an absolute path is taken relative to the home directory.
    pub fn expand_authorized_keys_pattern(&self, pattern: &str, username: &str, home_dir: &str) -> (r:
        Option<String>)
        ensures
            r is Some,
            r->0@ == expand_pattern(pattern@, username@, home_dir@),
    {
        let e = expand_text(pattern, username, home_dir);
        Some(join_path_text(home_dir, e.as_str()))
    }

    /// Every file where the daemon would look for the users' keys: one for each
    /// pair of a user and a pattern. Whether each exists is for the caller,
    /// which sees the filesystem, to record.
    pub fn discover_authorized_keys_files(&self, users: &[UserInfo], patterns: &Vec<String>) -> (r:
        Vec<AuthorizedKeysFile>)
        requires
            users@.len() * patterns@.len() <= usize::MAX,
        ensures
            discovered(users@, texts_of(patterns@), r@),
    {
        let np = patterns.len();
        let mut files: Vec<AuthorizedKeysFile> = Vec::new();
        let mut i: usize = 0;
        while i < users.len()
            invariant
                i <= users@.len(),
                np == patterns@.len(),
                users@.len() * np <= usize::MAX,
                files@.len() == i * np,
                forall|u: int, j: int|
                    0 <= u < i && 0 <= j < np ==> file_for(
                        users@[u],
                        patterns@[j]@,
                        #[trigger] files@[u * np + j],
                    ),
            decreases users@.len() - i,
        {
            let user = &users[i];
            let home = home_dir_of(user);
            let mut j: usize = 0;
            while j < np
                invariant
                    i < users@.len(),
                    j <= np == patterns@.len(),
                    *user == users@[i as int],
                    home@ == user_home(*user),
                    files@.len() == i * np + j,
                    forall|u: int, k: int|
                        0 <= u < i && 0 <= k < np ==> file_for(
                            users@[u],
                            patterns@[k]@,
                            #[trigger] files@[u * np + k],
                        ),
                    forall|k: int|
                        0 <= k < j ==> file_for(
                            users@[i as int],
                            patterns@[k]@,
                            #[trigger] files@[i * np + k],
                        ),
                decreases np - j,
            {
                let path = match self.expand_authorized_keys_pattern(
                    patterns[j].as_str(),
                    user.username.as_str(),
                    home.as_str(),
                ) {
                    Some(p) => p,
                    None => home.clone(),
                };
                let ghost before = files@;
                files.push(
                    AuthorizedKeysFile {
                        path,
                        username: user.username.clone(),
                        uid: user.uid,
                        exists: false,
                    },
                );
                proof {
                    assert forall|u: int, k: int|
                        0 <= u < i && 0 <= k < np implies file_for(
                        users@[u],
                        patterns@[k]@,
                        #[trigger] files@[u * np + k],
                    ) by {
                        assert(u * np + k < i * np) by (nonlinear_arith)
                            requires
                                0 <= u < i,
                                0 <= k < np,
                        ;
                        assert(files@[u * np + k] == before[u * np + k]);
                    }
                }
                j = j + 1;
            }
            proof {
                assert((i + 1) * np == i * np + np) by (nonlinear_arith);
                assert forall|u: int, k: int|
                    0 <= u < i + 1 && 0 <= k < np implies file_for(
                    users@[u],
                    patterns@[k]@,
                    #[trigger] files@[u * np + k],
                ) by {
                    if u == i {
                    }
                }
                assert(i + 1 <= users@.len());
                assert((i + 1) * np <= users@.len() * np) by (nonlinear_arith)
                    requires
                        i + 1 <= users@.len(),
                ;
            }
            i = i + 1;
        }
        proof {
            assert forall|u: int, j: int|
                0 <= u < users@.len() && 0 <= j < texts_of(patterns@).len() implies file_for(
                users@[u],
                texts_of(patterns@)[j],
                #[trigger] files@[u * texts_of(patterns@).len() + j],
            ) by {
                assert(texts_of(patterns@)[j] == patterns@[j]@);
            }
        }
        files
    }
}

} // verus!
