//! The text of an `authorized_keys` file: which keys it holds, and the full
//! replacement text written for a set of keys.
use crate::locator::{AuthorizedKeysFile, SshKeyManager};
use crate::ssh_keys::{
    lemma_parse_render_round_trip, lemma_render_one_line, parse_key, parse_span, render_key,
    KeyParseError, SshKey, SshKeyView,
};
use crate::text::{
    chars_of, fields, is_space, lemma_first_field_start, lemma_split_lines_cons, span_texts,
    split_lines,
};
use crate::locator::line_spans;
use vstd::prelude::*;

verus! {

pub open spec fn keys_view(v: Seq<SshKey>) -> Seq<SshKeyView> {
    v.map_values(|k: SshKey| k@)
}

/// The keys of the lines that parse, in order; the other lines are dropped.
pub open spec fn parsed_keys(lines: Seq<Seq<char>>) -> Seq<SshKeyView>
    decreases lines.len(),
{
    if lines.len() == 0 {
        Seq::<SshKeyView>::empty()
    } else {
        parsed_keys(lines.drop_last()) + match parse_key(lines.last()) {
            Ok(k) => seq![k],
            Err(_) => Seq::<SshKeyView>::empty(),
        }
    }
}

/// The keys that the text of a key file holds.
pub open spec fn keys_in(content: Seq<char>) -> Seq<SshKeyView> {
    parsed_keys(split_lines(content))
}

/// One rendered line per key, each ended by a line feed.
pub open spec fn key_lines(ks: Seq<SshKeyView>) -> Seq<char>
    decreases ks.len(),
{
    if ks.len() == 0 {
        Seq::<char>::empty()
    } else {
        render_key(ks[0]) + seq!['\n'] + key_lines(ks.drop_first())
    }
}

/// The full text written for a set of keys: the marker line, two lines of
/// explanation, a blank line, then the keys.
pub open spec fn file_content(marker: Seq<char>, ks: Seq<SshKeyView>) -> Seq<char> {
    marker + seq!['\n'] + "# This file is managed by PubliKey Agent"@ + seq!['\n']
        + "# Manual changes will be overwritten"@ + seq!['\n', '\n'] + key_lines(ks)
}

/// A line that the marker can be: a comment, on one line.
pub open spec fn is_comment_line(m: Seq<char>) -> bool {
    &&& m.len() > 0
    &&& m[0] == '#'
    &&& forall|k: int| 0 <= k < m.len() ==> #[trigger] m[k] != '\n'
}

/// Keys as parsing gives them: each renders to one line that parses back to it.
pub open spec fn is_parsed_key(k: SshKeyView) -> bool {
    &&& parse_key(render_key(k)) == Ok::<SshKeyView, KeyParseError>(k)
    &&& forall|i: int| 0 <= i < render_key(k).len() ==> #[trigger] render_key(k)[i] != '\n'
}

pub proof fn lemma_parsed_key_is_parsed(line: Seq<char>)
    requires
        parse_key(line) is Ok,
    ensures
        is_parsed_key(parse_key(line)->Ok_0),
{
    lemma_parse_render_round_trip(line);
    lemma_render_one_line(line);
}

proof fn lemma_parsed_keys_push(lines: Seq<Seq<char>>, x: Seq<char>)
    ensures
        parsed_keys(lines.push(x)) == parsed_keys(lines) + match parse_key(x) {
            Ok(k) => seq![k],
            Err(_) => Seq::<SshKeyView>::empty(),
        },
{
    assert(lines.push(x).drop_last() =~= lines);
}

proof fn lemma_parsed_keys_concat(a: Seq<Seq<char>>, b: Seq<Seq<char>>)
    ensures
        parsed_keys(a + b) == parsed_keys(a) + parsed_keys(b),
    decreases b.len(),
{
    if b.len() == 0 {
        assert(a + b =~= a);
        assert(parsed_keys(a) + parsed_keys(b) =~= parsed_keys(a));
    } else {
        assert((a + b).drop_last() =~= a + b.drop_last());
        assert((a + b).last() == b.last());
        lemma_parsed_keys_concat(a, b.drop_last());
        let tail = match parse_key(b.last()) {
            Ok(k) => seq![k],
            Err(_) => Seq::<SshKeyView>::empty(),
        };
        assert(parsed_keys(a) + parsed_keys(b.drop_last()) + tail =~= parsed_keys(a) + (
        parsed_keys(b.drop_last()) + tail));
    }
}

proof fn lemma_key_lines_push(ks: Seq<SshKeyView>, k: SshKeyView)
    ensures
        key_lines(ks.push(k)) == key_lines(ks) + render_key(k) + seq!['\n'],
    decreases ks.len(),
{
    if ks.len() == 0 {
        assert(ks.push(k).drop_first() =~= Seq::<SshKeyView>::empty());
        assert(key_lines(Seq::<SshKeyView>::empty()) == Seq::<char>::empty());
        assert(ks.push(k)[0] == k);
        assert(key_lines(ks.push(k)) =~= key_lines(ks) + render_key(k) + seq!['\n']);
    } else {
        assert(ks.push(k).drop_first() =~= ks.drop_first().push(k));
        lemma_key_lines_push(ks.drop_first(), k);
        assert(ks.push(k)[0] == ks[0]);
        assert(key_lines(ks.push(k)) =~= key_lines(ks) + render_key(k) + seq!['\n']);
    }
}

/// The lines of the rendered keys: one per key, then an empty remainder.
proof fn lemma_split_key_lines(ks: Seq<SshKeyView>)
    requires
        forall|j: int| 0 <= j < ks.len() ==> is_parsed_key(#[trigger] ks[j]),
    ensures
        split_lines(key_lines(ks)) == ks.map_values(|k: SshKeyView| render_key(k)).push(
            Seq::<char>::empty(),
        ),
    decreases ks.len(),
{
    if ks.len() == 0 {
        assert(split_lines(Seq::<char>::empty()) == seq![Seq::<char>::empty()]);
        assert(ks.map_values(|k: SshKeyView| render_key(k)).push(Seq::<char>::empty()) =~= seq![
            Seq::<char>::empty(),
        ]);
    } else {
        let rest = ks.drop_first();
        assert forall|j: int| 0 <= j < rest.len() implies is_parsed_key(#[trigger] rest[j]) by {
            assert(rest[j] == ks[j + 1]);
        }
        lemma_split_key_lines(rest);
        assert(is_parsed_key(ks[0]));
        lemma_split_lines_cons(render_key(ks[0]), key_lines(rest));
        assert(ks.map_values(|k: SshKeyView| render_key(k)).push(Seq::<char>::empty()) =~= seq![
            render_key(ks[0]),
        ] + rest.map_values(|k: SshKeyView| render_key(k)).push(Seq::<char>::empty()));
    }
}

proof fn lemma_parsed_rendered(ks: Seq<SshKeyView>)
    requires
        forall|j: int| 0 <= j < ks.len() ==> is_parsed_key(#[trigger] ks[j]),
    ensures
        parsed_keys(ks.map_values(|k: SshKeyView| render_key(k))) == ks,
    decreases ks.len(),
{
    if ks.len() > 0 {
        let init = ks.drop_last();
        assert forall|j: int| 0 <= j < init.len() implies is_parsed_key(#[trigger] init[j]) by {
            assert(init[j] == ks[j]);
        }
        lemma_parsed_rendered(init);
        let m = ks.map_values(|k: SshKeyView| render_key(k));
        assert(m.drop_last() =~= init.map_values(|k: SshKeyView| render_key(k)));
        assert(is_parsed_key(ks.last()));
        assert(m.last() == render_key(ks.last()));
        assert(init.push(ks.last()) =~= ks);
    }
}

proof fn lemma_comment_line_no_key(m: Seq<char>)
    requires
        is_comment_line(m),
    ensures
        parse_key(m) is Err,
{
    assert(!is_space(m[0]));
    lemma_first_field_start(m);
}

/// What a written file holds, read back: exactly the keys it was written for,
/// in order.
pub proof fn lemma_written_keys_read_back(marker: Seq<char>, ks: Seq<SshKeyView>)
    requires
        is_comment_line(marker),
        forall|j: int| 0 <= j < ks.len() ==> is_parsed_key(#[trigger] ks[j]),
    ensures
        keys_in(file_content(marker, ks)) == ks,
{
    let h2 = "# This file is managed by PubliKey Agent"@;
    let h3 = "# Manual changes will be overwritten"@;
    reveal_strlit("# This file is managed by PubliKey Agent");
    reveal_strlit("# Manual changes will be overwritten");
    assert(is_comment_line(h2));
    assert(is_comment_line(h3));
    let body = key_lines(ks);
    let e = Seq::<char>::empty();
    assert(file_content(marker, ks) =~= marker + seq!['\n'] + (h2 + seq!['\n'] + (h3 + seq!['\n']
        + (e + seq!['\n'] + body))));
    lemma_split_lines_cons(e, body);
    lemma_split_lines_cons(h3, e + seq!['\n'] + body);
    lemma_split_lines_cons(h2, h3 + seq!['\n'] + (e + seq!['\n'] + body));
    lemma_split_lines_cons(marker, h2 + seq!['\n'] + (h3 + seq!['\n'] + (e + seq!['\n'] + body)));
    lemma_split_key_lines(ks);
    let rendered = ks.map_values(|k: SshKeyView| render_key(k));
    let head = seq![marker, h2, h3, e];
    assert(split_lines(file_content(marker, ks)) =~= head + (rendered + seq![e]));
    lemma_comment_line_no_key(marker);
    lemma_comment_line_no_key(h2);
    lemma_comment_line_no_key(h3);
    assert(fields(e) == Seq::<Seq<char>>::empty());
    assert(parse_key(e) is Err);
    assert(head.drop_last().drop_last().drop_last().drop_last() =~= Seq::<Seq<char>>::empty());
    assert(parsed_keys(head) =~= Seq::<SshKeyView>::empty()) by {
        let h1 = seq![marker];
        let h12 = seq![marker, h2];
        let h123 = seq![marker, h2, h3];
        assert(h1.drop_last() =~= Seq::<Seq<char>>::empty());
        assert(parsed_keys(Seq::<Seq<char>>::empty()) == Seq::<SshKeyView>::empty());
        assert(h1.last() == marker);
        assert(parsed_keys(h1) =~= Seq::<SshKeyView>::empty());
        assert(h12.drop_last() =~= h1);
        assert(parsed_keys(h12) =~= Seq::<SshKeyView>::empty());
        assert(h123.drop_last() =~= h12);
        assert(parsed_keys(h123) =~= Seq::<SshKeyView>::empty());
        assert(head.drop_last() =~= h123);
    }
    lemma_parsed_keys_concat(head, rendered + seq![e]);
    lemma_parsed_keys_push(rendered, e);
    assert(rendered + seq![e] =~= rendered.push(e));
    lemma_parsed_rendered(ks);
    assert(Seq::<SshKeyView>::empty() + (ks + Seq::<SshKeyView>::empty()) =~= ks);
}

/// The keys that `content` holds: each line is parsed on its own, and the
/// lines that do not parse (comments, blanks, damaged keys) are dropped.
pub fn keys_from_text(content: &str) -> (r: Vec<SshKey>)
    ensures
        keys_view(r@) == keys_in(content@),
{
    let cs = chars_of(content);
    let lines = line_spans(&cs);
    let ghost ls = span_texts(cs@, lines@);
    let mut keys: Vec<SshKey> = Vec::new();
    let mut i: usize = 0;
    assert(keys_view(keys@) =~= parsed_keys(ls.take(0)));
    while i < lines.len()
        invariant
            i <= lines@.len(),
            cs@ == content@,
            ls == span_texts(cs@, lines@),
            ls == split_lines(cs@),
            forall|j: int|
                0 <= j < lines@.len() ==> (#[trigger] lines@[j]).0 <= lines@[j].1 <= cs@.len(),
            keys_view(keys@) == parsed_keys(ls.take(i as int)),
        decreases lines@.len() - i,
    {
        let r = parse_span(content, &cs, lines[i].0, lines[i].1);
        proof {
            assert(ls[i as int] == cs@.subrange(lines@[i as int].0 as int, lines@[i as int].1 as int));
            assert(ls.take(i + 1) =~= ls.take(i as int).push(ls[i as int]));
            lemma_parsed_keys_push(ls.take(i as int), ls[i as int]);
        }
        match r {
            Ok(k) => {
                let ghost prev = keys@;
                keys.push(k);
                assert(keys_view(keys@) =~= keys_view(prev).push(k@));
            },
            Err(_) => {},
        }
        assert(keys_view(keys@) =~= parsed_keys(ls.take(i + 1)));
        i = i + 1;
    }
    assert(ls.take(i as int) =~= ls);
    keys
}

impl SshKeyManager {
    /// The keys a key file holds, given its text (ignored for a file that does
    /// not exist, which holds none).
    pub fn read_authorized_keys(&self, file: &AuthorizedKeysFile, content: &str) -> (r: Vec<
        SshKey,
    >)
        ensures
            keys_view(r@) == if file.exists {
                keys_in(content@)
            } else {
                Seq::<SshKeyView>::empty()
            },
    {
        if !file.exists {
            let v: Vec<SshKey> = Vec::new();
            assert(keys_view(v@) =~= Seq::<SshKeyView>::empty());
            return v;
        }
        keys_from_text(content)
    }

    /// The full text that replaces a key file holding `keys`.
    pub fn authorized_keys_content(&self, keys: &Vec<SshKey>) -> (r: String)
        ensures
            r@ == file_content(self.managed_marker@, keys_view(keys@)),
    {
        proof {
            reveal_strlit("\n");
        }
        let mut out = self.managed_marker.clone();
        out.append("\n");
        out.append("# This file is managed by PubliKey Agent");
        out.append("\n");
        out.append("# Manual changes will be overwritten");
        out.append("\n");
        out.append("\n");
        let ghost head = out@;
        assert(head =~= file_content(self.managed_marker@, Seq::<SshKeyView>::empty()));
        let mut i: usize = 0;
        assert(keys_view(keys@).take(0) =~= Seq::<SshKeyView>::empty());
        while i < keys.len()
            invariant
                i <= keys@.len(),
                head == file_content(self.managed_marker@, Seq::<SshKeyView>::empty()),
                out@ == head + key_lines(keys_view(keys@).take(i as int)),
            decreases keys@.len() - i,
        {
            let line = keys[i].to_string();
            let ghost before = out@;
            out.append(line.as_str());
            out.append("\n");
            proof {
                let kv = keys_view(keys@);
                reveal_strlit("\n");
                assert("\n"@ =~= seq!['\n']);
                assert(kv[i as int] == keys@[i as int]@);
                assert(out@ == before + render_key(kv[i as int]) + seq!['\n']);
                assert(kv.take(i + 1) =~= kv.take(i as int).push(kv[i as int]));
                lemma_key_lines_push(kv.take(i as int), kv[i as int]);
            }
            i = i + 1;
        }
        assert(keys_view(keys@).take(i as int) =~= keys_view(keys@));
        out
    }
}

} // verus!
