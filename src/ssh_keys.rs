//! One SSH public key line: parsing, validation, fingerprint and rendering.
use crate::api::KeyAssignment;
use crate::codec::{base64_decoded, base64_encoded, decode_base64, encode_base64, sha256, sha256_digest};
use crate::text::{
    chars_of, field_spans, fields, join_spaced, lemma_fields_are_fields, lemma_fields_join,
    lemma_join_chars, piece, same_text, span_texts,
};
use vstd::prelude::*;

verus! {

/// A parsed SSH public key.
#[derive(Debug, Clone, PartialEq)]
pub struct SshKey {
    pub key_type: String,
    pub key_data: String,
    pub comment: Option<String>,
    pub fingerprint: String,
}

/// The text of an `SshKey`.
pub struct SshKeyView {
    pub key_type: Seq<char>,
    pub key_data: Seq<char>,
    pub comment: Option<Seq<char>>,
    pub fingerprint: Seq<char>,
}

pub open spec fn opt_text(o: Option<String>) -> Option<Seq<char>> {
    match o {
        Some(s) => Some(s@),
        None => None,
    }
}

impl View for SshKey {
    type V = SshKeyView;

    open spec fn view(&self) -> SshKeyView {
        SshKeyView {
            key_type: self.key_type@,
            key_data: self.key_data@,
            comment: opt_text(self.comment),
            fingerprint: self.fingerprint@,
        }
    }
}

/// Why a line is not an SSH public key.
#[derive(Debug, Clone, Copy, PartialEq, Eq, Structural)]
pub enum KeyParseError {
    /// Nothing but whitespace, or a comment.
    EmptyOrComment,
    /// Fewer than two fields.
    TooFewFields,
    /// The first field is not an accepted key algorithm.
    UnsupportedKeyType,
    /// The second field is not valid standard base64.
    InvalidKeyData,
}

/// The key algorithms that are accepted.
pub open spec fn allowed_key_type(t: Seq<char>) -> bool {
    t == "ssh-rsa"@ || t == "ssh-dss"@ || t == "ssh-ed25519"@ || t == "ecdsa-sha2-nistp256"@ || t
        == "ecdsa-sha2-nistp384"@ || t == "ecdsa-sha2-nistp521"@ || t
        == "sk-ssh-ed25519@openssh.com"@ || t == "sk-ecdsa-sha2-nistp256@openssh.com"@
}

/// `SHA256:` followed by the base64 of the SHA-256 digest of the payload.
pub open spec fn fingerprint_of(payload: Seq<u8>) -> Seq<char> {
    "SHA256:"@ + base64_encoded(sha256_digest(payload))
}

/// The key a line holds: type and data are its first two fields, the comment
/// the remaining fields joined by single spaces.
pub open spec fn parse_key(line: Seq<char>) -> Result<SshKeyView, KeyParseError> {
    let f = fields(line);
    if f.len() == 0 || f[0][0] == '#' {
        Err(KeyParseError::EmptyOrComment)
    } else if f.len() < 2 {
        Err(KeyParseError::TooFewFields)
    } else if !allowed_key_type(f[0]) {
        Err(KeyParseError::UnsupportedKeyType)
    } else if base64_decoded(f[1]) is None {
        Err(KeyParseError::InvalidKeyData)
    } else {
        Ok(
            SshKeyView {
                key_type: f[0],
                key_data: f[1],
                comment: if f.len() > 2 {
                    Some(join_spaced(f.skip(2)))
                } else {
                    None
                },
                fingerprint: fingerprint_of(base64_decoded(f[1])->0),
            },
        )
    }
}

/// The line form of a key: `<type> <data>`, then ` <comment>` if there is one.
pub open spec fn render_key(k: SshKeyView) -> Seq<char> {
    k.key_type + seq![' '] + k.key_data + match k.comment {
        Some(c) => seq![' '] + c,
        None => Seq::<char>::empty(),
    }
}

/// The second field of `s`, or nothing.
pub open spec fn second_field(s: Seq<char>) -> Seq<char> {
    if fields(s).len() > 1 {
        fields(s)[1]
    } else {
        Seq::<char>::empty()
    }
}

pub open spec fn parsed_as(r: Result<SshKey, KeyParseError>, line: Seq<char>) -> bool {
    match r {
        Ok(k) => parse_key(line) == Ok::<SshKeyView, KeyParseError>(k@),
        Err(e) => parse_key(line) == Err::<SshKeyView, KeyParseError>(e),
    }
}

pub proof fn lemma_join_push(f: Seq<Seq<char>>, w: Seq<char>)
    requires
        f.len() >= 1,
    ensures
        join_spaced(f.push(w)) == join_spaced(f) + seq![' '] + w,
    decreases f.len(),
{
    let g = f.push(w);
    assert(g[0] == f[0]);
    assert(join_spaced(g) == g[0] + seq![' '] + join_spaced(g.drop_first()));
    if f.len() == 1 {
        assert(g.drop_first() =~= seq![w]);
        assert(join_spaced(seq![w]) == w);
    } else {
        assert(g.drop_first() =~= f.drop_first().push(w));
        lemma_join_push(f.drop_first(), w);
        assert(f[0] + seq![' '] + (join_spaced(f.drop_first()) + seq![' '] + w) =~= f[0] + seq![
            ' ',
        ] + join_spaced(f.drop_first()) + seq![' '] + w);
    }
}

/// The texts of the spans `from ..` of `line`, joined by single spaces.
fn join_spans(line: &str, spans: &Vec<(usize, usize)>, from: usize) -> (r: String)
    requires
        from < spans@.len(),
        forall|j: int|
            0 <= j < spans@.len() ==> (#[trigger] spans@[j]).0 <= spans@[j].1 <= line@.len(),
    ensures
        r@ == join_spaced(span_texts(line@, spans@).skip(from as int)),
{
    let ghost texts = span_texts(line@, spans@);
    let n = spans.len();
    let mut acc = piece(line, spans[from].0, spans[from].1);
    let mut j: usize = from + 1;
    proof {
        assert(texts.subrange(from as int, j as int) =~= seq![texts[from as int]]);
    }
    while j < n
        invariant
            from < j <= spans@.len(),
            n == spans@.len(),
            texts == span_texts(line@, spans@),
            forall|k: int|
                0 <= k < spans@.len() ==> (#[trigger] spans@[k]).0 <= spans@[k].1 <= line@.len(),
            acc@ == join_spaced(texts.subrange(from as int, j as int)),
        decreases spans@.len() - j,
    {
        let p = piece(line, spans[j].0, spans[j].1);
        acc.append(" ");
        acc.append(p.as_str());
        proof {
            reveal_strlit(" ");
            lemma_join_push(texts.subrange(from as int, j as int), texts[j as int]);
            assert(texts.subrange(from as int, j as int).push(texts[j as int]) =~= texts.subrange(
                from as int,
                j + 1,
            ));
        }
        j = j + 1;
    }
    proof {
        assert(texts.subrange(from as int, j as int) =~= texts.skip(from as int));
    }
    acc
}

/// Parses the characters `lo .. hi` of `line` (whose characters `cs` holds).
pub(crate) fn parse_span(line: &str, cs: &Vec<char>, lo: usize, hi: usize) -> (r: Result<
    SshKey,
    KeyParseError,
>)
    requires
        cs@ == line@,
        lo <= hi <= cs@.len(),
    ensures
        parsed_as(r, cs@.subrange(lo as int, hi as int)),
{
    let ghost sub = cs@.subrange(lo as int, hi as int);
    let spans = field_spans(cs, lo, hi);
    proof {
        lemma_fields_are_fields(sub);
    }
    let ghost f = fields(sub);
    if spans.len() == 0 {
        return Err(KeyParseError::EmptyOrComment);
    }
    proof {
        assert(f[0] == span_texts(cs@, spans@)[0]);
        assert(f[0][0] == cs@[spans@[0].0 as int]);
    }
    if cs[spans[0].0] == '#' {
        return Err(KeyParseError::EmptyOrComment);
    }
    if spans.len() < 2 {
        return Err(KeyParseError::TooFewFields);
    }
    let key_type = piece(line, spans[0].0, spans[0].1);
    if !SshKey::validate_key_type(&key_type) {
        return Err(KeyParseError::UnsupportedKeyType);
    }
    let key_data = piece(line, spans[1].0, spans[1].1);
    proof {
        assert(f[1] == span_texts(cs@, spans@)[1]);
    }
    match decode_base64(key_data.as_str()) {
        None => Err(KeyParseError::InvalidKeyData),
        Some(payload) => {
            let fingerprint = SshKey::calculate_fingerprint(&payload);
            let comment = if spans.len() > 2 {
                Some(join_spans(line, &spans, 2))
            } else {
                None
            };
            let key = SshKey { key_type, key_data, comment, fingerprint };
            proof {
                assert(span_texts(line@, spans@) == f);
            }
            Ok(key)
        },
    }
}

impl SshKey {
    /// Whether `key_type` is an accepted key algorithm.
    fn validate_key_type(key_type: &String) -> (r: bool)
        ensures
            r == allowed_key_type(key_type@),
    {
        let t = key_type;
        same_text(t, "ssh-rsa") || same_text(t, "ssh-dss") || same_text(t, "ssh-ed25519")
            || same_text(t, "ecdsa-sha2-nistp256") || same_text(t, "ecdsa-sha2-nistp384")
            || same_text(t, "ecdsa-sha2-nistp521") || same_text(t, "sk-ssh-ed25519@openssh.com")
            || same_text(t, "sk-ecdsa-sha2-nistp256@openssh.com")
    }

    /// The fingerprint of a decoded key payload.
    fn calculate_fingerprint(payload: &Vec<u8>) -> (r: String)
        ensures
            r@ == fingerprint_of(payload@),
    {
        let digest = sha256(payload);
        let encoded = encode_base64(&digest);
        let mut fingerprint = "SHA256:".to_owned();
        fingerprint.append(encoded.as_str());
        fingerprint
    }

    /// Parses one public key line.
    pub fn parse(line: &str) -> (r: Result<SshKey, KeyParseError>)
        ensures
            parsed_as(r, line@),
    {
        let cs = chars_of(line);
        proof {
            assert(cs@.subrange(0, cs@.len() as int) =~= cs@);
        }
        parse_span(line, &cs, 0, cs.len())
    }

    /// The key as a line: `<type> <data>`, then ` <comment>` if there is one.
    pub fn to_string(&self) -> (r: String)
        ensures
            r@ == render_key(self@),
    {
        let mut s = self.key_type.clone();
        s.append(" ");
        s.append(self.key_data.as_str());
        match &self.comment {
            Some(c) => {
                s.append(" ");
                s.append(c.as_str());
            },
            None => {},
        }
        proof {
            reveal_strlit(" ");
        }
        assert(s@ =~= render_key(self@));
        s
    }

    /// Whether this key is the one an assignment declares: the fingerprints are
    /// equal, or the types are and the data is the second field of the
    /// assignment's public key.
    pub fn matches_assignment(&self, assignment: &KeyAssignment) -> (r: bool)
        ensures
            r == (self@.fingerprint == assignment.fingerprint@ || (self@.key_type
                == assignment.key_type@ && self@.key_data == second_field(
                assignment.public_key@,
            ))),
    {
        if self.fingerprint == assignment.fingerprint {
            return true;
        }
        if !(self.key_type == assignment.key_type) {
            return false;
        }
        let pk = assignment.public_key.as_str();
        let cs = chars_of(pk);
        let spans = field_spans(&cs, 0, cs.len());
        proof {
            assert(cs@.subrange(0, cs@.len() as int) =~= cs@);
        }
        proof {
            assert(fields(pk@) == span_texts(cs@, spans@));
        }
        let second = if spans.len() > 1 {
            proof {
                assert(fields(pk@)[1] == span_texts(cs@, spans@)[1]);
            }
            piece(pk, spans[1].0, spans[1].1)
        } else {
            proof {
                reveal_strlit("");
            }
            let e = "".to_owned();
            assert(e@ =~= Seq::<char>::empty());
            e
        };
        assert(second@ == second_field(pk@));
        self.key_data == second
    }
}

/// A line whose first two fields are an accepted key type and valid base64
/// parses, to those fields and the rest joined by single spaces.
pub proof fn lemma_valid_line_parses(line: Seq<char>)
    requires
        fields(line).len() >= 2,
        fields(line)[0][0] != '#',
        allowed_key_type(fields(line)[0]),
        base64_decoded(fields(line)[1]) is Some,
    ensures
        parse_key(line) is Ok,
        parse_key(line)->Ok_0.key_type == fields(line)[0],
        parse_key(line)->Ok_0.key_data == fields(line)[1],
        parse_key(line)->Ok_0.comment == if fields(line).len() > 2 {
            Some(join_spaced(fields(line).skip(2)))
        } else {
            None::<Seq<char>>
        },
{
}

/// Lines that are blank or comments, have fewer than two fields, an
/// unaccepted key type or key data that is not base64 do not parse.
pub proof fn lemma_invalid_line_fails(line: Seq<char>)
    requires
        fields(line).len() < 2 || fields(line)[0][0] == '#' || !allowed_key_type(fields(line)[0])
            || base64_decoded(fields(line)[1]) is None,
    ensures
        parse_key(line) is Err,
{
}

/// A parsed key renders as the fields of its line joined by single spaces.
pub proof fn lemma_render_is_join(line: Seq<char>)
    requires
        parse_key(line) is Ok,
    ensures
        render_key(parse_key(line)->Ok_0) == join_spaced(fields(line)),
{
    let f = fields(line);
    let k = parse_key(line)->Ok_0;
    let df = f.drop_first();
    if f.len() == 2 {
        assert(df =~= seq![f[1]]);
        assert(join_spaced(f) == f[0] + seq![' '] + join_spaced(df));
        assert(render_key(k) =~= join_spaced(f));
    } else {
        assert(df.drop_first() =~= f.skip(2));
        assert(join_spaced(df) == f[1] + seq![' '] + join_spaced(f.skip(2)));
        assert(join_spaced(f) == f[0] + seq![' '] + join_spaced(df));
        assert(render_key(k) =~= join_spaced(f));
    }
}

/// A line that parses renders back to a line that parses to the same key: type,
/// data and comment (its fields joined by single spaces) survive the round trip.
pub proof fn lemma_parse_render_round_trip(line: Seq<char>)
    requires
        parse_key(line) is Ok,
    ensures
        parse_key(render_key(parse_key(line)->Ok_0)) == parse_key(line),
{
    let f = fields(line);
    lemma_fields_are_fields(line);
    lemma_fields_join(f);
    lemma_render_is_join(line);
}

/// A parsed key renders to a single line, without line feed.
pub proof fn lemma_render_one_line(line: Seq<char>)
    requires
        parse_key(line) is Ok,
    ensures
        forall|i: int|
            0 <= i < render_key(parse_key(line)->Ok_0).len() ==> #[trigger] render_key(
                parse_key(line)->Ok_0,
            )[i] != '\n',
{
    lemma_fields_are_fields(line);
    lemma_render_is_join(line);
    lemma_join_chars(fields(line));
}

/// The fingerprint depends on the decoded payload alone: not on the type, the
/// comment, nor anything but the bytes the key data decodes to.
pub proof fn lemma_fingerprint_payload_only(a: Seq<char>, b: Seq<char>)
    requires
        parse_key(a) is Ok,
        parse_key(b) is Ok,
        base64_decoded(parse_key(a)->Ok_0.key_data) == base64_decoded(parse_key(b)->Ok_0.key_data),
    ensures
        parse_key(a)->Ok_0.fingerprint == parse_key(b)->Ok_0.fingerprint,
{
}

} // verus!
