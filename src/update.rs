//! Release versions: which is newer, and which asset of a release fits.
use crate::text::{chars_of, parse_u32, parse_u32_span, span_texts, split_on, split_spans};
use vstd::prelude::*;

verus! {

/// A downloadable file of a release.
#[derive(Debug, Clone)]
pub struct GitHubAsset {
    pub name: String,
    pub browser_download_url: String,
    pub size: u64,
    pub content_type: String,
}

/// A published release.
#[derive(Debug, Clone)]
pub struct GitHubRelease {
    pub tag_name: String,
    pub name: String,
    pub body: String,
    pub draft: bool,
    pub prerelease: bool,
    pub assets: Vec<GitHubAsset>,
}

/// A version without one leading `v`.
pub open spec fn strip_v(s: Seq<char>) -> Seq<char> {
    if s.len() > 0 && s[0] == 'v' {
        s.drop_first()
    } else {
        s
    }
}

/// The numbers of the dot-separated parts that read as numbers, in order;
/// the others are skipped.
pub open spec fn numeric_parts(parts: Seq<Seq<char>>) -> Seq<u32>
    decreases parts.len(),
{
    if parts.len() == 0 {
        Seq::<u32>::empty()
    } else {
        numeric_parts(parts.drop_last()) + match parse_u32(parts.last()) {
            Some(n) => seq![n],
            None => Seq::<u32>::empty(),
        }
    }
}

/// The numeric parts of a version.
pub open spec fn version_parts(v: Seq<char>) -> Seq<u32> {
    numeric_parts(split_on(strip_v(v), '.'))
}

/// Part `i` of a version, with missing parts read as 0.
pub open spec fn part_or_zero(p: Seq<u32>, i: int) -> u32 {
    if 0 <= i < p.len() {
        p[i]
    } else {
        0
    }
}

/// Whether `a` is greater than `b` from part `i` on, both padded with zeros
/// to `n` parts: at the first part where they differ, `a`'s is greater.
pub open spec fn greater_from(a: Seq<u32>, b: Seq<u32>, i: int, n: int) -> bool
    decreases n - i,
{
    if i >= n {
        false
    } else if part_or_zero(a, i) != part_or_zero(b, i) {
        part_or_zero(a, i) > part_or_zero(b, i)
    } else {
        greater_from(a, b, i + 1, n)
    }
}

/// Whether `latest` is a newer version than `current`.
pub open spec fn newer_version(current: Seq<char>, latest: Seq<char>) -> bool {
    let c = version_parts(current);
    let l = version_parts(latest);
    greater_from(l, c, 0, if c.len() > l.len() {
        c.len() as int
    } else {
        l.len() as int
    })
}

fn version_numbers(v: &str) -> (r: Vec<u32>)
    ensures
        r@ == version_parts(v@),
{
    let cs = chars_of(v);
    let start: usize = if cs.len() > 0 && cs[0] == 'v' {
        1
    } else {
        0
    };
    proof {
        if cs@.len() > 0 && cs@[0] == 'v' {
            assert(cs@.subrange(1, cs@.len() as int) =~= strip_v(v@));
        } else {
            assert(cs@.subrange(0, cs@.len() as int) =~= strip_v(v@));
        }
    }
    let parts = split_spans(&cs, start, cs.len(), '.');
    let ghost ps = span_texts(cs@, parts@);
    let mut nums: Vec<u32> = Vec::new();
    let mut i: usize = 0;
    while i < parts.len()
        invariant
            i <= parts@.len(),
            ps == span_texts(cs@, parts@),
            ps == split_on(strip_v(v@), '.'),
            forall|j: int|
                0 <= j < parts@.len() ==> start <= (#[trigger] parts@[j]).0 <= parts@[j].1
                    <= cs@.len(),
            nums@ == numeric_parts(ps.take(i as int)),
        decreases parts@.len() - i,
    {
        let n = parse_u32_span(&cs, parts[i].0, parts[i].1);
        proof {
            assert(ps.take(i + 1).drop_last() =~= ps.take(i as int));
            assert(ps.take(i + 1).last() == cs@.subrange(parts@[i as int].0 as int, parts@[i as int].1 as int));
        }
        match n {
            Some(x) => {
                nums.push(x);
            },
            None => {
                assert(nums@ =~= nums@ + Seq::<u32>::empty());
            },
        }
        i = i + 1;
    }
    assert(ps.take(i as int) =~= ps);
    nums
}

fn part_at(p: &Vec<u32>, i: usize) -> (r: u32)
    ensures
        r == part_or_zero(p@, i as int),
{
    if i < p.len() {
        p[i]
    } else {
        0
    }
}

/// Whether `latest` is a newer version than `current`: a leading `v` is
/// dropped, the dot-separated parts that read as numbers are compared in
/// order, and missing parts count as 0.
pub fn is_newer_version(current: &str, latest: &str) -> (r: bool)
    ensures
        r == newer_version(current@, latest@),
{
    let c = version_numbers(current);
    let l = version_numbers(latest);
    let n = if c.len() > l.len() {
        c.len()
    } else {
        l.len()
    };
    let mut i: usize = 0;
    while i < n
        invariant
            i <= n,
            c@ == version_parts(current@),
            l@ == version_parts(latest@),
            n as int == (if c@.len() > l@.len() {
                c@.len() as int
            } else {
                l@.len() as int
            }),
            greater_from(l@, c@, 0, n as int) == greater_from(l@, c@, i as int, n as int),
        decreases n - i,
    {
        let a = part_at(&l, i);
        let b = part_at(&c, i);
        if a != b {
            assert(greater_from(l@, c@, i as int, n as int) == (a > b));
            return a > b;
        }
        assert(greater_from(l@, c@, i as int, n as int) == greater_from(l@, c@, i + 1, n as int));
        i = i + 1;
    }
    false
}

/// The first asset of the release with the given name.
pub fn find_platform_asset<'a>(release: &'a GitHubRelease, binary_name: &String) -> (r: Option<
    &'a GitHubAsset,
>)
    ensures
        match r {
            Some(a) => exists|i: int|
                0 <= i < release.assets@.len() && (#[trigger] release.assets@[i]) == *a
                    && a.name@ == binary_name@ && forall|j: int|
                    0 <= j < i ==> (#[trigger] release.assets@[j]).name@ != binary_name@,
            None => forall|j: int|
                0 <= j < release.assets@.len() ==> (#[trigger] release.assets@[j]).name@
                    != binary_name@,
        },
{
    let mut i: usize = 0;
    while i < release.assets.len()
        invariant
            i <= release.assets@.len(),
            forall|j: int| 0 <= j < i ==> (#[trigger] release.assets@[j]).name@ != binary_name@,
        decreases release.assets@.len() - i,
    {
        if release.assets[i].name == *binary_name {
            return Some(&release.assets[i]);
        }
        i = i + 1;
    }
    None
}

} // verus!
