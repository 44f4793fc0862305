use vstd::prelude::*;
use crate::bytes::{bytes_eq, copy_range};
use crate::decimal::{digits_value, is_digit};

verus! {

/// The audio and video file extensions that a package may carry.
pub open spec fn is_media_extension(e: Seq<u8>) -> bool {
    e == seq![97u8, 105u8, 102u8]
        || e == seq![99u8, 100u8, 97u8]
        || e == seq![109u8, 105u8, 100u8]
        || e == seq![109u8, 105u8, 100u8, 105u8]
        || e == seq![109u8, 112u8, 51u8]
        || e == seq![109u8, 112u8, 97u8]
        || e == seq![111u8, 103u8, 103u8]
        || e == seq![119u8, 97u8, 118u8]
        || e == seq![119u8, 109u8, 97u8]
        || e == seq![119u8, 112u8, 108u8]
        || e == seq![51u8, 103u8, 50u8]
        || e == seq![51u8, 103u8, 112u8]
        || e == seq![97u8, 118u8, 105u8]
        || e == seq![102u8, 108u8, 118u8]
        || e == seq![104u8, 50u8, 54u8, 52u8]
        || e == seq![109u8, 52u8, 118u8]
        || e == seq![109u8, 107u8, 118u8]
        || e == seq![109u8, 111u8, 118u8]
        || e == seq![109u8, 112u8, 52u8]
        || e == seq![109u8, 112u8, 103u8]
        || e == seq![109u8, 112u8, 101u8, 103u8]
        || e == seq![114u8, 109u8]
        || e == seq![115u8, 119u8, 102u8]
        || e == seq![118u8, 111u8, 98u8]
        || e == seq![119u8, 109u8, 118u8]
}

/// Whether `e` is one of the audio or video extensions.
pub fn media_extension(e: &[u8]) -> (r: bool)
    ensures
        r == is_media_extension(e@),
{
    let x: Vec<u8> = vec![97u8, 105u8, 102u8];
    assert(x@ =~= seq![97u8, 105u8, 102u8]);
    if bytes_eq(e, x.as_slice()) {
        return true;
    }
    let x: Vec<u8> = vec![99u8, 100u8, 97u8];
    assert(x@ =~= seq![99u8, 100u8, 97u8]);
    if bytes_eq(e, x.as_slice()) {
        return true;
    }
    let x: Vec<u8> = vec![109u8, 105u8, 100u8];
    assert(x@ =~= seq![109u8, 105u8, 100u8]);
    if bytes_eq(e, x.as_slice()) {
        return true;
    }
    let x: Vec<u8> = vec![109u8, 105u8, 100u8, 105u8];
    assert(x@ =~= seq![109u8, 105u8, 100u8, 105u8]);
    if bytes_eq(e, x.as_slice()) {
        return true;
    }
    let x: Vec<u8> = vec![109u8, 112u8, 51u8];
    assert(x@ =~= seq![109u8, 112u8, 51u8]);
    if bytes_eq(e, x.as_slice()) {
        return true;
    }
    let x: Vec<u8> = vec![109u8, 112u8, 97u8];
    assert(x@ =~= seq![109u8, 112u8, 97u8]);
    if bytes_eq(e, x.as_slice()) {
        return true;
    }
    let x: Vec<u8> = vec![111u8, 103u8, 103u8];
    assert(x@ =~= seq![111u8, 103u8, 103u8]);
    if bytes_eq(e, x.as_slice()) {
        return true;
    }
    let x: Vec<u8> = vec![119u8, 97u8, 118u8];
    assert(x@ =~= seq![119u8, 97u8, 118u8]);
    if bytes_eq(e, x.as_slice()) {
        return true;
    }
    let x: Vec<u8> = vec![119u8, 109u8, 97u8];
    assert(x@ =~= seq![119u8, 109u8, 97u8]);
    if bytes_eq(e, x.as_slice()) {
        return true;
    }
    let x: Vec<u8> = vec![119u8, 112u8, 108u8];
    assert(x@ =~= seq![119u8, 112u8, 108u8]);
    if bytes_eq(e, x.as_slice()) {
        return true;
    }
    let x: Vec<u8> = vec![51u8, 103u8, 50u8];
    assert(x@ =~= seq![51u8, 103u8, 50u8]);
    if bytes_eq(e, x.as_slice()) {
        return true;
    }
    let x: Vec<u8> = vec![51u8, 103u8, 112u8];
    assert(x@ =~= seq![51u8, 103u8, 112u8]);
    if bytes_eq(e, x.as_slice()) {
        return true;
    }
    let x: Vec<u8> = vec![97u8, 118u8, 105u8];
    assert(x@ =~= seq![97u8, 118u8, 105u8]);
    if bytes_eq(e, x.as_slice()) {
        return true;
    }
    let x: Vec<u8> = vec![102u8, 108u8, 118u8];
    assert(x@ =~= seq![102u8, 108u8, 118u8]);
    if bytes_eq(e, x.as_slice()) {
        return true;
    }
    let x: Vec<u8> = vec![104u8, 50u8, 54u8, 52u8];
    assert(x@ =~= seq![104u8, 50u8, 54u8, 52u8]);
    if bytes_eq(e, x.as_slice()) {
        return true;
    }
    let x: Vec<u8> = vec![109u8, 52u8, 118u8];
    assert(x@ =~= seq![109u8, 52u8, 118u8]);
    if bytes_eq(e, x.as_slice()) {
        return true;
    }
    let x: Vec<u8> = vec![109u8, 107u8, 118u8];
    assert(x@ =~= seq![109u8, 107u8, 118u8]);
    if bytes_eq(e, x.as_slice()) {
        return true;
    }
    let x: Vec<u8> = vec![109u8, 111u8, 118u8];
    assert(x@ =~= seq![109u8, 111u8, 118u8]);
    if bytes_eq(e, x.as_slice()) {
        return true;
    }
    let x: Vec<u8> = vec![109u8, 112u8, 52u8];
    assert(x@ =~= seq![109u8, 112u8, 52u8]);
    if bytes_eq(e, x.as_slice()) {
        return true;
    }
    let x: Vec<u8> = vec![109u8, 112u8, 103u8];
    assert(x@ =~= seq![109u8, 112u8, 103u8]);
    if bytes_eq(e, x.as_slice()) {
        return true;
    }
    let x: Vec<u8> = vec![109u8, 112u8, 101u8, 103u8];
    assert(x@ =~= seq![109u8, 112u8, 101u8, 103u8]);
    if bytes_eq(e, x.as_slice()) {
        return true;
    }
    let x: Vec<u8> = vec![114u8, 109u8];
    assert(x@ =~= seq![114u8, 109u8]);
    if bytes_eq(e, x.as_slice()) {
        return true;
    }
    let x: Vec<u8> = vec![115u8, 119u8, 102u8];
    assert(x@ =~= seq![115u8, 119u8, 102u8]);
    if bytes_eq(e, x.as_slice()) {
        return true;
    }
    let x: Vec<u8> = vec![118u8, 111u8, 98u8];
    assert(x@ =~= seq![118u8, 111u8, 98u8]);
    if bytes_eq(e, x.as_slice()) {
        return true;
    }
    let x: Vec<u8> = vec![119u8, 109u8, 118u8];
    assert(x@ =~= seq![119u8, 109u8, 118u8]);
    if bytes_eq(e, x.as_slice()) {
        return true;
    }
    false
}

/// `i` is the last `.` of `f`, and not its first byte.
pub open spec fn is_last_dot(f: Seq<u8>, i: int) -> bool {
    0 < i < f.len() && f[i] == 46u8 && forall|j: int| i < j < f.len() ==> f[j] != 46u8
}

/// The extension of a filename: what follows its last `.`, when that `.` is
/// not the first byte.
pub open spec fn extension(f: Seq<u8>) -> Option<Seq<u8>> {
    if exists|i: int| is_last_dot(f, i) {
        let i = choose|i: int| is_last_dot(f, i);
        Some(f.subrange(i + 1, f.len() as int))
    } else {
        None
    }
}

/// The extension of `f`, if it has one.
pub fn extension_of(f: &[u8]) -> (r: Option<Vec<u8>>)
    ensures
        match r {
            Some(e) => extension(f@) == Some(e@),
            None => extension(f@) is None,
        },
{
    let mut i: usize = f.len();
    while i > 1
        invariant
            0 <= i <= f@.len(),
            forall|j: int| i <= j < f@.len() ==> f@[j] != 46u8,
        decreases i,
    {
        if f[i - 1] == 46u8 {
            let d = i - 1;
            proof {
                assert(is_last_dot(f@, d as int));
                let k = choose|k: int| is_last_dot(f@, k);
                if k < d {
                    assert(f@[d as int] != 46u8);
                } else if k > d {
                    assert(f@[k] != 46u8);
                }
            }
            return Some(copy_range(f, i, f.len()));
        }
        i = i - 1;
    }
    proof {
        if exists|k: int| is_last_dot(f@, k) {
            let k = choose|k: int| is_last_dot(f@, k);
            assert(f@[k] != 46u8 || k < i);
        }
    }
    None
}

/// Whether the filename carries an audio or video extension.
pub open spec fn is_media_file(f: Seq<u8>) -> bool {
    extension(f) is Some && is_media_extension(extension(f)->Some_0)
}

pub fn is_media_filename(f: &[u8]) -> (r: bool)
    ensures
        r == is_media_file(f@),
{
    match extension_of(f) {
        Some(e) => media_extension(e.as_slice()),
        None => false,
    }
}

/// `s[i..j]` is a whole run of ASCII digits: no digit stands right before
/// or right after it.
pub open spec fn numeric_token(s: Seq<u8>, i: int, j: int) -> bool {
    &&& 0 <= i < j <= s.len()
    &&& forall|k: int| i <= k < j ==> is_digit(#[trigger] s[k])
    &&& (i == 0 || !is_digit(s[i - 1]))
    &&& (j == s.len() || !is_digit(s[j]))
}

/// Whether `s` holds a run of digits whose value is `n` (leading zeros allowed).
pub open spec fn has_number_token(s: Seq<u8>, n: nat) -> bool {
    exists|i: int, j: int| numeric_token(s, i, j) && #[trigger] digits_value(s.subrange(i, j)) == n
}

proof fn lemma_token_end(s: Seq<u8>, i: int, j: int, j2: int)
    requires
        numeric_token(s, i, j),
        numeric_token(s, i, j2),
    ensures
        j == j2,
{
    if j < j2 {
        assert(is_digit(s[j]));
    } else if j2 < j {
        assert(is_digit(s[j2]));
    }
}

/// Whether `s` holds the number `n` as a run of digits of its own.
pub fn contains_number(s: &[u8], n: u16) -> (r: bool)
    ensures
        r == has_number_token(s@, n as nat),
{
    let len = s.len();
    let mut i: usize = 0;
    while i < len
        invariant
            len == s@.len(),
            0 <= i <= len,
            i > 0 && i < len ==> !is_digit(s@[i - 1]) || !is_digit(s@[i as int]),
            forall|a: int, b: int| 0 <= a < i && numeric_token(s@, a, b) ==> #[trigger] digits_value(s@.subrange(a, b)) != n as nat,
        decreases len - i,
    {
        if s[i] < 48u8 || s[i] > 57u8 {
            proof {
                assert forall|a: int, b: int| 0 <= a < i + 1 && numeric_token(s@, a, b) implies #[trigger] digits_value(s@.subrange(a, b)) != n as nat by {
                    if a == i {
                        assert(is_digit(s@[a]));
                    }
                }
            }
            i = i + 1;
            continue;
        }
        let start = i;
        let mut v: u32 = 0;
        let mut big = false;
        let mut j: usize = i;
        while j < len && s[j] >= 48u8 && s[j] <= 57u8
            invariant
                len == s@.len(),
                start <= j <= len,
                start < len,
                forall|k: int| start <= k < j ==> is_digit(#[trigger] s@[k]),
                !big ==> v as nat == digits_value(s@.subrange(start as int, j as int)),
                big ==> digits_value(s@.subrange(start as int, j as int)) > 65535,
                v <= 65535,
            decreases len - j,
        {
            let d = (s[j] - 48u8) as u32;
            proof {
                assert(s@.subrange(start as int, j + 1).drop_last() =~= s@.subrange(start as int, j as int));
            }
            if !big {
                if v * 10 + d > 65535 {
                    big = true;
                } else {
                    v = v * 10 + d;
                }
            }
            j = j + 1;
        }
        proof {
            assert(start > 0 ==> !is_digit(s@[start - 1]));
            assert(numeric_token(s@, start as int, j as int));
        }
        if !big && v == n as u32 {
            return true;
        }
        proof {
            assert forall|a: int, b: int| 0 <= a < j && numeric_token(s@, a, b) implies #[trigger] digits_value(s@.subrange(a, b)) != n as nat by {
                if a == start {
                    lemma_token_end(s@, a, j as int, b);
                } else if a > start {
                    assert(is_digit(s@[a - 1]));
                }
            }
        }
        i = j;
    }
    false
}

/// Whether `t` occurs in `s` at position `i`.
pub open spec fn occurs_at(s: Seq<u8>, t: Seq<u8>, i: int) -> bool {
    0 <= i && i + t.len() <= s.len() && s.subrange(i, i + t.len()) == t
}

pub open spec fn has_substring(s: Seq<u8>, t: Seq<u8>) -> bool {
    exists|i: int| occurs_at(s, t, i)
}

/// Whether `t` occurs in `s`.
pub fn contains_bytes(s: &[u8], t: &[u8]) -> (r: bool)
    ensures
        r == has_substring(s@, t@),
{
    if t.len() > s.len() {
        return false;
    }
    if t.len() == 0 {
        assert(s@.subrange(0, 0) =~= t@);
        assert(occurs_at(s@, t@, 0));
        return true;
    }
    let last = s.len() - t.len();
    let mut i: usize = 0;
    while i <= last
        invariant
            last == s@.len() - t@.len(),
            t@.len() <= s@.len(),
            t@.len() > 0,
            s@.len() == s.len(),
            0 <= i <= last + 1,
            forall|k: int| 0 <= k < i ==> !occurs_at(s@, t@, k),
        decreases last + 1 - i,
    {
        let mut k: usize = 0;
        let mut same = true;
        while k < t.len()
            invariant
                i <= last,
                last == s@.len() - t@.len(),
                t@.len() <= s@.len(),
                i + t@.len() <= s@.len(),
                s@.len() == s.len(),
                0 <= k <= t@.len(),
                same == forall|m: int| 0 <= m < k ==> s@[i + m] == t@[m],
            decreases t@.len() - k,
        {
            if s[i + k] != t[k] {
                same = false;
            }
            k = k + 1;
        }
        proof {
            if same {
                assert(s@.subrange(i as int, i + t@.len()) =~= t@);
                assert(occurs_at(s@, t@, i as int));
            } else {
                let m = choose|m: int| 0 <= m < t@.len() && s@[i + m] != t@[m];
                assert(s@.subrange(i as int, i + t@.len())[m] != t@[m]);
            }
        }
        if same {
            return true;
        }
        i = i + 1;
    }
    false
}

/// One package as the index lists it.
#[derive(Debug, Clone)]
pub struct PackageDescriptor {
    pub filename: Vec<u8>,
    pub size: u64,
    pub bot: Vec<u8>,
    pub number: u64,
}

#[derive(Debug, Clone, Copy, PartialEq, Eq)]
pub enum ResolutionError {
    NotFound,
    NoExtension,
    IndexUnavailable,
}

/// Whether a package may answer a query: it carries an audio or video
/// extension and, when an episode was asked for, holds its number.
pub open spec fn eligible(f: Seq<u8>, episode: Option<u16>) -> bool {
    &&& is_media_file(f)
    &&& match episode {
        Some(e) => has_number_token(f, e as nat),
        None => true,
    }
}

/// Package `a` ranks above package `b` for `title`: it holds the title where
/// `b` does not, or both do alike and `a` has the higher number.
pub open spec fn ranks_above(a: PackageDescriptor, b: PackageDescriptor, title: Seq<u8>) -> bool {
    let ta = has_substring(a.filename@, title);
    let tb = has_substring(b.filename@, title);
    (ta && !tb) || (ta == tb && a.number > b.number)
}

/// `i` is the package chosen among `c`: eligible, ranked below no eligible
/// package, and above every eligible one listed before it.
pub open spec fn is_choice(c: Seq<PackageDescriptor>, title: Seq<u8>, episode: Option<u16>, i: int) -> bool {
    &&& 0 <= i < c.len()
    &&& eligible(c[i].filename@, episode)
    &&& forall|j: int| 0 <= j < c.len() && eligible(#[trigger] c[j].filename@, episode) ==> !ranks_above(c[j], c[i], title)
    &&& forall|j: int| 0 <= j < i && eligible(#[trigger] c[j].filename@, episode) ==> ranks_above(c[i], c[j], title)
}

pub open spec fn same_package(a: PackageDescriptor, b: PackageDescriptor) -> bool {
    a.filename@ == b.filename@ && a.bot@ == b.bot@ && a.size == b.size && a.number == b.number
}

/// Picks the package to fetch for one query among what the index returned
/// (`None`: the index could not be reached). `NotFound` when no package is
/// eligible, but `NoExtension` when the only candidate has no extension.
pub fn resolve(candidates: Option<Vec<PackageDescriptor>>, title: &[u8], episode: Option<u16>) -> (r: Result<PackageDescriptor, ResolutionError>)
    ensures
        match candidates {
            None => r == Err::<PackageDescriptor, ResolutionError>(ResolutionError::IndexUnavailable),
            Some(c) => {
                let any = exists|i: int| 0 <= i < c@.len() && eligible(#[trigger] c@[i].filename@, episode);
                let lone = c@.len() == 1 && extension(c@[0].filename@) is None;
                &&& !any && lone ==> r == Err::<PackageDescriptor, ResolutionError>(ResolutionError::NoExtension)
                &&& !any && !lone ==> r == Err::<PackageDescriptor, ResolutionError>(ResolutionError::NotFound)
                &&& any ==> r is Ok && exists|i: int| #[trigger] is_choice(c@, title@, episode, i) && same_package(r->Ok_0, c@[i])
            },
        },
{
    let c = match candidates {
        None => {
            return Err(ResolutionError::IndexUnavailable);
        },
        Some(c) => c,
    };
    let mut best: usize = c.len();
    let mut best_titled = false;
    let mut i: usize = 0;
    while i < c.len()
        invariant
            0 <= i <= c@.len(),
            best <= c@.len(),
            best == c@.len() ==> forall|j: int| 0 <= j < i ==> !eligible(#[trigger] c@[j].filename@, episode),
            best < c@.len() ==> {
                &&& best < i
                &&& eligible(c@[best as int].filename@, episode)
                &&& best_titled == has_substring(c@[best as int].filename@, title@)
                &&& forall|j: int| 0 <= j < i && eligible(#[trigger] c@[j].filename@, episode) ==> !ranks_above(c@[j], c@[best as int], title@)
                &&& forall|j: int| 0 <= j < best && eligible(#[trigger] c@[j].filename@, episode) ==> ranks_above(c@[best as int], c@[j], title@)
            },
        decreases c@.len() - i,
    {
        let f = c[i].filename.as_slice();
        let ok = is_media_filename(f) && match episode {
            Some(e) => contains_number(f, e),
            None => true,
        };
        if ok {
            let titled = contains_bytes(f, title);
            if best == c.len() || (titled && !best_titled) || (titled == best_titled && c[i].number > c[best].number) {
                best = i;
                best_titled = titled;
            }
        }
        i = i + 1;
    }
    if best < c.len() {
        let p = &c[best];
        let r = PackageDescriptor {
            filename: copy_range(p.filename.as_slice(), 0, p.filename.len()),
            size: p.size,
            bot: copy_range(p.bot.as_slice(), 0, p.bot.len()),
            number: p.number,
        };
        proof {
            assert(p.filename@.subrange(0, p.filename@.len() as int) =~= p.filename@);
            assert(p.bot@.subrange(0, p.bot@.len() as int) =~= p.bot@);
            assert(is_choice(c@, title@, episode, best as int));
            assert(same_package(r, c@[best as int]));
        }
        return Ok(r);
    }
    if c.len() == 1 {
        if extension_of(c[0].filename.as_slice()).is_none() {
            return Err(ResolutionError::NoExtension);
        }
    }
    Err(ResolutionError::NotFound)
}

} // verus!
